//! Edit scripts over strings, with offsets in bytes of the UTF-8 encoding.
use difference::{Changeset, Difference};
use vstd::prelude::*;
use vstd::string::StringExecFns;
use vstd::utf8::{encode_utf8, is_char_boundary};

verus! {

/// One step of an edit script over a string. Offsets count bytes of its UTF-8
/// encoding, and refer to the string as left by the steps before it.
#[derive(Debug, PartialEq, Eq)]
pub enum TextChange {
    Inserted { at: usize, new_content: String },
    Deleted { at: usize, upto: usize },
}

/// The UTF-8 encoding of a sequence of characters is the encodings of its parts.
pub proof fn lemma_encode_concat(a: Seq<char>, b: Seq<char>)
    ensures
        encode_utf8(a + b) == encode_utf8(a) + encode_utf8(b),
    decreases a.len(),
{
    if a.len() == 0 {
        assert(a + b =~= b);
        assert(encode_utf8(a) =~= Seq::<u8>::empty());
        assert(encode_utf8(a) + encode_utf8(b) =~= encode_utf8(b));
    } else {
        assert((a + b)[0] == a[0]);
        assert((a + b).drop_first() =~= a.drop_first() + b);
        lemma_encode_concat(a.drop_first(), b);
        assert(encode_utf8(a + b) =~= encode_utf8(a) + encode_utf8(b));
    }
}

impl TextChange {
    /// The offsets lie on character boundaries of `text`, a removal's in order.
    pub open spec fn applies_to(&self, text: Seq<char>) -> bool {
        let bytes = encode_utf8(text);
        match self {
            TextChange::Inserted { at, .. } => is_char_boundary(bytes, *at as int),
            TextChange::Deleted { at, upto } => *at <= *upto && is_char_boundary(bytes, *at as int)
                && is_char_boundary(bytes, *upto as int),
        }
    }

    /// The encoding of `text` after the change: a removal drops the bytes in
    /// `[at, upto)`, an insertion splices the new content's bytes in at `at`.
    pub open spec fn applied(&self, text: Seq<char>) -> Seq<u8> {
        let bytes = encode_utf8(text);
        match self {
            TextChange::Inserted { at, new_content } => bytes.subrange(0, *at as int) + encode_utf8(
                new_content@,
            ) + bytes.subrange(*at as int, bytes.len() as int),
            TextChange::Deleted { at, upto } => bytes.subrange(0, *at as int) + bytes.subrange(
                *upto as int,
                bytes.len() as int,
            ),
        }
    }

    /// Applies this change to `buffer` in place.
    pub fn apply(&self, buffer: &mut String)
        requires
            self.applies_to(old(buffer)@),
        ensures
            encode_utf8(final(buffer)@) == self.applied(old(buffer)@),
    {
        let text = buffer.as_str();
        let result = match self {
            TextChange::Deleted { at, upto } => {
                let (head, _) = text.split_at(*at);
                let (_, tail) = text.split_at(*upto);
                let mut result = String::from_str(head);
                result.append(tail);
                proof {
                    lemma_encode_concat(head@, tail@);
                }
                result
            },
            TextChange::Inserted { at, new_content } => {
                let (head, tail) = text.split_at(*at);
                let mut result = String::from_str(head);
                result.append(new_content.as_str());
                result.append(tail);
                proof {
                    lemma_encode_concat(head@, new_content@);
                    lemma_encode_concat(head@ + new_content@, tail@);
                }
                result
            },
        };
        *buffer = result;
    }
}


/// What a `TextChange` stands for.
pub ghost enum TextEdit {
    Insert { at: nat, content: Seq<char> },
    Remove { at: nat, upto: nat },
}

impl View for TextChange {
    type V = TextEdit;

    open spec fn view(&self) -> TextEdit {
        match self {
            TextChange::Inserted { at, new_content } => TextEdit::Insert {
                at: *at as nat,
                content: new_content@,
            },
            TextChange::Deleted { at, upto } => TextEdit::Remove { at: *at as nat, upto: *upto as nat },
        }
    }
}

pub open spec fn text_edits_of(changes: Seq<TextChange>) -> Seq<TextEdit> {
    changes.map_values(|c: TextChange| c@)
}

/// One piece of a character-level changeset: text both strings share, text
/// only the new one has, or text only the old one has.
#[derive(Debug)]
pub enum TextPiece {
    Same(String),
    Add(String),
    Rem(String),
}

/// What a `TextPiece` stands for.
pub ghost enum Piece {
    Same(Seq<char>),
    Add(Seq<char>),
    Rem(Seq<char>),
}

impl View for TextPiece {
    type V = Piece;

    open spec fn view(&self) -> Piece {
        match self {
            TextPiece::Same(s) => Piece::Same(s@),
            TextPiece::Add(s) => Piece::Add(s@),
            TextPiece::Rem(s) => Piece::Rem(s@),
        }
    }
}

pub open spec fn pieces_of(pieces: Seq<TextPiece>) -> Seq<Piece> {
    pieces.map_values(|p: TextPiece| p@)
}

/// The length in bytes of the UTF-8 encoding of `s`, as `str::len` gives it.
pub open spec fn byte_len(s: Seq<char>) -> nat {
    (encode_utf8(s).len() as usize) as nat
}

/// The changeset that the character-level comparison of `old` with `new` gives.
pub uninterp spec fn changeset_of(old: Seq<char>, new: Seq<char>) -> Seq<Piece>;

/// The script of `pieces`, with a running byte offset `at` into the string
/// being built: shared text moves it on, added text is inserted there and moves
/// it on, and removed text is removed there, from `at` up to `at` plus its
/// length in bytes. `None` when an offset exceeds `usize`.
pub open spec fn text_script(pieces: Seq<Piece>, at: nat) -> Option<Seq<TextEdit>>
    decreases pieces.len(),
{
    if pieces.len() == 0 {
        Some(seq![])
    } else {
        let rest = pieces.drop_first();
        match pieces[0] {
            Piece::Same(s) => if at + byte_len(s) > usize::MAX {
                None
            } else {
                text_script(rest, at + byte_len(s))
            },
            Piece::Add(s) => if at + byte_len(s) > usize::MAX {
                None
            } else {
                match text_script(rest, at + byte_len(s)) {
                    Some(t) => Some(seq![TextEdit::Insert { at, content: s }] + t),
                    None => None,
                }
            },
            Piece::Rem(s) => if at + byte_len(s) > usize::MAX {
                None
            } else {
                match text_script(rest, at) {
                    Some(t) => Some(seq![TextEdit::Remove { at, upto: at + byte_len(s) }] + t),
                    None => None,
                }
            },
        }
    }
}

impl TextChange {
    /// The script of a changeset, or `None` when an offset would exceed `usize`.
    pub fn script_from_pieces(pieces: &Vec<TextPiece>) -> (r: Option<Vec<TextChange>>)
        ensures
            r is Some <==> text_script(pieces_of(pieces@), 0) is Some,
            r matches Some(v) ==> text_edits_of(v@) == text_script(pieces_of(pieces@), 0)->0,
    {
        let ghost all = pieces_of(pieces@);
        let ghost n = all.len() as int;
        let mut out: Vec<TextChange> = Vec::new();
        let mut at: usize = 0;
        let mut k: usize = 0;
        assert(all.subrange(0, n) =~= all);
        while k < pieces.len()
            invariant
                k <= n,
                n == pieces@.len(),
                all == pieces_of(pieces@),
                text_script(all, 0) == match text_script(all.subrange(k as int, n), at as nat) {
                    Some(t) => Some(text_edits_of(out@) + t),
                    None => None::<Seq<TextEdit>>,
                },
            decreases n - k,
        {
            let ghost rest = all.subrange(k as int, n);
            assert(rest[0] == pieces@[k as int]@);
            assert(rest.drop_first() =~= all.subrange(k + 1, n));
            let ghost before = out@;
            match &pieces[k] {
                TextPiece::Same(s) => {
                    let len = s.as_str().len();
                    if len > usize::MAX - at {
                        return None;
                    }
                    at = at + len;
                },
                TextPiece::Add(s) => {
                    let len = s.as_str().len();
                    if len > usize::MAX - at {
                        return None;
                    }
                    out.push(TextChange::Inserted { at, new_content: s.clone() });
                    at = at + len;
                    proof {
                        assert(text_edits_of(out@) =~= text_edits_of(before) + seq![
                            out@[before.len() as int]@,
                        ]);
                    }
                },
                TextPiece::Rem(s) => {
                    let len = s.as_str().len();
                    if len > usize::MAX - at {
                        return None;
                    }
                    out.push(TextChange::Deleted { at, upto: at + len });
                    proof {
                        assert(text_edits_of(out@) =~= text_edits_of(before) + seq![
                            out@[before.len() as int]@,
                        ]);
                    }
                },
            }
            k = k + 1;
        }
        assert(all.subrange(k as int, n) =~= Seq::<Piece>::empty());
        assert(text_edits_of(out@) + Seq::<TextEdit>::empty() =~= text_edits_of(out@));
        Some(out)
    }

    /// The script of the character-level changeset of `old` and `new`, or
    /// `None` when an offset would exceed `usize`.
    pub fn diff(old: &str, new: &str) -> (r: Option<Vec<TextChange>>)
        requires
            old@.len() * new@.len() * 8 <= isize::MAX,
        ensures
            r is Some <==> text_script(changeset_of(old@, new@), 0) is Some,
            r matches Some(v) ==> text_edits_of(v@) == text_script(changeset_of(old@, new@), 0)->0,
    {
        let pieces = changeset_pieces(old, new);
        TextChange::script_from_pieces(&pieces)
    }
}

/// Relies on difference::Changeset::new with the empty split, which compares
/// the strings one character at a time: its diffs, one piece each. The result
/// depends on the two strings alone. Its table of `old@.len() * new@.len()`
/// entries must be allocatable, or it panics.
#[verifier::external_body]
fn changeset_pieces(old: &str, new: &str) -> (r: Vec<TextPiece>)
    requires
        old@.len() * new@.len() * 8 <= isize::MAX,
    ensures
        pieces_of(r@) == changeset_of(old@, new@),
{
    Changeset::new(old, new, "")
        .diffs
        .into_iter()
        .map(|d| match d {
            Difference::Same(s) => TextPiece::Same(s),
            Difference::Add(s) => TextPiece::Add(s),
            Difference::Rem(s) => TextPiece::Rem(s),
        })
        .collect()
}


/// The text a changeset says the old string was: its shared and removed pieces.
pub open spec fn old_of(pieces: Seq<Piece>) -> Seq<char>
    decreases pieces.len(),
{
    if pieces.len() == 0 {
        seq![]
    } else {
        match pieces[0] {
            Piece::Same(s) => s + old_of(pieces.drop_first()),
            Piece::Rem(s) => s + old_of(pieces.drop_first()),
            Piece::Add(_) => old_of(pieces.drop_first()),
        }
    }
}

/// The text a changeset says the new string is: its shared and added pieces.
pub open spec fn new_of(pieces: Seq<Piece>) -> Seq<char>
    decreases pieces.len(),
{
    if pieces.len() == 0 {
        seq![]
    } else {
        match pieces[0] {
            Piece::Same(s) => s + new_of(pieces.drop_first()),
            Piece::Add(s) => s + new_of(pieces.drop_first()),
            Piece::Rem(_) => new_of(pieces.drop_first()),
        }
    }
}

impl TextEdit {
    /// The offsets lie within `bytes`, a removal's in order.
    pub open spec fn fits(self, bytes: Seq<u8>) -> bool {
        match self {
            TextEdit::Insert { at, .. } => at <= bytes.len(),
            TextEdit::Remove { at, upto } => at <= upto <= bytes.len(),
        }
    }

    /// What the edit makes of the encoded text `bytes`, as `TextChange::apply` does.
    pub open spec fn apply(self, bytes: Seq<u8>) -> Seq<u8> {
        match self {
            TextEdit::Insert { at, content } => bytes.subrange(0, at as int) + encode_utf8(content)
                + bytes.subrange(at as int, bytes.len() as int),
            TextEdit::Remove { at, upto } => bytes.subrange(0, at as int) + bytes.subrange(
                upto as int,
                bytes.len() as int,
            ),
        }
    }
}

/// Every edit is in range of the encoded text that the edits before it left.
pub open spec fn text_script_fits(bytes: Seq<u8>, edits: Seq<TextEdit>) -> bool
    decreases edits.len(),
{
    if edits.len() == 0 {
        true
    } else {
        edits[0].fits(bytes) && text_script_fits(edits[0].apply(bytes), edits.drop_first())
    }
}

/// The encoded text that results from applying the edits in order.
pub open spec fn replay_text(bytes: Seq<u8>, edits: Seq<TextEdit>) -> Seq<u8>
    decreases edits.len(),
{
    if edits.len() == 0 {
        bytes
    } else {
        replay_text(edits[0].apply(bytes), edits.drop_first())
    }
}

proof fn lemma_text_walk(pieces: Seq<Piece>, done: Seq<char>)
    requires
        encode_utf8(done).len() + encode_utf8(old_of(pieces)).len() + encode_utf8(new_of(pieces)).len()
            <= usize::MAX,
    ensures
        ({
            let at = encode_utf8(done).len();
            let bytes = encode_utf8(done) + encode_utf8(old_of(pieces));
            &&& text_script(pieces, at) is Some
            &&& text_script_fits(bytes, text_script(pieces, at)->0)
            &&& replay_text(bytes, text_script(pieces, at)->0) == encode_utf8(done) + encode_utf8(
                new_of(pieces),
            )
        }),
    decreases pieces.len(),
{
    let at = encode_utf8(done).len();
    let pre = encode_utf8(done);
    if pieces.len() == 0 {
        assert(encode_utf8(Seq::<char>::empty()) =~= Seq::<u8>::empty());
        assert(pre + encode_utf8(old_of(pieces)) =~= pre);
        assert(pre + encode_utf8(new_of(pieces)) =~= pre);
    } else {
        let rest = pieces.drop_first();
        let old_rest = encode_utf8(old_of(rest));
        let new_rest = encode_utf8(new_of(rest));
        match pieces[0] {
            Piece::Same(s) => {
                let e = encode_utf8(s);
                lemma_encode_concat(s, old_of(rest));
                lemma_encode_concat(s, new_of(rest));
                lemma_encode_concat(done, s);
                assert(byte_len(s) == e.len());
                lemma_text_walk(rest, done + s);
                assert(pre + (e + old_rest) =~= (pre + e) + old_rest);
                assert(pre + (e + new_rest) =~= (pre + e) + new_rest);
            },
            Piece::Add(s) => {
                let e = encode_utf8(s);
                lemma_encode_concat(s, new_of(rest));
                lemma_encode_concat(done, s);
                assert(byte_len(s) == e.len());
                lemma_text_walk(rest, done + s);
                let bytes = pre + old_rest;
                let edit = TextEdit::Insert { at, content: s };
                assert(edit.apply(bytes) =~= (pre + e) + old_rest);
                let t = text_script(rest, at + e.len())->0;
                assert((seq![edit] + t)[0] == edit);
                assert((seq![edit] + t).drop_first() =~= t);
                assert(pre + (e + new_rest) =~= (pre + e) + new_rest);
            },
            Piece::Rem(s) => {
                let e = encode_utf8(s);
                lemma_encode_concat(s, old_of(rest));
                assert(byte_len(s) == e.len());
                lemma_text_walk(rest, done);
                let bytes = pre + (e + old_rest);
                let edit = TextEdit::Remove { at, upto: at + e.len() };
                assert(edit.apply(bytes) =~= pre + old_rest);
                let t = text_script(rest, at)->0;
                assert((seq![edit] + t)[0] == edit);
                assert((seq![edit] + t).drop_first() =~= t);
            },
        }
    }
}

/// Round trip of text scripts. For a changeset whose shared and removed pieces
/// make up `old` and whose shared and added pieces make up `new`, with both
/// encodings fitting in `usize` together, the script exists, every edit of it is
/// in range, and replaying it on the encoding of `old` yields that of `new`.
pub proof fn lemma_text_round_trip(pieces: Seq<Piece>, old: Seq<char>, new: Seq<char>)
    requires
        old_of(pieces) == old,
        new_of(pieces) == new,
        encode_utf8(old).len() + encode_utf8(new).len() <= usize::MAX,
    ensures
        text_script(pieces, 0) is Some,
        text_script_fits(encode_utf8(old), text_script(pieces, 0)->0),
        replay_text(encode_utf8(old), text_script(pieces, 0)->0) == encode_utf8(new),
{
    let none = Seq::<char>::empty();
    assert(encode_utf8(none) =~= Seq::<u8>::empty());
    lemma_text_walk(pieces, none);
    assert(encode_utf8(none) + encode_utf8(old) =~= encode_utf8(old));
    assert(encode_utf8(none) + encode_utf8(new) =~= encode_utf8(new));
}

} // verus!
