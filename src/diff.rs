//! Byte-level edit scripts: computing one between two buffers and replaying it.
use std::time::{Duration, Instant};

use similar::{Algorithm, DiffOp};
use vstd::prelude::*;

verus! {

/// How long the alignment search may run before it settles for what it has.
pub const DIFF_DEADLINE_MILLIS: u64 = 100;

/// One step of an edit script over a byte buffer. Offsets refer to the buffer
/// as left by the steps before it.
#[derive(Debug, PartialEq, Eq)]
pub enum ContentChange {
    Inserted { at: usize, new_content: Vec<u8> },
    Deleted { at: usize, upto: usize },
}

/// The mathematical meaning of a `ContentChange`.
pub ghost enum Edit {
    Insert { at: nat, content: Seq<u8> },
    Remove { at: nat, upto: nat },
}

impl View for ContentChange {
    type V = Edit;

    open spec fn view(&self) -> Edit {
        match self {
            ContentChange::Inserted { at, new_content } => Edit::Insert {
                at: *at as nat,
                content: new_content@,
            },
            ContentChange::Deleted { at, upto } => Edit::Remove { at: *at as nat, upto: *upto as nat },
        }
    }
}

impl Edit {
    /// The offsets of the edit lie within `buf`.
    pub open spec fn applies_to(self, buf: Seq<u8>) -> bool {
        match self {
            Edit::Insert { at, .. } => at <= buf.len(),
            Edit::Remove { at, upto } => at <= upto <= buf.len(),
        }
    }

    /// `Remove` drops the half-open range `[at, upto)`; `Insert` splices its
    /// content in at `at`.
    pub open spec fn apply(self, buf: Seq<u8>) -> Seq<u8> {
        match self {
            Edit::Insert { at, content } => buf.subrange(0, at as int) + content + buf.subrange(
                at as int,
                buf.len() as int,
            ),
            Edit::Remove { at, upto } => buf.subrange(0, at as int) + buf.subrange(
                upto as int,
                buf.len() as int,
            ),
        }
    }
}

pub open spec fn edits_of(changes: Seq<ContentChange>) -> Seq<Edit> {
    changes.map_values(|c: ContentChange| c@)
}

/// Every edit of the script is in range of the buffer that the edits before it left.
pub open spec fn script_applies(buf: Seq<u8>, edits: Seq<Edit>) -> bool
    decreases edits.len(),
{
    if edits.len() == 0 {
        true
    } else {
        edits[0].applies_to(buf) && script_applies(edits[0].apply(buf), edits.drop_first())
    }
}

/// The buffer that results from applying the edits in order.
pub open spec fn apply_script(buf: Seq<u8>, edits: Seq<Edit>) -> Seq<u8>
    decreases edits.len(),
{
    if edits.len() == 0 {
        buf
    } else {
        apply_script(edits[0].apply(buf), edits.drop_first())
    }
}

pub proof fn lemma_script_concat(buf: Seq<u8>, a: Seq<Edit>, b: Seq<Edit>)
    ensures
        script_applies(buf, a + b) == (script_applies(buf, a) && script_applies(
            apply_script(buf, a),
            b,
        )),
        apply_script(buf, a + b) == apply_script(apply_script(buf, a), b),
    decreases a.len(),
{
    if a.len() == 0 {
        assert(a + b =~= b);
    } else {
        assert((a + b).drop_first() =~= a.drop_first() + b);
        assert((a + b)[0] == a[0]);
        lemma_script_concat(a[0].apply(buf), a.drop_first(), b);
    }
}

pub proof fn lemma_single_edit(buf: Seq<u8>, e: Edit)
    ensures
        script_applies(buf, seq![e]) == e.applies_to(buf),
        apply_script(buf, seq![e]) == e.apply(buf),
{
    let one = seq![e];
    assert(one[0] == e);
    assert(one.drop_first() =~= Seq::<Edit>::empty());
    assert(script_applies(e.apply(buf), one.drop_first()));
    assert(apply_script(e.apply(buf), one.drop_first()) == e.apply(buf));
}

/// One span of an alignment between an old and a new byte sequence.
#[derive(Clone, Copy, Debug, PartialEq, Eq)]
pub enum Span {
    Equal { old_index: usize, new_index: usize, len: usize },
    Delete { old_index: usize, old_len: usize, new_index: usize },
    Insert { old_index: usize, new_index: usize, new_len: usize },
    Replace { old_index: usize, old_len: usize, new_index: usize, new_len: usize },
}

impl Span {
    pub open spec fn old_start(self) -> nat {
        match self {
            Span::Equal { old_index, .. } => old_index as nat,
            Span::Delete { old_index, .. } => old_index as nat,
            Span::Insert { old_index, .. } => old_index as nat,
            Span::Replace { old_index, .. } => old_index as nat,
        }
    }

    pub open spec fn new_start(self) -> nat {
        match self {
            Span::Equal { new_index, .. } => new_index as nat,
            Span::Delete { new_index, .. } => new_index as nat,
            Span::Insert { new_index, .. } => new_index as nat,
            Span::Replace { new_index, .. } => new_index as nat,
        }
    }

    /// How many bytes of the old sequence the span covers.
    pub open spec fn old_count(self) -> nat {
        match self {
            Span::Equal { len, .. } => len as nat,
            Span::Delete { old_len, .. } => old_len as nat,
            Span::Insert { .. } => 0,
            Span::Replace { old_len, .. } => old_len as nat,
        }
    }

    /// How many bytes of the new sequence the span covers.
    pub open spec fn new_count(self) -> nat {
        match self {
            Span::Equal { len, .. } => len as nat,
            Span::Delete { .. } => 0,
            Span::Insert { new_len, .. } => new_len as nat,
            Span::Replace { new_len, .. } => new_len as nat,
        }
    }
}

/// `spans` walk `old` from `i` and `new` from `j` to their ends, each span
/// starting where the one before it stopped, and equal spans cover equal bytes.
/// The end of each removed range must also be expressible as a `usize`.
pub open spec fn walks(old: Seq<u8>, new: Seq<u8>, spans: Seq<Span>, i: nat, j: nat) -> bool
    decreases spans.len(),
{
    if spans.len() == 0 {
        i == old.len() && j == new.len()
    } else {
        let s = spans[0];
        &&& s.old_start() == i
        &&& s.new_start() == j
        &&& i + s.old_count() <= old.len()
        &&& j + s.new_count() <= new.len()
        &&& j + s.old_count() <= usize::MAX
        &&& (s is Equal ==> old.subrange(i as int, (i + s.old_count()) as int) == new.subrange(
            j as int,
            (j + s.new_count()) as int,
        ))
        &&& walks(old, new, spans.drop_first(), i + s.old_count(), j + s.new_count())
    }
}

/// `spans` is an alignment of `old` with `new`.
pub open spec fn aligns(old: Seq<u8>, new: Seq<u8>, spans: Seq<Span>) -> bool {
    walks(old, new, spans, 0, 0)
}

/// The edits that one span of an alignment stands for. The running offset into
/// the buffer being built is the span's start in the new sequence: an equal
/// span stands for none, and any other span removes the old bytes it covers and
/// then inserts the new bytes it covers, leaving out a removal or an insertion
/// of nothing.
pub open spec fn span_edits(new: Seq<u8>, s: Span) -> Seq<Edit> {
    let at = s.new_start();
    let removal = if s is Equal || s.old_count() == 0 {
        Seq::<Edit>::empty()
    } else {
        seq![Edit::Remove { at, upto: at + s.old_count() }]
    };
    let insertion = if s is Equal || s.new_count() == 0 {
        Seq::<Edit>::empty()
    } else {
        seq![Edit::Insert { at, content: new.subrange(at as int, (at + s.new_count()) as int) }]
    };
    removal + insertion
}

/// The edit script that an alignment stands for: the edits of its spans, in order.
pub open spec fn script_of(new: Seq<u8>, spans: Seq<Span>) -> Seq<Edit>
    decreases spans.len(),
{
    if spans.len() == 0 {
        seq![]
    } else {
        span_edits(new, spans[0]) + script_of(new, spans.drop_first())
    }
}

/// No edit of the script is empty: every removal removes a byte and every
/// insertion inserts one.
pub open spec fn no_empty_edits(edits: Seq<Edit>) -> bool {
    forall|k: int|
        0 <= k < edits.len() ==> match #[trigger] edits[k] {
            Edit::Insert { content, .. } => content.len() > 0,
            Edit::Remove { at, upto } => at < upto,
        }
}

/// Replaying a script of zero or one edit.
proof fn lemma_piece(buf: Seq<u8>, piece: Seq<Edit>, e: Edit, result: Seq<u8>)
    requires
        piece == seq![e] || (piece.len() == 0 && buf == result),
        piece.len() > 0 ==> e.applies_to(buf) && e.apply(buf) == result,
    ensures
        script_applies(buf, piece),
        apply_script(buf, piece) == result,
{
    if piece.len() > 0 {
        lemma_single_edit(buf, e);
    }
}

/// Replaying the script of an alignment on a buffer whose first part is already
/// the new sequence up to `j`, and whose remainder is the old sequence from `i`,
/// stays in range and yields the new sequence.
pub proof fn lemma_walk_round_trip(old: Seq<u8>, new: Seq<u8>, spans: Seq<Span>, i: nat, j: nat)
    requires
        walks(old, new, spans, i, j),
    ensures
        script_applies(
            new.subrange(0, j as int) + old.subrange(i as int, old.len() as int),
            script_of(new, spans),
        ),
        apply_script(
            new.subrange(0, j as int) + old.subrange(i as int, old.len() as int),
            script_of(new, spans),
        ) == new,
    decreases spans.len(),
{
    let buf = new.subrange(0, j as int) + old.subrange(i as int, old.len() as int);
    if spans.len() == 0 {
        assert(buf =~= new);
    } else {
        let s = spans[0];
        let rest = spans.drop_first();
        let i2 = i + s.old_count();
        let j2 = j + s.new_count();
        lemma_walk_round_trip(old, new, rest, i2, j2);
        let next = new.subrange(0, j2 as int) + old.subrange(i2 as int, old.len() as int);
        let edits = span_edits(new, s);
        if s is Equal {
            assert(buf =~= next);
            assert(edits =~= Seq::<Edit>::empty());
            assert(script_of(new, spans) =~= script_of(new, rest));
        } else {
            let remove = Edit::Remove { at: j, upto: j + s.old_count() };
            let insert = Edit::Insert { at: j, content: new.subrange(j as int, j2 as int) };
            let removed = new.subrange(0, j as int) + old.subrange(i2 as int, old.len() as int);
            let removal = if s.old_count() == 0 {
                Seq::<Edit>::empty()
            } else {
                seq![remove]
            };
            let insertion = if s.new_count() == 0 {
                Seq::<Edit>::empty()
            } else {
                seq![insert]
            };
            assert(edits == removal + insertion);
            assert(remove.apply(buf) =~= removed);
            assert(insert.apply(removed) =~= next);
            if s.old_count() == 0 {
                assert(buf =~= removed);
            }
            if s.new_count() == 0 {
                assert(removed =~= next);
            }
            lemma_piece(buf, removal, remove, removed);
            lemma_piece(removed, insertion, insert, next);
            lemma_script_concat(buf, removal, insertion);
            lemma_script_concat(buf, edits, script_of(new, rest));
        }
    }
}

/// Applying the script of any alignment of `old` with `new` to `old` stays in
/// range and yields exactly `new`.
pub proof fn lemma_script_round_trip(old: Seq<u8>, new: Seq<u8>, spans: Seq<Span>)
    requires
        aligns(old, new, spans),
    ensures
        script_applies(old, script_of(new, spans)),
        apply_script(old, script_of(new, spans)) == new,
{
    lemma_walk_round_trip(old, new, spans, 0, 0);
    assert(new.subrange(0, 0) + old.subrange(0, old.len() as int) =~= old);
}

/// The script of an alignment holds no empty edit.
pub proof fn lemma_script_no_empty(old: Seq<u8>, new: Seq<u8>, spans: Seq<Span>, i: nat, j: nat)
    requires
        walks(old, new, spans, i, j),
    ensures
        no_empty_edits(script_of(new, spans)),
    decreases spans.len(),
{
    if spans.len() > 0 {
        let s = spans[0];
        let rest = script_of(new, spans.drop_first());
        let edits = span_edits(new, s);
        lemma_script_no_empty(old, new, spans.drop_first(), i + s.old_count(), j + s.new_count());
        assert(no_empty_edits(edits));
        let all = edits + rest;
        assert forall|k: int| 0 <= k < all.len() implies match #[trigger] all[k] {
            Edit::Insert { content, .. } => content.len() > 0,
            Edit::Remove { at, upto } => at < upto,
        } by {
            if k < edits.len() {
                assert(all[k] == edits[k]);
            } else {
                assert(all[k] == rest[k - edits.len()]);
            }
        }
    }
}

/// An alignment whose script is empty covers equal remainders.
pub proof fn lemma_empty_script(old: Seq<u8>, new: Seq<u8>, spans: Seq<Span>, i: nat, j: nat)
    requires
        walks(old, new, spans, i, j),
        script_of(new, spans).len() == 0,
    ensures
        old.subrange(i as int, old.len() as int) == new.subrange(j as int, new.len() as int),
    decreases spans.len(),
{
    if spans.len() == 0 {
        assert(old.subrange(i as int, old.len() as int) =~= Seq::<u8>::empty());
        assert(new.subrange(j as int, new.len() as int) =~= Seq::<u8>::empty());
    } else {
        let s = spans[0];
        let i2 = i + s.old_count();
        let j2 = j + s.new_count();
        assert(span_edits(new, s).len() == 0);
        lemma_empty_script(old, new, spans.drop_first(), i2, j2);
        assert(old.subrange(i as int, old.len() as int) =~= old.subrange(i as int, i2 as int)
            + old.subrange(i2 as int, old.len() as int));
        assert(new.subrange(j as int, new.len() as int) =~= new.subrange(j as int, j2 as int)
            + new.subrange(j2 as int, new.len() as int));
    }
}

/// A copy of `src[from..to]`.
pub fn copy_range(src: &[u8], from: usize, to: usize) -> (r: Vec<u8>)
    requires
        from <= to <= src@.len(),
    ensures
        r@ == src@.subrange(from as int, to as int),
{
    let mut r: Vec<u8> = Vec::new();
    let mut k: usize = from;
    while k < to
        invariant
            from <= k <= to <= src@.len(),
            r@ == src@.subrange(from as int, k as int),
        decreases to - k,
    {
        r.push(src[k]);
        k = k + 1;
        assert(r@ =~= src@.subrange(from as int, k as int));
    }
    r
}

/// Whether `a[ai..ai + len]` and `b[bi..bi + len]` hold the same bytes.
pub fn ranges_equal(a: &[u8], ai: usize, b: &[u8], bi: usize, len: usize) -> (r: bool)
    requires
        ai + len <= a@.len(),
        bi + len <= b@.len(),
    ensures
        r == (a@.subrange(ai as int, ai + len) == b@.subrange(bi as int, bi + len)),
{
    let alen = a.len();
    let blen = b.len();
    let mut k: usize = 0;
    while k < len
        invariant
            k <= len,
            alen == a@.len(),
            blen == b@.len(),
            ai + len <= a@.len(),
            bi + len <= b@.len(),
            a@.subrange(ai as int, ai + k) == b@.subrange(bi as int, bi + k),
        decreases len - k,
    {
        if a[ai + k] != b[bi + k] {
            assert(a@.subrange(ai as int, ai + len)[k as int] != b@.subrange(
                bi as int,
                bi + len,
            )[k as int]);
            return false;
        }
        k = k + 1;
        assert(a@.subrange(ai as int, ai + k) =~= b@.subrange(bi as int, bi + k));
    }
    true
}

impl ContentChange {
    /// Applies this change to `buffer` in place.
    pub fn apply(&self, buffer: &mut Vec<u8>)
        requires
            self@.applies_to(old(buffer)@),
        ensures
            final(buffer)@ == self@.apply(old(buffer)@),
    {
        let ghost before = buffer@;
        let result = match self {
            ContentChange::Deleted { at, upto } => {
                let mut head = copy_range(buffer.as_slice(), 0, *at);
                let mut tail = copy_range(buffer.as_slice(), *upto, buffer.len());
                head.append(&mut tail);
                head
            },
            ContentChange::Inserted { at, new_content } => {
                let mut head = copy_range(buffer.as_slice(), 0, *at);
                let mut middle = copy_range(new_content.as_slice(), 0, new_content.len());
                let mut tail = copy_range(buffer.as_slice(), *at, buffer.len());
                assert(new_content@.subrange(0, new_content@.len() as int) =~= new_content@);
                head.append(&mut middle);
                head.append(&mut tail);
                head
            },
        };
        *buffer = result;
        assert(buffer@ =~= self@.apply(before));
    }

    /// Applies `changes` to `buffer` in order, each to the buffer that the ones
    /// before it left. Returns `false`, having stopped part way, when a change
    /// falls out of range.
    pub fn apply_all(changes: &Vec<ContentChange>, buffer: &mut Vec<u8>) -> (r: bool)
        ensures
            r == script_applies(old(buffer)@, edits_of(changes@)),
            r ==> final(buffer)@ == apply_script(old(buffer)@, edits_of(changes@)),
    {
        let ghost edits = edits_of(changes@);
        let ghost len = edits.len() as int;
        let mut m: usize = 0;
        assert(edits.subrange(0, len) =~= edits);
        while m < changes.len()
            invariant
                m <= changes@.len(),
                len == changes@.len(),
                edits == edits_of(changes@),
                script_applies(old(buffer)@, edits) == script_applies(
                    buffer@,
                    edits.subrange(m as int, len),
                ),
                apply_script(old(buffer)@, edits) == apply_script(
                    buffer@,
                    edits.subrange(m as int, len),
                ),
            decreases changes@.len() - m,
        {
            let change = &changes[m];
            let ghost rest = edits.subrange(m as int, len);
            assert(rest[0] == change@);
            assert(rest.drop_first() =~= edits.subrange(m + 1, len));
            let in_range = match change {
                ContentChange::Deleted { at, upto } => *at <= *upto && *upto <= buffer.len(),
                ContentChange::Inserted { at, .. } => *at <= buffer.len(),
            };
            if !in_range {
                return false;
            }
            change.apply(buffer);
            m = m + 1;
        }
        assert(edits.subrange(m as int, len) =~= Seq::<Edit>::empty());
        true
    }

    /// Builds the edit script of `spans` if they are an alignment of `old` with
    /// `new`, and `None` if they are not.
    pub fn edits_from_spans(old: &[u8], new: &[u8], spans: &Vec<Span>) -> (r: Option<
        Vec<ContentChange>,
    >)
        ensures
            r is Some <==> aligns(old@, new@, spans@),
            r is Some ==> edits_of(r->0@) == script_of(new@, spans@),
    {
        let ghost n = spans@.len() as int;
        let mut out: Vec<ContentChange> = Vec::new();
        let mut k: usize = 0;
        let mut i: usize = 0;
        let mut j: usize = 0;
        assert(spans@.subrange(0, n) =~= spans@);
        assert(edits_of(out@) + script_of(new@, spans@) =~= script_of(new@, spans@));
        while k < spans.len()
            invariant
                k <= spans@.len(),
                n == spans@.len(),
                i <= old@.len(),
                j <= new@.len(),
                aligns(old@, new@, spans@) == walks(
                    old@,
                    new@,
                    spans@.subrange(k as int, n),
                    i as nat,
                    j as nat,
                ),
                script_of(new@, spans@) == edits_of(out@) + script_of(
                    new@,
                    spans@.subrange(k as int, n),
                ),
            decreases spans@.len() - k,
        {
            let s = spans[k];
            let ghost rest = spans@.subrange(k as int, n);
            assert(rest[0] == s);
            assert(rest.drop_first() =~= spans@.subrange(k + 1, n));
            let (os, ns, oc, nc) = match s {
                Span::Equal { old_index, new_index, len } => (old_index, new_index, len, len),
                Span::Delete { old_index, old_len, new_index } => (old_index, new_index, old_len, 0),
                Span::Insert { old_index, new_index, new_len } => (old_index, new_index, 0, new_len),
                Span::Replace { old_index, old_len, new_index, new_len } => (
                    old_index,
                    new_index,
                    old_len,
                    new_len,
                ),
            };
            if os != i || ns != j || oc > old.len() - i || nc > new.len() - j || oc > usize::MAX
                - j {
                return None;
            }
            if let Span::Equal { .. } = s {
                if !ranges_equal(old, i, new, j, oc) {
                    return None;
                }
            }
            let ghost out_before = out@;
            let ghost tail = script_of(new@, spans@.subrange(k + 1, n));
            let is_equal = match s {
                Span::Equal { .. } => true,
                _ => false,
            };
            if !is_equal && oc > 0 {
                out.push(ContentChange::Deleted { at: j, upto: j + oc });
            }
            let ghost removed = out@;
            if !is_equal && nc > 0 {
                out.push(ContentChange::Inserted { at: j, new_content: copy_range(new, j, j + nc) });
            }
            proof {
                let added = out@.subrange(out_before.len() as int, out@.len() as int);
                let removal = removed.subrange(out_before.len() as int, removed.len() as int);
                let insertion = out@.subrange(removed.len() as int, out@.len() as int);
                assert(out@ =~= out_before + added);
                assert(added =~= removal + insertion);
                assert(edits_of(out@) =~= edits_of(out_before) + edits_of(added));
                assert(edits_of(added) =~= edits_of(removal) + edits_of(insertion));
                assert(edits_of(added) =~= span_edits(new@, s));
                assert(script_of(new@, rest) == edits_of(added) + tail);
                assert(edits_of(out_before) + (edits_of(added) + tail) =~= edits_of(out@) + tail);
            }
            i = i + oc;
            j = j + nc;
            k = k + 1;
        }
        assert(spans@.subrange(k as int, n) =~= Seq::<Span>::empty());
        if i != old.len() || j != new.len() {
            return None;
        }
        assert(edits_of(out@) + Seq::<Edit>::empty() =~= edits_of(out@));
        Some(out)
    }

    /// An edit script that turns `old` into `new`, built from a Myers alignment.
    /// The search gives up refining after a fixed deadline, so the script may then
    /// be longer than needed, but it always replays to `new`. Equal buffers give
    /// the empty script without a search; spans that fail to align would give a
    /// script that replaces the whole buffer.
    pub fn diff(old: &[u8], new: &[u8]) -> (r: Vec<ContentChange>)
        ensures
            exists|spans: Seq<Span>|
                aligns(old@, new@, spans) && #[trigger] script_of(new@, spans) == edits_of(r@),
            script_applies(old@, edits_of(r@)),
            apply_script(old@, edits_of(r@)) == new@,
            no_empty_edits(edits_of(r@)),
            r@.len() == 0 <==> old@ == new@,
    {
        if old.len() == new.len() && ranges_equal(old, 0, new, 0, old.len()) {
            let r: Vec<ContentChange> = Vec::new();
            proof {
                let spans = seq![Span::Equal { old_index: 0, new_index: 0, len: old.len() }];
                assert(spans[0] == Span::Equal { old_index: 0, new_index: 0, len: old.len() });
                assert(spans.drop_first().len() == 0);
                assert(walks(old@, new@, Seq::<Span>::empty(), old@.len(), new@.len()));
                assert(walks(old@, new@, spans.drop_first(), old@.len(), new@.len()));
                assert(old@.subrange(0, old@.len() as int) =~= old@);
                assert(new@.subrange(0, new@.len() as int) =~= new@);
                assert(spans.drop_first() =~= Seq::<Span>::empty());
                assert(aligns(old@, new@, spans));
                assert(edits_of(r@) =~= Seq::<Edit>::empty());
                assert(script_of(new@, spans.drop_first()) =~= Seq::<Edit>::empty());
                assert(script_of(new@, spans) =~= Seq::<Edit>::empty());
                lemma_script_round_trip(old@, new@, spans);
            }
            return r;
        }
        proof {
            if old@ == new@ {
                assert(old@.subrange(0, old@.len() as int) =~= new@.subrange(0, new@.len() as int));
            }
        }
        let deadline = Instant::now().checked_add(Duration::from_millis(DIFF_DEADLINE_MILLIS));
        let spans = myers_spans(old, new, deadline);
        let r = match ContentChange::edits_from_spans(old, new, &spans) {
            Some(changes) => changes,
            None => {
                let whole = vec![Span::Replace { old_index: 0, old_len: old.len(), new_index: 0, new_len: new.len() }];
                let mut r: Vec<ContentChange> = Vec::new();
                if old.len() > 0 {
                    r.push(ContentChange::Deleted { at: 0, upto: old.len() });
                }
                let ghost removed = r@;
                if new.len() > 0 {
                    r.push(ContentChange::Inserted { at: 0, new_content: copy_range(new, 0, new.len()) });
                }
                proof {
                    assert(whole@.drop_first() =~= Seq::<Span>::empty());
                    assert(walks(old@, new@, whole@.drop_first(), old@.len(), new@.len()));
                    assert(old@.len() <= usize::MAX);
                    assert(new@.subrange(0, new@.len() as int) =~= new@);
                    assert(aligns(old@, new@, whole@));
                    assert(script_of(new@, whole@.drop_first()) =~= Seq::<Edit>::empty());
                    assert(r@ =~= removed + r@.subrange(removed.len() as int, r@.len() as int));
                    assert(edits_of(r@) =~= span_edits(new@, whole@[0]));
                    assert(edits_of(r@) =~= script_of(new@, whole@));
                }
                return finish_diff(old, new, whole, r);
            },
        };
        finish_diff(old, new, spans, r)
    }
}

/// Hands back `r`, the script of the alignment `spans` of two sequences that differ.
fn finish_diff(old: &[u8], new: &[u8], spans: Vec<Span>, r: Vec<ContentChange>) -> (res: Vec<
    ContentChange,
>)
    requires
        aligns(old@, new@, spans@),
        edits_of(r@) == script_of(new@, spans@),
        old@ != new@,
    ensures
        res == r,
        exists|s: Seq<Span>| aligns(old@, new@, s) && #[trigger] script_of(new@, s) == edits_of(res@),
        script_applies(old@, edits_of(res@)),
        apply_script(old@, edits_of(res@)) == new@,
        no_empty_edits(edits_of(res@)),
        res@.len() != 0,
{
    proof {
        lemma_script_round_trip(old@, new@, spans@);
        lemma_script_no_empty(old@, new@, spans@, 0, 0);
        if r@.len() == 0 {
            assert(edits_of(r@).len() == 0);
            lemma_empty_script(old@, new@, spans@, 0, 0);
            assert(old@.subrange(0, old@.len() as int) =~= old@);
            assert(new@.subrange(0, new@.len() as int) =~= new@);
        }
    }
    r
}

/// std::time::Instant, carried unopened to `myers_spans`.
#[verifier::external_type_specification]
#[verifier::external_body]
pub struct ExInstant(Instant);

/// Relies on std::time::Instant::now: the current moment; nothing is assumed of it.
pub assume_specification[ Instant::now ]() -> Instant;

/// Relies on core::time::Duration::from_millis: a span of so many milliseconds;
/// nothing is assumed of it.
pub assume_specification[ Duration::from_millis ](millis: u64) -> Duration;

/// Relies on std::time::Instant::checked_add: the moment a span after another,
/// or `None` where it cannot be represented; nothing is assumed of it.
pub assume_specification[ Instant::checked_add ](instant: &Instant, duration: Duration) -> Option<
    Instant,
>;

/// Relies on similar::capture_diff_slices_deadline with the Myers algorithm:
/// its operations, one span each, in the order it returns them. Nothing is
/// assumed of them; `ContentChange::edits_from_spans` checks that they align.
/// Without a deadline the search runs to the end.
#[verifier::external_body]
fn myers_spans(old: &[u8], new: &[u8], deadline: Option<Instant>) -> Vec<Span> {
    similar::capture_diff_slices_deadline(Algorithm::Myers, old, new, deadline)
        .into_iter()
        .map(|op| match op {
            DiffOp::Equal { old_index, new_index, len } => Span::Equal { old_index, new_index, len },
            DiffOp::Delete { old_index, old_len, new_index } => Span::Delete { old_index, old_len, new_index },
            DiffOp::Insert { old_index, new_index, new_len } => Span::Insert { old_index, new_index, new_len },
            DiffOp::Replace { old_index, old_len, new_index, new_len } => {
                Span::Replace { old_index, old_len, new_index, new_len }
            },
        })
        .collect()
}

} // verus!
