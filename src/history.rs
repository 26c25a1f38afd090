//! The append-only logs: the repository-wide one with its cursor, and one per
//! file with the replay that rebuilds its content at a cursor.
use vstd::prelude::*;

use crate::diff::{apply_script, edits_of, script_applies, ContentChange};

verus! {

/// The repository-wide log: one entry per Update that changed something, and
/// the version that the working tree is at.
#[derive(Debug)]
pub struct RepositoryHistory {
    pub cursor: usize,
    pub changes: Vec<RepositoryChange>,
}

/// One Update batch: the working paths whose history received a change, and when.
#[derive(Debug)]
pub struct RepositoryChange {
    pub affected_files: Vec<String>,
    pub timestamp: u64,
}

/// The log of one tracked (or once tracked) path.
#[derive(Debug)]
pub struct FileHistory {
    pub changes: Vec<FileChange>,
}

/// One entry of a file's log, recorded at repository version `change_index`.
#[derive(Debug)]
pub struct FileChange {
    pub change_index: usize,
    pub variant: FileChangeVariant,
}

#[derive(Debug)]
pub enum FileChangeVariant {
    Updated(Vec<ContentChange>),
    Deleted,
}

/// The content that replaying `changes` on `buf` gives: every entry whose index
/// is at most `cursor`, in log order, an update applying its edit script and a
/// deletion emptying the buffer; later entries are passed over. `None` when an
/// edit is out of range.
pub open spec fn replay_from(changes: Seq<FileChange>, cursor: int, buf: Seq<u8>) -> Option<Seq<u8>>
    decreases changes.len(),
{
    if changes.len() == 0 {
        Some(buf)
    } else if changes[0].change_index > cursor {
        replay_from(changes.drop_first(), cursor, buf)
    } else {
        match changes[0].variant {
            FileChangeVariant::Deleted => replay_from(changes.drop_first(), cursor, seq![]),
            FileChangeVariant::Updated(edits) => {
                if script_applies(buf, edits_of(edits@)) {
                    replay_from(changes.drop_first(), cursor, apply_script(buf, edits_of(edits@)))
                } else {
                    None
                }
            },
        }
    }
}

/// Whether the last of the entries with index at most `cursor` is a deletion;
/// `deleted` when there is none.
pub open spec fn deleted_from(changes: Seq<FileChange>, cursor: int, deleted: bool) -> bool
    decreases changes.len(),
{
    if changes.len() == 0 {
        deleted
    } else if changes[0].change_index > cursor {
        deleted_from(changes.drop_first(), cursor, deleted)
    } else {
        deleted_from(changes.drop_first(), cursor, changes[0].variant is Deleted)
    }
}

/// Every entry was recorded at a version no later than `cursor`.
pub open spec fn recorded_by(changes: Seq<FileChange>, cursor: int) -> bool {
    forall|k: int| 0 <= k < changes.len() ==> #[trigger] changes[k].change_index <= cursor
}

impl RepositoryHistory {
    pub fn get_changes(&self) -> (r: &Vec<RepositoryChange>)
        ensures
            r@ == self.changes@,
    {
        &self.changes
    }

    /// Appends `change` to the log; the cursor is left as it is.
    pub fn add_change(&mut self, change: RepositoryChange)
        ensures
            final(self).changes@ == old(self).changes@.push(change),
            final(self).cursor == old(self).cursor,
    {
        self.changes.push(change);
    }
}

impl Default for RepositoryHistory {
    fn default() -> (r: Self)
        ensures
            r.cursor == 0,
            r.changes@.len() == 0,
    {
        RepositoryHistory { cursor: 0, changes: Vec::new() }
    }
}

impl FileHistory {
    /// The content at `cursor`, if every edit replayed up to it is in range.
    pub open spec fn content_at(&self, cursor: int) -> Option<Seq<u8>> {
        replay_from(self.changes@, cursor, seq![])
    }

    /// Whether the file stands deleted at `cursor`.
    pub open spec fn deleted_at(&self, cursor: int) -> bool {
        deleted_from(self.changes@, cursor, false)
    }

    /// True iff the last entry, in log order, recorded at a version no later
    /// than `at_cursor` is a deletion.
    pub fn is_file_deleted(&self, at_cursor: usize) -> (r: bool)
        ensures
            r == self.deleted_at(at_cursor as int),
    {
        let ghost all = self.changes@;
        let ghost n = all.len() as int;
        let mut deleted = false;
        let mut k: usize = 0;
        assert(all.subrange(0, n) =~= all);
        while k < self.changes.len()
            invariant
                k <= n,
                n == self.changes@.len(),
                all == self.changes@,
                deleted_from(all, at_cursor as int, false) == deleted_from(
                    all.subrange(k as int, n),
                    at_cursor as int,
                    deleted,
                ),
            decreases n - k,
        {
            let change = &self.changes[k];
            let ghost rest = all.subrange(k as int, n);
            assert(rest[0] == *change);
            assert(rest.drop_first() =~= all.subrange(k + 1, n));
            if change.change_index <= at_cursor {
                deleted = match change.variant {
                    FileChangeVariant::Deleted => true,
                    FileChangeVariant::Updated(_) => false,
                };
            }
            k = k + 1;
        }
        assert(all.subrange(k as int, n) =~= Seq::<FileChange>::empty());
        deleted
    }

    /// The content at `at_cursor`, or `None` when an edit replayed on the way
    /// falls out of range of the buffer (a corrupt history).
    pub fn replay(&self, at_cursor: usize) -> (r: Option<Vec<u8>>)
        ensures
            r is Some <==> self.content_at(at_cursor as int) is Some,
            r is Some ==> r->0@ == self.content_at(at_cursor as int)->0,
    {
        let ghost all = self.changes@;
        let ghost n = all.len() as int;
        let mut buffer: Vec<u8> = Vec::new();
        let mut k: usize = 0;
        assert(all.subrange(0, n) =~= all);
        while k < self.changes.len()
            invariant
                k <= n,
                n == self.changes@.len(),
                all == self.changes@,
                self.content_at(at_cursor as int) == replay_from(
                    all.subrange(k as int, n),
                    at_cursor as int,
                    buffer@,
                ),
            decreases n - k,
        {
            let change = &self.changes[k];
            let ghost rest = all.subrange(k as int, n);
            assert(rest[0] == *change);
            assert(rest.drop_first() =~= all.subrange(k + 1, n));
            if change.change_index <= at_cursor {
                match &change.variant {
                    FileChangeVariant::Updated(edits) => {
                        if !ContentChange::apply_all(edits, &mut buffer) {
                            return None;
                        }
                    },
                    FileChangeVariant::Deleted => {
                        buffer.clear();
                        assert(buffer@ =~= Seq::<u8>::empty());
                    },
                }
            }
            k = k + 1;
        }
        assert(all.subrange(k as int, n) =~= Seq::<FileChange>::empty());
        Some(buffer)
    }

    /// The content at `at_cursor`: the replay of every entry recorded at a
    /// version no later than it, from an empty buffer.
    pub fn get_content(&self, at_cursor: usize) -> (r: Vec<u8>)
        requires
            self.content_at(at_cursor as int) is Some,
        ensures
            r@ == self.content_at(at_cursor as int)->0,
    {
        match self.replay(at_cursor) {
            Some(content) => content,
            None => Vec::new(),
        }
    }

    /// Appends `change` to the log. The order of change indices is the
    /// caller's to keep.
    pub fn add_change(&mut self, change: FileChange)
        ensures
            final(self).changes@ == old(self).changes@.push(change),
    {
        self.changes.push(change);
    }
}

impl Default for FileHistory {
    fn default() -> (r: Self)
        ensures
            r.changes@.len() == 0,
    {
        FileHistory { changes: Vec::new() }
    }
}


/// With every entry of `s` recorded by `cursor`, replaying `s + t` replays all
/// of `s` and goes on with `t`.
pub proof fn lemma_replay_append(s: Seq<FileChange>, t: Seq<FileChange>, cursor: int, buf: Seq<u8>)
    requires
        recorded_by(s, cursor),
    ensures
        replay_from(s + t, cursor, buf) == match replay_from(s, cursor, buf) {
            Some(b) => replay_from(t, cursor, b),
            None => None,
        },
        deleted_from(s + t, cursor, false) == deleted_from(t, cursor, deleted_from(s, cursor, false)),
    decreases s.len(),
{
    lemma_deleted_append(s, t, cursor, false);
    if s.len() == 0 {
        assert(s + t =~= t);
    } else {
        assert((s + t)[0] == s[0]);
        assert((s + t).drop_first() =~= s.drop_first() + t);
        assert(recorded_by(s.drop_first(), cursor)) by {
            assert forall|k: int| 0 <= k < s.drop_first().len() implies #[trigger] s.drop_first()[k].change_index
                <= cursor by {
                assert(s.drop_first()[k] == s[k + 1]);
            }
        }
        assert(s[0].change_index <= cursor);
        match s[0].variant {
            FileChangeVariant::Deleted => {
                lemma_replay_append(s.drop_first(), t, cursor, seq![]);
            },
            FileChangeVariant::Updated(edits) => {
                lemma_replay_append(s.drop_first(), t, cursor, apply_script(buf, edits_of(edits@)));
            },
        }
    }
}

pub proof fn lemma_deleted_append(s: Seq<FileChange>, t: Seq<FileChange>, cursor: int, deleted: bool)
    requires
        recorded_by(s, cursor),
    ensures
        deleted_from(s + t, cursor, deleted) == deleted_from(t, cursor, deleted_from(s, cursor, deleted)),
    decreases s.len(),
{
    if s.len() == 0 {
        assert(s + t =~= t);
    } else {
        assert((s + t)[0] == s[0]);
        assert((s + t).drop_first() =~= s.drop_first() + t);
        assert(recorded_by(s.drop_first(), cursor)) by {
            assert forall|k: int| 0 <= k < s.drop_first().len() implies #[trigger] s.drop_first()[k].change_index
                <= cursor by {
                assert(s.drop_first()[k] == s[k + 1]);
            }
        }
        assert(s[0].change_index <= cursor);
        lemma_deleted_append(s.drop_first(), t, cursor, s[0].variant is Deleted);
    }
}

/// A log whose entries were all recorded by two cursors replays alike at both.
pub proof fn lemma_replay_cursor_free(s: Seq<FileChange>, c1: int, c2: int, buf: Seq<u8>, deleted: bool)
    requires
        recorded_by(s, c1),
        recorded_by(s, c2),
    ensures
        replay_from(s, c1, buf) == replay_from(s, c2, buf),
        deleted_from(s, c1, deleted) == deleted_from(s, c2, deleted),
    decreases s.len(),
{
    if s.len() > 0 {
        assert(s[0].change_index <= c1 && s[0].change_index <= c2);
        let rest = s.drop_first();
        assert(recorded_by(rest, c1) && recorded_by(rest, c2)) by {
            assert forall|k: int| 0 <= k < rest.len() implies #[trigger] rest[k].change_index <= c1
                && rest[k].change_index <= c2 by {
                assert(rest[k] == s[k + 1]);
            }
        }
        lemma_replay_cursor_free(rest, c1, c2, seq![], s[0].variant is Deleted);
        match s[0].variant {
            FileChangeVariant::Deleted => {},
            FileChangeVariant::Updated(edits) => {
                lemma_replay_cursor_free(
                    rest,
                    c1,
                    c2,
                    apply_script(buf, edits_of(edits@)),
                    s[0].variant is Deleted,
                );
            },
        }
    }
}

/// A log recorded by `c1` is recorded by any later cursor.
pub proof fn lemma_recorded_later(s: Seq<FileChange>, c1: int, c2: int)
    requires
        recorded_by(s, c1),
        c1 <= c2,
    ensures
        recorded_by(s, c2),
{
}

/// Deletion semantics. Append a deletion at `d` to a replayable log whose
/// entries were all recorded by `d`, then an update at `e >= d`. From `d` on the
/// file stands deleted and its content is empty, up to (not including) `e`;
/// from `e` on it no longer stands deleted and its content is the update's edits
/// replayed on an empty buffer.
pub proof fn lemma_deletion_semantics(
    changes: Seq<FileChange>,
    d: usize,
    edits: Vec<ContentChange>,
    e: usize,
    cursor: int,
)
    requires
        recorded_by(changes, d as int),
        replay_from(changes, d as int, seq![]) is Some,
        d <= e,
    ensures
        ({
            let deleted = changes.push(
                FileChange { change_index: d, variant: FileChangeVariant::Deleted },
            );
            let revived = deleted.push(
                FileChange { change_index: e, variant: FileChangeVariant::Updated(edits) },
            );
            &&& d <= cursor ==> deleted_from(deleted, cursor, false) && replay_from(
                deleted,
                cursor,
                seq![],
            ) == Some(Seq::<u8>::empty())
            &&& d <= cursor < e ==> deleted_from(revived, cursor, false) && replay_from(
                revived,
                cursor,
                seq![],
            ) == Some(Seq::<u8>::empty())
            &&& e <= cursor ==> !deleted_from(revived, cursor, false) && replay_from(
                revived,
                cursor,
                seq![],
            ) == if script_applies(seq![], edits_of(edits@)) {
                Some(apply_script(seq![], edits_of(edits@)))
            } else {
                None
            }
        }),
{
    let del = FileChange { change_index: d, variant: FileChangeVariant::Deleted };
    let upd = FileChange { change_index: e, variant: FileChangeVariant::Updated(edits) };
    let deleted = changes.push(del);
    let revived = deleted.push(upd);
    if d <= cursor {
        lemma_recorded_later(changes, d as int, cursor);
        lemma_replay_cursor_free(changes, d as int, cursor, seq![], false);
        let tail1 = seq![del];
        let tail2 = seq![del, upd];
        assert(deleted =~= changes + tail1);
        assert(revived =~= changes + tail2);
        lemma_replay_append(changes, tail1, cursor, seq![]);
        lemma_replay_append(changes, tail2, cursor, seq![]);
        assert(tail1[0] == del);
        assert(tail1.drop_first() =~= Seq::<FileChange>::empty());
        assert(tail2[0] == del);
        assert(tail2.drop_first() =~= seq![upd]);
        assert(seq![upd][0] == upd);
        assert(seq![upd].drop_first() =~= Seq::<FileChange>::empty());
        let b = replay_from(changes, cursor, seq![])->0;
        assert(replay_from(tail1, cursor, b) == replay_from(
            Seq::<FileChange>::empty(),
            cursor,
            seq![],
        ));
        assert(deleted_from(tail1, cursor, deleted_from(changes, cursor, false)) == deleted_from(
            Seq::<FileChange>::empty(),
            cursor,
            true,
        ));
        assert(replay_from(tail2, cursor, b) == replay_from(seq![upd], cursor, seq![]));
        assert(deleted_from(tail2, cursor, deleted_from(changes, cursor, false)) == deleted_from(
            seq![upd],
            cursor,
            true,
        ));
        if e <= cursor {
            assert(deleted_from(seq![upd], cursor, true) == deleted_from(
                Seq::<FileChange>::empty(),
                cursor,
                false,
            ));
            if script_applies(seq![], edits_of(edits@)) {
                assert(replay_from(seq![upd], cursor, seq![]) == replay_from(
                    Seq::<FileChange>::empty(),
                    cursor,
                    apply_script(seq![], edits_of(edits@)),
                ));
            }
        }
    }
}


/// A log whose entries were all recorded after `cursor` replays at `cursor` to
/// the buffer it started from.
pub proof fn lemma_replay_all_later(t: Seq<FileChange>, cursor: int, buf: Seq<u8>)
    requires
        forall|k: int| 0 <= k < t.len() ==> #[trigger] t[k].change_index > cursor,
    ensures
        replay_from(t, cursor, buf) == Some(buf),
    decreases t.len(),
{
    if t.len() > 0 {
        assert(t[0].change_index > cursor);
        assert forall|k: int| 0 <= k < t.drop_first().len() implies #[trigger] t.drop_first()[k].change_index
            > cursor by {
            assert(t.drop_first()[k] == t[k + 1]);
        }
        lemma_replay_all_later(t.drop_first(), cursor, buf);
    }
}

/// Entries appended after a log, all recorded after `cursor`, leave the replay
/// at `cursor` as it was.
pub proof fn lemma_replay_append_later(s: Seq<FileChange>, t: Seq<FileChange>, cursor: int, buf: Seq<u8>)
    requires
        forall|k: int| 0 <= k < t.len() ==> #[trigger] t[k].change_index > cursor,
    ensures
        replay_from(s + t, cursor, buf) == replay_from(s, cursor, buf),
    decreases s.len(),
{
    if s.len() == 0 {
        assert(s + t =~= t);
        lemma_replay_all_later(t, cursor, buf);
    } else {
        assert((s + t)[0] == s[0]);
        assert((s + t).drop_first() =~= s.drop_first() + t);
        if s[0].change_index <= cursor {
            match s[0].variant {
                FileChangeVariant::Deleted => {
                    lemma_replay_append_later(s.drop_first(), t, cursor, seq![]);
                },
                FileChangeVariant::Updated(edits) => {
                    lemma_replay_append_later(
                        s.drop_first(),
                        t,
                        cursor,
                        apply_script(buf, edits_of(edits@)),
                    );
                },
            }
        } else {
            lemma_replay_append_later(s.drop_first(), t, cursor, buf);
        }
    }
}

/// Deletion semantics, for any entries that follow. Append a deletion at `d` to
/// a replayable log whose entries were all recorded by `d`, then any entries
/// `later`. At every cursor from `d` on, the log replays as `later` alone does
/// from an empty buffer, whatever came before the deletion, and the file stands
/// deleted exactly until an update of `later` is taken.
pub proof fn lemma_deletion_resets(changes: Seq<FileChange>, d: usize, later: Seq<FileChange>, cursor: int)
    requires
        recorded_by(changes, d as int),
        replay_from(changes, d as int, seq![]) is Some,
        d <= cursor,
    ensures
        ({
            let log = changes.push(FileChange { change_index: d, variant: FileChangeVariant::Deleted })
                + later;
            &&& replay_from(log, cursor, seq![]) == replay_from(later, cursor, seq![])
            &&& deleted_from(log, cursor, false) == deleted_from(later, cursor, true)
        }),
{
    let del = FileChange { change_index: d, variant: FileChangeVariant::Deleted };
    let head = changes.push(del);
    lemma_recorded_later(changes, d as int, cursor);
    lemma_replay_cursor_free(changes, d as int, cursor, seq![], false);
    assert(head =~= changes + seq![del]);
    lemma_replay_append(changes, seq![del], cursor, seq![]);
    assert(seq![del][0] == del);
    assert(seq![del].drop_first() =~= Seq::<FileChange>::empty());
    let b = replay_from(changes, cursor, seq![])->0;
    assert(replay_from(seq![del], cursor, b) == replay_from(Seq::<FileChange>::empty(), cursor, seq![]));
    assert(deleted_from(seq![del], cursor, deleted_from(changes, cursor, false)) == deleted_from(
        Seq::<FileChange>::empty(),
        cursor,
        true,
    ));
    assert(recorded_by(head, cursor)) by {
        assert forall|k: int| 0 <= k < head.len() implies #[trigger] head[k].change_index <= cursor by {
            if k < changes.len() {
                assert(head[k] == changes[k]);
            }
        }
    }
    lemma_replay_append(head, later, cursor, seq![]);
}

} // verus!
