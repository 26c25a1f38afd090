//! The decisions of the Create, Update and Shift actions, over values that the
//! caller has read from the working tree and the metadata store.
use vstd::math::{max, min};
use vstd::prelude::*;
use vstd::seq_lib::lemma_seq_contains_after_push;

use crate::diff::{
    aligns, apply_script, edits_of, lemma_script_round_trip, lemma_single_edit, script_applies, script_of, ContentChange,
    Edit, Span,
};
use crate::history::{
    deleted_from, lemma_recorded_later, lemma_replay_append, lemma_replay_append_later,
    lemma_replay_cursor_free, recorded_by,
    replay_from, FileChange, FileChangeVariant, FileHistory, RepositoryChange, RepositoryHistory,
};

verus! {

/// Why an action stops.
#[derive(Debug, PartialEq, Eq, Structural)]
pub enum ActionError {
    /// A history's edits fall out of range of the content they are replayed on.
    CorruptHistory,
    /// A path cannot be expressed relative to the directory it should lie in.
    UnrelatedPath,
}

/// A classified file together with what an Update reads of it.
pub enum FileRecord {
    /// A history exists but the working file does not.
    Deleted { history: FileHistory },
    /// The working file exists but no history does.
    Untracked { content: Vec<u8> },
    /// Both exist.
    Versioned { history: FileHistory, content: Vec<u8> },
}

/// A file that an Update looks at, under its working path.
pub struct PendingFile {
    pub working_path: String,
    pub record: FileRecord,
}

/// What Shift does to one working file.
#[derive(Debug, PartialEq, Eq)]
pub enum ShiftAction {
    /// Remove the working file.
    Delete,
    /// Overwrite (or create) the working file with these bytes.
    Write(Vec<u8>),
    /// Leave it alone.
    Keep,
}

/// The history of a tracked file cannot be replayed up to `cursor`.
pub open spec fn is_corrupt(cursor: nat, record: FileRecord) -> bool {
    match record {
        FileRecord::Versioned { history, .. } => history.content_at(cursor as int) is None,
        _ => false,
    }
}

/// An Update at `cursor` records nothing for the file: it already stands
/// deleted, or its history already replays to its content.
pub open spec fn is_unchanged(cursor: nat, record: FileRecord) -> bool {
    match record {
        FileRecord::Deleted { history } => history.deleted_at(cursor as int),
        FileRecord::Untracked { .. } => false,
        FileRecord::Versioned { history, content } => history.content_at(cursor as int) == Some(
            content@,
        ),
    }
}

/// `after` is what an Update at `cursor` makes of the file's history: a
/// deletion, a first insertion of the whole content, or an edit script from the
/// replayed content to the working content, recorded at `cursor + 1`.
pub open spec fn is_appended(cursor: nat, record: FileRecord, after: FileHistory) -> bool {
    let index = (cursor + 1) as usize;
    match record {
        FileRecord::Deleted { history } => after.changes@ == history.changes@.push(
            FileChange { change_index: index, variant: FileChangeVariant::Deleted },
        ),
        FileRecord::Untracked { content } => {
            &&& after.changes@.len() == 1
            &&& after.changes@[0].change_index == index
            &&& match after.changes@[0].variant {
                FileChangeVariant::Updated(edits) => edits_of(edits@) == seq![
                    Edit::Insert { at: 0, content: content@ },
                ],
                FileChangeVariant::Deleted => false,
            }
        },
        FileRecord::Versioned { history, content } => {
            &&& after.changes@.len() == history.changes@.len() + 1
            &&& after.changes@.drop_last() == history.changes@
            &&& after.changes@.last().change_index == index
            &&& match after.changes@.last().variant {
                FileChangeVariant::Updated(edits) => exists|spans: Seq<Span>|
                    aligns(history.content_at(cursor as int)->0, content@, spans)
                        && #[trigger] script_of(content@, spans) == edits_of(edits@),
                FileChangeVariant::Deleted => false,
            }
        },
    }
}

/// `r` is the outcome of an Update at `cursor` for one file: an error exactly
/// for a corrupt history, no new history exactly when nothing changed, and
/// otherwise the history with the new entry appended.
pub open spec fn file_step(
    cursor: nat,
    record: FileRecord,
    r: Result<Option<FileHistory>, ActionError>,
) -> bool {
    match r {
        Err(e) => is_corrupt(cursor, record) && e == ActionError::CorruptHistory,
        Ok(out) => {
            &&& !is_corrupt(cursor, record)
            &&& (out is None <==> is_unchanged(cursor, record))
            &&& (out matches Some(after) ==> is_appended(cursor, record, after))
        },
    }
}

/// Some file's history is corrupt.
pub open spec fn any_corrupt(cursor: nat, files: Seq<PendingFile>) -> bool {
    exists|i: int| 0 <= i < files.len() && is_corrupt(cursor, #[trigger] files[i].record)
}

/// The working paths of the first `k` files whose history received an entry.
pub open spec fn affected_paths(files: Seq<PendingFile>, out: Seq<Option<FileHistory>>, k: int) -> Seq<
    Seq<char>,
>
    decreases k,
{
    if k <= 0 {
        seq![]
    } else {
        let before = affected_paths(files, out, k - 1);
        if out[k - 1] is Some {
            before.push(files[k - 1].working_path@)
        } else {
            before
        }
    }
}

pub open spec fn strings_of(v: Seq<String>) -> Seq<Seq<char>> {
    v.map_values(|s: String| s@)
}

/// `after` is the repository history of version `cursor` and log `changes`
/// with one more batch for the paths `affected` at `timestamp`, and the cursor
/// moved on by one; when nothing was affected it is left exactly as it was.
pub open spec fn records_batch(
    cursor: nat,
    changes: Seq<RepositoryChange>,
    after: RepositoryHistory,
    affected: Seq<Seq<char>>,
    timestamp: u64,
) -> bool {
    if affected.len() == 0 {
        after.cursor == cursor && after.changes@ == changes
    } else {
        &&& after.cursor == cursor + 1
        &&& after.changes@.len() == changes.len() + 1
        &&& after.changes@.drop_last() == changes
        &&& after.changes@.last().timestamp == timestamp
        &&& strings_of(after.changes@.last().affected_files@) == affected
    }
}

/// The outcome of an Update over `files` on the repository history of version
/// `cursor` and log `changes`: each file's step, and the batch of the paths
/// that changed.
pub open spec fn update_step(
    cursor: nat,
    changes: Seq<RepositoryChange>,
    after: RepositoryHistory,
    files: Seq<PendingFile>,
    out: Seq<Option<FileHistory>>,
    timestamp: u64,
) -> bool {
    &&& out.len() == files.len()
    &&& forall|i: int|
        0 <= i < files.len() ==> file_step(cursor, #[trigger] files[i].record, Ok(out[i]))
    &&& records_batch(cursor, changes, after, affected_paths(files, out, files.len() as int), timestamp)
}

/// The new history of one file after an Update at `cursor`, or `None` when the
/// Update records nothing for it.
pub fn get_new_history_for_file(cursor: usize, record: FileRecord) -> (r: Result<
    Option<FileHistory>,
    ActionError,
>)
    requires
        cursor < usize::MAX,
    ensures
        file_step(cursor as nat, record, r),
{
    let ghost rec = record;
    match record {
        FileRecord::Deleted { history } => {
            if !history.is_file_deleted(cursor) {
                let mut new_history = history;
                new_history.add_change(
                    FileChange { change_index: cursor + 1, variant: FileChangeVariant::Deleted },
                );
                Ok(Some(new_history))
            } else {
                Ok(None)
            }
        },
        FileRecord::Untracked { content } => {
            let ghost bytes = content@;
            let mut new_history = FileHistory::default();
            let edits = vec![ContentChange::Inserted { at: 0, new_content: content }];
            proof {
                assert(edits_of(edits@) =~= seq![Edit::Insert { at: 0, content: bytes }]);
            }
            new_history.add_change(
                FileChange { change_index: cursor + 1, variant: FileChangeVariant::Updated(edits) },
            );
            Ok(Some(new_history))
        },
        FileRecord::Versioned { history, content } => {
            match history.replay(cursor) {
                None => Err(ActionError::CorruptHistory),
                Some(old_content) => {
                    let changes = ContentChange::diff(old_content.as_slice(), content.as_slice());
                    if changes.len() > 0 {
                        let mut new_history = history;
                        new_history.add_change(
                            FileChange {
                                change_index: cursor + 1,
                                variant: FileChangeVariant::Updated(changes),
                            },
                        );
                        proof {
                            assert(new_history.changes@.drop_last() =~= rec->Versioned_history.changes@);
                        }
                        Ok(Some(new_history))
                    } else {
                        Ok(None)
                    }
                },
            }
        },
    }
}

/// The items of `v` in reverse order, so that popping yields them front first.
fn reversed<T>(v: Vec<T>) -> (r: Vec<T>)
    ensures
        r@ == v@.reverse(),
{
    let ghost all = v@;
    let mut v = v;
    let mut r: Vec<T> = Vec::new();
    while v.len() > 0
        invariant
            v@.len() <= all.len(),
            v@ == all.subrange(0, v@.len() as int),
            r@ == all.subrange(v@.len() as int, all.len() as int).reverse(),
        decreases v@.len(),
    {
        let x = v.pop().unwrap();
        r.push(x);
        assert(r@ =~= all.subrange(v@.len() as int, all.len() as int).reverse());
    }
    assert(all.subrange(0, all.len() as int) =~= all);
    r
}

/// Runs an Update over `files` on `repository`: each file's new history (or
/// `None`) in the order given, and, when any file changed, a new batch of their
/// working paths at `timestamp` with the cursor advanced by one. On a corrupt
/// history nothing is recorded.
pub fn update(repository: &mut RepositoryHistory, files: Vec<PendingFile>, timestamp: u64) -> (r:
    Result<Vec<Option<FileHistory>>, ActionError>)
    requires
        old(repository).cursor < usize::MAX,
    ensures
        r is Err <==> any_corrupt(old(repository).cursor as nat, files@),
        r matches Err(e) ==> e == ActionError::CorruptHistory && *final(repository) == *old(repository),
        r matches Ok(out) ==> update_step(
            old(repository).cursor as nat,
            old(repository).changes@,
            *final(repository),
            files@,
            out@,
            timestamp,
        ),
{
    let ghost all = files@;
    let ghost n = all.len() as int;
    let total = files.len();
    let cursor = repository.cursor;
    let mut pending = reversed(files);
    let mut out: Vec<Option<FileHistory>> = Vec::new();
    let mut affected: Vec<String> = Vec::new();
    let mut k: usize = 0;
    while pending.len() > 0
        invariant
            k <= n,
            all == files@,
            n == all.len(),
            n == total,
            k + pending@.len() == n,
            cursor == repository.cursor,
            cursor < usize::MAX,
            *repository == *old(repository),
            pending@ == all.subrange(k as int, n).reverse(),
            out@.len() == k,
            forall|i: int| 0 <= i < k ==> file_step(cursor as nat, #[trigger] all[i].record, Ok(out@[i])),
            strings_of(affected@) == affected_paths(all, out@, k as int),
        decreases pending@.len(),
    {
        let file = pending.pop().unwrap();
        assert(file == all[k as int]);
        assert(pending@ =~= all.subrange(k + 1, n).reverse());
        let PendingFile { working_path, record } = file;
        let step = get_new_history_for_file(cursor, record);
        match step {
            Err(e) => {
                assert(is_corrupt(cursor as nat, all[k as int].record));
                assert(any_corrupt(cursor as nat, all));
                return Err(e);
            },
            Ok(history) => {
                let ghost out_before = out@;
                let changed = history.is_some();
                out.push(history);
                assert(forall|i: int| 0 <= i < k ==> out@[i] == out_before[i]);
                assert(affected_paths(all, out@, k as int) == affected_paths(all, out_before, k as int))
                    by {
                    lemma_affected_prefix(all, out_before, out@, k as int);
                }
                if changed {
                    affected.push(working_path);
                    assert(strings_of(affected@) =~= affected_paths(all, out@, k + 1));
                }
            },
        }
        k = k + 1;
    }
    proof {
        assert(forall|i: int| 0 <= i < n ==> !is_corrupt(cursor as nat, #[trigger] all[i].record));
        assert(!any_corrupt(cursor as nat, all));
    }
    if affected.len() > 0 {
        repository.add_change(RepositoryChange { affected_files: affected, timestamp });
        repository.cursor = cursor + 1;
        assert(repository.changes@.drop_last() =~= old(repository).changes@);
    } else {
        assert(strings_of(affected@).len() == 0);
    }
    Ok(out)
}

/// `affected_paths` over the first `k` files looks at the first `k` outcomes only.
pub proof fn lemma_affected_prefix(
    files: Seq<PendingFile>,
    a: Seq<Option<FileHistory>>,
    b: Seq<Option<FileHistory>>,
    k: int,
)
    requires
        0 <= k <= a.len(),
        k <= b.len(),
        forall|i: int| 0 <= i < k ==> a[i] == b[i],
    ensures
        affected_paths(files, a, k) == affected_paths(files, b, k),
    decreases k,
{
    if k > 0 {
        lemma_affected_prefix(files, a, b, k - 1);
    }
}

/// Runs Create on a freshly emptied metadata store: an empty repository history,
/// then an Update over the working files, which are all untracked.
pub fn create(files: Vec<PendingFile>, timestamp: u64) -> (r: Result<
    (RepositoryHistory, Vec<Option<FileHistory>>),
    ActionError,
>)
    ensures
        r is Err <==> any_corrupt(0, files@),
        r matches Ok(pair) ==> update_step(0, seq![], pair.0, files@, pair.1@, timestamp),
{
    let mut repository = RepositoryHistory::default();
    let ghost empty = repository;
    assert(empty.cursor == 0 && empty.changes@.len() == 0);
    match update(&mut repository, files, timestamp) {
        Ok(out) => {
            assert(empty.changes@ =~= seq![]);
            Ok((repository, out))
        },
        Err(e) => Err(e),
    }
}


/// Some batch at a position in `[lo, hi)` of `changes` names the working path `p`.
pub open spec fn names_path(changes: Seq<RepositoryChange>, lo: int, hi: int, p: Seq<char>) -> bool {
    exists|k: int, m: int|
        lo <= k < hi && 0 <= k < changes.len() && 0 <= m < changes[k].affected_files@.len()
            && #[trigger] changes[k].affected_files@[m]@ == p
}

/// Some batch at a position in `[lo, k)`, or the first `m` paths of the batch at
/// `k`, name `p`.
pub open spec fn names_path_before(
    changes: Seq<RepositoryChange>,
    lo: int,
    k: int,
    m: int,
    p: Seq<char>,
) -> bool {
    exists|k2: int, m2: int|
        lo <= k2 <= k && 0 <= k2 < changes.len() && 0 <= m2 < changes[k2].affected_files@.len() && (
        k2 < k || m2 < m) && #[trigger] changes[k2].affected_files@[m2]@ == p
}

/// Whether `p` is one of `paths`.
pub fn contains_path(paths: &Vec<String>, p: &String) -> (r: bool)
    ensures
        r == strings_of(paths@).contains(p@),
{
    let mut i: usize = 0;
    while i < paths.len()
        invariant
            i <= paths@.len(),
            forall|j: int| 0 <= j < i ==> paths@[j]@ != p@,
        decreases paths@.len() - i,
    {
        if paths[i] == *p {
            assert(strings_of(paths@)[i as int] == p@);
            return true;
        }
        i = i + 1;
    }
    assert(!strings_of(paths@).contains(p@)) by {
        if strings_of(paths@).contains(p@) {
            let j = choose|j: int| 0 <= j < strings_of(paths@).len() && strings_of(paths@)[j] == p@;
            assert(paths@[j]@ == p@);
        }
    }
    false
}

/// Moves the cursor of `repository` to `new_cursor`, leaving its log as it is,
/// and returns, once each, the working paths that the batches between the old
/// and the new cursor name: those at log positions from the lower of the two up
/// to (not including) the higher. Only these files can differ between the two
/// versions. A cursor past the end of the log is no error: positions past the
/// end name nothing.
pub fn shift(repository: &mut RepositoryHistory, new_cursor: usize) -> (r: Vec<String>)
    ensures
        final(repository).cursor == new_cursor,
        final(repository).changes@ == old(repository).changes@,
        strings_of(r@).no_duplicates(),
        forall|p: Seq<char>|
            #[trigger] strings_of(r@).contains(p) <==> names_path(
                old(repository).changes@,
                min(old(repository).cursor as int, new_cursor as int),
                max(old(repository).cursor as int, new_cursor as int),
                p,
            ),
{
    let old_cursor = repository.cursor;
    repository.cursor = new_cursor;
    let lo = if old_cursor < new_cursor { old_cursor } else { new_cursor };
    let hi = if old_cursor < new_cursor { new_cursor } else { old_cursor };
    let end = if hi < repository.changes.len() { hi } else { repository.changes.len() };
    let ghost changes = repository.changes@;
    let mut out: Vec<String> = Vec::new();
    let mut k: usize = lo;
    while k < end
        invariant
            lo <= k,
            k <= end || k == lo,
            end <= changes.len(),
            end <= hi,
            changes == repository.changes@,
            strings_of(out@).no_duplicates(),
            forall|p: Seq<char>|
                #[trigger] strings_of(out@).contains(p) <==> names_path_before(
                    changes,
                    lo as int,
                    k as int,
                    0,
                    p,
                ),
        decreases end - k,
    {
        let files = &repository.changes[k].affected_files;
        let mut m: usize = 0;
        while m < files.len()
            invariant
                lo <= k < end,
                end <= changes.len(),
                changes == repository.changes@,
                *files == changes[k as int].affected_files,
                m <= files@.len(),
                strings_of(out@).no_duplicates(),
                forall|p: Seq<char>|
                    #[trigger] strings_of(out@).contains(p) <==> names_path_before(
                        changes,
                        lo as int,
                        k as int,
                        m as int,
                        p,
                    ),
            decreases files@.len() - m,
        {
            let ghost before = out@;
            if !contains_path(&out, &files[m]) {
                let name = files[m].clone();
                assert(name@ == files@[m as int]@);
                out.push(name);
                assert(out@ == before.push(name));
                assert(strings_of(out@) =~= strings_of(before).push(files@[m as int]@));
            }
            assert forall|p: Seq<char>|
                #[trigger] strings_of(out@).contains(p) == (strings_of(before).contains(p) || p
                    == files@[m as int]@) by {
                if strings_of(out@) != strings_of(before) {
                    lemma_seq_contains_after_push(strings_of(before), files@[m as int]@, p);
                }
            }
            assert forall|p: Seq<char>|
                #[trigger] strings_of(out@).contains(p) <==> names_path_before(
                    changes,
                    lo as int,
                    k as int,
                    m + 1,
                    p,
                ) by {
                if names_path_before(changes, lo as int, k as int, m + 1, p) {
                    let (k2, m2) = choose|k2: int, m2: int|
                        lo <= k2 <= k && 0 <= k2 < changes.len() && 0 <= m2
                            < changes[k2].affected_files@.len() && (k2 < k || m2 < m + 1)
                            && #[trigger] changes[k2].affected_files@[m2]@ == p;
                    if k2 < k || m2 < m {
                        assert(names_path_before(changes, lo as int, k as int, m as int, p));
                    }
                }
                if names_path_before(changes, lo as int, k as int, m as int, p) {
                    let (k2, m2) = choose|k2: int, m2: int|
                        lo <= k2 <= k && 0 <= k2 < changes.len() && 0 <= m2
                            < changes[k2].affected_files@.len() && (k2 < k || m2 < m)
                            && #[trigger] changes[k2].affected_files@[m2]@ == p;
                    assert(names_path_before(changes, lo as int, k as int, m + 1, p));
                }
                if p == files@[m as int]@ {
                    assert(changes[k as int].affected_files@[m as int]@ == p);
                }
            }
            m = m + 1;
        }
        assert forall|p: Seq<char>|
            names_path_before(changes, lo as int, k as int, m as int, p) <==> names_path_before(
                changes,
                lo as int,
                k + 1,
                0,
                p,
            ) by {
            if names_path_before(changes, lo as int, k as int, m as int, p) {
                let (k2, m2) = choose|k2: int, m2: int|
                    lo <= k2 <= k && 0 <= k2 < changes.len() && 0 <= m2
                        < changes[k2].affected_files@.len() && (k2 < k || m2 < m)
                        && #[trigger] changes[k2].affected_files@[m2]@ == p;
                assert(names_path_before(changes, lo as int, k + 1, 0, p));
            }
        }
        k = k + 1;
    }
    assert forall|p: Seq<char>|
        names_path_before(changes, lo as int, k as int, 0, p) <==> names_path(
            changes,
            lo as int,
            hi as int,
            p,
        ) by {
        if names_path(changes, lo as int, hi as int, p) {
            let (k2, m2) = choose|k2: int, m2: int|
                lo <= k2 < hi && 0 <= k2 < changes.len() && 0 <= m2
                    < changes[k2].affected_files@.len() && #[trigger] changes[k2].affected_files@[m2]@
                    == p;
            assert(names_path_before(changes, lo as int, k as int, 0, p));
        }
        if names_path_before(changes, lo as int, k as int, 0, p) {
            let (k2, m2) = choose|k2: int, m2: int|
                lo <= k2 <= k && 0 <= k2 < changes.len() && 0 <= m2
                    < changes[k2].affected_files@.len() && (k2 < k || m2 < 0)
                    && #[trigger] changes[k2].affected_files@[m2]@ == p;
            assert(names_path(changes, lo as int, hi as int, p));
        }
    }
    out
}

/// What Shift does to a file whose history is `history` (`None` when it has
/// none) and whose working file exists or not (`working_exists`): an untracked
/// file is left alone; a file deleted at `new_cursor` is removed if present and
/// left absent otherwise; any other file is written with its content at
/// `new_cursor`. A history that cannot be replayed is an error.
pub fn shift_file(history: Option<&FileHistory>, new_cursor: usize, working_exists: bool) -> (r:
    Result<ShiftAction, ActionError>)
    ensures
        match history {
            None => r == Ok::<ShiftAction, ActionError>(ShiftAction::Keep),
            Some(h) => if h.deleted_at(new_cursor as int) {
                r == Ok::<ShiftAction, ActionError>(
                    if working_exists {
                        ShiftAction::Delete
                    } else {
                        ShiftAction::Keep
                    },
                )
            } else {
                match h.content_at(new_cursor as int) {
                    Some(content) => r matches Ok(ShiftAction::Write(bytes)) && bytes@ == content,
                    None => r == Err::<ShiftAction, ActionError>(ActionError::CorruptHistory),
                }
            },
        },
{
    let history = match history {
        Some(h) => h,
        None => {
            return Ok(ShiftAction::Keep);
        },
    };
    if history.is_file_deleted(new_cursor) {
        if working_exists {
            Ok(ShiftAction::Delete)
        } else {
            Ok(ShiftAction::Keep)
        }
    } else {
        match history.replay(new_cursor) {
            Some(content) => Ok(ShiftAction::Write(content)),
            None => Err(ActionError::CorruptHistory),
        }
    }
}

/// Every entry of the file's history, if it has one, was recorded by `cursor`.
pub open spec fn record_recorded_by(record: FileRecord, cursor: int) -> bool {
    match record {
        FileRecord::Deleted { history } => recorded_by(history.changes@, cursor),
        FileRecord::Untracked { .. } => true,
        FileRecord::Versioned { history, .. } => recorded_by(history.changes@, cursor),
    }
}

/// The file's history after an Update whose outcome for it is `out`.
pub open spec fn history_after(record: FileRecord, out: Option<FileHistory>) -> FileHistory {
    match out {
        Some(h) => h,
        None => match record {
            FileRecord::Deleted { history } => history,
            FileRecord::Versioned { history, .. } => history,
            FileRecord::Untracked { .. } => arbitrary(),
        },
    }
}

/// What a second Update reads of the same file, the working tree unchanged:
/// the history the first one left, and the same working content.
pub open spec fn reread(record: FileRecord, out: Option<FileHistory>) -> FileRecord {
    match record {
        FileRecord::Deleted { .. } => FileRecord::Deleted { history: history_after(record, out) },
        FileRecord::Untracked { content } => FileRecord::Versioned {
            history: history_after(record, out),
            content,
        },
        FileRecord::Versioned { content, .. } => FileRecord::Versioned {
            history: history_after(record, out),
            content,
        },
    }
}

/// Reconstruction consistency. After an Update at `cursor` of a file whose
/// working content is `content`, the file's history replays at `cursor + 1` to
/// exactly `content`; by induction, after each of any number of successive
/// Updates the history replays at the new cursor to the bytes read by that Update.
pub proof fn lemma_reconstruction_consistent(
    cursor: nat,
    record: FileRecord,
    out: Option<FileHistory>,
)
    requires
        cursor < usize::MAX,
        record_recorded_by(record, cursor as int),
        file_step(cursor, record, Ok(out)),
    ensures
        record matches FileRecord::Untracked { content } ==> history_after(record, out).content_at(
            cursor + 1 as int,
        ) == Some(content@),
        record matches FileRecord::Versioned { content, .. } ==> history_after(record, out).content_at(
            cursor + 1 as int,
        ) == Some(content@),
        recorded_by(history_after(record, out).changes@, cursor + 1 as int),
{
    let next = cursor + 1;
    match record {
        FileRecord::Deleted { history } => {
            lemma_recorded_later(history.changes@, cursor as int, next as int);
        },
        FileRecord::Untracked { content } => {
            let after = out->0;
            let s = after.changes@;
            assert(s[0].change_index <= next);
            assert(s.drop_first() =~= Seq::<FileChange>::empty());
            match s[0].variant {
                FileChangeVariant::Updated(edits) => {
                    let e = seq![Edit::Insert { at: 0, content: content@ }];
                    assert(e[0].apply(seq![]) =~= content@);
                    lemma_single_edit(seq![], e[0]);
                    assert(e =~= seq![e[0]]);
                    assert(script_applies(seq![], e));
                    assert(apply_script(seq![], e) == content@);
                    assert(replay_from(s.drop_first(), next as int, content@) == Some(content@));
                },
                FileChangeVariant::Deleted => {},
            }
        },
        FileRecord::Versioned { history, content } => {
            let h = history.changes@;
            lemma_recorded_later(h, cursor as int, next as int);
            lemma_replay_cursor_free(h, cursor as int, next as int, seq![], false);
            if out is Some {
                let s = out->0.changes@;
                let last = s.last();
                assert(s =~= h + seq![last]);
                lemma_replay_append(h, seq![last], next as int, seq![]);
                let old_content = history.content_at(cursor as int)->0;
                assert(seq![last][0] == last);
                assert(seq![last].drop_first() =~= Seq::<FileChange>::empty());
                match last.variant {
                    FileChangeVariant::Updated(edits) => {
                        let spans = choose|spans: Seq<Span>|
                            aligns(old_content, content@, spans) && #[trigger] script_of(
                                content@,
                                spans,
                            ) == edits_of(edits@);
                        lemma_script_round_trip(old_content, content@, spans);
                        assert(replay_from(seq![last], next as int, old_content) == replay_from(
                            Seq::<FileChange>::empty(),
                            next as int,
                            content@,
                        ));
                    },
                    FileChangeVariant::Deleted => {},
                }
                assert(recorded_by(s, next as int)) by {
                    assert forall|k: int| 0 <= k < s.len() implies #[trigger] s[k].change_index
                        <= next by {
                        if k < h.len() {
                            assert(s[k] == h[k]);
                        }
                    }
                }
            }
        },
    }
    if record is Deleted && out is Some {
        let s = out->0.changes@;
        let h = record->Deleted_history.changes@;
        assert(recorded_by(s, next as int)) by {
            assert forall|k: int| 0 <= k < s.len() implies #[trigger] s[k].change_index <= next by {
                if k < h.len() {
                    assert(s[k] == h[k]);
                }
            }
        }
    }
}

/// A second Update of the same file, the working tree unchanged, records
/// nothing, at the cursor the first one left (`cursor + 1` if it recorded
/// something, `cursor` or `cursor + 1` otherwise).
pub proof fn lemma_file_update_idempotent(
    cursor: nat,
    record: FileRecord,
    out: Option<FileHistory>,
    cursor2: nat,
)
    requires
        cursor < usize::MAX,
        record_recorded_by(record, cursor as int),
        file_step(cursor, record, Ok(out)),
        cursor2 == cursor || cursor2 == cursor + 1,
        out is Some ==> cursor2 == cursor + 1,
    ensures
        !is_corrupt(cursor2, reread(record, out)),
        is_unchanged(cursor2, reread(record, out)),
{
    lemma_reconstruction_consistent(cursor, record, out);
    let next = cursor + 1;
    match record {
        FileRecord::Deleted { history } => {
            let h = history.changes@;
            lemma_recorded_later(h, cursor as int, next as int);
            if out is Some {
                let s = out->0.changes@;
                let del = FileChange { change_index: next as usize, variant: FileChangeVariant::Deleted };
                assert(s =~= h + seq![del]);
                lemma_replay_append(h, seq![del], next as int, seq![]);
                assert(seq![del][0] == del);
                assert(seq![del].drop_first() =~= Seq::<FileChange>::empty());
                assert(deleted_from(seq![del], next as int, deleted_from(h, next as int, false))
                    == deleted_from(Seq::<FileChange>::empty(), next as int, true));
            } else {
                lemma_replay_cursor_free(h, cursor as int, cursor2 as int, seq![], false);
            }
        },
        FileRecord::Untracked { .. } => {},
        FileRecord::Versioned { history, .. } => {
            if out is None {
                let h = history.changes@;
                lemma_recorded_later(h, cursor as int, cursor2 as int);
                lemma_replay_cursor_free(h, cursor as int, cursor2 as int, seq![], false);
            }
        },
    }
}

/// No file of the first `k` received an entry exactly when no batch path was collected.
pub proof fn lemma_affected_empty(files: Seq<PendingFile>, out: Seq<Option<FileHistory>>, k: int)
    requires
        0 <= k <= out.len(),
    ensures
        affected_paths(files, out, k).len() == 0 <==> forall|i: int| 0 <= i < k ==> #[trigger] out[i] is None,
    decreases k,
{
    if k > 0 {
        lemma_affected_empty(files, out, k - 1);
        if affected_paths(files, out, k - 1).len() > 0 {
            let i = choose|i: int| 0 <= i < k - 1 && !(#[trigger] out[i] is None);
            assert(0 <= i < k && !(out[i] is None));
        }
    }
}

/// A file of the first `k` that received an entry puts a path in the batch.
pub proof fn lemma_affected_some(files: Seq<PendingFile>, out: Seq<Option<FileHistory>>, k: int, i: int)
    requires
        0 <= i < k <= out.len(),
        out[i] is Some,
    ensures
        affected_paths(files, out, k).len() > 0,
    decreases k,
{
    if i < k - 1 {
        lemma_affected_some(files, out, k - 1, i);
    }
}

/// Update idempotence. Run an Update over `files` on a repository history whose
/// file histories were all recorded by its cursor, then a second Update over
/// the same working files, each now read with the history the first Update left
/// it. The second Update records no entry for any file and leaves the
/// repository history as the first one left it.
pub proof fn lemma_update_idempotent(
    before: RepositoryHistory,
    files: Seq<PendingFile>,
    mid: RepositoryHistory,
    out: Seq<Option<FileHistory>>,
    timestamp: u64,
    files2: Seq<PendingFile>,
    after: RepositoryHistory,
    out2: Seq<Option<FileHistory>>,
    timestamp2: u64,
)
    requires
        before.cursor < usize::MAX,
        forall|i: int| 0 <= i < files.len() ==> record_recorded_by(#[trigger] files[i].record, before.cursor as int),
        update_step(before.cursor as nat, before.changes@, mid, files, out, timestamp),
        files2.len() == files.len(),
        forall|i: int|
            0 <= i < files.len() ==> #[trigger] files2[i].working_path == files[i].working_path
                && files2[i].record == reread(files[i].record, out[i]),
        update_step(mid.cursor as nat, mid.changes@, after, files2, out2, timestamp2),
    ensures
        forall|i: int| 0 <= i < out2.len() ==> #[trigger] out2[i] is None,
        after.cursor == mid.cursor,
        after.changes@ == mid.changes@,
{
    let n = files.len() as int;
    let c = before.cursor as nat;
    lemma_affected_empty(files, out, n);
    let any = affected_paths(files, out, n).len() > 0;
    assert(mid.cursor == if any { c + 1 } else { c });
    assert forall|i: int| 0 <= i < out2.len() implies #[trigger] out2[i] is None by {
        assert(file_step(c, files[i].record, Ok(out[i])));
        if out[i] is Some {
            lemma_affected_some(files, out, n, i);
        }
        lemma_file_update_idempotent(c, files[i].record, out[i], mid.cursor as nat);
        assert(files2[i].working_path == files[i].working_path);
        assert(file_step(mid.cursor as nat, files2[i].record, Ok(out2[i])));
    }
    lemma_affected_empty(files2, out2, n);
}


/// The working content that an Update read of the file; empty for a deleted file.
pub open spec fn content_read(record: FileRecord) -> Seq<u8> {
    match record {
        FileRecord::Deleted { .. } => seq![],
        FileRecord::Untracked { content } => content@,
        FileRecord::Versioned { content, .. } => content@,
    }
}

/// Successive Updates of one present file: the `k`-th read `records[k]` at
/// cursor `cursors[k]`, each after the first reading the history that the one
/// before left, with the cursor moving on in between.
pub open spec fn successive_updates(
    records: Seq<FileRecord>,
    outs: Seq<Option<FileHistory>>,
    cursors: Seq<nat>,
    n: int,
) -> bool {
    &&& 0 < n <= records.len()
    &&& n <= outs.len()
    &&& n <= cursors.len()
    &&& record_recorded_by(records[0], cursors[0] as int)
    &&& forall|k: int|
        0 <= k < n ==> (#[trigger] records[k] is Untracked || records[k] is Versioned) && cursors[k]
            < usize::MAX && file_step(cursors[k], records[k], Ok(outs[k]))
    &&& forall|k: int|
        0 < k < n ==> cursors[k - 1] < cursors[k] && (#[trigger] records[k] matches FileRecord::Versioned {
            history,
            ..
        } && history == history_after(records[k - 1], outs[k - 1]))
}

/// Reconstruction consistency over successive Updates. After `n` Updates of a
/// file, the history the last one left replays, at the cursor each Update moved
/// to, to exactly the working bytes that Update read.
pub proof fn lemma_reconstruction_after_updates(
    records: Seq<FileRecord>,
    outs: Seq<Option<FileHistory>>,
    cursors: Seq<nat>,
    n: int,
)
    requires
        successive_updates(records, outs, cursors, n),
    ensures
        recorded_by(history_after(records[n - 1], outs[n - 1]).changes@, cursors[n - 1] + 1 as int),
        forall|k: int|
            0 <= k < n ==> history_after(records[n - 1], outs[n - 1]).content_at(cursors[k] + 1 as int)
                == Some(content_read(#[trigger] records[k])),
    decreases n,
{
    let last = records[n - 1];
    let c = cursors[n - 1];
    assert(records[n - 1] is Untracked || records[n - 1] is Versioned);
    if n == 1 {
        lemma_reconstruction_consistent(c, last, outs[0]);
    } else {
        assert(successive_updates(records, outs, cursors, n - 1));
        lemma_reconstruction_after_updates(records, outs, cursors, n - 1);
        let prev = history_after(records[n - 2], outs[n - 2]);
        assert(last matches FileRecord::Versioned { history, .. } && history == prev);
        assert(record_recorded_by(last, c as int));
        lemma_recorded_later(prev.changes@, cursors[n - 2] + 1 as int, c as int);
        lemma_reconstruction_consistent(c, last, outs[n - 1]);
        let after = history_after(last, outs[n - 1]);
        assert forall|k: int| 0 <= k < n - 1 implies after.content_at(cursors[k] + 1 as int) == Some(
            content_read(#[trigger] records[k]),
        ) by {
            assert(prev.content_at(cursors[k] + 1 as int) == Some(content_read(records[k])));
            if outs[n - 1] is Some {
                let s = after.changes@;
                let entry = s.last();
                assert(s =~= prev.changes@ + seq![entry]);
                assert(cursors[k] < c) by {
                    lemma_cursors_increase(records, outs, cursors, n, k);
                }
                lemma_replay_append_later(prev.changes@, seq![entry], cursors[k] + 1 as int, seq![]);
            }
        }
    }
}

/// The cursors of successive Updates increase.
proof fn lemma_cursors_increase(
    records: Seq<FileRecord>,
    outs: Seq<Option<FileHistory>>,
    cursors: Seq<nat>,
    n: int,
    k: int,
)
    requires
        successive_updates(records, outs, cursors, n),
        0 <= k < n - 1,
    ensures
        cursors[k] < cursors[n - 1],
    decreases n - 1 - k,
{
    assert(records[n - 1] matches FileRecord::Versioned { .. });
    if k < n - 2 {
        assert(successive_updates(records, outs, cursors, n - 1));
        lemma_cursors_increase(records, outs, cursors, n - 1, k);
    }
}

} // verus!
