//! Where things live: working paths, the metadata store beside them, and the
//! classification of a path as untracked, versioned or deleted.
//!
//! A path is a `/`-separated string.
use vstd::prelude::*;
use vstd::string::{StrSliceExecFns, StringExecFns};

use crate::actions::{contains_path, strings_of, ActionError};

verus! {

/// `base` and `name` joined by a `/`. An absolute `name` stands for itself, and
/// no separator is doubled.
pub open spec fn path_join(base: Seq<char>, name: Seq<char>) -> Seq<char> {
    if name.len() > 0 && name[0] == '/' {
        name
    } else if base.len() == 0 || base.last() == '/' {
        base + name
    } else {
        base + seq!['/'] + name
    }
}

/// The part of `path` below the directory `base`: `None` when `path` does not
/// lie in `base`, empty when it is `base` itself. Every path lies in the empty
/// path, and a trailing `/` of `base` does not count.
pub open spec fn path_strip(path: Seq<char>, base: Seq<char>) -> Option<Seq<char>> {
    if base.len() == 0 {
        Some(path)
    } else if base.len() > 1 && base.last() == '/' && path == base.drop_last() {
        Some(seq![])
    } else if base.len() <= path.len() && path.subrange(0, base.len() as int) == base {
        let rest = path.subrange(base.len() as int, path.len() as int);
        if rest.len() == 0 {
            Some(rest)
        } else if rest[0] == '/' {
            Some(rest.drop_first())
        } else if base.last() == '/' {
            Some(rest)
        } else {
            None
        }
    } else {
        None
    }
}

/// `base` joined with `name`.
pub fn join_path(base: &String, name: &str) -> (r: String)
    ensures
        r@ == path_join(base@, name@),
{
    let name_len = name.unicode_len();
    if name_len > 0 && name.get_char(0) == '/' {
        return String::from_str(name);
    }
    let b = base.as_str();
    let base_len = b.unicode_len();
    let mut r = base.clone();
    if base_len == 0 || b.get_char(base_len - 1) == '/' {
        r.append(name);
    } else {
        proof {
            reveal_strlit("/");
        }
        r.append("/");
        r.append(name);
    }
    r
}

/// The part of `path` below the directory `base`, if it lies there.
pub fn strip_path(path: &str, base: &String) -> (r: Option<String>)
    ensures
        r is Some <==> path_strip(path@, base@) is Some,
        r matches Some(rest) ==> rest@ == path_strip(path@, base@)->0,
{
    let b = base.as_str();
    let path_len = path.unicode_len();
    let base_len = b.unicode_len();
    if base_len == 0 {
        return Some(String::from_str(path));
    }
    if base_len > 1 && b.get_char(base_len - 1) == '/' && path_len == base_len - 1 {
        let trimmed = String::from_str(b.substring_char(0, base_len - 1));
        if trimmed == String::from_str(path) {
            proof {
                assert(base@.drop_last() =~= base@.subrange(0, base_len - 1));
            }
            return Some(String::new());
        }
        proof {
            assert(base@.drop_last() =~= base@.subrange(0, base_len - 1));
        }
    }
    if base_len > path_len {
        return None;
    }
    let head = String::from_str(path.substring_char(0, base_len));
    if !(head == *base) {
        return None;
    }
    if path_len == base_len {
        let rest = String::from_str(path.substring_char(base_len, path_len));
        return Some(rest);
    }
    let ghost rest = path@.subrange(base_len as int, path_len as int);
    assert(rest[0] == path@[base_len as int]);
    if path.get_char(base_len) == '/' {
        let stripped = String::from_str(path.substring_char(base_len + 1, path_len));
        assert(stripped@ =~= rest.drop_first());
        return Some(stripped);
    }
    if b.get_char(base_len - 1) == '/' {
        return Some(String::from_str(path.substring_char(base_len, path_len)));
    }
    None
}

/// Where the repository to act on lies.
pub struct ActionOptions {
    pub repository_path: String,
}

impl ActionOptions {
    pub fn from_path(path: &str) -> (r: Self)
        ensures
            r.repository_path@ == path@,
    {
        ActionOptions { repository_path: String::from_str(path) }
    }
}

/// The repository root, its metadata root `.ka`, and the file store `.ka/files`
/// where each history lies at the working file's path relative to the root.
pub struct Locations {
    pub repository_path: String,
    pub ka_path: String,
    pub ka_files_path: String,
}

impl Locations {
    pub fn from_options(options: &ActionOptions) -> (r: Self)
        ensures
            r.repository_path@ == options.repository_path@,
            r.ka_path@ == path_join(options.repository_path@, ".ka"@),
            r.ka_files_path@ == path_join(r.ka_path@, "files"@),
    {
        let ka_path = join_path(&options.repository_path, ".ka");
        let ka_files_path = join_path(&ka_path, "files");
        Locations { repository_path: options.repository_path.clone(), ka_path, ka_files_path }
    }

    /// Where the repository history (the index) is stored.
    pub fn get_repository_index_path(&self) -> (r: String)
        ensures
            r@ == path_join(self.ka_path@, "index"@),
    {
        join_path(&self.ka_path, "index")
    }

    /// The working path that `path` stands for, when `path` lies in the file store.
    pub open spec fn working_of(&self, path: Seq<char>) -> Option<Seq<char>> {
        match path_strip(path, self.ka_files_path@) {
            Some(rest) => Some(path_join(self.repository_path@, rest)),
            None => None,
        }
    }

    /// Where the history of `path` lies, when `path` lies in the repository.
    pub open spec fn history_of(&self, path: Seq<char>) -> Option<Seq<char>> {
        match path_strip(path, self.repository_path@) {
            Some(rest) => Some(path_join(self.ka_files_path@, rest)),
            None => None,
        }
    }

    pub fn working_from_history(&self, history_file_path: &str) -> (r: Result<String, ActionError>)
        ensures
            match self.working_of(history_file_path@) {
                Some(w) => r matches Ok(p) && p@ == w,
                None => r == Err::<String, ActionError>(ActionError::UnrelatedPath),
            },
    {
        match strip_path(history_file_path, &self.ka_files_path) {
            Some(rest) => Ok(join_path(&self.repository_path, rest.as_str())),
            None => Err(ActionError::UnrelatedPath),
        }
    }

    pub fn history_from_working(&self, working_file_path: &str) -> (r: Result<String, ActionError>)
        ensures
            match self.history_of(working_file_path@) {
                Some(h) => r matches Ok(p) && p@ == h,
                None => r == Err::<String, ActionError>(ActionError::UnrelatedPath),
            },
    {
        match strip_path(working_file_path, &self.repository_path) {
            Some(rest) => Ok(join_path(&self.ka_files_path, rest.as_str())),
            None => Err(ActionError::UnrelatedPath),
        }
    }
}

/// A path classified by which of its working file and its history exist.
pub enum FileState {
    Deleted(FileDeleted),
    Untracked(FileUntracked),
    Versioned(FileTracked),
}

pub struct FileDeleted {
    pub history_path: String,
}

pub struct FileUntracked {
    pub path: String,
}

pub struct FileTracked {
    pub history_path: String,
    pub working_path: String,
}

/// `s` classifies the working file `w`, whose history exists or not.
pub open spec fn is_working_state(loc: Locations, s: FileState, w: Seq<char>, history_exists: bool) -> bool {
    if history_exists {
        s matches FileState::Versioned(t) && t.working_path@ == w && t.history_path@
            == loc.history_of(w)->0
    } else {
        s matches FileState::Untracked(u) && u.path@ == w
    }
}

/// `s` classifies the history file `h`, whose working file exists or not.
pub open spec fn is_history_state(loc: Locations, s: FileState, h: Seq<char>, working_exists: bool) -> bool {
    if working_exists {
        s matches FileState::Versioned(t) && t.history_path@ == h && t.working_path@
            == loc.working_of(h)->0
    } else {
        s matches FileState::Deleted(d) && d.history_path@ == h
    }
}

/// Of the first `k` history files, those whose working file is not among
/// `working`, in order.
pub open spec fn deleted_prefix(
    loc: Locations,
    working: Seq<Seq<char>>,
    history: Seq<Seq<char>>,
    k: int,
) -> Seq<Seq<char>>
    decreases k,
{
    if k <= 0 {
        seq![]
    } else {
        let before = deleted_prefix(loc, working, history, k - 1);
        if working.contains(loc.working_of(history[k - 1])->0) {
            before
        } else {
            before.push(history[k - 1])
        }
    }
}

impl FileState {
    /// Classifies the history file `history_file_path`: deleted if its working
    /// file does not exist, versioned if it does.
    pub fn from_history(locations: &Locations, history_file_path: &str, working_exists: bool) -> (r:
        Result<Self, ActionError>)
        ensures
            locations.working_of(history_file_path@) is None ==> r == Err::<Self, ActionError>(
                ActionError::UnrelatedPath,
            ),
            locations.working_of(history_file_path@) is Some ==> (r matches Ok(s) && is_history_state(
                *locations,
                s,
                history_file_path@,
                working_exists,
            )),
    {
        let working_path = locations.working_from_history(history_file_path)?;
        if !working_exists {
            Ok(FileState::Deleted(FileDeleted { history_path: String::from_str(history_file_path) }))
        } else {
            Ok(
                FileState::Versioned(
                    FileTracked { history_path: String::from_str(history_file_path), working_path },
                ),
            )
        }
    }

    /// Classifies the working file `working_file_path`: untracked if its
    /// history does not exist, versioned if it does.
    pub fn from_working(locations: &Locations, working_file_path: &str, history_exists: bool) -> (r:
        Result<Self, ActionError>)
        ensures
            locations.history_of(working_file_path@) is None ==> r == Err::<Self, ActionError>(
                ActionError::UnrelatedPath,
            ),
            locations.history_of(working_file_path@) is Some ==> (r matches Ok(s) && is_working_state(
                *locations,
                s,
                working_file_path@,
                history_exists,
            )),
    {
        let history_path = locations.history_from_working(working_file_path)?;
        if !history_exists {
            Ok(FileState::Untracked(FileUntracked { path: String::from_str(working_file_path) }))
        } else {
            Ok(
                FileState::Versioned(
                    FileTracked { history_path, working_path: String::from_str(working_file_path) },
                ),
            )
        }
    }

    pub fn get_working_path(&self, locations: &Locations) -> (r: Result<String, ActionError>)
        ensures
            match self {
                FileState::Deleted(d) => match locations.working_of(d.history_path@) {
                    Some(w) => r matches Ok(p) && p@ == w,
                    None => r == Err::<String, ActionError>(ActionError::UnrelatedPath),
                },
                FileState::Untracked(u) => r matches Ok(p) && p@ == u.path@,
                FileState::Versioned(t) => r matches Ok(p) && p@ == t.working_path@,
            },
    {
        match self {
            FileState::Deleted(deleted) => locations.working_from_history(deleted.history_path.as_str()),
            FileState::Untracked(untracked) => Ok(untracked.path.clone()),
            FileState::Versioned(versioned) => Ok(versioned.working_path.clone()),
        }
    }
}


/// Every working file lies in the repository and every history file in the file store.
pub open spec fn listings_related(
    loc: Locations,
    working: Seq<Seq<char>>,
    history: Seq<Seq<char>>,
) -> bool {
    &&& forall|i: int| 0 <= i < working.len() ==> (#[trigger] loc.history_of(working[i])) is Some
    &&& forall|j: int| 0 <= j < history.len() ==> (#[trigger] loc.working_of(history[j])) is Some
}

/// `states` enumerates the repository: each working file classified by whether
/// its history is listed, followed by the history files whose working file is
/// not listed, as deleted.
pub open spec fn enumerates(
    loc: Locations,
    working: Seq<Seq<char>>,
    history: Seq<Seq<char>>,
    states: Seq<FileState>,
) -> bool {
    let deleted = deleted_prefix(loc, working, history, history.len() as int);
    &&& states.len() == working.len() + deleted.len()
    &&& forall|i: int|
        0 <= i < working.len() ==> is_working_state(
            loc,
            #[trigger] states[i],
            working[i],
            history.contains(loc.history_of(working[i])->0),
        )
    &&& forall|j: int|
        0 <= j < deleted.len() ==> (#[trigger] states[working.len() + j] matches FileState::Deleted(d)
            && d.history_path@ == deleted[j])
}

impl Locations {
    /// Enumerates the repository from the recursive listings of its working
    /// files (the metadata root left out) and of its history files. A path
    /// outside the root it was listed under stops the enumeration.
    pub fn get_repository_files(&self, working_files: &Vec<String>, history_files: &Vec<String>) -> (r:
        Result<Vec<FileState>, ActionError>)
        ensures
            r is Ok <==> listings_related(*self, strings_of(working_files@), strings_of(history_files@)),
            r matches Err(e) ==> e == ActionError::UnrelatedPath,
            r matches Ok(states) ==> enumerates(
                *self,
                strings_of(working_files@),
                strings_of(history_files@),
                states@,
            ),
    {
        let ghost working = strings_of(working_files@);
        let ghost history = strings_of(history_files@);
        let mut states: Vec<FileState> = Vec::new();
        let mut i: usize = 0;
        while i < working_files.len()
            invariant
                i <= working.len(),
                working == strings_of(working_files@),
                history == strings_of(history_files@),
                states@.len() == i,
                forall|k: int| 0 <= k < i ==> (#[trigger] self.history_of(working[k])) is Some,
                forall|k: int|
                    0 <= k < i ==> is_working_state(
                        *self,
                        #[trigger] states@[k],
                        working[k],
                        history.contains(self.history_of(working[k])->0),
                    ),
            decreases working.len() - i,
        {
            let path = working_files[i].as_str();
            let history_path = match self.history_from_working(path) {
                Ok(h) => h,
                Err(e) => {
                    assert(self.history_of(working[i as int]) is None);
                    return Err(e);
                },
            };
            let exists = contains_path(history_files, &history_path);
            let state = FileState::from_working(self, path, exists)?;
            states.push(state);
            i = i + 1;
        }
        let ghost n = working.len() as int;
        let mut j: usize = 0;
        while j < history_files.len()
            invariant
                j <= history.len(),
                n == working.len(),
                working == strings_of(working_files@),
                history == strings_of(history_files@),
                states@.len() == n + deleted_prefix(*self, working, history, j as int).len(),
                forall|k: int| 0 <= k < n ==> (#[trigger] self.history_of(working[k])) is Some,
                forall|k: int| 0 <= k < j ==> (#[trigger] self.working_of(history[k])) is Some,
                forall|k: int|
                    0 <= k < n ==> is_working_state(
                        *self,
                        #[trigger] states@[k],
                        working[k],
                        history.contains(self.history_of(working[k])->0),
                    ),
                forall|k: int|
                    0 <= k < deleted_prefix(*self, working, history, j as int).len() ==> (
                    #[trigger] states@[n + k] matches FileState::Deleted(d) && d.history_path@
                        == deleted_prefix(*self, working, history, j as int)[k]),
            decreases history.len() - j,
        {
            let path = history_files[j].as_str();
            let working_path = match self.working_from_history(path) {
                Ok(w) => w,
                Err(e) => {
                    assert(self.working_of(history[j as int]) is None);
                    return Err(e);
                },
            };
            let ghost before = states@;
            if !contains_path(working_files, &working_path) {
                states.push(FileState::Deleted(FileDeleted { history_path: history_files[j].clone() }));
                assert(forall|k: int| 0 <= k < before.len() ==> states@[k] == before[k]);
            }
            j = j + 1;
        }
        Ok(states)
    }
}

} // verus!
