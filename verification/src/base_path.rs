//! The directory under which the scoreboard keeps its files.
use vstd::prelude::*;

verus! {

/// The base directory: it can be set once; until then it reads as the working
/// directory of the process, which the caller passes in.
pub struct BasePath {
    path: Option<String>,
}

/// The base directory read from what was set (`set`) and the working directory
/// (`current_dir`): the one that was set, else the working directory.
pub open spec fn read_base(set: Option<Seq<char>>, current_dir: Seq<char>) -> Seq<char> {
    match set {
        Some(p) => p,
        None => current_dir,
    }
}

/// What is set after setting `path` when `set` was: `path` if nothing was set yet,
/// else what was set before.
pub open spec fn after_set(set: Option<Seq<char>>, path: Seq<char>) -> Option<Seq<char>> {
    match set {
        Some(p) => Some(p),
        None => Some(path),
    }
}

/// Law: after the first `set`, the base directory reads as what was set, whatever the
/// working directory is.
pub proof fn law_get_after_first_set(path: Seq<char>, current_dir: Seq<char>)
    ensures
        read_base(after_set(None, path), current_dir) == path,
{
}

/// Law: the base directory can be set once: a second `set` changes nothing.
pub proof fn law_set_only_once(set: Option<Seq<char>>, first: Seq<char>, second: Seq<char>)
    ensures
        after_set(after_set(set, first), second) == after_set(set, first),
{
}

impl BasePath {
    /// The directory that was set, if any.
    pub closed spec fn spec_path(&self) -> Option<Seq<char>> {
        match self.path {
            Some(p) => Some(p@),
            None => None,
        }
    }

    /// A base path that was not set yet.
    pub fn new() -> (r: BasePath)
        ensures
            r.spec_path() is None,
    {
        BasePath { path: None }
    }

    /// The base directory: the one that was set, else `current_dir`.  Reading it does
    /// not set it.
    pub fn get(&self, current_dir: String) -> (r: String)
        ensures
            r@ == read_base(self.spec_path(), current_dir@),
    {
        match &self.path {
            Some(p) => p.clone(),
            None => current_dir,
        }
    }

    /// Sets the base directory; only the first call succeeds, a later one gives its
    /// argument back as the error.
    pub fn set(&mut self, path: String) -> (r: Result<(), String>)
        ensures
            final(self).spec_path() == after_set(old(self).spec_path(), path@),
            old(self).spec_path() is None ==> r is Ok,
            old(self).spec_path() is Some ==> r == Err::<(), String>(path),
    {
        if self.path.is_some() {
            Err(path)
        } else {
            self.path = Some(path);
            Ok(())
        }
    }
}

} // verus!
