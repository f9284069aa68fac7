//! Files as the checks see them: a path, and once read, its text. The
//! reading itself happens outside the library; the checks only ever look
//! at these plain values.

use vstd::prelude::*;

verus! {

/// A file that has been found: its path.
#[derive(Debug)]
pub struct File(pub String);

/// A file that has been read: its path and its text.
#[derive(Debug)]
pub struct LoadedFile(pub String, pub String);

impl File {
    /// The file's path.
    pub fn path(&self) -> (r: &String)
        ensures
            r@ == self.0@,
    {
        &self.0
    }
}

impl LoadedFile {
    /// The file's text.
    pub fn content(&self) -> (r: &String)
        ensures
            r@ == self.1@,
    {
        &self.1
    }

    /// The file's path.
    pub fn path(&self) -> (r: &String)
        ensures
            r@ == self.0@,
    {
        &self.0
    }
}

impl PartialEq for File {
    /// Two files are the same file exactly when their paths agree.
    fn eq(&self, other: &Self) -> (r: bool) {
        self.0.eq(&other.0)
    }
}

impl vstd::std_specs::cmp::PartialEqSpecImpl for File {
    open spec fn obeys_eq_spec() -> bool {
        true
    }

    open spec fn eq_spec(&self, other: &Self) -> bool {
        self.0@ == other.0@
    }
}

impl Eq for File {

}

impl PartialEq for LoadedFile {
    /// Two loaded files are the same file exactly when their paths agree.
    fn eq(&self, other: &Self) -> (r: bool) {
        self.0.eq(&other.0)
    }
}

impl vstd::std_specs::cmp::PartialEqSpecImpl for LoadedFile {
    open spec fn obeys_eq_spec() -> bool {
        true
    }

    open spec fn eq_spec(&self, other: &Self) -> bool {
        self.0@ == other.0@
    }
}

impl Eq for LoadedFile {

}

impl Clone for File {
    /// The copy carries the same path.
    fn clone(&self) -> (r: Self)
        ensures
            r.0@ == self.0@,
    {
        File(self.0.clone())
    }
}

} // verus!
