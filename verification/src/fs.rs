//! What a file system offers to the program that fills it.

use crate::disk::Error;
use crate::path::Path;
use vstd::prelude::*;

verus! {

/// A file system that directories and files can be put into.
pub trait FileSystem {
    /// What holds of every file system that was mounted.
    spec fn mounted(&self) -> bool;

    /// Stores `data` as the file `path`, in place of what the file held
    /// before where it exists.
    fn write_file(&mut self, path: Path<'_>, data: &[u8]) -> (r: Result<(), Error>)
        requires
            old(self).mounted(),
        ensures
            final(self).mounted(),
    ;

    /// The contents of the file `path`.
    fn read_file(&mut self, path: Path<'_>) -> (r: Result<Vec<u8>, Error>)
        requires
            old(self).mounted(),
        ensures
            final(self).mounted(),
    ;

    /// Removes the file or the directory `path`.
    fn delete(&mut self, path: Path<'_>) -> (r: Result<(), Error>)
        requires
            old(self).mounted(),
        ensures
            final(self).mounted(),
    ;

    /// Makes the directory `path` in its parent, which has to exist.
    fn make_dir(&mut self, path: Path<'_>) -> (r: Result<(), Error>)
        requires
            old(self).mounted(),
        ensures
            final(self).mounted(),
    ;
}

} // verus!
