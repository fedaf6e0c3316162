use vstd::prelude::*;

verus! {

/// Every failure that an operation on the catalog reports.
#[derive(Debug, Clone, Copy, PartialEq, Eq, Structural)]
pub enum Errors {
    /// A project of that name is already in the catalog.
    ProjectNameTaken,
    /// The project's directory exists on disk although the name is free.
    DirAlreadyExists,
    /// Another failure of the file system.
    IOError,
    /// The requested feature does not exist yet.
    NotImplemented,
    /// The catalog store refused the operation.
    DatabaseError,
    /// No project of that name could be read from the catalog.
    CouldNotGetProject,
    /// A project to remove is not in the catalog.
    ProjectDoesNotExist,
    /// The catalog store failed to delete a project.
    FailedToRemoveProject,
}

impl Errors {
    /// The error for a failed file-system call: a path that already exists is
    /// a directory conflict, anything else a generic I/O failure.
    pub fn from_io_kind(already_exists: bool) -> (r: Errors)
        ensures
            already_exists ==> r == Errors::DirAlreadyExists,
            !already_exists ==> r == Errors::IOError,
    {
        if already_exists {
            Errors::DirAlreadyExists
        } else {
            Errors::IOError
        }
    }
}

} // verus!
