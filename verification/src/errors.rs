use vstd::prelude::*;

verus! {

/// The classified failures that the store's operations report.
#[derive(Clone, Copy, Debug, PartialEq, Eq, Structural)]
pub enum Error {
    /// An empty or otherwise invalid profile name was supplied.
    ValidationError,
    /// A name is already taken, or the operation would break the active profile.
    ConflictError,
    /// No profile or backup with the given identifier is known.
    NotFoundError,
    /// Writing the live system file was denied.
    PermissionError,
    /// A filesystem read, write, create, delete or rename failed.
    IoError,
    /// The metadata record exists but is malformed.
    ParseError,
    /// No platform application-data root could be discovered.
    EnvironmentError,
}

impl Error {
    /// A short human-readable description of the failure class.
    pub fn message(&self) -> (r: &'static str)
        ensures
            (*self is ValidationError ==> r@ == "profile name cannot be empty"@),
            (*self is ConflictError ==> r@ == "the operation conflicts with an existing or active profile"@),
            (*self is NotFoundError ==> r@ == "no such profile or backup"@),
            (*self is PermissionError ==> r@ == "writing the live file was denied"@),
            (*self is IoError ==> r@ == "a filesystem operation failed"@),
            (*self is ParseError ==> r@ == "the metadata record is malformed"@),
            (*self is EnvironmentError ==> r@ == "no application-data directory was found"@),
    {
        match self {
            Error::ValidationError => "profile name cannot be empty",
            Error::ConflictError => "the operation conflicts with an existing or active profile",
            Error::NotFoundError => "no such profile or backup",
            Error::PermissionError => "writing the live file was denied",
            Error::IoError => "a filesystem operation failed",
            Error::ParseError => "the metadata record is malformed",
            Error::EnvironmentError => "no application-data directory was found",
        }
    }
}

} // verus!
