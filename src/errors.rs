use vstd::prelude::*;

verus! {

/// The two kinds of failure of the store.
#[derive(Debug, Clone, Copy, PartialEq, Eq, Structural)]
pub enum DatabaseError {
    /// `remove` of a key that the store does not hold.
    KeyNotFound,
    /// Any failure of the file underneath, or a record that does not decode.
    SystemError,
}

/// serde_json's error type, carried only to be mapped to `SystemError`.
#[verifier::external_type_specification]
#[verifier::external_body]
pub struct ExJsonError(serde_json::Error);

impl From<serde_json::Error> for DatabaseError {
    fn from(err: serde_json::Error) -> (r: DatabaseError)
        ensures
            r == DatabaseError::SystemError,
    {
        DatabaseError::SystemError
    }
}

impl vstd::std_specs::convert::FromSpecImpl<serde_json::Error> for DatabaseError {
    open spec fn obeys_from_spec() -> bool {
        true
    }

    open spec fn from_spec(v: serde_json::Error) -> DatabaseError {
        DatabaseError::SystemError
    }
}

impl DatabaseError {
    /// The message shown to a user for this error.
    pub fn message(&self) -> (r: &'static str)
        ensures
            *self == DatabaseError::KeyNotFound ==> r@ == "Key not found"@,
            *self == DatabaseError::SystemError ==> r@ == "System error"@,
    {
        match self {
            DatabaseError::KeyNotFound => "Key not found",
            DatabaseError::SystemError => "System error",
        }
    }
}

} // verus!
