//! The error values the launcher surfaces to its caller.

use vstd::prelude::*;
use vstd::string::StringExecFns;

verus! {

pub enum FuzzydError {
    /// An I/O failure, with its message.
    IOError(String),
    /// A command could not be launched, with the reason.
    LaunchError(String),
    /// The user interrupted the operation.
    UserInterrupt,
}

impl FuzzydError {
    /// A human-readable description of the error.
    pub fn message(&self) -> (r: String)
        ensures
            match self {
                FuzzydError::IOError(m) => r@ == "IO error: "@ + m@,
                FuzzydError::LaunchError(m) => r@ == "Failed to launch command: "@ + m@,
                FuzzydError::UserInterrupt => r@ == "User interrupted the operation"@,
            },
    {
        match self {
            FuzzydError::IOError(m) => String::from_str("IO error: ").concat(m.as_str()),
            FuzzydError::LaunchError(m) => String::from_str("Failed to launch command: ").concat(
                m.as_str(),
            ),
            FuzzydError::UserInterrupt => String::from_str("User interrupted the operation"),
        }
    }
}

} // verus!
