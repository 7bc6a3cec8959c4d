use vstd::prelude::*;
use vstd::string::StringExecFns;

verus! {

/// Failures of the data-acquisition step.
#[derive(Clone, Debug)]
pub enum ESIError {
    RequestError,
    IoError(String),
    InvalidData,
}

/// Failures of a whole run.
#[derive(Clone, Copy, Debug, PartialEq, Eq, Structural)]
pub enum EvetradeError {
    ESIError,
    IOError,
}

impl ESIError {
    /// A one-line description of the failure.
    pub fn describe(&self) -> (r: String)
        ensures
            r@ == match self {
                ESIError::RequestError => "Request error"@,
                ESIError::IoError(m) => "IO error: "@ + m@,
                ESIError::InvalidData => "Invalid data"@,
            },
    {
        match self {
            ESIError::RequestError => String::from_str("Request error"),
            ESIError::IoError(m) => {
                let mut r = String::from_str("IO error: ");
                r.append(m.as_str());
                r
            },
            ESIError::InvalidData => String::from_str("Invalid data"),
        }
    }
}

impl EvetradeError {
    /// A one-line description of the failure.
    pub fn describe(&self) -> (r: String)
        ensures
            r@ == match self {
                EvetradeError::ESIError => "Failed to perform API requests!"@,
                EvetradeError::IOError => "Failed to save routes!"@,
            },
    {
        match self {
            EvetradeError::ESIError => String::from_str("Failed to perform API requests!"),
            EvetradeError::IOError => String::from_str("Failed to save routes!"),
        }
    }
}

} // verus!
