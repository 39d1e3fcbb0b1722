use vstd::prelude::*;

verus! {

/// Failures met while reading a ziplist buffer.
#[derive(Debug)]
pub enum ZLError {
    /// The list as a whole is malformed.
    Invalid(String),
    /// One entry is malformed.
    InvalidEntry(String),
    /// An entry's type byte is not one of the known encodings.
    InvalidEntryEncoding,
    /// An offset lies outside the buffer.
    OutOfRange(usize),
    /// The buffer ends in the middle of an entry.
    Zlend,
    /// Any other failure.
    Unknown(String),
}

pub type ZLResult<T> = Result<T, ZLError>;

impl ZLError {
    /// A short description of the failure.
    pub fn message(&self) -> (r: String)
        ensures
            match self {
                ZLError::Invalid(s) => r@ == s@,
                ZLError::InvalidEntry(s) => r@ == s@,
                ZLError::InvalidEntryEncoding => r@ == "invalid entry encoding"@,
                ZLError::OutOfRange(_) => r@ == "offset out of range"@,
                ZLError::Zlend => r@ == "unexpected end of buffer"@,
                ZLError::Unknown(s) => r@ == s@,
            },
    {
        match self {
            ZLError::Invalid(s) => s.clone(),
            ZLError::InvalidEntry(s) => s.clone(),
            ZLError::InvalidEntryEncoding => "invalid entry encoding".to_owned(),
            ZLError::OutOfRange(_) => "offset out of range".to_owned(),
            ZLError::Zlend => "unexpected end of buffer".to_owned(),
            ZLError::Unknown(s) => s.clone(),
        }
    }
}

} // verus!
