//! Errors and the byte-conversion traits of the store.
use vstd::prelude::*;

verus! {

/// Turns a caller's value into the bytes the store keeps.
pub trait Encode {
    fn encode(&self) -> Vec<u8>;
}

/// Turns stored bytes back into a caller's value.
pub trait Decode: Sized {
    fn decode(bytes: &[u8]) -> Result<Self, DBError>;
}

impl Encode for Vec<u8> {
    fn encode(&self) -> Vec<u8> {
        self.clone()
    }
}

impl Encode for String {
    fn encode(&self) -> Vec<u8> {
        vstd::slice::slice_to_vec(self.as_str().as_bytes())
    }
}

impl Decode for Vec<u8> {
    fn decode(bytes: &[u8]) -> Result<Self, DBError> {
        Ok(vstd::slice::slice_to_vec(bytes))
    }
}

/// The context of the error given for an empty key.
pub const ERR_CONFIG_EMPTY_KEY: &'static str = "empty key";

/// Everything that can go wrong in the store.
#[derive(Debug, Clone, PartialEq, Eq)]
pub enum DBError {
    /// An operating-system failure, with the operation that failed and the file.
    Io { op: &'static str, path: String, detail: String },
    /// The log holds bytes that are not a valid record.
    Corruption { what: &'static str, path: String, offset: u64 },
    /// A failure of the log that fits no other kind.
    WAL { what: &'static str },
    /// Malformed input from the caller, such as an empty key.
    Codec { context: String },
    InvalidConfig { what: &'static str },
}

/// The error for an empty key.
pub fn empty_key_error() -> (e: DBError)
    ensures
        e is Codec,
{
    DBError::Codec { context: ERR_CONFIG_EMPTY_KEY.to_owned() }
}

} // verus!
