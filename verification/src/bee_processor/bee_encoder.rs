//! Errors of encoding a torrent's `info` dictionary back to bencoding.
use vstd::prelude::*;

verus! {

/// Encoding to bencoding failed.
#[derive(Debug)]
pub struct BeeEncoderErr {
    error_string: String,
}

impl BeeEncoderErr {
    pub fn new(error_string: String) -> (r: Self)
        ensures
            r.message() == error_string@,
    {
        BeeEncoderErr { error_string }
    }

    pub closed spec fn message(&self) -> Seq<char> {
        self.error_string@
    }

    /// The description of the error.
    pub fn error_string(&self) -> (r: &String)
        ensures
            r@ == self.message(),
    {
        &self.error_string
    }
}

} // verus!
