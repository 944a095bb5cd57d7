//! Errors of decoding bencoded torrent files and tracker responses, and the
//! client's general error.
use vstd::prelude::*;

verus! {

/// Decoding a bencoded document failed.
#[derive(Debug)]
pub struct BeeDecoderErr {
    error_string: String,
}

impl BeeDecoderErr {
    pub fn new(error_string: String) -> (r: Self)
        ensures
            r.message() == error_string@,
    {
        BeeDecoderErr { error_string }
    }

    pub closed spec fn message(&self) -> Seq<char> {
        self.error_string@
    }

    /// The description of the error.
    pub fn error_string(&self) -> (r: &String)
        ensures
            r@ == self.message(),
    {
        &self.error_string
    }
}

/// An error of the client, with its description.
#[derive(Debug)]
pub struct FissureErr {
    error_string: String,
}

impl FissureErr {
    pub fn new(error_string: String) -> (r: Self)
        ensures
            r.message() == error_string@,
    {
        FissureErr { error_string }
    }

    pub closed spec fn message(&self) -> Seq<char> {
        self.error_string@
    }

    /// The description of the error.
    pub fn error_string(&self) -> (r: &String)
        ensures
            r@ == self.message(),
    {
        &self.error_string
    }
}

} // verus!
