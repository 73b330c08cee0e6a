//! The failure half of a tracker result. Every recoverable condition —
//! malformed query, bad identifier length, unroutable request — is turned
//! into a `TrackerError` whose message is sent to the client as the
//! `failure` field of a bencoded dictionary; the tracker never panics
//! across its public boundary.
use crate::bencode;
use vstd::prelude::*;
use vstd::string::StringSliceAdditionalSpecFns;

verus! {

/// A protocol-level failure, carrying the human-readable message that the
/// wire response will hold under the `failure` key.
#[derive(Debug)]
pub struct TrackerError {
    failure: String,
}

impl View for TrackerError {
    type V = Seq<char>;

    closed spec fn view(&self) -> Seq<char> {
        self.failure@
    }
}

/// The bencode dictionary of a failure response: `{"failure": <message>}`.
pub open spec fn spec_error_bencode(msg: Seq<char>) -> Seq<u8> {
    seq![100u8] + ("7:failure").spec_bytes() + bencode::spec_byte_string(
        vstd::utf8::encode_utf8(msg),
    ) + seq![101u8]
}

impl TrackerError {
    pub fn new(msg: String) -> (r: Self)
        ensures
            r@ == msg@,
    {
        TrackerError { failure: msg }
    }

    /// The failure message.
    pub fn failure(&self) -> (r: &String)
        ensures
            r@ == self@,
    {
        &self.failure
    }

    /// The bencode wire form of this failure.
    pub fn bencode(&self) -> (r: Vec<u8>)
        ensures
            r@ == spec_error_bencode(self@),
    {
        let mut out: Vec<u8> = Vec::new();
        out.push(100);
        bencode::push_str_bytes(&mut out, "7:failure");
        bencode::push_byte_string(&mut out, self.failure.as_str().as_bytes());
        out.push(101);
        assert(out@ =~= spec_error_bencode(self@));
        out
    }
}

} // verus!
