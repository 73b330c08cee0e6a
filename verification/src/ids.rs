//! The two fixed-length identifiers of the protocol: the info-hash naming a
//! torrent and the peer-id a client assigns itself. Both are opaque 20-byte
//! values used only as keys; the tracker never inspects or verifies them.
use crate::bencode;
use crate::bencode::FixedDecodeError;
use vstd::prelude::*;

verus! {

/// 20-byte identifier of a torrent (the SHA-1 digest of its `info`
/// dictionary, computed elsewhere; the tracker trusts the client's value).
#[derive(Debug)]
pub struct InfoHash(Vec<u8>);

/// 20-byte identifier a client self-assigns at startup. Not globally unique.
#[derive(Debug)]
pub struct PeerId(Vec<u8>);

impl View for InfoHash {
    type V = Seq<u8>;

    closed spec fn view(&self) -> Seq<u8> {
        self.0@
    }
}

impl View for PeerId {
    type V = Seq<u8>;

    closed spec fn view(&self) -> Seq<u8> {
        self.0@
    }
}

impl InfoHash {
    #[verifier::type_invariant]
    pub closed spec fn wf(self) -> bool {
        self.0@.len() == bencode::ID_LEN
    }

    pub fn new(bytes: Vec<u8>) -> (r: Self)
        requires
            bytes@.len() == bencode::ID_LEN,
        ensures
            r@ == bytes@,
    {
        InfoHash(bytes)
    }

    /// The raw bytes.
    pub fn as_bytes(&self) -> (r: &[u8])
        ensures
            r@ == self@,
    {
        self.0.as_slice()
    }

    /// The bencode wire form: a length-prefixed raw byte string.
    pub fn bencode(&self) -> (r: Vec<u8>)
        ensures
            r@ == bencode::spec_byte_string(self@),
    {
        proof {
            use_type_invariant(self);
        }
        bencode::encode_fixed(self.0.as_slice())
    }

    /// Decodes a bencode byte string that must hold exactly 20 bytes.
    pub fn decode_bencoded(s: &[u8]) -> (r: Result<Self, FixedDecodeError>)
        ensures
            match r {
                Ok(h) => bencode::spec_decode_fixed(s@) == Ok::<Seq<u8>, FixedDecodeError>(h@),
                Err(e) => bencode::spec_decode_fixed(s@) == Err::<Seq<u8>, FixedDecodeError>(e),
            },
    {
        match bencode::decode_fixed(s) {
            Ok(v) => Ok(InfoHash(v)),
            Err(e) => Err(e),
        }
    }
}

impl PeerId {
    #[verifier::type_invariant]
    pub closed spec fn wf(self) -> bool {
        self.0@.len() == bencode::ID_LEN
    }

    pub fn new(bytes: Vec<u8>) -> (r: Self)
        requires
            bytes@.len() == bencode::ID_LEN,
        ensures
            r@ == bytes@,
    {
        PeerId(bytes)
    }

    /// The raw bytes.
    pub fn as_bytes(&self) -> (r: &[u8])
        ensures
            r@ == self@,
    {
        self.0.as_slice()
    }

    /// The bencode wire form: a length-prefixed raw byte string.
    pub fn bencode(&self) -> (r: Vec<u8>)
        ensures
            r@ == bencode::spec_byte_string(self@),
    {
        proof {
            use_type_invariant(self);
        }
        bencode::encode_fixed(self.0.as_slice())
    }

    /// Decodes a bencode byte string that must hold exactly 20 bytes.
    pub fn decode_bencoded(s: &[u8]) -> (r: Result<Self, FixedDecodeError>)
        ensures
            match r {
                Ok(h) => bencode::spec_decode_fixed(s@) == Ok::<Seq<u8>, FixedDecodeError>(h@),
                Err(e) => bencode::spec_decode_fixed(s@) == Err::<Seq<u8>, FixedDecodeError>(e),
            },
    {
        match bencode::decode_fixed(s) {
            Ok(v) => Ok(PeerId(v)),
            Err(e) => Err(e),
        }
    }
}

impl Clone for InfoHash {
    fn clone(&self) -> (res: Self)
        ensures
            res@ == self@,
    {
        proof {
            use_type_invariant(self);
        }
        let b = self.0.clone();
        proof {
            assert(b@ =~= self.0@);
        }
        InfoHash(b)
    }
}

impl Clone for PeerId {
    fn clone(&self) -> (res: Self)
        ensures
            res@ == self@,
    {
        proof {
            use_type_invariant(self);
        }
        let b = self.0.clone();
        proof {
            assert(b@ =~= self.0@);
        }
        PeerId(b)
    }
}

impl PartialEq for InfoHash {
    fn eq(&self, other: &Self) -> (r: bool) {
        let r = self.0 == other.0;
        proof {
            if r {
                assert(self.0@ =~= other.0@);
            }
        }
        r
    }
}

impl vstd::std_specs::cmp::PartialEqSpecImpl for InfoHash {
    open spec fn obeys_eq_spec() -> bool {
        true
    }

    open spec fn eq_spec(&self, other: &Self) -> bool {
        self@ == other@
    }
}

impl PartialEq for PeerId {
    fn eq(&self, other: &Self) -> (r: bool) {
        let r = self.0 == other.0;
        proof {
            if r {
                assert(self.0@ =~= other.0@);
            }
        }
        r
    }
}

impl vstd::std_specs::cmp::PartialEqSpecImpl for PeerId {
    open spec fn obeys_eq_spec() -> bool {
        true
    }

    open spec fn eq_spec(&self, other: &Self) -> bool {
        self@ == other@
    }
}

} // verus!
