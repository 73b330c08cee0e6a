//! Bencode wire encoding (BEP 0003).
//!
//! The tracker speaks bencode on the wire: byte strings are length-prefixed
//! (`20:<20 raw bytes>`), integers are `i<decimal>e`, and the fixed-length
//! identifiers (info-hash, peer-id) must be encoded as raw byte strings —
//! never as a list of integers, which would not interoperate.
use vstd::prelude::*;
use vstd::string::StringSliceAdditionalSpecFns;

verus! {

/// Number of bytes in an info-hash or a peer-id.
pub const ID_LEN: usize = 20;

/// The ASCII digit for a value below ten.
pub open spec fn digit_byte(n: nat) -> u8 {
    (48 + n) as u8
}

/// The ASCII decimal rendering of `n`, most significant digit first,
/// with no leading zeros (`0` renders as `"0"`).
pub open spec fn spec_decimal(n: nat) -> Seq<u8>
    decreases n,
{
    if n < 10 {
        seq![digit_byte(n)]
    } else {
        spec_decimal(n / 10).push(digit_byte(n % 10))
    }
}

/// Bencode encoding of a byte string: decimal length, ':', the raw bytes.
pub open spec fn spec_byte_string(b: Seq<u8>) -> Seq<u8> {
    spec_decimal(b.len()) + seq![58u8] + b
}

/// Bencode encoding of a nonnegative integer: 'i', decimal value, 'e'.
pub open spec fn spec_integer(n: nat) -> Seq<u8> {
    seq![105u8] + spec_decimal(n) + seq![101u8]
}

/// Every byte of a decimal rendering is an ASCII digit.
pub proof fn lemma_decimal_digits(n: nat)
    ensures
        forall|k: int| 0 <= k < spec_decimal(n).len() ==> 48 <= #[trigger] spec_decimal(n)[k] <= 57,
    decreases n,
{
    if n < 10 {
        assert(spec_decimal(n)[0] == digit_byte(n));
    } else {
        lemma_decimal_digits(n / 10);
        let prev = spec_decimal(n / 10);
        assert forall|k: int| 0 <= k < spec_decimal(n).len() implies 48 <= #[trigger] spec_decimal(
            n,
        )[k] <= 57 by {
            if k < prev.len() {
                assert(spec_decimal(n)[k] == prev[k]);
            } else {
                assert(spec_decimal(n)[k] == digit_byte(n % 10));
            }
        }
    }
}

/// Appends the decimal rendering of `n` to `out`.
pub fn push_decimal(out: &mut Vec<u8>, n: u64)
    ensures
        final(out)@ == old(out)@ + spec_decimal(n as nat),
    decreases n,
{
    if n < 10 {
        out.push(48 + n as u8);
        assert(final(out)@ =~= old(out)@ + spec_decimal(n as nat));
    } else {
        push_decimal(out, n / 10);
        out.push(48 + (n % 10) as u8);
        assert(final(out)@ =~= old(out)@ + spec_decimal(n as nat));
    }
}

/// Appends every byte of `b` to `out`.
pub fn push_bytes(out: &mut Vec<u8>, b: &[u8])
    ensures
        final(out)@ == old(out)@ + b@,
{
    let mut i: usize = 0;
    while i < b.len()
        invariant
            i <= b@.len(),
            out@ == old(out)@ + b@.take(i as int),
        decreases b@.len() - i,
    {
        out.push(b[i]);
        i = i + 1;
        assert(out@ =~= old(out)@ + b@.take(i as int));
    }
    assert(out@ =~= old(out)@ + b@);
}

/// Appends the UTF-8 bytes of `s` to `out`; used for the literal dictionary
/// keys of the wire format, which are written already in encoded form
/// (`"7:failure"` is the bencoding of the key `failure`).
pub fn push_str_bytes(out: &mut Vec<u8>, s: &str)
    ensures
        final(out)@ == old(out)@ + s.spec_bytes(),
{
    push_bytes(out, s.as_bytes());
}

/// Appends the bencode byte-string encoding of `b` to `out`.
pub fn push_byte_string(out: &mut Vec<u8>, b: &[u8])
    ensures
        final(out)@ == old(out)@ + spec_byte_string(b@),
{
    push_decimal(out, b.len() as u64);
    out.push(58);
    push_bytes(out, b);
    assert(final(out)@ =~= old(out)@ + spec_byte_string(b@));
}

/// Appends the bencode integer encoding of `n` to `out`.
pub fn push_integer(out: &mut Vec<u8>, n: u64)
    ensures
        final(out)@ == old(out)@ + spec_integer(n as nat),
{
    out.push(105);
    push_decimal(out, n);
    out.push(101);
    assert(final(out)@ =~= old(out)@ + spec_integer(n as nat));
}

/// Why decoding a fixed-length identifier failed.
#[derive(Debug, PartialEq, Eq, Structural)]
pub enum FixedDecodeError {
    /// The input is not a bencode byte string at all.
    Malformed,
    /// The input is a byte string, but its byte count is not `ID_LEN`;
    /// carries the observed length.
    InvalidLength(usize),
}

/// `i` is the position of the first ':' in `s`.
pub open spec fn is_first_colon(s: Seq<u8>, i: int) -> bool {
    &&& 0 <= i < s.len()
    &&& s[i] == 58u8
    &&& forall|j: int| 0 <= j < i ==> s[j] != 58u8
}

/// The first-colon position is unique.
pub proof fn lemma_first_colon_unique(s: Seq<u8>, i: int, j: int)
    requires
        is_first_colon(s, i),
        is_first_colon(s, j),
    ensures
        i == j,
{
}

/// Decoding a whole bencode byte string expected to hold exactly `ID_LEN`
/// raw bytes: succeeds iff the input is `spec_byte_string(b)` for a `b` of
/// `ID_LEN` bytes, and reports the observed byte count otherwise.
pub open spec fn spec_decode_fixed(s: Seq<u8>) -> Result<Seq<u8>, FixedDecodeError> {
    if exists|i: int| is_first_colon(s, i) {
        let i = choose|i: int| is_first_colon(s, i);
        let payload = s.skip(i + 1);
        if s.take(i) == spec_decimal(payload.len()) {
            if payload.len() == ID_LEN {
                Ok(payload)
            } else {
                Err(FixedDecodeError::InvalidLength(payload.len() as usize))
            }
        } else {
            Err(FixedDecodeError::Malformed)
        }
    } else {
        Err(FixedDecodeError::Malformed)
    }
}

/// Compares two byte slices for equality.
pub fn bytes_eq(a: &[u8], b: &[u8]) -> (r: bool)
    ensures
        r == (a@ == b@),
{
    if a.len() != b.len() {
        assert(a@ != b@);
        return false;
    }
    let mut i: usize = 0;
    while i < a.len()
        invariant
            i <= a@.len(),
            a@.len() == b@.len(),
            forall|j: int| 0 <= j < i ==> a@[j] == b@[j],
        decreases a@.len() - i,
    {
        if a[i] != b[i] {
            return false;
        }
        i = i + 1;
    }
    assert(a@ =~= b@);
    true
}

/// Finds the position of the first ':' in `s`, if any.
fn find_first_colon(s: &[u8]) -> (r: Option<usize>)
    ensures
        match r {
            Some(i) => is_first_colon(s@, i as int),
            None => forall|k: int| !is_first_colon(s@, k),
        },
{
    let mut i: usize = 0;
    while i < s.len()
        invariant
            i <= s@.len(),
            forall|j: int| 0 <= j < i ==> s@[j] != 58u8,
        decreases s@.len() - i,
    {
        if s[i] == 58 {
            return Some(i);
        }
        i = i + 1;
    }
    None
}

/// Decodes a bencode byte string that must hold exactly `ID_LEN` raw bytes.
pub fn decode_fixed(s: &[u8]) -> (r: Result<Vec<u8>, FixedDecodeError>)
    ensures
        match r {
            Ok(v) => spec_decode_fixed(s@) == Ok::<Seq<u8>, FixedDecodeError>(v@) && v@.len()
                == ID_LEN,
            Err(e) => spec_decode_fixed(s@) == Err::<Seq<u8>, FixedDecodeError>(e),
        },
{
    let i = match find_first_colon(s) {
        Some(i) => i,
        None => {
            return Err(FixedDecodeError::Malformed);
        },
    };
    proof {
        let w = choose|k: int| is_first_colon(s@, k);
        lemma_first_colon_unique(s@, w, i as int);
    }
    let payload_len = s.len() - i - 1;
    let mut expected: Vec<u8> = Vec::new();
    push_decimal(&mut expected, payload_len as u64);
    let digits = vstd::slice::slice_subrange(s, 0, i);
    if !bytes_eq(digits, expected.as_slice()) {
        return Err(FixedDecodeError::Malformed);
    }
    assert(s@.take(i as int) == spec_decimal(s@.skip(i + 1).len()));
    if payload_len != ID_LEN {
        return Err(FixedDecodeError::InvalidLength(payload_len));
    }
    let payload = vstd::slice::slice_subrange(s, i + 1, s.len());
    let v = vstd::slice::slice_to_vec(payload);
    assert(v@ =~= s@.skip(i + 1));
    Ok(v)
}

/// Encodes `ID_LEN` raw bytes as a bencode byte string.
pub fn encode_fixed(b: &[u8]) -> (r: Vec<u8>)
    requires
        b@.len() == ID_LEN,
    ensures
        r@ == spec_byte_string(b@),
{
    let mut out: Vec<u8> = Vec::new();
    push_byte_string(&mut out, b);
    assert(out@ =~= spec_byte_string(b@));
    out
}

/// Codec round trip: decoding the encoding of any 20-byte identifier gives
/// the identifier back exactly.
pub proof fn lemma_codec_round_trip(b: Seq<u8>)
    requires
        b.len() == ID_LEN,
    ensures
        spec_decode_fixed(spec_byte_string(b)) == Ok::<Seq<u8>, FixedDecodeError>(b),
{
    lemma_decode_byte_string(b);
}

/// Decoding the encoding of a byte string whose length is not 20 fails with
/// `InvalidLength` carrying that length.
pub proof fn lemma_decode_wrong_length(b: Seq<u8>)
    requires
        b.len() != ID_LEN,
    ensures
        spec_decode_fixed(spec_byte_string(b)) == Err::<Seq<u8>, FixedDecodeError>(
            FixedDecodeError::InvalidLength(b.len() as usize),
        ),
{
    lemma_decode_byte_string(b);
}

/// Decoding any encoded byte string recovers its declared-length check:
/// the payload comes back when it has 20 bytes, its length otherwise.
pub proof fn lemma_decode_byte_string(b: Seq<u8>)
    ensures
        spec_decode_fixed(spec_byte_string(b)) == if b.len() == ID_LEN {
            Ok::<Seq<u8>, FixedDecodeError>(b)
        } else {
            Err::<Seq<u8>, FixedDecodeError>(FixedDecodeError::InvalidLength(b.len() as usize))
        },
{
    let s = spec_byte_string(b);
    let d = spec_decimal(b.len());
    lemma_decimal_digits(b.len());
    assert(s[d.len() as int] == 58u8);
    assert(forall|j: int| 0 <= j < d.len() ==> s[j] == d[j] && s[j] != 58u8);
    assert(is_first_colon(s, d.len() as int));
    let i = choose|i: int| is_first_colon(s, i);
    lemma_first_colon_unique(s, i, d.len() as int);
    assert(s.skip(i + 1) =~= b);
    assert(s.take(i) =~= d);
}

} // verus!
