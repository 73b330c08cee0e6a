//! URL query-string decoding for announce requests.
//!
//! A query is `&`-separated `key=value` segments; keys and values are
//! percent-decoded (`%XY` is the byte 0xXY, `+` is a space). The decoded
//! pairs are then checked and assembled into a validated `TrackerRequest`.
use crate::error::TrackerError;
use crate::ids::InfoHash;
use crate::ids::PeerId;
use vstd::prelude::*;
use vstd::string::StringSliceAdditionalSpecFns;

verus! {

/// `b` is an ASCII hex digit.
pub open spec fn is_hex_digit(b: u8) -> bool {
    (48 <= b <= 57) || (65 <= b <= 70) || (97 <= b <= 102)
}

/// The value of an ASCII hex digit.
pub open spec fn hex_val(b: u8) -> nat {
    if 48 <= b <= 57 {
        (b - 48) as nat
    } else if 65 <= b <= 70 {
        (b - 55) as nat
    } else {
        (b - 87) as nat
    }
}

/// Percent-decoding of `s`: `%XY` is the byte 0xXY, `+` is a space, anything
/// else stands for itself; a `%` not followed by two hex digits is an error.
pub open spec fn spec_pct_decode(s: Seq<u8>) -> Option<Seq<u8>>
    decreases s.len(),
{
    if s.len() == 0 {
        Some(Seq::empty())
    } else if s[0] == 37 {
        if s.len() >= 3 && is_hex_digit(s[1]) && is_hex_digit(s[2]) {
            match spec_pct_decode(s.skip(3)) {
                Some(t) => Some(seq![(hex_val(s[1]) * 16 + hex_val(s[2])) as u8] + t),
                None => None,
            }
        } else {
            None
        }
    } else if s[0] == 43 {
        match spec_pct_decode(s.skip(1)) {
            Some(t) => Some(seq![32u8] + t),
            None => None,
        }
    } else {
        match spec_pct_decode(s.skip(1)) {
            Some(t) => Some(seq![s[0]] + t),
            None => None,
        }
    }
}

/// The value of the hex digit `b`, or `None` if `b` is not one.
fn hex_digit_val(b: u8) -> (r: Option<u8>)
    ensures
        match r {
            Some(v) => is_hex_digit(b) && v as nat == hex_val(b),
            None => !is_hex_digit(b),
        },
{
    if 48 <= b && b <= 57 {
        Some(b - 48)
    } else if 65 <= b && b <= 70 {
        Some(b - 55)
    } else if 97 <= b && b <= 102 {
        Some(b - 87)
    } else {
        None
    }
}

/// Percent-decodes `s`.
pub fn pct_decode(s: &[u8]) -> (r: Option<Vec<u8>>)
    ensures
        match r {
            Some(v) => spec_pct_decode(s@) == Some(v@),
            None => spec_pct_decode(s@) == None::<Seq<u8>>,
        },
{
    let mut out: Vec<u8> = Vec::new();
    let mut i: usize = 0;
    assert(s@.skip(0) =~= s@);
    while i < s.len()
        invariant
            i <= s@.len(),
            spec_pct_decode(s@) == (match spec_pct_decode(s@.skip(i as int)) {
                Some(t) => Some(out@ + t),
                None => None::<Seq<u8>>,
            }),
        decreases s@.len() - i,
    {
        let ghost suf = s@.skip(i as int);
        assert(suf[0] == s@[i as int]);
        if s[i] == 37 {
            if s.len() - i >= 3 {
                let h1 = hex_digit_val(s[i + 1]);
                let h2 = hex_digit_val(s[i + 2]);
                match (h1, h2) {
                    (Some(v1), Some(v2)) => {
                        assert(suf.len() >= 3 && suf[1] == s@[i + 1] && suf[2] == s@[i + 2]);
                        let b = v1 * 16 + v2;
                        let ghost prev = out@;
                        out.push(b);
                        proof {
                            assert(suf.skip(3) =~= s@.skip(i + 3));
                            if spec_pct_decode(suf.skip(3)) is Some {
                                let t = spec_pct_decode(suf.skip(3))->Some_0;
                                assert(out@ + t =~= prev + (seq![b] + t));
                            }
                        }
                        i = i + 3;
                    },
                    _ => {
                        assert(spec_pct_decode(suf) == None::<Seq<u8>>);
                        return None;
                    },
                }
            } else {
                assert(spec_pct_decode(suf) == None::<Seq<u8>>);
                return None;
            }
        } else {
            let b = if s[i] == 43 {
                32
            } else {
                s[i]
            };
            let ghost prev = out@;
            out.push(b);
            proof {
                assert(suf.skip(1) =~= s@.skip(i + 1));
                if spec_pct_decode(suf.skip(1)) is Some {
                    let t = spec_pct_decode(suf.skip(1))->Some_0;
                    assert(out@ + t =~= prev + (seq![b] + t));
                }
            }
            i = i + 1;
        }
    }
    assert(s@.skip(i as int) =~= Seq::<u8>::empty());
    assert(out@ + Seq::<u8>::empty() =~= out@);
    Some(out)
}

/// `i` is the position of the first occurrence of `b` in `s`.
pub open spec fn is_first_byte(s: Seq<u8>, b: u8, i: int) -> bool {
    &&& 0 <= i < s.len()
    &&& s[i] == b
    &&& forall|j: int| 0 <= j < i ==> s[j] != b
}

/// The first occurrence is unique.
pub proof fn lemma_first_byte_unique(s: Seq<u8>, b: u8, i: int, j: int)
    requires
        is_first_byte(s, b, i),
        is_first_byte(s, b, j),
    ensures
        i == j,
{
}

/// The `&`-separated segments of a query; a query with no `&` is one segment.
pub open spec fn spec_segments(s: Seq<u8>) -> Seq<Seq<u8>>
    decreases s.len(),
{
    if exists|i: int| is_first_byte(s, 38, i) {
        let i = choose|i: int| is_first_byte(s, 38, i);
        seq![s.take(i)] + spec_segments(s.skip(i + 1))
    } else {
        seq![s]
    }
}

/// A segment split at its first `=` into key and value; a segment without
/// `=` is a key with an empty value.
pub open spec fn spec_segment_kv(seg: Seq<u8>) -> (Seq<u8>, Seq<u8>) {
    if exists|i: int| is_first_byte(seg, 61, i) {
        let i = choose|i: int| is_first_byte(seg, 61, i);
        (seg.take(i), seg.skip(i + 1))
    } else {
        (seg, Seq::empty())
    }
}

/// A segment's key and value, both percent-decoded.
pub open spec fn spec_decode_pair(seg: Seq<u8>) -> Option<(Seq<u8>, Seq<u8>)> {
    match (spec_pct_decode(spec_segment_kv(seg).0), spec_pct_decode(spec_segment_kv(seg).1)) {
        (Some(dk), Some(dv)) => Some((dk, dv)),
        _ => None,
    }
}

/// All segments decoded in order; `None` as soon as one fails.
pub open spec fn spec_decode_segments(segs: Seq<Seq<u8>>) -> Option<Seq<(Seq<u8>, Seq<u8>)>>
    decreases segs.len(),
{
    if segs.len() == 0 {
        Some(Seq::empty())
    } else {
        match (spec_decode_pair(segs[0]), spec_decode_segments(segs.skip(1))) {
            (Some(p), Some(t)) => Some(seq![p] + t),
            _ => None,
        }
    }
}

/// The decoded key/value pairs of the whole query `q`.
pub open spec fn spec_pairs(q: Seq<u8>) -> Option<Seq<(Seq<u8>, Seq<u8>)>> {
    spec_decode_segments(spec_segments(q))
}

/// The pairs a parsed `Vec` holds, as plain sequences.
pub open spec fn pair_views(v: Seq<(Vec<u8>, Vec<u8>)>) -> Seq<(Seq<u8>, Seq<u8>)> {
    v.map_values(|p: (Vec<u8>, Vec<u8>)| (p.0@, p.1@))
}

/// How many pairs carry the key `k`.
pub open spec fn key_count(ps: Seq<(Seq<u8>, Seq<u8>)>, k: Seq<u8>) -> nat
    decreases ps.len(),
{
    if ps.len() == 0 {
        0
    } else {
        key_count(ps.drop_last(), k) + if ps.last().0 == k {
            1nat
        } else {
            0nat
        }
    }
}

/// The value of the first pair whose key is `k` (empty when there is none).
pub open spec fn spec_key_value(ps: Seq<(Seq<u8>, Seq<u8>)>, k: Seq<u8>) -> Seq<u8>
    decreases ps.len(),
{
    if ps.len() == 0 {
        Seq::empty()
    } else if ps[0].0 == k {
        ps[0].1
    } else {
        spec_key_value(ps.skip(1), k)
    }
}

/// The value under `k` is the one at the first matching position.
pub proof fn lemma_key_value_at(ps: Seq<(Seq<u8>, Seq<u8>)>, k: Seq<u8>, i: int)
    requires
        0 <= i < ps.len(),
        ps[i].0 == k,
        forall|j: int| 0 <= j < i ==> ps[j].0 != k,
    ensures
        spec_key_value(ps, k) == ps[i].1,
    decreases i,
{
    if i > 0 {
        assert(ps[0].0 != k);
        assert forall|j: int| 0 <= j < i - 1 implies ps.skip(1)[j].0 != k by {
            assert(ps.skip(1)[j] == ps[j + 1]);
        }
        assert(ps.skip(1)[i - 1] == ps[i]);
        lemma_key_value_at(ps.skip(1), k, i - 1);
    }
}

/// Finds the key `key` among the decoded pairs: how often it occurs, and the
/// value of its unique occurrence when there is exactly one.
fn lookup<'a>(pairs: &'a Vec<(Vec<u8>, Vec<u8>)>, key: &str) -> (r: (usize, Option<&'a Vec<u8>>))
    ensures
        r.0 == key_count(pair_views(pairs@), key.spec_bytes()),
        r.0 >= 1 <==> r.1 is Some,
        r.0 >= 1 ==> (match r.1 {
            Some(v) => v@ == spec_key_value(pair_views(pairs@), key.spec_bytes()),
            None => false,
        }),
{
    let ghost k = key.spec_bytes();
    let kb = key.as_bytes();
    let mut count: usize = 0;
    let mut found: Option<&'a Vec<u8>> = None;
    let ghost mut fidx: int = 0;
    let mut i: usize = 0;
    assert(pair_views(pairs@.take(0)) =~= Seq::<(Seq<u8>, Seq<u8>)>::empty());
    while i < pairs.len()
        invariant
            i <= pairs@.len(),
            count <= i,
            count == key_count(pair_views(pairs@.take(i as int)), k),
            kb@ == k,
            count >= 1 <==> found is Some,
            found is None ==> forall|j: int| 0 <= j < i ==> pair_views(pairs@)[j].0 != k,
            match found {
                Some(v) => 0 <= fidx < i && pair_views(pairs@)[fidx].0 == k && v@ == pair_views(
                    pairs@,
                )[fidx].1 && (forall|j: int| 0 <= j < fidx ==> pair_views(pairs@)[j].0 != k),
                None => true,
            },
        decreases pairs@.len() - i,
    {
        let ghost prefix = pair_views(pairs@.take(i as int));
        let ghost prefix1 = pair_views(pairs@.take(i + 1));
        proof {
            assert(prefix1.drop_last() =~= prefix);
            assert(prefix1.last() == (pairs@[i as int].0@, pairs@[i as int].1@));
        }
        if crate::bencode::bytes_eq(pairs[i].0.as_slice(), kb) {
            if count == 0 {
                found = Some(&pairs[i].1);
                proof {
                    fidx = i as int;
                }
            }
            count = count + 1;
        }
        i = i + 1;
    }
    proof {
        assert(pairs@.take(pairs@.len() as int) =~= pairs@);
        if count >= 1 {
            lemma_key_value_at(pair_views(pairs@), k, fidx);
        }
    }
    (count, found)
}

/// `b` is an ASCII decimal digit.
pub open spec fn is_digit(b: u8) -> bool {
    48 <= b <= 57
}

/// Every byte of `s` is a decimal digit.
pub open spec fn all_digits(s: Seq<u8>) -> bool {
    forall|i: int| 0 <= i < s.len() ==> is_digit(#[trigger] s[i])
}

/// The numeric value of a digit string (most significant digit first).
pub open spec fn dec_value(s: Seq<u8>) -> nat
    decreases s.len(),
{
    if s.len() == 0 {
        0
    } else {
        dec_value(s.drop_last()) * 10 + (s.last() - 48) as nat
    }
}

/// The value of a digit string dominates the value of any of its prefixes.
pub proof fn lemma_dec_value_prefix(s: Seq<u8>, i: int)
    requires
        0 <= i <= s.len(),
    ensures
        dec_value(s.take(i)) <= dec_value(s),
    decreases s.len(),
{
    if i < s.len() {
        assert(s.take(i) =~= s.drop_last().take(i));
        lemma_dec_value_prefix(s.drop_last(), i);
        assert(dec_value(s.drop_last()) * 10 >= dec_value(s.drop_last()));
    } else {
        assert(s.take(i) =~= s);
    }
}

/// A nonempty, all-digit string of value at most `max` parses to its value;
/// anything else does not parse.
pub open spec fn spec_parse_int(s: Seq<u8>, max: nat) -> Option<nat> {
    if s.len() > 0 && all_digits(s) && dec_value(s) <= max {
        Some(dec_value(s))
    } else {
        None
    }
}

/// Parses a decimal integer bounded by `max`.
fn parse_int(s: &[u8], max: u32) -> (r: Option<u32>)
    ensures
        match r {
            Some(v) => spec_parse_int(s@, max as nat) == Some(v as nat),
            None => spec_parse_int(s@, max as nat) == None::<nat>,
        },
{
    if s.len() == 0 {
        return None;
    }
    let mut acc: u64 = 0;
    let mut i: usize = 0;
    assert(s@.take(0) =~= Seq::<u8>::empty());
    while i < s.len()
        invariant
            i <= s@.len(),
            s@.len() > 0,
            acc == dec_value(s@.take(i as int)),
            acc <= max as u64,
            forall|j: int| 0 <= j < i ==> is_digit(#[trigger] s@[j]),
        decreases s@.len() - i,
    {
        let b = s[i];
        if !(48 <= b && b <= 57) {
            assert(!all_digits(s@));
            return None;
        }
        let d = (b - 48) as u64;
        let next = acc * 10 + d;
        proof {
            assert(s@.take(i + 1).drop_last() =~= s@.take(i as int));
            assert(s@.take(i + 1).last() == s@[i as int]);
        }
        if next > max as u64 {
            proof {
                lemma_dec_value_prefix(s@, i + 1);
            }
            return None;
        }
        acc = next;
        i = i + 1;
    }
    assert(s@.take(s@.len() as int) =~= s@);
    Some(acc as u32)
}

/// Finds the first occurrence of `b` in `s` at or after `start`.
fn find_byte_from(s: &[u8], start: usize, b: u8) -> (r: Option<usize>)
    requires
        start <= s@.len(),
    ensures
        match r {
            Some(i) => start <= i < s@.len() && is_first_byte(s@.skip(start as int), b, i - start),
            None => !(exists|k: int| is_first_byte(s@.skip(start as int), b, k)),
        },
{
    let mut i: usize = start;
    while i < s.len()
        invariant
            start <= i <= s@.len(),
            forall|j: int| start <= j < i ==> s@[j] != b,
        decreases s@.len() - i,
    {
        if s[i] == b {
            proof {
                let suf = s@.skip(start as int);
                assert(suf[i - start] == s@[i as int]);
                assert forall|j: int| 0 <= j < i - start implies suf[j] != b by {
                    assert(suf[j] == s@[start + j]);
                }
            }
            return Some(i);
        }
        i = i + 1;
    }
    proof {
        let suf = s@.skip(start as int);
        assert forall|k: int| !is_first_byte(suf, b, k) by {
            if 0 <= k < suf.len() {
                assert(suf[k] == s@[start + k]);
            }
        }
    }
    None
}

/// Splits one segment at its first `=` and percent-decodes both halves.
fn decode_segment(seg: &[u8]) -> (r: Option<(Vec<u8>, Vec<u8>)>)
    ensures
        match r {
            Some(p) => spec_decode_pair(seg@) == Some((p.0@, p.1@)),
            None => spec_decode_pair(seg@) == None::<(Seq<u8>, Seq<u8>)>,
        },
{
    proof {
        assert(seg@.skip(0) =~= seg@);
    }
    let (kb, vb): (&[u8], &[u8]) = match find_byte_from(seg, 0, 61) {
        Some(i) => {
            proof {
                let w = choose|k: int| is_first_byte(seg@, 61, k);
                lemma_first_byte_unique(seg@, 61, w, i as int);
            }
            let n = seg.len();
            let kb = vstd::slice::slice_subrange(seg, 0, i);
            let vb = vstd::slice::slice_subrange(seg, i + 1, n);
            proof {
                assert(kb@ =~= spec_segment_kv(seg@).0);
                assert(vb@ =~= spec_segment_kv(seg@).1);
            }
            (kb, vb)
        },
        None => {
            let kb = seg;
            let vb = vstd::slice::slice_subrange(seg, seg.len(), seg.len());
            proof {
                assert(kb@ =~= spec_segment_kv(seg@).0);
                assert(vb@ =~= spec_segment_kv(seg@).1);
            }
            (kb, vb)
        },
    };
    let dk = pct_decode(kb);
    let dv = pct_decode(vb);
    match (dk, dv) {
        (Some(k), Some(v)) => Some((k, v)),
        _ => None,
    }
}

/// Decodes a whole query string into its key/value pairs; `None` iff the
/// query is not well-formed percent-encoding.
pub fn parse_query_pairs(q: &[u8]) -> (r: Option<Vec<(Vec<u8>, Vec<u8>)>>)
    ensures
        match r {
            Some(ps) => spec_pairs(q@) == Some(pair_views(ps@)),
            None => spec_pairs(q@) == None::<Seq<(Seq<u8>, Seq<u8>)>>,
        },
{
    let mut acc: Vec<(Vec<u8>, Vec<u8>)> = Vec::new();
    let mut start: usize = 0;
    let qlen = q.len();
    assert(q@.skip(0) =~= q@);
    assert(pair_views(acc@) =~= Seq::<(Seq<u8>, Seq<u8>)>::empty());
    loop
        invariant
            start <= q@.len(),
            q@.len() == qlen,
            spec_pairs(q@) == (match spec_decode_segments(spec_segments(q@.skip(start as int))) {
                Some(t) => Some(pair_views(acc@) + t),
                None => None::<Seq<(Seq<u8>, Seq<u8>)>>,
            }),
        decreases q@.len() - start,
    {
        let ghost suf = q@.skip(start as int);
        match find_byte_from(q, start, 38) {
            Some(a) => {
                proof {
                    let w = choose|k: int| is_first_byte(suf, 38, k);
                    lemma_first_byte_unique(suf, 38, w, a - start);
                    assert(spec_segments(suf) == seq![suf.take(a - start)] + spec_segments(
                        suf.skip(a - start + 1),
                    ));
                    assert((seq![suf.take(a - start)] + spec_segments(suf.skip(a - start + 1)))[0]
                        == suf.take(a - start));
                    assert((seq![suf.take(a - start)] + spec_segments(suf.skip(a - start + 1))).skip(
                        1,
                    ) =~= spec_segments(suf.skip(a - start + 1)));
                    assert(suf.skip(a - start + 1) =~= q@.skip(a + 1));
                }
                let seg = vstd::slice::slice_subrange(q, start, a);
                proof {
                    assert(seg@ =~= suf.take(a - start));
                }
                match decode_segment(seg) {
                    Some(p) => {
                        let ghost prev = acc@;
                        let ghost pv = (p.0@, p.1@);
                        acc.push(p);
                        proof {
                            assert(pair_views(acc@) =~= pair_views(prev) + seq![pv]);
                            if spec_decode_segments(spec_segments(q@.skip(a + 1))) is Some {
                                let t = spec_decode_segments(
                                    spec_segments(q@.skip(a + 1)),
                                )->Some_0;
                                assert((pair_views(prev) + seq![pv]) + t =~= pair_views(prev) + (
                                seq![pv] + t));
                            }
                        }
                        start = a + 1;
                    },
                    None => {
                        return None;
                    },
                }
            },
            None => {
                proof {
                    assert(spec_segments(suf) == seq![suf]);
                    assert(seq![suf][0] == suf);
                    assert(seq![suf].skip(1) =~= Seq::<Seq<u8>>::empty());
                    assert(spec_decode_segments(Seq::<Seq<u8>>::empty()) == Some(
                        Seq::<(Seq<u8>, Seq<u8>)>::empty(),
                    ));
                }
                let seg = vstd::slice::slice_subrange(q, start, q.len());
                proof {
                    assert(seg@ =~= suf);
                }
                match decode_segment(seg) {
                    Some(p) => {
                        let ghost prev = acc@;
                        let ghost pv = (p.0@, p.1@);
                        acc.push(p);
                        proof {
                            assert(pair_views(acc@) =~= pair_views(prev) + seq![pv]);
                            assert(seq![pv] + Seq::<(Seq<u8>, Seq<u8>)>::empty() =~= seq![pv]);
                        }
                        return Some(acc);
                    },
                    None => {
                        return None;
                    },
                }
            },
        }
    }
}

/// The client-declared lifecycle event of an announce. Absence means a
/// regular re-announce with no transition.
#[derive(Clone, Copy, Debug, PartialEq, Eq, Structural)]
pub enum ClientEvent {
    /// The first request of a download must carry `started`.
    Started,
    /// Sent when the client shuts down gracefully.
    Stopped,
    /// Sent once when the download completes.
    Completed,
}

/// ASCII lowercasing of one byte.
pub open spec fn ascii_lower(b: u8) -> u8 {
    if 65 <= b <= 90 {
        (b + 32) as u8
    } else {
        b
    }
}

/// ASCII lowercasing of a byte string.
pub open spec fn spec_lower(s: Seq<u8>) -> Seq<u8> {
    s.map_values(|b: u8| ascii_lower(b))
}

/// Event names are matched case-insensitively.
pub open spec fn spec_parse_event(v: Seq<u8>) -> Option<ClientEvent> {
    if spec_lower(v) == ("started").spec_bytes() {
        Some(ClientEvent::Started)
    } else if spec_lower(v) == ("stopped").spec_bytes() {
        Some(ClientEvent::Stopped)
    } else if spec_lower(v) == ("completed").spec_bytes() {
        Some(ClientEvent::Completed)
    } else {
        None
    }
}

/// ASCII-lowercases `s`.
fn to_lower(s: &[u8]) -> (r: Vec<u8>)
    ensures
        r@ == spec_lower(s@),
{
    let mut out: Vec<u8> = Vec::new();
    let mut i: usize = 0;
    assert(out@ =~= spec_lower(s@.take(0)));
    while i < s.len()
        invariant
            i <= s@.len(),
            out@ == spec_lower(s@.take(i as int)),
        decreases s@.len() - i,
    {
        let b = s[i];
        if 65 <= b && b <= 90 {
            out.push(b + 32);
        } else {
            out.push(b);
        }
        i = i + 1;
        assert(out@ =~= spec_lower(s@.take(i as int)));
    }
    assert(s@.take(s@.len() as int) =~= s@);
    out
}

/// Parses an event value, case-insensitively.
fn parse_event(v: &[u8]) -> (r: Option<ClientEvent>)
    ensures
        r == spec_parse_event(v@),
{
    let l = to_lower(v);
    if crate::bencode::bytes_eq(l.as_slice(), "started".as_bytes()) {
        Some(ClientEvent::Started)
    } else if crate::bencode::bytes_eq(l.as_slice(), "stopped".as_bytes()) {
        Some(ClientEvent::Stopped)
    } else if crate::bencode::bytes_eq(l.as_slice(), "completed".as_bytes()) {
        Some(ClientEvent::Completed)
    } else {
        None
    }
}

/// The mathematical value of a validated announce request.
pub struct ReqView {
    pub info_hash: Seq<u8>,
    pub peer_id: Seq<u8>,
    pub ip: Option<Seq<u8>>,
    pub port: u16,
    pub uploaded: u32,
    pub downloaded: u32,
    pub left: u32,
    pub event: Option<ClientEvent>,
    pub numwant: Option<u32>,
}

/// A validated announce request: the decoded field set of one announce call.
/// Constructed once per request and never mutated after normalization.
#[derive(Debug)]
pub struct TrackerRequest {
    /// 20-byte torrent identifier, percent-decoded.
    pub info_hash: InfoHash,
    /// 20-byte client identifier, percent-decoded.
    pub peer_id: PeerId,
    /// The address the client claims to listen on; dotted quad or DNS name.
    /// When absent the session handler resolves a placeholder.
    pub ip: Option<Vec<u8>>,
    /// The port the client listens on.
    pub port: u16,
    /// Bytes uploaded since `started`.
    pub uploaded: u32,
    /// Bytes downloaded since `started`.
    pub downloaded: u32,
    /// Bytes the client still has to download.
    pub left: u32,
    /// The lifecycle event, if this announce carries one.
    pub event: Option<ClientEvent>,
    /// How many peers the client asks for; normalization clamps it.
    pub numwant: Option<u32>,
}

impl View for TrackerRequest {
    type V = ReqView;

    open spec fn view(&self) -> ReqView {
        ReqView {
            info_hash: self.info_hash@,
            peer_id: self.peer_id@,
            ip: match self.ip {
                Some(v) => Some(v@),
                None => None,
            },
            port: self.port,
            uploaded: self.uploaded,
            downloaded: self.downloaded,
            left: self.left,
            event: self.event,
            numwant: self.numwant,
        }
    }
}

/// Validation of the decoded pairs, in a fixed field order. Every branch is
/// an exact condition: a required field missing or repeated, an identifier
/// that is not 20 bytes, a number out of range, an unknown event.
pub open spec fn spec_build_request(ps: Seq<(Seq<u8>, Seq<u8>)>) -> Result<ReqView, Seq<char>> {
    if key_count(ps, ("info_hash").spec_bytes()) == 0 {
        Err(("Invalid request: missing field 'info_hash'.")@)
    } else if key_count(ps, ("info_hash").spec_bytes()) > 1 {
        Err(("Invalid request: duplicate field 'info_hash'.")@)
    } else if spec_key_value(ps, ("info_hash").spec_bytes()).len() != 20 {
        Err(("Invalid infohash: infohash is not 20 bytes long.")@)
    } else if key_count(ps, ("peer_id").spec_bytes()) == 0 {
        Err(("Invalid request: missing field 'peer_id'.")@)
    } else if key_count(ps, ("peer_id").spec_bytes()) > 1 {
        Err(("Invalid request: duplicate field 'peer_id'.")@)
    } else if spec_key_value(ps, ("peer_id").spec_bytes()).len() != 20 {
        Err(("Invalid peerid: peerid is not 20 bytes long.")@)
    } else if key_count(ps, ("ip").spec_bytes()) > 1 {
        Err(("Invalid request: duplicate field 'ip'.")@)
    } else if key_count(ps, ("port").spec_bytes()) == 0 {
        Err(("Invalid request: missing field 'port'.")@)
    } else if key_count(ps, ("port").spec_bytes()) > 1 {
        Err(("Invalid request: duplicate field 'port'.")@)
    } else if spec_parse_int(spec_key_value(ps, ("port").spec_bytes()), 65535) is None {
        Err(("Invalid request: field 'port' is not a valid number.")@)
    } else if key_count(ps, ("uploaded").spec_bytes()) == 0 {
        Err(("Invalid request: missing field 'uploaded'.")@)
    } else if key_count(ps, ("uploaded").spec_bytes()) > 1 {
        Err(("Invalid request: duplicate field 'uploaded'.")@)
    } else if spec_parse_int(spec_key_value(ps, ("uploaded").spec_bytes()), u32::MAX as nat)
        is None {
        Err(("Invalid request: field 'uploaded' is not a valid number.")@)
    } else if key_count(ps, ("downloaded").spec_bytes()) == 0 {
        Err(("Invalid request: missing field 'downloaded'.")@)
    } else if key_count(ps, ("downloaded").spec_bytes()) > 1 {
        Err(("Invalid request: duplicate field 'downloaded'.")@)
    } else if spec_parse_int(spec_key_value(ps, ("downloaded").spec_bytes()), u32::MAX as nat)
        is None {
        Err(("Invalid request: field 'downloaded' is not a valid number.")@)
    } else if key_count(ps, ("left").spec_bytes()) == 0 {
        Err(("Invalid request: missing field 'left'.")@)
    } else if key_count(ps, ("left").spec_bytes()) > 1 {
        Err(("Invalid request: duplicate field 'left'.")@)
    } else if spec_parse_int(spec_key_value(ps, ("left").spec_bytes()), u32::MAX as nat) is None {
        Err(("Invalid request: field 'left' is not a valid number.")@)
    } else if key_count(ps, ("event").spec_bytes()) > 1 {
        Err(("Invalid request: duplicate field 'event'.")@)
    } else if key_count(ps, ("event").spec_bytes()) == 1 && spec_parse_event(
        spec_key_value(ps, ("event").spec_bytes()),
    ) is None {
        Err(("Invalid request: unknown event.")@)
    } else if key_count(ps, ("numwant").spec_bytes()) > 1 {
        Err(("Invalid request: duplicate field 'numwant'.")@)
    } else if key_count(ps, ("numwant").spec_bytes()) == 1 && spec_parse_int(
        spec_key_value(ps, ("numwant").spec_bytes()),
        u32::MAX as nat,
    ) is None {
        Err(("Invalid request: field 'numwant' is not a valid number.")@)
    } else {
        Ok(
            ReqView {
                info_hash: spec_key_value(ps, ("info_hash").spec_bytes()),
                peer_id: spec_key_value(ps, ("peer_id").spec_bytes()),
                ip: if key_count(ps, ("ip").spec_bytes()) == 1 {
                    Some(spec_key_value(ps, ("ip").spec_bytes()))
                } else {
                    None
                },
                port: spec_parse_int(
                    spec_key_value(ps, ("port").spec_bytes()),
                    65535,
                )->Some_0 as u16,
                uploaded: spec_parse_int(
                    spec_key_value(ps, ("uploaded").spec_bytes()),
                    u32::MAX as nat,
                )->Some_0 as u32,
                downloaded: spec_parse_int(
                    spec_key_value(ps, ("downloaded").spec_bytes()),
                    u32::MAX as nat,
                )->Some_0 as u32,
                left: spec_parse_int(
                    spec_key_value(ps, ("left").spec_bytes()),
                    u32::MAX as nat,
                )->Some_0 as u32,
                event: if key_count(ps, ("event").spec_bytes()) == 1 {
                    spec_parse_event(spec_key_value(ps, ("event").spec_bytes()))
                } else {
                    None
                },
                numwant: if key_count(ps, ("numwant").spec_bytes()) == 1 {
                    Some(
                        spec_parse_int(
                            spec_key_value(ps, ("numwant").spec_bytes()),
                            u32::MAX as nat,
                        )->Some_0 as u32,
                    )
                } else {
                    None
                },
            },
        )
    }
}

/// What decoding and validating a whole query string yields: the validated
/// request, or the exact failure message sent back to the client.
pub open spec fn spec_parse_request(q: Seq<u8>) -> Result<ReqView, Seq<char>> {
    match spec_pairs(q) {
        None => Err(("Invalid request: malformed query string.")@),
        Some(ps) => spec_build_request(ps),
    }
}

/// Extracts a required 20-byte identifier field.
fn take_id_field(
    pairs: &Vec<(Vec<u8>, Vec<u8>)>,
    key: &str,
    missing: &str,
    duplicate: &str,
    badlen: &str,
) -> (r: Result<Vec<u8>, TrackerError>)
    ensures
        match r {
            Ok(v) => key_count(pair_views(pairs@), key.spec_bytes()) == 1 && v@ == spec_key_value(
                pair_views(pairs@),
                key.spec_bytes(),
            ) && v@.len() == 20,
            Err(e) => {
                let c = key_count(pair_views(pairs@), key.spec_bytes());
                if c == 0 {
                    e@ == missing@
                } else if c > 1 {
                    e@ == duplicate@
                } else {
                    spec_key_value(pair_views(pairs@), key.spec_bytes()).len() != 20 && e@
                        == badlen@
                }
            },
        },
{
    let (count, v) = lookup(pairs, key);
    if count == 0 {
        Err(TrackerError::new(missing.to_owned()))
    } else if count > 1 {
        Err(TrackerError::new(duplicate.to_owned()))
    } else {
        let v = v.unwrap();
        if v.len() != 20 {
            Err(TrackerError::new(badlen.to_owned()))
        } else {
            Ok(vstd::slice::slice_to_vec(v.as_slice()))
        }
    }
}

/// Extracts a required bounded-integer field.
fn take_int_field(pairs: &Vec<(Vec<u8>, Vec<u8>)>, key: &str, max: u32, missing: &str, duplicate: &str, badnum: &str) -> (r:
    Result<u32, TrackerError>)
    ensures
        match r {
            Ok(v) => key_count(pair_views(pairs@), key.spec_bytes()) == 1 && spec_parse_int(
                spec_key_value(pair_views(pairs@), key.spec_bytes()),
                max as nat,
            ) == Some(v as nat),
            Err(e) => {
                let c = key_count(pair_views(pairs@), key.spec_bytes());
                if c == 0 {
                    e@ == missing@
                } else if c > 1 {
                    e@ == duplicate@
                } else {
                    spec_parse_int(spec_key_value(pair_views(pairs@), key.spec_bytes()), max as nat)
                        is None && e@ == badnum@
                }
            },
        },
{
    let (count, v) = lookup(pairs, key);
    if count == 0 {
        Err(TrackerError::new(missing.to_owned()))
    } else if count > 1 {
        Err(TrackerError::new(duplicate.to_owned()))
    } else {
        match parse_int(v.unwrap().as_slice(), max) {
            Some(n) => Ok(n),
            None => Err(TrackerError::new(badnum.to_owned())),
        }
    }
}

impl TrackerRequest {
    /// Decodes and validates a whole announce query string.
    pub fn from_query_string(qs: &str) -> (r: Result<TrackerRequest, TrackerError>)
        ensures
            match r {
                Ok(req) => spec_parse_request(qs.spec_bytes()) == Ok::<ReqView, Seq<char>>(req@),
                Err(e) => spec_parse_request(qs.spec_bytes()) == Err::<ReqView, Seq<char>>(e@),
            },
    {
        match parse_query_pairs(qs.as_bytes()) {
            None => Err(TrackerError::new("Invalid request: malformed query string.".to_owned())),
            Some(pairs) => Self::from_pairs(&pairs),
        }
    }

    /// Validates decoded pairs into a request, mirroring
    /// `spec_build_request` branch for branch.
    pub fn from_pairs(pairs: &Vec<(Vec<u8>, Vec<u8>)>) -> (r: Result<TrackerRequest, TrackerError>)
        ensures
            match r {
                Ok(req) => spec_build_request(pair_views(pairs@)) == Ok::<ReqView, Seq<char>>(
                    req@,
                ),
                Err(e) => spec_build_request(pair_views(pairs@)) == Err::<ReqView, Seq<char>>(e@),
            },
    {
        let info_hash = match take_id_field(
            pairs,
            "info_hash",
            "Invalid request: missing field 'info_hash'.",
            "Invalid request: duplicate field 'info_hash'.",
            "Invalid infohash: infohash is not 20 bytes long.",
        ) {
            Ok(v) => InfoHash::new(v),
            Err(e) => {
                return Err(e);
            },
        };
        let peer_id = match take_id_field(
            pairs,
            "peer_id",
            "Invalid request: missing field 'peer_id'.",
            "Invalid request: duplicate field 'peer_id'.",
            "Invalid peerid: peerid is not 20 bytes long.",
        ) {
            Ok(v) => PeerId::new(v),
            Err(e) => {
                return Err(e);
            },
        };
        let (ip_count, ip_v) = lookup(pairs, "ip");
        if ip_count > 1 {
            return Err(TrackerError::new("Invalid request: duplicate field 'ip'.".to_owned()));
        }
        let ip: Option<Vec<u8>> = match ip_v {
            Some(v) => Some(vstd::slice::slice_to_vec(v.as_slice())),
            None => None,
        };
        let port = match take_int_field(
            pairs,
            "port",
            65535,
            "Invalid request: missing field 'port'.",
            "Invalid request: duplicate field 'port'.",
            "Invalid request: field 'port' is not a valid number.",
        ) {
            Ok(n) => n as u16,
            Err(e) => {
                return Err(e);
            },
        };
        let uploaded = match take_int_field(
            pairs,
            "uploaded",
            u32::MAX,
            "Invalid request: missing field 'uploaded'.",
            "Invalid request: duplicate field 'uploaded'.",
            "Invalid request: field 'uploaded' is not a valid number.",
        ) {
            Ok(n) => n,
            Err(e) => {
                return Err(e);
            },
        };
        let downloaded = match take_int_field(
            pairs,
            "downloaded",
            u32::MAX,
            "Invalid request: missing field 'downloaded'.",
            "Invalid request: duplicate field 'downloaded'.",
            "Invalid request: field 'downloaded' is not a valid number.",
        ) {
            Ok(n) => n,
            Err(e) => {
                return Err(e);
            },
        };
        let left = match take_int_field(
            pairs,
            "left",
            u32::MAX,
            "Invalid request: missing field 'left'.",
            "Invalid request: duplicate field 'left'.",
            "Invalid request: field 'left' is not a valid number.",
        ) {
            Ok(n) => n,
            Err(e) => {
                return Err(e);
            },
        };
        let (event_count, event_v) = lookup(pairs, "event");
        if event_count > 1 {
            return Err(TrackerError::new("Invalid request: duplicate field 'event'.".to_owned()));
        }
        let event: Option<ClientEvent> = match event_v {
            Some(v) => match parse_event(v.as_slice()) {
                Some(ev) => Some(ev),
                None => {
                    return Err(TrackerError::new("Invalid request: unknown event.".to_owned()));
                },
            },
            None => None,
        };
        let (numwant_count, numwant_v) = lookup(pairs, "numwant");
        if numwant_count > 1 {
            return Err(
                TrackerError::new("Invalid request: duplicate field 'numwant'.".to_owned()),
            );
        }
        let numwant: Option<u32> = match numwant_v {
            Some(v) => match parse_int(v.as_slice(), u32::MAX) {
                Some(n) => Some(n),
                None => {
                    return Err(
                        TrackerError::new(
                            "Invalid request: field 'numwant' is not a valid number.".to_owned(),
                        ),
                    );
                },
            },
            None => None,
        };
        Ok(TrackerRequest { info_hash, peer_id, ip, port, uploaded, downloaded, left, event, numwant })
    }

    /// Applies the numwant policy: absent defaults to the configured
    /// maximum, present is clamped to it.
    pub fn normalize_request(&mut self, max: u32)
        ensures
            final(self)@ == spec_normalize(old(self)@, max),
    {
        let n = match self.numwant {
            Some(n) => if n < max {
                n
            } else {
                max
            },
            None => max,
        };
        self.numwant = Some(n);
    }
}

/// The normalized numwant: the client's value clamped to the configured
/// maximum, or that maximum when the client sent none.
pub open spec fn spec_clamp_numwant(numwant: Option<u32>, max: u32) -> u32 {
    match numwant {
        Some(n) => if n < max {
            n
        } else {
            max
        },
        None => max,
    }
}

/// Normalization only fills in `numwant`; every other field is untouched.
pub open spec fn spec_normalize(r: ReqView, max: u32) -> ReqView {
    ReqView { numwant: Some(spec_clamp_numwant(r.numwant, max)), ..r }
}

} // verus!
