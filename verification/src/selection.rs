//! Peer selection: up to `numwant` peers chosen at random, without
//! replacement, from a swarm snapshot, never including the requester — a
//! client must not be handed itself in its own peer list. Output order
//! carries no meaning.
use crate::peer::Peer;
use crate::peer::PeerView;
use crate::peer::peer_views;
use crate::tracker::peers_distinct;
use rand::Rng;
use vstd::pervasive::VecAdditionalExecFns;
use vstd::prelude::*;

verus! {

/// The smaller of two counts.
pub open spec fn spec_min(a: nat, b: nat) -> nat {
    if a < b {
        a
    } else {
        b
    }
}

/// The snapshot with every entry equal to the requester dropped.
pub open spec fn excluding(s: Seq<PeerView>, q: PeerView) -> Seq<PeerView> {
    s.filter(|p: PeerView| p != q)
}

/// Dropping the requester keeps only members of `s` other than `q`, never
/// grows the sequence, and preserves freedom from duplicates.
proof fn lemma_excluding_props(s: Seq<PeerView>, q: PeerView)
    ensures
        forall|i: int|
            0 <= i < excluding(s, q).len() ==> s.contains(#[trigger] excluding(s, q)[i])
                && excluding(s, q)[i] != q,
        excluding(s, q).len() <= s.len(),
        peers_distinct(s) ==> peers_distinct(excluding(s, q)),
    decreases s.len(),
{
    reveal(Seq::filter);
    let out = excluding(s, q);
    if s.len() > 0 {
        lemma_excluding_props(s.drop_last(), q);
        let sub = excluding(s.drop_last(), q);
        assert forall|i: int|
            0 <= i < out.len() implies s.contains(#[trigger] out[i]) && out[i] != q by {
            if i < sub.len() {
                assert(out[i] == sub[i]);
                assert(s.drop_last().contains(sub[i]));
                let w = choose|w: int| 0 <= w < s.drop_last().len() && s.drop_last()[w] == sub[i];
                assert(s[w] == sub[i]);
            } else {
                assert(out[i] == s.last());
            }
        }
        if peers_distinct(s) {
            assert forall|a: int, b: int| 0 <= a < b < out.len() implies out[a] != out[b] by {
                if b < sub.len() {
                    assert(out[a] == sub[a] && out[b] == sub[b]);
                } else {
                    assert(out[b] == s.last());
                    assert(out[a] == sub[a]);
                    assert(s.drop_last().contains(sub[a]));
                    let w = choose|w: int|
                        0 <= w < s.drop_last().len() && s.drop_last()[w] == sub[a];
                    assert(s[w] == sub[a]);
                    assert(s[w] != s[s.len() - 1]);
                }
            }
        }
    }
}

/// Relies on rand: `thread_rng().gen_range(0..bound)` returns a value of the
/// range; it panics only on an empty range, which the precondition rules
/// out. Which value comes back is chance, so nothing more is stated.
#[verifier::external_body]
fn random_below(bound: usize) -> (r: usize)
    requires
        bound > 0,
    ensures
        r < bound,
{
    rand::thread_rng().gen_range(0..bound)
}

/// Chooses `min(k, n)` distinct positions below `n`, by a partial
/// Fisher-Yates shuffle of the position vector.
fn sample_indices(n: usize, k: usize) -> (r: Vec<usize>)
    ensures
        r@.len() == spec_min(k as nat, n as nat),
        forall|a: int| 0 <= a < r@.len() ==> #[trigger] r@[a] < n,
        forall|a: int, b: int| 0 <= a < b < r@.len() ==> r@[a] != r@[b],
{
    let mut idx: Vec<usize> = Vec::new();
    let mut i: usize = 0;
    while i < n
        invariant
            i <= n,
            idx@.len() == i,
            forall|a: int| 0 <= a < i ==> #[trigger] idx@[a] == a,
        decreases n - i,
    {
        idx.push(i);
        i = i + 1;
    }
    let count = if k < n {
        k
    } else {
        n
    };
    let mut t: usize = 0;
    while t < count
        invariant
            t <= count <= n,
            idx@.len() == n,
            forall|a: int| 0 <= a < n ==> #[trigger] idx@[a] < n,
            forall|a: int, b: int| 0 <= a < b < n ==> idx@[a] != idx@[b],
        decreases count - t,
    {
        let j = t + random_below(n - t);
        let vt = idx[t];
        let vj = idx[j];
        let ghost before = idx@;
        idx.set(t, vj);
        idx.set(j, vt);
        proof {
            assert forall|a: int, b: int| 0 <= a < b < n implies idx@[a] != idx@[b] by {
                assert(before[a] != before[b]);
            }
        }
        t = t + 1;
    }
    idx.truncate(count);
    idx
}

/// Chooses up to `numwant` peers uniformly at random without replacement
/// from `snapshot`, excluding any entry equal to `requester`. When fewer
/// than `numwant` candidates remain, all of them come back.
pub fn select_peers(snapshot: &Vec<Peer>, requester: &Peer, numwant: u32) -> (r: Vec<Peer>)
    ensures
        r@.len() == spec_min(
            numwant as nat,
            excluding(peer_views(snapshot@), requester@).len(),
        ),
        forall|a: int|
            0 <= a < r@.len() ==> peer_views(snapshot@).contains(#[trigger] peer_views(r@)[a])
                && peer_views(r@)[a] != requester@,
        peers_distinct(peer_views(snapshot@)) ==> peers_distinct(peer_views(r@)),
{
    let ghost sv = peer_views(snapshot@);
    let ghost q = requester@;
    let mut cands: Vec<Peer> = Vec::new();
    let mut i: usize = 0;
    assert(peer_views(cands@) =~= excluding(sv.take(0), q));
    while i < snapshot.len()
        invariant
            i <= snapshot@.len(),
            sv == peer_views(snapshot@),
            q == requester@,
            peer_views(cands@) == excluding(sv.take(i as int), q),
        decreases snapshot@.len() - i,
    {
        let ghost s2 = sv.take(i + 1);
        proof {
            reveal(Seq::filter);
            assert(s2.drop_last() =~= sv.take(i as int));
            assert(s2.last() == sv[i as int]);
        }
        if !(snapshot[i] == *requester) {
            let ghost prev = cands@;
            let c = snapshot[i].clone();
            let ghost cv = c@;
            cands.push(c);
            proof {
                assert(peer_views(cands@) =~= peer_views(prev).push(cv));
            }
        }
        i = i + 1;
    }
    proof {
        assert(sv.take(sv.len() as int) =~= sv);
    }
    let n = cands.len();
    let nw = numwant as usize;
    let picks = sample_indices(n, nw);
    let mut out: Vec<Peer> = Vec::new();
    let mut t: usize = 0;
    proof {
        lemma_excluding_props(sv, q);
    }
    while t < picks.len()
        invariant
            t <= picks@.len(),
            out@.len() == t,
            n == cands@.len(),
            peer_views(cands@) == excluding(sv, q),
            forall|a: int| 0 <= a < picks@.len() ==> #[trigger] picks@[a] < n,
            forall|a: int, b: int| 0 <= a < b < picks@.len() ==> picks@[a] != picks@[b],
            forall|a: int|
                0 <= a < t ==> #[trigger] peer_views(out@)[a] == peer_views(cands@)[picks@[a] as int],
        decreases picks@.len() - t,
    {
        let ii = picks[t];
        let c = cands[ii].clone();
        let ghost cv = c@;
        let ghost prevout = out@;
        out.push(c);
        proof {
            assert(peer_views(out@) =~= peer_views(prevout).push(cv));
            assert(cv == peer_views(cands@)[ii as int]);
        }
        t = t + 1;
    }
    proof {
        lemma_excluding_props(sv, q);
        assert forall|a: int|
            0 <= a < out@.len() implies sv.contains(#[trigger] peer_views(out@)[a]) && peer_views(
            out@,
        )[a] != q by {
            assert(peer_views(out@)[a] == excluding(sv, q)[picks@[a] as int]);
        }
        if peers_distinct(sv) {
            assert forall|a: int, b: int|
                0 <= a < b < out@.len() implies peer_views(out@)[a] != peer_views(out@)[b] by {
                assert(peer_views(out@)[a] == excluding(sv, q)[picks@[a] as int]);
                assert(peer_views(out@)[b] == excluding(sv, q)[picks@[b] as int]);
            }
        }
    }
    out
}

} // verus!
