//! The swarm registry: the in-memory mapping from info-hash to the set of
//! peers currently announced for that torrent, with a per-torrent completion
//! counter.
//!
//! The registry is a plain value with `&mut` operations; a running tracker
//! wraps the one instance in a coarse mutual-exclusion lock so that every
//! operation is atomic with respect to the others (no lost updates, no torn
//! snapshots). Swarms are created lazily on first announce and never
//! destroyed.
use crate::ids::InfoHash;
use crate::peer::Peer;
use crate::peer::PeerView;
use crate::peer::peer_views;
use vstd::prelude::*;

verus! {

/// Server configuration, handed in as plain values.
#[derive(Debug)]
pub struct Opt {
    /// Content root path; kept for the transport layer, unused by the core.
    pub root: String,
    /// Default and maximum number of peers in one response.
    pub peers: u32,
    /// Announce interval in seconds that clients are told to wait.
    pub interval: u32,
}

/// One torrent's swarm: the peers currently announced for it, and how many
/// `completed` events it has seen.
#[derive(Debug)]
pub struct Swarm {
    peers: Vec<Peer>,
    completed_count: u32,
}

/// The tracker: configuration plus the registry of swarms, keyed by
/// info-hash. Exactly one instance exists per running tracker process.
#[derive(Debug)]
pub struct Tracker {
    opt: Opt,
    torrents: Vec<(InfoHash, Swarm)>,
}

/// No two positions hold equal peers.
pub open spec fn peers_distinct(s: Seq<PeerView>) -> bool {
    forall|i: int, j: int| 0 <= i < j < s.len() ==> s[i] != s[j]
}

/// The swarm registered under `ih`, if any (first match; well-formedness
/// makes keys unique).
spec fn spec_swarm_of(ts: Seq<(InfoHash, Swarm)>, ih: Seq<u8>) -> Option<Swarm>
    decreases ts.len(),
{
    if ts.len() == 0 {
        None
    } else if ts[0].0@ == ih {
        Some(ts[0].1)
    } else {
        spec_swarm_of(ts.skip(1), ih)
    }
}

/// `None` means no entry carries the key.
proof fn lemma_swarm_of_none(ts: Seq<(InfoHash, Swarm)>, ih: Seq<u8>)
    ensures
        spec_swarm_of(ts, ih) is None <==> (forall|j: int| 0 <= j < ts.len() ==> ts[j].0@ != ih),
    decreases ts.len(),
{
    if ts.len() > 0 {
        lemma_swarm_of_none(ts.skip(1), ih);
        assert(forall|j: int| 0 <= j < ts.skip(1).len() ==> ts.skip(1)[j] == ts[j + 1]);
        if ts[0].0@ != ih && (forall|j: int|
            0 <= j < ts.skip(1).len() ==> ts.skip(1)[j].0@ != ih) {
            assert forall|j: int| 0 <= j < ts.len() implies ts[j].0@ != ih by {
                if j > 0 {
                    assert(ts.skip(1)[j - 1] == ts[j]);
                }
            }
        }
    }
}

/// The lookup yields the entry at the first matching position.
proof fn lemma_swarm_of_at(ts: Seq<(InfoHash, Swarm)>, ih: Seq<u8>, i: int)
    requires
        0 <= i < ts.len(),
        ts[i].0@ == ih,
        forall|j: int| 0 <= j < i ==> ts[j].0@ != ih,
    ensures
        spec_swarm_of(ts, ih) == Some(ts[i].1),
    decreases i,
{
    if i > 0 {
        assert(ts.skip(1)[i - 1] == ts[i]);
        assert forall|j: int| 0 <= j < i - 1 implies ts.skip(1)[j].0@ != ih by {
            assert(ts.skip(1)[j] == ts[j + 1]);
        }
        lemma_swarm_of_at(ts.skip(1), ih, i - 1);
    }
}

/// Replacing the entry at the first matching position changes that key's
/// swarm and no other key's.
proof fn lemma_swarm_of_update(ts: Seq<(InfoHash, Swarm)>, i: int, x: (InfoHash, Swarm))
    requires
        0 <= i < ts.len(),
        x.0@ == ts[i].0@,
        forall|j: int| 0 <= j < i ==> ts[j].0@ != ts[i].0@,
    ensures
        forall|h: Seq<u8>|
            h != x.0@ ==> spec_swarm_of(ts.update(i, x), h) == spec_swarm_of(ts, h),
        spec_swarm_of(ts.update(i, x), x.0@) == Some(x.1),
    decreases ts.len(),
{
    let ts2 = ts.update(i, x);
    if i == 0 {
        assert(ts2[0] == x);
        assert(ts2.skip(1) =~= ts.skip(1));
        assert forall|h: Seq<u8>|
            h != x.0@ implies spec_swarm_of(ts2, h) == spec_swarm_of(ts, h) by {
            assert(spec_swarm_of(ts2, h) == spec_swarm_of(ts2.skip(1), h));
            assert(spec_swarm_of(ts, h) == spec_swarm_of(ts.skip(1), h));
        }
        assert(spec_swarm_of(ts2, x.0@) == Some(x.1));
    } else {
        assert(ts2[0] == ts[0]);
        assert(ts2.skip(1) =~= ts.skip(1).update(i - 1, x));
        assert(ts.skip(1)[i - 1] == ts[i]);
        assert forall|j: int| 0 <= j < i - 1 implies #[trigger] ts.skip(1)[j].0@ != ts.skip(
            1,
        )[i - 1].0@ by {
            assert(ts.skip(1)[j] == ts[j + 1]);
        }
        lemma_swarm_of_update(ts.skip(1), i - 1, x);
        assert forall|h: Seq<u8>|
            h != x.0@ implies spec_swarm_of(ts2, h) == spec_swarm_of(ts, h) by {
            if ts[0].0@ != h {
                assert(spec_swarm_of(ts2, h) == spec_swarm_of(ts2.skip(1), h));
                assert(spec_swarm_of(ts, h) == spec_swarm_of(ts.skip(1), h));
            }
        }
        assert(ts[0].0@ != x.0@);
        assert(spec_swarm_of(ts2, x.0@) == spec_swarm_of(ts2.skip(1), x.0@));
        assert(spec_swarm_of(ts2, x.0@) == Some(x.1));
    }
}

/// Appending an entry with a fresh key changes that key's swarm and no
/// other key's.
proof fn lemma_swarm_of_push(ts: Seq<(InfoHash, Swarm)>, x: (InfoHash, Swarm))
    requires
        forall|j: int| 0 <= j < ts.len() ==> ts[j].0@ != x.0@,
    ensures
        forall|h: Seq<u8>| h != x.0@ ==> spec_swarm_of(ts.push(x), h) == spec_swarm_of(ts, h),
        spec_swarm_of(ts.push(x), x.0@) == Some(x.1),
    decreases ts.len(),
{
    let ts2 = ts.push(x);
    if ts.len() == 0 {
        assert(ts2[0] == x);
        assert(ts2.skip(1) =~= Seq::<(InfoHash, Swarm)>::empty());
        assert forall|h: Seq<u8>|
            h != x.0@ implies spec_swarm_of(ts2, h) == spec_swarm_of(ts, h) by {
            assert(spec_swarm_of(ts2, h) == spec_swarm_of(ts2.skip(1), h));
            assert(spec_swarm_of(ts2.skip(1), h) is None);
            assert(spec_swarm_of(ts, h) is None);
        }
        assert(spec_swarm_of(ts2, x.0@) == Some(x.1));
    } else {
        assert(ts2[0] == ts[0]);
        assert(ts2.skip(1) =~= ts.skip(1).push(x));
        assert forall|j: int| 0 <= j < ts.skip(1).len() implies #[trigger] ts.skip(1)[j].0@
            != x.0@ by {
            assert(ts.skip(1)[j] == ts[j + 1]);
        }
        lemma_swarm_of_push(ts.skip(1), x);
        assert forall|h: Seq<u8>|
            h != x.0@ implies spec_swarm_of(ts2, h) == spec_swarm_of(ts, h) by {
            if ts[0].0@ != h {
                assert(spec_swarm_of(ts2, h) == spec_swarm_of(ts2.skip(1), h));
                assert(spec_swarm_of(ts, h) == spec_swarm_of(ts.skip(1), h));
            }
        }
        assert(ts[0].0@ != x.0@);
        assert(spec_swarm_of(ts2, x.0@) == spec_swarm_of(ts2.skip(1), x.0@));
        assert(spec_swarm_of(ts2, x.0@) == Some(x.1));
    }
}

impl Swarm {
    /// The peers as plain values.
    spec fn views(self) -> Seq<PeerView> {
        peer_views(self.peers@)
    }
}

/// What `upsert_peer` does: the named swarm gains the peer under set
/// semantics (a present peer is left alone), its counter and every other
/// swarm are untouched.
pub open spec fn upsert_effect(pre: Tracker, post: Tracker, ih: Seq<u8>, p: PeerView) -> bool {
    &&& post.wf()
    &&& post.opt() == pre.opt()
    &&& post.has_swarm(ih)
    &&& post.swarm_peers(ih) == (if pre.swarm_peers(ih).contains(p) {
        pre.swarm_peers(ih)
    } else {
        pre.swarm_peers(ih).push(p)
    })
    &&& post.completed(ih) == pre.completed(ih)
    &&& forall|h: Seq<u8>|
        h != ih ==> post.swarm_peers(h) == pre.swarm_peers(h) && post.completed(h)
            == pre.completed(h) && (post.has_swarm(h) <==> pre.has_swarm(h))
}

/// What `remove_peer` does: the peer leaves the named swarm (absence is not
/// an error), everything else is untouched.
pub open spec fn remove_effect(pre: Tracker, post: Tracker, ih: Seq<u8>, p: PeerView) -> bool {
    &&& post.wf()
    &&& post.opt() == pre.opt()
    &&& (post.has_swarm(ih) <==> pre.has_swarm(ih))
    &&& (forall|q: PeerView|
        post.swarm_peers(ih).contains(q) <==> pre.swarm_peers(ih).contains(q) && q != p)
    &&& post.swarm_peers(ih).len() == pre.swarm_peers(ih).len() - (if pre.swarm_peers(
        ih,
    ).contains(p) {
        1int
    } else {
        0int
    })
    &&& post.completed(ih) == pre.completed(ih)
    &&& forall|h: Seq<u8>|
        h != ih ==> post.swarm_peers(h) == pre.swarm_peers(h) && post.completed(h)
            == pre.completed(h) && (post.has_swarm(h) <==> pre.has_swarm(h))
}

/// A counter bumped by one, stopping at the top of `u32`.
pub open spec fn saturating_inc(c: u32) -> u32 {
    if c < u32::MAX {
        (c + 1) as u32
    } else {
        c
    }
}

/// What `record_completion` does: the named swarm's counter goes up by one
/// (when the swarm exists); no peer set changes.
pub open spec fn completion_effect(pre: Tracker, post: Tracker, ih: Seq<u8>) -> bool {
    &&& post.wf()
    &&& post.opt() == pre.opt()
    &&& (pre.has_swarm(ih) ==> post.completed(ih) == saturating_inc(pre.completed(ih)))
    &&& (!pre.has_swarm(ih) ==> post.completed(ih) == 0)
    &&& forall|h: Seq<u8>|
        post.swarm_peers(h) == pre.swarm_peers(h) && (post.has_swarm(h) <==> pre.has_swarm(h))
            && (h != ih ==> post.completed(h) == pre.completed(h))
}

impl Tracker {
    /// Well-formed: keys are unique and each swarm holds no duplicate peer.
    pub closed spec fn wf(self) -> bool {
        &&& forall|i: int, j: int|
            0 <= i < j < self.torrents@.len() ==> self.torrents@[i].0@ != self.torrents@[j].0@
        &&& forall|i: int|
            0 <= i < self.torrents@.len() ==> peers_distinct(#[trigger] self.torrents@[i].1.views())
    }

    /// The configuration this tracker was started with.
    pub closed spec fn opt(self) -> Opt {
        self.opt
    }

    /// Whether a swarm has been created for `ih`.
    pub closed spec fn has_swarm(self, ih: Seq<u8>) -> bool {
        spec_swarm_of(self.torrents@, ih) is Some
    }

    /// The peers of the swarm under `ih` (empty when absent).
    pub closed spec fn swarm_peers(self, ih: Seq<u8>) -> Seq<PeerView> {
        match spec_swarm_of(self.torrents@, ih) {
            Some(s) => s.views(),
            None => Seq::empty(),
        }
    }

    /// The completion counter of the swarm under `ih` (zero when absent).
    pub closed spec fn completed(self, ih: Seq<u8>) -> u32 {
        match spec_swarm_of(self.torrents@, ih) {
            Some(s) => s.completed_count,
            None => 0,
        }
    }

    /// The configuration, for the session handler.
    pub fn config(&self) -> (r: &Opt)
        ensures
            *r == self.opt(),
    {
        &self.opt
    }

    /// A fresh tracker serving no torrent.
    pub fn new(opt: Opt) -> (r: Self)
        ensures
            r.wf(),
            r.opt() == opt,
            forall|h: Seq<u8>| !r.has_swarm(h),
            forall|h: Seq<u8>| r.swarm_peers(h) == Seq::<PeerView>::empty(),
            forall|h: Seq<u8>| r.completed(h) == 0,
    {
        let t = Tracker { opt, torrents: Vec::new() };
        t
    }

    /// Index of the entry for `ih`, if one exists.
    fn find_torrent(&self, ih: &InfoHash) -> (r: Option<usize>)
        ensures
            match r {
                Some(i) => {
                    &&& i < self.torrents@.len()
                    &&& self.torrents@[i as int].0@ == ih@
                    &&& forall|j: int| 0 <= j < i ==> self.torrents@[j].0@ != ih@
                    &&& spec_swarm_of(self.torrents@, ih@) == Some(self.torrents@[i as int].1)
                },
                None => {
                    &&& spec_swarm_of(self.torrents@, ih@) is None
                    &&& forall|j: int| 0 <= j < self.torrents@.len() ==> self.torrents@[j].0@ != ih@
                },
            },
    {
        let mut i: usize = 0;
        while i < self.torrents.len()
            invariant
                i <= self.torrents@.len(),
                forall|j: int| 0 <= j < i ==> self.torrents@[j].0@ != ih@,
            decreases self.torrents@.len() - i,
        {
            if self.torrents[i].0 == *ih {
                proof {
                    lemma_swarm_of_at(self.torrents@, ih@, i as int);
                }
                return Some(i);
            }
            i = i + 1;
        }
        proof {
            lemma_swarm_of_none(self.torrents@, ih@);
        }
        None
    }

    /// Inserts `peer` into the swarm for `ih`, creating the swarm if absent.
    /// Re-announcing an identical peer value is a no-op, not a duplicate.
    pub fn upsert_peer(&mut self, ih: &InfoHash, peer: Peer)
        requires
            old(self).wf(),
        ensures
            upsert_effect(*old(self), *final(self), ih@, peer@),
    {
        let ghost pre = *self;
        match self.find_torrent(ih) {
            Some(i) => {
                let (key, mut swarm) = self.torrents.remove(i);
                let ghost oldswarm = swarm;
                let present = peer_index(&swarm.peers, &peer).is_some();
                if !present {
                    let ghost oldpeers = swarm.peers@;
                    swarm.peers.push(peer);
                    proof {
                        assert(peer_views(swarm.peers@) =~= peer_views(oldpeers).push(peer@));
                    }
                }
                self.torrents.insert(i, (key, swarm));
                proof {
                    assert(self.torrents@ =~= pre.torrents@.update(
                        i as int,
                        (pre.torrents@[i as int].0, swarm),
                    ));
                    lemma_swarm_of_update(
                        pre.torrents@,
                        i as int,
                        (pre.torrents@[i as int].0, swarm),
                    );
                    assert forall|a: int, b: int|
                        0 <= a < b < self.torrents@.len() implies self.torrents@[a].0@
                        != self.torrents@[b].0@ by {
                        assert(pre.torrents@[a].0@ != pre.torrents@[b].0@);
                    }
                    if !oldswarm.views().contains(peer@) {
                        assert(peers_distinct(swarm.views()));
                    }
                }
            },
            None => {
                let key = ih.clone();
                let mut peers: Vec<Peer> = Vec::new();
                peers.push(peer);
                let swarm = Swarm { peers, completed_count: 0 };
                proof {
                    assert(swarm.views() =~= Seq::<PeerView>::empty().push(peer@));
                }
                self.torrents.push((key, swarm));
                proof {
                    assert(self.torrents@ =~= pre.torrents@.push((key, swarm)));
                    lemma_swarm_of_push(pre.torrents@, (key, swarm));
                    assert forall|a: int, b: int|
                        0 <= a < b < self.torrents@.len() implies self.torrents@[a].0@
                        != self.torrents@[b].0@ by {
                        if b < pre.torrents@.len() {
                            assert(pre.torrents@[a].0@ != pre.torrents@[b].0@);
                        }
                    }
                }
            },
        }
    }

    /// Removes `peer` from the swarm for `ih` if present; absence of the
    /// swarm or of the peer is not an error.
    pub fn remove_peer(&mut self, ih: &InfoHash, peer: &Peer)
        requires
            old(self).wf(),
        ensures
            remove_effect(*old(self), *final(self), ih@, peer@),
    {
        let ghost pre = *self;
        match self.find_torrent(ih) {
            Some(i) => {
                let (key, mut swarm) = self.torrents.remove(i);
                let ghost oldswarm = swarm;
                proof {
                    assert(oldswarm == pre.torrents@[i as int].1);
                    assert(peers_distinct(pre.torrents@[i as int].1.views()));
                }
                match peer_index(&swarm.peers, peer) {
                    Some(j) => {
                        let ghost oldpeers = swarm.peers@;
                        swarm.peers.remove(j);
                        proof {
                            assert(peer_views(swarm.peers@) =~= peer_views(oldpeers).remove(
                                j as int,
                            ));
                            lemma_distinct_remove(peer_views(oldpeers), j as int);
                            assert(peer_views(oldpeers).contains(peer@));
                        }
                    },
                    None => {},
                }
                self.torrents.insert(i, (key, swarm));
                proof {
                    assert(self.torrents@ =~= pre.torrents@.update(
                        i as int,
                        (pre.torrents@[i as int].0, swarm),
                    ));
                    lemma_swarm_of_update(
                        pre.torrents@,
                        i as int,
                        (pre.torrents@[i as int].0, swarm),
                    );
                    assert forall|a: int, b: int|
                        0 <= a < b < self.torrents@.len() implies self.torrents@[a].0@
                        != self.torrents@[b].0@ by {
                        assert(pre.torrents@[a].0@ != pre.torrents@[b].0@);
                    }
                }
            },
            None => {},
        }
    }

    /// Bumps the completion counter of the swarm for `ih` (a no-op when no
    /// swarm exists yet, which the announce pipeline rules out by upserting
    /// first).
    pub fn record_completion(&mut self, ih: &InfoHash)
        requires
            old(self).wf(),
        ensures
            completion_effect(*old(self), *final(self), ih@),
    {
        let ghost pre = *self;
        match self.find_torrent(ih) {
            Some(i) => {
                let (key, mut swarm) = self.torrents.remove(i);
                let ghost oldswarm = swarm;
                if swarm.completed_count < u32::MAX {
                    swarm.completed_count = swarm.completed_count + 1;
                }
                self.torrents.insert(i, (key, swarm));
                proof {
                    assert(oldswarm == pre.torrents@[i as int].1);
                    assert(swarm.views() == oldswarm.views());
                    assert(self.torrents@ =~= pre.torrents@.update(
                        i as int,
                        (pre.torrents@[i as int].0, swarm),
                    ));
                    lemma_swarm_of_update(
                        pre.torrents@,
                        i as int,
                        (pre.torrents@[i as int].0, swarm),
                    );
                    assert forall|a: int, b: int|
                        0 <= a < b < self.torrents@.len() implies self.torrents@[a].0@
                        != self.torrents@[b].0@ by {
                        assert(pre.torrents@[a].0@ != pre.torrents@[b].0@);
                    }
                    assert forall|k: int|
                        0 <= k < self.torrents@.len() implies peers_distinct(
                        #[trigger] self.torrents@[k].1.views()) by {
                        if k != i as int {
                            assert(self.torrents@[k] == pre.torrents@[k]);
                            assert(peers_distinct(pre.torrents@[k].1.views()));
                        } else {
                            assert(peers_distinct(pre.torrents@[k].1.views()));
                        }
                    }
                }
            },
            None => {},
        }
    }

    /// A copy of the current peer set of the swarm for `ih`: one consistent
    /// point in time, not kept in step with later mutations.
    pub fn snapshot_peers(&self, ih: &InfoHash) -> (r: Vec<Peer>)
        ensures
            peer_views(r@) == self.swarm_peers(ih@),
    {
        let mut out: Vec<Peer> = Vec::new();
        match self.find_torrent(ih) {
            Some(i) => {
                let peers = &self.torrents[i].1.peers;
                let mut j: usize = 0;
                assert(peer_views(out@) =~= peer_views(peers@).take(0));
                while j < peers.len()
                    invariant
                        j <= peers@.len(),
                        peer_views(out@) == peer_views(peers@).take(j as int),
                    decreases peers@.len() - j,
                {
                    let ghost prev = out@;
                    let c = peers[j].clone();
                    let ghost cv = c@;
                    out.push(c);
                    proof {
                        assert(peer_views(out@) =~= peer_views(prev).push(cv));
                        assert(peer_views(peers@).take(j + 1) =~= peer_views(peers@).take(
                            j as int,
                        ).push(peer_views(peers@)[j as int]));
                        assert(cv == peer_views(peers@)[j as int]);
                    }
                    j = j + 1;
                }
                assert(peer_views(peers@).take(peers@.len() as int) =~= peer_views(peers@));
            },
            None => {
                assert(peer_views(out@) =~= Seq::<PeerView>::empty());
            },
        }
        out
    }

    /// The completion counter of the swarm for `ih` (zero when absent).
    pub fn completed_count(&self, ih: &InfoHash) -> (r: u32)
        ensures
            r == self.completed(ih@),
    {
        match self.find_torrent(ih) {
            Some(i) => self.torrents[i].1.completed_count,
            None => 0,
        }
    }
}

/// Announcing the same peer value twice is idempotent: after the first
/// upsert the peer is a member, so the second upsert leaves the swarm
/// exactly as it was — from an empty swarm the size is one, not two.
pub proof fn lemma_reannounce_idempotent(
    t0: Tracker,
    t1: Tracker,
    t2: Tracker,
    ih: Seq<u8>,
    p: PeerView,
)
    requires
        upsert_effect(t0, t1, ih, p),
        upsert_effect(t1, t2, ih, p),
    ensures
        t2.swarm_peers(ih) == t1.swarm_peers(ih),
        t0.swarm_peers(ih).len() == 0 ==> t1.swarm_peers(ih).len() == 1,
{
    if t0.swarm_peers(ih).contains(p) {
        assert(t1.swarm_peers(ih).contains(p));
    } else {
        let s1 = t0.swarm_peers(ih).push(p);
        assert(s1[s1.len() - 1] == p);
        assert(t1.swarm_peers(ih).contains(p));
    }
}

/// From an empty swarm, `Started` then `Stopped` for the same peer leaves
/// the swarm empty again.
pub proof fn lemma_started_then_stopped(
    t0: Tracker,
    t1: Tracker,
    t2: Tracker,
    ih: Seq<u8>,
    p: PeerView,
)
    requires
        t0.swarm_peers(ih).len() == 0,
        upsert_effect(t0, t1, ih, p),
        remove_effect(t1, t2, ih, p),
    ensures
        t2.swarm_peers(ih).len() == 0,
{
    let s1 = t1.swarm_peers(ih);
    assert(!t0.swarm_peers(ih).contains(p));
    assert(s1 == t0.swarm_peers(ih).push(p));
    assert(s1[s1.len() - 1] == p);
    assert(s1.contains(p));
}

/// A found swarm sits at some position of the registry.
proof fn lemma_swarm_of_index(ts: Seq<(InfoHash, Swarm)>, ih: Seq<u8>)
    requires
        spec_swarm_of(ts, ih) is Some,
    ensures
        exists|i: int|
            0 <= i < ts.len() && #[trigger] ts[i].1 == spec_swarm_of(ts, ih)->Some_0,
    decreases ts.len(),
{
    if ts.len() > 0 && ts[0].0@ != ih {
        lemma_swarm_of_index(ts.skip(1), ih);
        let i = choose|i: int|
            0 <= i < ts.skip(1).len() && #[trigger] ts.skip(1)[i].1 == spec_swarm_of(
                ts.skip(1),
                ih,
            )->Some_0;
        assert(ts[i + 1].1 == spec_swarm_of(ts, ih)->Some_0);
    }
}

/// In a well-formed tracker no swarm holds the same peer twice.
pub proof fn lemma_wf_distinct(t: Tracker, ih: Seq<u8>)
    requires
        t.wf(),
    ensures
        peers_distinct(t.swarm_peers(ih)),
{
    if spec_swarm_of(t.torrents@, ih) is Some {
        lemma_swarm_of_index(t.torrents@, ih);
        let i = choose|i: int|
            0 <= i < t.torrents@.len() && #[trigger] t.torrents@[i].1 == spec_swarm_of(
                t.torrents@,
                ih,
            )->Some_0;
        assert(peers_distinct(t.torrents@[i].1.views()));
    }
}

/// Index of the first peer equal to `p`, if any.
fn peer_index(peers: &Vec<Peer>, p: &Peer) -> (r: Option<usize>)
    ensures
        match r {
            Some(i) => i < peers@.len() && peer_views(peers@)[i as int] == p@,
            None => !peer_views(peers@).contains(p@),
        },
{
    let mut i: usize = 0;
    while i < peers.len()
        invariant
            i <= peers@.len(),
            forall|j: int| 0 <= j < i ==> peer_views(peers@)[j] != p@,
        decreases peers@.len() - i,
    {
        if peers[i] == *p {
            return Some(i);
        }
        i = i + 1;
    }
    proof {
        if peer_views(peers@).contains(p@) {
            let w = choose|k: int|
                0 <= k < peer_views(peers@).len() && peer_views(peers@)[k] == p@;
            assert(peer_views(peers@)[w] != p@);
        }
    }
    None
}

/// Removing one position from a duplicate-free sequence keeps it duplicate
/// free and removes exactly that element's membership.
proof fn lemma_distinct_remove(s: Seq<PeerView>, i: int)
    requires
        peers_distinct(s),
        0 <= i < s.len(),
    ensures
        peers_distinct(s.remove(i)),
        forall|q: PeerView| s.remove(i).contains(q) <==> s.contains(q) && q != s[i],
{
    let r = s.remove(i);
    assert forall|a: int, b: int| 0 <= a < b < r.len() implies r[a] != r[b] by {
        let a2 = if a < i {
            a
        } else {
            a + 1
        };
        let b2 = if b < i {
            b
        } else {
            b + 1
        };
        assert(r[a] == s[a2] && r[b] == s[b2]);
    }
    assert forall|q: PeerView| r.contains(q) <==> s.contains(q) && q != s[i] by {
        if r.contains(q) {
            let k = choose|k: int| 0 <= k < r.len() && r[k] == q;
            let k2 = if k < i {
                k
            } else {
                k + 1
            };
            assert(s[k2] == q);
            assert(s.contains(q));
        }
        if s.contains(q) && q != s[i] {
            let k = choose|k: int| 0 <= k < s.len() && s[k] == q;
            let k2 = if k < i {
                k
            } else {
                k - 1
            };
            assert(r[k2] == q);
            assert(r.contains(q));
        }
    }
}

} // verus!
