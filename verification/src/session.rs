//! The session handler: dispatches one already-parsed HTTP request —
//! method, path, optional query string — through the announce pipeline and
//! produces a result that is exactly a response or a failure.
//!
//! The transport layer around the tracker extracts the triple from the
//! request and bencodes whatever comes back, always as HTTP 200: failures
//! are protocol-level, not HTTP-status-level.
use crate::bencode;
use crate::error::TrackerError;
use crate::error::spec_error_bencode;
use crate::peer::Peer;
use crate::peer::PeerView;
use crate::peer::peer_views;
use crate::peer::spec_peer_bencode;
use crate::query::ClientEvent;
use crate::query::TrackerRequest;
use crate::query::spec_clamp_numwant;
use crate::query::spec_parse_request;
use crate::selection::excluding;
use crate::selection::select_peers;
use crate::selection::spec_min;
use crate::tracker::Tracker;
use crate::tracker::lemma_wf_distinct;
use crate::tracker::peers_distinct;
use crate::tracker::remove_effect;
use crate::tracker::saturating_inc;
use crate::tracker::upsert_effect;
use vstd::prelude::*;
use vstd::string::StringSliceAdditionalSpecFns;

verus! {

/// A successful announce: the interval in seconds clients should wait
/// between regular announces, and the selected peers.
#[derive(Debug)]
pub struct TrackerResponse {
    pub interval: u32,
    pub peers: Vec<Peer>,
}

/// The outcome of one request: exactly one of a response or a failure.
pub type TrackerResult = Result<TrackerResponse, TrackerError>;

/// The concatenated bencode dictionaries of the peer list.
pub open spec fn spec_peers_bencode(ps: Seq<PeerView>) -> Seq<u8>
    decreases ps.len(),
{
    if ps.len() == 0 {
        Seq::empty()
    } else {
        spec_peer_bencode(ps[0]) + spec_peers_bencode(ps.skip(1))
    }
}

/// The bencode dictionary of a success response, keys in sorted order:
/// `{"interval": <int>, "peers": [<peer dict>, ...]}`.
pub open spec fn spec_response_bencode(interval: u32, ps: Seq<PeerView>) -> Seq<u8> {
    seq![100u8] + ("8:interval").spec_bytes() + bencode::spec_integer(interval as nat) + (
    "5:peers").spec_bytes() + seq![108u8] + spec_peers_bencode(ps) + seq![101u8] + seq![101u8]
}

/// Appending one peer extends the concatenation at its end.
proof fn lemma_peers_bencode_push(ps: Seq<PeerView>, p: PeerView)
    ensures
        spec_peers_bencode(ps.push(p)) == spec_peers_bencode(ps) + spec_peer_bencode(p),
    decreases ps.len(),
{
    let ps2 = ps.push(p);
    if ps.len() == 0 {
        assert(ps2.skip(1) =~= Seq::<PeerView>::empty());
        assert(spec_peers_bencode(Seq::<PeerView>::empty()) =~= Seq::<u8>::empty());
        assert(ps2[0] == p);
        assert(spec_peers_bencode(ps2) =~= spec_peer_bencode(p));
        assert(spec_peers_bencode(ps) + spec_peer_bencode(p) =~= spec_peer_bencode(p));
    } else {
        assert(ps2[0] == ps[0]);
        assert(ps2.skip(1) =~= ps.skip(1).push(p));
        lemma_peers_bencode_push(ps.skip(1), p);
        assert(spec_peer_bencode(ps[0]) + (spec_peers_bencode(ps.skip(1)) + spec_peer_bencode(p))
            =~= (spec_peer_bencode(ps[0]) + spec_peers_bencode(ps.skip(1))) + spec_peer_bencode(p));
    }
}

impl TrackerResponse {
    /// The bencode wire form of this response.
    pub fn bencode(&self) -> (r: Vec<u8>)
        ensures
            r@ == spec_response_bencode(self.interval, peer_views(self.peers@)),
    {
        let mut out: Vec<u8> = Vec::new();
        out.push(100);
        bencode::push_str_bytes(&mut out, "8:interval");
        bencode::push_integer(&mut out, self.interval as u64);
        bencode::push_str_bytes(&mut out, "5:peers");
        out.push(108);
        let ghost head = out@;
        let mut i: usize = 0;
        assert(spec_peers_bencode(peer_views(self.peers@).take(0)) =~= Seq::<u8>::empty());
        assert(out@ =~= head + spec_peers_bencode(peer_views(self.peers@).take(0)));
        while i < self.peers.len()
            invariant
                i <= self.peers@.len(),
                out@ == head + spec_peers_bencode(peer_views(self.peers@).take(i as int)),
            decreases self.peers@.len() - i,
        {
            self.peers[i].push_bencode(&mut out);
            proof {
                let vs = peer_views(self.peers@);
                assert(vs.take(i + 1) =~= vs.take(i as int).push(vs[i as int]));
                lemma_peers_bencode_push(vs.take(i as int), vs[i as int]);
                assert(head + (spec_peers_bencode(vs.take(i as int)) + spec_peer_bencode(
                    vs[i as int],
                )) =~= (head + spec_peers_bencode(vs.take(i as int))) + spec_peer_bencode(
                    vs[i as int],
                ));
            }
            i = i + 1;
        }
        proof {
            let vs = peer_views(self.peers@);
            assert(vs.take(vs.len() as int) =~= vs);
        }
        out.push(101);
        out.push(101);
        assert(out@ =~= spec_response_bencode(self.interval, peer_views(self.peers@)));
        out
    }
}

/// The bencode wire form of a whole result, success or failure; what the
/// transport layer sends as the response body.
pub fn bencode_result(r: &TrackerResult) -> (out: Vec<u8>)
    ensures
        match r {
            Ok(resp) => out@ == spec_response_bencode(resp.interval, peer_views(resp.peers@)),
            Err(e) => out@ == spec_error_bencode(e@),
        },
{
    match r {
        Ok(resp) => resp.bencode(),
        Err(e) => e.bencode(),
    }
}

/// The address a peer is registered under: what the client declared, or the
/// unspecified-address placeholder when it declared none (the core never
/// sees the transport's source address).
pub open spec fn spec_resolved_ip(ip: Option<Seq<u8>>) -> Seq<u8> {
    match ip {
        Some(b) => b,
        None => ("0.0.0.0").spec_bytes(),
    }
}

/// Builds the peer a request announces: identity is the full
/// (peer-id, address, port) triple.
fn resolve_peer(req: &TrackerRequest) -> (p: Peer)
    ensures
        p@ == (PeerView {
            peer_id: req@.peer_id,
            ip: spec_resolved_ip(req@.ip),
            port: req@.port,
        }),
{
    let ip: Vec<u8> = match &req.ip {
        Some(v) => vstd::slice::slice_to_vec(v.as_slice()),
        None => vstd::slice::slice_to_vec("0.0.0.0".as_bytes()),
    };
    Peer::new(req.peer_id.clone(), ip, req.port)
}

/// What a `Completed` announce does to the registry: the peer is
/// (re)confirmed a member, and the completion counter goes up by one —
/// once per `Completed` received, with no deduplication.
pub open spec fn completed_announce_effect(
    pre: Tracker,
    post: Tracker,
    ih: Seq<u8>,
    p: PeerView,
) -> bool {
    &&& post.wf()
    &&& post.opt() == pre.opt()
    &&& post.has_swarm(ih)
    &&& post.swarm_peers(ih) == (if pre.swarm_peers(ih).contains(p) {
        pre.swarm_peers(ih)
    } else {
        pre.swarm_peers(ih).push(p)
    })
    &&& post.completed(ih) == saturating_inc(pre.completed(ih))
    &&& forall|h: Seq<u8>|
        h != ih ==> post.swarm_peers(h) == pre.swarm_peers(h) && post.completed(h)
            == pre.completed(h) && (post.has_swarm(h) <==> pre.has_swarm(h))
}

/// A `Completed` announce increments the swarm's counter by exactly one
/// (short of the counter's top) and leaves the announcing peer a member.
pub proof fn lemma_completed_counts(pre: Tracker, post: Tracker, ih: Seq<u8>, p: PeerView)
    requires
        completed_announce_effect(pre, post, ih, p),
        pre.completed(ih) < u32::MAX,
    ensures
        post.completed(ih) == pre.completed(ih) + 1,
        post.swarm_peers(ih).contains(p),
{
    if pre.swarm_peers(ih).contains(p) {
    } else {
        let s1 = pre.swarm_peers(ih).push(p);
        assert(s1[s1.len() - 1] == p);
    }
}

/// The whole contract of one handled request, by the routing table:
/// non-GET, wrong path and missing query are exact failures that leave the
/// registry untouched; a well-formed announce applies its event's effect
/// and returns the configured interval with a bounded, requester-free
/// selection from the resulting swarm.
pub open spec fn spec_handle(
    pre: Tracker,
    post: Tracker,
    m: Seq<u8>,
    p: Seq<u8>,
    q: Option<Seq<u8>>,
    r: TrackerResult,
) -> bool {
    if m != ("GET").spec_bytes() {
        &&& post == pre
        &&& (match r {
            Err(e) => e@ == ("Invalid request type: client request was not an HTTP GET.")@,
            Ok(_) => false,
        })
    } else if p != ("/announce").spec_bytes() {
        &&& post == pre
        &&& (match r {
            Err(e) => e@ == ("Unrecognized path, try '/announce'.")@,
            Ok(_) => false,
        })
    } else {
        match q {
            None => {
                &&& post == pre
                &&& (match r {
                    Err(e) => e@ == ("Invalid request: no query string.")@,
                    Ok(_) => false,
                })
            },
            Some(qb) => match spec_parse_request(qb) {
                Err(msg) => {
                    &&& post == pre
                    &&& (match r {
                        Err(e) => e@ == msg,
                        Ok(_) => false,
                    })
                },
                Ok(req) => {
                    let numwant = spec_clamp_numwant(req.numwant, pre.opt().peers);
                    let ih = req.info_hash;
                    let peer = PeerView {
                        peer_id: req.peer_id,
                        ip: spec_resolved_ip(req.ip),
                        port: req.port,
                    };
                    &&& (match req.event {
                        None => upsert_effect(pre, post, ih, peer),
                        Some(ClientEvent::Started) => upsert_effect(pre, post, ih, peer),
                        Some(ClientEvent::Stopped) => remove_effect(pre, post, ih, peer),
                        Some(ClientEvent::Completed) => completed_announce_effect(
                            pre,
                            post,
                            ih,
                            peer,
                        ),
                    })
                    &&& (match r {
                        Ok(resp) => {
                            &&& resp.interval == pre.opt().interval
                            &&& peer_views(resp.peers@).len() == spec_min(
                                numwant as nat,
                                excluding(post.swarm_peers(ih), peer).len(),
                            )
                            &&& forall|a: int|
                                0 <= a < peer_views(resp.peers@).len() ==> post.swarm_peers(
                                    ih,
                                ).contains(#[trigger] peer_views(resp.peers@)[a]) && peer_views(
                                    resp.peers@,
                                )[a] != peer
                            &&& peers_distinct(peer_views(resp.peers@))
                        },
                        Err(_) => false,
                    })
                },
            },
        }
    }
}

/// Compares two strings by their bytes.
fn str_eq(a: &str, b: &str) -> (r: bool)
    ensures
        r == (a.spec_bytes() == b.spec_bytes()),
{
    bencode::bytes_eq(a.as_bytes(), b.as_bytes())
}

impl Tracker {
    /// Handles one request: routes on (method, path, query presence), runs
    /// the announce pipeline, and always returns a result — no panic
    /// crosses this boundary.
    pub fn handle_session(&mut self, method: &str, path: &str, query: Option<&str>) -> (r:
        TrackerResult)
        requires
            old(self).wf(),
        ensures
            spec_handle(
                *old(self),
                *final(self),
                method.spec_bytes(),
                path.spec_bytes(),
                match query {
                    Some(q) => Some(q.spec_bytes()),
                    None => None,
                },
                r,
            ),
    {
        if !str_eq(method, "GET") {
            return Err(
                TrackerError::new(
                    "Invalid request type: client request was not an HTTP GET.".to_owned(),
                ),
            );
        }
        if !str_eq(path, "/announce") {
            return Err(TrackerError::new("Unrecognized path, try '/announce'.".to_owned()));
        }
        let q = match query {
            Some(q) => q,
            None => {
                return Err(TrackerError::new("Invalid request: no query string.".to_owned()));
            },
        };
        let mut req = match TrackerRequest::from_query_string(q) {
            Ok(req) => req,
            Err(e) => {
                return Err(e);
            },
        };
        let ghost req0 = req@;
        let max = self.config().peers;
        let interval = self.config().interval;
        req.normalize_request(max);
        let peer = resolve_peer(&req);
        let ghost pre = *self;
        match req.event {
            None => {
                self.upsert_peer(&req.info_hash, peer.clone());
            },
            Some(ClientEvent::Started) => {
                self.upsert_peer(&req.info_hash, peer.clone());
            },
            Some(ClientEvent::Stopped) => {
                self.remove_peer(&req.info_hash, &peer);
            },
            Some(ClientEvent::Completed) => {
                self.upsert_peer(&req.info_hash, peer.clone());
                self.record_completion(&req.info_hash);
            },
        }
        proof {
            lemma_wf_distinct(*self, req0.info_hash);
        }
        let snapshot = self.snapshot_peers(&req.info_hash);
        let peers = select_peers(&snapshot, &peer, req.numwant.unwrap());
        Ok(TrackerResponse { interval, peers })
    }
}

} // verus!
