//! One announced endpoint for one torrent: peer-id, declared address, port.
//!
//! A `Peer` is a value type compared by all three fields, so a client that
//! re-announces from the same peer-id but a different port or address counts
//! as a distinct entry in the swarm, not as an update of the old one.
use crate::bencode;
use crate::ids::PeerId;
use vstd::prelude::*;
use vstd::std_specs::cmp::PartialEqSpec;
use vstd::string::StringSliceAdditionalSpecFns;

verus! {

/// The mathematical value of a `Peer`: its three fields as plain sequences.
pub struct PeerView {
    pub peer_id: Seq<u8>,
    pub ip: Seq<u8>,
    pub port: u16,
}

/// One peer of a swarm. The address is kept as the client declared it in the
/// announce query — a dotted quad or a DNS name, as raw bytes — since the
/// tracker only echoes it back to other peers.
#[derive(Debug)]
pub struct Peer {
    peer_id: PeerId,
    ip: Vec<u8>,
    port: u16,
}

impl View for Peer {
    type V = PeerView;

    closed spec fn view(&self) -> PeerView {
        PeerView { peer_id: self.peer_id@, ip: self.ip@, port: self.port }
    }
}

/// The values a sequence of peers stands for.
pub open spec fn peer_views(s: Seq<Peer>) -> Seq<PeerView> {
    s.map_values(|p: Peer| p@)
}

/// The bencode dictionary for one peer in a response: keys in sorted order,
/// the peer-id as a fixed-length raw byte string.
pub open spec fn spec_peer_bencode(p: PeerView) -> Seq<u8> {
    seq![100u8] + ("2:ip").spec_bytes() + bencode::spec_byte_string(p.ip) + (
    "7:peer id").spec_bytes() + bencode::spec_byte_string(p.peer_id) + ("4:port").spec_bytes()
        + bencode::spec_integer(p.port as nat) + seq![101u8]
}

impl Peer {
    pub fn new(peer_id: PeerId, ip: Vec<u8>, port: u16) -> (r: Self)
        ensures
            r@ == (PeerView { peer_id: peer_id@, ip: ip@, port: port }),
    {
        Peer { peer_id, ip, port }
    }

    pub fn peer_id(&self) -> (r: &PeerId)
        ensures
            r@ == self@.peer_id,
    {
        &self.peer_id
    }

    pub fn ip(&self) -> (r: &Vec<u8>)
        ensures
            r@ == self@.ip,
    {
        &self.ip
    }

    pub fn port(&self) -> (r: u16)
        ensures
            r == self@.port,
    {
        self.port
    }

    /// Appends this peer's bencode dictionary to `out`.
    pub fn push_bencode(&self, out: &mut Vec<u8>)
        ensures
            final(out)@ == old(out)@ + spec_peer_bencode(self@),
    {
        out.push(100);
        bencode::push_str_bytes(out, "2:ip");
        bencode::push_byte_string(out, self.ip.as_slice());
        bencode::push_str_bytes(out, "7:peer id");
        bencode::push_bytes(out, self.peer_id.bencode().as_slice());
        bencode::push_str_bytes(out, "4:port");
        bencode::push_integer(out, self.port as u64);
        out.push(101);
        assert(final(out)@ =~= old(out)@ + spec_peer_bencode(self@));
    }
}

impl Clone for Peer {
    fn clone(&self) -> (res: Self)
        ensures
            res@ == self@,
    {
        let ip = self.ip.clone();
        proof {
            assert(ip@ =~= self.ip@);
        }
        Peer { peer_id: self.peer_id.clone(), ip, port: self.port }
    }
}

impl PartialEq for Peer {
    fn eq(&self, other: &Self) -> (r: bool) {
        let r = self.peer_id == other.peer_id && self.ip == other.ip && self.port == other.port;
        proof {
            if self.ip@ == other.ip@ {
                assert(self.ip.eq_spec(&other.ip));
            }
            if r {
                assert(self.ip@ =~= other.ip@);
            }
        }
        r
    }
}

impl vstd::std_specs::cmp::PartialEqSpecImpl for Peer {
    open spec fn obeys_eq_spec() -> bool {
        true
    }

    open spec fn eq_spec(&self, other: &Self) -> bool {
        self@ == other@
    }
}

} // verus!
