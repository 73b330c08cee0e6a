use bittorrent_tracker::error::TrackerError;
use bittorrent_tracker::ids::InfoHash;
use bittorrent_tracker::ids::PeerId;
use bittorrent_tracker::peer::Peer;
use bittorrent_tracker::selection::select_peers;
use bittorrent_tracker::session::TrackerResponse;
use bittorrent_tracker::session::TrackerResult;
use bittorrent_tracker::session::bencode_result;
use bittorrent_tracker::tracker::Opt;
use bittorrent_tracker::tracker::Tracker;

fn test_opt(peers: u32) -> Opt {
    Opt { root: String::new(), peers, interval: 1 }
}

fn id(byte: u8) -> Vec<u8> {
    vec![byte; 20]
}

fn announce_query(peer_byte: u8, ip: &str, port: u16, extra: &str) -> String {
    format!(
        "info_hash={}&peer_id={}&ip={}&port={}&uploaded=0&downloaded=0&left=1000{}",
        "aaaaaaaaaaaaaaaaaaaa",
        String::from_utf8(vec![peer_byte; 20]).unwrap(),
        ip,
        port,
        extra
    )
}

#[test]
fn tracker_basic_ok_test() {
    let peer = Peer::new(
        PeerId::new("abcdefghijklmnopqrst".as_bytes().to_vec()),
        b"127.0.0.1".to_vec(),
        6981,
    );
    let response = TrackerResponse { interval: 10, peers: vec![peer] };

    assert_eq!(
        String::from_utf8(response.bencode()).unwrap(),
        "d8:intervali10e5:peersld2:ip9:127.0.0.17:peer id20:abcdefghijklmnopqrst4:porti6981eeee"
    );
}

#[test]
fn tracker_basic_err_test() {
    let err = TrackerError::new("oops".to_string());

    assert_eq!(String::from_utf8(err.bencode()).unwrap(), "d7:failure4:oopse");
}

#[test]
fn session_basic_err_test() {
    let err: TrackerResult = Err(TrackerError::new("oops".to_string()));

    assert_eq!(
        String::from_utf8(bencode_result(&err)).unwrap(),
        "d7:failure4:oopse"
    );
}

#[test]
fn tracker_basic_handle_session() {
    let mut tracker = Tracker::new(test_opt(10));
    tracker.handle_session(
        "GET",
        "/",
        Some(
            "info_hash=abcdefghijklmnopqrst&peer_id=abcdefghijklmnopqrst&ip=192.168.0.1&port=1000&uploaded=42&downloaded=10&left=20",
        ),
    );
}

#[test]
fn session_basic_handle_session() {
    let mut tracker = Tracker::new(test_opt(10));
    tracker.handle_session(
        "GET",
        "/",
        Some(
            "info_hash=abcdefghijklmnopqrst&peer_id=abcdefghijklmnopqrst&ip=192.168.0.1&port=1000&uploaded=42&downloaded=10&left=20",
        ),
    );
}

#[test]
fn idempotent_reannounce() {
    let mut tracker = Tracker::new(test_opt(50));
    let ih = InfoHash::new(id(b'h'));
    let peer = Peer::new(PeerId::new(id(b'p')), b"10.0.0.1".to_vec(), 6881);
    tracker.upsert_peer(&ih, peer.clone());
    tracker.upsert_peer(&ih, peer.clone());
    assert_eq!(tracker.snapshot_peers(&ih).len(), 1);
}

#[test]
fn self_exclusion() {
    let me = Peer::new(PeerId::new(id(b'm')), b"10.0.0.1".to_vec(), 1000);
    let mut swarm: Vec<Peer> = vec![me.clone()];
    for i in 0..5u16 {
        swarm.push(Peer::new(
            PeerId::new(id(b'o')),
            b"10.0.0.2".to_vec(),
            2000 + i,
        ));
    }
    let picked = select_peers(&swarm, &me, 3);
    assert_eq!(picked.len(), 3);
    assert!(picked.iter().all(|p| *p != me));

    let all = select_peers(&swarm, &me, 50);
    assert_eq!(all.len(), 5);
    assert!(all.iter().all(|p| *p != me));
}

#[test]
fn event_transitions() {
    let mut tracker = Tracker::new(test_opt(50));
    let ih = InfoHash::new(id(b'h'));
    let peer = Peer::new(PeerId::new(id(b'p')), b"10.0.0.1".to_vec(), 6881);

    tracker.upsert_peer(&ih, peer.clone());
    tracker.remove_peer(&ih, &peer);
    assert_eq!(tracker.snapshot_peers(&ih).len(), 0);

    tracker.upsert_peer(&ih, peer.clone());
    tracker.record_completion(&ih);
    assert_eq!(tracker.completed_count(&ih), 1);
    assert_eq!(tracker.snapshot_peers(&ih), vec![peer]);
}

#[test]
fn numwant_clamping() {
    let mut tracker = Tracker::new(test_opt(50));
    for i in 0..60u16 {
        let q = announce_query(b'o', "10.0.0.2", 2000 + i, "&event=started");
        let r = tracker.handle_session("GET", "/announce", Some(&q));
        assert!(r.is_ok());
    }
    let q = announce_query(b'm', "10.0.0.1", 1000, "&numwant=10000");
    let r = tracker.handle_session("GET", "/announce", Some(&q)).unwrap();
    assert_eq!(r.peers.len(), 50);
}

#[test]
fn end_to_end_scenario() {
    let mut tracker = Tracker::new(test_opt(50));
    let peer_a = Peer::new(PeerId::new(id(b'a')), b"10.0.0.1".to_vec(), 6881);
    let peer_b = Peer::new(PeerId::new(id(b'b')), b"10.0.0.2".to_vec(), 6882);

    let qa = announce_query(b'a', "10.0.0.1", 6881, "&event=started");
    let ra = tracker.handle_session("GET", "/announce", Some(&qa)).unwrap();
    assert_eq!(ra.interval, 1);
    assert_eq!(ra.peers.len(), 0);

    let qb = announce_query(b'b', "10.0.0.2", 6882, "&event=started");
    let rb = tracker.handle_session("GET", "/announce", Some(&qb)).unwrap();
    assert_eq!(rb.peers, vec![peer_a.clone()]);

    let qc = announce_query(b'a', "10.0.0.1", 6881, "&event=completed");
    let rc = tracker.handle_session("GET", "/announce", Some(&qc)).unwrap();
    assert_eq!(rc.peers, vec![peer_b.clone()]);
    let ih = InfoHash::new(id(b'a'));
    assert_eq!(tracker.completed_count(&ih), 1);
    assert!(tracker.snapshot_peers(&ih).contains(&peer_a));

    let qd = announce_query(b'a', "10.0.0.1", 6881, "&event=stopped");
    tracker.handle_session("GET", "/announce", Some(&qd)).unwrap();
    assert!(!tracker.snapshot_peers(&ih).contains(&peer_a));
    let qe = announce_query(b'b', "10.0.0.2", 6882, "");
    let re = tracker.handle_session("GET", "/announce", Some(&qe)).unwrap();
    assert_eq!(re.peers.len(), 0);
}

#[test]
fn unrecognized_path() {
    let mut tracker = Tracker::new(test_opt(50));
    let r = tracker.handle_session("GET", "/scrape", None);
    match r {
        Err(e) => assert_eq!(e.failure().as_str(), "Unrecognized path, try '/announce'."),
        Ok(_) => panic!("a response came back for an unserved path"),
    }
}

#[test]
fn non_get_method() {
    let mut tracker = Tracker::new(test_opt(50));
    let q = announce_query(b'a', "10.0.0.1", 6881, "");
    for query in [Some(q.as_str()), None] {
        let r = tracker.handle_session("POST", "/announce", query);
        match r {
            Err(e) => assert_eq!(
                e.failure().as_str(),
                "Invalid request type: client request was not an HTTP GET."
            ),
            Ok(_) => panic!("a response came back for a non-GET request"),
        }
    }
}

#[test]
fn missing_query_string() {
    let mut tracker = Tracker::new(test_opt(50));
    let r = tracker.handle_session("GET", "/announce", None);
    match r {
        Err(e) => assert_eq!(e.failure().as_str(), "Invalid request: no query string."),
        Ok(_) => panic!("a response came back without a query string"),
    }
}

#[test]
fn error_variants() {
    let mut tracker = Tracker::new(test_opt(50));
    let cases: Vec<(String, &str)> = vec![
        (
            "peer_id=aaaaaaaaaaaaaaaaaaaa&port=1&uploaded=0&downloaded=0&left=0".to_string(),
            "Invalid request: missing field 'info_hash'.",
        ),
        (
            announce_query(b'a', "10.0.0.1", 1, "&info_hash=abc"),
            "Invalid request: duplicate field 'info_hash'.",
        ),
        (
            "info_hash=abc&peer_id=aaaaaaaaaaaaaaaaaaaa&port=1&uploaded=0&downloaded=0&left=0"
                .to_string(),
            "Invalid infohash: infohash is not 20 bytes long.",
        ),
        (
            "info_hash=aaaaaaaaaaaaaaaaaaaa&peer_id=abc&port=1&uploaded=0&downloaded=0&left=0"
                .to_string(),
            "Invalid peerid: peerid is not 20 bytes long.",
        ),
        (
            "info_hash=aaaaaaaaaaaaaaaaaaaa&peer_id=aaaaaaaaaaaaaaaaaaaa&uploaded=0&downloaded=0&left=0"
                .to_string(),
            "Invalid request: missing field 'port'.",
        ),
        (
            announce_query(b'a', "10.0.0.1", 1, "&event=paused"),
            "Invalid request: unknown event.",
        ),
        (
            announce_query(b'a', "10.0.0.1", 1, "&numwant=abc"),
            "Invalid request: field 'numwant' is not a valid number.",
        ),
        (
            "info_hash=aaaaaaaaaaaaaaaaaaaa&peer_id=aaaaaaaaaaaaaaaaaaaa&port=99999&uploaded=0&downloaded=0&left=0"
                .to_string(),
            "Invalid request: field 'port' is not a valid number.",
        ),
        (
            announce_query(b'a', "10.0.0.1", 1, "&x=%zz"),
            "Invalid request: malformed query string.",
        ),
    ];
    for (query, want) in cases {
        let r = tracker.handle_session("GET", "/announce", Some(&query));
        match r {
            Err(e) => assert_eq!(e.failure().as_str(), want),
            Ok(_) => panic!("a response came back for a bad query: {query}"),
        }
    }
}

#[test]
fn event_names_are_case_insensitive() {
    let mut tracker = Tracker::new(test_opt(50));
    let q = announce_query(b'a', "10.0.0.1", 6881, "&event=STARTED");
    assert!(tracker.handle_session("GET", "/announce", Some(&q)).is_ok());
    let ih = InfoHash::new(id(b'a'));
    assert_eq!(tracker.snapshot_peers(&ih).len(), 1);
}

#[test]
fn missing_ip_gets_placeholder() {
    let mut tracker = Tracker::new(test_opt(50));
    let q = format!(
        "info_hash={}&peer_id={}&port=6881&uploaded=0&downloaded=0&left=0&event=started",
        "aaaaaaaaaaaaaaaaaaaa", "bbbbbbbbbbbbbbbbbbbb"
    );
    assert!(tracker.handle_session("GET", "/announce", Some(&q)).is_ok());
    let ih = InfoHash::new(id(b'a'));
    let peers = tracker.snapshot_peers(&ih);
    assert_eq!(peers.len(), 1);
    assert_eq!(peers[0].ip(), &b"0.0.0.0".to_vec());
}
