use bittorrent_tracker::bencode::FixedDecodeError;
use bittorrent_tracker::bencode::decode_fixed;
use bittorrent_tracker::bencode::encode_fixed;
use bittorrent_tracker::ids::PeerId;
use bittorrent_tracker::query::parse_query_pairs;

#[test]
fn peer_id_ser_test() {
    let hash: [u8; 20] = [b'a'; 20];
    let peer_id = PeerId::new(hash.to_vec());

    assert_eq!(
        format!("20:{}", std::str::from_utf8(&hash).unwrap()),
        String::from_utf8(peer_id.bencode()).unwrap(),
    );
}

#[test]
fn peer_id_de_test() {
    let hash: [u8; 20] = [b'a'; 20];

    assert_eq!(
        PeerId::new(hash.to_vec()),
        PeerId::decode_bencoded(b"20:aaaaaaaaaaaaaaaaaaaa").unwrap(),
    );

    let pairs = parse_query_pairs(b"peer_id=aaaaaaaaaaaaaaaaaaaa").unwrap();
    assert_eq!(pairs.len(), 1);
    assert_eq!(pairs[0].0, b"peer_id".to_vec());
    assert_eq!(PeerId::new(pairs[0].1.clone()), PeerId::new(hash.to_vec()));
}

#[test]
fn peer_id_wrong_length() {
    assert!(PeerId::decode_bencoded(b"3:abc").is_err());
}

#[test]
fn codec_round_trip() {
    let bytes: Vec<u8> = (0..20u8).collect();
    let encoded = encode_fixed(&bytes);
    assert_eq!(decode_fixed(&encoded).unwrap(), bytes);
}

#[test]
fn decode_wrong_length_reports_observed() {
    assert_eq!(
        decode_fixed(b"5:abcde"),
        Err(FixedDecodeError::InvalidLength(5))
    );
    assert_eq!(
        decode_fixed(b"21:aaaaaaaaaaaaaaaaaaaaa"),
        Err(FixedDecodeError::InvalidLength(21))
    );
}

#[test]
fn decode_malformed() {
    assert_eq!(decode_fixed(b"abc"), Err(FixedDecodeError::Malformed));
    assert_eq!(decode_fixed(b"20:short"), Err(FixedDecodeError::Malformed));
    assert_eq!(decode_fixed(b""), Err(FixedDecodeError::Malformed));
}

#[test]
fn percent_decoding() {
    let pairs = parse_query_pairs(b"a=%41+b&c=%7e").unwrap();
    assert_eq!(pairs.len(), 2);
    assert_eq!(pairs[0].0, b"a".to_vec());
    assert_eq!(pairs[0].1, b"A b".to_vec());
    assert_eq!(pairs[1].1, b"~".to_vec());
}

#[test]
fn percent_decoding_rejects_bad_escape() {
    assert!(parse_query_pairs(b"a=%zz").is_none());
    assert!(parse_query_pairs(b"a=%4").is_none());
}
