use torrent_core::codec::dict_insert;
use torrent_core::codec::encode;
use torrent_core::codec::Value;
use torrent_core::tracker::dec_string;
use torrent_core::tracker::parse_compact_peers;
use torrent_core::tracker::parse_tracker_response;
use torrent_core::tracker::peers_from_response;
use torrent_core::tracker::tracker_request_url;
use torrent_core::tracker::TrackerError;

fn bytes(s: &str) -> Vec<u8> {
    s.as_bytes().to_vec()
}

#[test]
fn two_compact_peers_decode_in_encounter_order() {
    let buf = [10u8, 0, 0, 1, 0x1a, 0xe1, 192, 168, 1, 2, 0, 80];
    let peers = parse_compact_peers(&buf).unwrap();
    assert_eq!(peers.len(), 2);
    assert_eq!(peers[0].ip, [10, 0, 0, 1]);
    assert_eq!(peers[0].port, 6881);
    assert_eq!(peers[1].ip, [192, 168, 1, 2]);
    assert_eq!(peers[1].port, 80);
}

#[test]
fn duplicate_peers_are_passed_through() {
    let buf = [9u8, 9, 9, 9, 0, 1, 9, 9, 9, 9, 0, 1];
    let peers = parse_compact_peers(&buf).unwrap();
    assert_eq!(peers.len(), 2);
    assert_eq!(peers[0], peers[1]);
}

#[test]
fn ragged_compact_list_is_rejected() {
    let buf = [1u8, 2, 3, 4, 5, 6, 7];
    assert_eq!(parse_compact_peers(&buf).unwrap_err(), TrackerError::BadPeersLength);
    assert!(parse_compact_peers(&[]).unwrap().is_empty());
}

#[test]
fn tracker_response_yields_peer_bytes() {
    let mut top: Vec<(Vec<u8>, Value)> = Vec::new();
    dict_insert(&mut top, bytes("interval"), Value::Int(1800));
    dict_insert(&mut top, bytes("peers"), Value::Bytes(vec![10, 0, 0, 1, 0x1a, 0xe1]));
    let body = encode(&Value::Dict(top));
    let peers = parse_tracker_response(&body).unwrap();
    assert_eq!(peers, vec![10, 0, 0, 1, 0x1a, 0xe1]);
}

#[test]
fn tracker_response_errors_are_distinguished() {
    match parse_tracker_response(&bytes("not bencode")).unwrap_err() {
        TrackerError::Decode(_) => {},
        other => panic!("expected a decode error, got {other:?}"),
    }
    assert_eq!(parse_tracker_response(&bytes("i1e")).unwrap_err(), TrackerError::NotADictionary);

    let mut top: Vec<(Vec<u8>, Value)> = Vec::new();
    dict_insert(&mut top, bytes("interval"), Value::Int(1800));
    let body = encode(&Value::Dict(top));
    assert_eq!(parse_tracker_response(&body).unwrap_err(), TrackerError::MissingPeers);

    let mut top: Vec<(Vec<u8>, Value)> = Vec::new();
    dict_insert(&mut top, bytes("peers"), Value::Int(0));
    let body = encode(&Value::Dict(top));
    assert_eq!(parse_tracker_response(&body).unwrap_err(), TrackerError::WrongPeersType);

    let mut top: Vec<(Vec<u8>, Value)> = Vec::new();
    dict_insert(&mut top, bytes("peers"), Value::Bytes(vec![1, 2, 3, 4]));
    let body = encode(&Value::Dict(top));
    assert_eq!(parse_tracker_response(&body).unwrap_err(), TrackerError::BadPeersLength);
}

#[test]
fn decimal_rendering() {
    assert_eq!(dec_string(0), "0");
    assert_eq!(dec_string(6881), "6881");
    assert_eq!(dec_string(u64::MAX), "18446744073709551615");
}

#[test]
fn request_url_carries_all_session_parameters() {
    let announce = String::from("http://tracker.example/announce");
    let info_hash = [0xaau8; 20];
    let peer_id = String::from("-TR2940-5f2b3b3b3b3b");
    let url = tracker_request_url(&announce, &info_hash, &peer_id, 6881, 1000);
    let mut expected = String::from("http://tracker.example/announce?info_hash=");
    for _ in 0..20 {
        expected.push_str("%aa");
    }
    expected.push_str("&peer_id=-TR2940-5f2b3b3b3b3b&port=6881");
    expected.push_str("&uploaded=0&downloaded=0&left=1000&compact=1");
    assert_eq!(url, expected);
}

#[test]
fn response_decodes_all_the_way_to_peers() {
    let mut top: Vec<(Vec<u8>, Value)> = Vec::new();
    dict_insert(&mut top, bytes("interval"), Value::Int(1800));
    dict_insert(
        &mut top,
        bytes("peers"),
        Value::Bytes(vec![10, 0, 0, 1, 0x1a, 0xe1, 192, 168, 1, 2, 0, 80]),
    );
    let body = encode(&Value::Dict(top));
    let peers = peers_from_response(&body).unwrap();
    assert_eq!(peers.len(), 2);
    assert_eq!(peers[0].ip, [10, 0, 0, 1]);
    assert_eq!(peers[0].port, 6881);
    assert_eq!(peers[1].ip, [192, 168, 1, 2]);
    assert_eq!(peers[1].port, 80);
}
