use torrent_core::find_e_for_index;
use torrent_core::handshake::build_handshake;
use torrent_core::handshake::extract_peer_id;
use torrent_core::handshake::peer_id_hex;

#[test]
fn handshake_message_has_the_fixed_wire_layout() {
    let info_hash = [0x11u8; 20];
    let peer_id = *b"00112233445566778899";
    let msg = build_handshake(&info_hash, &peer_id);
    assert_eq!(msg.len(), 68);
    assert_eq!(msg[0], 19);
    assert_eq!(&msg[1..20], b"BitTorrent protocol");
    assert_eq!(&msg[20..28], &[0u8; 8]);
    assert_eq!(&msg[28..48], &[0x11u8; 20]);
    assert_eq!(&msg[48..68], b"00112233445566778899");
}

#[test]
fn last_20_bytes_are_the_remote_identifier() {
    let mut response = vec![0xeeu8; 48];
    response.extend_from_slice(b"ABCDEFGHIJKLMNOPQRST");
    let id = extract_peer_id(&response);
    assert_eq!(id, b"ABCDEFGHIJKLMNOPQRST".to_vec());

    // The first 48 bytes do not matter.
    let mut other = vec![0x00u8; 48];
    other.extend_from_slice(b"ABCDEFGHIJKLMNOPQRST");
    assert_eq!(extract_peer_id(&other), id);
}

#[test]
fn remote_identifier_renders_as_hex() {
    let mut response = vec![0u8; 48];
    response.extend_from_slice(&[0xabu8; 20]);
    let hex = peer_id_hex(&response);
    assert_eq!(hex, "ab".repeat(20));
}

#[test]
fn echoed_handshake_round_trips_the_identifier() {
    let info_hash = [0x42u8; 20];
    let peer_id = *b"-VT0001-abcdefghijkl";
    let msg = build_handshake(&info_hash, &peer_id);
    // A peer that echoes the message reports our own identifier back.
    assert_eq!(extract_peer_id(&msg), peer_id.to_vec());
}

#[test]
fn find_e_locates_the_matching_terminator() {
    assert_eq!(find_e_for_index("i42e", 0), 3);
    assert_eq!(find_e_for_index("li1ei2ee", 0), 7);
    assert_eq!(find_e_for_index("i42", 0), 0);
    assert_eq!(find_e_for_index("xe", 0), 1);
}
