use torrent_core::codec::encode;
use torrent_core::descriptor::TorrentInfo;
use torrent_core::digest::bytes_to_hex;
use torrent_core::digest::bytes_to_hex_url_encoded;
use torrent_core::digest::hash_bytes_and_hex;
use torrent_core::digest::info_hash;
use torrent_core::digest::info_to_value;
use torrent_core::digest::piece_hashes;

#[test]
fn hex_rendering_is_two_lowercase_digits_per_byte() {
    assert_eq!(bytes_to_hex(&[]), "");
    assert_eq!(bytes_to_hex(&[0x00, 0xff, 0x1a]), "00ff1a");
    assert_eq!(bytes_to_hex(&[0xab, 0xcd, 0xef]), "abcdef");
}

#[test]
fn percent_encoding_escapes_every_byte() {
    assert_eq!(bytes_to_hex_url_encoded(&[]), "");
    // Even URL-safe bytes such as 'A' (0x41) are escaped.
    assert_eq!(bytes_to_hex_url_encoded(&[0x41, 0x00, 0xff]), "%41%00%ff");
}

#[test]
fn sha1_matches_the_known_test_vector() {
    assert_eq!(hash_bytes_and_hex(b"abc"), "a9993e364706816aba3e25717850c26c9cd0d89d");
    assert_eq!(hash_bytes_and_hex(b""), "da39a3ee5e6b4b0d3255bfef95601890afd80709");
}

fn sample_info() -> TorrentInfo {
    TorrentInfo {
        length: 1000,
        name: String::from("example.bin"),
        piece_length: 500,
        pieces: vec![7u8; 40],
    }
}

#[test]
fn metadata_digest_is_deterministic() {
    let a = info_hash(&sample_info());
    let b = info_hash(&sample_info());
    assert_eq!(a, b);
    assert_eq!(a.len(), 20);
    // And it is the SHA-1 of the canonical re-encoding.
    let encoded = encode(&info_to_value(&sample_info()));
    assert_eq!(bytes_to_hex(&a), hash_bytes_and_hex(&encoded));
}

#[test]
fn metadata_digest_depends_on_content() {
    let mut other = sample_info();
    other.length = 999;
    other.piece_length = 333;
    other.pieces = vec![7u8; 60];
    assert_ne!(info_hash(&sample_info()), info_hash(&other));
}

#[test]
fn metadata_reencodes_canonically() {
    let encoded = encode(&info_to_value(&sample_info()));
    let mut expected = b"d6:lengthi1000e4:name11:example.bin12:piece lengthi500e6:pieces40:".to_vec();
    expected.extend_from_slice(&[7u8; 40]);
    expected.push(b'e');
    assert_eq!(encoded, expected);
}

#[test]
fn piece_hashes_are_consecutive_20_byte_chunks() {
    let mut info = sample_info();
    let mut pieces = vec![1u8; 20];
    pieces.extend_from_slice(&[2u8; 20]);
    info.pieces = pieces;
    let hashes = piece_hashes(&info);
    assert_eq!(hashes.len(), 2);
    assert_eq!(hashes[0], vec![1u8; 20]);
    assert_eq!(hashes[1], vec![2u8; 20]);
}
