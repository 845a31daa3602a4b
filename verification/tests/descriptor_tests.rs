use torrent_core::codec::dict_insert;
use torrent_core::codec::encode;
use torrent_core::codec::Value;
use torrent_core::descriptor::ParseError;
use torrent_core::descriptor::Parser;
use torrent_core::descriptor::ValidationError;

fn bytes(s: &str) -> Vec<u8> {
    s.as_bytes().to_vec()
}

/// Builds a canonical descriptor buffer with the given metadata fields.
fn descriptor_buffer(length: i64, piece_length: i64, pieces: Vec<u8>) -> Vec<u8> {
    let mut info: Vec<(Vec<u8>, Value)> = Vec::new();
    dict_insert(&mut info, bytes("length"), Value::Int(length));
    dict_insert(&mut info, bytes("name"), Value::Bytes(bytes("example.bin")));
    dict_insert(&mut info, bytes("piece length"), Value::Int(piece_length));
    dict_insert(&mut info, bytes("pieces"), Value::Bytes(pieces));
    let mut top: Vec<(Vec<u8>, Value)> = Vec::new();
    dict_insert(&mut top, bytes("announce"), Value::Bytes(bytes("http://tracker.example/announce")));
    dict_insert(&mut top, bytes("info"), Value::Dict(info));
    encode(&Value::Dict(top))
}

#[test]
fn parses_a_complete_descriptor() {
    let buf = descriptor_buffer(1000, 500, vec![7u8; 40]);
    let tf = Parser::new().parse_torrent_file(&buf).unwrap();
    assert_eq!(tf.announce, "http://tracker.example/announce");
    assert_eq!(tf.info.length, 1000);
    assert_eq!(tf.info.name, "example.bin");
    assert_eq!(tf.info.piece_length, 500);
    assert_eq!(tf.info.pieces, vec![7u8; 40]);
}

#[test]
fn block_count_invariant_accepts_exact_digests() {
    // totalLength 1000, blockSize 500: two blocks, so exactly 40 digest bytes.
    let buf = descriptor_buffer(1000, 500, vec![1u8; 40]);
    assert!(Parser::new().parse_torrent_file(&buf).is_ok());
}

#[test]
fn block_count_invariant_rejects_off_by_one_digests() {
    let too_long = descriptor_buffer(1000, 500, vec![1u8; 41]);
    match Parser::new().parse_torrent_file(&too_long).unwrap_err() {
        ParseError::Validation(_) => {},
        other => panic!("expected a validation error, got {other:?}"),
    }
    let too_short = descriptor_buffer(1000, 500, vec![1u8; 39]);
    match Parser::new().parse_torrent_file(&too_short).unwrap_err() {
        ParseError::Validation(_) => {},
        other => panic!("expected a validation error, got {other:?}"),
    }
}

#[test]
fn block_count_mismatch_is_distinguished() {
    // 60 digest bytes describe three blocks, but 1000/500 implies two.
    let buf = descriptor_buffer(1000, 500, vec![1u8; 60]);
    assert_eq!(
        Parser::new().parse_torrent_file(&buf).unwrap_err(),
        ParseError::Validation(ValidationError::BlockCountMismatch)
    );
}

#[test]
fn uneven_final_block_is_counted() {
    // 1001/500 implies three blocks.
    let buf = descriptor_buffer(1001, 500, vec![2u8; 60]);
    assert!(Parser::new().parse_torrent_file(&buf).is_ok());
    let buf = descriptor_buffer(1001, 500, vec![2u8; 40]);
    assert_eq!(
        Parser::new().parse_torrent_file(&buf).unwrap_err(),
        ParseError::Validation(ValidationError::BlockCountMismatch)
    );
}

#[test]
fn malformed_buffer_is_a_decode_error() {
    match Parser::new().parse_torrent_file(&bytes("d8:announce")).unwrap_err() {
        ParseError::Decode(_) => {},
        other => panic!("expected a decode error, got {other:?}"),
    }
}

#[test]
fn non_dictionary_top_level_is_a_validation_error() {
    assert_eq!(
        Parser::new().parse_torrent_file(&bytes("i1e")).unwrap_err(),
        ParseError::Validation(ValidationError::NotADictionary)
    );
}

#[test]
fn missing_field_is_a_validation_error() {
    let mut top: Vec<(Vec<u8>, Value)> = Vec::new();
    dict_insert(&mut top, bytes("announce"), Value::Bytes(bytes("http://t.example")));
    let buf = encode(&Value::Dict(top));
    assert_eq!(
        Parser::new().parse_torrent_file(&buf).unwrap_err(),
        ParseError::Validation(ValidationError::MissingField)
    );
}

#[test]
fn wrong_field_tag_is_a_validation_error() {
    let mut top: Vec<(Vec<u8>, Value)> = Vec::new();
    dict_insert(&mut top, bytes("announce"), Value::Int(3));
    dict_insert(&mut top, bytes("info"), Value::Int(4));
    let buf = encode(&Value::Dict(top));
    assert_eq!(
        Parser::new().parse_torrent_file(&buf).unwrap_err(),
        ParseError::Validation(ValidationError::WrongFieldType)
    );
}

#[test]
fn invalid_utf8_announce_is_a_validation_error() {
    let mut top: Vec<(Vec<u8>, Value)> = Vec::new();
    dict_insert(&mut top, bytes("announce"), Value::Bytes(vec![0xffu8, 0xfeu8]));
    let mut info: Vec<(Vec<u8>, Value)> = Vec::new();
    dict_insert(&mut info, bytes("length"), Value::Int(0));
    dict_insert(&mut info, bytes("name"), Value::Bytes(bytes("n")));
    dict_insert(&mut info, bytes("piece length"), Value::Int(1));
    dict_insert(&mut info, bytes("pieces"), Value::Bytes(Vec::new()));
    dict_insert(&mut top, bytes("info"), Value::Dict(info));
    let buf = encode(&Value::Dict(top));
    assert_eq!(
        Parser::new().parse_torrent_file(&buf).unwrap_err(),
        ParseError::Validation(ValidationError::InvalidText)
    );
}

#[test]
fn zero_piece_length_is_rejected() {
    let buf = descriptor_buffer(1000, 0, vec![1u8; 40]);
    assert_eq!(
        Parser::new().parse_torrent_file(&buf).unwrap_err(),
        ParseError::Validation(ValidationError::WrongFieldType)
    );
}
