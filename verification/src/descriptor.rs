//! Typed view over a decoded descriptor: the tracker endpoint and the
//! resource metadata (name, total length, block size, block digests).
use vstd::prelude::*;

use crate::codec::DecodeError;
use crate::codec::SpecValue;
use crate::codec::Value;
use crate::codec::bytes_eq;
use crate::codec::decode_all;
use crate::codec::pair_views;
use crate::codec::lemma_pair_views_props;
use crate::codec::spec_decode_all;
use crate::codec::value_view;

verus! {

/// A parsed descriptor: the coordination endpoint and the metadata.
#[derive(Debug)]
pub struct TorrentFile {
    pub announce: String,
    pub info: TorrentInfo,
}

/// Resource metadata. Invariants checked at parse time: `piece_length`
/// is positive, `pieces` is a whole number of 20-byte digests, and the
/// digest count matches `ceil(length / piece_length)`.
#[derive(Debug)]
pub struct TorrentInfo {
    pub length: u64,
    pub name: String,
    pub piece_length: u64,
    pub pieces: Vec<u8>,
}

pub struct SpecTorrentFile {
    pub announce: Seq<char>,
    pub info: SpecTorrentInfo,
}

pub struct SpecTorrentInfo {
    pub length: int,
    pub name: Seq<char>,
    pub piece_length: int,
    pub pieces: Seq<u8>,
}

impl View for TorrentInfo {
    type V = SpecTorrentInfo;

    open spec fn view(&self) -> SpecTorrentInfo {
        SpecTorrentInfo {
            length: self.length as int,
            name: self.name@,
            piece_length: self.piece_length as int,
            pieces: self.pieces@,
        }
    }
}

impl View for TorrentFile {
    type V = SpecTorrentFile;

    open spec fn view(&self) -> SpecTorrentFile {
        SpecTorrentFile { announce: self.announce@, info: self.info@ }
    }
}

/// A structurally valid decode whose content is semantically wrong.
#[derive(Debug, Clone, Copy, PartialEq, Eq)]
pub enum ValidationError {
    /// The top-level value or the metadata field is not a dictionary.
    NotADictionary,
    /// A required field is absent.
    MissingField,
    /// A required field has the wrong tag or an out-of-range integer.
    WrongFieldType,
    /// A text field is not valid UTF-8.
    InvalidText,
    /// `pieces` is not a whole number of 20-byte digests.
    BadDigestsLength,
    /// The digest count does not match `ceil(length / piece_length)`.
    BlockCountMismatch,
}

/// Any way `parse_torrent_file` can fail: the buffer is malformed, or it
/// decodes but does not describe a resource.
#[derive(Debug, Clone, Copy, PartialEq, Eq)]
pub enum ParseError {
    Decode(DecodeError),
    Validation(ValidationError),
}

// Field names as byte strings.
pub open spec fn spec_key_announce() -> Seq<u8> {
    seq![97u8, 110u8, 110u8, 111u8, 117u8, 110u8, 99u8, 101u8]
}

pub open spec fn spec_key_info() -> Seq<u8> {
    seq![105u8, 110u8, 102u8, 111u8]
}

pub open spec fn spec_key_length() -> Seq<u8> {
    seq![108u8, 101u8, 110u8, 103u8, 116u8, 104u8]
}

pub open spec fn spec_key_name() -> Seq<u8> {
    seq![110u8, 97u8, 109u8, 101u8]
}

pub open spec fn spec_key_piece_length() -> Seq<u8> {
    seq![112u8, 105u8, 101u8, 99u8, 101u8, 32u8, 108u8, 101u8, 110u8, 103u8, 116u8, 104u8]
}

pub open spec fn spec_key_pieces() -> Seq<u8> {
    seq![112u8, 105u8, 101u8, 99u8, 101u8, 115u8]
}

/// First value bound to `key`, scanning in stored order.
pub open spec fn spec_dict_get(ps: Seq<(Seq<u8>, SpecValue)>, key: Seq<u8>) -> Option<SpecValue>
    decreases ps.len(),
{
    if ps.len() == 0 {
        None
    } else if ps[0].0 == key {
        Some(ps[0].1)
    } else {
        spec_dict_get(ps.drop_first(), key)
    }
}

/// Number of blocks implied by a total length and a block size:
/// `ceil(length / piece_length)`.
pub open spec fn spec_block_count(length: int, piece_length: int) -> int
    recommends
        piece_length >= 1,
{
    length / piece_length + if length % piece_length == 0 {
        0int
    } else {
        1int
    }
}

/// The metadata invariants: positive block size, digests a whole number
/// of 20-byte values, and the digest count matching the block count.
pub open spec fn spec_info_valid(si: SpecTorrentInfo) -> bool {
    &&& si.piece_length >= 1
    &&& si.pieces.len() % 20 == 0
    &&& spec_block_count(si.length, si.piece_length) == si.pieces.len() as int / 20
}

/// Projects the metadata dictionary into `SpecTorrentInfo`.
pub open spec fn spec_project_info(ps: Seq<(Seq<u8>, SpecValue)>) -> Option<SpecTorrentInfo> {
    match spec_dict_get(ps, spec_key_length()) {
        Option::Some(SpecValue::Int(l)) => if l < 0 {
            None
        } else {
            match spec_dict_get(ps, spec_key_name()) {
                Option::Some(SpecValue::Bytes(nb)) => if !vstd::utf8::valid_utf8(nb) {
                    None
                } else {
                    match spec_dict_get(ps, spec_key_piece_length()) {
                        Option::Some(SpecValue::Int(pl)) => if pl < 1 {
                            None
                        } else {
                            match spec_dict_get(ps, spec_key_pieces()) {
                                Option::Some(SpecValue::Bytes(pb)) => {
                                    let si = SpecTorrentInfo {
                                        length: l,
                                        name: vstd::utf8::decode_utf8(nb),
                                        piece_length: pl,
                                        pieces: pb,
                                    };
                                    if spec_info_valid(si) {
                                        Some(si)
                                    } else {
                                        None
                                    }
                                },
                                _ => None,
                            }
                        },
                        _ => None,
                    }
                },
                _ => None,
            }
        },
        _ => None,
    }
}

/// Projects a decoded value into `SpecTorrentFile`.
pub open spec fn spec_project(v: SpecValue) -> Option<SpecTorrentFile> {
    match v {
        SpecValue::Dict(ps) => match spec_dict_get(ps, spec_key_announce()) {
            Option::Some(SpecValue::Bytes(ab)) => if !vstd::utf8::valid_utf8(ab) {
                None
            } else {
                match spec_dict_get(ps, spec_key_info()) {
                    Option::Some(SpecValue::Dict(ips)) => match spec_project_info(ips) {
                        Option::Some(si) => Some(
                            SpecTorrentFile { announce: vstd::utf8::decode_utf8(ab), info: si },
                        ),
                        Option::None => None,
                    },
                    _ => None,
                }
            },
            _ => None,
        },
        _ => None,
    }
}

/// What parsing a whole buffer yields: decode, then project.
pub open spec fn spec_parse(bytes: Seq<u8>) -> Option<SpecTorrentFile> {
    match spec_decode_all(bytes) {
        Option::Some(v) => spec_project(v),
        Option::None => None,
    }
}

/// Looks a key up in a decoded dictionary, in stored order.
pub fn dict_get<'a>(pairs: &'a Vec<(Vec<u8>, Value)>, key: &Vec<u8>) -> (r: Option<&'a Value>)
    ensures
        match r {
            Option::Some(v) => spec_dict_get(pair_views(pairs@), key@) == Some(v@),
            Option::None => spec_dict_get(pair_views(pairs@), key@) is None,
        },
{
    proof {
        lemma_pair_views_props(pairs@);
    }
    let ghost pv = pair_views(pairs@);
    let mut idx: usize = 0;
    proof {
        assert(pv.skip(0) =~= pv);
    }
    while idx < pairs.len()
        invariant
            0 <= idx <= pairs@.len(),
            pv == pair_views(pairs@),
            pv.len() == pairs@.len(),
            forall|k: int|
                0 <= k < pairs@.len() ==> pv[k] == ((#[trigger] pairs@[k]).0@, value_view(
                    pairs@[k].1,
                )),
            spec_dict_get(pv, key@) == spec_dict_get(pv.skip(idx as int), key@),
        decreases pairs@.len() - idx,
    {
        proof {
            assert(pv.skip(idx as int)[0] == pv[idx as int]);
            assert(pv.skip(idx as int).drop_first() =~= pv.skip(idx as int + 1));
        }
        if bytes_eq(&pairs[idx].0, key) {
            return Some(&pairs[idx].1);
        }
        idx = idx + 1;
    }
    proof {
        assert(pv.skip(idx as int) =~= Seq::<(Seq<u8>, SpecValue)>::empty());
    }
    None
}

/// Relies on `String::from_utf8`: it returns `Ok` exactly on valid UTF-8,
/// and the resulting string's characters are the decoded scalar values.
#[verifier::external_body]
pub(crate) fn utf8_to_string(v: Vec<u8>) -> (r: Option<String>)
    ensures
        r is Some <==> vstd::utf8::valid_utf8(v@),
        r matches Some(s) ==> s@ == vstd::utf8::decode_utf8(v@),
{
    match String::from_utf8(v) {
        Ok(s) => Some(s),
        Err(_) => None,
    }
}

pub fn key_announce() -> (r: Vec<u8>)
    ensures
        r@ == spec_key_announce(),
{
    let v = vec![97u8, 110u8, 110u8, 111u8, 117u8, 110u8, 99u8, 101u8];
    v
}

pub fn key_info() -> (r: Vec<u8>)
    ensures
        r@ == spec_key_info(),
{
    let v = vec![105u8, 110u8, 102u8, 111u8];
    v
}

pub fn key_length() -> (r: Vec<u8>)
    ensures
        r@ == spec_key_length(),
{
    let v = vec![108u8, 101u8, 110u8, 103u8, 116u8, 104u8];
    v
}

pub fn key_name() -> (r: Vec<u8>)
    ensures
        r@ == spec_key_name(),
{
    let v = vec![110u8, 97u8, 109u8, 101u8];
    v
}

pub fn key_piece_length() -> (r: Vec<u8>)
    ensures
        r@ == spec_key_piece_length(),
{
    let v = vec![
        112u8,
        105u8,
        101u8,
        99u8,
        101u8,
        32u8,
        108u8,
        101u8,
        110u8,
        103u8,
        116u8,
        104u8,
    ];
    v
}

pub fn key_pieces() -> (r: Vec<u8>)
    ensures
        r@ == spec_key_pieces(),
{
    let v = vec![112u8, 105u8, 101u8, 99u8, 101u8, 115u8];
    v
}

/// Parses descriptors out of complete in-memory buffers.
#[derive(Debug, Default)]
pub struct Parser {}

impl Parser {
    pub fn new() -> (r: Self) {
        Parser {  }
    }

    /// Decodes a complete buffer and projects it into a `TorrentFile`.
    /// Succeeds exactly when the buffer is canonically formed and carries
    /// every required field with valid content; a malformed buffer is a
    /// `Decode` error, a well-formed buffer with wrong content a
    /// `Validation` error.
    pub fn parse_torrent_file(&mut self, input: &[u8]) -> (r: Result<TorrentFile, ParseError>)
        ensures
            r matches Ok(tf) ==> spec_parse(input@) == Some(tf@),
            r is Err ==> spec_parse(input@) is None,
            r matches Err(ParseError::Decode(_)) <==> spec_decode_all(input@) is None,
    {
        let top = match decode_all(input) {
            Ok(v) => v,
            Err(e) => {
                return Err(ParseError::Decode(e));
            },
        };
        let pairs = match &top {
            Value::Dict(pairs) => pairs,
            _ => {
                return Err(ParseError::Validation(ValidationError::NotADictionary));
            },
        };
        let announce_bytes = match dict_get(pairs, &key_announce()) {
            Some(Value::Bytes(ab)) => vstd::slice::slice_to_vec(ab.as_slice()),
            Some(_) => {
                return Err(ParseError::Validation(ValidationError::WrongFieldType));
            },
            None => {
                return Err(ParseError::Validation(ValidationError::MissingField));
            },
        };
        let announce = match utf8_to_string(announce_bytes) {
            Some(a) => a,
            None => {
                return Err(ParseError::Validation(ValidationError::InvalidText));
            },
        };
        let ipairs = match dict_get(pairs, &key_info()) {
            Some(Value::Dict(ipairs)) => ipairs,
            Some(_) => {
                return Err(ParseError::Validation(ValidationError::WrongFieldType));
            },
            None => {
                return Err(ParseError::Validation(ValidationError::MissingField));
            },
        };
        let length = match dict_get(ipairs, &key_length()) {
            Some(Value::Int(l)) => {
                if *l < 0 {
                    return Err(ParseError::Validation(ValidationError::WrongFieldType));
                }
                *l as u64
            },
            Some(_) => {
                return Err(ParseError::Validation(ValidationError::WrongFieldType));
            },
            None => {
                return Err(ParseError::Validation(ValidationError::MissingField));
            },
        };
        let name_bytes = match dict_get(ipairs, &key_name()) {
            Some(Value::Bytes(nb)) => vstd::slice::slice_to_vec(nb.as_slice()),
            Some(_) => {
                return Err(ParseError::Validation(ValidationError::WrongFieldType));
            },
            None => {
                return Err(ParseError::Validation(ValidationError::MissingField));
            },
        };
        let name = match utf8_to_string(name_bytes) {
            Some(n) => n,
            None => {
                return Err(ParseError::Validation(ValidationError::InvalidText));
            },
        };
        let piece_length = match dict_get(ipairs, &key_piece_length()) {
            Some(Value::Int(pl)) => {
                if *pl < 1 {
                    return Err(ParseError::Validation(ValidationError::WrongFieldType));
                }
                *pl as u64
            },
            Some(_) => {
                return Err(ParseError::Validation(ValidationError::WrongFieldType));
            },
            None => {
                return Err(ParseError::Validation(ValidationError::MissingField));
            },
        };
        let pieces = match dict_get(ipairs, &key_pieces()) {
            Some(Value::Bytes(pb)) => vstd::slice::slice_to_vec(pb.as_slice()),
            Some(_) => {
                return Err(ParseError::Validation(ValidationError::WrongFieldType));
            },
            None => {
                return Err(ParseError::Validation(ValidationError::MissingField));
            },
        };
        if pieces.len() as u64 % 20 != 0 {
            return Err(ParseError::Validation(ValidationError::BadDigestsLength));
        }
        let blocks = length / piece_length + (if length % piece_length != 0 {
            1u64
        } else {
            0u64
        });
        if blocks != pieces.len() as u64 / 20 {
            return Err(ParseError::Validation(ValidationError::BlockCountMismatch));
        }
        let info = TorrentInfo { length, name, piece_length, pieces };
        let tf = TorrentFile { announce, info };
        Ok(tf)
    }
}

/// Every descriptor that parses satisfies the metadata invariants: the
/// block size is positive, the digest buffer is a whole number of
/// 20-byte digests, and the digest count equals the block count implied
/// by the total length and block size.
pub proof fn lemma_parsed_metadata_valid(bytes: Seq<u8>)
    ensures
        spec_parse(bytes) matches Some(t) ==> spec_info_valid(t.info),
{
}

} // verus!
