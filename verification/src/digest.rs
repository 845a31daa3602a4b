//! Digest derivation: the content digest over the canonical metadata
//! encoding, its hex and percent-encoded transport forms, and the
//! per-block digest sequence.
use vstd::prelude::*;
use vstd::string::StrSliceExecFns;

use crate::codec::SpecValue;
use crate::codec::Value;
use crate::codec::encode;
use crate::codec::lemma_pair_views_push;
use crate::codec::pair_views;
use crate::codec::spec_encode;
use crate::descriptor::SpecTorrentInfo;
use crate::descriptor::TorrentInfo;
use crate::descriptor::spec_key_length;
use crate::descriptor::spec_key_name;
use crate::descriptor::spec_key_piece_length;
use crate::descriptor::spec_key_pieces;

verus! {

/// The SHA-1 digest of a byte sequence, as the `sha1` crate computes it.
/// It is a function of the input alone; its definition is not spelled out
/// here, only used as a name.
pub uninterp spec fn sha1_of(b: Seq<u8>) -> Seq<u8>;

/// Relies on `sha1::Sha1`: the digest depends on the input bytes alone
/// and is exactly 20 bytes (160 bits) long.
#[verifier::external_body]
pub(crate) fn hash_bytes(b: &[u8]) -> (r: Vec<u8>)
    ensures
        r@ == sha1_of(b@),
        r@.len() == 20,
{
    let mut h: sha1::Sha1 = sha1::Digest::new();
    sha1::Digest::update(&mut h, b);
    let out = sha1::Digest::finalize(h);
    out.to_vec()
}

/// Relies on `String::push`: appends exactly one character.
#[verifier::external_body]
pub(crate) fn push_char(s: &mut String, c: char)
    ensures
        final(s)@ == old(s)@ + seq![c],
{
    s.push(c);
}

/// The lowercase hex character for one value below 16.
pub open spec fn spec_hex_digit(d: u8) -> char
    recommends
        d < 16,
{
    if d == 0 {
        '0'
    } else if d == 1 {
        '1'
    } else if d == 2 {
        '2'
    } else if d == 3 {
        '3'
    } else if d == 4 {
        '4'
    } else if d == 5 {
        '5'
    } else if d == 6 {
        '6'
    } else if d == 7 {
        '7'
    } else if d == 8 {
        '8'
    } else if d == 9 {
        '9'
    } else if d == 10 {
        'a'
    } else if d == 11 {
        'b'
    } else if d == 12 {
        'c'
    } else if d == 13 {
        'd'
    } else if d == 14 {
        'e'
    } else {
        'f'
    }
}

/// Lowercase hex rendering: two characters for each byte.
pub open spec fn hex_of(b: Seq<u8>) -> Seq<char> {
    Seq::new(
        2 * b.len(),
        |i: int|
            if i % 2 == 0 {
                spec_hex_digit(b[i / 2] / 16)
            } else {
                spec_hex_digit(b[i / 2] % 16)
            },
    )
}

/// Percent-encoded rendering: `%` and two lowercase hex characters for
/// every byte, URL-safe or not.
pub open spec fn pct_of(b: Seq<u8>) -> Seq<char> {
    Seq::new(
        3 * b.len(),
        |i: int|
            if i % 3 == 0 {
                '%'
            } else if i % 3 == 1 {
                spec_hex_digit(b[i / 3] / 16)
            } else {
                spec_hex_digit(b[i / 3] % 16)
            },
    )
}

fn hex_digit(d: u8) -> (c: char)
    requires
        d < 16,
    ensures
        c == spec_hex_digit(d),
{
    if d == 0 {
        '0'
    } else if d == 1 {
        '1'
    } else if d == 2 {
        '2'
    } else if d == 3 {
        '3'
    } else if d == 4 {
        '4'
    } else if d == 5 {
        '5'
    } else if d == 6 {
        '6'
    } else if d == 7 {
        '7'
    } else if d == 8 {
        '8'
    } else if d == 9 {
        '9'
    } else if d == 10 {
        'a'
    } else if d == 11 {
        'b'
    } else if d == 12 {
        'c'
    } else if d == 13 {
        'd'
    } else if d == 14 {
        'e'
    } else {
        'f'
    }
}

/// Renders bytes as lowercase hex.
pub fn bytes_to_hex(b: &[u8]) -> (r: String)
    ensures
        r@ == hex_of(b@),
{
    let mut out = String::new();
    let mut idx: usize = 0;
    while idx < b.len()
        invariant
            0 <= idx <= b@.len(),
            out@ == hex_of(b@).take(2 * idx as int),
        decreases b@.len() - idx,
    {
        let hi = b[idx] / 16;
        let lo = b[idx] % 16;
        push_char(&mut out, hex_digit(hi));
        push_char(&mut out, hex_digit(lo));
        proof {
            assert(hex_of(b@).take(2 * (idx + 1) as int) =~= hex_of(b@).take(2 * idx as int)
                + seq![spec_hex_digit(hi), spec_hex_digit(lo)]) by {
                assert(hex_of(b@)[2 * idx as int] == spec_hex_digit(hi));
                assert(hex_of(b@)[2 * idx as int + 1] == spec_hex_digit(lo));
            }
            assert(out@ =~= hex_of(b@).take(2 * idx as int) + seq![
                spec_hex_digit(hi),
                spec_hex_digit(lo),
            ]);
        }
        idx = idx + 1;
    }
    proof {
        assert(hex_of(b@).take(2 * idx as int) =~= hex_of(b@));
    }
    out
}

/// Renders bytes as a percent-encoded query value: every byte becomes
/// `%` plus two lowercase hex digits.
pub fn bytes_to_hex_url_encoded(b: &[u8]) -> (r: String)
    ensures
        r@ == pct_of(b@),
{
    let mut out = String::new();
    let mut idx: usize = 0;
    while idx < b.len()
        invariant
            0 <= idx <= b@.len(),
            out@ == pct_of(b@).take(3 * idx as int),
        decreases b@.len() - idx,
    {
        let hi = b[idx] / 16;
        let lo = b[idx] % 16;
        push_char(&mut out, '%');
        push_char(&mut out, hex_digit(hi));
        push_char(&mut out, hex_digit(lo));
        proof {
            assert(pct_of(b@).take(3 * (idx + 1) as int) =~= pct_of(b@).take(3 * idx as int)
                + seq!['%', spec_hex_digit(hi), spec_hex_digit(lo)]) by {
                assert(pct_of(b@)[3 * idx as int] == '%');
                assert(pct_of(b@)[3 * idx as int + 1] == spec_hex_digit(hi));
                assert(pct_of(b@)[3 * idx as int + 2] == spec_hex_digit(lo));
            }
            assert(out@ =~= pct_of(b@).take(3 * idx as int) + seq![
                '%',
                spec_hex_digit(hi),
                spec_hex_digit(lo),
            ]);
        }
        idx = idx + 1;
    }
    proof {
        assert(pct_of(b@).take(3 * idx as int) =~= pct_of(b@));
    }
    out
}

/// SHA-1 digest rendered as lowercase hex.
pub fn hash_bytes_and_hex(b: &[u8]) -> (r: String)
    ensures
        r@ == hex_of(sha1_of(b@)),
{
    let h = hash_bytes(b);
    bytes_to_hex(h.as_slice())
}

/// The metadata dictionary as a value tree, with its four fields in
/// canonical (ascending) key order.
pub open spec fn spec_info_value(si: SpecTorrentInfo) -> SpecValue {
    SpecValue::Dict(
        seq![
            (spec_key_length(), SpecValue::Int(si.length)),
            (spec_key_name(), SpecValue::Bytes(vstd::utf8::encode_utf8(si.name))),
            (spec_key_piece_length(), SpecValue::Int(si.piece_length)),
            (spec_key_pieces(), SpecValue::Bytes(si.pieces)),
        ],
    )
}

/// Rebuilds the metadata sub-structure as a value tree for canonical
/// re-encoding. Field values must fit the format's signed 64-bit
/// integers.
pub fn info_to_value(info: &TorrentInfo) -> (r: Value)
    requires
        info@.length <= 0x7fff_ffff_ffff_ffff,
        info@.piece_length <= 0x7fff_ffff_ffff_ffff,
    ensures
        r@ == spec_info_value(info@),
{
    let mut pairs: Vec<(Vec<u8>, Value)> = Vec::new();
    let k1 = crate::descriptor::key_length();
    let k2 = crate::descriptor::key_name();
    let k3 = crate::descriptor::key_piece_length();
    let k4 = crate::descriptor::key_pieces();
    let name_bytes = info.name.as_str().as_bytes_vec();
    let pieces_copy = vstd::slice::slice_to_vec(info.pieces.as_slice());
    proof {
        lemma_pair_views_push(pairs@, k1, Value::Int(info.length as i64));
    }
    pairs.push((k1, Value::Int(info.length as i64)));
    proof {
        lemma_pair_views_push(pairs@, k2, Value::Bytes(name_bytes));
    }
    let v2 = Value::Bytes(name_bytes);
    pairs.push((k2, v2));
    proof {
        lemma_pair_views_push(pairs@, k3, Value::Int(info.piece_length as i64));
    }
    pairs.push((k3, Value::Int(info.piece_length as i64)));
    proof {
        lemma_pair_views_push(pairs@, k4, Value::Bytes(pieces_copy));
    }
    let v4 = Value::Bytes(pieces_copy);
    pairs.push((k4, v4));
    proof {
        assert(pair_views(pairs@) =~= seq![
            (spec_key_length(), SpecValue::Int(info@.length)),
            (spec_key_name(), SpecValue::Bytes(vstd::utf8::encode_utf8(info@.name))),
            (spec_key_piece_length(), SpecValue::Int(info@.piece_length)),
            (spec_key_pieces(), SpecValue::Bytes(info@.pieces)),
        ]);
    }
    Value::Dict(pairs)
}

/// The content digest: SHA-1 over the canonical re-encoding of the
/// metadata sub-structure (never over bytes sliced from the original
/// input).
pub fn info_hash(info: &TorrentInfo) -> (r: Vec<u8>)
    requires
        info@.length <= 0x7fff_ffff_ffff_ffff,
        info@.piece_length <= 0x7fff_ffff_ffff_ffff,
    ensures
        r@ == sha1_of(spec_encode(spec_info_value(info@))),
        r@.len() == 20,
{
    let v = info_to_value(info);
    let enc = encode(&v);
    hash_bytes(enc.as_slice())
}

/// The digest is a function of the logical metadata alone: two buffers
/// whose parses agree on the metadata structure yield the same digest,
/// because the digest is taken over the canonical re-encoding and never
/// over bytes sliced from either original buffer.
pub proof fn lemma_digest_deterministic(b1: Seq<u8>, b2: Seq<u8>)
    requires
        crate::descriptor::spec_parse(b1) is Some,
        crate::descriptor::spec_parse(b2) is Some,
        crate::descriptor::spec_parse(b1)->Some_0.info == crate::descriptor::spec_parse(
            b2,
        )->Some_0.info,
    ensures
        sha1_of(spec_encode(spec_info_value(crate::descriptor::spec_parse(b1)->Some_0.info)))
            == sha1_of(
            spec_encode(spec_info_value(crate::descriptor::spec_parse(b2)->Some_0.info)),
        ),
{
}

/// Splits `pieces` into its consecutive 20-byte block digests.
pub fn piece_hashes(info: &TorrentInfo) -> (r: Vec<Vec<u8>>)
    requires
        info@.pieces.len() % 20 == 0,
    ensures
        r@.len() == info@.pieces.len() / 20,
        forall|k: int|
            0 <= k < r@.len() ==> (#[trigger] r@[k])@ == info@.pieces.subrange(
                20 * k,
                20 * k + 20,
            ),
{
    let mut out: Vec<Vec<u8>> = Vec::new();
    let plen = info.pieces.len();
    let n = plen / 20;
    let mut idx: usize = 0;
    while idx < n
        invariant
            0 <= idx <= n,
            plen == info@.pieces.len(),
            n == info@.pieces.len() / 20,
            info@.pieces.len() % 20 == 0,
            out@.len() == idx,
            forall|k: int|
                0 <= k < idx ==> (#[trigger] out@[k])@ == info@.pieces.subrange(
                    20 * k,
                    20 * k + 20,
                ),
        decreases n - idx,
    {
        proof {
            assert(20 * (n as int) == info@.pieces.len());
            assert(20 * (idx as int) + 20 <= 20 * (n as int)) by (nonlinear_arith)
                requires
                    idx < n,
            ;
        }
        let chunk = vstd::slice::slice_subrange(info.pieces.as_slice(), 20 * idx, 20 * idx + 20);
        let piece = vstd::slice::slice_to_vec(chunk);
        out.push(piece);
        idx = idx + 1;
    }
    out
}

} // verus!
