//! Coordination-service protocol: the announce request URL, the decoded
//! response, and the compact peer list.
use vstd::prelude::*;
use vstd::string::StringExecFns;

use crate::codec::SpecValue;
use crate::codec::Value;
use crate::codec::decode_all;
use crate::codec::DecodeError;
use crate::codec::dec_digits;
use crate::codec::u64_to_dec;
use crate::codec::spec_decode_all;
use crate::descriptor::spec_dict_get;
use crate::descriptor::dict_get;
use crate::digest::pct_of;
use crate::digest::bytes_to_hex_url_encoded;

verus! {

/// One peer endpoint from the compact list: a 4-byte IPv4 address and a
/// big-endian 16-bit port.
#[derive(Debug, Clone, Copy, PartialEq, Eq)]
pub struct PeerAddress {
    pub ip: [u8; 4],
    pub port: u16,
}

/// Why peer discovery data could not be used.
#[derive(Debug, Clone, Copy, PartialEq, Eq)]
pub enum TrackerError {
    /// The response body is not in the serialization format.
    Decode(DecodeError),
    /// The response is not a dictionary.
    NotADictionary,
    /// The response has no `peers` field.
    MissingPeers,
    /// The `peers` field is not a byte string.
    WrongPeersType,
    /// The compact peer list is not a whole number of 6-byte entries.
    BadPeersLength,
}

pub open spec fn spec_key_peers() -> Seq<u8> {
    seq![112u8, 101u8, 101u8, 114u8, 115u8]
}

/// The decimal characters of a number.
pub open spec fn dec_chars(n: nat) -> Seq<char> {
    Seq::new(dec_digits(n).len(), |i: int| dec_digits(n)[i] as char)
}

/// Renders a number as decimal text.
pub fn dec_string(n: u64) -> (r: String)
    ensures
        r@ == dec_chars(n as nat),
{
    let digits = u64_to_dec(n);
    let mut out = String::new();
    let mut idx: usize = 0;
    while idx < digits.len()
        invariant
            0 <= idx <= digits@.len(),
            digits@ == dec_digits(n as nat),
            out@ == dec_chars(n as nat).take(idx as int),
        decreases digits@.len() - idx,
    {
        let c = digits[idx] as char;
        crate::digest::push_char(&mut out, c);
        proof {
            assert(dec_chars(n as nat)[idx as int] == c);
            assert(dec_chars(n as nat).take(idx + 1) =~= dec_chars(n as nat).take(idx as int)
                + seq![c]);
        }
        idx = idx + 1;
    }
    proof {
        assert(dec_chars(n as nat).take(idx as int) =~= dec_chars(n as nat));
    }
    out
}

/// The GET request URL for peer discovery: the percent-encoded digest and
/// the fixed session parameters, appended to the coordination endpoint.
pub fn tracker_request_url(
    announce: &String,
    info_hash: &[u8],
    peer_id: &String,
    port: u16,
    left: u64,
) -> (r: String)
    ensures
        r@ == announce@ + "?info_hash="@ + pct_of(info_hash@) + "&peer_id="@ + peer_id@ + "&port="@
            + dec_chars(port as nat) + "&uploaded=0&downloaded=0&left="@ + dec_chars(left as nat)
            + "&compact=1"@,
{
    let mut url = String::new();
    url.append(announce.as_str());
    url.append("?info_hash=");
    let pct = bytes_to_hex_url_encoded(info_hash);
    url.append(pct.as_str());
    url.append("&peer_id=");
    url.append(peer_id.as_str());
    url.append("&port=");
    let ports = dec_string(port as u64);
    url.append(ports.as_str());
    url.append("&uploaded=0&downloaded=0&left=");
    let lefts = dec_string(left);
    url.append(lefts.as_str());
    url.append("&compact=1");
    proof {
        assert(url@ =~= announce@ + "?info_hash="@ + pct_of(info_hash@) + "&peer_id="@ + peer_id@
            + "&port="@ + dec_chars(port as nat) + "&uploaded=0&downloaded=0&left="@ + dec_chars(
            left as nat,
        ) + "&compact=1"@);
    }
    url
}

/// What a coordination response yields: the compact peer bytes, present
/// exactly when the body decodes to a dictionary with a byte-string
/// `peers` field whose length is a multiple of 6.
pub open spec fn spec_tracker_peers(bytes: Seq<u8>) -> Option<Seq<u8>> {
    match spec_decode_all(bytes) {
        Option::Some(SpecValue::Dict(ps)) => match spec_dict_get(ps, spec_key_peers()) {
            Option::Some(SpecValue::Bytes(pb)) => if pb.len() % 6 == 0 {
                Some(pb)
            } else {
                None
            },
            _ => None,
        },
        _ => None,
    }
}

fn key_peers() -> (r: Vec<u8>)
    ensures
        r@ == spec_key_peers(),
{
    let v = vec![112u8, 101u8, 101u8, 114u8, 115u8];
    v
}

/// Extracts the compact peer bytes from a coordination response body.
pub fn parse_tracker_response(body: &[u8]) -> (r: Result<Vec<u8>, TrackerError>)
    ensures
        r matches Ok(pb) ==> spec_tracker_peers(body@) == Some(pb@),
        r is Err ==> spec_tracker_peers(body@) is None,
{
    let top = match decode_all(body) {
        Ok(v) => v,
        Err(e) => {
            return Err(TrackerError::Decode(e));
        },
    };
    let pairs = match &top {
        Value::Dict(pairs) => pairs,
        _ => {
            return Err(TrackerError::NotADictionary);
        },
    };
    let peers = match dict_get(pairs, &key_peers()) {
        Some(Value::Bytes(pb)) => vstd::slice::slice_to_vec(pb.as_slice()),
        Some(_) => {
            return Err(TrackerError::WrongPeersType);
        },
        None => {
            return Err(TrackerError::MissingPeers);
        },
    };
    if peers.len() % 6 != 0 {
        return Err(TrackerError::BadPeersLength);
    }
    Ok(peers)
}

/// Parses a compact peer list: each 6-byte group is a 4-byte IPv4
/// address followed by a big-endian port, in encounter order, duplicates
/// kept.
pub fn parse_compact_peers(peers: &[u8]) -> (r: Result<Vec<PeerAddress>, TrackerError>)
    ensures
        r matches Ok(v) ==> peers@.len() % 6 == 0 && v@.len() == peers@.len() / 6 && forall|k: int|
            0 <= k < v@.len() ==> (#[trigger] v@[k]).ip@ == peers@.subrange(6 * k, 6 * k + 4)
                && v@[k].port == 256 * (peers@[6 * k + 4] as int) + (peers@[6 * k + 5] as int),
        r is Err <==> peers@.len() % 6 != 0,
{
    if peers.len() % 6 != 0 {
        return Err(TrackerError::BadPeersLength);
    }
    let plen = peers.len();
    let n = plen / 6;
    let mut out: Vec<PeerAddress> = Vec::new();
    let mut idx: usize = 0;
    while idx < n
        invariant
            0 <= idx <= n,
            plen == peers@.len(),
            n == peers@.len() / 6,
            peers@.len() % 6 == 0,
            out@.len() == idx,
            forall|k: int|
                0 <= k < idx ==> (#[trigger] out@[k]).ip@ == peers@.subrange(6 * k, 6 * k + 4)
                    && out@[k].port == 256 * (peers@[6 * k + 4] as int) + (peers@[6 * k
                    + 5] as int),
        decreases n - idx,
    {
        proof {
            assert(6 * (n as int) == peers@.len());
            assert(6 * (idx as int) + 6 <= 6 * (n as int)) by (nonlinear_arith)
                requires
                    idx < n,
            ;
        }
        let b = 6 * idx;
        let ip: [u8; 4] = [peers[b], peers[b + 1], peers[b + 2], peers[b + 3]];
        let port: u16 = 256 * (peers[b + 4] as u16) + (peers[b + 5] as u16);
        let addr = PeerAddress { ip, port };
        proof {
            assert(addr.ip@ =~= peers@.subrange(6 * idx as int, 6 * idx as int + 4));
        }
        out.push(addr);
        idx = idx + 1;
    }
    Ok(out)
}

/// Decodes a coordination response body all the way to peer addresses:
/// the compact `peers` bytes extracted and split into 6-byte entries.
pub fn peers_from_response(body: &[u8]) -> (r: Result<Vec<PeerAddress>, TrackerError>)
    ensures
        r matches Ok(v) ==> spec_tracker_peers(body@) matches Some(pb) && v@.len() == pb.len() / 6
            && forall|k: int|
            0 <= k < v@.len() ==> (#[trigger] v@[k]).ip@ == pb.subrange(6 * k, 6 * k + 4)
                && v@[k].port == 256 * (pb[6 * k + 4] as int) + (pb[6 * k + 5] as int),
        r is Err ==> spec_tracker_peers(body@) is None,
{
    let peers_bytes = match parse_tracker_response(body) {
        Ok(pb) => pb,
        Err(e) => {
            return Err(e);
        },
    };
    parse_compact_peers(peers_bytes.as_slice())
}

} // verus!
