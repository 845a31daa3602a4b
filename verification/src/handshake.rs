//! The fixed 68-byte peer handshake: message construction and remote
//! identifier extraction. The byte-stream transport itself lives with
//! the caller.
use vstd::prelude::*;

use crate::digest::hex_of;
use crate::digest::bytes_to_hex;

verus! {

/// The 28-byte handshake header: the length prefix 19, the 19-byte
/// protocol name `BitTorrent protocol`, and 8 zero-filled reserved bytes.
pub open spec fn spec_handshake_header() -> Seq<u8> {
    seq![
        19u8,
        66u8,
        105u8,
        116u8,
        84u8,
        111u8,
        114u8,
        114u8,
        101u8,
        110u8,
        116u8,
        32u8,
        112u8,
        114u8,
        111u8,
        116u8,
        111u8,
        99u8,
        111u8,
        108u8,
        0u8,
        0u8,
        0u8,
        0u8,
        0u8,
        0u8,
        0u8,
        0u8,
    ]
}

/// The full 68-byte handshake message: header, resource digest, local
/// session identifier.
pub open spec fn spec_handshake(info_hash: Seq<u8>, peer_id: Seq<u8>) -> Seq<u8> {
    spec_handshake_header() + info_hash + peer_id
}

/// Builds the 68-byte handshake message to write to the peer.
pub fn build_handshake(info_hash: &[u8], peer_id: &[u8]) -> (r: Vec<u8>)
    requires
        info_hash@.len() == 20,
        peer_id@.len() == 20,
    ensures
        r@ == spec_handshake(info_hash@, peer_id@),
        r@.len() == 68,
{
    let mut msg: Vec<u8> = vec![
        19u8,
        66u8,
        105u8,
        116u8,
        84u8,
        111u8,
        114u8,
        114u8,
        101u8,
        110u8,
        116u8,
        32u8,
        112u8,
        114u8,
        111u8,
        116u8,
        111u8,
        99u8,
        111u8,
        108u8,
        0u8,
        0u8,
        0u8,
        0u8,
        0u8,
        0u8,
        0u8,
        0u8,
    ];
    msg.extend_from_slice(info_hash);
    msg.extend_from_slice(peer_id);
    proof {
        assert(msg@ =~= spec_handshake_header() + info_hash@ + peer_id@);
    }
    msg
}

/// The remote peer's self-reported identifier: the last 20 bytes of the
/// 68-byte response, whatever the first 48 bytes hold.
pub fn extract_peer_id(response: &[u8]) -> (r: Vec<u8>)
    requires
        response@.len() == 68,
    ensures
        r@ == response@.subrange(48, 68),
        r@.len() == 20,
{
    let tail = vstd::slice::slice_subrange(response, 48, 68);
    vstd::slice::slice_to_vec(tail)
}

/// The remote identifier rendered as lowercase hex for display.
pub fn peer_id_hex(response: &[u8]) -> (r: String)
    requires
        response@.len() == 68,
    ensures
        r@ == hex_of(response@.subrange(48, 68)),
{
    let id = extract_peer_id(response);
    bytes_to_hex(id.as_slice())
}

} // verus!
