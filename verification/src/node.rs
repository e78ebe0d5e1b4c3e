//! Network addresses, compact nodes, and their 6- and 26-byte wire forms.

use vstd::prelude::*;

verus! {

use crate::error::DecodeError;
use crate::identifier::{
    be_value, decode_id, encode_id, lemma_id_bytes_value, lemma_id_round_trip, spec_id_bytes,
    spec_id_of, NodeIdentifier,
};
use vstd::arithmetic::div_mod::lemma_fundamental_div_mod;
use vstd::slice::slice_subrange;

/// An IPv4 endpoint: four address octets and a port.
#[derive(Clone, Copy, PartialEq, Eq, Structural, Debug, Hash)]
pub struct NetworkAddress {
    pub oct0: u8,
    pub oct1: u8,
    pub oct2: u8,
    pub oct3: u8,
    pub port: u16,
}

/// A node: its 160-bit identifier together with its network address.
#[derive(Clone, Copy, PartialEq, Eq, Structural, Debug, Hash)]
pub struct CompactNode {
    pub id: NodeIdentifier,
    pub address: NetworkAddress,
}

/// The 6-byte form of an address: the four octets, then the port big-endian.
pub open spec fn spec_addr_bytes(a: NetworkAddress) -> Seq<u8> {
    seq![a.oct0, a.oct1, a.oct2, a.oct3, (a.port / 256) as u8, (a.port % 256) as u8]
}

/// The address a 6-byte string denotes.
pub open spec fn spec_addr_of(b: Seq<u8>) -> NetworkAddress {
    NetworkAddress {
        oct0: b[0],
        oct1: b[1],
        oct2: b[2],
        oct3: b[3],
        port: (b[4] * 256 + b[5]) as u16,
    }
}

/// The 26-byte compact form of a node: 20 identifier bytes, then 6 address
/// bytes.
pub open spec fn spec_node_bytes(n: CompactNode) -> Seq<u8> {
    spec_id_bytes(n.id) + spec_addr_bytes(n.address)
}

/// The node a 26-byte string denotes.
pub open spec fn spec_node_of(b: Seq<u8>) -> CompactNode {
    CompactNode {
        id: spec_id_of(be_value(b.subrange(0, 20))),
        address: spec_addr_of(b.subrange(20, 26)),
    }
}

/// What decoding an arbitrary byte string as a compact node yields: the
/// denoted node for exactly 26 bytes, and a length error for anything else.
pub open spec fn spec_decode_node(b: Seq<u8>) -> Result<CompactNode, DecodeError> {
    if b.len() == 26 {
        Ok(spec_node_of(b))
    } else {
        Err(DecodeError::InvalidLength)
    }
}

/// Packs an address into its 6-byte form.
pub fn encode_address(a: &NetworkAddress) -> (r: Vec<u8>)
    ensures
        r@ == spec_addr_bytes(*a),
{
    let mut out: Vec<u8> = Vec::new();
    out.push(a.oct0);
    out.push(a.oct1);
    out.push(a.oct2);
    out.push(a.oct3);
    out.push((a.port / 256) as u8);
    out.push((a.port % 256) as u8);
    proof {
        assert(out@ =~= spec_addr_bytes(*a));
    }
    out
}

/// Unpacks a 6-byte string into the address it denotes.
pub fn decode_address(bytes: &[u8]) -> (r: NetworkAddress)
    requires
        bytes@.len() == 6,
    ensures
        r == spec_addr_of(bytes@),
{
    NetworkAddress {
        oct0: bytes[0],
        oct1: bytes[1],
        oct2: bytes[2],
        oct3: bytes[3],
        port: (bytes[4] as u16) * 256 + (bytes[5] as u16),
    }
}

/// Packs a node into its 26-byte compact form.
pub fn encode_node(n: &CompactNode) -> (r: Vec<u8>)
    ensures
        r@ == spec_node_bytes(*n),
        r@.len() == 26,
{
    let mut out = encode_id(&n.id);
    let mut tail = encode_address(&n.address);
    out.append(&mut tail);
    proof {
        lemma_id_bytes_value(n.id);
        assert(out@ =~= spec_node_bytes(*n));
    }
    out
}

/// Unpacks a byte string into the node it denotes. Any byte string whose
/// length is not exactly 26 is rejected wholesale with `InvalidLength`.
pub fn decode_node(bytes: &[u8]) -> (r: Result<CompactNode, DecodeError>)
    ensures
        r == spec_decode_node(bytes@),
{
    if bytes.len() != 26 {
        return Err(DecodeError::InvalidLength);
    }
    let id = decode_id(slice_subrange(bytes, 0, 20));
    let address = decode_address(slice_subrange(bytes, 20, 26));
    Ok(CompactNode { id, address })
}

/// The port is recovered from its two big-endian bytes.
pub proof fn lemma_address_round_trip(a: NetworkAddress)
    ensures
        spec_addr_bytes(a).len() == 6,
        spec_addr_of(spec_addr_bytes(a)) == a,
{
    lemma_fundamental_div_mod(a.port as int, 256);
}

/// Law: compact node round trip. Encoding a node yields exactly 26 bytes,
/// and decoding them yields the node again.
pub proof fn lemma_node_round_trip(n: CompactNode)
    ensures
        spec_node_bytes(n).len() == 26,
        spec_decode_node(spec_node_bytes(n)) == Ok::<CompactNode, DecodeError>(n),
{
    lemma_id_bytes_value(n.id);
    lemma_id_round_trip(n.id);
    lemma_address_round_trip(n.address);
    assert(spec_node_bytes(n).subrange(0, 20) =~= spec_id_bytes(n.id));
    assert(spec_node_bytes(n).subrange(20, 26) =~= spec_addr_bytes(n.address));
}

} // verus!
