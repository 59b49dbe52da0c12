//! Node ids tied to IP addresses, so that a node cannot choose where it sits in the id space.
use vstd::prelude::*;

use crate::dht::random::random_u8;
use crate::dht::routing::node::NodeId;
use crate::dht::transaction::{be_bytes, to_be_bytes};

verus! {

/// Bits of an IPv4 address that go into its node ids.
pub const IPV4_MASK: u32 = 0x030F_3FFF;
/// Bits of an IPv6 address that go into its node ids.
pub const IPV6_MASK: u64 = 0x0103_070F_1F3F_7FFF;
/// Most octets of an address that go into the checksum.
pub const CRC32C_ARG_SLICE_SIZE: usize = 8;

/// One bit step of the reflected CRC-32C (Castagnoli) register.
pub open spec fn crc_bit(c: u32) -> u32 {
    if c & 1 == 1 {
        (c >> 1u32) ^ 0x82F6_3B78
    } else {
        c >> 1u32
    }
}

/// The CRC-32C register after taking in the byte `b`: eight bit steps.
pub open spec fn crc_byte(c: u32, b: u8) -> u32 {
    crc_bit(crc_bit(crc_bit(crc_bit(crc_bit(crc_bit(crc_bit(crc_bit(c ^ (b as u32)))))))))
}

/// The CRC-32C register after taking in `data`, starting from all ones.
pub open spec fn crc_register(data: Seq<u8>) -> u32
    decreases data.len(),
{
    if data.len() == 0 {
        0xFFFF_FFFF
    } else {
        crc_byte(crc_register(data.drop_last()), data.last())
    }
}

/// The CRC-32C (Castagnoli) checksum of `data`: the final register, all bits flipped.
pub open spec fn crc32c(data: Seq<u8>) -> u32 {
    crc_register(data) ^ 0xFFFF_FFFF
}

/// The CRC-32C checksum of `bytes` (`crc::crc32::checksum_castagnoli`): the crate's
/// table-driven update, whose table entry for a byte is that byte after eight bit steps of
/// the reflected polynomial `0x82F63B78`, starting from and finishing with all bits flipped
/// (see `crc32c`).
#[verifier::external_body]
fn checksum_castagnoli(bytes: &[u8]) -> (r: u32)
    ensures
        r == crc32c(bytes@),
{
    crc::crc32::checksum_castagnoli(bytes)
}

/// An IPv4 address as a big-endian number.
pub open spec fn ipv4_be(addr: [u8; 4]) -> u32 {
    ((addr[0] as u32) << 24u32) | ((addr[1] as u32) << 16u32) | ((addr[2] as u32) << 8u32) | (addr[3] as u32)
}

/// The bits of an IPv4 address that go into its node ids.
pub fn mask_ipv4_be(addr: [u8; 4]) -> (r: u32)
    ensures
        r == ipv4_be(addr) & IPV4_MASK,
{
    let ip_be: u32 = ((addr[0] as u32) << 24u32) | ((addr[1] as u32) << 16u32) | ((addr[2] as u32) << 8u32) | (
    addr[3] as u32);
    ip_be & IPV4_MASK
}

/// Whether an IPv4 address need not have a compliant node id; none is exempt.
pub fn is_security_compliant_ipv4_exempt(addr: [u8; 4]) -> (r: bool)
    ensures
        !r,
{
    false
}

/// The bytes checksummed for an id generated from a masked address of `num_octets` octets
/// and the random byte `rand`: the address octets, with the three low bits of `rand` in the
/// top bits of the first.
pub open spec fn generated_input(masked_ip_be: u64, num_octets: int, rand: u8) -> Seq<u8> {
    let b = be_bytes(masked_ip_be);
    let start = 8 - num_octets;
    b.subrange(start, 8).update(0, b[start] | ((rand & 7u8) << 5u8))
}

/// The bytes checksummed when checking `id` against a masked address of `num_octets`
/// octets: the low four bytes of the address with the three low bits of the id's last byte
/// put just above the address bits.
pub open spec fn checked_input(masked_ip_be: u64, num_octets: int, id: Seq<u8>) -> Seq<u8> {
    let r = (id[19] & 7u8) as u64;
    be_bytes(masked_ip_be | (r << ((num_octets * 8 - 3) as u64))).subrange(4, 8)
}

/// Whether the first 21 bits of `id` are those of the checksum `crc`.
pub open spec fn compliant_id(crc: u32, id: Seq<u8>) -> bool {
    &&& id[0] == (crc >> 24u32) as u8
    &&& id[1] == (crc >> 16u32) as u8
    &&& id[2] & 0xF8u8 == ((crc >> 8u32) as u8) & 0xF8u8
}

/// Generates a node id for a masked address of `num_octets` octets and the random byte
/// `rand`: the first 21 bits come from the checksum of the address and `rand`, the last byte
/// is `rand`, and the rest is random.
pub fn generate_compliant_id(masked_ip_be: u64, num_octets: usize, rand: u8) -> (id: NodeId)
    requires
        1 <= num_octets <= CRC32C_ARG_SLICE_SIZE,
    ensures
        compliant_id(crc32c(generated_input(masked_ip_be, num_octets as int, rand)), id@),
        id@[19] == rand,
{
    let r = rand & 0x07u8;
    let masked_ip_bytes = to_be_bytes(masked_ip_be);
    let starting_byte = 8 - num_octets;
    let mut input: Vec<u8> = Vec::new();
    input.push(masked_ip_bytes[starting_byte] | (r << 5u8));
    let mut k = starting_byte + 1;
    while k < 8
        invariant
            starting_byte < k <= 8,
            starting_byte == 8 - num_octets,
            masked_ip_bytes@ == be_bytes(masked_ip_be),
            input@ == be_bytes(masked_ip_be).subrange(starting_byte as int, k as int).update(
                0,
                be_bytes(masked_ip_be)[starting_byte as int] | ((rand & 7u8) << 5u8),
            ),
        decreases 8 - k,
    {
        input.push(masked_ip_bytes[k]);
        k = k + 1;
        assert(input@ =~= be_bytes(masked_ip_be).subrange(starting_byte as int, k as int).update(
            0,
            be_bytes(masked_ip_be)[starting_byte as int] | ((rand & 7u8) << 5u8),
        ));
    }
    let crc = checksum_castagnoli(input.as_slice());
    let rnd: u8 = random_u8();
    let low: u8 = rnd & 0x07u8;
    assert(low < 8) by (bit_vector)
        requires
            low == rnd & 0x07u8,
    ;
    let high: u8 = ((crc >> 8u32) & 0xF8u32) as u8;
    let mid: u8 = high | low;
    let id: NodeId = [
        (crc >> 24u32) as u8,
        (crc >> 16u32) as u8,
        mid,
        random_u8(),
        random_u8(),
        random_u8(),
        random_u8(),
        random_u8(),
        random_u8(),
        random_u8(),
        random_u8(),
        random_u8(),
        random_u8(),
        random_u8(),
        random_u8(),
        random_u8(),
        random_u8(),
        random_u8(),
        random_u8(),
        rand,
    ];
    assert(mid & 0xF8u8 == ((crc >> 8u32) as u8) & 0xF8u8) by (bit_vector)
        requires
            high == ((crc >> 8u32) & 0xF8u32) as u8,
            low < 8,
            mid == high | low,
    ;
    id
}

/// Whether the first 21 bits of `id_bytes` are those of the checksum `crc32c_result` (the
/// last byte of the id went into the checksum itself).
pub fn is_compliant_id(crc32c_result: u32, id_bytes: NodeId) -> (r: bool)
    ensures
        r == compliant_id(crc32c_result, id_bytes@),
{
    let mut is_compliant = true;
    is_compliant = is_compliant && (id_bytes[0] == ((crc32c_result >> 24u32) as u8));
    is_compliant = is_compliant && (id_bytes[1] == ((crc32c_result >> 16u32) as u8));
    let mid_id_bits = id_bytes[2] & 0xF8u8;
    let mid_hash_bits = ((crc32c_result >> 8u32) as u8) & 0xF8u8;
    is_compliant = is_compliant && mid_id_bits == mid_hash_bits;
    is_compliant
}

/// Whether `id` is a compliant id for a masked address of `num_octets` octets.
pub fn is_compliant_addr(masked_ip_be: u64, num_octets: usize, id: NodeId) -> (r: bool)
    requires
        1 <= num_octets <= CRC32C_ARG_SLICE_SIZE,
    ensures
        r == compliant_id(crc32c(checked_input(masked_ip_be, num_octets as int, id@)), id@),
{
    let rand = id[19];
    let r = rand & 0x07u8;
    let ip_bits_used = (num_octets * 8) as u64;
    let rand_masked_ip = masked_ip_be | ((r as u64) << (ip_bits_used - 3));
    let bytes = to_be_bytes(rand_masked_ip);
    let tail = vec![bytes[4], bytes[5], bytes[6], bytes[7]];
    assert(tail@ =~= be_bytes(rand_masked_ip).subrange(4, 8));
    let crc = checksum_castagnoli(tail.as_slice());
    is_compliant_id(crc, id)
}

/// Whether `id` is a compliant node id for the IPv4 address `addr`.
pub fn is_compliant_ipv4_addr(addr: [u8; 4], id: NodeId) -> (r: bool)
    ensures
        r == compliant_id(crc32c(checked_input((ipv4_be(addr) & IPV4_MASK) as u64, 4, id@)), id@),
{
    if is_security_compliant_ipv4_exempt(addr) {
        return true;
    }
    let masked_ip_be = mask_ipv4_be(addr) as u64;
    is_compliant_addr(masked_ip_be, 4, id)
}

/// Generates a compliant node id for the IPv4 address `addr`.
pub fn generate_compliant_id_ipv4(addr: [u8; 4]) -> (id: NodeId)
    ensures
        compliant_id(crc32c(generated_input((ipv4_be(addr) & IPV4_MASK) as u64, 4, id@[19])), id@),
{
    let masked_ipv4_be = mask_ipv4_be(addr);
    let rand = random_u8();
    generate_compliant_id(masked_ipv4_be as u64, 4, rand)
}

/// For an IPv4 address, checking an id hashes the same bytes as generating it did.
proof fn lemma_ipv4_inputs_agree(masked: u32, id: Seq<u8>)
    requires
        id.len() == 20,
    ensures
        checked_input(masked as u64, 4, id) == generated_input(masked as u64, 4, id[19]),
{
    let m = masked as u64;
    let rand = id[19];
    let r = (rand & 7u8) as u64;
    let x = m | (r << 29u64);
    assert(r < 8) by (bit_vector)
        requires
            r == (rand & 7u8) as u64,
    ;
    assert(((((x >> 24u64) & 0xffu64) as u8) == (((m >> 24u64) & 0xffu64) as u8) | ((rand & 7u8) << 5u8))) by (bit_vector)
        requires
            m < 0x1_0000_0000,
            r == (rand & 7u8) as u64,
            x == m | (r << 29u64),
    ;
    assert(((x >> 16u64) & 0xffu64) == ((m >> 16u64) & 0xffu64)) by (bit_vector)
        requires
            r < 8,
            x == m | (r << 29u64),
    ;
    assert(((x >> 8u64) & 0xffu64) == ((m >> 8u64) & 0xffu64)) by (bit_vector)
        requires
            r < 8,
            x == m | (r << 29u64),
    ;
    assert((x & 0xffu64) == (m & 0xffu64)) by (bit_vector)
        requires
            r < 8,
            x == m | (r << 29u64),
    ;
    assert(checked_input(m, 4, id) =~= generated_input(m, 4, rand));
}

/// A node id generated for an IPv4 address is compliant for that address.
pub proof fn lemma_generated_ipv4_id_is_compliant(masked: u32, id: Seq<u8>)
    requires
        id.len() == 20,
        compliant_id(crc32c(generated_input(masked as u64, 4, id[19])), id),
    ensures
        compliant_id(crc32c(checked_input(masked as u64, 4, id)), id),
{
    lemma_ipv4_inputs_agree(masked, id);
}

} // verus!
