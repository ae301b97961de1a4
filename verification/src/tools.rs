//! Conversion between external 32-bit system identifiers and the compact
//! 16-bit keys used inside the graph.

use vstd::prelude::*;

verus! {

/// Number of identifiers in each canonical block.
pub const BLOCK: u32 = 100_000;

/// First identifier of the first canonical block.
pub const BLOCK_ONE: u32 = 30_000_000;

/// First identifier of the second canonical block.
pub const BLOCK_TWO: u32 = 32_000_000;

/// First identifier of the third canonical block.
pub const BLOCK_THREE: u32 = 34_000_000;

/// Whether `system_id` lies in the part of one of the three canonical blocks
/// that the compact key space has room for: the first 30,000 identifiers of
/// the first block and the first 10,000 of the second and of the third.
pub open spec fn is_packable(system_id: u32) -> bool {
    ||| BLOCK_ONE <= system_id < BLOCK_ONE + 30_000
    ||| BLOCK_TWO <= system_id < BLOCK_TWO + 10_000
    ||| BLOCK_THREE <= system_id < BLOCK_THREE + 10_000
}

/// Whether `system_id` lies in one of the three blocks of 100,000 identifiers
/// that external interfaces hand out.
pub open spec fn in_canonical_range(system_id: u32) -> bool {
    ||| BLOCK_ONE <= system_id < BLOCK_ONE + BLOCK
    ||| BLOCK_TWO <= system_id < BLOCK_TWO + BLOCK
    ||| BLOCK_THREE <= system_id < BLOCK_THREE + BLOCK
}

/// The compact key of an external identifier, before it is cut to 16 bits.
pub open spec fn packed_wide(system_id: u32) -> int {
    if BLOCK_ONE <= system_id < BLOCK_ONE + BLOCK {
        system_id as int % 100_000
    } else if BLOCK_TWO <= system_id < BLOCK_TWO + BLOCK {
        30_000 + system_id as int % 100_000
    } else if BLOCK_THREE <= system_id < BLOCK_THREE + BLOCK {
        40_000 + system_id as int % 100_000
    } else {
        system_id as int
    }
}

/// The compact key of an external identifier: the wide key reduced modulo
/// 65,536.
pub open spec fn pack(system_id: u32) -> u16 {
    (packed_wide(system_id) % 0x1_0000) as u16
}

/// The external identifier that a compact key stands for.
pub open spec fn unpack(value: u16) -> u32 {
    if value < 30_000 {
        (30_000_000 + value) as u32
    } else if value < 40_000 {
        (32_000_000 + (value - 30_000)) as u32
    } else if value < 50_000 {
        (34_000_000 + (value - 40_000)) as u32
    } else {
        value as u32
    }
}

#[verifier::external_type_specification]
#[verifier::external_body]
pub struct ExParseIntError(std::num::ParseIntError);

/// Packs an external identifier into its compact key. The conversion never
/// fails: identifiers outside the canonical blocks are cut to their low 16
/// bits.
pub fn system_id_to_u16(system_id: u32) -> (r: Result<u16, std::num::ParseIntError>)
    ensures
        r is Ok,
        r->Ok_0 == pack(system_id),
{
    let converted: u32 = if 30_000_000 <= system_id && system_id <= 30_099_999 {
        system_id % 100_000
    } else if 32_000_000 <= system_id && system_id <= 32_099_999 {
        30_000 + (system_id % 100_000)
    } else if 34_000_000 <= system_id && system_id <= 34_099_999 {
        40_000 + (system_id % 100_000)
    } else {
        system_id
    };
    let low: u32 = converted % 0x1_0000;
    Ok(low as u16)
}

/// Whether `system_id` lies in one of the three canonical blocks.
pub fn is_valid_id(system_id: u32) -> (r: bool)
    ensures
        r == in_canonical_range(system_id),
{
    (30_000_000 <= system_id && system_id <= 30_099_999) || (32_000_000 <= system_id && system_id
        <= 32_099_999) || (34_000_000 <= system_id && system_id <= 34_099_999)
}

/// The compact key of an external identifier.
pub fn pack_id(system_id: u32) -> (r: u16)
    ensures
        r == pack(system_id),
{
    match system_id_to_u16(system_id) {
        Ok(key) => key,
        Err(_) => 0,
    }
}

/// Unpacks a compact key into the external identifier it stands for. Keys
/// from 50,000 up stand for themselves.
pub fn u16_to_system_id(value: u16) -> (r: u32)
    ensures
        r == unpack(value),
{
    if value < 30_000 {
        30_000_000 + value as u32
    } else if value < 40_000 {
        32_000_000 + (value as u32 - 30_000)
    } else if value < 50_000 {
        34_000_000 + (value as u32 - 40_000)
    } else {
        value as u32
    }
}

/// Unpacking undoes packing on every packable identifier.
pub proof fn lemma_unpack_pack(system_id: u32)
    requires
        is_packable(system_id),
    ensures
        unpack(pack(system_id)) == system_id,
{
}

/// Packing undoes unpacking on every key, and a key below 50,000 unpacks to
/// a packable identifier.
pub proof fn lemma_pack_unpack(value: u16)
    ensures
        pack(unpack(value)) == value,
        value < 50_000 ==> is_packable(unpack(value)),
{
}

/// Two different packable identifiers never share a key.
pub proof fn lemma_pack_injective(a: u32, b: u32)
    requires
        is_packable(a),
        is_packable(b),
        pack(a) == pack(b),
    ensures
        a == b,
{
    lemma_unpack_pack(a);
    lemma_unpack_pack(b);
}

} // verus!
