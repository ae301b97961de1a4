use evedatacore_route_planner::tools::{is_valid_id, pack_id, system_id_to_u16, u16_to_system_id};

#[test]
fn test_system_id_conversion() {
    assert_eq!(system_id_to_u16(30018456).unwrap(), 18456);
    assert_eq!(system_id_to_u16(32001234).unwrap(), 31234);
    assert_eq!(system_id_to_u16(34000004).unwrap(), 40004);
}

#[test]
fn test_u16_to_system_id() {
    assert_eq!(u16_to_system_id(18456), 30018456);
    assert_eq!(u16_to_system_id(31234), 32001234);
    assert_eq!(u16_to_system_id(40004), 34000004);
}

#[test]
fn every_packable_identifier_round_trips() {
    for (base, count) in [(30_000_000u32, 30_000u32), (32_000_000, 10_000), (34_000_000, 10_000)] {
        for offset in 0..count {
            let id = base + offset;
            assert_eq!(u16_to_system_id(system_id_to_u16(id).unwrap()), id);
        }
    }
}

#[test]
fn every_key_round_trips() {
    for key in 0..=u16::MAX {
        assert_eq!(system_id_to_u16(u16_to_system_id(key)).unwrap(), key);
    }
}

#[test]
fn block_starts_map_to_their_key_ranges() {
    assert_eq!(system_id_to_u16(30_000_000).unwrap(), 0);
    assert_eq!(system_id_to_u16(30_029_999).unwrap(), 29_999);
    assert_eq!(system_id_to_u16(32_000_000).unwrap(), 30_000);
    assert_eq!(system_id_to_u16(32_009_999).unwrap(), 39_999);
    assert_eq!(system_id_to_u16(34_000_000).unwrap(), 40_000);
    assert_eq!(system_id_to_u16(34_009_999).unwrap(), 49_999);
}

#[test]
fn identifiers_outside_the_blocks_are_cut_to_sixteen_bits() {
    assert_eq!(system_id_to_u16(7).unwrap(), 7);
    assert_eq!(system_id_to_u16(65_536 + 9).unwrap(), 9);
    assert_eq!(system_id_to_u16(29_999_999).unwrap(), (29_999_999u32 % 65_536) as u16);
    assert_eq!(system_id_to_u16(u32::MAX).unwrap(), u16::MAX);
}

#[test]
fn an_identifier_beyond_the_key_space_of_its_block_does_not_round_trip() {
    let key = system_id_to_u16(30_030_000).unwrap();
    assert_eq!(key, 30_000);
    assert_eq!(u16_to_system_id(key), 32_000_000);
}

#[test]
fn keys_from_fifty_thousand_up_stand_for_themselves() {
    assert_eq!(u16_to_system_id(50_000), 50_000);
    assert_eq!(u16_to_system_id(u16::MAX), 65_535);
    assert_eq!(u16_to_system_id(49_999), 34_009_999);
}

#[test]
fn valid_identifiers_are_those_of_the_three_blocks() {
    assert!(is_valid_id(30_000_000));
    assert!(is_valid_id(30_099_999));
    assert!(is_valid_id(32_000_000));
    assert!(is_valid_id(34_099_999));
    assert!(!is_valid_id(29_999_999));
    assert!(!is_valid_id(30_100_000));
    assert!(!is_valid_id(31_000_000));
    assert!(!is_valid_id(0));
}

#[test]
fn pack_id_agrees_with_the_fallible_form() {
    for id in [0u32, 30_018_456, 32_001_234, 34_000_004, 70_000, u32::MAX] {
        assert_eq!(pack_id(id), system_id_to_u16(id).unwrap());
    }
}
