use divans::codec::interface::default_literal_speed;
use divans::codec::interface::round_up_mod_4;
use divans::codec::interface::round_up_mod_4_u32;
use divans::codec::interface::AllocatedMemoryPrefix;
use divans::codec::interface::ContextMapType;
use divans::codec::interface::CopyCommand;
use divans::codec::interface::CrossCommandBookKeeping;
use divans::codec::interface::DistanceCacheEntry;
use divans::codec::interface::LiteralBlockSwitch;
use divans::codec::interface::LiteralPredictionModeNibble;
use divans::probability::Speed;

fn fresh() -> CrossCommandBookKeeping {
    CrossCommandBookKeeping::new(vec![0u8; 64 * 4], vec![0u8; 4 * 4], 0, Speed::FAST)
}

#[test]
fn rounds_up_to_multiples_of_four() {
    assert_eq!(round_up_mod_4(1), 4);
    assert_eq!(round_up_mod_4(4), 4);
    assert_eq!(round_up_mod_4(5), 8);
    assert_eq!(round_up_mod_4(252), 252);
    assert_eq!(round_up_mod_4(250), 252);
    assert_eq!(round_up_mod_4_u32(1), 4);
    assert_eq!(round_up_mod_4_u32(13), 16);
    assert_eq!(round_up_mod_4_u32(0xffff_fffc), 0xffff_fffc);
    assert_eq!(round_up_mod_4_u32(0xffff_fff9), 0xffff_fffc);
}

#[test]
fn literal_speed_defaults_to_mud() {
    assert_eq!(default_literal_speed(), Speed::MUD);
}

#[test]
fn allocated_prefix_views() {
    let mut m = AllocatedMemoryPrefix::new(vec![0u8; 6], 6);
    assert_eq!(m.1, 6);
    assert_eq!(m.slice(), &[0u8; 6][..]);
    m.1 = 3;
    m.slice_mut()[2] = 9;
    assert_eq!(m.slice(), &[0u8, 0, 9][..]);
    assert_eq!(m.0, vec![0u8, 0, 9, 0, 0, 0]);
    let taken = m.replace_with_empty();
    assert_eq!(taken, vec![0u8, 0, 9, 0, 0, 0]);
    assert_eq!(m.0.len(), 0);
    assert_eq!(m.1, 3);
    let d = AllocatedMemoryPrefix::default();
    assert_eq!(d.1, 0);
    assert!(d.0.is_empty());
}

#[test]
fn new_bookkeeping_starts_fresh() {
    let bk = fresh();
    assert_eq!(bk.last_4_states, 192);
    assert_eq!(bk.distance_lru, [4, 11, 15, 16]);
    assert_eq!(bk.cmap_lru, [0u8; 13]);
    assert_eq!(bk.btype_lru, [[0, 1]; 3]);
    assert_eq!(bk.distance_cache[31][2].distance, 1);
    assert_eq!(bk.distance_cache[0][0].decode_byte_count, 0);
    assert_eq!(bk.literal_adaptation, Speed::MUD);
    assert_eq!(bk.desired_literal_adaptation, Speed::FAST);
    assert_eq!(bk.literal_prediction_mode, LiteralPredictionModeNibble(3));
    assert!(!bk.materialized_prediction_mode());
    assert_eq!(bk.get_command_type_prob(), (3, 0));
}

#[test]
fn context_map_observation_moves_value_to_front() {
    let mut bk = fresh();
    bk.reset_context_map_lru();
    assert_eq!(bk.cmap_lru, [0, 1, 2, 3, 4, 5, 6, 7, 8, 9, 10, 11, 12]);
    assert!(bk.obs_context_map(ContextMapType::Literal, 5, 7));
    assert!(bk.materialized_prediction_mode());
    assert_eq!(bk.literal_context_map[5], 7);
    assert_eq!(bk.cmap_lru, [7, 0, 1, 2, 3, 4, 5, 6, 8, 9, 10, 11, 12]);
    assert!(bk.obs_context_map(ContextMapType::Distance, 15, 200));
    assert_eq!(bk.distance_context_map[15], 200);
    assert_eq!(bk.cmap_lru, [200, 7, 0, 1, 2, 3, 4, 5, 6, 8, 9, 10, 11]);
    assert!(bk.obs_context_map(ContextMapType::Distance, 0, 200));
    assert_eq!(bk.cmap_lru, [200, 7, 0, 1, 2, 3, 4, 5, 6, 8, 9, 10, 11]);
}

#[test]
fn context_map_observation_out_of_range_fails() {
    let mut bk = fresh();
    let before = bk.cmap_lru;
    assert!(!bk.obs_context_map(ContextMapType::Distance, 16, 1));
    assert!(!bk.obs_context_map(ContextMapType::Literal, 256, 1));
    assert!(bk.materialized_prediction_mode());
    assert_eq!(bk.cmap_lru, before);
    assert!(bk.distance_context_map.iter().all(|&x| x == 0));
}

#[test]
fn distance_prior_reads_the_distance_map() {
    let mut bk = fresh();
    assert!(bk.obs_context_map(ContextMapType::Distance, 3, 42));
    assert!(bk.obs_context_map(ContextMapType::Distance, 6, 43));
    assert_eq!(bk.get_distance_prior(4), 42);
    assert_eq!(bk.get_distance_prior(100), 42);
    assert_eq!(bk.get_distance_prior(1), 0);
    bk.obs_btyped(1);
    assert_eq!(bk.get_distance_block_type(), 1);
    assert_eq!(bk.get_distance_prior(3), 43);
}

#[test]
fn distance_list_moves_to_front() {
    let mut bk = fresh();
    bk.obs_distance(&CopyCommand { distance: 15, num_bytes: 40 });
    assert_eq!(bk.distance_lru, [15, 4, 11, 16]);
    bk.obs_distance(&CopyCommand { distance: 4, num_bytes: 40 });
    assert_eq!(bk.distance_lru, [4, 15, 11, 16]);
    bk.obs_distance(&CopyCommand { distance: 4, num_bytes: 40 });
    assert_eq!(bk.distance_lru, [4, 15, 11, 16]);
    bk.obs_distance(&CopyCommand { distance: 16, num_bytes: 40 });
    assert_eq!(bk.distance_lru, [16, 4, 15, 11]);
    bk.obs_distance(&CopyCommand { distance: 99, num_bytes: 40 });
    assert_eq!(bk.distance_lru, [99, 16, 4, 15]);
}

#[test]
fn distance_cache_replaces_oldest_entry() {
    let mut bk = fresh();
    bk.decode_byte_count = 10;
    bk.obs_distance(&CopyCommand { distance: 7, num_bytes: 3 });
    assert_eq!(bk.distance_cache[3][0].distance, 0);
    assert_eq!(bk.distance_cache[3][0].decode_byte_count, 10);
    bk.decode_byte_count = 20;
    bk.obs_distance(&CopyCommand { distance: 8, num_bytes: 3 });
    assert_eq!(bk.distance_cache[3][1].decode_byte_count, 20);
    bk.obs_distance(&CopyCommand { distance: 8, num_bytes: 3 });
    assert_eq!(bk.distance_cache[3][2].decode_byte_count, 20);
    bk.obs_distance(&CopyCommand { distance: 8, num_bytes: 3 });
    assert_eq!(bk.distance_cache[3][0].decode_byte_count, 20);
    assert_eq!(bk.distance_cache[4][0].decode_byte_count, 0);
    bk.obs_distance(&CopyCommand { distance: 8, num_bytes: 32 });
    assert_eq!(bk.distance_cache[31][0].decode_byte_count, 0);
}

#[test]
fn distance_cache_reads_advance_with_decoded_bytes() {
    let mut bk = fresh();
    bk.decode_byte_count = 100;
    bk.distance_cache[5][1] = DistanceCacheEntry { distance: 30, decode_byte_count: 90 };
    assert_eq!(bk.read_distance_cache(5, 1), 40);
    assert_eq!(bk.read_distance_cache(5, 0), 101);
    bk.distance_cache[31][2] = DistanceCacheEntry { distance: 3, decode_byte_count: 99 };
    assert_eq!(bk.read_distance_cache(1000, 2), 4);
}

#[test]
fn mnemonic_codes_round_trip() {
    let bk = fresh();
    let expected: [u32; 15] = [4, 11, 15, 16, 5, 3, 12, 10, 6, 2, 13, 9, 7, 1, 14];
    for code in 0..15u8 {
        assert_eq!(bk.get_distance_from_mnemonic_code(code), expected[code as usize]);
    }
    assert_eq!(bk.distance_mnemonic_code(15), 2);
    assert_eq!(bk.distance_mnemonic_code(3), 5);
    assert_eq!(bk.distance_mnemonic_code(1), 13);
    assert_eq!(bk.distance_mnemonic_code(1000), 15);
    for d in 0..40u32 {
        let code = bk.distance_mnemonic_code(d);
        if code < 15 {
            assert_eq!(bk.get_distance_from_mnemonic_code(code), d);
        }
    }
}

#[test]
fn mnemonic_two_codes_round_trip() {
    let mut bk = fresh();
    bk.decode_byte_count = 50;
    bk.distance_cache[2][0] = DistanceCacheEntry { distance: 20, decode_byte_count: 45 };
    bk.distance_cache[3][1] = DistanceCacheEntry { distance: 8, decode_byte_count: 50 };
    assert_eq!(bk.get_distance_from_mnemonic_code_two(0, 2), 14);
    assert_eq!(bk.get_distance_from_mnemonic_code_two(1, 2), 25);
    assert_eq!(bk.get_distance_from_mnemonic_code_two(2, 2), 51);
    assert_eq!(bk.get_distance_from_mnemonic_code_two(5, 2), 8);
    assert_eq!(bk.get_distance_from_mnemonic_code_two(8, 2), 7);
    assert_eq!(bk.get_distance_from_mnemonic_code_two(13, 2), 50);
    assert_eq!(bk.distance_mnemonic_code_two(25, 2), 1);
    assert_eq!(bk.distance_mnemonic_code_two(7, 2), 8);
    assert_eq!(bk.distance_mnemonic_code_two(14, 2), 0);
    assert_eq!(bk.distance_mnemonic_code_two(50, 2), 7);
    assert_eq!(bk.distance_mnemonic_code_two(1234, 2), 15);
    for d in 0..60u32 {
        let code = bk.distance_mnemonic_code_two(d, 2);
        if code < 15 {
            assert_eq!(bk.get_distance_from_mnemonic_code_two(code, 2), d);
        }
    }
}

#[test]
fn command_history_selects_prior() {
    let mut bk = fresh();
    bk.obs_copy_state();
    assert_eq!(bk.get_command_type_prob().0, 1);
    bk.obs_literal_state();
    assert_eq!(bk.get_command_type_prob().0, 2);
    assert_eq!(bk.last_4_states, 156);
    bk.obs_dict_state();
    assert_eq!(bk.get_command_type_prob().0, 3);
    bk.obs_pred_mode(LiteralPredictionModeNibble(1));
    assert_eq!(bk.get_command_type_prob().0, 0);
    assert_eq!(bk.literal_prediction_mode, LiteralPredictionModeNibble(1));
    bk.obs_btypec(4);
    assert_eq!(bk.get_command_type_prob().0, 0);
}

#[test]
fn literal_history_selects_prior() {
    let mut bk = fresh();
    bk.push_literal_byte(0xC5);
    assert_eq!(bk.last_8_literals, 0xC5u64 << 56);
    assert_eq!(bk.num_literals_coded, 1);
    assert_eq!(bk.get_command_type_prob().1, 3);
    bk.push_literal_byte(0x41);
    assert_eq!(bk.last_8_literals, (0x41u64 << 56) | (0xC5u64 << 48));
    assert_eq!(bk.get_command_type_prob().1, 1);
    bk.push_literal_nibble(0x9);
    assert_eq!(bk.last_8_literals, (0x9u64 << 60) | (0x41u64 << 52) | (0xC5u64 << 44));
    assert_eq!(bk.get_command_type_prob().1, 2);
    assert_eq!(bk.num_literals_coded, 2);
}

#[test]
fn block_switches_update_lists() {
    let mut bk = fresh();
    bk.obs_btypec(5);
    assert_eq!(bk.get_command_block_type(), 5);
    assert_eq!(bk.btype_lru[1], [5, 0]);
    assert_eq!(bk.btype_max_seen[1], 5);
    bk.obs_btypec(2);
    assert_eq!(bk.btype_lru[1], [2, 5]);
    assert_eq!(bk.btype_max_seen[1], 5);
    bk.obs_btyped(9);
    assert_eq!(bk.get_distance_block_type(), 9);
    assert_eq!(bk.last_4_states, 192 >> 6);
    bk.obs_btypel(LiteralBlockSwitch::new(3, 4));
    assert_eq!(bk.get_literal_block_type(), 3);
    assert_eq!(bk.stride, 4);
    assert!(!bk.combine_literal_predictions);
    assert!(bk.obs_context_map(ContextMapType::Literal, 0, 1));
    bk.obs_btypel(LiteralBlockSwitch::new(6, 4));
    assert!(bk.combine_literal_predictions);
    assert_eq!(bk.btype_lru[0], [6, 3]);
    bk.obs_btypel(LiteralBlockSwitch::new(1, 0));
    assert!(!bk.combine_literal_predictions);
    assert_eq!(bk.btype_max_seen[0], 6);
}

#[test]
fn adaptation_rate_is_recorded() {
    let mut bk = fresh();
    bk.obs_literal_adaptation_rate(Speed::ROCKET);
    assert_eq!(bk.literal_adaptation, Speed::ROCKET);
    assert_eq!(bk.desired_literal_adaptation, Speed::FAST);
}
