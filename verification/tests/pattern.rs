use pklib::implode::{MAX_REP_LENGTH, WORK_BUFF_SIZE};
use pklib::{CompressionMode, DictionarySize, ImplodeState, MatchResult};

fn state_with(data: &[u8], dict_size: DictionarySize) -> ImplodeState {
    let mut state = ImplodeState::new(CompressionMode::Binary, dict_size).unwrap();
    state.work_buff[..data.len()].copy_from_slice(data);
    state.work_bytes = data.len();
    state.sort_buffer(0, data.len());
    state
}

#[test]
fn test_no_match() {
    let mut state = ImplodeState::new(CompressionMode::Binary, DictionarySize::Size1K).unwrap();

    let test_data = b"ABCDEFGHIJ";
    let len = test_data.len().min(state.work_buff.len());
    state.work_buff[..len].copy_from_slice(&test_data[..len]);
    state.work_bytes = len;

    state.sort_buffer(0, len);

    let result = state.find_repetition(5);
    assert!(!result.is_match());
}

#[test]
fn test_simple_match() {
    let mut state = ImplodeState::new(CompressionMode::Binary, DictionarySize::Size1K).unwrap();

    let test_data = b"ABCDEFABCDEF";
    let len = test_data.len().min(state.work_buff.len());
    state.work_buff[..len].copy_from_slice(&test_data[..len]);
    state.work_bytes = len;

    state.sort_buffer(0, len);

    let result = state.find_repetition(6);
    assert!(result.is_match());
    assert_eq!(result.distance, 6);
    assert!(result.length >= 2);
}

#[test]
fn test_run_length_match() {
    let mut state = ImplodeState::new(CompressionMode::Binary, DictionarySize::Size1K).unwrap();

    let test_data = b"AAAAAAAAA";
    let len = test_data.len().min(state.work_buff.len());
    state.work_buff[..len].copy_from_slice(&test_data[..len]);
    state.work_bytes = len;

    let length = state.find_run_length_match(0, len);
    assert_eq!(length, len);
}

#[test]
fn test_compare_sequences() {
    let mut state = ImplodeState::new(CompressionMode::Binary, DictionarySize::Size1K).unwrap();

    let test_data = b"ABCDEFABCXYZ";
    let len = test_data.len().min(state.work_buff.len());
    state.work_buff[..len].copy_from_slice(&test_data[..len]);
    state.work_bytes = len;

    let length = state.compare_sequences(0, 6, 6);
    assert_eq!(length, 3);

    let length = state.compare_sequences(0, 3, 3);
    assert_eq!(length, 0);
}

#[test]
fn test_match_result() {
    let match_result = MatchResult::new(5, 10);
    assert!(match_result.is_match());
    assert_eq!(match_result.length, 5);
    assert_eq!(match_result.distance, 10);

    let no_match = MatchResult::no_match();
    assert!(!no_match.is_match());
    assert_eq!(no_match.length, 0);
    assert_eq!(no_match.distance, 0);

    let short_match = MatchResult::new(1, 5);
    assert!(!short_match.is_match());
}

#[test]
fn find_repetition_keeps_the_distance_less_one() {
    let mut state = state_with(b"ABCDEFABCDEF", DictionarySize::Size1K);
    let result = state.find_repetition(6);
    assert_eq!(result, MatchResult::new(6, 6));
    assert_eq!(state.distance, 5);
}

#[test]
fn find_repetition_prefers_the_longer_and_then_the_nearer() {
    let mut state = state_with(b"ABCD_ABC_ABC_ABCD", DictionarySize::Size1K);
    assert_eq!(state.find_repetition(13), MatchResult::new(4, 13));
    let mut state = state_with(b"ABC_ABC_ABCx", DictionarySize::Size1K);
    assert_eq!(state.find_repetition(8), MatchResult::new(3, 4));
}

#[test]
fn find_repetition_of_a_run() {
    let mut state = state_with(b"xAAAAA", DictionarySize::Size1K);
    assert_eq!(state.find_repetition(2), MatchResult::new(4, 1));
    // As long two bytes back as one byte back: a run one byte back must be longer.
    assert_eq!(state.find_repetition(3), MatchResult::new(3, 2));
    let mut state = state_with(b"BAAAAA", DictionarySize::Size1K);
    assert_eq!(state.find_repetition(2), MatchResult::new(4, 1));
    assert_eq!(state.find_repetition(3), MatchResult::new(3, 2));
    assert_eq!(state.distance, 1);
}

#[test]
fn find_repetition_leaves_far_pairs_alone() {
    let mut data = vec![0u8; 0];
    data.extend_from_slice(b"AB");
    for i in 0..0xFEu32 {
        data.push(100 + (i % 100) as u8);
    }
    data.extend_from_slice(b"ABz");
    let mut state = state_with(&data, DictionarySize::Size1K);
    assert_eq!(state.find_repetition(0x100), MatchResult::no_match());
    assert_eq!(state.distance, 0);
    data.remove(10);
    let mut state = state_with(&data, DictionarySize::Size1K);
    assert_eq!(state.find_repetition(0xFF), MatchResult::new(2, 0xFF));
    assert_eq!(state.distance, 0xFE);
}

#[test]
fn find_repetition_is_bounded_by_the_data_and_by_the_format() {
    let data = vec![7u8; 2000];
    let mut state = state_with(&data, DictionarySize::Size4K);
    assert_eq!(state.find_repetition(1000).length, MAX_REP_LENGTH);
    assert_eq!(state.find_repetition(1990).length, 10);
    assert_eq!(state.find_repetition(1998).length, 2);
    assert_eq!(state.find_repetition(1999), MatchResult::no_match());
    assert_eq!(state.find_repetition(5000), MatchResult::no_match());
}

#[test]
fn find_repetition_with_a_hash_collision_one_byte_back() {
    // The pairs (5, 0) and (0, 4) have the same hash and nothing else in common.
    let mut state = state_with(&[5, 0, 4], DictionarySize::Size1K);
    let result = state.find_repetition(1);
    assert!(!result.is_match());
    assert_eq!(result, MatchResult::no_match());
    assert_eq!(state.distance, 0);
    let mut state = state_with(&[0, 5, 1], DictionarySize::Size1K);
    assert_eq!(state.find_repetition(1), MatchResult::no_match());
    assert_eq!(state.distance, 0);
}

#[test]
fn find_optimized_match_takes_only_longer_matches() {
    let mut data = Vec::new();
    data.extend_from_slice(b"abcdefghijklmnop#");
    data.extend_from_slice(b"abcdefghijkl#");
    data.extend_from_slice(b"abcdefghijklmnop");
    let mut state = state_with(&data, DictionarySize::Size1K);
    let short = MatchResult::new(12, 13);
    assert_eq!(state.find_optimized_match(30, short), MatchResult::new(16, 30));
    assert_eq!(state.distance, 29);
    let poor = MatchResult::new(9, 13);
    assert_eq!(state.find_optimized_match(30, poor), poor);
    let good = MatchResult::new(16, 30);
    assert_eq!(state.find_optimized_match(30, good), good);
}

#[test]
fn quick_match_check_looks_at_both_ends() {
    let state = state_with(b"AxyBAxzBAxyC", DictionarySize::Size1K);
    assert!(state.quick_match_check(0, 4, 4));
    assert!(!state.quick_match_check(0, 8, 4));
    assert!(!state.quick_match_check(0, 1, 4));
    assert!(!state.quick_match_check(0, WORK_BUFF_SIZE - 2, 4));
    assert!(!state.quick_match_check(WORK_BUFF_SIZE - 2, 0, 4));
}

#[test]
fn a_found_repetition_replays_the_data() {
    let data = b"she sells sea shells by the sea shore, she sells sea shells";
    let mut state = state_with(data, DictionarySize::Size1K);
    for pos in 1..data.len() {
        let found = state.find_repetition(pos);
        if found.is_match() {
            let mut copy = data[..pos].to_vec();
            for _ in 0..found.length {
                let byte = copy[copy.len() - found.distance];
                copy.push(byte);
            }
            assert_eq!(copy, data[..pos + found.length].to_vec());
        }
    }
}

#[test]
fn find_repetition_finds_the_longest_and_nearest() {
    let data = b"how much wood would a woodchuck chuck if a woodchuck could chuck wood, as much \
        wood as a woodchuck could, if a woodchuck could chuck wood";
    let mut state = state_with(data, DictionarySize::Size1K);
    for pos in 1..data.len() - 1 {
        let mut best = MatchResult::no_match();
        for q in (0..pos).rev() {
            let length = (0..data.len() - pos)
                .take_while(|&k| data[pos + k] == data[q + k])
                .count();
            if length >= 2 && length > best.length {
                best = MatchResult::new(length, pos - q);
            }
        }
        assert_eq!(state.find_repetition(pos), best);
    }
}

#[test]
fn a_pair_next_door_is_found_though_a_far_one_is_equal() {
    let mut data = vec![0u8; 304];
    data[..3].copy_from_slice(b"AAB");
    data[300..].copy_from_slice(b"AAAC");
    let mut state = state_with(&data, DictionarySize::Size1K);
    assert_eq!(state.find_repetition(301), MatchResult::new(2, 1));
    assert_eq!(state.distance, 0);
}

#[test]
fn the_optimized_search_keeps_what_the_search_finds() {
    let data = b"abcdefghijklmnop#abcdefghijkl#abcdefghijklmnop#abcdefghijklmnop";
    let mut state = state_with(data, DictionarySize::Size1K);
    for pos in 1..data.len() - 1 {
        let found = state.find_repetition(pos);
        let distance = state.distance;
        assert_eq!(state.find_optimized_match(pos, found), found);
        assert_eq!(state.distance, distance);
    }
    assert_eq!(state.find_repetition(47), MatchResult::new(16, 17));
}
