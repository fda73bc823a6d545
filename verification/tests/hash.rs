use pklib::implode::{byte_pair_hash, HASH_TABLE_SIZE, WORK_BUFF_SIZE};
use pklib::{CompressionMode, DictionarySize, ImplodeState};

#[test]
fn test_byte_pair_hash() {
    let buffer = b"AB";
    let hash = byte_pair_hash(buffer);
    let expected = (b'A' as usize * 4) + (b'B' as usize * 5);
    assert_eq!(hash, expected);
}

#[test]
fn test_sort_buffer_basic() {
    let mut state = ImplodeState::new(CompressionMode::Binary, DictionarySize::Size1K).unwrap();

    let test_data = b"ABCABC";
    let len = test_data.len().min(state.work_buff.len());
    state.work_buff[..len].copy_from_slice(&test_data[..len]);

    state.sort_buffer(0, len);

    let hash_ab = byte_pair_hash(b"AB");
    let positions = state.find_hash_positions(hash_ab, len);
    assert!(!positions.is_empty());
}

#[test]
fn test_hash_table_edge_cases() {
    let mut state = ImplodeState::new(CompressionMode::Binary, DictionarySize::Size1K).unwrap();

    state.sort_buffer(0, 0);

    state.work_buff[0] = b'A';
    state.sort_buffer(0, 1);

    state.work_buff[0] = b'A';
    state.work_buff[1] = b'B';
    state.sort_buffer(0, 2);

    let hash = byte_pair_hash(b"AB");
    let positions = state.find_hash_positions(hash, 2);
    assert_eq!(positions, vec![0]);
}

#[test]
fn sort_buffer_orders_offsets_by_hash_and_position() {
    let mut state = ImplodeState::new(CompressionMode::Binary, DictionarySize::Size1K).unwrap();
    state.work_buff[..6].copy_from_slice(b"ABCABC");
    state.sort_buffer(0, 6);
    // The pairs are AB, BC, CA, AB, BC; CA has the lowest hash after AB.
    assert_eq!(state.pair_count, 5);
    let ab = byte_pair_hash(b"AB");
    let bc = byte_pair_hash(b"BC");
    let ca = byte_pair_hash(b"CA");
    assert!(ab < ca && ca < bc);
    assert_eq!(&state.phash_offs[..6], &[0, 3, 2, 1, 4, 0]);
    assert_eq!(state.phash_to_index[0], 0);
    assert_eq!(state.phash_to_index[ab], 0);
    assert_eq!(state.phash_to_index[ab + 1], 2);
    assert_eq!(state.phash_to_index[ca], 2);
    assert_eq!(state.phash_to_index[bc], 3);
    assert_eq!(state.phash_to_index[HASH_TABLE_SIZE - 1], 5);
    assert_eq!(state.hash_bucket_range(bc), (3, 5));
}

#[test]
fn sort_buffer_counts_offsets_from_its_begin() {
    let mut state = ImplodeState::new(CompressionMode::Binary, DictionarySize::Size1K).unwrap();
    state.work_buff[..8].copy_from_slice(b"xxABxxAB");
    state.sort_buffer(2, 8);
    let ab = byte_pair_hash(b"AB");
    assert_eq!(state.find_hash_positions(ab, 6), vec![0, 4]);
    assert_eq!(state.pair_count, 5);
}

#[test]
fn sort_buffer_stops_at_the_end_of_the_work_buffer() {
    let mut state = ImplodeState::new(CompressionMode::Binary, DictionarySize::Size4K).unwrap();
    state.work_buff[WORK_BUFF_SIZE - 2] = 1;
    state.work_buff[WORK_BUFF_SIZE - 1] = 1;
    state.sort_buffer(0, WORK_BUFF_SIZE + 100);
    assert_eq!(state.pair_count, WORK_BUFF_SIZE + 99);
    let found = state.find_hash_positions(byte_pair_hash(&[1, 1]), WORK_BUFF_SIZE);
    assert_eq!(found, vec![WORK_BUFF_SIZE - 2]);
}

#[test]
fn find_hash_positions_keeps_to_the_dictionary() {
    let mut state = ImplodeState::new(CompressionMode::Binary, DictionarySize::Size1K).unwrap();
    for i in 0..2000 {
        state.work_buff[i] = if i % 500 == 0 { 1 } else { 0 };
    }
    state.sort_buffer(0, 2000);
    let hash = byte_pair_hash(&[1, 0]);
    assert_eq!(state.find_hash_positions(hash, 1501), vec![500, 1000, 1500]);
    assert_eq!(state.find_hash_positions(hash, 1525), vec![1000, 1500]);
    assert_eq!(state.find_hash_positions(hash, 1500), vec![500, 1000]);
    assert!(state.find_hash_positions(HASH_TABLE_SIZE, 1500).is_empty());
}

#[test]
fn update_hash_incremental_takes_the_first_free_place() {
    let mut state = ImplodeState::new(CompressionMode::Binary, DictionarySize::Size1K).unwrap();
    state.update_hash_incremental(7);
    state.update_hash_incremental(9);
    state.update_hash_incremental(WORK_BUFF_SIZE - 1);
    assert_eq!(&state.phash_offs[..3], &[7, 9, 0]);
    for i in 0..WORK_BUFF_SIZE {
        state.phash_offs[i] = 5;
    }
    state.update_hash_incremental(3);
    assert!(state.phash_offs.iter().all(|&o| o == 5));
}

#[test]
fn validate_hash_table_checks_runs_and_offsets() {
    let mut state = ImplodeState::new(CompressionMode::Binary, DictionarySize::Size1K).unwrap();
    state.work_buff[..6].copy_from_slice(b"ABCABC");
    state.sort_buffer(0, 6);
    assert!(state.validate_hash_table(0, 6));
    assert!(!state.validate_hash_table(0, 4));
    assert!(!state.validate_hash_table(2, 6));
    state.phash_to_index[3] = WORK_BUFF_SIZE as u16;
    assert!(!state.validate_hash_table(0, 6));
}
