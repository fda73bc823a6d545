use pklib::implode::{LITERALS_COUNT, OUT_BUFF_SIZE, WORK_BUFF_SIZE};
use pklib::tables::{CH_BITS_ASC, CH_CODE_ASC, DIST_BITS, DIST_CODE};
use pklib::{CompressionMode, DictionarySize, ImplodeState};

#[test]
fn dictionary_sizes() {
    assert_eq!(DictionarySize::Size1K.bits(), 4);
    assert_eq!(DictionarySize::Size2K.bits(), 5);
    assert_eq!(DictionarySize::Size4K.bits(), 6);
    assert_eq!(DictionarySize::Size1K.bytes(), 1024);
    assert_eq!(DictionarySize::Size2K.bytes(), 2048);
    assert_eq!(DictionarySize::Size4K.bytes(), 4096);
}

#[test]
fn a_new_state_is_blank_and_has_its_tables() {
    let state = ImplodeState::new(CompressionMode::Binary, DictionarySize::Size4K).unwrap();
    assert_eq!(state.ctype, CompressionMode::Binary);
    assert_eq!(state.dsize_bits, 6);
    assert_eq!(state.dsize_mask, 0x3F);
    assert_eq!(state.dsize_bytes, 4096);
    assert_eq!(state.dist_bits, DIST_BITS);
    assert_eq!(state.dist_codes, DIST_CODE);
    assert_eq!(state.work_bytes, 0);
    assert_eq!(state.compressed_pos, 0);
    assert_eq!(state.work_buff, [0; WORK_BUFF_SIZE]);
    assert_eq!(state.out_buff, [0; OUT_BUFF_SIZE]);
}

#[test]
fn literal_tables_of_the_binary_mode() {
    let state = ImplodeState::new(CompressionMode::Binary, DictionarySize::Size1K).unwrap();
    assert_eq!(state.dsize_mask, 0x0F);
    for i in 0..0x100 {
        assert_eq!(state.literal_bits[i], 9);
        assert_eq!(state.literal_codes[i], 2 * i as u16);
    }
    // Repetitions of two and three bytes, and the first two that share a length code.
    assert_eq!((state.literal_bits[0x100], state.literal_codes[0x100]), (4, 0x0B));
    assert_eq!((state.literal_bits[0x101], state.literal_codes[0x101]), (3, 0x07));
    assert_eq!((state.literal_bits[0x108], state.literal_codes[0x108]), (7, 0x09));
    assert_eq!((state.literal_bits[0x109], state.literal_codes[0x109]), (7, 0x49));
    // The end of the stream.
    assert_eq!((state.literal_bits[0x305], state.literal_codes[0x305]), (16, 0xFF01));
}

#[test]
fn literal_tables_of_the_ascii_mode() {
    let state = ImplodeState::new(CompressionMode::ASCII, DictionarySize::Size2K).unwrap();
    assert_eq!(state.dsize_mask, 0x1F);
    for i in 0..0x100 {
        assert_eq!(state.literal_bits[i], CH_BITS_ASC[i] + 1);
        assert_eq!(state.literal_codes[i], 2 * CH_CODE_ASC[i]);
    }
    assert_eq!((state.literal_bits[0x20], state.literal_codes[0x20]), (5, 0x1E));
    assert_eq!((state.literal_bits[0x41], state.literal_codes[0x41]), (7, 0x62));
    let binary = ImplodeState::new(CompressionMode::Binary, DictionarySize::Size2K).unwrap();
    assert_eq!(
        &state.literal_codes[0x100..],
        &binary.literal_codes[0x100..LITERALS_COUNT]
    );
}

#[test]
fn reset_gives_back_a_new_state() {
    let mut state = ImplodeState::new(CompressionMode::ASCII, DictionarySize::Size1K).unwrap();
    state.work_buff[..12].copy_from_slice(b"ABCDEFABCDEF");
    state.work_bytes = 12;
    state.sort_buffer(0, 12);
    state.find_repetition(6);
    state.out_bytes = 3;
    state.out_bits = 2;
    state.out_buff[0] = 1;
    state.offs_buffer[0] = 1;
    state.work_pos = 5;
    state.input_pos = 6;
    state.compressed_pos = 7;
    assert_eq!(state.distance, 5);
    state.reset();
    let fresh = ImplodeState::new(CompressionMode::ASCII, DictionarySize::Size1K).unwrap();
    assert_eq!(format!("{:?}", state), format!("{:?}", fresh));
}

#[test]
fn the_default_state() {
    let state = ImplodeState::default();
    assert_eq!(state.ctype, CompressionMode::Binary);
    assert_eq!(state.dsize_bytes, 2048);
    assert_eq!(state.dsize_bits, 5);
}
