use pklib::implode::WORK_BUFF_SIZE;
use pklib::{
    CompressionMode, DictionarySize, ExplodeReader, ImplodeState, PkLibError, Progress, ReadStep,
};
use std::io::Read;

/// A stream that is written bit by bit, least significant bit first.
struct Stream {
    bytes: Vec<u8>,
    bits: usize,
}

impl Stream {
    fn new(state: &ImplodeState) -> Stream {
        let mode = match state.ctype {
            CompressionMode::Binary => 0,
            CompressionMode::ASCII => 1,
        };
        Stream {
            bytes: vec![mode, state.dsize_bits as u8],
            bits: 16,
        }
    }

    fn put(&mut self, code: u32, bits: u32) {
        for i in 0..bits {
            if self.bits % 8 == 0 {
                self.bytes.push(0);
            }
            if code >> i & 1 == 1 {
                self.bytes[self.bits / 8] |= 1 << (self.bits % 8);
            }
            self.bits += 1;
        }
    }

    fn symbol(&mut self, state: &ImplodeState, symbol: usize) {
        self.put(
            state.literal_codes[symbol] as u32,
            state.literal_bits[symbol] as u32,
        );
    }

    fn copy(&mut self, state: &ImplodeState, length: usize, distance: usize) {
        self.symbol(state, length + 0xFE);
        let low = if length == 2 { 2 } else { state.dsize_bits };
        let d = distance as u32 - 1;
        let high = (d >> low) as usize;
        self.put(state.dist_codes[high] as u32, state.dist_bits[high] as u32);
        self.put(d & ((1 << low) - 1), low);
    }

    fn end(mut self, state: &ImplodeState) -> Vec<u8> {
        self.symbol(state, 0x305);
        self.bytes
    }
}

/// Compresses `data` with the repetitions that the search finds, one work buffer at a time.
fn implode(data: &[u8], mode: CompressionMode, size: DictionarySize) -> Vec<u8> {
    let mut state = ImplodeState::new(mode, size).unwrap();
    let mut stream = Stream::new(&state);
    let mut at = 0;
    while at < data.len() {
        let start = at.saturating_sub(size.bytes() as usize);
        let end = data.len().min(start + WORK_BUFF_SIZE);
        state.work_bytes = end - start;
        state.work_buff[..end - start].copy_from_slice(&data[start..end]);
        state.sort_buffer(0, end - start);
        while at < end {
            let found = state.find_repetition(at - start);
            if found.is_match() {
                assert_eq!(state.distance as usize, found.distance - 1);
                stream.copy(&state, found.length, found.distance);
                at += found.length;
            } else {
                stream.symbol(&state, data[at] as usize);
                at += 1;
            }
        }
    }
    stream.end(&state)
}

/// Decompresses `data`, taken from the source in pieces of `piece` bytes, in reads of `room` bytes.
fn explode(data: &[u8], piece: usize, room: usize) -> Result<Vec<u8>, PkLibError> {
    let mut reader = ExplodeReader::new(std::io::Cursor::new(data.to_vec())).unwrap();
    let mut out = Vec::new();
    let mut buf = vec![0u8; room];
    let mut input = vec![0u8; piece];
    loop {
        match reader.read(&mut buf)? {
            ReadStep::Read(0) => return Ok(out),
            ReadStep::Read(n) => out.extend_from_slice(&buf[..n]),
            ReadStep::NeedInput => {
                let n = reader.reader.read(&mut input).unwrap();
                reader.supply(&input[..n])?;
            }
        }
    }
}

fn lines() -> Vec<u8> {
    let mut data = Vec::new();
    for i in 0..2000u32 {
        data.extend_from_slice(
            format!("line {i}: the quick brown fox jumps over the lazy dog\n").as_bytes(),
        );
    }
    data
}

/// Report the first byte where two buffers differ (for a useful message).
fn first_divergence(a: &[u8], b: &[u8]) -> Option<usize> {
    a.iter().zip(b.iter()).position(|(x, y)| x != y)
}

#[test]
fn diverging_4kib_round_trip_across_flush_boundary() {
    // Data with long repetitions ensures that a match copy straddles the end of a block.
    let data = lines();
    let compressed = implode(&data, CompressionMode::Binary, DictionarySize::Size4K);
    let decompressed = explode(&compressed, 0x800, 0x10000).unwrap();
    assert_eq!(
        decompressed,
        data,
        "round-trip mismatch: got {} bytes, expected {} bytes, first divergence at {:?}",
        decompressed.len(),
        data.len(),
        first_divergence(&decompressed, &data)
    );
}

#[test]
fn every_mode_and_dictionary_round_trips() {
    let mut data = lines();
    data.truncate(30000);
    for mode in [CompressionMode::Binary, CompressionMode::ASCII] {
        for size in [
            DictionarySize::Size1K,
            DictionarySize::Size2K,
            DictionarySize::Size4K,
        ] {
            let compressed = implode(&data, mode, size);
            assert!(compressed.len() < data.len() / 4);
            assert!(explode(&compressed, 0x800, 0x1000).unwrap() == data);
        }
    }
}

#[test]
fn runs_that_fill_the_work_buffer_come_back() {
    let mut data = vec![0x11u8; 4608];
    data.extend_from_slice(&vec![0x22u8; 4100]);
    data.extend_from_slice(&vec![0x33u8; 4096]);
    let compressed = implode(&data, CompressionMode::Binary, DictionarySize::Size4K);
    let decompressed = explode(&compressed, 0x800, 0x1000).unwrap();
    assert_eq!(decompressed.len(), 4608 + 4100 + 4096);
    assert_eq!(decompressed, data);
}

#[test]
fn pieces_of_input_and_of_output_do_not_matter() {
    let mut data = lines();
    data.truncate(20000);
    let compressed = implode(&data, CompressionMode::ASCII, DictionarySize::Size2K);
    for piece in [5, 6, 7, 100, 0x800, 0x10000] {
        for room in [1, 337, 0x1000, 0x10000] {
            assert!(explode(&compressed, piece, room).unwrap() == data);
        }
    }
}

#[test]
fn every_byte_round_trips_in_both_modes() {
    let data: Vec<u8> = (0..=255).collect();
    for mode in [CompressionMode::Binary, CompressionMode::ASCII] {
        let state = ImplodeState::new(mode, DictionarySize::Size1K).unwrap();
        let mut stream = Stream::new(&state);
        for &byte in &data {
            stream.symbol(&state, byte as usize);
        }
        assert_eq!(explode(&stream.end(&state), 0x800, 1000).unwrap(), data);
    }
}

#[test]
fn every_length_and_distance_round_trips() {
    for (size, far) in [
        (DictionarySize::Size1K, 1024),
        (DictionarySize::Size2K, 2048),
        (DictionarySize::Size4K, 4096),
    ] {
        let state = ImplodeState::new(CompressionMode::Binary, size).unwrap();
        let mut stream = Stream::new(&state);
        let mut data: Vec<u8> = Vec::new();
        for i in 0..4096u32 {
            let byte = (i * i >> 5) as u8;
            stream.symbol(&state, byte as usize);
            data.push(byte);
        }
        let mut copy = |data: &mut Vec<u8>, length: usize, distance: usize| {
            stream.copy(&state, length, distance);
            for _ in 0..length {
                data.push(data[data.len() - distance]);
            }
        };
        for length in 3..=516 {
            copy(&mut data, length, 1 + length * 977 % far);
        }
        for distance in 1..=256 {
            copy(&mut data, 2, distance);
        }
        for distance in [1, 2, 3, far - 1, far] {
            copy(&mut data, 10, distance);
        }
        assert!(explode(&stream.end(&state), 0x800, 0x1000).unwrap() == data);
    }
}

#[test]
fn the_longest_copies_need_room_in_the_output_buffer() {
    let state = ImplodeState::new(CompressionMode::Binary, DictionarySize::Size4K).unwrap();
    for (before, length, fits) in [
        (4095, 516, true),
        (4095, 517, true),
        (4095, 518, false),
        (4094, 518, true),
        (1, 518, true),
    ] {
        let mut stream = Stream::new(&state);
        for _ in 0..before {
            stream.symbol(&state, 7);
        }
        stream.copy(&state, length, 1);
        let result = explode(&stream.end(&state), 0x800, 0x4000);
        if fits {
            assert_eq!(result.unwrap(), vec![7u8; before + length]);
        } else {
            assert_eq!(
                result,
                Err(PkLibError::DecompressionError("Buffer overflow".to_string()))
            );
        }
    }
}

#[test]
fn a_copy_may_reach_before_the_start_of_the_output() {
    let state = ImplodeState::new(CompressionMode::Binary, DictionarySize::Size1K).unwrap();
    let mut stream = Stream::new(&state);
    stream.symbol(&state, 9);
    stream.copy(&state, 4, 3);
    assert_eq!(
        explode(&stream.end(&state), 0x800, 100).unwrap(),
        vec![9, 0, 0, 9, 0]
    );
}

#[test]
fn a_stream_without_tokens_is_too_short_for_a_header() {
    let empty = implode(&[], CompressionMode::Binary, DictionarySize::Size4K);
    assert_eq!(empty, vec![0x00, 0x06, 0x01, 0xFF]);
    assert_eq!(
        explode(&empty, 0x800, 100),
        Err(PkLibError::InvalidData("Not enough data".to_string()))
    );
}

#[test]
fn a_known_stream() {
    let data = b"AIAIAIAIAIAIA";
    let state = ImplodeState::new(CompressionMode::Binary, DictionarySize::Size1K).unwrap();
    let mut stream = Stream::new(&state);
    stream.symbol(&state, b'A' as usize);
    stream.symbol(&state, b'I' as usize);
    stream.copy(&state, 11, 2);
    let bytes = stream.end(&state);
    assert_eq!(bytes, vec![0x00, 0x04, 0x82, 0x24, 0x25, 0x8f, 0x80, 0x7f]);
    assert_eq!(explode(&bytes, 0x800, 100).unwrap(), data.to_vec());
}

#[test]
fn a_stream_that_is_cut_short_is_refused() {
    let mut data = lines();
    data.truncate(300);
    let compressed = implode(&data, CompressionMode::Binary, DictionarySize::Size4K);
    for cut in 5..compressed.len() - 1 {
        match explode(&compressed[..cut], 0x800, 0x1000) {
            Err(PkLibError::DecompressionError(text)) => {
                assert!(text == "Decode error" || text == "Invalid distance")
            }
            _ => unreachable!(),
        }
    }
}

#[test]
fn an_end_within_a_distance_is_an_invalid_distance() {
    // Length code of two bits (a repetition of three), then the byte ends within the distance.
    let state = ImplodeState::new(CompressionMode::Binary, DictionarySize::Size4K).unwrap();
    let mut stream = Stream::new(&state);
    for _ in 0..5 {
        stream.symbol(&state, 0);
    }
    stream.symbol(&state, 3 + 0xFE);
    assert_eq!(stream.bits % 8, 0);
    stream.put(0, 8);
    assert_eq!(
        explode(&stream.bytes, 0x800, 100),
        Err(PkLibError::DecompressionError("Invalid distance".to_string()))
    );
    stream.bytes.truncate(7);
    assert_eq!(
        explode(&stream.bytes, 0x800, 100),
        Err(PkLibError::DecompressionError("Decode error".to_string()))
    );
}

#[test]
fn expand_appends_block_after_block() {
    let mut data = lines();
    data.truncate(15000);
    let compressed = implode(&data, CompressionMode::Binary, DictionarySize::Size4K);
    let mut reader = ExplodeReader::new(()).unwrap();
    let mut taken = 0;
    let mut written = Vec::new();
    while !reader.finished {
        match reader.expand().unwrap() {
            Progress::NeedInput => {
                let end = compressed.len().min(taken + 100);
                reader.supply(&compressed[taken..end]).unwrap();
                taken = end;
            }
            Progress::Written(count) => {
                written.push(count);
                assert!(reader.output_buffer[..] == data[..reader.output_buffer.len()]);
            }
        }
    }
    assert_eq!(written, vec![0x1000, 0x1000, 0x1000, 15000 - 3 * 0x1000]);
    assert!(reader.output_buffer == data);
    assert_eq!(reader.output_pos, 0);
}
