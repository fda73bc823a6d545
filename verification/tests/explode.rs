use pklib::explode::{IN_BUFF_SIZE, OUT_START};
use pklib::tables::{
    CH_BITS_ASC, CH_CODE_ASC, DIST_BITS, DIST_CODE, LEN_BITS, LEN_CODE,
};
use pklib::{CompressionMode, ExplodeReader, PkLibError, Progress, ReadStep};

const AIAI: [u8; 8] = [0x00, 0x04, 0x82, 0x24, 0x25, 0x8f, 0x80, 0x7f];

fn reader() -> ExplodeReader<()> {
    ExplodeReader::new(()).unwrap()
}

#[test]
fn a_short_binary_stream() {
    let mut r = reader();
    let mut buf = [0u8; 100];
    assert_eq!(r.read(&mut buf), Ok(ReadStep::NeedInput));
    assert_eq!(r.supply(&AIAI), Ok(()));
    // The end mark is the last thing in the input, so it is known only at the end of the input.
    assert_eq!(r.read(&mut buf), Ok(ReadStep::NeedInput));
    assert_eq!(r.supply(&[]), Ok(()));
    assert_eq!(r.read(&mut buf), Ok(ReadStep::Read(13)));
    assert_eq!(&buf[..14], b"AIAIAIAIAIAIA\0");
    assert!(r.finished);
    assert_eq!(r.read(&mut buf), Ok(ReadStep::Read(0)));
}

#[test]
fn small_reads_take_what_is_pending() {
    let mut r = reader();
    r.supply(&AIAI).unwrap();
    r.supply(&[0]).unwrap();
    let mut buf = [0u8; 5];
    assert_eq!(r.read(&mut buf), Ok(ReadStep::Read(5)));
    assert_eq!(&buf, b"AIAIA");
    assert_eq!(r.read(&mut buf[..0]), Ok(ReadStep::Read(0)));
    assert_eq!(r.read(&mut buf), Ok(ReadStep::Read(5)));
    assert_eq!(&buf, b"IAIAI");
    assert_eq!(r.read(&mut buf), Ok(ReadStep::Read(3)));
    assert_eq!(&buf, b"AIAAI");
    assert!(r.output_buffer.is_empty() && r.output_pos == 0);
    assert_eq!(r.read(&mut buf), Ok(ReadStep::Read(0)));
}

#[test]
fn expand_counts_what_it_writes() {
    let mut r = reader();
    assert_eq!(r.expand(), Ok(Progress::NeedInput));
    r.supply(&AIAI[..6]).unwrap();
    assert_eq!(r.expand(), Ok(Progress::NeedInput));
    r.supply(&AIAI[6..]).unwrap();
    assert_eq!(r.expand(), Ok(Progress::NeedInput));
    r.supply(&[]).unwrap();
    assert_eq!(r.expand(), Ok(Progress::Written(13)));
    assert_eq!(r.output_buffer, b"AIAIAIAIAIAIA".to_vec());
    assert!(r.finished);
    assert_eq!(r.expand(), Ok(Progress::Written(0)));
    assert_eq!(r.output_buffer, b"AIAIAIAIAIAIA".to_vec());
    assert_eq!(r.output_pos, 0);
}

#[test]
fn headers_that_are_refused() {
    let mut r = reader();
    assert_eq!(
        r.supply(&[]),
        Err(PkLibError::InvalidData("Not enough data".to_string()))
    );
    assert_eq!(
        r.supply(&AIAI[..4]),
        Err(PkLibError::InvalidData("Not enough data".to_string()))
    );
    assert_eq!(
        r.supply(&[2, 4, 0, 0, 0]),
        Err(PkLibError::InvalidCompressionMode(2))
    );
    assert_eq!(
        r.supply(&[0, 3, 0, 0, 0]),
        Err(PkLibError::InvalidDictionaryBits(3))
    );
    assert_eq!(
        r.supply(&[1, 7, 0, 0, 0]),
        Err(PkLibError::InvalidDictionaryBits(7))
    );
    assert!(!r.initialized);
    assert_eq!(r.supply(&AIAI), Ok(()));
    assert!(r.initialized);
}

#[test]
fn initialize_reads_the_header_once() {
    let mut r = reader();
    assert_eq!(r.initialize(&AIAI), Ok(()));
    assert_eq!(r.state.ctype, CompressionMode::Binary);
    assert_eq!(r.state.dsize_bits, 4);
    assert_eq!(r.state.dsize_mask, 0x0F);
    assert_eq!(r.state.output_pos, OUT_START);
    assert_eq!(r.state.bit_buff, 0x82);
    assert_eq!(r.state.in_pos, 3);
    assert_eq!(r.state.in_buff, AIAI.to_vec());
    assert_eq!(r.initialize(&[1, 6, 0, 0, 0]), Ok(()));
    assert_eq!(r.state.ctype, CompressionMode::Binary);
    assert_eq!(r.state.dsize_bits, 4);
    r.supply(&[]).unwrap();
    assert_eq!(r.expand(), Ok(Progress::Written(13)));
}

#[test]
fn input_that_ends_too_soon() {
    let mut r = reader();
    r.supply(&AIAI[..5]).unwrap();
    assert_eq!(r.expand(), Ok(Progress::NeedInput));
    r.supply(&[]).unwrap();
    assert_eq!(
        r.expand(),
        Err(PkLibError::DecompressionError("Decode error".to_string()))
    );
    assert!(r.output_buffer.is_empty() && r.output_pos == 0 && !r.finished);
    assert_eq!(r.expand(), Ok(Progress::NeedInput));
    r.supply(&AIAI[5..]).unwrap();
    assert_eq!(r.expand(), Ok(Progress::NeedInput));
    r.supply(&[]).unwrap();
    let mut buf = [0u8; IN_BUFF_SIZE];
    assert_eq!(r.read(&mut buf), Ok(ReadStep::Read(13)));
}

#[test]
fn a_decode_table_holds_the_code_that_a_byte_starts_with() {
    let mut positions = [9u8; 0x101];
    ExplodeReader::<()>::gen_decode_tabs(&mut positions, &[0, 1, 3], &[1, 2, 2]);
    assert_eq!(&positions[..8], &[0, 1, 0, 2, 0, 1, 0, 2]);
    assert_eq!(&positions[0xFC..], &[0, 1, 0, 2, 9]);
    let mut short = [9u8; 3];
    ExplodeReader::<()>::gen_decode_tabs(&mut short, &[1], &[2]);
    assert_eq!(short, [9, 0, 9]);
}

#[test]
fn decode_tables_find_every_code() {
    let mut r = reader();
    r.supply(&[0, 4, 0, 0, 0]).unwrap();
    for x in 0..0x100usize {
        let i = r.state.length_codes[x] as usize;
        assert_eq!(x % (1 << LEN_BITS[i]), LEN_CODE[i] as usize);
        let i = r.state.dist_pos_codes[x] as usize;
        assert_eq!(x % (1 << DIST_BITS[i]), DIST_CODE[i] as usize);
    }
}

#[test]
fn ascii_tables_find_every_code() {
    let mut r = reader();
    r.supply(&[1, 4, 0, 0, 0]).unwrap();
    assert_eq!(r.state.offs_2c34[0x0F], b' ');
    assert_eq!(r.state.offs_2c34[0xFF], b' ');
    assert_eq!(r.state.offs_2c34[0x31], b'A');
    assert_eq!(r.state.ch_bits_asc[b' ' as usize], 4);
    for c in 0..0x100usize {
        let code = CH_CODE_ASC[c] as usize;
        let left = r.state.ch_bits_asc[c];
        let (skip, found) = if CH_BITS_ASC[c] <= 8 {
            (0, r.state.offs_2c34[code])
        } else if code & 0xFF == 0 {
            (8, r.state.offs_2eb4[code >> 8])
        } else {
            assert_eq!(r.state.offs_2c34[code & 0xFF], 0xFF);
            if code & 0x3F == 0 {
                (6, r.state.offs_2e34[code >> 6])
            } else {
                (4, r.state.offs_2d34[code >> 4])
            }
        };
        assert_eq!(found as usize, c);
        assert_eq!(left + skip, CH_BITS_ASC[c]);
    }
}
