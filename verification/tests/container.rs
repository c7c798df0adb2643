use mcp::tape::CodecError;
use mcp::tape::File;
use mcp::tape::LoadError;
use mcp::tape::Tape;

const MARKER: [u8; 8] = [0x1f, 0xa6, 0xde, 0xba, 0xcc, 0x13, 0x7d, 0x74];

fn bin_tape_bytes() -> Vec<u8> {
    let mut bytes: Vec<u8> = Vec::new();
    bytes.extend_from_slice(&MARKER);
    bytes.extend_from_slice(&[0xd0; 10]);
    bytes.extend_from_slice(b"FOOBAR");
    bytes.extend_from_slice(&MARKER);
    bytes.extend_from_slice(&[0x00, 0x80, 0x08, 0x80, 0x00, 0x00]);
    bytes.extend_from_slice(&[0x01, 0x02, 0x03, 0x04, 0x05, 0x06, 0x07]);
    bytes
}

#[test]
fn should_load_empty_tape() {
    let bytes: Vec<u8> = vec![];
    let tape = Tape::from_bytes(&bytes);
    assert!(tape.is_ok());
    assert_eq!(None, tape.unwrap().files().next());
}

#[test]
fn should_load_bin_file() {
    let bytes = bin_tape_bytes();
    let tape = Tape::from_bytes(&bytes).unwrap();
    let mut files = tape.files();
    while let Some(f) = files.next() {
        match &f {
            File::Bin(name, begin, end, start, data) => {
                assert_eq!("FOOBAR", name);
                assert_eq!(0x8000, *begin);
                assert_eq!(0x8008, *end);
                assert_eq!(0x0000, *start);
                assert_eq!(&[0x01, 0x02, 0x03, 0x04, 0x05, 0x06, 0x07], &data[..]);
            }
            _ => panic!("unexpected file"),
        }
    }
}

#[test]
fn should_count_one_block_per_marker() {
    // Zero markers: zero blocks.
    let tape = Tape::from_bytes(&[]).unwrap();
    assert_eq!(0, tape.blocks().len());
    // Three markers: three blocks, here none a header.
    let mut bytes: Vec<u8> = Vec::new();
    bytes.extend_from_slice(&MARKER);
    bytes.extend_from_slice(&[1, 2, 3]);
    bytes.extend_from_slice(&MARKER);
    bytes.extend_from_slice(&[4]);
    bytes.extend_from_slice(&MARKER);
    let tape = Tape::from_bytes(&bytes).unwrap();
    assert_eq!(3, tape.blocks().len());
    let mut files = tape.files();
    let mut count = 0;
    while let Some(f) = files.next() {
        assert!(matches!(f, File::Custom(_)));
        count += 1;
    }
    assert_eq!(3, count);
}

#[test]
fn should_reject_header_without_data_block() {
    let mut bytes: Vec<u8> = Vec::new();
    bytes.extend_from_slice(&MARKER);
    bytes.extend_from_slice(&[0xd0; 10]);
    bytes.extend_from_slice(b"FOOBAR");
    assert_eq!(Err(LoadError::MalformedContainer), Tape::from_bytes(&bytes).map(|_| ()));
}

#[test]
fn should_reject_short_data_block() {
    let mut bytes: Vec<u8> = Vec::new();
    bytes.extend_from_slice(&MARKER);
    bytes.extend_from_slice(&[0xd0; 10]);
    bytes.extend_from_slice(b"FOOBAR");
    bytes.extend_from_slice(&MARKER);
    bytes.extend_from_slice(&[0x01, 0x02]);
    assert_eq!(Err(LoadError::MalformedContainer), Tape::from_bytes(&bytes).map(|_| ()));
}

#[test]
fn should_reject_non_ascii_name() {
    let mut bytes: Vec<u8> = Vec::new();
    bytes.extend_from_slice(&MARKER);
    bytes.extend_from_slice(&[0xd0; 10]);
    bytes.extend_from_slice(&[0xff; 6]);
    bytes.extend_from_slice(&MARKER);
    bytes.extend_from_slice(&[0; 6]);
    assert_eq!(Err(LoadError::MalformedContainer), Tape::from_bytes(&bytes).map(|_| ()));
}

#[test]
fn should_serialize_back_to_original_bytes() {
    let bytes = bin_tape_bytes();
    let tape = Tape::from_bytes(&bytes).unwrap();
    assert_eq!(bytes, tape.serialize());
}

#[test]
fn should_round_trip_bin_append() {
    let mut tape = Tape::new();
    // A foreign binary file: kind byte, three addresses, seven data bytes.
    let data: Vec<u8> = vec![
        0xfe, 0x00, 0x80, 0x08, 0x80, 0x00, 0x00, 0x01, 0x02, 0x03, 0x04, 0x05, 0x06, 0x07,
    ];
    let padding = tape.append_bin(b"FOOBAR", &data).unwrap();
    // 13 bytes stripped of the kind byte: 3 zeros reach the boundary.
    assert_eq!(3, padding);
    let bytes = tape.serialize();
    let decoded = Tape::from_bytes(&bytes).unwrap();
    let mut files = decoded.files();
    match files.next() {
        Some(File::Bin(name, begin, end, start, data)) => {
            assert_eq!("FOOBAR", name);
            assert_eq!(0x8000, begin);
            assert_eq!(0x8008, end);
            assert_eq!(0x0000, start);
            assert_eq!(&[1, 2, 3, 4, 5, 6, 7, 0, 0, 0], &data[..]);
        }
        _ => panic!("unexpected file"),
    }
    assert_eq!(None, files.next());
}

#[test]
fn should_round_trip_custom_append() {
    let mut tape = Tape::new();
    let padding = tape.append_custom(&[9, 9, 9]).unwrap();
    assert_eq!(5, padding);
    let bytes = tape.serialize();
    let decoded = Tape::from_bytes(&bytes).unwrap();
    let mut files = decoded.files();
    match files.next() {
        Some(File::Custom(data)) => {
            assert_eq!(&[9, 9, 9, 0, 0, 0, 0, 0], &data[..]);
        }
        _ => panic!("unexpected file"),
    }
    assert_eq!(None, files.next());
}

#[test]
fn should_align_block_starts_after_appends() {
    let mut tape = Tape::new();
    assert_eq!(3, tape.append_bin(b"ABCDEF", &[0u8; 13]).unwrap());
    assert_eq!(6, tape.append_basic(b"GHIJKL", &[1u8, 2]).unwrap());
    assert_eq!(251, tape.append_ascii(b"MNOPQR", b"Hello").unwrap());
    assert_eq!(7, tape.append_custom(&[5u8]).unwrap());
    let bytes = tape.serialize();
    // Every block start (each marker) falls on an 8-byte boundary.
    let mut offset = 0;
    for block in tape.blocks() {
        assert_eq!(0, offset % 8);
        assert_eq!(&MARKER, &bytes[offset..offset + 8]);
        offset += 8 + block.data().len();
    }
    assert_eq!(bytes.len(), offset);
}

#[test]
fn should_report_zero_padding_when_aligned() {
    let mut tape = Tape::new();
    assert_eq!(0, tape.append_basic(b"ABCDEF", &[0u8; 16]).unwrap());
    assert_eq!(0, tape.append_custom(&[1u8; 8]).unwrap());
    assert_eq!(0, tape.append_ascii(b"ABCDEF", &[2u8; 256]).unwrap());
}

#[test]
fn should_pad_ascii_to_256_with_eof_filler() {
    let mut tape = Tape::new();
    let padding = tape.append_ascii(b"TEXT  ", b"Hello").unwrap();
    assert_eq!(256 - 5, padding);
    let blocks = tape.blocks();
    assert_eq!(2, blocks.len());
    let payload = blocks[1].data();
    assert_eq!(256, payload.len());
    assert_eq!(b"Hello", &payload[..5]);
    assert!(payload[5..].iter().all(|b| *b == 0x1a));
}

#[test]
fn should_reject_non_ascii_append_name() {
    let mut tape = Tape::new();
    let name: [u8; 6] = [0xc0, b'A', b'B', b'C', b'D', b'E'];
    assert_eq!(Err(CodecError::InvalidName), tape.append_bin(&name, &[0u8; 8]));
    assert_eq!(Err(CodecError::InvalidName), tape.append_basic(&name, &[0u8; 8]));
    assert_eq!(Err(CodecError::InvalidName), tape.append_ascii(&name, &[0u8; 8]));
    // A rejected append leaves the tape untouched.
    assert_eq!(0, tape.blocks().len());
}

#[test]
fn should_read_block_header_and_name() {
    let bytes = bin_tape_bytes();
    let tape = Tape::from_bytes(&bytes).unwrap();
    let blocks = tape.blocks();
    assert!(blocks[0].is_bin_header());
    assert_eq!(Some("FOOBAR".to_string()), blocks[0].file_name());
    assert!(!blocks[1].is_bin_header());
    assert_eq!(None, blocks[1].file_name());
}

#[test]
fn should_extract_bin_with_kind_byte() {
    let f = File::Bin("FOOBAR".to_string(), 0x8000, 0x8008, 0, vec![1, 2, 3]);
    assert_eq!(vec![0xfe, 1, 2, 3], f.extract_bytes());
    assert_eq!(Some("FOOBAR".to_string()), f.name());
}

#[test]
fn should_extract_basic_unchanged() {
    let f = File::Basic("PROG  ".to_string(), vec![10, 20, 30]);
    assert_eq!(vec![10, 20, 30], f.extract_bytes());
    assert_eq!(Some("PROG  ".to_string()), f.name());
}

#[test]
fn should_extract_ascii_up_to_eof_filler() {
    let f = File::Ascii(
        "TEXT  ".to_string(),
        vec![vec![b'h', b'i', 0x1a, 0x00], vec![b'y', 0x1a], vec![b'!']],
    );
    assert_eq!(b"hiy!".to_vec(), f.extract_bytes());
}

#[test]
fn should_extract_custom_unchanged() {
    let f = File::Custom(vec![0xfe, 0xff]);
    assert_eq!(vec![0xfe, 0xff], f.extract_bytes());
    assert_eq!(None, f.name());
}

#[test]
fn should_exhaust_files_iteration() {
    let mut tape = Tape::new();
    tape.append_custom(&[1u8; 8]).unwrap();
    let decoded = Tape::from_bytes(&tape.serialize()).unwrap();
    let mut files = decoded.files();
    assert!(files.next().is_some());
    assert_eq!(None, files.next());
    assert_eq!(None, files.next());
}

#[test]
fn should_read_back_basic_append_as_bin_entry() {
    // The container records no entry kind next to the name, so a
    // tokenized-program entry reads back as a binary entry with the
    // same name and bytes.
    let mut tape = Tape::new();
    assert_eq!(0, tape.append_basic(b"PROG  ", &[1, 2, 3, 4, 5, 6, 7, 8]).unwrap());
    let decoded = Tape::from_bytes(&tape.serialize()).unwrap();
    let mut files = decoded.files();
    match files.next() {
        Some(File::Bin(name, begin, end, start, data)) => {
            assert_eq!("PROG  ", name);
            assert_eq!(0x0201, begin);
            assert_eq!(0x0403, end);
            assert_eq!(0x0605, start);
            assert_eq!(&[7, 8], &data[..]);
        }
        _ => panic!("unexpected file"),
    }
    assert_eq!(None, files.next());
}

#[test]
fn should_read_back_ascii_append_as_bin_entry() {
    let mut tape = Tape::new();
    assert_eq!(250, tape.append_ascii(b"TEXT  ", b"Hello!").unwrap());
    let decoded = Tape::from_bytes(&tape.serialize()).unwrap();
    let mut files = decoded.files();
    match files.next() {
        Some(File::Bin(name, begin, end, start, data)) => {
            assert_eq!("TEXT  ", name);
            assert_eq!(0x6548, begin);
            assert_eq!(0x6c6c, end);
            assert_eq!(0x216f, start);
            assert_eq!(250, data.len());
            assert!(data.iter().all(|b| *b == 0x1a));
        }
        _ => panic!("unexpected file"),
    }
    assert_eq!(None, files.next());
}
