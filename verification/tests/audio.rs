use byteorder::ByteOrder;
use byteorder::LittleEndian;

use mcp::tape::Tape;
use mcp::wav::Exporter;

#[test]
fn should_export_empty_data() {
    let exporter = Exporter::new();
    let output: Vec<u8> = exporter.export();
    assert_eq!("RIFF".as_bytes(), &output[0..4]);
    assert_eq!(36, LittleEndian::read_u32(&output[4..8]));
    assert_eq!("WAVE".as_bytes(), &output[8..12]);
    assert_eq!("fmt ".as_bytes(), &output[12..16]);
    assert_eq!(16, LittleEndian::read_u32(&output[16..20]));
    assert_eq!(1, LittleEndian::read_u16(&output[20..22]));
    assert_eq!(1, LittleEndian::read_u16(&output[22..24]));
    assert_eq!(43200, LittleEndian::read_u32(&output[24..28]));
    assert_eq!(43200, LittleEndian::read_u32(&output[28..32]));
    assert_eq!(1, LittleEndian::read_u16(&output[32..34]));
    assert_eq!(8, LittleEndian::read_u16(&output[34..36]));
    assert_eq!("data".as_bytes(), &output[36..40]);
    assert_eq!(0, LittleEndian::read_u32(&output[40..44]));
}

#[test]
fn should_export_exactly_44_bytes_for_empty_tape() {
    let mut exporter = Exporter::new();
    let tape = Tape::new();
    exporter.write_tape(&tape);
    assert_eq!(44, exporter.export().len());
}

#[test]
fn should_write_silences() {
    let mut exporter = Exporter::new();
    assert_eq!(5, exporter.write_silence(5));
    assert_eq!(43200, exporter.write_short_silence());
    assert_eq!(86400, exporter.write_long_silence());
    let output = exporter.export();
    assert_eq!(44 + 5 + 43200 + 86400, output.len());
    assert!(output[44..].iter().all(|b| *b == 0x80));
}

#[test]
fn should_write_headers() {
    let mut exporter = Exporter::new();
    assert_eq!(72000, exporter.write_short_header());
    assert_eq!(288000, exporter.write_long_header());
    assert_eq!(18 * 3, exporter.write_header(3));
    let output = exporter.export();
    assert_eq!(44 + 72000 + 288000 + 54, output.len());
    // A pilot tone is a run of 18-sample cycles, each opening at
    // mid-scale and rising.
    assert_eq!(0x80, output[44]);
    assert_eq!(0xab, output[45]);
    assert_eq!(&output[44..62], &output[62..80]);
}

#[test]
fn should_write_byte_frames() {
    // Every byte frame takes 396 samples: 36 for the start bit, 36 per
    // data bit, 72 for the four stop cycles.
    let mut ex0 = Exporter::new();
    assert_eq!(396, ex0.write_data(&[0x00]));
    let out0 = ex0.export();
    assert_eq!(44 + 396, out0.len());
    // A zero byte repeats the 36-sample start cycle for every bit.
    assert_eq!(0x80, out0[44]);
    assert_eq!(0x96, out0[45]);
    assert_eq!(&out0[44..80], &out0[80..116]);

    let mut ex1 = Exporter::new();
    assert_eq!(396, ex1.write_data(&[0xff]));
    let out1 = ex1.export();
    assert_eq!(44 + 396, out1.len());
    // A set bit doubles the rate: two 18-sample cycles.
    assert_eq!(0xab, out1[44 + 36 + 1]);
    assert_eq!(&out1[80..98], &out1[98..116]);

    let mut ex2 = Exporter::new();
    assert_eq!(2 * 396, ex2.write_data(&[0x55, 0xaa]));
    assert_eq!(44 + 792, ex2.export().len());
}

#[test]
fn should_encode_whole_tape() {
    let mut tape = Tape::new();
    tape.append_custom(&[7u8; 8]).unwrap();
    let mut exporter = Exporter::new();
    exporter.write_tape(&tape);
    // One data block: short silence, short pilot, eight byte frames.
    let expected = 43200 + 72000 + 8 * 396;
    let output = exporter.export();
    assert_eq!(44 + expected, output.len());
    assert_eq!(expected as u32, LittleEndian::read_u32(&output[40..44]));
    assert_eq!(expected as u32 + 36, LittleEndian::read_u32(&output[4..8]));
}

#[test]
fn should_encode_header_blocks_with_long_pilot() {
    let mut tape = Tape::new();
    tape.append_basic(b"ABCDEF", &[1, 2, 3, 4, 5, 6, 7, 8]).unwrap();
    let mut exporter = Exporter::new();
    exporter.write_tape(&tape);
    // Header block: long silence, long pilot, 16 byte frames; data
    // block: short silence, short pilot, 8 byte frames.
    let expected = (86400 + 288000 + 16 * 396) + (43200 + 72000 + 8 * 396);
    assert_eq!(44 + expected, exporter.export().len());
}
