use bzip2_rust::bitstream::bitpacker::BitPacker;
use bzip2_rust::bitstream::bitwriter::BitWriter;

#[test]
fn out16_test() {
    let mut bp = BitPacker::new(100);
    let data = 0b00100001_00100000;
    bp.out16(data);
    bp.flush();
    let out = bp.output;
    assert_eq!(out, "! ".as_bytes());
}

#[test]
fn out24_and_loc_test() {
    let mut bp = BitPacker::new(100);
    let data = 0b00001000_00000000_00000000_00100001;
    bp.out24(data);
    bp.flush();
    let out = &bp.output;
    assert_eq!(out, "!".as_bytes());
    assert_eq!("[1.0]", &bp.loc());
    let data = 0b00011000_00000000_00000000_00000011;
    bp.out24(data);
    bp.flush();
    let out2 = &bp.output;
    assert_eq!(out2, &[33, 0, 0, 3]); // Note: '33' is data from previous call
    assert_eq!("[4.0]", &bp.loc());
}

#[test]
fn bitpacker_out24_short_test() {
    let mut bp = BitPacker::new(100);
    // add 2 bits, both set
    let data = 0b00000010_00000000_00000000_00000011;
    bp.out24(data);
    bp.flush();
    let out2 = &bp.output;
    // bits should show at the front.
    assert_eq!(out2, &[0b1100_0000]);
    assert_eq!("[1.0]", &bp.loc());
}

#[test]
fn out32_test() {
    let mut bp = BitPacker::new(100);
    let data = 0b00100001_00100000_00100001_00100000;
    bp.out32(data);
    bp.flush();
    let out = bp.output;
    assert_eq!(out, [33, 32, 33, 32]);
}

#[test]
fn out8_test() {
    let mut bw = BitWriter::new("", 1);
    let data = 'x' as u8;
    bw.out8(data);
    bw.flush();
    let out = bw.output;
    assert_eq!(out, "x".as_bytes());
}

#[test]
fn last_bits_test_1() {
    let mut bw = BitWriter::new("", 1);
    bw.out8(255);
    bw.out8(1);
    bw.out8(128);
    bw.out8(255);
    bw.out8(7 << 5);
    bw.flush();
    let out = bw.output;
    assert_eq!(out, vec![255, 1, 128, 255, 224]);
}

#[test]
fn bitwriter_out24_short_test() {
    let mut bw = BitWriter::new("", 100);
    bw.out8(255);
    bw.out8(6 << 5);
    bw.flush();
    let out2 = &bw.output;
    assert_eq!(out2, &[0b1111_1111, 0b1100_0000]);
}

#[test]
fn bitwriter_new_clamps_block_size() {
    let bw = BitWriter::new("out.bz2", 12);
    assert_eq!(bw.block_size, 9);
    assert_eq!(bw.path, "out.bz2");
    let bw = BitWriter::new("out.bz2", 3);
    assert_eq!(bw.block_size, 3);
}

#[test]
fn add_block_writes_header_and_footer() {
    let mut bw = BitWriter::new("x", 9);
    // a packed block: the block magic, its CRC (5) and one byte of data
    let block = [0x31, 0x41, 0x59, 0x26, 0x53, 0x59, 0, 0, 0, 5, 0xab];
    let written = bw.add_block(true, &block, 0);
    // stream header "BZh9", the block, then the end-of-stream magic and the stream CRC
    assert_eq!(&written[0..4], "BZh9".as_bytes());
    assert_eq!(&written[4..15], &block);
    assert_eq!(&written[15..21], &[0x17, 0x72, 0x45, 0x38, 0x50, 0x90]);
    assert_eq!(&written[21..25], &[0, 0, 0, 5]);
    assert_eq!(written.len(), 25);
    assert_eq!(bw.stream_crc, 5);
}

#[test]
fn tools_bitwriter_packs_bits() {
    let mut bw = bzip2_rust::tools::bitwriter::BitWriter::new();
    bw.out24(0x03_000005); // the three bits 101
    bw.out8(0xff);
    bw.out16(0x0102);
    bw.out32(0x0304_0506);
    bw.flush();
    assert_eq!(bw.output, vec![0b1011_1111, 0b1110_0000, 0b0010_0000, 0b0100_0000, 0b0110_0000, 0b1000_0000, 0b1010_0000, 0b1100_0000]);
}

#[test]
fn flush_with_nothing_queued_pads_nothing() {
    let mut bp = BitPacker::new(8);
    bp.out24(0x02_000003);
    bp.flush();
    assert_eq!(bp.padding, 6);
    bp.out16(0x2120);
    bp.flush();
    assert_eq!(bp.output, vec![0xC0, 0x21, 0x20]);
    assert_eq!(bp.padding, 0);
}

#[test]
fn out24_of_zero_bits_writes_nothing() {
    let mut bp = BitPacker::new(8);
    bp.out24(0x00_00FFFF);
    bp.out24(0x08_000041);
    bp.flush();
    assert_eq!(bp.output, vec![0x41]);
}
