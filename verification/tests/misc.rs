use bzip2_rust::compression::compress_stream::{compress_stream, CompressError};
use bzip2_rust::huffman_coding::huffman::{huf_encode, huf_encode_old};
use bzip2_rust::bitstream::bitpacker::BitPacker;
use bzip2_rust::compression::decompress::{decompress, DecompressError};
use bzip2_rust::bitstream::bitwriter::BitWriter;
use bzip2_rust::tools::rle1::rle_encode;
use bzip2_rust::compression::compress_block::compress_block;
use bzip2_rust::cli::{init_bz_opts, Algorithms, Args, BzOpts, LogLevel, Mode, Output, WorkFactor};
use bzip2_rust::crc::{do_crc, do_stream_crc};
use bzip2_rust::huffman::huf_decode;
use bzip2_rust::options;
use bzip2_rust::tools::compress::Block;
use bzip2_rust::tools::mtf::mtf_encode;
use bzip2_rust::tools::rle2::rle2_encode;
use bzip2_rust::tools::rle2_mtf_decode::rle2_mtf_decode;

fn args() -> Args {
    Args {
        filename: None,
        compress: false,
        decompress: false,
        force: false,
        keep: false,
        stdout: false,
        workfactor: false,
        small: false,
        test: false,
        fast: false,
        best: false,
        v: 3,
        license: false,
        block_size: None,
        algorithm: None,
        iterations: 4,
    }
}

#[test]
fn bz_opts_defaults() {
    let o = BzOpts::new();
    assert_eq!(o.file, None);
    assert_eq!(o.block_size, 9);
    assert_eq!(o.op_mode, Mode::Test);
    assert_eq!(o.algorithm, Algorithms::Julian);
    assert_eq!(o.iterations, 4);
    assert_eq!(o.work_factor.value(), 30);
    let o = options::BzOpts::new();
    assert_eq!(o.verbosity, options::Verbosity::Normal);
    assert_eq!(o.output, options::Output::File);
    assert_eq!(options::WorkFactor::Fallback.value(), 1);
}

#[test]
fn init_bz_opts_applies_arguments() {
    let mut o = BzOpts::new();
    let mut a = args();
    a.filename = Some("data.txt".to_string());
    a.compress = true;
    a.decompress = true;
    a.stdout = true;
    a.workfactor = true;
    a.best = true;
    a.small = true;
    a.v = 1;
    a.algorithm = Some(Algorithms::Sais);
    a.iterations = 2;
    let level = init_bz_opts(&mut o, &a);
    assert_eq!(level, LogLevel::Off);
    assert_eq!(o.file, Some("data.txt".to_string()));
    assert_eq!(o.op_mode, Mode::Unzip);
    assert_eq!(o.output, Output::Stdout);
    assert_eq!(o.work_factor, WorkFactor::Fallback);
    assert_eq!(o.block_size, 9);
    assert_eq!(o.algorithm, Algorithms::Sais);
    assert_eq!(o.iterations, 2);
}

#[test]
fn init_bz_opts_block_size_and_test_mode() {
    let mut o = BzOpts::new();
    let mut a = args();
    a.fast = true;
    a.test = true;
    a.compress = true;
    a.v = 7;
    assert_eq!(init_bz_opts(&mut o, &a), LogLevel::Debug);
    assert_eq!(o.block_size, 1);
    assert_eq!(o.op_mode, Mode::Test);
    let mut a = args();
    a.best = true;
    a.block_size = Some(5);
    a.v = 2;
    assert_eq!(init_bz_opts(&mut o, &a), LogLevel::Error);
    assert_eq!(o.block_size, 5);
    assert_eq!(o.algorithm, Algorithms::Julian);
}

#[test]
fn crc_of_check_string() {
    assert_eq!(do_crc(0, "123456789".as_bytes()), 0xFC89_1918);
    assert_eq!(do_crc(0, &[]), 0);
    assert_eq!(do_stream_crc(0x8000_0001, 0x10), 0x0000_0013);
}

#[test]
fn huf_decode_two_codes() {
    // two entries: 'a' is the one-bit code 0, 'b' the one-bit code 1
    let data = vec![2, 0, 0, 0, b'a', 0, 0, 0, 4, b'b', 1, 0, 0, 4, 0b0110_0000];
    assert_eq!(huf_decode(&data), "abbaaaaa".as_bytes());
}

#[test]
fn huf_decode_no_codes() {
    let data = vec![0, 0, 0, 0, 0xff];
    assert_eq!(huf_decode(&data), Vec::<u8>::new());
}

fn block(data: &[u8]) -> Block {
    Block {
        data: data.to_vec(),
        temp_vec: vec![],
        end: data.len() as u32,
        key: 0,
        freqs: vec![0; 258],
        sym_map: vec![],
        eob: 0,
        seq: 1,
        block_crc: 0,
        stream_crc: 0,
        budget: 0,
        is_last: false,
    }
}

#[test]
fn mtf_encode_banana() {
    let mut b = block("banana".as_bytes());
    mtf_encode(&mut b);
    assert_eq!(b.data, vec![1, 1, 2, 1, 1, 1]);
    // 'a', 'b' and 'n' are all in group 6
    assert_eq!(b.sym_map, vec![0x0200, 0x6002]);
}

#[test]
fn compress_block_writes_header_and_key() {
    let (out, valid) = compress_block(b"banana", 0x1234_5678);
    assert_eq!(&out[0..6], &[0x31, 0x41, 0x59, 0x26, 0x53, 0x59]);
    assert_eq!(&out[6..10], &[0x12, 0x34, 0x56, 0x78]);
    // randomised bit, then the key 3 (row of "banana" among its sorted rotations)
    assert_eq!(out[10], 0);
    assert_eq!(out[11], 0);
    assert_eq!(out[12], 1);
    assert_eq!(out[13] & 0x80, 0x80);
    assert!(1 <= valid && valid <= 8);
}

#[test]
fn rle2_mtf_roundtrip_of_encoded_block() {
    let text = b"banana bandana".to_vec();
    let mut block = Block {
        data: text.clone(),
        temp_vec: Vec::new(),
        end: text.len() as u32,
        key: 0,
        freqs: Vec::new(),
        sym_map: Vec::new(),
        eob: 0,
        seq: 0,
        block_crc: 0,
        stream_crc: 0,
        budget: 0,
        is_last: false,
    };
    mtf_encode(&mut block);
    rle2_encode(&mut block);
    let mut list: Vec<u8> = Vec::new();
    for b in 0..=255u8 {
        if text.contains(&b) {
            list.push(b);
        }
    }
    let out = rle2_mtf_decode(&block.temp_vec, &mut list, text.len() + 1);
    assert_eq!(out, text);
}

#[test]
fn decompress_rejects_bad_signature() {
    assert_eq!(decompress(b"BZx9"), Err(DecompressError::BadSignature));
    assert_eq!(decompress(b"BZ"), Err(DecompressError::BadSignature));
}

#[test]
fn decompress_rejects_bad_block_size() {
    assert_eq!(decompress(b"BZh0"), Err(DecompressError::BadBlockSize));
    assert_eq!(decompress(b"BZh"), Err(DecompressError::BadBlockSize));
}

#[test]
fn decompress_reports_a_truncated_stream() {
    assert_eq!(decompress(b"BZh9\x31\x41"), Err(DecompressError::UnexpectedEnd));
}

#[test]
fn compress_then_decompress_gives_the_data_back() {
    let text = b"hello world, hello world, hello bzip2! aaaaaaaaaaaa zzz".to_vec();
    let (consumed, block) = rle_encode(&text, 899_981);
    assert_eq!(consumed, text.len());
    let crc = do_crc(0, &text);
    let (out, valid) = compress_block(&block, crc);
    let mut bw = BitWriter::new("roundtrip.bz2", 9);
    let stream = bw.add_block(true, &out, 8 - valid);
    assert_eq!(&stream[0..4], b"BZh9");
    assert_eq!(decompress(&stream).unwrap(), text);
}

fn coded_block(text: &[u8]) -> Block {
    let mut b = block(text);
    mtf_encode(&mut b);
    rle2_encode(&mut b);
    let mut freqs = vec![0u32; 258];
    for &s in &b.temp_vec {
        freqs[s as usize] += 1;
    }
    b.freqs = freqs;
    b
}

#[test]
fn huf_encode_old_writes_the_symbol_map_first() {
    let text = b"the quick brown fox jumps over the lazy dog, again and again";
    let mut b = coded_block(text);
    let sym_map = b.sym_map.clone();
    let mut bp = BitPacker::new(100);
    assert!(huf_encode_old(&mut bp, &mut b, 4).is_ok());
    bp.flush();
    assert_eq!(bp.output[0], (sym_map[0] >> 8) as u8);
    assert_eq!(bp.output[1], (sym_map[0] & 0xff) as u8);
    let mut bp2 = BitPacker::new(100);
    let mut b2 = coded_block(text);
    assert!(huf_encode(&mut bp2, &mut b2, 4).is_ok());
    bp2.flush();
    assert_eq!(&bp2.output[0..2], &bp.output[0..2]);
}

#[test]
fn compress_stream_round_trip() {
    let text = "Goofy teeeeeeeest, and again a goofy teeeeest: the quick brown fox.".as_bytes();
    let stream = compress_stream(text, 1).unwrap();
    assert_eq!(&stream[0..4], "BZh1".as_bytes());
    assert_eq!(decompress(&stream).unwrap(), text.to_vec());
    assert_eq!(compress_stream(&[], 1), Err(CompressError::NoData));
}

#[test]
fn decompress_block_header_and_footer_errors() {
    assert_eq!(decompress(b"BZh9\x31\x41\x59\x26\x53\x58"), Err(DecompressError::BadBlockHeader));
    // a footer without its stream CRC
    assert_eq!(decompress(b"BZh9\x17\x72\x45\x38\x50\x90\x00"), Err(DecompressError::UnexpectedEnd));
    // an empty stream: footer and CRC
    assert_eq!(decompress(b"BZh9\x17\x72\x45\x38\x50\x90\x00\x00\x00\x00"), Ok(Vec::new()));
}

#[test]
fn compress_stream_round_trip_mixed_bytes() {
    let mut text: Vec<u8> = Vec::new();
    for i in 0..3_000u32 {
        text.push((i % 251) as u8);
        if i % 7 == 0 {
            text.push(b'a');
        }
    }
    let stream = compress_stream(&text, 1).unwrap();
    assert_eq!(decompress(&stream).unwrap(), text);
}
