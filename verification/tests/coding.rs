use bzip2_rust::compression::compress_stream::compress_stream;
use bzip2_rust::compression::decompress::decompress;
use bzip2_rust::huffman_coding::code_lengths::improve_code_len_from_weights;
use bzip2_rust::huffman_coding::codes::{canonical_codes, CodeError};
use bzip2_rust::huffman_coding::tables::init_tables_old;
use bzip2_rust::tools::rle1::{rle1_decode, rle_encode};
use bzip2_rust::tools::rle2::{rle2_decode, rle2_encode_runs};
use bzip2_rust::tools::rle2_mtf_decode::{rle2_mtf_decode, rle2_mtf_decode_fast};
use bzip2_rust::tools::symbol_map::{decode_sym_map, encode_sym_map};
use std::collections::VecDeque;

#[test]
fn rle1_de_simple() {
    let input: Vec<u8> = vec![71, 111, 111, 102, 121, 32, 116, 101, 101, 101, 101, 4, 115, 116];
    assert_eq!(rle1_decode(&input), "Goofy teeeeeeeest".as_bytes());
}

#[test]
fn rle1_encode_simple() {
    let input = "Goofy teeeeeeeest".as_bytes();
    let (used, out) = rle_encode(input, 100);
    assert_eq!(used, input.len());
    assert_eq!(out, vec![71, 111, 111, 102, 121, 32, 116, 101, 101, 101, 101, 4, 115, 116]);
}

#[test]
fn rle1_roundtrip_two_runs() {
    let input = "aaaabbbb".as_bytes();
    let (used, enc) = rle_encode(input, 100);
    assert_eq!(used, 8);
    assert_eq!(enc, vec![97, 97, 97, 97, 0, 98, 98, 98, 98, 0]);
    assert_eq!(rle1_decode(&enc), "aaaabbbb".as_bytes());
}

#[test]
fn rle1_roundtrip_long_runs_and_literals() {
    let mut input: Vec<u8> = Vec::new();
    input.extend_from_slice(b"xyz");
    input.extend(std::iter::repeat(7u8).take(300));
    input.extend_from_slice(b"qqqq!qqq");
    input.extend(std::iter::repeat(9u8).take(5));
    let (used, enc) = rle_encode(&input, 10_000);
    assert_eq!(used, input.len());
    assert_eq!(rle1_decode(&enc), input);
}

#[test]
fn rle1_encode_short_input_stops_at_size() {
    assert_eq!(rle_encode(&[1, 2, 3], 2), (2, vec![1, 2]));
    assert_eq!(rle_encode(&[5, 5, 5, 5, 5], 3), (3, vec![5, 5, 5]));
}

#[test]
fn rle2_run_encode_55() {
    let mut counts = vec![0, 0];
    assert_eq!(rle2_encode_runs(55, &mut counts), [0, 0, 0, 1, 1])
}

#[test]
fn rle2_run_encode_8() {
    let mut counts = vec![0, 0];
    assert_eq!(rle2_encode_runs(8, &mut counts), [1, 0, 0])
}

#[test]
fn rle2_run_encode_5() {
    let mut counts = vec![0, 0];
    assert_eq!(rle2_encode_runs(5, &mut counts), [0, 1])
}

#[test]
fn rle2_run_counts() {
    let mut counts = vec![0, 0];
    let _ = rle2_encode_runs(55, &mut counts);
    assert_eq!(counts, vec![3, 2]);
}

#[test]
fn encode_symbol_map_test() {
    let mut x = "Making a silly test.".as_bytes().to_vec();
    x.sort_unstable();
    x.dedup();
    let x = VecDeque::from(x);
    let idx = vec![11008, 32770, 4, 17754, 6208];
    assert_eq!(idx, encode_sym_map(&x))
}

#[test]
fn encode_symbol_map_full_test() {
    let mut x: Vec<u8> = vec![];
    for i in 0..=255 {
        x.push(i)
    }
    let x = VecDeque::from(x);
    let idx = vec![0xffff; 17];
    assert_eq!(idx, encode_sym_map(&x))
}

#[test]
fn decode_symbol_map_test() {
    let maps = vec![11008, 32770, 4, 17754, 6208];
    let mut compare = "Making a silly test.".as_bytes().to_vec();
    compare.sort_unstable();
    compare.dedup();
    assert_eq!(compare, decode_sym_map(&maps));
}

#[test]
fn decode_symbol_map_full_test() {
    let maps = vec![0xffff; 17];
    let mut compare: Vec<u8> = vec![];
    for i in 0..=255 {
        compare.push(i)
    }
    compare.sort_unstable();
    compare.dedup();
    assert_eq!(compare, decode_sym_map(&maps));
}

#[test]
fn roundtrip_symbol_map_test() {
    let mut x = "Decode this.".as_bytes().to_vec();
    x.sort_unstable();
    x.dedup();
    let y = VecDeque::from(x.clone());
    let rt = encode_sym_map(&y);
    assert_eq!(decode_sym_map(&rt), x)
}

#[test]
fn symbol_map_roundtrip_unsorted_input() {
    // repeated, unordered symbols come back once each, ascending
    let y = VecDeque::from(vec![200u8, 3, 200, 17, 3]);
    let rt = encode_sym_map(&y);
    assert_eq!(decode_sym_map(&rt), vec![3, 17, 200]);
}

#[test]
fn huffman_huf_encode_decode_simple() {
    let input = "Goofy test".as_bytes();
    let stream = compress_stream(input, 9).unwrap();
    assert_eq!(decompress(&stream).unwrap(), input.to_vec());
}

#[test]
fn huf_encode_decode_simple() {
    let input = "Goofy test".as_bytes();
    let stream = compress_stream(input, 1).unwrap();
    assert_eq!(decompress(&stream).unwrap(), input.to_vec());
}

// For decode tests, we have to reduce the output by one byte because the
// decoder removes the last byte (assuming it is an eof symbol).
#[test]
fn rle2_decode_zero_run_5() {
    assert_eq!(rle2_decode(&[0, 1]).unwrap(), vec![0; 5 - 1 as usize])
}

#[test]
fn rle2_zero_run_roundtrip_a() {
    let n = 473;
    let mut counts = vec![0, 0];
    assert_eq!(
        rle2_decode(&rle2_encode_runs(n, &mut counts)).unwrap(),
        vec![0; n as usize - 1]
    )
}

#[test]
fn rle2_zero_run_roundtrip_b() {
    let n = 472;
    let mut counts = vec![0, 0];
    assert_eq!(
        rle2_decode(&rle2_encode_runs(n, &mut counts)).unwrap(),
        vec![0; n as usize - 1]
    )
}

#[test]
fn rle2_decode_symbols_and_runs() {
    // 3 zeros (RUNA RUNA), then value 4 (symbol 5), then EOB 7
    assert_eq!(rle2_decode(&[0, 0, 5, 7]).unwrap(), vec![0, 0, 0, 4]);
}

#[test]
fn rle2_decode_rejects_a_zero_bomb() {
    // 22 RUNB symbols count far more than two million zeros
    let mut v = vec![1u16; 22];
    v.push(3);
    assert!(rle2_decode(&v).is_none());
}

#[test]
fn rle2_mtf_decode_simple() {
    // list [a, b, n]; indexes 1 (b), 0 (b), 2 (n), 2 (a), then EOB (index 3)
    let mut list = vec![b'a', b'b', b'n'];
    let out = rle2_mtf_decode(&[2, 0, 3, 3, 4], &mut list, 10);
    assert_eq!(out, b"bbna".to_vec());
    assert_eq!(list, vec![0, b'a', b'n', b'b']);
}

#[test]
fn init_tables_old_fills_tables_from_the_last() {
    let mut freqs = vec![0u32; 258];
    freqs[0] = 5;
    freqs[1] = 3;
    freqs[2] = 2;
    let tables = init_tables_old(&freqs, 2, 2, 5);
    assert_eq!(tables.len(), 6);
    assert_eq!(&tables[1][0..3], &[0, 0, 15]);
    assert_eq!(&tables[0][0..3], &[15, 15, 0]);
    assert!(tables[2].iter().all(|&w| w == 15));
    assert_eq!(tables[1][3], 15);
}

#[test]
fn rle2_mtf_decode_fast_counts_every_value() {
    let mut list = vec![b'a', b'b', b'n'];
    let (out, freq) = rle2_mtf_decode_fast(&[2, 0, 3, 3, 4], &mut list, 10);
    assert_eq!(out, vec![b'b' as u32, b'b' as u32, b'n' as u32, b'a' as u32]);
    assert_eq!(freq[b'b' as usize], 2);
    assert_eq!(freq[b'n' as usize], 1);
    assert_eq!(freq[b'a' as usize], 1);
    // the end-of-block entry's value is counted too
    assert_eq!(freq[0], 1);
    assert_eq!(freq.iter().sum::<u32>(), 5);
}

#[test]
fn canonical_codes_by_length_then_symbol() {
    let lens: Vec<u32> = vec![2, 1, 3, 3];
    assert_eq!(canonical_codes(&lens, 4).unwrap(), vec![0b10, 0b0, 0b110, 0b111]);
}

#[test]
fn canonical_codes_overfull_and_bad_length() {
    let lens: Vec<u32> = vec![1, 1, 1];
    assert_eq!(canonical_codes(&lens, 3), Err(CodeError::Overfull));
    let lens: Vec<u32> = vec![1, 18];
    assert_eq!(canonical_codes(&lens, 2), Err(CodeError::BadLength));
}

#[test]
fn improve_code_len_gives_a_complete_code() {
    let mut codes = vec![0u32; 258];
    let mut weights = vec![0u32; 258];
    weights[0] = 40;
    weights[1] = 10;
    weights[2] = 10;
    weights[3] = 1;
    weights[4] = 0;
    improve_code_len_from_weights(&mut codes, &weights, 4);
    let kraft: u32 = codes[0..5].iter().map(|&l| 1u32 << (17 - l)).sum();
    assert_eq!(kraft, 1 << 17);
    assert!(codes[0..5].iter().all(|&l| 1 <= l && l <= 17));
    assert!(codes[5..].iter().all(|&l| l == 0));
    assert!(codes[0] <= codes[3]);
}

#[test]
fn improve_code_len_falls_back_to_a_balanced_code() {
    // Node weights past 32 bits: the tree is given up for a balanced code of three symbols.
    let mut codes = vec![9u32; 258];
    let weights = vec![0x00ff_ffffu32; 258];
    improve_code_len_from_weights(&mut codes, &weights, 2);
    assert_eq!(&codes[0..3], &[1, 2, 2]);
    assert!(codes[3..].iter().all(|&l| l == 9));
}

#[test]
fn improve_code_len_single_symbol() {
    let mut codes = vec![5u32; 258];
    let weights = vec![3u32; 258];
    improve_code_len_from_weights(&mut codes, &weights, 0);
    assert_eq!(codes[0], 0);
    assert_eq!(codes[1], 5);
}
