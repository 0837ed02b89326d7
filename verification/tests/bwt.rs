use bzip2_rust::tools::udata::udata_par_map;
use bzip2_rust::tools::bwt::{bwt_decode, bwt_encode};
use bzip2_rust::tools::bwt_ds;
use bzip2_rust::tools::bwt_decode_2x1::bwt_decode_2x1;

#[test]
fn bwt_simple_encode() {
    let input = "How to encrypt using BWT cipher?".as_bytes();
    let output = "gTowtr ?WB n hnpsceitHiyecup  or".to_string().as_bytes().to_vec();
    assert_eq!(bwt_encode(input), (21 as u32, output));
}

#[test]
fn bwt_encode_abracadabra() {
    let input = "abracadabra abracadabra abracadabra".as_bytes();
    let output = "aarrrddda  rrrcccaaaaaaaaaaaabbbbbb".to_string().as_bytes().to_vec();
    assert_eq!(bwt_encode(input), (20 as u32, output));
}

#[test]
fn bwt_bwt_simple_decode() {
    let input = "gTowtr ?WB n hnpsceitHiyecup  or".as_bytes().to_vec();
    let output = "How to encrypt using BWT cipher?".as_bytes();
    assert_eq!(output, bwt_decode(21, &input));
}

#[test]
fn bwt_bwt_decode_abracadabra() {
    let input = "aarrrddda  rrrcccaaaaaaaaaaaabbbbbb".as_bytes().to_vec();
    let output = "abracadabra abracadabra abracadabra".as_bytes();
    assert_eq!(output, bwt_decode(20, &input));
}

#[test]
fn bwt_encode_decode() {
    let input = "If Peter Piper picked a peck of pickled peppers,  where's the peck of pickled peppers Peter Piper picked????".as_bytes();
    let (key, vec) = bwt_encode(&input);
    let output = bwt_decode(key, &vec);
    assert_eq!(output, input);
}

#[test]
fn bwt_ds_bwt_simple_decode() {
    let input = "gTowtr ?WB n hnpsceitHiyecup  or".as_bytes().to_vec();
    let output = "How to encrypt using BWT cipher?".as_bytes();
    assert_eq!(output, bwt_ds::bwt_decode(8, &input));
}

#[test]
fn bwt_ds_bwt_decode_abracadabra() {
    let input = "aarrrddda  rrrcccaaaaaaaaaaaabbbbbb".as_bytes().to_vec();
    let output = "abracadabra abracadabra abracadabra".as_bytes();
    assert_eq!(output, bwt_ds::bwt_decode(9, &input));
}

#[test]
fn bwt_ds_encode_keys_the_original_row() {
    let input = "How to encrypt using BWT cipher?".as_bytes();
    let (key, out) = bwt_ds::bwt_encode(input);
    // the original data is the eighth row, counted from 0
    assert_eq!(key, 7);
    assert_eq!(out, "gTowtr ?WB n hnpsceitHiyecup  or".as_bytes());
    // the decoder counts rows from 1
    assert_eq!(bwt_ds::bwt_decode(key + 1, &out), input);
}

#[test]
fn bwt_ds_roundtrip_periodic() {
    // equal rotations: the decoders still give back the data
    let input = "abababab".as_bytes();
    let (key, out) = bwt_ds::bwt_encode(input);
    assert_eq!(bwt_ds::bwt_decode(key + 1, &out), input);
    let (key, out) = bwt_encode(input);
    assert_eq!(bwt_decode(key, &out), input);
}

#[test]
fn bwt_empty_and_single() {
    assert_eq!(bwt_encode(&[]), (0, vec![]));
    assert_eq!(bwt_decode(0, &[]), Vec::<u8>::new());
    assert_eq!(bwt_encode(&[7]), (0, vec![7]));
    assert_eq!(bwt_decode(0, &[7]), vec![7]);
}

#[test]
fn bwt_decode_variants_agree() {
    let input = "abracadabra abracadabra abracadabra".as_bytes();
    let (key, l) = bwt_ds::bwt_encode(input);
    assert_eq!(bwt_ds::bwt_decode_fastest(key, &l), input);
    let wide: Vec<u32> = l.iter().map(|b| *b as u32).collect();
    let mut freq = [0u32; 256];
    for b in &l {
        freq[*b as usize] += 1;
    }
    assert_eq!(bwt_ds::bwt_decode_test(key, &wide, freq), input);
    // bwt_decode_new reads from the key itself, as the simple decoder does
    let (key1, l1) = bwt_encode(input);
    assert_eq!(bwt_ds::bwt_decode_new(key1, &l1), input);
    let odd = "banana!".as_bytes();
    let (key2, l2) = bwt_encode(odd);
    assert_eq!(bwt_ds::bwt_decode_new(key2, &l2), odd);
}

#[test]
fn bwt_decode_fastest_key_past_end_starts_at_row_zero() {
    // "ab": the rows are "ab" and "ba", so L = "ba"; row 0 leads to row 1 ("ba"), whose
    // walk reads "ba"
    let l = "ba".as_bytes();
    assert_eq!(bwt_ds::bwt_decode_fastest(5, l), bwt_ds::bwt_decode_fastest(1, l));
}

fn packed(data: &[u8], i: usize) -> usize {
    let size = (usize::BITS / 8) as usize;
    let mut key: usize = 0;
    for k in 0..size {
        key = (key << 8) | data[(i + k) % data.len()] as usize;
    }
    key
}

#[test]
fn udata_par_map_packs_wrapping_words() {
    let data = b"abc";
    let keys = udata_par_map(data);
    assert_eq!(keys.len(), 3);
    for i in 0..3 {
        assert_eq!(keys[i], packed(data, i));
    }
    if usize::BITS == 64 {
        assert_eq!(keys[0], 0x6162_6361_6263_6162);
    }
}

#[test]
fn udata_par_map_long_input_in_parallel() {
    let data: Vec<u8> = (0..50_000u32).map(|i| (i * 7 % 251) as u8).collect();
    let keys = udata_par_map(&data);
    assert_eq!(keys.len(), data.len());
    for i in [0usize, 1, 12345, 49_993, 49_999] {
        assert_eq!(keys[i], packed(&data, i));
    }
}

#[test]
fn bwt_decode_2x1_walks_the_count_table() {
    // every byte occurs once: each entry of the table is 1
    assert_eq!(bwt_decode_2x1(0, b"abcd"), b"abbb".to_vec());
    assert_eq!(bwt_decode_2x1(1, b"ab"), b"bb".to_vec());
    assert_eq!(bwt_decode_2x1(0, b"ab"), b"ab".to_vec());
    assert_eq!(bwt_decode_2x1(7, b""), Vec::<u8>::new());
}
