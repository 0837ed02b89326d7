use bzip2_rust::sort::bucket_sort::fallback_sort;
use bzip2_rust::tools::compress::Block;
use bzip2_rust::tools::bwt_ds::bwt_encode;
use bzip2_rust::sort::fallback::fallback_q_sort3;
use bzip2_rust::sort::primary;
use bzip2_rust::sort::qsort::{main_gtu, mmed3, mvswap, QsortData};
use bzip2_rust::sort::simple::main_simple_sort;
use bzip2_rust::sort::unrolled;

fn extended(data: &[u8]) -> Vec<u16> {
    let mut v: Vec<u16> = data.iter().map(|b| *b as u16).collect();
    for i in 0..34 {
        v.push(data[i % data.len()] as u16);
    }
    v
}

#[test]
fn main_gtu_compares_rotations() {
    let text = "the quick brown fox jumps over the lazy dog".as_bytes();
    let bd = extended(text);
    let q = vec![0u16; bd.len()];
    let end = text.len();
    let mut budget = 100;
    // "he quick..." (1) against "the quick..." (0)
    assert!(!primary::main_gtu(1, 0, &bd, &q, end, &mut budget));
    assert!(unrolled::main_gtu(0, 1, &bd, &q, end, &mut budget));
    assert_eq!(budget, 100);
}

#[test]
fn main_gtu_spends_budget_on_long_matches() {
    let text = vec![b'a'; 40];
    let bd = extended(&text);
    let q = vec![0u16; bd.len()];
    let mut budget = 100;
    // all rotations are equal: every round runs and the result is false
    assert!(!primary::main_gtu(0, 3, &bd, &q, 40, &mut budget));
    assert_eq!(budget, 100 - 7);
    let mut qs = QsortData::new(40, 50);
    qs.block_data = bd.clone();
    qs.quadrant = q.clone();
    assert!(!main_gtu(2, 5, &mut qs));
    assert_eq!(qs.budget, 50 - 7);
}

#[test]
fn qsort_data_new_zeroes() {
    let qs = QsortData::new(10, 3);
    assert_eq!(qs.block_data, vec![0; 44]);
    assert_eq!(qs.quadrant, vec![0; 44]);
    assert_eq!(qs.bwt_ptr, vec![0; 44]);
    assert!(qs.stack.is_empty());
    assert_eq!(qs.end, 10);
    assert_eq!(qs.budget, 3);
}

#[test]
fn mmed3_median() {
    assert_eq!(mmed3(3, 1, 2), 2);
    assert_eq!(mmed3(1, 2, 3), 2);
    assert_eq!(mmed3(9, 9, 1), 9);
    assert_eq!(mmed3(5, 0, 0), 0);
}

#[test]
fn mvswap_blocks() {
    let mut v = vec![0, 1, 2, 3, 4, 5, 6, 7];
    mvswap(&mut v, 0, 5, 3);
    assert_eq!(v, vec![5, 6, 7, 3, 4, 0, 1, 2]);
    mvswap(&mut v, 1, 2, 0);
    assert_eq!(v, vec![5, 6, 7, 3, 4, 0, 1, 2]);
}

#[test]
fn main_simple_sort_sorts_rotations() {
    let text = "mississippi river banks".as_bytes();
    let end = text.len();
    let bd = extended(text);
    let mut q = vec![0u16; bd.len()];
    let mut ptr: Vec<u32> = (0..end as u32).collect();
    let mut budget = 1_000_000;
    main_simple_sort(&mut ptr, &bd, &mut q, end, 0, end as i32 - 1, 0, &mut budget);
    let mut expected: Vec<u32> = (0..end as u32).collect();
    let rot = |i: u32| {
        let mut r = text[i as usize..].to_vec();
        r.extend_from_slice(&text[..i as usize]);
        r
    };
    expected.sort_by(|a, b| rot(*a).cmp(&rot(*b)));
    assert_eq!(ptr, expected);
    assert!(budget <= 1_000_000);
}

#[test]
fn fallback_q_sort3_orders_pointers_by_key() {
    // keys: pointer i has key (i * 37) % 41, over a range long enough to partition
    let block_data: Vec<u16> = (0..60u32).map(|i| ((i * 37) % 41) as u16).collect();
    let mut map: Vec<u32> = (0..60u32).collect();
    fallback_q_sort3(&mut map, &block_data, 0, 59);
    for w in map.windows(2) {
        assert!(block_data[w[0] as usize] <= block_data[w[1] as usize]);
    }
    let mut seen = map.clone();
    seen.sort();
    assert_eq!(seen, (0..60u32).collect::<Vec<u32>>());
}

#[test]
fn fallback_q_sort3_leaves_the_outside_alone() {
    let block_data: Vec<u16> = vec![9, 3, 7, 1, 5, 2, 8, 0, 6, 4];
    let mut map: Vec<u32> = (0..10u32).collect();
    fallback_q_sort3(&mut map, &block_data, 2, 7);
    assert_eq!(&map[0..2], &[0, 1]);
    assert_eq!(&map[8..10], &[8, 9]);
    assert_eq!(&map[2..8], &[7, 3, 5, 4, 2, 6]);
}

fn fallback_block(data: &[u8]) -> Block {
    Block {
        data: data.to_vec(),
        temp_vec: vec![],
        end: data.len() as u32,
        key: 0,
        freqs: vec![],
        sym_map: vec![],
        eob: 0,
        seq: 0,
        block_crc: 0,
        stream_crc: 0,
        budget: 0,
        is_last: false,
    }
}

#[test]
fn fallback_sort_banana() {
    let mut b = fallback_block(b"banana");
    fallback_sort(&mut b);
    assert_eq!(b.data, b"nnbaaa".to_vec());
    assert_eq!(b.key, 3);
}

#[test]
fn fallback_sort_matches_the_direct_transform() {
    let text = b"abracadabra abracadabra, the quick brown fox".to_vec();
    let mut b = fallback_block(&text);
    fallback_sort(&mut b);
    let (key, bwt) = bwt_encode(&text);
    assert_eq!(b.data, bwt);
    assert_eq!(b.key, key);
}

#[test]
fn main_gtu_short_blocks() {
    // "aba": rotations "aba" (0), "baa" (1), "aab" (2); data extended to 38 entries
    let text = b"aba";
    let mut bd: Vec<u16> = Vec::new();
    for i in 0..38 {
        bd.push(text[i % 3] as u16);
    }
    let q = vec![0u16; bd.len()];
    let mut budget = 10;
    assert!(unrolled::main_gtu(1, 0, &bd, &q, 3, &mut budget));
    assert!(!unrolled::main_gtu(0, 1, &bd, &q, 3, &mut budget));
    assert!(primary::main_gtu(0, 2, &bd, &q, 3, &mut budget));
    assert_eq!(budget, 10);
    // equal rotations of "aaaa": both rounds run
    let bd2 = vec![5u16; 38];
    let mut budget2 = 10;
    assert!(!unrolled::main_gtu(0, 1, &bd2, &q, 4, &mut budget2));
    assert_eq!(budget2, 10 - 2);
}
