use bzip2_rust::ss3::{bucket_heads, bucket_sizes, bucket_tails};

#[test]
fn freq_test() {
    let data = [2, 0, 1, 1, 0, 6, 4];
    let frq = bucket_sizes(&data, 7);
    assert_eq!(frq[0..7], vec![2, 2, 1, 0, 1, 0, 1]);
}

#[test]
fn ss3_freq_head_test() {
    let data = [2, 0, 1, 1, 0, 6, 4];
    let freq = bucket_sizes(&data, 7);
    let heads = bucket_heads(&freq);
    assert_eq!(heads[0..7], vec![1, 3, 5, 6, 6, 7, 7]);
}

#[test]
fn ss3_freq_tail_test() {
    let data = [2, 0, 1, 1, 0, 6, 4];
    let freq = bucket_sizes(&data, 7);
    let tails = bucket_tails(&freq);
    assert_eq!(tails[0..7], vec![2, 4, 5, 5, 6, 6, 7]);
}
