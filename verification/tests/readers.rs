use bzip2_rust::tools::bitreader::BitReader;
use bzip2_rust::tools::bitty::BitReader as Bitty;

#[test]
fn bitreader_basic_test() {
    let x = [0b10000001_u8].as_slice();
    let mut br = BitReader::new(x);
    assert_eq!(br.bit(), Some(1));
    assert_eq!(br.bit(), Some(0));
    assert_eq!(br.bit(), Some(0));
    assert_eq!(br.bit(), Some(0));
    assert_eq!(br.bit(), Some(0));
    assert_eq!(br.bit(), Some(0));
    assert_eq!(br.bit(), Some(0));
    assert_eq!(br.bit(), Some(1));
    assert_eq!(br.bit(), None);
}

#[test]
fn bitreader_iter_test() {
    let x = [0b1000_0001_u8, 0b0100_1000].as_slice();
    let mut br = BitReader::new(x);
    let expected = [1, 0, 0, 0, 0, 0, 0, 1, 0, 1, 0, 0, 1, 0, 0, 0];
    for e in expected {
        assert_eq!(br.next(), Some(e));
    }
    assert_eq!(br.next(), None);
}

#[test]
fn bitreader_bint_test() {
    let x = [0b00011011].as_slice();
    let mut br = BitReader::new(x);
    assert_eq!(br.bint(5), Some(3));
    assert_eq!(br.bint(1), Some(0));
    assert_eq!(br.bint(2), Some(3));
}

#[test]
fn byte_test() {
    let x = "Hello, world!".as_bytes();
    let mut br = BitReader::new(x);
    assert_eq!(br.byte(), Some('H' as u8));
    assert_eq!(br.byte(), Some('e' as u8));
    assert_eq!(br.byte(), Some('l' as u8));
    assert_eq!(br.byte(), Some('l' as u8));
}

#[test]
fn bitreader_bytes_and_loc() {
    let x = "Hello".as_bytes();
    let mut br = BitReader::new(x);
    assert_eq!(br.bool_bit(), Some(false));
    assert_eq!(br.loc(), "[0.1]");
    assert_eq!(br.bint(7), Some(0x48));
    assert_eq!(br.bytes(2), Some("el".as_bytes().to_vec()));
    assert_eq!(br.loc(), "[3.0]");
}

#[test]
fn bitty_basic_test() {
    let x = [0b10000001_u8].as_slice();
    let mut br = Bitty::new(x);
    assert_eq!(br.bit(), Some(true));
    assert_eq!(br.bit(), Some(false));
    assert_eq!(br.bit(), Some(false));
    assert_eq!(br.bit(), Some(false));
    assert_eq!(br.bit(), Some(false));
    assert_eq!(br.bit(), Some(false));
    assert_eq!(br.bit(), Some(false));
    assert_eq!(br.bit(), Some(true));
    assert_eq!(br.bit(), None);
}

#[test]
fn bitty_iter_test() {
    let x = [0b10000001_u8, 0b0100_1000].as_slice();
    let mut br = Bitty::new(x);
    let expected = [
        true, false, false, false, false, false, false, true, false, true, false, false, true,
        false, false, false,
    ];
    for e in expected {
        assert_eq!(br.next(), Some(e));
    }
    assert_eq!(br.next(), None);
}

#[test]
fn bitty_bint_test() {
    let x = [0b00011011].as_slice();
    let mut br = Bitty::new(x);
    assert_eq!(br.bint(5), Some(3));
    assert_eq!(br.bint(5), None);
    assert_eq!(br.bint(1), Some(0));
    assert_eq!(br.bint(2), Some(3));
}

#[test]
fn bits_test() {
    let x = [0b00011011].as_slice();
    let mut br = Bitty::new(x);
    assert_eq!(br.bits(3), Some(vec![false, false, false]));
    assert_eq!(br.bits(8), None);
    assert_eq!(br.bits(5), Some(vec![true, true, false, true, true]));
    assert_eq!(br.bits(3), None);
}

#[test]
fn bytes_test() {
    let x = "Hello, world!".as_bytes();
    let mut br = Bitty::new(x);
    assert_eq!(br.bytes(1), Some("H".as_bytes().to_vec()));
    assert_eq!(br.bytes(3), Some("ell".as_bytes().to_vec()));
    assert_eq!(br.bytes(12), None);
    assert_eq!(br.bytes(9), Some("o, world!".as_bytes().to_vec()));
}

#[test]
fn len_test() {
    let x = "Hello, world!".as_bytes();
    let mut br = Bitty::new(x);
    assert_eq!(br.is_empty(), false);
    assert_eq!(br.len(), 13);
    assert_eq!(br.bytes(1), Some("H".as_bytes().to_vec()));
    assert_eq!(br.len(), 12);
    assert_eq!(br.bytes(3), Some("ell".as_bytes().to_vec()));
    assert_eq!(br.len(), 9);
    assert_eq!(br.bytes(12), None);
    assert_eq!(br.len(), 9);
    assert_eq!(br.is_empty(), false);
    assert_eq!(br.bytes(9), Some("o, world!".as_bytes().to_vec()));
    assert_eq!(br.len(), 0);
    assert_eq!(br.is_empty(), true);
    println!("{:?}", br.bit());
}

#[test]
fn bitty_byte_and_wide_bint() {
    let x = [0x12_u8, 0x34, 0x56, 0x78, 0x9a].as_slice();
    let mut br = Bitty::new(x);
    assert_eq!(br.byte(), Some(0x12));
    assert_eq!(br.bint(32), Some(0x3456_789a));
    assert_eq!(br.byte(), None);
}

#[test]
fn bitreader_bytes_short_read_is_none() {
    let mut br = BitReader::new("Hey".as_bytes());
    assert_eq!(br.bytes(4), None);
    assert_eq!(br.bytes(3), Some("Hey".as_bytes().to_vec()));
}
