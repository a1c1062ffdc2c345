//! The debug rendering of views.

use rlp::{Rlp, RlpStream};
use rustc_hex::FromHex;

#[test]
fn rlp_display() {
    let data: Vec<u8> = "f84d0589010efbef67941f79b2a056e81f171bcc55a6ff8345e692c0f86e5b48e01b996cadc001622fb5e363b421a0c5d2460186f7233c927e7db2dcc703c0e500b653ca82273b7bfad8045d85a470".from_hex().unwrap();
    let rlp = Rlp::new(&data);
    assert_eq!(rlp.render(), "[\"0x05\", \"0x010efbef67941f79b2\", \"0x56e81f171bcc55a6ff8345e692c0f86e5b48e01b996cadc001622fb5e363b421\", \"0xc5d2460186f7233c927e7db2dcc703c0e500b653ca82273b7bfad8045d85a470\"]");
}

#[test]
fn print_empty_array() {
    let mut s = RlpStream::new();
    let num: u8 = 3;
    let empty_array: Vec<u32> = Vec::new();
    s.begin_list(2).append(&num).append_list(&empty_array);
    let bs = s.out();
    let rlp = Rlp::new(&*bs);
    let s = rlp.render();
    assert_eq!("[\"0x03\", []]", s);
}

#[test]
fn render_null_and_empty() {
    let empty: [u8; 0] = [];
    assert_eq!("null", Rlp::new(&empty).render());
    assert_eq!("[]", Rlp::new(&[0xc0]).render());
    assert_eq!("\"0x\"", Rlp::new(&[0x80]).render());
}

#[test]
fn render_names_the_error_on_malformed_bytes() {
    assert_eq!("RlpIsTooShort", Rlp::new(&[0x81]).render());
}
