use pfp::remote::{ReadError, Remote};
use pfp::text;
use pfp::text::Order;

#[test]
fn reads_give_back_what_was_supplied() {
    let mut rem = Remote::new(3);
    assert_eq!(rem.pid(), 3);
    assert_eq!(rem.read_vec(0x10, 4), Err(ReadError::Pending { addr: 0x10, len: 4 }));
    rem.supply(0x10, 4, Some(vec![1, 2, 3, 4]));
    assert_eq!(rem.read_vec(0x10, 4), Ok(vec![1, 2, 3, 4]));
    assert_eq!(rem.read_u32(0x10), Ok(0x0403_0201));
    assert_eq!(rem.read_array::<4>(0x10), Ok([1, 2, 3, 4]));
    // Another length at the same address is another read.
    assert_eq!(rem.read_u64(0x10), Err(ReadError::Pending { addr: 0x10, len: 8 }));
    rem.supply(0x10, 8, Some(vec![1, 0, 0, 0, 0, 0, 0, 0x80]));
    assert_eq!(rem.read_u64(0x10), Ok(0x8000_0000_0000_0001));
    assert_eq!(rem.read_u32(0x10), Ok(0x0403_0201));
    // A later reply replaces an earlier one.
    rem.supply(0x10, 4, Some(vec![9, 0, 0, 0]));
    assert_eq!(rem.read_u32(0x10), Ok(9));
    rem.forget();
    assert_eq!(rem.read_u32(0x10), Err(ReadError::Pending { addr: 0x10, len: 4 }));
    assert_eq!(rem.pid(), 3);
}

#[test]
fn short_and_failed_reads_fail() {
    let mut rem = Remote::new(3);
    rem.supply(0x10, 4, None);
    assert_eq!(rem.read_vec(0x10, 4), Err(ReadError::Failed { addr: 0x10, len: 4 }));
    rem.supply(0x20, 4, Some(vec![1, 2]));
    assert_eq!(rem.read_u32(0x20), Err(ReadError::Failed { addr: 0x20, len: 4 }));
    let mut buf = [7u8; 4];
    assert!(rem.read(0x20, &mut buf).is_err());
    assert_eq!(buf, [7; 4]);
    // Reading nothing succeeds without a reply.
    assert_eq!(rem.read_vec(0x30, 0), Ok(vec![]));
}

#[test]
fn strings_end_at_the_first_nul() {
    let mut rem = Remote::new(3);
    rem.supply(0x10, 8, Some(b"8.3\0junk".to_vec()));
    assert_eq!(rem.read_cstring(0x10, 8).unwrap(), "8.3");
    rem.supply(0x20, 4, Some(b"full".to_vec()));
    assert_eq!(rem.read_cstring(0x20, 4).unwrap(), "full");
    rem.supply(0x30, 3, Some(vec![b'a', 0xff, 0]));
    assert_eq!(rem.read_cstring(0x30, 3).unwrap(), "a\u{fffd}");
    assert_eq!(rem.read_cstring(0, 8).unwrap(), "");
}

#[test]
fn texts_are_ordered_by_their_bytes() {
    assert_eq!(text::order("a", "b"), Order::Less);
    assert_eq!(text::order("ab", "a"), Order::Greater);
    assert_eq!(text::order("", ""), Order::Equal);
    assert_eq!(text::order("é", "z"), Order::Greater);
    assert!(text::same_text("é", "é"));
    assert!(!text::same_text("é", "e"));
}

#[test]
fn numbers_in_text() {
    let mut s = String::new();
    text::push_decimal(&mut s, 0);
    s.push(' ');
    text::push_decimal(&mut s, u64::MAX);
    s.push(' ');
    text::push_hex(&mut s, 0xb7);
    assert_eq!(s, "0 18446744073709551615 b7");
    let parse = |t: &str| text::parse_i32(&text::chars_of(t));
    assert_eq!(parse("-2147483648"), Some(i32::MIN));
    assert_eq!(parse("+7"), Some(7));
    assert_eq!(parse("2147483648"), None);
    assert_eq!(parse("-"), None);
    assert_eq!(parse("1a"), None);
}
