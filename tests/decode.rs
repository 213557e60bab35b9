use inotify::error::Error;
use inotify::event::Event;
use inotify::wire::{decode_events, encode_event, ByteOrder, HEADER_SIZE};

fn record(wd: i32, mask: u32, cookie: u32, name: &[u8]) -> Vec<u8> {
    let mut b = Vec::new();
    b.extend_from_slice(&wd.to_ne_bytes());
    b.extend_from_slice(&mask.to_ne_bytes());
    b.extend_from_slice(&cookie.to_ne_bytes());
    b.extend_from_slice(&(name.len() as u32).to_ne_bytes());
    b.extend_from_slice(name);
    b
}

#[test]
fn single_create_record() {
    let buf = record(3, 0x0000_0100, 0, b"a.txt\0\0\0");
    let evs = decode_events(&buf, ByteOrder::native()).unwrap();
    assert_eq!(evs.len(), 1);
    let e = &evs[0];
    assert_eq!(e.wd, 3);
    assert_eq!(e.mask, 0x100);
    assert_eq!(e.cookie, 0);
    assert_eq!(e.name, "a.txt");
    assert!(e.is_create());
    assert!(!e.is_access());
    assert!(!e.is_modify());
    assert!(!e.is_attrib());
    assert!(!e.is_close_write());
    assert!(!e.is_close_nowrite());
    assert!(!e.is_open());
    assert!(!e.is_moved_from());
    assert!(!e.is_moved_to());
    assert!(!e.is_delete());
    assert!(!e.is_delete_self());
    assert!(!e.is_move_self());
    assert!(!e.is_move());
    assert!(!e.is_close());
    assert!(!e.is_dir());
    assert!(!e.is_unmount());
    assert!(!e.is_queue_overflow());
    assert!(!e.is_ignored());
}

#[test]
fn two_back_to_back_records() {
    let first = record(1, 0x2, 0, b"");
    let second = record(2, 0x200, 0, b"b\0\0\0");
    assert_eq!(first.len(), HEADER_SIZE);
    assert_eq!(second.len(), HEADER_SIZE + 4);
    let mut buf = first.clone();
    buf.extend_from_slice(&second);
    let evs = decode_events(&buf, ByteOrder::native()).unwrap();
    assert_eq!(evs.len(), 2);
    assert_eq!(evs[0].wd, 1);
    assert_eq!(evs[0].name, "");
    assert_eq!(evs[1].wd, 2);
    assert_eq!(evs[1].name, "b");
    assert!(evs[1].is_delete());
}

#[test]
fn many_records_keep_their_order() {
    let mut buf = Vec::new();
    for k in 0..10u32 {
        let name = format!("f{}\0", k);
        buf.extend_from_slice(&record(k as i32, 1 << (k % 4), k, name.as_bytes()));
    }
    let evs = decode_events(&buf, ByteOrder::native()).unwrap();
    assert_eq!(evs.len(), 10);
    for k in 0..10u32 {
        assert_eq!(evs[k as usize].wd, k as i32);
        assert_eq!(evs[k as usize].cookie, k);
        assert_eq!(evs[k as usize].name, format!("f{}", k));
    }
}

#[test]
fn empty_buffer_decodes_to_nothing() {
    assert_eq!(decode_events(&[], ByteOrder::Little).unwrap().len(), 0);
}

#[test]
fn name_cut_at_embedded_nul() {
    let buf = record(5, 0x100, 0, b"ab\0cd\0\0\0");
    let evs = decode_events(&buf, ByteOrder::native()).unwrap();
    assert_eq!(evs[0].name, "ab");
}

#[test]
fn name_without_nul_is_kept_whole() {
    let buf = record(5, 0x100, 0, b"abcd");
    let evs = decode_events(&buf, ByteOrder::native()).unwrap();
    assert_eq!(evs[0].name, "abcd");
}

#[test]
fn explicit_byte_orders() {
    let little = vec![
        0xfe, 0xff, 0xff, 0xff, 0x00, 0x01, 0x00, 0x00, 0x78, 0x56, 0x34, 0x12, 0x00, 0x00, 0x00, 0x00,
    ];
    let evs = decode_events(&little, ByteOrder::Little).unwrap();
    assert_eq!(evs[0].wd, -2);
    assert_eq!(evs[0].mask, 0x100);
    assert_eq!(evs[0].cookie, 0x1234_5678);
    let big = vec![
        0xff, 0xff, 0xff, 0xfe, 0x00, 0x00, 0x01, 0x00, 0x12, 0x34, 0x56, 0x78, 0x00, 0x00, 0x00, 0x00,
    ];
    let evs = decode_events(&big, ByteOrder::Big).unwrap();
    assert_eq!(evs[0].wd, -2);
    assert_eq!(evs[0].mask, 0x100);
    assert_eq!(evs[0].cookie, 0x1234_5678);
}

#[test]
fn native_order_matches_machine() {
    let expected = if 1u32.to_ne_bytes()[0] == 1 { ByteOrder::Little } else { ByteOrder::Big };
    assert_eq!(ByteOrder::native(), expected);
}

#[test]
fn truncated_header_is_an_error() {
    let buf = record(3, 0x100, 0, b"x\0\0\0");
    assert_eq!(decode_events(&buf[..10], ByteOrder::native()), Err(Error::Decode));
}

#[test]
fn truncated_name_is_an_error() {
    let buf = record(3, 0x100, 0, b"xyz\0\0\0\0\0");
    assert_eq!(decode_events(&buf[..20], ByteOrder::native()), Err(Error::Decode));
}

#[test]
fn invalid_utf8_name_is_an_error() {
    let buf = record(3, 0x100, 0, &[0xff, 0xfe, 0, 0]);
    assert_eq!(decode_events(&buf, ByteOrder::native()), Err(Error::Decode));
}

#[test]
fn multibyte_utf8_name() {
    let buf = record(3, 0x100, 0, "é☃\0\0\0".as_bytes());
    assert_eq!(decode_events(&buf, ByteOrder::native()).unwrap()[0].name, "é☃");
}

#[test]
fn round_trip_strips_padding() {
    let buf = record(-7, 0x8000_0040, 42, b"name\0\0\0\0");
    let evs = decode_events(&buf, ByteOrder::native()).unwrap();
    let out = encode_event(&evs[0], ByteOrder::native());
    assert_eq!(out, record(-7, 0x8000_0040, 42, b"name"));
    assert_eq!(&out[..12], &buf[..12]);
    assert_eq!(&out[16..], &buf[16..20]);
    let again = decode_events(&out, ByteOrder::native()).unwrap();
    assert_eq!(again, evs);
}

#[test]
fn encode_big_endian_exact_bytes() {
    let e = Event { wd: 1, mask: 0x0102_0304, cookie: 0, name: "z".to_string() };
    assert_eq!(
        encode_event(&e, ByteOrder::Big),
        vec![0, 0, 0, 1, 1, 2, 3, 4, 0, 0, 0, 0, 0, 0, 0, 1, b'z']
    );
    assert_eq!(
        encode_event(&e, ByteOrder::Little),
        vec![1, 0, 0, 0, 4, 3, 2, 1, 0, 0, 0, 0, 1, 0, 0, 0, b'z']
    );
}
