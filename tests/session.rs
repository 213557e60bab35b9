use inotify::error::Error;
use inotify::session::{
    check_path, close_result, rm_watch_result, watch_result, with_nonblocking, INotify, EAGAIN,
    EWOULDBLOCK, O_NONBLOCK, READ_BUFFER_SIZE,
};
use inotify::wire::ByteOrder;

fn record(wd: i32, mask: u32, cookie: u32, name: &[u8]) -> Vec<u8> {
    let mut b = Vec::new();
    b.extend_from_slice(&wd.to_ne_bytes());
    b.extend_from_slice(&mask.to_ne_bytes());
    b.extend_from_slice(&cookie.to_ne_bytes());
    b.extend_from_slice(&(name.len() as u32).to_ne_bytes());
    b.extend_from_slice(name);
    b
}

fn session() -> INotify {
    INotify::from_descriptor(7, 0).unwrap()
}

fn filled(bytes: &[u8]) -> [u8; READ_BUFFER_SIZE] {
    let mut buf = [0u8; READ_BUFFER_SIZE];
    buf[..bytes.len()].copy_from_slice(bytes);
    buf
}

#[test]
fn os_constants_match_libc() {
    assert_eq!(O_NONBLOCK, libc::O_NONBLOCK);
    assert_eq!(EAGAIN, libc::EAGAIN);
    assert_eq!(EWOULDBLOCK, libc::EWOULDBLOCK);
}

#[test]
fn failed_init_reports_code() {
    assert!(matches!(INotify::from_descriptor(-1, 24), Err(Error::Init(24))));
    let s = INotify::from_descriptor(3, 0).unwrap();
    assert_eq!(s.fd, 3);
    assert!(s.events().is_empty());
}

#[test]
fn no_pending_data_is_empty_success() {
    let mut s = session();
    let buf = [0u8; READ_BUFFER_SIZE];
    assert_eq!(s.take_read(&buf, -1, EAGAIN, ByteOrder::native()), Ok(()));
    assert!(s.events().is_empty());
    assert_eq!(s.take_read(&buf, -1, EWOULDBLOCK, ByteOrder::native()), Ok(()));
    assert!(s.events().is_empty());
}

#[test]
fn end_of_stream_clears_results() {
    let mut s = session();
    let rec = record(3, 0x100, 0, b"a.txt\0\0\0");
    let buf = filled(&rec);
    assert_eq!(s.take_read(&buf, rec.len() as isize, 0, ByteOrder::native()), Ok(()));
    assert_eq!(s.events().len(), 1);
    assert_eq!(s.take_read(&buf, 0, 0, ByteOrder::native()), Err(Error::EndOfStream));
    assert!(s.events().is_empty());
}

#[test]
fn other_read_error_is_reported() {
    let mut s = session();
    let buf = [0u8; READ_BUFFER_SIZE];
    assert_eq!(s.take_read(&buf, -1, libc::EBADF, ByteOrder::native()), Err(Error::Read(libc::EBADF)));
    assert!(s.events().is_empty());
}

#[test]
fn read_decodes_only_filled_part() {
    let mut s = session();
    let mut bytes = record(1, 0x2, 0, b"");
    bytes.extend_from_slice(&record(2, 0x200, 9, b"b\0\0\0"));
    let buf = filled(&bytes);
    assert_eq!(s.take_read(&buf, bytes.len() as isize, 0, ByteOrder::native()), Ok(()));
    let evs = s.events();
    assert_eq!(evs.len(), 2);
    assert_eq!(evs[1].name, "b");
    assert_eq!(evs[1].cookie, 9);
}

#[test]
fn next_read_replaces_events() {
    let mut s = session();
    let first = filled(&record(1, 0x1, 0, b"x\0\0\0"));
    let second = record(2, 0x2, 0, b"");
    assert_eq!(s.take_read(&first, 20, 0, ByteOrder::native()), Ok(()));
    assert_eq!(s.take_read(&filled(&second), 16, 0, ByteOrder::native()), Ok(()));
    assert_eq!(s.events().len(), 1);
    assert_eq!(s.events()[0].wd, 2);
}

#[test]
fn broken_record_in_read_is_decode_error() {
    let mut s = session();
    let rec = record(1, 0x1, 0, b"abcdefgh");
    let buf = filled(&rec);
    assert_eq!(s.take_read(&buf, 20, 0, ByteOrder::native()), Err(Error::Decode));
    assert!(s.events().is_empty());
}

#[test]
fn nonblocking_bit_toggles_alone() {
    let flags = libc::O_RDONLY | libc::O_APPEND;
    let blocking = with_nonblocking(flags | O_NONBLOCK, false);
    assert_eq!(blocking, flags);
    assert_eq!(blocking & O_NONBLOCK, 0);
    let restored = with_nonblocking(blocking, true);
    assert_eq!(restored, flags | O_NONBLOCK);
    assert_eq!(with_nonblocking(restored, true), restored);
}

#[test]
fn watch_results() {
    assert_eq!(watch_result(4, 0), Ok(4));
    assert_eq!(watch_result(-1, libc::ENOENT), Err(Error::Watch(libc::ENOENT)));
    assert_eq!(rm_watch_result(0, 0), Ok(()));
    assert_eq!(rm_watch_result(-1, libc::EINVAL), Err(Error::Watch(libc::EINVAL)));
}

#[test]
fn close_results() {
    assert_eq!(close_result(0, 0), Ok(()));
    assert_eq!(close_result(-1, libc::EBADF), Err(Error::Close(libc::EBADF)));
}

#[test]
fn path_with_nul_is_refused() {
    assert_eq!(check_path(b"/tmp/a"), Ok(()));
    assert_eq!(check_path(b""), Ok(()));
    assert_eq!(check_path(b"/tmp/\0a"), Err(Error::Encoding));
}
