use vstd::prelude::*;
use vstd::slice::slice_subrange;

use crate::error::Error;
use crate::event::Event;
use crate::wire::{ByteOrder, decodable, decode_events, events_match, join4, parse};

verus! {

/// The descriptor attribute bit that makes reads return at once (Linux's value).
pub const O_NONBLOCK: i32 = 0o4000;

/// The error code of a non-blocking read that found no data (Linux's value).
pub const EAGAIN: i32 = 11;

/// The other name of `EAGAIN`.
pub const EWOULDBLOCK: i32 = EAGAIN;

/// Size of the buffer that one read fills.
pub const READ_BUFFER_SIZE: usize = 1024;

/// A handle the kernel gives out for one watched path.
pub type Watch = i32;

/// Relies on u32::from_ne_bytes: the bytes are read in the machine's own
/// order, which is either least or most significant first.
#[verifier::external_body]
fn native_word(a: u8, b: u8, c: u8, d: u8) -> (r: u32)
    ensures
        r == join4(a, b, c, d) || r == join4(d, c, b, a),
{
    u32::from_ne_bytes([a, b, c, d])
}

impl ByteOrder {
    /// The order in which this machine lays out a word, as the kernel writes it.
    pub fn native() -> ByteOrder {
        if native_word(1, 0, 0, 0) == 1 {
            ByteOrder::Little
        } else {
            ByteOrder::Big
        }
    }
}

/// Descriptor attribute flags with the non-blocking bit set (`on`) or
/// cleared, every other bit kept.
pub open spec fn nonblocking_flags(flags: i32, on: bool) -> i32 {
    if on {
        flags | O_NONBLOCK
    } else {
        flags & !O_NONBLOCK
    }
}

/// Sets (`on`) or clears the non-blocking bit of descriptor attribute flags.
pub fn with_nonblocking(flags: i32, on: bool) -> (r: i32)
    ensures
        r == nonblocking_flags(flags, on),
{
    if on {
        flags | O_NONBLOCK
    } else {
        flags & !O_NONBLOCK
    }
}

/// A blocking wait leaves the descriptor non-blocking: during the read the
/// bit is clear, the flags written afterwards have it set whatever the
/// descriptor reported by then, and where nothing else touched the flags
/// they are the original ones with the bit set.
pub proof fn lemma_wait_restores(flags: i32, reported: i32)
    ensures
        nonblocking_flags(flags, false) & O_NONBLOCK == 0,
        nonblocking_flags(reported, true) & O_NONBLOCK == O_NONBLOCK,
        nonblocking_flags(nonblocking_flags(flags, false), true) == nonblocking_flags(flags, true),
        nonblocking_flags(flags, true) & !O_NONBLOCK == flags & !O_NONBLOCK,
{
    assert((flags & !0o4000i32) & 0o4000i32 == 0) by (bit_vector);
    assert((reported | 0o4000i32) & 0o4000i32 == 0o4000i32) by (bit_vector);
    assert((flags & !0o4000i32) | 0o4000i32 == flags | 0o4000i32) by (bit_vector);
    assert((flags | 0o4000i32) & !0o4000i32 == flags & !0o4000i32) by (bit_vector);
}

/// The handle of a new watch, or the error the OS reported (a result of -1).
pub fn watch_result(wd: i32, errno: i32) -> (r: Result<Watch, Error>)
    ensures
        wd == -1 ==> r == Err::<Watch, Error>(Error::Watch(errno)),
        wd != -1 ==> r == Ok::<Watch, Error>(wd),
{
    if wd == -1 {
        Err(Error::Watch(errno))
    } else {
        Ok(wd)
    }
}

/// The outcome of removing a watch: success (0) or the error the OS
/// reported (-1); the OS answers nothing else.
pub fn rm_watch_result(ret: i32, errno: i32) -> (r: Result<(), Error>)
    requires
        ret == 0 || ret == -1,
    ensures
        ret == 0 ==> r == Ok::<(), Error>(()),
        ret == -1 ==> r == Err::<(), Error>(Error::Watch(errno)),
{
    if ret == 0 {
        Ok(())
    } else {
        Err(Error::Watch(errno))
    }
}

/// The outcome of releasing the descriptor: success (0) or the error the
/// OS reported.
pub fn close_result(ret: i32, errno: i32) -> (r: Result<(), Error>)
    ensures
        ret == 0 ==> r == Ok::<(), Error>(()),
        ret != 0 ==> r == Err::<(), Error>(Error::Close(errno)),
{
    if ret == 0 {
        Ok(())
    } else {
        Err(Error::Close(errno))
    }
}

/// Checks that a path can be handed to the OS: it holds no nul byte.
pub fn check_path(path: &[u8]) -> (r: Result<(), Error>)
    ensures
        r is Ok <==> forall|j: int| 0 <= j < path@.len() ==> path@[j] != 0,
        r matches Err(e) ==> e == Error::Encoding,
{
    let mut k: usize = 0;
    while k < path.len()
        invariant
            k <= path@.len(),
            forall|j: int| 0 <= j < k ==> path@[j] != 0,
        decreases path@.len() - k,
    {
        if path[k] == 0 {
            return Err(Error::Encoding);
        }
        k = k + 1;
    }
    Ok(())
}

/// One open notification descriptor and the events of its latest read.
pub struct INotify {
    /// The descriptor, owned by this session.
    pub fd: i32,
    events: Vec<Event>,
}

impl View for INotify {
    type V = Seq<Event>;

    /// The events of the latest read.
    closed spec fn view(&self) -> Seq<Event> {
        self.events@
    }
}

impl INotify {
    /// The descriptor this session owns.
    pub closed spec fn descriptor(&self) -> i32 {
        self.fd
    }

    /// The session for the descriptor the OS created, or the error it
    /// reported (a descriptor of -1).
    pub fn from_descriptor(fd: i32, errno: i32) -> (r: Result<INotify, Error>)
        ensures
            fd == -1 ==> r == Err::<INotify, Error>(Error::Init(errno)),
            fd != -1 ==> (r matches Ok(s) && s.descriptor() == fd && s@.len() == 0),
    {
        if fd == -1 {
            Err(Error::Init(errno))
        } else {
            Ok(INotify { fd, events: Vec::new() })
        }
    }

    /// The events of the latest read; the next read replaces them.
    pub fn events(&self) -> (r: &[Event])
        ensures
            r@ == self@,
    {
        self.events.as_slice()
    }

    /// Takes in the result of one read into `buf`: `n` bytes, or -1 with
    /// the error code `errno`. The previous events are dropped. No data yet
    /// is success with no events; end of stream and other read errors
    /// fail; otherwise the bytes read are decoded.
    pub fn take_read(&mut self, buf: &[u8], n: isize, errno: i32, order: ByteOrder) -> (r: Result<(), Error>)
        requires
            n <= buf@.len(),
        ensures
            final(self).descriptor() == old(self).descriptor(),
            r is Err ==> final(self)@.len() == 0,
            n == 0 ==> r == Err::<(), Error>(Error::EndOfStream),
            n < 0 && (errno == EAGAIN || errno == EWOULDBLOCK) ==> r == Ok::<(), Error>(()) && final(self)@.len() == 0,
            n < 0 && !(errno == EAGAIN || errno == EWOULDBLOCK) ==> r == Err::<(), Error>(Error::Read(errno)),
            n > 0 ==> (r is Ok <==> decodable(buf@.take(n as int), order)),
            n > 0 && r is Ok ==> (parse(buf@.take(n as int), order) matches Some(recs) && events_match(final(self)@, recs)),
            n > 0 && r is Err ==> r == Err::<(), Error>(Error::Decode),
    {
        self.events = Vec::new();
        if n == 0 {
            return Err(Error::EndOfStream);
        }
        if n < 0 {
            if errno == EAGAIN || errno == EWOULDBLOCK {
                return Ok(());
            }
            return Err(Error::Read(errno));
        }
        let filled = slice_subrange(buf, 0, n as usize);
        proof {
            assert(filled@ == buf@.take(n as int));
        }
        match decode_events(filled, order) {
            Ok(evs) => {
                self.events = evs;
                Ok(())
            },
            Err(e) => Err(e),
        }
    }
}

} // verus!
