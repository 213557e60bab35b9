use vstd::prelude::*;
use vstd::slice::slice_subrange;
use vstd::utf8::{decode_utf8, decode_utf8_encode_utf8, encode_utf8, valid_utf8};

use crate::error::Error;
use crate::event::Event;

verus! {

/// Size of a record's fixed header: four 4-byte words.
pub const HEADER_SIZE: usize = 16;

/// The order in which the bytes of a header word are laid out.
#[derive(Clone, Copy, Debug, PartialEq, Eq, Structural)]
pub enum ByteOrder {
    Little,
    Big,
}

/// The word whose bytes, least significant first, are `a`, `b`, `c`, `d`.
#[verifier::opaque]
pub open spec fn join4(a: u8, b: u8, c: u8, d: u8) -> u32 {
    (a as int + b as int * 0x100 + c as int * 0x1_0000 + d as int * 0x100_0000) as u32
}

/// The header word that starts at offset `i` of `b`.
pub open spec fn word_at(b: Seq<u8>, i: int, order: ByteOrder) -> u32 {
    match order {
        ByteOrder::Little => join4(b[i], b[i + 1], b[i + 2], b[i + 3]),
        ByteOrder::Big => join4(b[i + 3], b[i + 2], b[i + 1], b[i]),
    }
}

/// The four bytes of `x`, least significant first.
#[verifier::opaque]
pub open spec fn split4(x: u32) -> Seq<u8> {
    seq![
        (x % 0x100) as u8,
        ((x / 0x100) % 0x100) as u8,
        ((x / 0x1_0000) % 0x100) as u8,
        (x / 0x100_0000) as u8,
    ]
}

/// The bytes of a header word holding `x`.
pub open spec fn word_bytes(x: u32, order: ByteOrder) -> Seq<u8> {
    match order {
        ByteOrder::Little => split4(x),
        ByteOrder::Big => split4(x).reverse(),
    }
}

/// A header word read as the signed watch handle (two's complement).
pub open spec fn as_signed(w: u32) -> i32 {
    if w < 0x8000_0000 {
        w as i32
    } else {
        (w as int - 0x1_0000_0000) as i32
    }
}

/// The header word that holds the signed watch handle `v`.
pub open spec fn as_unsigned(v: i32) -> u32 {
    if v >= 0 {
        v as u32
    } else {
        (v as int + 0x1_0000_0000) as u32
    }
}

/// Offset of the first nul byte of `s`, or its length where it holds none.
pub open spec fn first_nul(s: Seq<u8>) -> nat
    decreases s.len(),
{
    if s.len() == 0 {
        0
    } else if s[0] == 0 {
        0
    } else {
        1 + first_nul(s.drop_first())
    }
}

/// A padded name field cut at its first nul.
pub open spec fn until_nul(s: Seq<u8>) -> Seq<u8> {
    s.take(first_nul(s) as int)
}

/// One record of the wire format, as the kernel lays it out.
pub struct WireRecord {
    pub wd: i32,
    pub mask: u32,
    pub cookie: u32,
    /// Length of the name field, padding included.
    pub len: u32,
    /// The name field up to its first nul.
    pub name: Seq<u8>,
}

/// Whether a whole record, header and name field, starts at offset `i` of `b`.
pub open spec fn fits_at(b: Seq<u8>, i: int, order: ByteOrder) -> bool {
    0 <= i && i + HEADER_SIZE <= b.len() && i + HEADER_SIZE + word_at(b, i + 12, order) <= b.len()
}

/// The record that starts at offset `i` of `b`.
pub open spec fn record_at(b: Seq<u8>, i: int, order: ByteOrder) -> WireRecord {
    let len = word_at(b, i + 12, order);
    WireRecord {
        wd: as_signed(word_at(b, i, order)),
        mask: word_at(b, i + 4, order),
        cookie: word_at(b, i + 8, order),
        len,
        name: until_nul(b.subrange(i + HEADER_SIZE, i + HEADER_SIZE + len)),
    }
}

/// Bytes a record takes on the wire.
pub open spec fn record_size(r: WireRecord) -> int {
    HEADER_SIZE + r.len
}

/// The records of `b` from offset `i` on, back to back up to its very end;
/// `None` where the last one is cut short.
pub open spec fn parse_from(b: Seq<u8>, i: nat, order: ByteOrder) -> Option<Seq<WireRecord>>
    decreases b.len() - i,
{
    if i >= b.len() {
        Some(Seq::empty())
    } else if !fits_at(b, i as int, order) {
        None
    } else {
        let r = record_at(b, i as int, order);
        match parse_from(b, (i + record_size(r)) as nat, order) {
            Some(rest) => Some(seq![r] + rest),
            None => None,
        }
    }
}

/// The records of a whole buffer.
pub open spec fn parse(b: Seq<u8>, order: ByteOrder) -> Option<Seq<WireRecord>> {
    parse_from(b, 0, order)
}

/// Whether `b` is whole records whose names are all UTF-8.
pub open spec fn decodable(b: Seq<u8>, order: ByteOrder) -> bool {
    match parse(b, order) {
        Some(recs) => forall|k: int| 0 <= k < recs.len() ==> valid_utf8(#[trigger] recs[k].name),
        None => false,
    }
}

/// Whether `e` is the decoded form of `r`.
pub open spec fn event_matches(e: Event, r: WireRecord) -> bool {
    &&& e.wd == r.wd
    &&& e.mask == r.mask
    &&& e.cookie == r.cookie
    &&& e.name@ == decode_utf8(r.name)
}

/// Whether `evs` are the decoded forms of `recs`, one for one and in order.
pub open spec fn events_match(evs: Seq<Event>, recs: Seq<WireRecord>) -> bool {
    &&& evs.len() == recs.len()
    &&& forall|k: int| 0 <= k < evs.len() ==> event_matches(#[trigger] evs[k], recs[k])
}

/// Cutting at the first nul: a name field whose first nul is at `p` gives
/// its first `p` bytes, and an empty field gives an empty name.
pub proof fn lemma_until_nul(s: Seq<u8>, p: int)
    requires
        0 <= p <= s.len(),
        forall|j: int| 0 <= j < p ==> s[j] != 0,
        p == s.len() || s[p] == 0,
    ensures
        first_nul(s) == p,
        until_nul(s) == s.take(p),
        s.len() == 0 ==> until_nul(s) == Seq::<u8>::empty(),
    decreases p,
{
    if p > 0 {
        let t = s.drop_first();
        assert forall|j: int| 0 <= j < p - 1 implies t[j] != 0 by {
            assert(t[j] == s[j + 1]);
        }
        assert(p - 1 == t.len() || t[p - 1] == s[p]);
        lemma_until_nul(t, p - 1);
        assert(s[0] != 0);
    }
}

/// The word made of `a`, `b`, `c`, `d`, least significant first.
fn join_bytes(a: u8, b: u8, c: u8, d: u8) -> (r: u32)
    ensures
        r == join4(a, b, c, d),
{
    reveal(join4);
    a as u32 + (b as u32) * 0x100 + (c as u32) * 0x1_0000 + (d as u32) * 0x100_0000
}

/// Reads the header word at offset `i`.
fn read_word(b: &[u8], i: usize, order: ByteOrder) -> (r: u32)
    requires
        i + 4 <= b@.len(),
    ensures
        r == word_at(b@, i as int, order),
{
    let (b0, b1, b2, b3) = (b[i], b[i + 1], b[i + 2], b[i + 3]);
    match order {
        ByteOrder::Little => join_bytes(b0, b1, b2, b3),
        ByteOrder::Big => join_bytes(b3, b2, b1, b0),
    }
}

/// Reads a header word as a signed watch handle.
fn to_signed(w: u32) -> (r: i32)
    ensures
        r == as_signed(w),
{
    if w < 0x8000_0000 {
        w as i32
    } else {
        (w - 0x8000_0000) as i32 - 0x4000_0000 - 0x4000_0000
    }
}

/// Offset of the first nul in `b[start..end]`, counted from `start`.
fn find_nul(b: &[u8], start: usize, end: usize) -> (p: usize)
    requires
        start <= end <= b@.len(),
    ensures
        p <= end - start,
        first_nul(b@.subrange(start as int, end as int)) == p,
{
    let ghost field = b@.subrange(start as int, end as int);
    let mut p: usize = 0;
    while p < end - start && b[start + p] != 0
        invariant
            start <= end <= b@.len(),
            field == b@.subrange(start as int, end as int),
            p <= end - start,
            forall|j: int| 0 <= j < p ==> field[j] != 0,
        decreases end - start - p,
    {
        p = p + 1;
    }
    proof {
        lemma_until_nul(field, p as int);
    }
    p
}

/// Relies on std::str::from_utf8: it accepts exactly the valid UTF-8 byte
/// sequences and yields the characters they encode.
#[verifier::external_body]
fn utf8_to_string(b: &[u8]) -> (r: Option<String>)
    ensures
        r is Some <==> valid_utf8(b@),
        r matches Some(s) ==> s@ == decode_utf8(b@),
{
    match std::str::from_utf8(b) {
        Ok(s) => Some(s.to_string()),
        Err(_) => None,
    }
}

/// Decodes the bytes of one read: the records back to back, each a 16-byte
/// header and a name field cut at its first nul. It fails with
/// `Error::Decode` exactly when the last record is cut short or a name is
/// not UTF-8.
pub fn decode_events(buf: &[u8], order: ByteOrder) -> (r: Result<Vec<Event>, Error>)
    ensures
        r is Ok <==> decodable(buf@, order),
        r matches Ok(evs) ==> parse(buf@, order) matches Some(recs) && events_match(evs@, recs),
        r matches Err(e) ==> e == Error::Decode,
{
    let mut evs: Vec<Event> = Vec::new();
    let ghost mut done: Seq<WireRecord> = Seq::empty();
    let mut i: usize = 0;
    while i < buf.len()
        invariant
            i <= buf@.len(),
            events_match(evs@, done),
            forall|k: int| 0 <= k < done.len() ==> valid_utf8(#[trigger] done[k].name),
            parse(buf@, order) == match parse_from(buf@, i as nat, order) {
                Some(rest) => Some(done + rest),
                None => None::<Seq<WireRecord>>,
            },
        decreases buf@.len() - i,
    {
        if buf.len() - i < HEADER_SIZE {
            return Err(Error::Decode);
        }
        let len = read_word(buf, i + 12, order);
        if len as usize > buf.len() - i - HEADER_SIZE {
            proof {
                assert(!fits_at(buf@, i as int, order));
                assert(parse_from(buf@, i as nat, order) is None);
            }
            return Err(Error::Decode);
        }
        let start = i + HEADER_SIZE;
        let end = start + len as usize;
        let ghost rec = record_at(buf@, i as int, order);
        let p = find_nul(buf, start, end);
        proof {
            assert(buf@.subrange(start as int, (start + p) as int) == rec.name);
            assert(fits_at(buf@, i as int, order));
            assert(end == i + record_size(rec));
            assert(parse_from(buf@, i as nat, order) == match parse_from(buf@, end as nat, order) {
                Some(rest) => Some(seq![rec] + rest),
                None => None::<Seq<WireRecord>>,
            });
        }
        let name = match utf8_to_string(slice_subrange(buf, start, start + p)) {
            Some(s) => s,
            None => {
                proof {
                    assert(!valid_utf8(rec.name));
                    match parse_from(buf@, end as nat, order) {
                        Some(rest) => {
                            let recs = done + (seq![rec] + rest);
                            assert(recs[done.len() as int] == rec);
                            assert(parse(buf@, order) == Some(recs));
                            assert(!valid_utf8(recs[done.len() as int].name));
                        },
                        None => {},
                    }
                    assert(!decodable(buf@, order));
                }
                return Err(Error::Decode);
            },
        };
        let ev = Event {
            wd: to_signed(read_word(buf, i, order)),
            mask: read_word(buf, i + 4, order),
            cookie: read_word(buf, i + 8, order),
            name,
        };
        proof {
            match parse_from(buf@, end as nat, order) {
                Some(rest) => {
                    assert(done + (seq![rec] + rest) == done.push(rec) + rest);
                },
                None => {},
            }
        }
        evs.push(ev);
        proof {
            done = done.push(rec);
        }
        i = end;
    }
    proof {
        assert(done + Seq::<WireRecord>::empty() == done);
    }
    Ok(evs)
}

/// A word split into bytes and joined again is the same word, and four bytes
/// joined and split again are the same bytes.
pub proof fn lemma_word_bytes(x: u32, a: u8, b: u8, c: u8, d: u8)
    ensures
        join4(split4(x)[0], split4(x)[1], split4(x)[2], split4(x)[3]) == x,
        split4(join4(a, b, c, d)) == seq![a, b, c, d],
{
    reveal(join4);
    reveal(split4);
    let xi = x as int;
    assert(xi == xi % 0x100 + ((xi / 0x100) % 0x100) * 0x100 + ((xi / 0x1_0000) % 0x100)
        * 0x1_0000 + (xi / 0x100_0000) * 0x100_0000 && xi / 0x100_0000 < 0x100) by (nonlinear_arith)
        requires
            0 <= xi < 0x1_0000_0000,
    ;
    let w = a as int + b as int * 0x100 + c as int * 0x1_0000 + d as int * 0x100_0000;
    assert(w % 0x100 == a as int && (w / 0x100) % 0x100 == b as int && (w / 0x1_0000) % 0x100
        == c as int && w / 0x100_0000 == d as int && w < 0x1_0000_0000) by (nonlinear_arith)
        requires
            w == a as int + b as int * 0x100 + c as int * 0x1_0000 + d as int * 0x100_0000,
            0 <= a < 0x100,
            0 <= b < 0x100,
            0 <= c < 0x100,
            0 <= d < 0x100,
    ;
    assert(split4(join4(a, b, c, d)) =~= seq![a, b, c, d]);
}

/// A header word takes four bytes.
proof fn lemma_word_len(x: u32, order: ByteOrder)
    ensures
        word_bytes(x, order).len() == 4,
{
    reveal(split4);
}

/// Relating a header word of a buffer to the bytes that hold it.
proof fn lemma_word_at(b: Seq<u8>, i: int, x: u32, order: ByteOrder)
    requires
        0 <= i,
        i + 4 <= b.len(),
    ensures
        word_bytes(word_at(b, i, order), order) == b.subrange(i, i + 4),
        b.subrange(i, i + 4) == word_bytes(x, order) ==> word_at(b, i, order) == x,
{
    lemma_word_bytes(x, b[i], b[i + 1], b[i + 2], b[i + 3]);
    lemma_word_bytes(x, b[i + 3], b[i + 2], b[i + 1], b[i]);
    let w = word_bytes(x, order);
    if b.subrange(i, i + 4) == w {
        assert(b[i] == w[0] && b[i + 1] == w[1] && b[i + 2] == w[2] && b[i + 3] == w[3]);
    }
    assert(word_bytes(word_at(b, i, order), order) =~= b.subrange(i, i + 4));
}

/// The signed reading of a header word and its inverse.
proof fn lemma_signed(w: u32, v: i32)
    ensures
        as_unsigned(as_signed(w)) == w,
        as_signed(as_unsigned(v)) == v,
{
}

/// Where the first nul of `s` stands.
proof fn lemma_first_nul(s: Seq<u8>)
    ensures
        first_nul(s) <= s.len(),
        forall|j: int| 0 <= j < first_nul(s) ==> s[j] != 0,
        first_nul(s) < s.len() ==> s[first_nul(s) as int] == 0,
    decreases s.len(),
{
    if s.len() > 0 && s[0] != 0 {
        let t = s.drop_first();
        lemma_first_nul(t);
        assert forall|j: int| 0 <= j < first_nul(s) implies s[j] != 0 by {
            if j > 0 {
                assert(s[j] == t[j - 1]);
            }
        }
    }
}

/// The unpadded wire form of a record: its four header words, then its name.
pub open spec fn encode_record(r: WireRecord, order: ByteOrder) -> Seq<u8> {
    word_bytes(as_unsigned(r.wd), order) + word_bytes(r.mask, order) + word_bytes(r.cookie, order)
        + word_bytes(r.len, order) + r.name
}

/// The record an event is written as: its name in UTF-8 with no padding.
pub open spec fn event_record(e: Event) -> WireRecord {
    WireRecord {
        wd: e.wd,
        mask: e.mask,
        cookie: e.cookie,
        len: encode_utf8(e.name@).len() as u32,
        name: encode_utf8(e.name@),
    }
}

/// The header word that holds the signed watch handle `v`.
fn to_unsigned(v: i32) -> (r: u32)
    ensures
        r == as_unsigned(v),
{
    if v >= 0 {
        v as u32
    } else {
        (v + 0x4000_0000 + 0x4000_0000) as u32 + 0x8000_0000
    }
}

/// Appends the bytes of header word `x`.
fn push_word(out: &mut Vec<u8>, x: u32, order: ByteOrder)
    ensures
        final(out)@ == old(out)@ + word_bytes(x, order),
{
    reveal(split4);
    let b0 = (x % 0x100) as u8;
    let b1 = ((x / 0x100) % 0x100) as u8;
    let b2 = ((x / 0x1_0000) % 0x100) as u8;
    let b3 = (x / 0x100_0000) as u8;
    match order {
        ByteOrder::Little => {
            out.push(b0);
            out.push(b1);
            out.push(b2);
            out.push(b3);
        },
        ByteOrder::Big => {
            out.push(b3);
            out.push(b2);
            out.push(b1);
            out.push(b0);
        },
    }
    assert(final(out)@ =~= old(out)@ + word_bytes(x, order));
}

/// Writes an event as one record with an unpadded name field.
pub fn encode_event(e: &Event, order: ByteOrder) -> (r: Vec<u8>)
    requires
        encode_utf8(e.name@).len() <= u32::MAX,
    ensures
        r@ == encode_record(event_record(*e), order),
{
    let name = e.name.as_str().as_bytes();
    let mut out: Vec<u8> = Vec::new();
    push_word(&mut out, to_unsigned(e.wd), order);
    push_word(&mut out, e.mask, order);
    push_word(&mut out, e.cookie, order);
    push_word(&mut out, name.len() as u32, order);
    let ghost head = out@;
    let mut k: usize = 0;
    while k < name.len()
        invariant
            k <= name@.len(),
            out@ == head + name@.take(k as int),
        decreases name@.len() - k,
    {
        out.push(name[k]);
        k = k + 1;
        assert(out@ =~= head + name@.take(k as int));
    }
    assert(name@.take(k as int) =~= name@);
    out
}

/// A record with a nul-free name and no padding, written out, decodes back
/// to itself.
pub proof fn lemma_encode_parse(r: WireRecord, order: ByteOrder)
    requires
        r.len == r.name.len(),
        forall|j: int| 0 <= j < r.name.len() ==> r.name[j] != 0,
    ensures
        parse(encode_record(r, order), order) == Some(seq![r]),
{
    let t = encode_record(r, order);
    let n = r.name.len() as int;
    lemma_word_len(as_unsigned(r.wd), order);
    lemma_word_len(r.mask, order);
    lemma_word_len(r.cookie, order);
    lemma_word_len(r.len, order);
    assert(t.subrange(0, 4) =~= word_bytes(as_unsigned(r.wd), order));
    assert(t.subrange(4, 8) =~= word_bytes(r.mask, order));
    assert(t.subrange(8, 12) =~= word_bytes(r.cookie, order));
    assert(t.subrange(12, 16) =~= word_bytes(r.len, order));
    assert(t.subrange(16, 16 + n) =~= r.name);
    lemma_word_at(t, 0, as_unsigned(r.wd), order);
    lemma_word_at(t, 4, r.mask, order);
    lemma_word_at(t, 8, r.cookie, order);
    lemma_word_at(t, 12, r.len, order);
    lemma_signed(0, r.wd);
    lemma_until_nul(r.name, n);
    assert(r.name.take(n) =~= r.name);
    assert(fits_at(t, 0, order));
    assert(record_at(t, 0, order) == r);
    assert(parse_from(t, (HEADER_SIZE + n) as nat, order) == Some(Seq::<WireRecord>::empty()));
    assert(seq![r] + Seq::<WireRecord>::empty() =~= seq![r]);
}

/// The first three header words of a record, as the record holds them.
proof fn lemma_header_words(b: Seq<u8>, order: ByteOrder, r: WireRecord)
    requires
        fits_at(b, 0, order),
        record_at(b, 0, order) == r,
    ensures
        b.take(12) == word_bytes(as_unsigned(r.wd), order) + word_bytes(r.mask, order)
            + word_bytes(r.cookie, order),
{
    lemma_word_at(b, 0, 0, order);
    lemma_word_at(b, 4, 0, order);
    lemma_word_at(b, 8, 0, order);
    lemma_signed(word_at(b, 0, order), r.wd);
    lemma_word_len(as_unsigned(r.wd), order);
    lemma_word_len(r.mask, order);
    lemma_word_len(r.cookie, order);
    assert(b.take(12) =~= b.subrange(0, 4) + b.subrange(4, 8) + b.subrange(8, 12));
}

/// Decoding a single-record buffer and writing the event back gives the
/// original bytes but for the name's padding: the same first three header
/// words, a name field that is the original's up to its first nul, a
/// length word that counts just the name, and a buffer that decodes to the
/// same record with the shorter length.
#[verifier::rlimit(50)]
pub proof fn lemma_round_trip(b: Seq<u8>, order: ByteOrder, r: WireRecord, e: Event)
    requires
        parse(b, order) == Some(seq![r]),
        valid_utf8(r.name),
        event_matches(e, r),
    ensures
        ({
            let t = encode_record(event_record(e), order);
            let n = r.name.len() as int;
            &&& t.len() == HEADER_SIZE + n
            &&& HEADER_SIZE + n <= b.len()
            &&& t.take(12) == b.take(12)
            &&& t.skip(16) == b.subrange(16, 16 + n)
            &&& n < r.len ==> b[16 + n] == 0
            &&& parse(t, order) == Some(
                seq![WireRecord { wd: r.wd, mask: r.mask, cookie: r.cookie, len: n as u32, name: r.name }],
            )
        }),
{
    let t = encode_record(event_record(e), order);
    let n = r.name.len() as int;
    lemma_word_len(as_unsigned(r.wd), order);
    lemma_word_len(r.mask, order);
    lemma_word_len(r.cookie, order);
    lemma_word_len(n as u32, order);
    assert(b.len() > 0) by {
        if b.len() == 0 {
            assert(parse(b, order)->0.len() == 0);
        }
    }
    assert(fits_at(b, 0, order));
    let rec = record_at(b, 0, order);
    let rest = parse_from(b, record_size(rec) as nat, order);
    assert(rest is Some);
    assert((seq![rec] + rest->0)[0] == rec);
    assert(rec == r);
    let field = b.subrange(16, 16 + r.len);
    lemma_first_nul(field);
    decode_utf8_encode_utf8(r.name);
    assert(encode_utf8(e.name@) == r.name);
    assert(event_record(e) == WireRecord { wd: r.wd, mask: r.mask, cookie: r.cookie, len: n as u32, name: r.name });
    lemma_header_words(b, order, r);
    assert(t.take(12) =~= word_bytes(as_unsigned(r.wd), order) + word_bytes(r.mask, order)
        + word_bytes(r.cookie, order));
    assert(t.skip(16) =~= b.subrange(16, 16 + n));
    if n < r.len {
        assert(b[16 + n] == field[n]);
    }
    assert forall|j: int| 0 <= j < n implies r.name[j] != 0 by {
        assert(r.name[j] == field[j]);
    }
    lemma_encode_parse(event_record(e), order);
}

/// Bytes that a run of records takes on the wire.
pub open spec fn total_size(recs: Seq<WireRecord>) -> int
    decreases recs.len(),
{
    if recs.len() == 0 {
        0
    } else {
        record_size(recs[0]) + total_size(recs.drop_first())
    }
}

/// Parsing a buffer at offset `off + j` of `pre + b`, where `pre` has
/// length `off`, is parsing `b` at offset `j`.
proof fn lemma_parse_shift(pre: Seq<u8>, b: Seq<u8>, j: nat, order: ByteOrder)
    ensures
        parse_from(pre + b, pre.len() + j, order) == parse_from(b, j, order),
    decreases b.len() - j,
{
    let c = pre + b;
    let i = pre.len() + j as int;
    let k = j as int;
    if j < b.len() {
        if k + HEADER_SIZE <= b.len() {
            assert(c.subrange(i + 12, i + 16) =~= b.subrange(k + 12, k + 16));
            lemma_word_at(c, i + 12, word_at(b, k + 12, order), order);
            lemma_word_at(b, k + 12, 0, order);
        }
        if fits_at(b, j as int, order) {
            let r = record_at(b, j as int, order);
            assert(c.subrange(i, i + 4) =~= b.subrange(j as int, k + 4));
            assert(c.subrange(i + 4, i + 8) =~= b.subrange(k + 4, k + 8));
            assert(c.subrange(i + 8, i + 12) =~= b.subrange(k + 8, k + 12));
            lemma_word_at(c, i, word_at(b, j as int, order), order);
            lemma_word_at(b, j as int, 0, order);
            lemma_word_at(c, i + 4, word_at(b, k + 4, order), order);
            lemma_word_at(b, k + 4, 0, order);
            lemma_word_at(c, i + 8, word_at(b, k + 8, order), order);
            lemma_word_at(b, k + 8, 0, order);
            assert(c.subrange(i + 16, i + 16 + r.len) =~= b.subrange(k + 16, k + 16 + r.len));
            assert(record_at(c, i as int, order) == r);
            lemma_parse_shift(pre, b, (j + record_size(r)) as nat, order);
        }
    }
}

/// Parsing `b1 + b2` from an offset inside `b1` reads on into `b2`.
proof fn lemma_parse_concat_from(b1: Seq<u8>, b2: Seq<u8>, i: nat, order: ByteOrder)
    requires
        i <= b1.len(),
        parse_from(b1, i, order) is Some,
        parse(b2, order) is Some,
    ensures
        parse_from(b1 + b2, i, order) == Some(
            parse_from(b1, i, order)->0 + parse(b2, order)->0,
        ),
    decreases b1.len() - i,
{
    let c = b1 + b2;
    let k = i as int;
    if i == b1.len() {
        lemma_parse_shift(b1, b2, 0, order);
        assert(Seq::<WireRecord>::empty() + parse(b2, order)->0 =~= parse(b2, order)->0);
    } else {
        let r = record_at(b1, k, order);
        assert(c.subrange(k + 12, k + 16) =~= b1.subrange(k + 12, k + 16));
        assert(c.subrange(k, k + 4) =~= b1.subrange(k, k + 4));
        assert(c.subrange(k + 4, k + 8) =~= b1.subrange(k + 4, k + 8));
        assert(c.subrange(k + 8, k + 12) =~= b1.subrange(k + 8, k + 12));
        lemma_word_at(c, k, word_at(b1, k, order), order);
        lemma_word_at(b1, k, 0, order);
        lemma_word_at(c, k + 4, word_at(b1, k + 4, order), order);
        lemma_word_at(b1, k + 4, 0, order);
        lemma_word_at(c, k + 8, word_at(b1, k + 8, order), order);
        lemma_word_at(b1, k + 8, 0, order);
        lemma_word_at(c, k + 12, word_at(b1, k + 12, order), order);
        lemma_word_at(b1, k + 12, 0, order);
        assert(c.subrange(k + 16, k + 16 + r.len) =~= b1.subrange(k + 16, k + 16 + r.len));
        assert(record_at(c, k, order) == r);
        let next = (i + record_size(r)) as nat;
        lemma_parse_concat_from(b1, b2, next, order);
        let rest = parse_from(b1, next, order)->0;
        assert(seq![r] + (rest + parse(b2, order)->0) =~= (seq![r] + rest) + parse(b2, order)->0);
    }
}

/// Two buffers of whole records, one after the other, decode to the records
/// of the first followed by those of the second.
pub proof fn lemma_parse_concat(b1: Seq<u8>, b2: Seq<u8>, order: ByteOrder)
    requires
        parse(b1, order) is Some,
        parse(b2, order) is Some,
    ensures
        parse(b1 + b2, order) == Some(parse(b1, order)->0 + parse(b2, order)->0),
{
    lemma_parse_concat_from(b1, b2, 0, order);
}

/// The records of a buffer fill it exactly: their sizes add up to its length.
pub proof fn lemma_parse_fills(b: Seq<u8>, order: ByteOrder)
    requires
        parse(b, order) is Some,
    ensures
        total_size(parse(b, order)->0) == b.len(),
{
    lemma_parse_fills_from(b, 0, order);
}

proof fn lemma_parse_fills_from(b: Seq<u8>, i: nat, order: ByteOrder)
    requires
        i <= b.len(),
        parse_from(b, i, order) is Some,
    ensures
        i + total_size(parse_from(b, i, order)->0) == b.len(),
    decreases b.len() - i,
{
    if i < b.len() {
        let r = record_at(b, i as int, order);
        let next = (i + record_size(r)) as nat;
        lemma_parse_fills_from(b, next, order);
        let rest = parse_from(b, next, order)->0;
        assert((seq![r] + rest).drop_first() =~= rest);
    }
}

} // verus!
