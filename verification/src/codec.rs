//! The binary log format: labels, then for each thread its events, every
//! integer written as eight little-endian bytes.
use crate::events::{RawEvent, SubGraphId, TaskId, TimeStamp};
use crate::le::{u64_le, u64_at, le_value, push_u64, read_u64_at, lemma_u64_at, lemma_u64_roundtrip};
use vstd::prelude::*;
use vstd::utf8::{valid_utf8, decode_utf8, encode_utf8, encode_utf8_valid_utf8, encode_utf8_decode_utf8};

verus! {

/// Why a log could not be read back.
#[derive(Debug, Clone, Copy, PartialEq, Eq, Structural)]
pub enum LoadError {
    /// The bytes end before the log does.
    UnexpectedEof,
    /// An event starts with a byte that names no kind of event.
    InvalidDiscriminant,
    /// A label is not valid UTF-8.
    InvalidUtf8,
}

/// Bytes written for one event: a discriminant byte then its fields.
pub open spec fn encode_event(e: RawEvent<SubGraphId>) -> Seq<u8> {
    match e {
        RawEvent::TaskStart(id, time) => seq![2u8] + u64_le(id as u64) + u64_le(time),
        RawEvent::TaskEnd(time) => seq![3u8] + u64_le(time),
        RawEvent::Child(id) => seq![4u8] + u64_le(id as u64),
        RawEvent::SubgraphStart(label) => seq![5u8] + u64_le(label as u64),
        RawEvent::SubgraphEnd(label, size) => seq![6u8] + u64_le(label as u64) + u64_le(
            size as u64,
        ),
    }
}

/// Event read at `pos`, with the position just after it.
pub open spec fn decode_event(b: Seq<u8>, pos: int) -> Result<(RawEvent<SubGraphId>, int), LoadError> {
    if pos < 0 || pos >= b.len() {
        Err(LoadError::UnexpectedEof)
    } else {
        let tag = b[pos];
        let p = pos + 1;
        if tag == 2u8 {
            if p + 16 <= b.len() {
                Ok((RawEvent::TaskStart(u64_at(b, p) as usize, u64_at(b, p + 8)), p + 16))
            } else {
                Err(LoadError::UnexpectedEof)
            }
        } else if tag == 3u8 {
            if p + 8 <= b.len() {
                Ok((RawEvent::TaskEnd(u64_at(b, p)), p + 8))
            } else {
                Err(LoadError::UnexpectedEof)
            }
        } else if tag == 4u8 {
            if p + 8 <= b.len() {
                Ok((RawEvent::Child(u64_at(b, p) as usize), p + 8))
            } else {
                Err(LoadError::UnexpectedEof)
            }
        } else if tag == 5u8 {
            if p + 8 <= b.len() {
                Ok((RawEvent::SubgraphStart(u64_at(b, p) as usize), p + 8))
            } else {
                Err(LoadError::UnexpectedEof)
            }
        } else if tag == 6u8 {
            if p + 16 <= b.len() {
                Ok(
                    (
                        RawEvent::SubgraphEnd(u64_at(b, p) as usize, u64_at(b, p + 8) as usize),
                        p + 16,
                    ),
                )
            } else {
                Err(LoadError::UnexpectedEof)
            }
        } else {
            Err(LoadError::InvalidDiscriminant)
        }
    }
}

/// The byte format of events: each event is written as its discriminant
/// byte (2 for a task start, 3 for a task end, 4 for a child, 5 for a
/// subgraph start, 6 for a subgraph end) followed by its fields, 8 bytes
/// each; and a successful read takes its kind from that byte.
pub proof fn lemma_event_discriminants(id: TaskId, time: TimeStamp, label: SubGraphId, size: usize)
    ensures
        encode_event(RawEvent::TaskStart(id, time))[0] == 2u8,
        encode_event(RawEvent::TaskStart(id, time)).len() == 17,
        encode_event(RawEvent::TaskEnd(time))[0] == 3u8,
        encode_event(RawEvent::TaskEnd(time)).len() == 9,
        encode_event(RawEvent::Child(id))[0] == 4u8,
        encode_event(RawEvent::Child(id)).len() == 9,
        encode_event(RawEvent::SubgraphStart(label))[0] == 5u8,
        encode_event(RawEvent::SubgraphStart(label)).len() == 9,
        encode_event(RawEvent::SubgraphEnd(label, size))[0] == 6u8,
        encode_event(RawEvent::SubgraphEnd(label, size)).len() == 17,
        forall|b: Seq<u8>, p: int|
            #![trigger decode_event(b, p)]
            decode_event(b, p) is Ok ==> 0 <= p < b.len() && match decode_event(b, p)->Ok_0.0 {
                RawEvent::TaskStart(_, _) => b[p] == 2u8,
                RawEvent::TaskEnd(_) => b[p] == 3u8,
                RawEvent::Child(_) => b[p] == 4u8,
                RawEvent::SubgraphStart(_) => b[p] == 5u8,
                RawEvent::SubgraphEnd(_, _) => b[p] == 6u8,
            },
{
    crate::le::lemma_le_bytes_len(id as nat, 8);
    crate::le::lemma_le_bytes_len(time as nat, 8);
    crate::le::lemma_le_bytes_len(label as nat, 8);
    crate::le::lemma_le_bytes_len(size as nat, 8);
}

/// A decoding result with its position widened to `int`.
pub open spec fn at_int<T>(r: Result<(T, usize), LoadError>) -> Result<(T, int), LoadError> {
    match r {
        Ok((v, p)) => Ok((v, p as int)),
        Err(e) => Err(e),
    }
}

fn read_u64_checked(source: &[u8], pos: usize) -> (r: Result<u64, LoadError>)
    ensures
        pos + 8 <= source@.len() ==> r == Ok::<u64, LoadError>(u64_at(source@, pos as int)),
        pos + 8 > source@.len() ==> r == Err::<u64, LoadError>(LoadError::UnexpectedEof),
        r is Ok <==> pos + 8 <= source@.len(),
        r is Ok ==> pos + 8 <= source.len(),
{
    if source.len() < 8 || pos > source.len() - 8 {
        Err(LoadError::UnexpectedEof)
    } else {
        let n = read_u64_at(source, pos);
        Ok(n)
    }
}

impl RawEvent<SubGraphId> {
    /// Append this event's bytes to `destination`.
    pub fn write_to(&self, destination: &mut Vec<u8>)
        ensures
            final(destination)@ == old(destination)@ + encode_event(*self),
    {
        match self {
            RawEvent::TaskStart(id, time) => {
                destination.push(2u8);
                push_u64(destination, *id as u64);
                push_u64(destination, *time);
            },
            RawEvent::TaskEnd(time) => {
                destination.push(3u8);
                push_u64(destination, *time);
            },
            RawEvent::Child(id) => {
                destination.push(4u8);
                push_u64(destination, *id as u64);
            },
            RawEvent::SubgraphStart(label) => {
                destination.push(5u8);
                push_u64(destination, *label as u64);
            },
            RawEvent::SubgraphEnd(label, size) => {
                destination.push(6u8);
                push_u64(destination, *label as u64);
                push_u64(destination, *size as u64);
            },
        }
        assert(final(destination)@ =~= old(destination)@ + encode_event(*self));
    }

    /// Read the event that starts at `pos`; return it with the position
    /// just after it.
    pub fn read_from(source: &[u8], pos: usize) -> (r: Result<(RawEvent<SubGraphId>, usize), LoadError>)
        ensures
            at_int(r) == decode_event(source@, pos as int),
    {
        if pos >= source.len() {
            return Err(LoadError::UnexpectedEof);
        }
        let tag = source[pos];
        let p = pos + 1;
        if tag == 2u8 {
            let id = read_u64_checked(source, p)?;
            let time = read_u64_checked(source, p + 8)?;
            Ok((RawEvent::TaskStart(id as usize, time), p + 16))
        } else if tag == 3u8 {
            let time = read_u64_checked(source, p)?;
            Ok((RawEvent::TaskEnd(time), p + 8))
        } else if tag == 4u8 {
            let id = read_u64_checked(source, p)?;
            Ok((RawEvent::Child(id as usize), p + 8))
        } else if tag == 5u8 {
            let label = read_u64_checked(source, p)?;
            Ok((RawEvent::SubgraphStart(label as usize), p + 8))
        } else if tag == 6u8 {
            let label = read_u64_checked(source, p)?;
            let size = read_u64_checked(source, p + 8)?;
            Ok((RawEvent::SubgraphEnd(label as usize, size as usize), p + 16))
        } else {
            Err(LoadError::InvalidDiscriminant)
        }
    }
}


/// Reading at `pos` the bytes of an event gives back that event.
pub proof fn lemma_event_roundtrip(b: Seq<u8>, pos: int, e: RawEvent<SubGraphId>)
    requires
        0 <= pos,
        pos + encode_event(e).len() <= b.len(),
        b.subrange(pos, pos + encode_event(e).len()) == encode_event(e),
    ensures
        decode_event(b, pos) == Ok::<(RawEvent<SubGraphId>, int), LoadError>(
            (e, pos + encode_event(e).len()),
        ),
{
    let enc = encode_event(e);
    assert(b[pos] == enc[0]);
    match e {
        RawEvent::TaskStart(id, time) => {
            lemma_u64_roundtrip(id as u64);
            lemma_u64_roundtrip(time);
            assert(b.subrange(pos + 1, pos + 9) =~= enc.subrange(1, 9));
            assert(enc.subrange(1, 9) =~= u64_le(id as u64));
            assert(b.subrange(pos + 9, pos + 17) =~= enc.subrange(9, 17));
            assert(enc.subrange(9, 17) =~= u64_le(time));
            lemma_u64_at(b, pos + 1, id as u64);
            lemma_u64_at(b, pos + 9, time);
        },
        RawEvent::TaskEnd(time) => {
            lemma_u64_roundtrip(time);
            assert(b.subrange(pos + 1, pos + 9) =~= enc.subrange(1, 9));
            assert(enc.subrange(1, 9) =~= u64_le(time));
            lemma_u64_at(b, pos + 1, time);
        },
        RawEvent::Child(id) => {
            lemma_u64_roundtrip(id as u64);
            assert(b.subrange(pos + 1, pos + 9) =~= enc.subrange(1, 9));
            assert(enc.subrange(1, 9) =~= u64_le(id as u64));
            lemma_u64_at(b, pos + 1, id as u64);
        },
        RawEvent::SubgraphStart(label) => {
            lemma_u64_roundtrip(label as u64);
            assert(b.subrange(pos + 1, pos + 9) =~= enc.subrange(1, 9));
            assert(enc.subrange(1, 9) =~= u64_le(label as u64));
            lemma_u64_at(b, pos + 1, label as u64);
        },
        RawEvent::SubgraphEnd(label, size) => {
            lemma_u64_roundtrip(label as u64);
            lemma_u64_roundtrip(size as u64);
            assert(b.subrange(pos + 1, pos + 9) =~= enc.subrange(1, 9));
            assert(enc.subrange(1, 9) =~= u64_le(label as u64));
            assert(b.subrange(pos + 9, pos + 17) =~= enc.subrange(9, 17));
            assert(enc.subrange(9, 17) =~= u64_le(size as u64));
            lemma_u64_at(b, pos + 1, label as u64);
            lemma_u64_at(b, pos + 9, size as u64);
        },
    }
}


/// Concatenation of the encodings of the items of `s`, in order.
pub open spec fn encode_all<T>(s: Seq<T>, enc: spec_fn(T) -> Seq<u8>) -> Seq<u8>
    decreases s.len(),
{
    if s.len() == 0 {
        Seq::empty()
    } else {
        enc(s[0]) + encode_all(s.drop_first(), enc)
    }
}

/// A count of items, then the items.
pub open spec fn encode_counted<T>(s: Seq<T>, enc: spec_fn(T) -> Seq<u8>) -> Seq<u8> {
    u64_le(s.len() as u64) + encode_all(s, enc)
}

/// `n` items read one after the other from `pos`, with the position after them.
pub open spec fn decode_many<T>(
    b: Seq<u8>,
    pos: int,
    n: nat,
    dec: spec_fn(Seq<u8>, int) -> Result<(T, int), LoadError>,
) -> Result<(Seq<T>, int), LoadError>
    decreases n,
{
    if n == 0 {
        Ok((Seq::empty(), pos))
    } else {
        match dec(b, pos) {
            Err(e) => Err(e),
            Ok((x, p)) => match decode_many(b, p, (n - 1) as nat, dec) {
                Err(e) => Err(e),
                Ok((rest, q)) => Ok((seq![x] + rest, q)),
            },
        }
    }
}

/// A count read at `pos`, then that many items.
pub open spec fn decode_counted<T>(
    b: Seq<u8>,
    pos: int,
    dec: spec_fn(Seq<u8>, int) -> Result<(T, int), LoadError>,
) -> Result<(Seq<T>, int), LoadError> {
    if pos < 0 || pos + 8 > b.len() {
        Err(LoadError::UnexpectedEof)
    } else {
        decode_many(b, pos + 8, (u64_at(b, pos) as usize) as nat, dec)
    }
}

/// `acc` put in front of the items of a decoding result.
pub open spec fn prepend<T>(acc: Seq<T>, r: Result<(Seq<T>, int), LoadError>) -> Result<
    (Seq<T>, int),
    LoadError,
> {
    match r {
        Ok((s, q)) => Ok((acc + s, q)),
        Err(e) => Err(e),
    }
}

pub open spec fn event_encoder() -> spec_fn(RawEvent<SubGraphId>) -> Seq<u8> {
    |e: RawEvent<SubGraphId>| encode_event(e)
}

pub open spec fn event_decoder() -> spec_fn(Seq<u8>, int) -> Result<
    (RawEvent<SubGraphId>, int),
    LoadError,
> {
    |b: Seq<u8>, p: int| decode_event(b, p)
}

/// Bytes of a label: its UTF-8 length, then its UTF-8 bytes.
pub open spec fn encode_label(s: Seq<char>) -> Seq<u8> {
    u64_le(encode_utf8(s).len() as u64) + encode_utf8(s)
}

/// Label read at `pos`.
pub open spec fn decode_label(b: Seq<u8>, pos: int) -> Result<(Seq<char>, int), LoadError> {
    if pos < 0 || pos + 8 > b.len() {
        Err(LoadError::UnexpectedEof)
    } else {
        let len = (u64_at(b, pos) as usize) as int;
        let p = pos + 8;
        if p + len > b.len() {
            Err(LoadError::UnexpectedEof)
        } else if valid_utf8(b.subrange(p, p + len)) {
            Ok((decode_utf8(b.subrange(p, p + len)), p + len))
        } else {
            Err(LoadError::InvalidUtf8)
        }
    }
}

pub open spec fn label_encoder() -> spec_fn(Seq<char>) -> Seq<u8> {
    |s: Seq<char>| encode_label(s)
}

pub open spec fn label_decoder() -> spec_fn(Seq<u8>, int) -> Result<(Seq<char>, int), LoadError> {
    |b: Seq<u8>, p: int| decode_label(b, p)
}

pub open spec fn thread_encoder() -> spec_fn(Seq<RawEvent<SubGraphId>>) -> Seq<u8> {
    |s: Seq<RawEvent<SubGraphId>>| encode_counted(s, event_encoder())
}

pub open spec fn thread_decoder() -> spec_fn(Seq<u8>, int) -> Result<
    (Seq<RawEvent<SubGraphId>>, int),
    LoadError,
> {
    |b: Seq<u8>, p: int| decode_counted(b, p, event_decoder())
}

/// Vectors in a decoding result taken by their views.
pub open spec fn seq_result<T>(r: Result<(Vec<T>, usize), LoadError>) -> Result<
    (Seq<T>, int),
    LoadError,
> {
    match r {
        Ok((v, p)) => Ok((v@, p as int)),
        Err(e) => Err(e),
    }
}

pub open spec fn strings_view(v: Seq<String>) -> Seq<Seq<char>> {
    v.map_values(|s: String| s@)
}

pub open spec fn threads_view(v: Seq<Vec<RawEvent<SubGraphId>>>) -> Seq<Seq<RawEvent<SubGraphId>>> {
    v.map_values(|t: Vec<RawEvent<SubGraphId>>| t@)
}

/// Appending an item appends its encoding.
pub proof fn lemma_encode_all_push<T>(s: Seq<T>, x: T, enc: spec_fn(T) -> Seq<u8>)
    ensures
        encode_all(s.push(x), enc) == encode_all(s, enc) + enc(x),
    decreases s.len(),
{
    if s.len() == 0 {
        assert(s.push(x).drop_first() =~= s);
        assert(encode_all(s.push(x), enc) =~= encode_all(s, enc) + enc(x));
    } else {
        lemma_encode_all_push(s.drop_first(), x, enc);
        assert(s.push(x).drop_first() =~= s.drop_first().push(x));
        assert(encode_all(s.push(x), enc) =~= encode_all(s, enc) + enc(x));
    }
}

/// One more decoded item moves from the remaining decoding to the prefix.
pub proof fn lemma_decode_many_step<T>(
    b: Seq<u8>,
    pos: int,
    n: nat,
    dec: spec_fn(Seq<u8>, int) -> Result<(T, int), LoadError>,
    acc: Seq<T>,
    x: T,
    p: int,
)
    requires
        n > 0,
        dec(b, pos) == Ok::<(T, int), LoadError>((x, p)),
    ensures
        prepend(acc, decode_many(b, pos, n, dec)) == prepend(
            acc.push(x),
            decode_many(b, p, (n - 1) as nat, dec),
        ),
{
    match decode_many(b, p, (n - 1) as nat, dec) {
        Ok((rest, q)) => {
            assert(acc + (seq![x] + rest) =~= acc.push(x) + rest);
        },
        Err(e) => {},
    }
}


/// Turns bytes into a `String` with `String::from_utf8`: the claim is that
/// this succeeds exactly on valid UTF-8, with the characters those bytes
/// encode.
#[verifier::external_body]
fn string_from_utf8(bytes: Vec<u8>) -> (r: Option<String>)
    ensures
        r is Some <==> valid_utf8(bytes@),
        r matches Some(s) ==> s@ == decode_utf8(bytes@),
{
    String::from_utf8(bytes).ok()
}

/// A label decoding result taken by its view.
pub open spec fn label_result(r: Result<(String, usize), LoadError>) -> Result<
    (Seq<char>, int),
    LoadError,
> {
    match r {
        Ok((s, p)) => Ok((s@, p as int)),
        Err(e) => Err(e),
    }
}

/// Labels in a decoding result taken by their views.
pub open spec fn strings_result(r: Result<(Vec<String>, usize), LoadError>) -> Result<
    (Seq<Seq<char>>, int),
    LoadError,
> {
    match r {
        Ok((v, p)) => Ok((strings_view(v@), p as int)),
        Err(e) => Err(e),
    }
}

/// Threads in a decoding result taken by their views.
pub open spec fn threads_result(r: Result<(Vec<Vec<RawEvent<SubGraphId>>>, usize), LoadError>) -> Result<
    (Seq<Seq<RawEvent<SubGraphId>>>, int),
    LoadError,
> {
    match r {
        Ok((v, p)) => Ok((threads_view(v@), p as int)),
        Err(e) => Err(e),
    }
}

/// Read a count, then that many events.
fn read_events_from(source: &[u8], pos: usize) -> (r: Result<
    (Vec<RawEvent<SubGraphId>>, usize),
    LoadError,
>)
    ensures
        seq_result(r) == decode_counted(source@, pos as int, event_decoder()),
        r matches Ok((_, q)) ==> q <= source@.len(),
{
    let count = match read_u64_checked(source, pos) {
        Ok(c) => c,
        Err(e) => return Err(e),
    };
    let n = count as usize;
    let mut events: Vec<RawEvent<SubGraphId>> = Vec::new();
    let mut p = pos + 8;
    let mut i: usize = 0;
    while i < n
        invariant
            i <= n,
            p <= source@.len(),
            pos + 8 <= source@.len(),
            n == (u64_at(source@, pos as int) as usize),
            decode_counted(source@, pos as int, event_decoder()) == prepend(
                events@,
                decode_many(source@, p as int, (n - i) as nat, event_decoder()),
            ),
        decreases n - i,
    {
        let (e, q) = RawEvent::read_from(source, p)?;
        proof {
            lemma_decode_many_step(
                source@,
                p as int,
                (n - i) as nat,
                event_decoder(),
                events@,
                e,
                q as int,
            );
        }
        events.push(e);
        p = q;
        i = i + 1;
    }
    assert(events@ + Seq::<RawEvent<SubGraphId>>::empty() =~= events@);
    Ok((events, p))
}

/// Read a label: its byte length then its UTF-8 bytes.
fn read_string_from(source: &[u8], pos: usize) -> (r: Result<(String, usize), LoadError>)
    ensures
        label_result(r) == decode_label(source@, pos as int),
{
    let count = match read_u64_checked(source, pos) {
        Ok(c) => c,
        Err(e) => return Err(e),
    };
    let len = count as usize;
    let p = pos + 8;
    if len > source.len() - p {
        return Err(LoadError::UnexpectedEof);
    }
    let bytes = vstd::slice::slice_to_vec(vstd::slice::slice_subrange(source, p, p + len));
    match string_from_utf8(bytes) {
        Some(s) => Ok((s, p + len)),
        None => Err(LoadError::InvalidUtf8),
    }
}

/// Read a count, then that many labels.
fn read_vec_strings_from(source: &[u8], pos: usize) -> (r: Result<(Vec<String>, usize), LoadError>)
    ensures
        strings_result(r) == decode_counted(source@, pos as int, label_decoder()),
{
    let count = match read_u64_checked(source, pos) {
        Ok(c) => c,
        Err(e) => return Err(e),
    };
    let n = count as usize;
    let mut strings: Vec<String> = Vec::new();
    let mut p = pos + 8;
    let mut i: usize = 0;
    while i < n
        invariant
            i <= n,
            p <= source@.len(),
            pos + 8 <= source@.len(),
            n == (u64_at(source@, pos as int) as usize),
            decode_counted(source@, pos as int, label_decoder()) == prepend(
                strings_view(strings@),
                decode_many(source@, p as int, (n - i) as nat, label_decoder()),
            ),
        decreases n - i,
    {
        let (s, q) = read_string_from(source, p)?;
        proof {
            lemma_decode_many_step(
                source@,
                p as int,
                (n - i) as nat,
                label_decoder(),
                strings_view(strings@),
                s@,
                q as int,
            );
        }
        let ghost before = strings@;
        strings.push(s);
        assert(strings_view(strings@) =~= strings_view(before).push(s@));
        p = q;
        i = i + 1;
    }
    assert(strings_view(strings@) + Seq::<Seq<char>>::empty() =~= strings_view(strings@));
    Ok((strings, p))
}

/// Read a count, then that many threads, each a count then its events.
fn read_threads_from(source: &[u8], pos: usize) -> (r: Result<
    (Vec<Vec<RawEvent<SubGraphId>>>, usize),
    LoadError,
>)
    ensures
        threads_result(r) == decode_counted(source@, pos as int, thread_decoder()),
{
    let count = match read_u64_checked(source, pos) {
        Ok(c) => c,
        Err(e) => return Err(e),
    };
    let n = count as usize;
    let mut threads: Vec<Vec<RawEvent<SubGraphId>>> = Vec::new();
    let mut p = pos + 8;
    let mut i: usize = 0;
    while i < n
        invariant
            i <= n,
            p <= source@.len(),
            pos + 8 <= source@.len(),
            n == (u64_at(source@, pos as int) as usize),
            decode_counted(source@, pos as int, thread_decoder()) == prepend(
                threads_view(threads@),
                decode_many(source@, p as int, (n - i) as nat, thread_decoder()),
            ),
        decreases n - i,
    {
        let (events, q) = read_events_from(source, p)?;
        proof {
            lemma_decode_many_step(
                source@,
                p as int,
                (n - i) as nat,
                thread_decoder(),
                threads_view(threads@),
                events@,
                q as int,
            );
        }
        let ghost before = threads@;
        threads.push(events);
        assert(threads_view(threads@) =~= threads_view(before).push(events@));
        p = q;
        i = i + 1;
    }
    assert(threads_view(threads@) + Seq::<Seq<RawEvent<SubGraphId>>>::empty() =~= threads_view(
        threads@,
    ));
    Ok((threads, p))
}

/// Append a count then the bytes of each event.
fn write_events_to(events: &Vec<RawEvent<SubGraphId>>, destination: &mut Vec<u8>)
    ensures
        final(destination)@ == old(destination)@ + encode_counted(events@, event_encoder()),
{
    push_u64(destination, events.len() as u64);
    let ghost start = destination@;
    let mut i: usize = 0;
    while i < events.len()
        invariant
            i <= events@.len(),
            start == old(destination)@ + u64_le(events@.len() as u64),
            destination@ == start + encode_all(events@.take(i as int), event_encoder()),
        decreases events@.len() - i,
    {
        events[i].write_to(destination);
        proof {
            lemma_encode_all_push(events@.take(i as int), events@[i as int], event_encoder());
            assert(events@.take(i + 1) =~= events@.take(i as int).push(events@[i as int]));
        }
        i = i + 1;
    }
    assert(events@.take(events@.len() as int) =~= events@);
    assert(final(destination)@ =~= old(destination)@ + encode_counted(events@, event_encoder()));
}

/// Append a label: its UTF-8 length then its UTF-8 bytes.
fn write_string_to(string: &String, destination: &mut Vec<u8>)
    ensures
        final(destination)@ == old(destination)@ + encode_label(string@),
        encode_utf8(string@).len() <= usize::MAX,
{
    let bytes = string.as_str().as_bytes();
    assert(bytes@.len() == bytes.len());
    push_u64(destination, bytes.len() as u64);
    let mut copy = vstd::slice::slice_to_vec(bytes);
    destination.append(&mut copy);
    assert(final(destination)@ =~= old(destination)@ + encode_label(string@));
}

/// Append a count then each label.
fn write_vec_strings_to(vector: &Vec<String>, destination: &mut Vec<u8>)
    ensures
        final(destination)@ == old(destination)@ + encode_counted(
            strings_view(vector@),
            label_encoder(),
        ),
        strings_view(vector@).len() <= usize::MAX,
        forall|i: int|
            0 <= i < strings_view(vector@).len() ==> encode_utf8(#[trigger] strings_view(vector@)[i]).len()
                <= usize::MAX,
{
    push_u64(destination, vector.len() as u64);
    let ghost start = destination@;
    let ghost all = strings_view(vector@);
    let mut i: usize = 0;
    while i < vector.len()
        invariant
            i <= vector@.len(),
            all == strings_view(vector@),
            start == old(destination)@ + u64_le(vector@.len() as u64),
            destination@ == start + encode_all(all.take(i as int), label_encoder()),
            forall|k: int| 0 <= k < i ==> encode_utf8(#[trigger] all[k]).len() <= usize::MAX,
        decreases vector@.len() - i,
    {
        write_string_to(&vector[i], destination);
        proof {
            lemma_encode_all_push(all.take(i as int), all[i as int], label_encoder());
            assert(all.take(i + 1) =~= all.take(i as int).push(all[i as int]));
        }
        i = i + 1;
    }
    assert(all.take(vector@.len() as int) =~= all);
    assert(final(destination)@ =~= old(destination)@ + encode_counted(all, label_encoder()));
    assert(vector.len() == vector@.len());
}


/// Raw unprocessed logs: for each thread its events, and the labels that
/// subgraph events refer to by index.
pub struct RawLogs {
    /// Events of each thread, in recording order.
    pub thread_events: Vec<Vec<RawEvent<SubGraphId>>>,
    /// Subgraph labels.
    pub labels: Vec<String>,
}

/// What a `RawLogs` holds, as mathematical sequences.
pub struct LogsView {
    pub thread_events: Seq<Seq<RawEvent<SubGraphId>>>,
    pub labels: Seq<Seq<char>>,
}

impl View for RawLogs {
    type V = LogsView;

    open spec fn view(&self) -> LogsView {
        LogsView {
            thread_events: threads_view(self.thread_events@),
            labels: strings_view(self.labels@),
        }
    }
}

/// Bytes of a whole log: the labels, then the threads with their events.
pub open spec fn encode_logs(l: LogsView) -> Seq<u8> {
    encode_counted(l.labels, label_encoder()) + encode_counted(l.thread_events, thread_encoder())
}

/// The log read from the start of `b` (bytes after it are ignored).
pub open spec fn decode_logs(b: Seq<u8>) -> Result<LogsView, LoadError> {
    match decode_counted(b, 0, label_decoder()) {
        Err(e) => Err(e),
        Ok((labels, p)) => match decode_counted(b, p, thread_decoder()) {
            Err(e) => Err(e),
            Ok((threads, _)) => Ok(LogsView { thread_events: threads, labels }),
        },
    }
}

/// A loading result taken by its view.
pub open spec fn logs_result(r: Result<RawLogs, LoadError>) -> Result<LogsView, LoadError> {
    match r {
        Ok(l) => Ok(l@),
        Err(e) => Err(e),
    }
}

/// Every count and every label length of `l` fits in a `usize`, as they do
/// in any log held in memory.
pub open spec fn logs_fit(l: LogsView) -> bool {
    &&& l.labels.len() <= usize::MAX
    &&& l.thread_events.len() <= usize::MAX
    &&& forall|i: int| 0 <= i < l.labels.len() ==> encode_utf8(#[trigger] l.labels[i]).len() <= usize::MAX
    &&& forall|i: int| 0 <= i < l.thread_events.len() ==> (#[trigger] l.thread_events[i]).len() <= usize::MAX
}

impl RawLogs {
    /// Read a log from the start of `source`.
    pub fn load(source: &[u8]) -> (r: Result<RawLogs, LoadError>)
        ensures
            logs_result(r) == decode_logs(source@),
    {
        let (labels, p) = match read_vec_strings_from(source, 0) {
            Ok(x) => x,
            Err(e) => return Err(e),
        };
        let (thread_events, _) = match read_threads_from(source, p) {
            Ok(x) => x,
            Err(e) => return Err(e),
        };
        Ok(RawLogs { thread_events, labels })
    }

    /// Append the bytes of this log to `destination`.
    /// Append the log to `destination`, in the log format; the bytes
    /// appended load back as this very log.
    pub fn save(&self, destination: &mut Vec<u8>)
        ensures
            final(destination)@ == old(destination)@ + encode_logs(self@),
            decode_logs(encode_logs(self@)) == Ok::<LogsView, LoadError>(self@),
    {
        write_vec_strings_to(&self.labels, destination);
        push_u64(destination, self.thread_events.len() as u64);
        let ghost start = destination@;
        let ghost all = threads_view(self.thread_events@);
        let mut i: usize = 0;
        while i < self.thread_events.len()
            invariant
                i <= self.thread_events@.len(),
                all == threads_view(self.thread_events@),
                start == old(destination)@ + encode_counted(strings_view(self.labels@), label_encoder())
                    + u64_le(self.thread_events@.len() as u64),
                destination@ == start + encode_all(all.take(i as int), thread_encoder()),
                forall|k: int| 0 <= k < i ==> (#[trigger] all[k]).len() <= usize::MAX,
            decreases self.thread_events@.len() - i,
        {
            assert(self.thread_events[i as int].len() == self.thread_events@[i as int]@.len());
            write_events_to(&self.thread_events[i], destination);
            proof {
                lemma_encode_all_push(all.take(i as int), all[i as int], thread_encoder());
                assert(all.take(i + 1) =~= all.take(i as int).push(all[i as int]));
            }
            i = i + 1;
        }
        assert(all.take(self.thread_events@.len() as int) =~= all);
        assert(final(destination)@ =~= old(destination)@ + encode_logs(self@));
        proof {
            assert(self.thread_events.len() == self.thread_events@.len());
            assert(logs_fit(self@));
            lemma_save_load_roundtrip(self@);
        }
    }
}

/// If the items each read back from their encodings, a run of encodings
/// reads back as the run of items.
pub proof fn lemma_decode_many_roundtrip<T>(
    b: Seq<u8>,
    pos: int,
    s: Seq<T>,
    enc: spec_fn(T) -> Seq<u8>,
    dec: spec_fn(Seq<u8>, int) -> Result<(T, int), LoadError>,
)
    requires
        0 <= pos,
        pos + encode_all(s, enc).len() <= b.len(),
        b.subrange(pos, pos + encode_all(s, enc).len()) == encode_all(s, enc),
        forall|i: int, p: int|
            #![trigger s[i], dec(b, p)]
            0 <= i < s.len() && 0 <= p && p + enc(s[i]).len() <= b.len() && b.subrange(
                p,
                p + enc(s[i]).len(),
            ) == enc(s[i]) ==> dec(b, p) == Ok::<(T, int), LoadError>((s[i], p + enc(s[i]).len())),
    ensures
        decode_many(b, pos, s.len(), dec) == Ok::<(Seq<T>, int), LoadError>(
            (s, pos + encode_all(s, enc).len()),
        ),
    decreases s.len(),
{
    if s.len() == 0 {
        assert(s =~= Seq::<T>::empty());
    } else {
        let e0 = enc(s[0]);
        let rest = s.drop_first();
        let all = encode_all(s, enc);
        let tail = encode_all(rest, enc);
        assert(all == e0 + tail);
        assert(b.subrange(pos, pos + e0.len()) =~= all.subrange(0, e0.len() as int));
        assert(all.subrange(0, e0.len() as int) =~= e0);
        assert(dec(b, pos) == Ok::<(T, int), LoadError>((s[0], pos + e0.len())));
        assert(b.subrange(pos + e0.len(), pos + e0.len() + tail.len()) =~= all.subrange(
            e0.len() as int,
            all.len() as int,
        ));
        assert(all.subrange(e0.len() as int, all.len() as int) =~= tail);
        assert forall|i: int, p: int|
            #![trigger rest[i], dec(b, p)]
            0 <= i < rest.len() && 0 <= p && p + enc(rest[i]).len() <= b.len() && b.subrange(
                p,
                p + enc(rest[i]).len(),
            ) == enc(rest[i]) implies dec(b, p) == Ok::<(T, int), LoadError>(
            (rest[i], p + enc(rest[i]).len()),
        ) by {
            assert(rest[i] == s[i + 1]);
        }
        lemma_decode_many_roundtrip(b, pos + e0.len(), rest, enc, dec);
        assert(seq![s[0]] + rest =~= s);
    }
}

/// A counted run of encodings reads back as the run of items.
pub proof fn lemma_decode_counted_roundtrip<T>(
    b: Seq<u8>,
    pos: int,
    s: Seq<T>,
    enc: spec_fn(T) -> Seq<u8>,
    dec: spec_fn(Seq<u8>, int) -> Result<(T, int), LoadError>,
)
    requires
        0 <= pos,
        s.len() <= usize::MAX,
        pos + encode_counted(s, enc).len() <= b.len(),
        b.subrange(pos, pos + encode_counted(s, enc).len()) == encode_counted(s, enc),
        forall|i: int, p: int|
            #![trigger s[i], dec(b, p)]
            0 <= i < s.len() && 0 <= p && p + enc(s[i]).len() <= b.len() && b.subrange(
                p,
                p + enc(s[i]).len(),
            ) == enc(s[i]) ==> dec(b, p) == Ok::<(T, int), LoadError>((s[i], p + enc(s[i]).len())),
    ensures
        decode_counted(b, pos, dec) == Ok::<(Seq<T>, int), LoadError>(
            (s, pos + encode_counted(s, enc).len()),
        ),
{
    let all = encode_counted(s, enc);
    let body = encode_all(s, enc);
    lemma_u64_roundtrip(s.len() as u64);
    assert(b.subrange(pos, pos + 8) =~= all.subrange(0, 8));
    assert(all.subrange(0, 8) =~= u64_le(s.len() as u64));
    lemma_u64_at(b, pos, s.len() as u64);
    assert(b.subrange(pos + 8, pos + 8 + body.len()) =~= all.subrange(8, all.len() as int));
    assert(all.subrange(8, all.len() as int) =~= body);
    lemma_decode_many_roundtrip(b, pos + 8, s, enc, dec);
}

/// A label reads back from its bytes.
pub proof fn lemma_label_roundtrip(b: Seq<u8>, pos: int, x: Seq<char>)
    requires
        0 <= pos,
        encode_utf8(x).len() <= usize::MAX,
        pos + encode_label(x).len() <= b.len(),
        b.subrange(pos, pos + encode_label(x).len()) == encode_label(x),
    ensures
        decode_label(b, pos) == Ok::<(Seq<char>, int), LoadError>((x, pos + encode_label(x).len())),
{
    let all = encode_label(x);
    let bytes = encode_utf8(x);
    lemma_u64_roundtrip(bytes.len() as u64);
    assert(b.subrange(pos, pos + 8) =~= all.subrange(0, 8));
    assert(all.subrange(0, 8) =~= u64_le(bytes.len() as u64));
    lemma_u64_at(b, pos, bytes.len() as u64);
    assert(b.subrange(pos + 8, pos + 8 + bytes.len()) =~= all.subrange(8, all.len() as int));
    assert(all.subrange(8, all.len() as int) =~= bytes);
    encode_utf8_valid_utf8(x);
    encode_utf8_decode_utf8(x);
}

/// A thread's events read back from their bytes.
pub proof fn lemma_thread_roundtrip(b: Seq<u8>, pos: int, x: Seq<RawEvent<SubGraphId>>)
    requires
        0 <= pos,
        x.len() <= usize::MAX,
        pos + encode_counted(x, event_encoder()).len() <= b.len(),
        b.subrange(pos, pos + encode_counted(x, event_encoder()).len()) == encode_counted(
            x,
            event_encoder(),
        ),
    ensures
        decode_counted(b, pos, event_decoder()) == Ok::<(Seq<RawEvent<SubGraphId>>, int), LoadError>(
            (x, pos + encode_counted(x, event_encoder()).len()),
        ),
{
    assert forall|i: int, p: int|
        #![trigger x[i], event_decoder()(b, p)]
        0 <= i < x.len() && 0 <= p && p + event_encoder()(x[i]).len() <= b.len() && b.subrange(
            p,
            p + event_encoder()(x[i]).len(),
        ) == event_encoder()(x[i]) implies event_decoder()(b, p) == Ok::<
        (RawEvent<SubGraphId>, int),
        LoadError,
    >((x[i], p + event_encoder()(x[i]).len())) by {
        lemma_event_roundtrip(b, p, x[i]);
    }
    lemma_decode_counted_roundtrip(b, pos, x, event_encoder(), event_decoder());
}

/// Saving a log then loading the bytes gives the same log back.
pub proof fn lemma_save_load_roundtrip(l: LogsView)
    requires
        logs_fit(l),
    ensures
        decode_logs(encode_logs(l)) == Ok::<LogsView, LoadError>(l),
{
    let b = encode_logs(l);
    let first = encode_counted(l.labels, label_encoder());
    let second = encode_counted(l.thread_events, thread_encoder());
    assert(b.subrange(0, first.len() as int) =~= first);
    assert forall|i: int, p: int|
        #![trigger l.labels[i], label_decoder()(b, p)]
        0 <= i < l.labels.len() && 0 <= p && p + label_encoder()(l.labels[i]).len() <= b.len()
            && b.subrange(p, p + label_encoder()(l.labels[i]).len()) == label_encoder()(
            l.labels[i],
        ) implies label_decoder()(b, p) == Ok::<(Seq<char>, int), LoadError>(
        (l.labels[i], p + label_encoder()(l.labels[i]).len()),
    ) by {
        lemma_label_roundtrip(b, p, l.labels[i]);
    }
    lemma_decode_counted_roundtrip(b, 0, l.labels, label_encoder(), label_decoder());
    assert(b.subrange(first.len() as int, (first.len() + second.len()) as int) =~= second);
    assert forall|i: int, p: int|
        #![trigger l.thread_events[i], thread_decoder()(b, p)]
        0 <= i < l.thread_events.len() && 0 <= p && p + thread_encoder()(
            l.thread_events[i],
        ).len() <= b.len() && b.subrange(p, p + thread_encoder()(l.thread_events[i]).len())
            == thread_encoder()(l.thread_events[i]) implies thread_decoder()(b, p) == Ok::<
        (Seq<RawEvent<SubGraphId>>, int),
        LoadError,
    >((l.thread_events[i], p + thread_encoder()(l.thread_events[i]).len())) by {
        lemma_thread_roundtrip(b, p, l.thread_events[i]);
    }
    lemma_decode_counted_roundtrip(
        b,
        first.len() as int,
        l.thread_events,
        thread_encoder(),
        thread_decoder(),
    );
}

} // verus!
