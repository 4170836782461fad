use vstd::prelude::*;
use vstd::utf8::{decode_utf8, decode_utf8_encode_utf8, encode_utf8, encode_utf8_decode_utf8, encode_utf8_valid_utf8, valid_utf8};
use vstd::string::StringSliceAdditionalSpecFns;
use crate::error::{KvsError, Result};

verus! {

/// Bytes of framing in front of every payload: an 8-byte start offset and a
/// 4-byte payload length, both big-endian.
pub const HEADER_SIZE: usize = 12;

/// Tag byte of a `Put` payload.
pub const TAG_PUT: u8 = 0;

/// Tag byte of a `Remove` payload.
pub const TAG_REMOVE: u8 = 1;

/// The mathematical value of a command.
pub enum CommandModel {
    Put { key: Seq<char>, value: Seq<char> },
    Remove { key: Seq<char> },
}

/// The atomic unit of the log.
#[derive(Debug)]
pub enum Command {
    Put { key: String, value: String },
    Remove { key: String },
}

impl View for Command {
    type V = CommandModel;

    open spec fn view(&self) -> CommandModel {
        match self {
            Command::Put { key, value } => CommandModel::Put { key: key@, value: value@ },
            Command::Remove { key } => CommandModel::Remove { key: key@ },
        }
    }
}

/// Big-endian bytes of a 64-bit integer.
pub open spec fn be_u64(x: u64) -> Seq<u8> {
    seq![
        (x >> 56) as u8, (x >> 48) as u8, (x >> 40) as u8, (x >> 32) as u8,
        (x >> 24) as u8, (x >> 16) as u8, (x >> 8) as u8, x as u8,
    ]
}

/// Big-endian bytes of a 32-bit integer.
pub open spec fn be_u32(x: u32) -> Seq<u8> {
    seq![(x >> 24) as u8, (x >> 16) as u8, (x >> 8) as u8, x as u8]
}

/// The 64-bit integer stored big-endian in `b[p..p + 8]`.
pub open spec fn u64_at(b: Seq<u8>, p: int) -> u64 {
    ((b[p] as u64) << 56) | ((b[p + 1] as u64) << 48) | ((b[p + 2] as u64) << 40)
        | ((b[p + 3] as u64) << 32) | ((b[p + 4] as u64) << 24) | ((b[p + 5] as u64) << 16)
        | ((b[p + 6] as u64) << 8) | (b[p + 7] as u64)
}

/// The 32-bit integer stored big-endian in `b[p..p + 4]`.
pub open spec fn u32_at(b: Seq<u8>, p: int) -> u32 {
    ((b[p] as u32) << 24) | ((b[p + 1] as u32) << 16) | ((b[p + 2] as u32) << 8) | (b[p + 3] as u32)
}

/// The serialized form of a command: a tag byte, then for `Put` the
/// big-endian length of the key's UTF-8 bytes, the key's bytes and the
/// value's bytes; for `Remove` the key's bytes.
pub open spec fn payload_of(c: CommandModel) -> Seq<u8> {
    match c {
        CommandModel::Put { key, value } => seq![TAG_PUT] + be_u32(encode_utf8(key).len() as u32)
            + encode_utf8(key) + encode_utf8(value),
        CommandModel::Remove { key } => seq![TAG_REMOVE] + encode_utf8(key),
    }
}

/// A command whose payload length fits the 4-byte length field.
pub open spec fn framable(c: CommandModel) -> bool {
    payload_of(c).len() <= u32::MAX
}

/// The byte length of the record that frames `c`.
pub open spec fn record_len(c: CommandModel) -> int {
    HEADER_SIZE + payload_of(c).len()
}

/// The record that frames `c` when it starts at byte `offset` of the log.
pub open spec fn record_bytes(offset: int, c: CommandModel) -> Seq<u8> {
    be_u64(offset as u64) + be_u32(payload_of(c).len() as u32) + payload_of(c)
}

/// The command that a payload holds, if it is well-formed.
pub open spec fn parse_payload(p: Seq<u8>) -> Option<CommandModel> {
    if p.len() >= 5 && p[0] == TAG_PUT {
        let k = u32_at(p, 1) as int;
        if 5 + k <= p.len() && valid_utf8(p.subrange(5, 5 + k)) && valid_utf8(
            p.subrange(5 + k, p.len() as int),
        ) {
            Some(
                CommandModel::Put {
                    key: decode_utf8(p.subrange(5, 5 + k)),
                    value: decode_utf8(p.subrange(5 + k, p.len() as int)),
                },
            )
        } else {
            None
        }
    } else if p.len() >= 1 && p[0] == TAG_REMOVE && valid_utf8(p.subrange(1, p.len() as int)) {
        Some(CommandModel::Remove { key: decode_utf8(p.subrange(1, p.len() as int)) })
    } else {
        None
    }
}

/// The command in a buffer that holds one record, ignoring its start offset:
/// the header is read, exactly the declared number of payload bytes is taken,
/// and they are parsed.
pub open spec fn decode_spec(b: Seq<u8>) -> Option<CommandModel> {
    if b.len() >= HEADER_SIZE && HEADER_SIZE + u32_at(b, 8) <= b.len() {
        parse_payload(b.subrange(HEADER_SIZE as int, HEADER_SIZE + u32_at(b, 8)))
    } else {
        None
    }
}

/// The record that begins at byte `pos` of a log, with its length, if its
/// framing is consistent with that position and its payload parses.
pub open spec fn record_at(b: Seq<u8>, pos: int) -> Option<(CommandModel, int)> {
    if 0 <= pos && pos + HEADER_SIZE <= b.len() && u64_at(b, pos) as int == pos && pos
        + HEADER_SIZE + u32_at(b, pos + 8) <= b.len() {
        let n = u32_at(b, pos + 8) as int;
        match parse_payload(b.subrange(pos + HEADER_SIZE, pos + HEADER_SIZE + n)) {
            Some(c) => Some((c, HEADER_SIZE + n)),
            None => None,
        }
    } else {
        None
    }
}

proof fn lemma_u64_round_trip(x: u64)
    ensures
        u64_at(be_u64(x), 0) == x,
{
    assert(((((x >> 56) as u8) as u64) << 56) | ((((x >> 48) as u8) as u64) << 48) | ((((x
        >> 40) as u8) as u64) << 40) | ((((x >> 32) as u8) as u64) << 32) | ((((x >> 24) as u8)
        as u64) << 24) | ((((x >> 16) as u8) as u64) << 16) | ((((x >> 8) as u8) as u64) << 8)
        | ((x as u8) as u64) == x) by (bit_vector);
}

proof fn lemma_u32_round_trip(x: u32)
    ensures
        u32_at(be_u32(x), 0) == x,
{
    assert(((((x >> 24) as u8) as u32) << 24) | ((((x >> 16) as u8) as u32) << 16) | ((((x
        >> 8) as u8) as u32) << 8) | ((x as u8) as u32) == x) by (bit_vector);
}

proof fn lemma_u64_bytes(b0: u8, b1: u8, b2: u8, b3: u8, b4: u8, b5: u8, b6: u8, b7: u8) by (bit_vector)
    ensures
        ((((b0 as u64) << 56) | ((b1 as u64) << 48) | ((b2 as u64) << 40) | ((b3 as u64) << 32) | ((b4 as u64) << 24) | ((b5 as u64) << 16) | ((b6 as u64) << 8) | (b7 as u64)) >> 56) as u8 == b0,
        ((((b0 as u64) << 56) | ((b1 as u64) << 48) | ((b2 as u64) << 40) | ((b3 as u64) << 32) | ((b4 as u64) << 24) | ((b5 as u64) << 16) | ((b6 as u64) << 8) | (b7 as u64)) >> 48) as u8 == b1,
        ((((b0 as u64) << 56) | ((b1 as u64) << 48) | ((b2 as u64) << 40) | ((b3 as u64) << 32) | ((b4 as u64) << 24) | ((b5 as u64) << 16) | ((b6 as u64) << 8) | (b7 as u64)) >> 40) as u8 == b2,
        ((((b0 as u64) << 56) | ((b1 as u64) << 48) | ((b2 as u64) << 40) | ((b3 as u64) << 32) | ((b4 as u64) << 24) | ((b5 as u64) << 16) | ((b6 as u64) << 8) | (b7 as u64)) >> 32) as u8 == b3,
        ((((b0 as u64) << 56) | ((b1 as u64) << 48) | ((b2 as u64) << 40) | ((b3 as u64) << 32) | ((b4 as u64) << 24) | ((b5 as u64) << 16) | ((b6 as u64) << 8) | (b7 as u64)) >> 24) as u8 == b4,
        ((((b0 as u64) << 56) | ((b1 as u64) << 48) | ((b2 as u64) << 40) | ((b3 as u64) << 32) | ((b4 as u64) << 24) | ((b5 as u64) << 16) | ((b6 as u64) << 8) | (b7 as u64)) >> 16) as u8 == b5,
        ((((b0 as u64) << 56) | ((b1 as u64) << 48) | ((b2 as u64) << 40) | ((b3 as u64) << 32) | ((b4 as u64) << 24) | ((b5 as u64) << 16) | ((b6 as u64) << 8) | (b7 as u64)) >> 8) as u8 == b6,
        (((b0 as u64) << 56) | ((b1 as u64) << 48) | ((b2 as u64) << 40) | ((b3 as u64) << 32) | ((b4 as u64) << 24) | ((b5 as u64) << 16) | ((b6 as u64) << 8) | (b7 as u64)) as u8 == b7,
{
}

proof fn lemma_u32_bytes(b0: u8, b1: u8, b2: u8, b3: u8) by (bit_vector)
    ensures
        ((((b0 as u32) << 24) | ((b1 as u32) << 16) | ((b2 as u32) << 8) | (b3 as u32)) >> 24) as u8 == b0,
        ((((b0 as u32) << 24) | ((b1 as u32) << 16) | ((b2 as u32) << 8) | (b3 as u32)) >> 16) as u8 == b1,
        ((((b0 as u32) << 24) | ((b1 as u32) << 16) | ((b2 as u32) << 8) | (b3 as u32)) >> 8) as u8 == b2,
        (((b0 as u32) << 24) | ((b1 as u32) << 16) | ((b2 as u32) << 8) | (b3 as u32)) as u8 == b3,
{
}

proof fn lemma_be_u64_at(b: Seq<u8>, p: int)
    requires
        0 <= p,
        p + 8 <= b.len(),
    ensures
        be_u64(u64_at(b, p)) == b.subrange(p, p + 8),
{
    lemma_u64_bytes(b[p], b[p + 1], b[p + 2], b[p + 3], b[p + 4], b[p + 5], b[p + 6], b[p + 7]);
    assert(be_u64(u64_at(b, p)) =~= b.subrange(p, p + 8));
}

proof fn lemma_be_u32_at(b: Seq<u8>, p: int)
    requires
        0 <= p,
        p + 4 <= b.len(),
    ensures
        be_u32(u32_at(b, p)) == b.subrange(p, p + 4),
{
    lemma_u32_bytes(b[p], b[p + 1], b[p + 2], b[p + 3]);
    assert(be_u32(u32_at(b, p)) =~= b.subrange(p, p + 4));
}

/// A payload that parses is exactly the serialized form of its command.
pub proof fn lemma_payload_canonical(p: Seq<u8>)
    requires
        parse_payload(p) is Some,
    ensures
        payload_of(parse_payload(p)->Some_0) == p,
{
    let c = parse_payload(p)->Some_0;
    if p.len() >= 5 && p[0] == TAG_PUT {
        let k = u32_at(p, 1) as int;
        let kb = p.subrange(5, 5 + k);
        let vb = p.subrange(5 + k, p.len() as int);
        decode_utf8_encode_utf8(kb);
        decode_utf8_encode_utf8(vb);
        lemma_be_u32_at(p, 1);
        assert(encode_utf8(decode_utf8(kb)).len() as u32 == u32_at(p, 1));
        assert(payload_of(c) =~= p);
    } else {
        decode_utf8_encode_utf8(p.subrange(1, p.len() as int));
        assert(payload_of(c) =~= p);
    }
}

/// A record found in a log is exactly the framing, at its own offset, of
/// the command that it holds.
pub proof fn lemma_record_canonical(b: Seq<u8>, pos: int)
    requires
        record_at(b, pos) is Some,
    ensures
        framable(record_at(b, pos)->Some_0.0),
        record_at(b, pos)->Some_0.1 == record_len(record_at(b, pos)->Some_0.0),
        pos + record_at(b, pos)->Some_0.1 <= b.len(),
        b.subrange(pos, pos + record_at(b, pos)->Some_0.1) == record_bytes(
            pos,
            record_at(b, pos)->Some_0.0,
        ),
{
    let (c, n) = record_at(b, pos)->Some_0;
    let p = b.subrange(pos + HEADER_SIZE, pos + n);
    lemma_payload_canonical(p);
    lemma_be_u64_at(b, pos);
    lemma_be_u32_at(b, pos + 8);
    assert(b.subrange(pos, pos + n) =~= b.subrange(pos, pos + 8) + b.subrange(pos + 8, pos + 12)
        + p);
}

/// A well-formed command's payload parses back to that command.
pub proof fn lemma_payload_round_trip(c: CommandModel)
    requires
        framable(c),
    ensures
        parse_payload(payload_of(c)) == Some(c),
{
    let p = payload_of(c);
    match c {
        CommandModel::Put { key, value } => {
            let kb = encode_utf8(key);
            let vb = encode_utf8(value);
            let k = kb.len() as u32;
            lemma_u32_round_trip(k);
            assert(u32_at(p, 1) == u32_at(be_u32(k), 0));
            assert(p.subrange(5, 5 + kb.len() as int) =~= kb);
            assert(p.subrange(5 + kb.len() as int, p.len() as int) =~= vb);
            encode_utf8_valid_utf8(key);
            encode_utf8_valid_utf8(value);
            encode_utf8_decode_utf8(key);
            encode_utf8_decode_utf8(value);
        },
        CommandModel::Remove { key } => {
            assert(p.subrange(1, p.len() as int) =~= encode_utf8(key));
            encode_utf8_valid_utf8(key);
            encode_utf8_decode_utf8(key);
        },
    }
}

/// Decoding an encoded record gives back the command it frames.
pub proof fn lemma_round_trip(offset: u64, c: CommandModel)
    requires
        framable(c),
    ensures
        decode_spec(record_bytes(offset as int, c)) == Some(c),
{
    let p = payload_of(c);
    let b = record_bytes(offset as int, c);
    lemma_u32_round_trip(p.len() as u32);
    assert(u32_at(b, 8) == u32_at(be_u32(p.len() as u32), 0));
    assert(b.subrange(HEADER_SIZE as int, HEADER_SIZE + p.len() as int) =~= p);
    lemma_payload_round_trip(c);
}

/// A record laid into a log at its own offset is found there again.
pub proof fn lemma_record_at(b: Seq<u8>, pos: int, c: CommandModel)
    requires
        framable(c),
        0 <= pos <= u64::MAX,
        pos + record_len(c) <= b.len(),
        b.subrange(pos, pos + record_len(c)) == record_bytes(pos, c),
    ensures
        record_at(b, pos) == Some((c, record_len(c))),
{
    let p = payload_of(c);
    let r = record_bytes(pos, c);
    lemma_u64_round_trip(pos as u64);
    lemma_u32_round_trip(p.len() as u32);
    assert forall|i: int| 0 <= i < record_len(c) implies b[pos + i] == r[i] by {
        assert(b.subrange(pos, pos + record_len(c))[i] == b[pos + i]);
    }
    assert(u64_at(b, pos) == u64_at(r, 0));
    assert(u32_at(b, pos + 8) == u32_at(r, 8));
    assert(u32_at(r, 8) == u32_at(be_u32(p.len() as u32), 0));
    assert forall|i: int| 0 <= i < p.len() implies b.subrange(
        pos + HEADER_SIZE,
        pos + HEADER_SIZE + p.len() as int,
    )[i] == p[i] by {
        assert(b[pos + HEADER_SIZE + i] == r[HEADER_SIZE + i]);
    }
    assert(b.subrange(pos + HEADER_SIZE, pos + HEADER_SIZE + p.len() as int) =~= p);
    lemma_payload_round_trip(c);
}

/// Relies on `String::from_utf8`: it succeeds exactly when the bytes are valid
/// UTF-8, and the string it returns is made of those bytes.
#[verifier::external_body]
fn string_from_utf8(v: Vec<u8>) -> (r: Option<String>)
    ensures
        r.is_some() == valid_utf8(v@),
        r matches Some(s) ==> encode_utf8(s@) == v@,
{
    String::from_utf8(v).ok()
}

/// A copy of `b[i..j]`.
fn copy_range(b: &[u8], i: usize, j: usize) -> (r: Vec<u8>)
    requires
        i <= j <= b@.len(),
    ensures
        r@ == b@.subrange(i as int, j as int),
{
    let mut v: Vec<u8> = Vec::new();
    let mut k: usize = i;
    while k < j
        invariant
            i <= k <= j,
            j <= b@.len(),
            v@ == b@.subrange(i as int, k as int),
        decreases j - k,
    {
        v.push(b[k]);
        k = k + 1;
        assert(v@ =~= b@.subrange(i as int, k as int));
    }
    v
}

/// The string that valid UTF-8 bytes spell.
fn utf8_to_string(v: Vec<u8>) -> (r: Option<String>)
    ensures
        r.is_some() == valid_utf8(v@),
        r matches Some(s) ==> s@ == decode_utf8(v@),
{
    let r = string_from_utf8(v);
    proof {
        if r is Some {
            encode_utf8_decode_utf8(r->Some_0@);
        }
    }
    r
}

fn push_u64(buf: &mut Vec<u8>, x: u64)
    ensures
        final(buf)@ == old(buf)@ + be_u64(x),
{
    buf.push((x >> 56) as u8);
    buf.push((x >> 48) as u8);
    buf.push((x >> 40) as u8);
    buf.push((x >> 32) as u8);
    buf.push((x >> 24) as u8);
    buf.push((x >> 16) as u8);
    buf.push((x >> 8) as u8);
    buf.push(x as u8);
    assert(buf@ =~= old(buf)@ + be_u64(x));
}

fn push_u32(buf: &mut Vec<u8>, x: u32)
    ensures
        final(buf)@ == old(buf)@ + be_u32(x),
{
    buf.push((x >> 24) as u8);
    buf.push((x >> 16) as u8);
    buf.push((x >> 8) as u8);
    buf.push(x as u8);
    assert(buf@ =~= old(buf)@ + be_u32(x));
}

fn read_u64(b: &[u8], p: usize) -> (r: u64)
    requires
        p + 8 <= b@.len(),
    ensures
        r == u64_at(b@, p as int),
{
    ((b[p] as u64) << 56) | ((b[p + 1] as u64) << 48) | ((b[p + 2] as u64) << 40) | ((b[p
        + 3] as u64) << 32) | ((b[p + 4] as u64) << 24) | ((b[p + 5] as u64) << 16) | ((b[p
        + 6] as u64) << 8) | (b[p + 7] as u64)
}

fn read_u32(b: &[u8], p: usize) -> (r: u32)
    requires
        p + 4 <= b@.len(),
    ensures
        r == u32_at(b@, p as int),
{
    ((b[p] as u32) << 24) | ((b[p + 1] as u32) << 16) | ((b[p + 2] as u32) << 8) | (b[p
        + 3] as u32)
}

impl Command {
    /// The serialized payload of the command, or `None` when it is longer
    /// than the 4-byte length field can state.
    pub fn payload(&self) -> (r: Option<Vec<u8>>)
        ensures
            r.is_some() == framable(self@),
            r matches Some(p) ==> p@ == payload_of(self@),
    {
        match self {
            Command::Put { key, value } => {
                let kb = key.as_str().as_bytes();
                let vb = value.as_str().as_bytes();
                if kb.len() > 0xFFFF_FFFF - 5 || vb.len() > 0xFFFF_FFFF - 5 - kb.len() {
                    return None;
                }
                let mut p: Vec<u8> = Vec::new();
                p.push(TAG_PUT);
                push_u32(&mut p, kb.len() as u32);
                p.extend_from_slice(kb);
                p.extend_from_slice(vb);
                assert(p@ =~= payload_of(self@));
                Some(p)
            },
            Command::Remove { key } => {
                let kb = key.as_str().as_bytes();
                if kb.len() > 0xFFFF_FFFF - 1 {
                    return None;
                }
                let mut p: Vec<u8> = Vec::new();
                p.push(TAG_REMOVE);
                p.extend_from_slice(kb);
                assert(p@ =~= payload_of(self@));
                Some(p)
            },
        }
    }
}

/// The key of a command's value.
pub open spec fn model_key(c: CommandModel) -> Seq<char> {
    match c {
        CommandModel::Put { key, .. } => key,
        CommandModel::Remove { key } => key,
    }
}

/// Parses a payload into a command.
fn parse_payload_exec(p: &[u8]) -> (r: Option<Command>)
    ensures
        match parse_payload(p@) {
            Some(c) => r matches Some(x) && x@ == c,
            None => r is None,
        },
{
    let n = p.len();
    if n >= 5 && p[0] == TAG_PUT {
        let k = read_u32(p, 1) as usize;
        if k <= n - 5 {
            let key = utf8_to_string(copy_range(p, 5, 5 + k));
            let value = utf8_to_string(copy_range(p, 5 + k, n));
            match key {
                Some(key) => match value {
                    Some(value) => Some(Command::Put { key, value }),
                    None => None,
                },
                None => None,
            }
        } else {
            None
        }
    } else if n >= 1 && p[0] == TAG_REMOVE {
        match utf8_to_string(copy_range(p, 1, n)) {
            Some(key) => Some(Command::Remove { key }),
            None => None,
        }
    } else {
        None
    }
}

/// One command's payload with its framing.
pub struct LogRecord<'a> {
    /// Byte offset in the log at which the record starts.
    pub offset: usize,
    /// Length of the payload.
    pub memsize: u32,
    /// The payload.
    pub command: &'a [u8],
}

impl<'a> LogRecord<'a> {
    /// Frames a payload that is to start at `offset`.
    pub fn new(offset: usize, command: &'a [u8]) -> (r: Self)
        requires
            command@.len() <= u32::MAX,
        ensures
            r.offset == offset,
            r.memsize == command@.len(),
            r.command@ == command@,
    {
        Self { offset, memsize: command.len() as u32, command }
    }

    /// The bytes of the record: start offset, payload length, and the first
    /// `memsize` bytes of the payload.
    pub fn serialize(&self) -> (r: Vec<u8>)
        requires
            self.memsize <= self.command@.len(),
        ensures
            r@ == be_u64(self.offset as u64) + be_u32(self.memsize) + self.command@.subrange(
                0,
                self.memsize as int,
            ),
    {
        let mut buf: Vec<u8> = Vec::new();
        push_u64(&mut buf, self.offset as u64);
        push_u32(&mut buf, self.memsize);
        let ghost header = buf@;
        let n = self.memsize as usize;
        let mut i: usize = 0;
        while i < n
            invariant
                i <= n,
                n == self.memsize,
                n <= self.command@.len(),
                buf@ == header + self.command@.subrange(0, i as int),
            decreases n - i,
        {
            buf.push(self.command[i]);
            i = i + 1;
            assert(buf@ =~= header + self.command@.subrange(0, i as int));
        }
        buf
    }
}

/// Serializes `command` as the record that starts at byte `offset` of a log.
/// Fails with `Encode` exactly when its payload is too long to frame.
pub fn encode(command: &Command, offset: usize) -> (r: Result<Vec<u8>>)
    ensures
        match r {
            Ok(b) => framable(command@) && b@ == record_bytes(offset as int, command@),
            Err(e) => !framable(command@) && e == KvsError::Encode,
        },
{
    match command.payload() {
        Some(p) => {
            let rec = LogRecord::new(offset, p.as_slice());
            let b = rec.serialize();
            assert(p@.subrange(0, p@.len() as int) =~= p@);
            Ok(b)
        },
        None => Err(KvsError::Encode),
    }
}

/// Parses the command of a buffer that holds one record: reads the payload
/// length, takes exactly that many bytes after the header and parses them.
/// Fails with `Decode` when the buffer is too short or the payload malformed.
pub fn decode(record: &[u8]) -> (r: Result<Command>)
    ensures
        match decode_spec(record@) {
            Some(c) => r matches Ok(x) && x@ == c,
            None => r == Err::<Command, KvsError>(KvsError::Decode),
        },
{
    if record.len() < HEADER_SIZE {
        return Err(KvsError::Decode);
    }
    let n = read_u32(record, 8) as usize;
    if n > record.len() - HEADER_SIZE {
        return Err(KvsError::Decode);
    }
    let p = copy_range(record, HEADER_SIZE, HEADER_SIZE + n);
    match parse_payload_exec(p.as_slice()) {
        Some(c) => Ok(c),
        None => Err(KvsError::Decode),
    }
}

/// Reads the record that starts at byte `pos` of a log: its command and its
/// length, or `None` when its framing disagrees with `pos`, runs past the end
/// of `b`, or its payload does not parse.
pub fn read_record(b: &[u8], pos: usize) -> (r: Option<(Command, usize)>)
    ensures
        match record_at(b@, pos as int) {
            Some((c, n)) => r matches Some((x, m)) && x@ == c && m == n,
            None => r is None,
        },
{
    let len = b.len();
    if pos > len || len - pos < HEADER_SIZE {
        return None;
    }
    if read_u64(b, pos) != pos as u64 {
        return None;
    }
    let n = read_u32(b, pos + 8) as usize;
    if n > len - pos - HEADER_SIZE {
        return None;
    }
    let p = copy_range(b, pos + HEADER_SIZE, pos + HEADER_SIZE + n);
    match parse_payload_exec(p.as_slice()) {
        Some(c) => Some((c, HEADER_SIZE + n)),
        None => None,
    }
}

} // verus!
