//! Log records and their self-delimiting byte encoding.
//!
//! A record is a tag byte followed by its strings, each written as its UTF-8
//! length (eight bytes, little endian) and then its UTF-8 bytes:
//! `SetValue(key, value)` is `S key value`, `Remove(key)` is `R key`.
use vstd::bytes::{
    lemma_auto_spec_u64_to_from_le_bytes, spec_u64_from_le_bytes, spec_u64_to_le_bytes,
    u64_from_le_bytes, u64_to_le_bytes,
};
use vstd::prelude::*;
use vstd::slice::{slice_subrange, slice_to_vec};
use vstd::utf8::{
    decode_utf8, decode_utf8_encode_utf8, encode_utf8, encode_utf8_decode_utf8,
    encode_utf8_valid_utf8, valid_utf8,
};

use crate::error::KVStoreError;

verus! {

/// Tag byte of a `SetValue` record.
pub const SET_TAG: u8 = 0x53;

/// Tag byte of a `Remove` record.
pub const REMOVE_TAG: u8 = 0x52;

/// Where a record lies: its segment, its first byte and its length in bytes.
#[derive(Debug, Clone, Copy, PartialEq, Eq, Structural)]
pub struct CommandMetaData {
    pub file_number: u64,
    pub offset: u64,
    pub length: u64,
}

/// The same location under the name the server-side engine gives it.
pub type CommandMedaData = CommandMetaData;

/// A log record.
#[derive(Debug)]
pub enum Command {
    SetValue(String, String),
    Remove(String),
}

/// What a record means: its strings as sequences of characters.
pub enum CommandView {
    SetValue(Seq<char>, Seq<char>),
    Remove(Seq<char>),
}

impl View for Command {
    type V = CommandView;

    open spec fn view(&self) -> CommandView {
        match self {
            Command::SetValue(k, v) => CommandView::SetValue(k@, v@),
            Command::Remove(k) => CommandView::Remove(k@),
        }
    }
}

/// One string as it is written: its UTF-8 length, then its UTF-8 bytes.
pub open spec fn field_bytes(s: Seq<char>) -> Seq<u8> {
    spec_u64_to_le_bytes(encode_utf8(s).len() as u64) + encode_utf8(s)
}

/// The encoding of one record.
pub open spec fn encode_command(c: CommandView) -> Seq<u8> {
    match c {
        CommandView::SetValue(k, v) => seq![SET_TAG] + field_bytes(k) + field_bytes(v),
        CommandView::Remove(k) => seq![REMOVE_TAG] + field_bytes(k),
    }
}

/// A string whose UTF-8 length can be written in the eight-byte prefix.
pub open spec fn field_fits(s: Seq<char>) -> bool {
    encode_utf8(s).len() <= u64::MAX
}

/// Every string of the record fits its length prefix.
pub open spec fn encodable(c: CommandView) -> bool {
    match c {
        CommandView::SetValue(k, v) => field_fits(k) && field_fits(v),
        CommandView::Remove(k) => field_fits(k),
    }
}

/// Reads the string at the start of `b`: the characters and the number of bytes used.
pub open spec fn parse_field(b: Seq<u8>) -> Option<(Seq<char>, int)> {
    if b.len() < 8 {
        None
    } else {
        let n = spec_u64_from_le_bytes(b.subrange(0, 8)) as int;
        if b.len() - 8 < n {
            None
        } else if valid_utf8(b.subrange(8, 8 + n)) {
            Some((decode_utf8(b.subrange(8, 8 + n)), 8 + n))
        } else {
            None
        }
    }
}

/// Reads the record at the start of `b`: the record and the number of bytes used.
pub open spec fn parse_command(b: Seq<u8>) -> Option<(CommandView, int)> {
    if b.len() == 0 {
        None
    } else if b[0] == SET_TAG {
        match parse_field(b.drop_first()) {
            None => None,
            Some((k, n)) => match parse_field(b.subrange(1 + n, b.len() as int)) {
                None => None,
                Some((v, m)) => Some((CommandView::SetValue(k, v), 1 + n + m)),
            },
        }
    } else if b[0] == REMOVE_TAG {
        match parse_field(b.drop_first()) {
            None => None,
            Some((k, n)) => Some((CommandView::Remove(k), 1 + n)),
        }
    } else {
        None
    }
}

/// `b` holds exactly one record, and nothing after it.
pub open spec fn parse_exact(b: Seq<u8>) -> Option<CommandView> {
    match parse_command(b) {
        Some((c, n)) => if n == b.len() {
            Some(c)
        } else {
            None
        },
        None => None,
    }
}

/// A sequence of records written back to back.
pub open spec fn encode_log(cs: Seq<CommandView>) -> Seq<u8>
    decreases cs.len(),
{
    if cs.len() == 0 {
        seq![]
    } else {
        encode_command(cs[0]) + encode_log(cs.drop_first())
    }
}

/// Reads records from `b` until it is used up; `None` if some part is not a record.
pub open spec fn parse_log(b: Seq<u8>) -> Option<Seq<CommandView>>
    decreases b.len(),
{
    if b.len() == 0 {
        Some(seq![])
    } else {
        match parse_command(b) {
            None => None,
            Some((c, n)) => if 0 < n <= b.len() {
                match parse_log(b.subrange(n, b.len() as int)) {
                    None => None,
                    Some(rest) => Some(seq![c] + rest),
                }
            } else {
                None
            },
        }
    }
}

proof fn lemma_field_round_trip(s: Seq<char>, rest: Seq<u8>)
    requires
        field_fits(s),
    ensures
        parse_field(field_bytes(s) + rest) == Some((s, field_bytes(s).len() as int)),
        field_bytes(s).len() == 8 + encode_utf8(s).len(),
{
    lemma_auto_spec_u64_to_from_le_bytes();
    encode_utf8_decode_utf8(s);
    encode_utf8_valid_utf8(s);
    let u = encode_utf8(s);
    let b = field_bytes(s) + rest;
    assert(b.subrange(0, 8) =~= spec_u64_to_le_bytes(u.len() as u64));
    assert(b.subrange(8, 8 + u.len() as int) =~= u);
}

proof fn lemma_field_canonical(b: Seq<u8>)
    requires
        parse_field(b) is Some,
    ensures
        ({
            let (s, n) = parse_field(b).unwrap();
            &&& 8 <= n <= b.len()
            &&& b.subrange(0, n) == field_bytes(s)
            &&& field_fits(s)
        }),
{
    lemma_auto_spec_u64_to_from_le_bytes();
    let (s, n) = parse_field(b).unwrap();
    let body = b.subrange(8, n);
    decode_utf8_encode_utf8(body);
    assert(encode_utf8(s) == body);
    assert(spec_u64_to_le_bytes(spec_u64_from_le_bytes(b.subrange(0, 8))) == b.subrange(0, 8));
    assert(b.subrange(0, n) =~= b.subrange(0, 8) + body);
}

/// Decoding the encoding of a record, whatever follows it, gives the record back.
pub proof fn lemma_parse_encode(c: CommandView, rest: Seq<u8>)
    requires
        encodable(c),
    ensures
        parse_command(encode_command(c) + rest) == Some((c, encode_command(c).len() as int)),
        encode_command(c).len() > 0,
{
    match c {
        CommandView::SetValue(k, v) => {
            let b = encode_command(c) + rest;
            lemma_field_round_trip(k, field_bytes(v) + rest);
            lemma_field_round_trip(v, rest);
            let n = field_bytes(k).len() as int;
            assert(b.drop_first() =~= field_bytes(k) + (field_bytes(v) + rest));
            assert(b.subrange(1 + n, b.len() as int) =~= field_bytes(v) + rest);
        },
        CommandView::Remove(k) => {
            let b = encode_command(c) + rest;
            lemma_field_round_trip(k, rest);
            assert(b.drop_first() =~= field_bytes(k) + rest);
        },
    }
}

/// Whatever decodes as a record is exactly that record's encoding.
pub proof fn lemma_parse_canonical(b: Seq<u8>)
    requires
        parse_command(b) is Some,
    ensures
        ({
            let (c, n) = parse_command(b).unwrap();
            &&& 0 < n <= b.len()
            &&& b.subrange(0, n) == encode_command(c)
            &&& encodable(c)
        }),
{
    let (c, n) = parse_command(b).unwrap();
    lemma_field_canonical(b.drop_first());
    let (k, nk) = parse_field(b.drop_first()).unwrap();
    if b[0] == SET_TAG {
        let tail = b.subrange(1 + nk, b.len() as int);
        lemma_field_canonical(tail);
        let (v, nv) = parse_field(tail).unwrap();
        assert(b.subrange(0, n) =~= seq![SET_TAG] + b.drop_first().subrange(0, nk) + tail.subrange(
            0,
            nv,
        ));
    } else {
        assert(b.subrange(0, n) =~= seq![REMOVE_TAG] + b.drop_first().subrange(0, nk));
    }
}

/// Appending one record to a log appends its encoding.
pub proof fn lemma_encode_log_push(cs: Seq<CommandView>, c: CommandView)
    ensures
        encode_log(cs.push(c)) == encode_log(cs) + encode_command(c),
    decreases cs.len(),
{
    if cs.len() == 0 {
        assert(cs.push(c).drop_first() =~= cs);
        assert(encode_log(cs.push(c)) =~= encode_log(cs) + encode_command(c));
    } else {
        lemma_encode_log_push(cs.drop_first(), c);
        assert(cs.push(c).drop_first() =~= cs.drop_first().push(c));
        assert(encode_log(cs.push(c)) =~= encode_log(cs) + encode_command(c));
    }
}

/// The encoding of two logs one after the other is the encoding of the joined log.
pub proof fn lemma_encode_log_append(a: Seq<CommandView>, b: Seq<CommandView>)
    ensures
        encode_log(a + b) == encode_log(a) + encode_log(b),
    decreases a.len(),
{
    if a.len() == 0 {
        assert(a + b =~= b);
        assert(encode_log(a) + encode_log(b) =~= encode_log(b));
    } else {
        lemma_encode_log_append(a.drop_first(), b);
        assert((a + b).drop_first() =~= a.drop_first() + b);
        assert(encode_log(a + b) =~= encode_log(a) + encode_log(b));
    }
}

/// Record `j` of a log lies right after the encoding of the records before it.
pub proof fn lemma_encode_log_slice(cs: Seq<CommandView>, j: int)
    requires
        0 <= j < cs.len(),
    ensures
        encode_log(cs.take(j)).len() + encode_command(cs[j]).len() <= encode_log(cs).len(),
        encode_log(cs).subrange(
            encode_log(cs.take(j)).len() as int,
            (encode_log(cs.take(j)).len() + encode_command(cs[j]).len()) as int,
        ) == encode_command(cs[j]),
{
    let pre = cs.take(j);
    let post = cs.skip(j + 1);
    assert(cs =~= pre.push(cs[j]) + post);
    lemma_encode_log_append(pre.push(cs[j]), post);
    lemma_encode_log_push(pre, cs[j]);
    let x = encode_log(pre);
    let e = encode_command(cs[j]);
    assert(encode_log(cs).subrange(x.len() as int, (x.len() + e.len()) as int) =~= e);
}

/// A log of encodable records decodes back to the same records.
pub proof fn lemma_parse_log_encode(cs: Seq<CommandView>)
    requires
        forall|i: int| 0 <= i < cs.len() ==> encodable(#[trigger] cs[i]),
    ensures
        parse_log(encode_log(cs)) == Some(cs),
    decreases cs.len(),
{
    if cs.len() > 0 {
        let b = encode_log(cs);
        let e = encode_command(cs[0]);
        lemma_parse_encode(cs[0], encode_log(cs.drop_first()));
        assert(b.subrange(e.len() as int, b.len() as int) =~= encode_log(cs.drop_first()));
        lemma_parse_log_encode(cs.drop_first());
        assert(seq![cs[0]] + cs.drop_first() =~= cs);
    }
}

/// Whatever decodes as a log is exactly that log's encoding.
pub proof fn lemma_parse_log_canonical(b: Seq<u8>)
    requires
        parse_log(b) is Some,
    ensures
        encode_log(parse_log(b).unwrap()) == b,
        forall|i: int|
            0 <= i < parse_log(b).unwrap().len() ==> encodable(#[trigger] parse_log(b).unwrap()[i]),
    decreases b.len(),
{
    if b.len() > 0 {
        lemma_parse_canonical(b);
        let (c, n) = parse_command(b).unwrap();
        let tail = b.subrange(n, b.len() as int);
        lemma_parse_log_canonical(tail);
        let cs = parse_log(b).unwrap();
        assert(cs.drop_first() =~= parse_log(tail).unwrap());
        assert(b =~= b.subrange(0, n) + tail);
        assert forall|i: int| 0 <= i < cs.len() implies encodable(#[trigger] cs[i]) by {
            if i > 0 {
                assert(cs[i] == parse_log(tail).unwrap()[i - 1]);
            }
        }
    }
}

/// Appends `src` to `out`.
fn append_bytes(out: &mut Vec<u8>, src: &[u8])
    ensures
        final(out)@ == old(out)@ + src@,
{
    let mut i: usize = 0;
    while i < src.len()
        invariant
            i <= src@.len(),
            out@ == old(out)@ + src@.subrange(0, i as int),
        decreases src@.len() - i,
    {
        out.push(src[i]);
        i = i + 1;
        assert(out@ =~= old(out)@ + src@.subrange(0, i as int));
    }
    assert(src@.subrange(0, i as int) =~= src@);
}

fn append_field(out: &mut Vec<u8>, s: &str)
    ensures
        final(out)@ == old(out)@ + field_bytes(s@),
        field_fits(s@),
{
    let b = s.as_bytes();
    let n = b.len() as u64;
    let prefix = u64_to_le_bytes(n);
    append_bytes(out, prefix.as_slice());
    append_bytes(out, b);
    assert(final(out)@ =~= old(out)@ + field_bytes(s@));
}

/// Relies on `String::from_utf8`: it accepts exactly the valid UTF-8 byte
/// sequences and keeps the characters they encode.
#[verifier::external_body]
fn string_from_utf8(bytes: Vec<u8>) -> (r: Option<String>)
    ensures
        match r {
            Some(s) => valid_utf8(bytes@) && s@ == decode_utf8(bytes@),
            None => !valid_utf8(bytes@),
        },
{
    String::from_utf8(bytes).ok()
}

/// Reads the string that starts at `start`, and the position just after it.
fn read_field(data: &[u8], start: usize) -> (r: Option<(String, usize)>)
    requires
        start <= data@.len(),
    ensures
        match parse_field(data@.subrange(start as int, data@.len() as int)) {
            Some((s, n)) => r matches Some((t, end)) && t@ == s && end == start + n,
            None => r is None,
        },
{
    let ghost b = data@.subrange(start as int, data@.len() as int);
    if data.len() - start < 8 {
        return None;
    }
    let prefix = slice_subrange(data, start, start + 8);
    assert(prefix@ =~= b.subrange(0, 8));
    let n = u64_from_le_bytes(prefix);
    if ((data.len() - start - 8) as u64) < n {
        return None;
    }
    let end = start + 8 + n as usize;
    let body = slice_subrange(data, start + 8, end);
    assert(body@ =~= b.subrange(8, 8 + n as int));
    match string_from_utf8(slice_to_vec(body)) {
        Some(s) => Some((s, end)),
        None => None,
    }
}

/// Decodes the record that starts at `start`, and the position just after it.
pub fn decode_command(data: &[u8], start: usize) -> (r: Result<(Command, usize), KVStoreError>)
    requires
        start <= data@.len(),
    ensures
        match parse_command(data@.subrange(start as int, data@.len() as int)) {
            Some((c, n)) => r matches Ok((cmd, end)) && cmd@ == c && end == start + n,
            None => r == Err::<(Command, usize), KVStoreError>(KVStoreError::Serialization),
        },
{
    let ghost b = data@.subrange(start as int, data@.len() as int);
    if start == data.len() {
        return Err(KVStoreError::Serialization);
    }
    let tag = data[start];
    assert(b[0] == tag);
    assert(b.drop_first() =~= data@.subrange(start + 1, data@.len() as int));
    if tag == SET_TAG {
        match read_field(data, start + 1) {
            None => Err(KVStoreError::Serialization),
            Some((key, mid)) => {
                assert(b.subrange(mid - start, b.len() as int) =~= data@.subrange(
                    mid as int,
                    data@.len() as int,
                ));
                match read_field(data, mid) {
                    None => Err(KVStoreError::Serialization),
                    Some((value, end)) => Ok((Command::SetValue(key, value), end)),
                }
            },
        }
    } else if tag == REMOVE_TAG {
        match read_field(data, start + 1) {
            None => Err(KVStoreError::Serialization),
            Some((key, end)) => Ok((Command::Remove(key), end)),
        }
    } else {
        Err(KVStoreError::Serialization)
    }
}

impl Command {
    /// A record that sets `key` to `value`.
    pub fn set(key: String, value: String) -> (r: Command)
        ensures
            r@ == CommandView::SetValue(key@, value@),
    {
        Command::SetValue(key, value)
    }

    /// A record that removes `key`.
    pub fn remove(key: String) -> (r: Command)
        ensures
            r@ == CommandView::Remove(key@),
    {
        Command::Remove(key)
    }

    /// A record that removes `key` (the server-side engine's name for it).
    pub fn rm(key: String) -> (r: Command)
        ensures
            r@ == CommandView::Remove(key@),
    {
        Command::Remove(key)
    }

    /// The bytes of this record.
    pub fn encode(&self) -> (r: Vec<u8>)
        ensures
            r@ == encode_command(self@),
            encodable(self@),
    {
        let mut out: Vec<u8> = Vec::new();
        match self {
            Command::SetValue(k, v) => {
                out.push(SET_TAG);
                append_field(&mut out, k.as_str());
                append_field(&mut out, v.as_str());
                assert(out@ =~= encode_command(self@));
            },
            Command::Remove(k) => {
                out.push(REMOVE_TAG);
                append_field(&mut out, k.as_str());
                assert(out@ =~= encode_command(self@));
            },
        }
        out
    }
}

} // verus!
