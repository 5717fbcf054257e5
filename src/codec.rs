//! Binary shape of log records and snapshot entries.
//!
//! A log record is `tag:u8, key_len:u32LE, key, [value_len:u32LE, value]`, the
//! value fields being present only for a `Set`. A snapshot entry is the same
//! shape without the tag.
use vstd::prelude::*;
use vstd::utf8::{valid_utf8, decode_utf8};

verus! {

/// Tag byte of a `Set` record.
pub const OP_SET: u8 = 1;

/// Tag byte of a `Del` record.
pub const OP_DEL: u8 = 2;

/// Largest key, in bytes.
pub const MAX_KEY_LEN: usize = 1024;

/// Largest value, in bytes.
pub const MAX_VAL_LEN: usize = 1048576;

/// A mutation as it stands in the log.
pub ghost enum LogOp {
    Put(Seq<u8>, Seq<u8>),
    Delete(Seq<u8>),
}

pub open spec fn key_ok(k: Seq<u8>) -> bool {
    1 <= k.len() <= MAX_KEY_LEN
}

pub open spec fn value_ok(v: Seq<u8>) -> bool {
    v.len() <= MAX_VAL_LEN
}

pub open spec fn op_ok(op: LogOp) -> bool {
    match op {
        LogOp::Put(k, v) => key_ok(k) && value_ok(v),
        LogOp::Delete(k) => key_ok(k),
    }
}

/// The four little-endian bytes of `n`.
pub open spec fn le_bytes(n: nat) -> Seq<u8> {
    seq![
        (n % 256) as u8,
        ((n / 256) % 256) as u8,
        ((n / 65536) % 256) as u8,
        ((n / 16777216) % 256) as u8,
    ]
}

/// The number that four little-endian bytes stand for.
pub open spec fn le_value(s: Seq<u8>) -> nat {
    (s[0] + 256 * s[1] + 65536 * s[2] + 16777216 * s[3]) as nat
}

/// A key/value pair as a snapshot holds it.
pub open spec fn entry_bytes(k: Seq<u8>, v: Seq<u8>) -> Seq<u8> {
    le_bytes(k.len()) + k + le_bytes(v.len()) + v
}

/// A record as the log holds it.
pub open spec fn record_bytes(op: LogOp) -> Seq<u8> {
    match op {
        LogOp::Put(k, v) => seq![OP_SET] + entry_bytes(k, v),
        LogOp::Delete(k) => seq![OP_DEL] + le_bytes(k.len()) + k,
    }
}

/// The log that a sequence of records makes, one after the other.
pub open spec fn log_bytes(ops: Seq<LogOp>) -> Seq<u8>
    decreases ops.len(),
{
    if ops.len() == 0 {
        Seq::empty()
    } else {
        log_bytes(ops.drop_last()) + record_bytes(ops.last())
    }
}

pub proof fn lemma_le_round_trip(n: nat)
    requires
        n < 4294967296,
    ensures
        le_value(le_bytes(n)) == n,
        le_bytes(n).len() == 4,
{
    let b = le_bytes(n);
    let n0 = n as int;
    vstd::arithmetic::div_mod::lemma_fundamental_div_mod(n0, 256);
    vstd::arithmetic::div_mod::lemma_fundamental_div_mod(n0 / 256, 256);
    vstd::arithmetic::div_mod::lemma_fundamental_div_mod(n0 / 65536, 256);
    vstd::arithmetic::div_mod::lemma_div_denominator(n0, 256, 256);
    vstd::arithmetic::div_mod::lemma_div_denominator(n0, 65536, 256);
    assert(n0 / 16777216 < 256) by {
        vstd::arithmetic::div_mod::lemma_div_is_ordered(n0, 4294967295, 16777216);
    }
    assert(b[0] == n0 % 256);
    assert(b[1] == (n0 / 256) % 256);
    assert(b[2] == (n0 / 65536) % 256);
    assert(b[3] == n0 / 16777216);
}

/// Appends the four little-endian bytes of `n` to `out`.
pub fn write_u32(out: &mut Vec<u8>, n: u32)
    ensures
        final(out)@ == old(out)@ + le_bytes(n as nat),
{
    out.push((n % 256) as u8);
    out.push(((n / 256) % 256) as u8);
    out.push(((n / 65536) % 256) as u8);
    out.push(((n / 16777216) % 256) as u8);
    assert(final(out)@ =~= old(out)@ + le_bytes(n as nat));
}

/// Reads the little-endian number in the four bytes at `pos`.
pub fn read_u32(bytes: &[u8], pos: usize) -> (r: u32)
    requires
        pos + 4 <= bytes@.len(),
    ensures
        r as nat == le_value(bytes@.subrange(pos as int, pos + 4)),
{
    let b0 = bytes[pos] as u32;
    let b1 = bytes[pos + 1] as u32;
    let b2 = bytes[pos + 2] as u32;
    let b3 = bytes[pos + 3] as u32;
    b0 + 256 * b1 + 65536 * b2 + 16777216 * b3
}

/// Appends `src` to `out`.
pub fn push_all(out: &mut Vec<u8>, src: &[u8])
    ensures
        final(out)@ == old(out)@ + src@,
{
    let mut i: usize = 0;
    while i < src.len()
        invariant
            i <= src@.len(),
            out@ == old(out)@ + src@.subrange(0, i as int),
        decreases src@.len() - i,
    {
        out.push(src[i]);
        i = i + 1;
        assert(out@ =~= old(out)@ + src@.subrange(0, i as int));
    }
    assert(src@.subrange(0, src@.len() as int) =~= src@);
}

/// Appends the snapshot entry of `key` and `value` to `out`.
pub fn write_entry(out: &mut Vec<u8>, key: &[u8], value: &[u8])
    requires
        key@.len() <= u32::MAX,
        value@.len() <= u32::MAX,
    ensures
        final(out)@ == old(out)@ + entry_bytes(key@, value@),
{
    write_u32(out, key.len() as u32);
    push_all(out, key);
    write_u32(out, value.len() as u32);
    push_all(out, value);
    assert(final(out)@ =~= old(out)@ + entry_bytes(key@, value@));
}

/// The log record that sets `key` to `value`.
pub fn encode_set(key: &[u8], value: &[u8]) -> (r: Vec<u8>)
    requires
        key@.len() <= u32::MAX,
        value@.len() <= u32::MAX,
    ensures
        r@ == record_bytes(LogOp::Put(key@, value@)),
{
    let mut out: Vec<u8> = Vec::new();
    out.push(OP_SET);
    write_entry(&mut out, key, value);
    assert(out@ =~= record_bytes(LogOp::Put(key@, value@)));
    out
}

/// The log record that deletes `key`.
pub fn encode_del(key: &[u8]) -> (r: Vec<u8>)
    requires
        key@.len() <= u32::MAX,
    ensures
        r@ == record_bytes(LogOp::Delete(key@)),
{
    let mut out: Vec<u8> = Vec::new();
    out.push(OP_DEL);
    write_u32(&mut out, key.len() as u32);
    push_all(&mut out, key);
    assert(out@ =~= record_bytes(LogOp::Delete(key@)));
    out
}


/// A copy of `bytes[from..to]`.
pub fn copy_range(bytes: &[u8], from: usize, to: usize) -> (r: Vec<u8>)
    requires
        from <= to <= bytes@.len(),
    ensures
        r@ == bytes@.subrange(from as int, to as int),
{
    let mut out: Vec<u8> = Vec::new();
    let mut i: usize = from;
    while i < to
        invariant
            from <= i <= to <= bytes@.len(),
            out@ == bytes@.subrange(from as int, i as int),
        decreases to - i,
    {
        out.push(bytes[i]);
        i = i + 1;
        assert(out@ =~= bytes@.subrange(from as int, i as int));
    }
    out
}

/// A copy of `bytes`.
pub fn to_vec(bytes: &[u8]) -> (r: Vec<u8>)
    ensures
        r@ == bytes@,
{
    let r = copy_range(bytes, 0, bytes.len());
    assert(r@ =~= bytes@);
    r
}

/// Relies on `String::from_utf8`: it succeeds exactly on valid UTF-8, and
/// the string then holds the characters that the bytes encode.
#[verifier::external_body]
pub(crate) fn utf8_to_string(bytes: Vec<u8>) -> (r: Option<String>)
    ensures
        r is Some <==> valid_utf8(bytes@),
        r matches Some(s) ==> s@ == decode_utf8(bytes@),
{
    String::from_utf8(bytes).ok()
}

} // verus!
