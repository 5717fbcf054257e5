//! Rebuilding the index from a log, with torn-tail recovery.
use vstd::prelude::*;
use crate::codec::{
    LogOp, OP_SET, OP_DEL, MAX_KEY_LEN, MAX_VAL_LEN, le_value, le_bytes, copy_range, read_u32,
    record_bytes, log_bytes, op_ok, lemma_le_round_trip,
};
use crate::error::StoreError;
use crate::index::Index;
use crate::snapshot::map_ok;

verus! {

/// What the bytes at the head of a log hold.
pub ghost enum Step {
    /// No bytes at all: the log ends cleanly here.
    End,
    /// A record that was cut short by a crash.
    Torn,
    /// A record that no crash can explain.
    Corrupt,
    /// A complete record, and the number of bytes it takes.
    Record(LogOp, nat),
}

/// Decodes the record at the head of `b`. Fields are read in order (tag, key
/// length, key, then for a `Set` value length and value); running out of
/// bytes in any of them is a torn record, an impossible length or an unknown
/// tag is corruption.
pub open spec fn first_step(b: Seq<u8>) -> Step {
    if b.len() == 0 {
        Step::End
    } else if b.len() < 5 {
        Step::Torn
    } else {
        let klen = le_value(b.subrange(1, 5)) as int;
        if klen == 0 || klen > MAX_KEY_LEN {
            Step::Corrupt
        } else if b.len() < 5 + klen {
            Step::Torn
        } else {
            let key = b.subrange(5, 5 + klen);
            if b[0] == OP_SET {
                if b.len() < 9 + klen {
                    Step::Torn
                } else {
                    let vlen = le_value(b.subrange(5 + klen, 9 + klen)) as int;
                    if vlen > MAX_VAL_LEN {
                        Step::Corrupt
                    } else if b.len() < 9 + klen + vlen {
                        Step::Torn
                    } else {
                        Step::Record(
                            LogOp::Put(key, b.subrange(9 + klen, 9 + klen + vlen)),
                            (9 + klen + vlen) as nat,
                        )
                    }
                }
            } else if b[0] == OP_DEL {
                Step::Record(LogOp::Delete(key), (5 + klen) as nat)
            } else {
                Step::Corrupt
            }
        }
    }
}

pub proof fn lemma_step_len(b: Seq<u8>)
    ensures
        first_step(b) matches Step::Record(_, n) ==> 0 < n <= b.len(),
{
}

/// The map after one record.
pub open spec fn apply(m: Map<Seq<u8>, Seq<u8>>, op: LogOp) -> Map<Seq<u8>, Seq<u8>> {
    match op {
        LogOp::Put(k, v) => m.insert(k, v),
        LogOp::Delete(k) => m.remove(k),
    }
}

/// The map after a sequence of records, in order.
pub open spec fn apply_all(m: Map<Seq<u8>, Seq<u8>>, ops: Seq<LogOp>) -> Map<Seq<u8>, Seq<u8>>
    decreases ops.len(),
{
    if ops.len() == 0 {
        m
    } else {
        apply(apply_all(m, ops.drop_last()), ops.last())
    }
}

/// Replaying `b` on top of `m`: `None` where the log is corrupt; else the
/// resulting map and the length of the complete records, which is where a
/// torn tail begins.
pub open spec fn replay(b: Seq<u8>, m: Map<Seq<u8>, Seq<u8>>) -> Option<(Map<Seq<u8>, Seq<u8>>, nat)>
    decreases b.len(),
{
    match first_step(b) {
        Step::End => Some((m, 0)),
        Step::Torn => Some((m, 0)),
        Step::Corrupt => None,
        Step::Record(op, n) => {
            if 0 < n <= b.len() {
                match replay(b.subrange(n as int, b.len() as int), apply(m, op)) {
                    Some((m2, c)) => Some((m2, n + c)),
                    None => None,
                }
            } else {
                None
            }
        },
    }
}

pub open spec fn shifted(r: Option<(Map<Seq<u8>, Seq<u8>>, nat)>, p: nat) -> Option<(Map<Seq<u8>, Seq<u8>>, nat)> {
    match r {
        Some((m, c)) => Some((m, p + c)),
        None => None,
    }
}

enum Parsed {
    End,
    Torn,
    Corrupt(StoreError),
    Put(Vec<u8>, Vec<u8>, usize),
    Delete(Vec<u8>, usize),
}

spec fn parsed_is(p: Parsed, s: Step) -> bool {
    match p {
        Parsed::End => s is End,
        Parsed::Torn => s is Torn,
        Parsed::Corrupt(e) => s is Corrupt && e is CorruptLog,
        Parsed::Put(k, v, n) => s == Step::Record(LogOp::Put(k@, v@), n as nat),
        Parsed::Delete(k, n) => s == Step::Record(LogOp::Delete(k@), n as nat),
    }
}

fn corrupt(msg: &str) -> (r: StoreError)
    ensures
        r is CorruptLog,
{
    StoreError::CorruptLog { msg: msg.to_string() }
}

/// Decodes the record that starts at `pos`.
fn parse_at(log: &[u8], pos: usize) -> (r: Parsed)
    requires
        pos <= log@.len(),
    ensures
        parsed_is(r, first_step(log@.subrange(pos as int, log@.len() as int))),
{
    let ghost b = log@.subrange(pos as int, log@.len() as int);
    let avail = log.len() - pos;
    if avail == 0 {
        return Parsed::End;
    }
    if avail < 5 {
        return Parsed::Torn;
    }
    let op = log[pos];
    let klen = read_u32(log, pos + 1) as usize;
    assert(b.subrange(1, 5) =~= log@.subrange(pos + 1, pos + 5));
    if klen == 0 || klen > MAX_KEY_LEN {
        return Parsed::Corrupt(corrupt("invalid key length during replay"));
    }
    if avail - 5 < klen {
        return Parsed::Torn;
    }
    let key = copy_range(log, pos + 5, pos + 5 + klen);
    assert(key@ =~= b.subrange(5, 5 + klen));
    if op == OP_SET {
        if avail - 5 - klen < 4 {
            return Parsed::Torn;
        }
        let vlen = read_u32(log, pos + 5 + klen) as usize;
        assert(b.subrange(5 + klen, 9 + klen) =~= log@.subrange(pos + 5 + klen, pos + 9 + klen));
        if vlen > MAX_VAL_LEN {
            return Parsed::Corrupt(corrupt("invalid value length during replay"));
        }
        if avail - 9 - klen < vlen {
            return Parsed::Torn;
        }
        let start = pos + 9 + klen;
        let value = copy_range(log, start, start + vlen);
        assert(value@ =~= b.subrange(9 + klen, 9 + klen + vlen));
        Parsed::Put(key, value, 9 + klen + vlen)
    } else if op == OP_DEL {
        Parsed::Delete(key, 5 + klen)
    } else {
        Parsed::Corrupt(corrupt("unknown op code during replay"))
    }
}

/// Applies every complete record of `log` to `index`, in order. Returns the
/// length of the complete records: bytes past it are a torn tail, which the
/// caller cuts off. A corrupt record is an error.
pub fn replay_into(log: &[u8], index: &mut Index) -> (r: Result<usize, StoreError>)
    requires
        old(index).wf(),
    ensures
        final(index).wf(),
        r is Ok <==> replay(log@, old(index)@) is Some,
        r matches Ok(n) ==> replay(log@, old(index)@) == Some((final(index)@, n as nat)),
        r matches Err(e) ==> e is CorruptLog,
{
    let ghost m0 = index@;
    let mut pos: usize = 0;
    let len = log.len();
    assert(log@.subrange(0, log@.len() as int) =~= log@);
    loop
        invariant
            index.wf(),
            m0 == old(index)@,
            len == log@.len(),
            pos <= log@.len(),
            replay(log@, m0) == shifted(replay(log@.subrange(pos as int, log@.len() as int), index@), pos as nat),
        decreases log@.len() - pos,
    {
        let ghost b = log@.subrange(pos as int, log@.len() as int);
        proof {
            lemma_step_len(b);
        }
        match parse_at(log, pos) {
            Parsed::End => {
                assert(replay(b, index@) == Some((index@, 0nat)));
                assert(replay(log@, m0) == Some((index@, pos as nat)));
                return Ok(pos);
            },
            Parsed::Torn => {
                assert(replay(b, index@) == Some((index@, 0nat)));
                assert(replay(log@, m0) == Some((index@, pos as nat)));
                return Ok(pos);
            },
            Parsed::Corrupt(e) => {
                return Err(e);
            },
            Parsed::Put(k, v, n) => {
                assert(b.subrange(n as int, b.len() as int) =~= log@.subrange(pos + n, log@.len() as int));
                index.insert(k, v);
                pos = pos + n;
            },
            Parsed::Delete(k, n) => {
                assert(b.subrange(n as int, b.len() as int) =~= log@.subrange(pos + n, log@.len() as int));
                index.remove(k.as_slice());
                pos = pos + n;
            },
        }
    }
}


/// A valid record, whatever follows it, decodes as itself.
pub proof fn lemma_record_decodes(op: LogOp, rest: Seq<u8>)
    requires
        op_ok(op),
    ensures
        first_step(record_bytes(op) + rest) == Step::Record(op, record_bytes(op).len()),
{
    let r = record_bytes(op) + rest;
    match op {
        LogOp::Put(k, v) => {
            lemma_le_round_trip(k.len());
            lemma_le_round_trip(v.len());
            let kl = k.len() as int;
            assert(r.subrange(1, 5) =~= le_bytes(k.len()));
            assert(r.subrange(5, 5 + kl) =~= k);
            assert(r.subrange(5 + kl, 9 + kl) =~= le_bytes(v.len()));
            assert(r.subrange(9 + kl, 9 + kl + v.len()) =~= v);
            assert(r[0] == OP_SET);
        },
        LogOp::Delete(k) => {
            lemma_le_round_trip(k.len());
            let kl = k.len() as int;
            assert(r.subrange(1, 5) =~= le_bytes(k.len()));
            assert(r.subrange(5, 5 + kl) =~= k);
            assert(r[0] == OP_DEL);
        },
    }
}

/// A valid record cut short anywhere after its first byte is a torn record.
pub proof fn lemma_cut_record_is_torn(op: LogOp, cut: int)
    requires
        op_ok(op),
        0 < cut < record_bytes(op).len(),
    ensures
        first_step(record_bytes(op).subrange(0, cut)) == Step::Torn,
{
    let full = record_bytes(op);
    let p = full.subrange(0, cut);
    if cut >= 5 {
        match op {
            LogOp::Put(k, v) => {
                lemma_le_round_trip(k.len());
                lemma_le_round_trip(v.len());
                let kl = k.len() as int;
                assert(p.subrange(1, 5) =~= le_bytes(k.len()));
                if cut >= 9 + kl {
                    assert(p.subrange(5 + kl, 9 + kl) =~= le_bytes(v.len()));
                }
                assert(p[0] == OP_SET);
            },
            LogOp::Delete(k) => {
                lemma_le_round_trip(k.len());
                assert(p.subrange(1, 5) =~= le_bytes(k.len()));
            },
        }
    }
}

/// Replaying a log of whole records followed by anything is replaying the
/// records, then the rest.
#[verifier::rlimit(40)]
pub proof fn lemma_replay_records_then(ops: Seq<LogOp>, tail: Seq<u8>, m: Map<Seq<u8>, Seq<u8>>)
    requires
        forall|i: int| 0 <= i < ops.len() ==> op_ok(#[trigger] ops[i]),
    ensures
        replay(log_bytes(ops) + tail, m) == shifted(replay(tail, apply_all(m, ops)), log_bytes(ops).len()),
    decreases ops.len(),
{
    if ops.len() == 0 {
        assert(log_bytes(ops) + tail =~= tail);
        match replay(tail, m) {
            Some((m2, c)) => {},
            None => {},
        }
    } else {
        let front = ops.drop_last();
        let last = ops.last();
        let rec = record_bytes(last);
        assert(op_ok(ops[ops.len() - 1]));
        lemma_replay_records_then(front, rec + tail, m);
        assert(log_bytes(ops) + tail =~= log_bytes(front) + (rec + tail));
        let m1 = apply_all(m, front);
        lemma_record_decodes(last, tail);
        assert((rec + tail).subrange(rec.len() as int, (rec + tail).len() as int) =~= tail);
        assert(replay(rec + tail, m1) == shifted(replay(tail, apply(m1, last)), rec.len()));
    }
}

/// Reopening after any sequence of valid writes rebuilds exactly the map
/// that applying those writes in order gives, and keeps the whole log.
pub proof fn lemma_replay_round_trip(ops: Seq<LogOp>, m: Map<Seq<u8>, Seq<u8>>)
    requires
        forall|i: int| 0 <= i < ops.len() ==> op_ok(#[trigger] ops[i]),
    ensures
        replay(log_bytes(ops), m) == Some((apply_all(m, ops), log_bytes(ops).len())),
{
    lemma_replay_records_then(ops, Seq::empty(), m);
    assert(log_bytes(ops) + Seq::<u8>::empty() =~= log_bytes(ops));
}

/// A log of whole records followed by a record cut short replays as the
/// whole records alone, and its valid length ends right before the cut
/// record.
pub proof fn lemma_torn_tail_recovery(ops: Seq<LogOp>, torn: LogOp, cut: int, m: Map<Seq<u8>, Seq<u8>>)
    requires
        forall|i: int| 0 <= i < ops.len() ==> op_ok(#[trigger] ops[i]),
        op_ok(torn),
        0 < cut < record_bytes(torn).len(),
    ensures
        replay(log_bytes(ops) + record_bytes(torn).subrange(0, cut), m)
            == Some((apply_all(m, ops), log_bytes(ops).len())),
{
    let tail = record_bytes(torn).subrange(0, cut);
    lemma_replay_records_then(ops, tail, m);
    lemma_cut_record_is_torn(torn, cut);
}

/// The key a record writes.
pub open spec fn op_key(op: LogOp) -> Seq<u8> {
    match op {
        LogOp::Put(k, _) => k,
        LogOp::Delete(k) => k,
    }
}

/// Applying `a` then `b` is applying them one after the other.
pub proof fn lemma_apply_all_concat(m: Map<Seq<u8>, Seq<u8>>, a: Seq<LogOp>, b: Seq<LogOp>)
    ensures
        apply_all(m, a + b) == apply_all(apply_all(m, a), b),
    decreases b.len(),
{
    if b.len() == 0 {
        assert(a + b =~= a);
    } else {
        assert((a + b).drop_last() =~= a + b.drop_last());
        assert((a + b).last() == b.last());
        lemma_apply_all_concat(m, a, b.drop_last());
    }
}

/// Records that write other keys leave `k` as it was.
pub proof fn lemma_apply_all_untouched(m: Map<Seq<u8>, Seq<u8>>, ops: Seq<LogOp>, k: Seq<u8>)
    requires
        forall|i: int| 0 <= i < ops.len() ==> op_key(#[trigger] ops[i]) != k,
    ensures
        apply_all(m, ops).contains_key(k) == m.contains_key(k),
        m.contains_key(k) ==> apply_all(m, ops)[k] == m[k],
    decreases ops.len(),
{
    if ops.len() > 0 {
        let front = ops.drop_last();
        assert forall|i: int| 0 <= i < front.len() implies op_key(#[trigger] front[i]) != k by {
            assert(front[i] == ops[i]);
        }
        lemma_apply_all_untouched(m, front, k);
        assert(op_key(ops[ops.len() - 1]) != k);
    }
}

/// Of two writes of `k`, the second wins after a replay, whatever valid
/// records come before them and whatever records of other keys follow.
pub proof fn lemma_last_write_wins(
    before: Seq<LogOp>,
    k: Seq<u8>,
    v1: Seq<u8>,
    v2: Seq<u8>,
    after: Seq<LogOp>,
    m: Map<Seq<u8>, Seq<u8>>,
)
    requires
        forall|i: int| 0 <= i < before.len() ==> op_ok(#[trigger] before[i]),
        forall|i: int| 0 <= i < after.len() ==> op_ok(#[trigger] after[i]) && op_key(after[i]) != k,
        op_ok(LogOp::Put(k, v1)),
        op_ok(LogOp::Put(k, v2)),
    ensures
        replay(log_bytes(before + seq![LogOp::Put(k, v1), LogOp::Put(k, v2)] + after), m)
            matches Some((m2, _)) && m2.contains_key(k) && m2[k] == v2,
{
    let writes = seq![LogOp::Put(k, v1), LogOp::Put(k, v2)];
    let ops = before + writes + after;
    assert forall|i: int| 0 <= i < ops.len() implies op_ok(#[trigger] ops[i]) by {
        if i < before.len() {
            assert(ops[i] == before[i]);
        } else if i < before.len() + 2 {
            assert(ops[i] == writes[i - before.len()]);
        } else {
            assert(ops[i] == after[i - before.len() - 2]);
        }
    }
    lemma_replay_round_trip(ops, m);
    lemma_apply_all_concat(m, before + writes, after);
    lemma_apply_all_concat(m, before, writes);
    let m1 = apply_all(m, before);
    assert(writes.drop_last() =~= seq![LogOp::Put(k, v1)]);
    assert(writes.drop_last().drop_last() =~= Seq::<LogOp>::empty());
    assert(apply_all(m1, writes.drop_last().drop_last()) == m1);
    assert(apply_all(m1, writes.drop_last()) == m1.insert(k, v1));
    assert(apply_all(m1, writes) == m1.insert(k, v1).insert(k, v2));
    lemma_apply_all_untouched(apply_all(m, before + writes), after, k);
}

/// Replay only ever stores keys and values of accepted sizes.
pub proof fn lemma_replay_keeps_ok(b: Seq<u8>, m: Map<Seq<u8>, Seq<u8>>)
    requires
        map_ok(m),
    ensures
        replay(b, m) matches Some((m2, _)) ==> map_ok(m2),
    decreases b.len(),
{
    lemma_step_len(b);
    match first_step(b) {
        Step::Record(op, n) => {
            if 0 < n <= b.len() {
                let m1 = apply(m, op);
                assert(map_ok(m1));
                lemma_replay_keeps_ok(b.subrange(n as int, b.len() as int), m1);
            }
        },
        _ => {},
    }
}

} // verus!
