//! Snapshot files: every key/value pair of the index, one entry after the
//! other, with the shape of a `Set` record less its tag.
use vstd::prelude::*;
use crate::codec::{
    MAX_KEY_LEN, MAX_VAL_LEN, entry_bytes, key_ok, value_ok, le_value, le_bytes, lemma_le_round_trip,
    copy_range, read_u32, write_entry,
};
use crate::error::StoreError;
use crate::index::{Index, lex_lt, lemma_lex_irreflexive};

verus! {

/// Every key and value in `m` has a size the store accepts.
pub open spec fn map_ok(m: Map<Seq<u8>, Seq<u8>>) -> bool {
    forall|k: Seq<u8>| #[trigger] m.contains_key(k) ==> key_ok(k) && value_ok(m[k])
}

/// A snapshot of the given pairs, in their order.
pub open spec fn snapshot_bytes(s: Seq<(Seq<u8>, Seq<u8>)>) -> Seq<u8>
    decreases s.len(),
{
    if s.len() == 0 {
        Seq::empty()
    } else {
        snapshot_bytes(s.drop_last()) + entry_bytes(s.last().0, s.last().1)
    }
}

/// The map that inserting the pairs in order builds on top of `m`.
pub open spec fn insert_all(m: Map<Seq<u8>, Seq<u8>>, s: Seq<(Seq<u8>, Seq<u8>)>) -> Map<Seq<u8>, Seq<u8>>
    decreases s.len(),
{
    if s.len() == 0 {
        m
    } else {
        insert_all(m, s.drop_last()).insert(s.last().0, s.last().1)
    }
}

/// The entry at the head of `b`, and its length; `None` where it is short or
/// holds an impossible length.
pub open spec fn first_entry(b: Seq<u8>) -> Option<(Seq<u8>, Seq<u8>, nat)> {
    if b.len() < 4 {
        None
    } else {
        let klen = le_value(b.subrange(0, 4)) as int;
        if klen == 0 || klen > MAX_KEY_LEN || b.len() < 8 + klen {
            None
        } else {
            let vlen = le_value(b.subrange(4 + klen, 8 + klen)) as int;
            if vlen > MAX_VAL_LEN || b.len() < 8 + klen + vlen {
                None
            } else {
                Some((b.subrange(4, 4 + klen), b.subrange(8 + klen, 8 + klen + vlen), (8 + klen + vlen) as nat))
            }
        }
    }
}

/// Loading a snapshot on top of `m`: `None` where it is malformed. A
/// snapshot is published whole, so a short entry is corruption.
pub open spec fn load(b: Seq<u8>, m: Map<Seq<u8>, Seq<u8>>) -> Option<Map<Seq<u8>, Seq<u8>>>
    decreases b.len(),
{
    if b.len() == 0 {
        Some(m)
    } else {
        match first_entry(b) {
            Some((k, v, n)) => if 0 < n <= b.len() {
                load(b.subrange(n as int, b.len() as int), m.insert(k, v))
            } else {
                None
            },
            None => None,
        }
    }
}

pub proof fn lemma_entry_len(b: Seq<u8>)
    ensures
        first_entry(b) matches Some((k, v, n)) ==> 0 < n <= b.len() && key_ok(k) && value_ok(v),
{
}

/// The snapshot of an index: its entries in key order.
pub fn encode_snapshot(index: &Index) -> (r: Vec<u8>)
    requires
        index.wf(),
        map_ok(index@),
    ensures
        r@ == snapshot_bytes(index.pairs()),
{
    proof { index.lemma_pairs(); }
    let ghost p = index.pairs();
    let mut out: Vec<u8> = Vec::new();
    let n = index.len_keys();
    let mut i: usize = 0;
    while i < n
        invariant
            index.wf(),
            map_ok(index@),
            p == index.pairs(),
            n == p.len(),
            i <= n,
            out@ == snapshot_bytes(p.subrange(0, i as int)),
            forall|j: int| 0 <= j < p.len() ==> index@.contains_key(#[trigger] p[j].0) && index@[p[j].0] == p[j].1,
        decreases n - i,
    {
        let (k, v) = index.entry_at(i);
        assert(index@.contains_key(p[i as int].0));
        write_entry(&mut out, k, v);
        assert(p.subrange(0, i + 1).drop_last() =~= p.subrange(0, i as int));
        i = i + 1;
    }
    assert(p.subrange(0, n as int) =~= p);
    out
}

/// Inserts every entry of the snapshot `snap` into `index`.
pub fn load_snapshot(snap: &[u8], index: &mut Index) -> (r: Result<(), StoreError>)
    requires
        old(index).wf(),
        map_ok(old(index)@),
    ensures
        final(index).wf(),
        r is Ok <==> load(snap@, old(index)@) is Some,
        r is Ok ==> load(snap@, old(index)@) == Some(final(index)@) && map_ok(final(index)@),
        r matches Err(e) ==> e is CorruptLog,
{
    let ghost m0 = index@;
    let len = snap.len();
    let mut pos: usize = 0;
    assert(snap@.subrange(0, len as int) =~= snap@);
    while pos < len
        invariant
            index.wf(),
            map_ok(index@),
            m0 == old(index)@,
            len == snap@.len(),
            pos <= len,
            load(snap@, m0) == load(snap@.subrange(pos as int, len as int), index@),
        decreases len - pos,
    {
        let ghost b = snap@.subrange(pos as int, len as int);
        proof { lemma_entry_len(b); }
        let avail = len - pos;
        if avail < 4 {
            assert(load(b, index@) is None);
            return Err(StoreError::CorruptLog { msg: "snapshot entry cut short".to_string() });
        }
        let klen = read_u32(snap, pos) as usize;
        assert(b.subrange(0, 4) =~= snap@.subrange(pos as int, pos + 4));
        if klen == 0 || klen > MAX_KEY_LEN || avail < 8 || avail - 8 < klen {
            return Err(StoreError::CorruptLog { msg: "invalid key length in snapshot".to_string() });
        }
        let vlen = read_u32(snap, pos + 4 + klen) as usize;
        assert(b.subrange(4 + klen, 8 + klen) =~= snap@.subrange(pos + 4 + klen, pos + 8 + klen));
        if vlen > MAX_VAL_LEN || avail - 8 - klen < vlen {
            return Err(StoreError::CorruptLog { msg: "invalid value length in snapshot".to_string() });
        }
        let key = copy_range(snap, pos + 4, pos + 4 + klen);
        let value = copy_range(snap, pos + 8 + klen, pos + 8 + klen + vlen);
        assert(key@ =~= b.subrange(4, 4 + klen));
        assert(value@ =~= b.subrange(8 + klen, 8 + klen + vlen));
        let step = 8 + klen + vlen;
        assert(b.subrange(step as int, b.len() as int) =~= snap@.subrange(pos + step, len as int));
        index.insert(key, value);
        pos = pos + step;
    }
    assert(snap@.subrange(len as int, len as int) =~= Seq::<u8>::empty());
    Ok(())
}

/// Loading the snapshot of some pairs, then anything, is inserting the
/// pairs, then loading the rest.
pub proof fn lemma_load_entries_then(s: Seq<(Seq<u8>, Seq<u8>)>, tail: Seq<u8>, m: Map<Seq<u8>, Seq<u8>>)
    requires
        forall|i: int| 0 <= i < s.len() ==> key_ok(#[trigger] s[i].0) && value_ok(s[i].1),
    ensures
        load(snapshot_bytes(s) + tail, m) == load(tail, insert_all(m, s)),
    decreases s.len(),
{
    if s.len() == 0 {
        assert(snapshot_bytes(s) + tail =~= tail);
    } else {
        let front = s.drop_last();
        let (k, v) = s.last();
        let e = entry_bytes(k, v);
        assert(key_ok(s[s.len() - 1].0) && value_ok(s[s.len() - 1].1));
        lemma_load_entries_then(front, e + tail, m);
        assert(snapshot_bytes(s) + tail =~= snapshot_bytes(front) + (e + tail));
        lemma_entry_decodes(k, v, tail);
        assert((e + tail).subrange(e.len() as int, (e + tail).len() as int) =~= tail);
    }
}

/// A valid entry, whatever follows it, decodes as itself.
pub proof fn lemma_entry_decodes(k: Seq<u8>, v: Seq<u8>, tail: Seq<u8>)
    requires
        key_ok(k),
        value_ok(v),
    ensures
        first_entry(entry_bytes(k, v) + tail) == Some((k, v, entry_bytes(k, v).len())),
{
    let b = entry_bytes(k, v) + tail;
    lemma_le_round_trip(k.len());
    lemma_le_round_trip(v.len());
    let kl = k.len() as int;
    assert(b.subrange(0, 4) =~= le_bytes(k.len()));
    assert(b.subrange(4, 4 + kl) =~= k);
    assert(b.subrange(4 + kl, 8 + kl) =~= le_bytes(v.len()));
    assert(b.subrange(8 + kl, 8 + kl + v.len()) =~= v);
}

/// Inserting pairs with distinct keys into an empty map gives exactly those
/// pairs.
proof fn lemma_insert_all_distinct(s: Seq<(Seq<u8>, Seq<u8>)>)
    requires
        forall|i: int, j: int| 0 <= i < j < s.len() ==> #[trigger] s[i].0 != #[trigger] s[j].0,
    ensures
        forall|i: int| 0 <= i < s.len() ==> insert_all(Map::empty(), s).contains_key(#[trigger] s[i].0)
            && insert_all(Map::empty(), s)[s[i].0] == s[i].1,
        forall|k: Seq<u8>| #[trigger] insert_all(Map::empty(), s).contains_key(k) ==>
            exists|i: int| 0 <= i < s.len() && s[i].0 == k,
    decreases s.len(),
{
    if s.len() > 0 {
        let front = s.drop_last();
        assert forall|i: int, j: int| 0 <= i < j < front.len() implies #[trigger] front[i].0 != #[trigger] front[j].0 by {
            assert(s[i].0 != s[j].0);
        }
        lemma_insert_all_distinct(front);
        let m = insert_all(Map::empty(), s);
        assert forall|i: int| 0 <= i < s.len() implies m.contains_key(#[trigger] s[i].0) && m[s[i].0] == s[i].1 by {
            if i < s.len() - 1 {
                assert(front[i] == s[i]);
                assert(s[i].0 != s[s.len() - 1].0);
            }
        }
        assert forall|k: Seq<u8>| #[trigger] m.contains_key(k) implies exists|i: int| 0 <= i < s.len() && s[i].0 == k by {
            if k != s.last().0 {
                assert(insert_all(Map::empty(), front).contains_key(k));
                let i = choose|i: int| 0 <= i < front.len() && front[i].0 == k;
                assert(s[i].0 == k);
            } else {
                assert(s[s.len() - 1].0 == k);
            }
        }
    }
}

/// Loading the snapshot of an index rebuilds that index exactly.
pub proof fn lemma_snapshot_round_trip(index: &Index)
    requires
        index.wf(),
        map_ok(index@),
    ensures
        load(snapshot_bytes(index.pairs()), Map::empty()) == Some(index@),
{
    index.lemma_pairs();
    let s = index.pairs();
    assert forall|i: int| 0 <= i < s.len() implies key_ok(#[trigger] s[i].0) && value_ok(s[i].1) by {
        assert(index@.contains_key(s[i].0));
    }
    lemma_load_entries_then(s, Seq::empty(), Map::empty());
    assert(snapshot_bytes(s) + Seq::<u8>::empty() =~= snapshot_bytes(s));
    assert forall|i: int, j: int| 0 <= i < j < s.len() implies #[trigger] s[i].0 != #[trigger] s[j].0 by {
        assert(lex_lt(s[i].0, s[j].0));
        lemma_lex_irreflexive(s[i].0);
    }
    lemma_insert_all_distinct(s);
    let m = insert_all(Map::empty(), s);
    assert(m =~= index@) by {
        assert forall|k: Seq<u8>| m.contains_key(k) implies index@.contains_key(k) && m[k] == index@[k] by {
            let i = choose|i: int| 0 <= i < s.len() && s[i].0 == k;
        }
        assert forall|k: Seq<u8>| index@.contains_key(k) implies m.contains_key(k) by {
            let i = choose|i: int| 0 <= i < s.len() && s[i].0 == k;
        }
    }
}

} // verus!
