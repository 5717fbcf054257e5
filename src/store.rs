//! The store facade: validation, the index, the durability policy and the
//! snapshot counters, for a log and snapshot files that the caller keeps.
//!
//! Each write hands back the record to append to the log and what the
//! durability policy asks of that append; the caller appends, flushes, and
//! syncs or snapshots as told.
use vstd::prelude::*;
use vstd::utf8::{valid_utf8, decode_utf8};
use vstd::string::{StringSliceAdditionalSpecFns, StringExecFns};
use crate::codec::{LogOp, MAX_KEY_LEN, MAX_VAL_LEN, key_ok, value_ok, record_bytes, encode_set, encode_del, to_vec, utf8_to_string};
use crate::config::{Durability, StoreOptions, options_ok};
use crate::durability::DurabilityState;
use crate::error::StoreError;
use crate::index::{Index, sorted_matching_keys};
use crate::replay::{replay, replay_into};
use crate::snapshot::{map_ok, load, load_snapshot, encode_snapshot, lemma_snapshot_round_trip};

verus! {

/// Checks a key, and a value where one is given, against the size limits.
pub fn validate_kv(key: &[u8], val: Option<&[u8]>) -> (r: Result<(), StoreError>)
    ensures
        r is Ok <==> key_ok(key@) && (val matches Some(v) ==> value_ok(v@)),
        r matches Err(e) ==> e is InvalidInput,
{
    if key.len() == 0 {
        return Err(StoreError::InvalidInput { msg: "key cannot be empty".to_string() });
    }
    if key.len() > MAX_KEY_LEN {
        return Err(StoreError::InvalidInput { msg: "key too large (>1024 bytes)".to_string() });
    }
    match val {
        Some(v) => {
            if v.len() > MAX_VAL_LEN {
                return Err(StoreError::InvalidInput { msg: "value too large (>1048576 bytes)".to_string() });
            }
        },
        None => {},
    }
    Ok(())
}

/// What one write asks of the log.
pub struct Append {
    /// The bytes to append.
    pub record: Vec<u8>,
    /// Whether the append must be synced after its flush.
    pub sync: bool,
    /// Whether the log has reached the size at which a snapshot is taken.
    pub snapshot_due: bool,
}

/// A snapshot's contents and the number it is published under.
pub struct SnapshotPlan {
    pub number: u64,
    pub contents: Vec<u8>,
}

/// A store's state: the index, the durability policy with its count of
/// unsynced writes, the snapshot threshold, the current log's size, and the
/// number of the snapshot it stands on.
pub struct Store {
    index: Index,
    durability: DurabilityState,
    max_log_size: Option<u64>,
    log_size: u64,
    snapshot_number: u64,
}

impl View for Store {
    type V = Map<Seq<u8>, Seq<u8>>;

    closed spec fn view(&self) -> Map<Seq<u8>, Seq<u8>> {
        self.index@
    }
}

/// The size a log reaches after `n` more bytes, saturating.
pub open spec fn grown(size: nat, n: nat) -> nat {
    if size + n > u64::MAX { u64::MAX as nat } else { size + n }
}

/// The text that a scan reports for a key.
pub open spec fn key_text(k: Seq<u8>) -> Seq<char> {
    if valid_utf8(k) { decode_utf8(k) } else { "<non-utf8 key>"@ }
}

impl Store {
    /// The index is well formed, holds only keys and values of accepted
    /// sizes, and the sync count is within the policy's bound.
    pub closed spec fn wf(&self) -> bool {
        &&& self.index.wf()
        &&& self.durability.wf()
        &&& map_ok(self.index@)
    }

    /// The durability policy.
    pub closed spec fn mode(&self) -> Durability {
        self.durability.mode()
    }

    /// Writes since the last sync.
    pub closed spec fn pending(&self) -> nat {
        self.durability.pending()
    }

    /// Size of the current log, in bytes.
    pub closed spec fn log_len(&self) -> nat {
        self.log_size as nat
    }

    /// Log size at which a snapshot is due, if any.
    pub closed spec fn max_log(&self) -> Option<u64> {
        self.max_log_size
    }

    /// Number of the snapshot the store stands on; 0 for none.
    pub closed spec fn number(&self) -> u64 {
        self.snapshot_number
    }

    /// Whether the log has reached the automatic snapshot threshold.
    pub open spec fn snapshot_due_at(&self, size: nat) -> bool {
        self.max_log() matches Some(m) && size >= m
    }

    /// What the durability policy decides for one more write.
    pub open spec fn sync_after_write(&self, next: &Store, sync: bool) -> bool {
        next.mode() == self.mode() && match self.mode() {
            Durability::Flush => !sync && next.pending() == 0,
            Durability::FsyncAlways => sync && next.pending() == 0,
            Durability::FsyncEveryN(n) => if self.pending() + 1 >= n {
                sync && next.pending() == 0
            } else {
                !sync && next.pending() == self.pending() + 1
            },
        }
    }

    fn from_parts(options: StoreOptions, index: Index, snapshot_number: u64, log_size: usize) -> (r: Store)
        requires
            options_ok(options),
            index.wf(),
            map_ok(index@),
        ensures
            r.wf(),
            r@ == index@,
            r.mode() == options.durability,
            r.pending() == 0,
            r.max_log() == options.max_log_size,
            r.number() == snapshot_number,
            r.log_len() == (if log_size > u64::MAX { u64::MAX as nat } else { log_size as nat }),
    {
        let size: u64 = if log_size as u128 > u64::MAX as u128 { u64::MAX } else { log_size as u64 };
        Store {
            index,
            durability: DurabilityState::new(options.durability),
            max_log_size: options.max_log_size,
            log_size: size,
            snapshot_number,
        }
    }

    /// Opens a store whose whole state is in `log`. The result's
    /// `log_size` is the length of the log's complete records: the caller
    /// cuts the file to it, which drops a torn tail.
    pub fn open(options: StoreOptions, log: &[u8]) -> (r: Result<Store, StoreError>)
        ensures
            !options_ok(options) ==> (r matches Err(e) && e is InvalidInput),
            options_ok(options) ==> (r is Ok <==> replay(log@, Map::empty()) is Some),
            options_ok(options) && replay(log@, Map::empty()) is None ==> (r matches Err(e) && e is CorruptLog),
            r matches Ok(s) ==> s.wf() && s.number() == 0 && s.pending() == 0
                && s.mode() == options.durability && s.max_log() == options.max_log_size
                && replay(log@, Map::empty()) == Some((s@, s.log_len())),
    {
        if !options_valid(&options) {
            return Err(StoreError::InvalidInput { msg: "sync interval must be at least 1".to_string() });
        }
        let mut index = Index::new();
        let n = replay_into(log, &mut index)?;
        proof { crate::replay::lemma_replay_keeps_ok(log@, Map::empty()); }
        Ok(Store::from_parts(options, index, 0, n))
    }

    /// Opens a store from the snapshot published as `snapshot_number` and
    /// the log that continues it.
    pub fn open_from_snapshot(options: StoreOptions, snapshot_number: u64, snapshot: &[u8], log: &[u8]) -> (r: Result<Store, StoreError>)
        ensures
            !options_ok(options) ==> (r matches Err(e) && e is InvalidInput),
            options_ok(options) ==> (r is Ok <==> (load(snapshot@, Map::empty()) matches Some(m)
                && replay(log@, m) is Some)),
            r matches Ok(s) ==> s.wf() && s.number() == snapshot_number && s.pending() == 0
                && s.mode() == options.durability && s.max_log() == options.max_log_size
                && (load(snapshot@, Map::empty()) matches Some(m)
                    && replay(log@, m) == Some((s@, s.log_len()))),
            options_ok(options) ==> (r matches Err(e) ==> e is CorruptLog),
    {
        if !options_valid(&options) {
            return Err(StoreError::InvalidInput { msg: "sync interval must be at least 1".to_string() });
        }
        let mut index = Index::new();
        proof { assert(map_ok(index@)); }
        load_snapshot(snapshot, &mut index)?;
        let ghost m = index@;
        let n = replay_into(log, &mut index)?;
        proof { crate::replay::lemma_replay_keeps_ok(log@, m); }
        Ok(Store::from_parts(options, index, snapshot_number, n))
    }

    /// The value stored under `key`, if any.
    pub fn get(&self, key: &[u8]) -> (r: Option<&[u8]>)
        requires
            self.wf(),
        ensures
            r is Some <==> self@.contains_key(key@),
            r matches Some(v) ==> v@ == self@[key@],
    {
        self.index.get(key)
    }

    fn note_append(&mut self, len: usize) -> (r: (bool, bool))
        requires
            old(self).wf(),
        ensures
            final(self).wf(),
            final(self)@ == old(self)@,
            final(self).number() == old(self).number(),
            final(self).max_log() == old(self).max_log(),
            final(self).log_len() == grown(old(self).log_len(), len as nat),
            old(self).sync_after_write(final(self), r.0),
            r.1 == final(self).snapshot_due_at(final(self).log_len()),
    {
        let sync = self.durability.after_write();
        let add: u64 = if len as u128 > u64::MAX as u128 { u64::MAX } else { len as u64 };
        self.log_size = if self.log_size > u64::MAX - add { u64::MAX } else { self.log_size + add };
        let due = match self.max_log_size {
            Some(m) => self.log_size >= m,
            None => false,
        };
        (sync, due)
    }

    /// The record that `set(key, value)` appends, or the error it reports;
    /// nothing changes. A caller that writes to a file appends this record
    /// first and calls `set` once the append has succeeded.
    pub fn prepare_set(key: &[u8], value: &[u8]) -> (r: Result<Vec<u8>, StoreError>)
        ensures
            r is Ok <==> key_ok(key@) && value_ok(value@),
            r matches Err(e) ==> e is InvalidInput,
            r matches Ok(rec) ==> rec@ == record_bytes(LogOp::Put(key@, value@)),
    {
        validate_kv(key, Some(value))?;
        Ok(encode_set(key, value))
    }

    /// The record that `del(key)` appends, or the error it reports; nothing
    /// changes.
    pub fn prepare_del(key: &[u8]) -> (r: Result<Vec<u8>, StoreError>)
        ensures
            r is Ok <==> key_ok(key@),
            r matches Err(e) ==> e is InvalidInput,
            r matches Ok(rec) ==> rec@ == record_bytes(LogOp::Delete(key@)),
    {
        validate_kv(key, None)?;
        Ok(encode_del(key))
    }

    /// Sets `key` to `value`. An empty or oversized key, or an oversized
    /// value, is refused and nothing changes.
    pub fn set(&mut self, key: &[u8], value: &[u8]) -> (r: Result<Append, StoreError>)
        requires
            old(self).wf(),
        ensures
            final(self).wf(),
            r is Ok <==> key_ok(key@) && value_ok(value@),
            r matches Err(e) ==> e is InvalidInput && *final(self) == *old(self),
            r matches Ok(a) ==> {
                &&& a.record@ == record_bytes(LogOp::Put(key@, value@))
                &&& final(self)@ == old(self)@.insert(key@, value@)
                &&& final(self).log_len() == grown(old(self).log_len(), a.record@.len())
                &&& final(self).number() == old(self).number()
                &&& final(self).max_log() == old(self).max_log()
                &&& old(self).sync_after_write(final(self), a.sync)
                &&& a.snapshot_due == final(self).snapshot_due_at(final(self).log_len())
            },
    {
        validate_kv(key, Some(value))?;
        let record = encode_set(key, value);
        self.index.insert(to_vec(key), to_vec(value));
        let (sync, snapshot_due) = self.note_append(record.len());
        Ok(Append { record, sync, snapshot_due })
    }

    /// Deletes `key`; tells whether it was there. Deleting an absent key is
    /// no error.
    pub fn del(&mut self, key: &[u8]) -> (r: Result<(bool, Append), StoreError>)
        requires
            old(self).wf(),
        ensures
            final(self).wf(),
            r is Ok <==> key_ok(key@),
            r matches Err(e) ==> e is InvalidInput && *final(self) == *old(self),
            r matches Ok((existed, a)) ==> {
                &&& existed == old(self)@.contains_key(key@)
                &&& a.record@ == record_bytes(LogOp::Delete(key@))
                &&& final(self)@ == old(self)@.remove(key@)
                &&& final(self).log_len() == grown(old(self).log_len(), a.record@.len())
                &&& final(self).number() == old(self).number()
                &&& final(self).max_log() == old(self).max_log()
                &&& old(self).sync_after_write(final(self), a.sync)
                &&& a.snapshot_due == final(self).snapshot_due_at(final(self).log_len())
            },
    {
        validate_kv(key, None)?;
        let record = encode_del(key);
        let existed = self.index.remove(key);
        let (sync, snapshot_due) = self.note_append(record.len());
        Ok((existed, Append { record, sync, snapshot_due }))
    }

    /// The keys that start with `prefix`, in byte order.
    pub fn scan_prefix(&self, prefix: &[u8]) -> (r: Vec<Vec<u8>>)
        requires
            self.wf(),
        ensures
            sorted_matching_keys(self@, prefix@, r@.map_values(|k: Vec<u8>| k@)),
    {
        self.index.keys_with_prefix(prefix)
    }

    /// The keys that start with `prefix` (all keys where there is none), in
    /// byte order, as text; a key that is not UTF-8 reads `<non-utf8 key>`.
    pub fn scan_prefix_str(&self, prefix: Option<&str>) -> (r: Vec<String>)
        requires
            self.wf(),
        ensures
            scanned_as_text(self@, scan_prefix_bytes(prefix), r@),
    {
        let r = match prefix {
            Some(p) => self.scan_text(p.as_bytes()),
            None => self.scan_text(&[]),
        };
        proof {
            if prefix is None {
                assert(scan_prefix_bytes(prefix) =~= Seq::<u8>::empty());
            }
        }
        r
    }

    /// The keys that start with the bytes `prefix`, in byte order, as text.
    pub fn scan_text(&self, prefix: &[u8]) -> (r: Vec<String>)
        requires
            self.wf(),
        ensures
            scanned_as_text(self@, prefix@, r@),
    {
        let keys = self.scan_prefix(prefix);
        let r = keys_as_text(keys);
        proof {
            let ks = keys@.map_values(|k: Vec<u8>| k@);
            assert(sorted_matching_keys(self@, prefix@, ks));
            assert(forall|i: int| 0 <= i < ks.len() ==> (#[trigger] r@[i])@ == key_text(ks[i]));
        }
        r
    }

    /// Starts a snapshot, once the caller has synced and rotated the log: the
    /// new log is empty, no write is left unsynced, and the returned contents
    /// rebuild the current index.
    pub fn begin_snapshot(&mut self) -> (r: Result<SnapshotPlan, StoreError>)
        requires
            old(self).wf(),
        ensures
            final(self).wf(),
            r is Ok <==> old(self).number() < u64::MAX,
            r matches Err(e) ==> e is InvalidInput && *final(self) == *old(self),
            r matches Ok(plan) ==> {
                &&& plan.number == old(self).number() + 1
                &&& final(self).number() == plan.number
                &&& load(plan.contents@, Map::empty()) == Some(old(self)@)
                &&& final(self)@ == old(self)@
                &&& final(self).log_len() == 0
                &&& final(self).mode() == old(self).mode()
                &&& final(self).pending() == 0
                &&& final(self).max_log() == old(self).max_log()
            },
    {
        if self.snapshot_number == u64::MAX {
            return Err(StoreError::InvalidInput { msg: "snapshot numbers exhausted".to_string() });
        }
        let contents = encode_snapshot(&self.index);
        proof { lemma_snapshot_round_trip(&self.index); }
        self.snapshot_number = self.snapshot_number + 1;
        self.log_size = 0;
        self.durability.note_synced();
        Ok(SnapshotPlan { number: self.snapshot_number, contents })
    }

    /// Closes the store; tells whether the final flush must be followed by
    /// a sync, which it must under every mode but `Flush`.
    pub fn shutdown(self) -> (sync: bool)
        requires
            self.wf(),
        ensures
            sync == !(self.mode() is Flush),
    {
        self.durability.sync_on_shutdown()
    }

    /// Number of keys.
    pub fn len(&self) -> (r: usize)
        requires
            self.wf(),
        ensures
            r == self@.len(),
    {
        self.index.len_keys()
    }

    /// Bytes of log written since the store was opened or last snapshotted,
    /// counting the complete records that it was opened with.
    pub fn log_size(&self) -> (r: u64)
        ensures
            r == self.log_len(),
    {
        self.log_size
    }

    /// Number of the snapshot that the store stands on; 0 for none.
    pub fn snapshot_number(&self) -> (r: u64)
        ensures
            r == self.number(),
    {
        self.snapshot_number
    }
}

/// `out` is the text of the keys of `m` that start with `prefix`, in byte
/// order.
pub open spec fn scanned_as_text(m: Map<Seq<u8>, Seq<u8>>, prefix: Seq<u8>, out: Seq<String>) -> bool {
    exists|keys: Seq<Seq<u8>>| {
        &&& sorted_matching_keys(m, prefix, keys)
        &&& out.len() == keys.len()
        &&& forall|i: int| 0 <= i < keys.len() ==> (#[trigger] out[i])@ == key_text(keys[i])
    }
}

/// Deleting a key leaves it absent; deleting it again finds nothing and
/// changes nothing.
pub proof fn lemma_delete_idempotent(m: Map<Seq<u8>, Seq<u8>>, k: Seq<u8>)
    ensures
        !m.remove(k).contains_key(k),
        m.remove(k).remove(k) == m.remove(k),
        !m.contains_key(k) ==> m.remove(k) == m,
{
    assert(m.remove(k).remove(k) =~= m.remove(k));
    if !m.contains_key(k) {
        assert(m.remove(k) =~= m);
    }
}

/// A snapshot that rebuilds a state, opened with the fresh, empty log that
/// follows it, yields that state and nothing more.
pub proof fn lemma_snapshot_equivalence(contents: Seq<u8>, m: Map<Seq<u8>, Seq<u8>>)
    requires
        load(contents, Map::empty()) == Some(m),
    ensures
        load(contents, Map::empty()) matches Some(m0) && replay(Seq::empty(), m0) == Some((m, 0nat)),
{
}

/// The bytes a scan prefix stands for: none means every key.
pub open spec fn scan_prefix_bytes(prefix: Option<&str>) -> Seq<u8> {
    match prefix {
        Some(p) => p.spec_bytes(),
        None => Seq::empty(),
    }
}

fn options_valid(o: &StoreOptions) -> (r: bool)
    ensures
        r == options_ok(*o),
{
    match o.durability {
        Durability::FsyncEveryN(0) => false,
        _ => true,
    }
}

/// Each key as text, in order.
fn keys_as_text(keys: Vec<Vec<u8>>) -> (r: Vec<String>)
    ensures
        r@.len() == keys@.len(),
        forall|i: int| 0 <= i < keys@.len() ==> (#[trigger] r@[i])@ == key_text(keys@[i]@),
{
    let mut out: Vec<String> = Vec::new();
    let mut i: usize = 0;
    while i < keys.len()
        invariant
            i <= keys@.len(),
            out@.len() == i,
            forall|j: int| 0 <= j < i ==> (#[trigger] out@[j])@ == key_text(keys@[j]@),
        decreases keys@.len() - i,
    {
        let k = to_vec(keys[i].as_slice());
        let text = match utf8_to_string(k) {
            Some(s) => s,
            None => String::from_str("<non-utf8 key>"),
        };
        let ghost before = out@;
        out.push(text);
        proof {
            assert forall|j: int| 0 <= j < i + 1 implies (#[trigger] out@[j])@ == key_text(keys@[j]@) by {
                if j < i {
                    assert(out@[j] == before[j]);
                }
            }
        }
        i = i + 1;
    }
    out
}

} // verus!
