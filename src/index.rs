//! The in-memory index: a map from keys to values, kept as a vector of
//! entries sorted by key so that scans come out in byte order.
use vstd::prelude::*;
use crate::codec::copy_range;

verus! {

/// Byte-wise lexicographic order: `a` sorts strictly before `b`.
pub open spec fn lex_lt(a: Seq<u8>, b: Seq<u8>) -> bool
    decreases a.len(),
{
    if b.len() == 0 {
        false
    } else if a.len() == 0 {
        true
    } else if a[0] != b[0] {
        a[0] < b[0]
    } else {
        lex_lt(a.drop_first(), b.drop_first())
    }
}

pub proof fn lemma_lex_irreflexive(a: Seq<u8>)
    ensures
        !lex_lt(a, a),
    decreases a.len(),
{
    if a.len() > 0 {
        lemma_lex_irreflexive(a.drop_first());
    }
}

pub proof fn lemma_lex_asymmetric(a: Seq<u8>, b: Seq<u8>)
    ensures
        !(lex_lt(a, b) && lex_lt(b, a)),
    decreases a.len(),
{
    if a.len() > 0 && b.len() > 0 && a[0] == b[0] {
        lemma_lex_asymmetric(a.drop_first(), b.drop_first());
    }
}

pub proof fn lemma_lex_transitive(a: Seq<u8>, b: Seq<u8>, c: Seq<u8>)
    requires
        lex_lt(a, b),
        lex_lt(b, c),
    ensures
        lex_lt(a, c),
    decreases a.len(),
{
    if a.len() > 0 && a[0] == b[0] && b[0] == c[0] {
        lemma_lex_transitive(a.drop_first(), b.drop_first(), c.drop_first());
    }
}

pub proof fn lemma_lex_total(a: Seq<u8>, b: Seq<u8>)
    ensures
        a == b || lex_lt(a, b) || lex_lt(b, a),
    decreases a.len(),
{
    if a.len() > 0 && b.len() > 0 && a[0] == b[0] {
        lemma_lex_total(a.drop_first(), b.drop_first());
        if a.drop_first() == b.drop_first() {
            assert(a =~= seq![a[0]] + a.drop_first());
            assert(b =~= seq![b[0]] + b.drop_first());
        }
    } else if a.len() == 0 && b.len() == 0 {
        assert(a =~= b);
    }
}

/// Compares two keys: negative, zero or positive as `a` sorts before, equal
/// to, or after `b`.
pub fn compare_keys(a: &[u8], b: &[u8]) -> (r: i8)
    ensures
        r < 0 <==> lex_lt(a@, b@),
        r == 0 <==> a@ == b@,
        r > 0 <==> lex_lt(b@, a@),
{
    let mut i: usize = 0;
    assert(a@.subrange(0, a@.len() as int) =~= a@);
    assert(b@.subrange(0, b@.len() as int) =~= b@);
    while i < a.len() && i < b.len() && a[i] == b[i]
        invariant
            i <= a@.len(),
            i <= b@.len(),
            a@.subrange(0, i as int) == b@.subrange(0, i as int),
            lex_lt(a@, b@) == lex_lt(a@.subrange(i as int, a@.len() as int), b@.subrange(i as int, b@.len() as int)),
            lex_lt(b@, a@) == lex_lt(b@.subrange(i as int, b@.len() as int), a@.subrange(i as int, a@.len() as int)),
        decreases a@.len() - i,
    {
        let ghost sa = a@.subrange(i as int, a@.len() as int);
        let ghost sb = b@.subrange(i as int, b@.len() as int);
        assert(sa.drop_first() =~= a@.subrange(i + 1, a@.len() as int));
        assert(sb.drop_first() =~= b@.subrange(i + 1, b@.len() as int));
        assert(a@.subrange(0, i + 1) =~= a@.subrange(0, i as int).push(a@[i as int]));
        assert(b@.subrange(0, i + 1) =~= b@.subrange(0, i as int).push(b@[i as int]));
        i = i + 1;
    }
    proof {
        lemma_lex_irreflexive(a@);
        lemma_lex_asymmetric(a@, b@);
    }
    if i < a.len() && i < b.len() {
        if a[i] < b[i] {
            -1
        } else {
            assert(a@[i as int] != b@[i as int]);
            1
        }
    } else if i < b.len() {
        assert(a@ != b@);
        -1
    } else if i < a.len() {
        assert(a@ != b@);
        1
    } else {
        assert(a@ =~= a@.subrange(0, i as int));
        assert(b@ =~= b@.subrange(0, i as int));
        0
    }
}


/// The live key/value map of a store.
pub struct Index {
    entries: Vec<(Vec<u8>, Vec<u8>)>,
    contents: Ghost<Map<Seq<u8>, Seq<u8>>>,
}

impl View for Index {
    type V = Map<Seq<u8>, Seq<u8>>;

    closed spec fn view(&self) -> Map<Seq<u8>, Seq<u8>> {
        self.contents@
    }
}

impl Index {
    spec fn key(&self, i: int) -> Seq<u8> {
        self.entries@[i].0@
    }

    spec fn len(&self) -> int {
        self.entries@.len() as int
    }

    /// Entries are sorted by key, and they are exactly the map's pairs.
    pub closed spec fn wf(&self) -> bool {
        &&& forall|i: int, j: int|
            0 <= i < j < self.len() ==> lex_lt(#[trigger] self.key(i), #[trigger] self.key(j))
        &&& forall|i: int|
            0 <= i < self.len() ==> self.contents@.contains_key(#[trigger] self.key(i))
                && self.contents@[self.key(i)] == self.entries@[i].1@
        &&& forall|k: Seq<u8>|
            #[trigger] self.contents@.contains_key(k) ==> exists|i: int|
                0 <= i < self.len() && self.key(i) == k
    }

    /// An empty index.
    pub fn new() -> (r: Index)
        ensures
            r.wf(),
            r@ == Map::<Seq<u8>, Seq<u8>>::empty(),
    {
        Index { entries: Vec::new(), contents: Ghost(Map::empty()) }
    }

    /// Number of keys.
    pub fn len_keys(&self) -> (r: usize)
        requires
            self.wf(),
        ensures
            r == self@.len(),
    {
        proof { self.lemma_len(); }
        self.entries.len()
    }

    proof fn lemma_len(&self)
        requires
            self.wf(),
        ensures
            self.entries@.len() == self@.len(),
            self@.dom().finite(),
    {
        let keys = Seq::new(self.entries@.len(), |i: int| self.key(i));
        assert forall|i: int, j: int| 0 <= i < keys.len() && 0 <= j < keys.len() && i != j
            implies keys[i] != keys[j] by {
            if i < j {
                assert(lex_lt(self.key(i), self.key(j)));
            } else {
                assert(lex_lt(self.key(j), self.key(i)));
            }
            lemma_lex_irreflexive(self.key(i));
            lemma_lex_irreflexive(self.key(j));
        }
        keys.unique_seq_to_set();
        assert(keys.to_set() =~= self@.dom()) by {
            assert forall|k: Seq<u8>| self@.dom().contains(k) implies keys.to_set().contains(k) by {
                let i = choose|i: int| 0 <= i < self.len() && self.key(i) == k;
                assert(keys[i] == k);
            }
            assert forall|k: Seq<u8>| keys.to_set().contains(k) implies self@.dom().contains(k) by {
                let i = choose|i: int| 0 <= i < keys.len() && keys[i] == k;
                assert(self.contents@.contains_key(self.key(i)));
            }
        }
    }

    /// Where `key` stands: `Ok` with its position, or `Err` with the position
    /// at which it would be inserted.
    fn find(&self, key: &[u8]) -> (r: Result<usize, usize>)
        requires
            self.wf(),
        ensures
            r matches Ok(i) ==> i < self.len() && self.key(i as int) == key@,
            r matches Err(i) ==> i <= self.len()
                && (forall|j: int| 0 <= j < i ==> lex_lt(#[trigger] self.key(j), key@))
                && (forall|j: int| i <= j < self.len() ==> lex_lt(key@, #[trigger] self.key(j))),
    {
        let mut lo: usize = 0;
        let mut hi: usize = self.entries.len();
        while lo < hi
            invariant
                self.wf(),
                lo <= hi <= self.len(),
                forall|j: int| 0 <= j < lo ==> lex_lt(#[trigger] self.key(j), key@),
                forall|j: int| hi <= j < self.len() ==> lex_lt(key@, #[trigger] self.key(j)),
            decreases hi - lo,
        {
            let mid = lo + (hi - lo) / 2;
            let c = compare_keys(key, self.entries[mid].0.as_slice());
            if c == 0 {
                return Ok(mid);
            } else if c < 0 {
                assert forall|j: int| mid <= j < self.len() implies lex_lt(key@, #[trigger] self.key(j)) by {
                    if mid < j && j < hi {
                        assert(lex_lt(self.key(mid as int), self.key(j)));
                        lemma_lex_transitive(key@, self.key(mid as int), self.key(j));
                    }
                }
                hi = mid;
            } else {
                assert forall|j: int| 0 <= j <= mid implies lex_lt(#[trigger] self.key(j), key@) by {
                    if lo <= j && j < mid {
                        assert(lex_lt(self.key(j), self.key(mid as int)));
                        lemma_lex_transitive(self.key(j), self.key(mid as int), key@);
                    }
                }
                lo = mid + 1;
            }
        }
        Err(lo)
    }

    /// The value stored under `key`, if any.
    pub fn get(&self, key: &[u8]) -> (r: Option<&[u8]>)
        requires
            self.wf(),
        ensures
            r is Some <==> self@.contains_key(key@),
            r matches Some(v) ==> v@ == self@[key@],
    {
        match self.find(key) {
            Ok(i) => Some(self.entries[i].1.as_slice()),
            Err(i) => {
                proof {
                    if self@.contains_key(key@) {
                        let j = choose|j: int| 0 <= j < self.len() && self.key(j) == key@;
                        lemma_lex_irreflexive(key@);
                        if j < i {
                            assert(lex_lt(self.key(j), key@));
                        } else {
                            assert(lex_lt(key@, self.key(j)));
                        }
                    }
                }
                None
            },
        }
    }

    /// Stores `value` under `key`, replacing any earlier value.
    pub fn insert(&mut self, key: Vec<u8>, value: Vec<u8>)
        requires
            old(self).wf(),
        ensures
            final(self).wf(),
            final(self)@ == old(self)@.insert(key@, value@),
    {
        let ghost k = key@;
        let ghost v = value@;
        let ghost m = self.contents@.insert(k, v);
        match self.find(key.as_slice()) {
            Ok(i) => {
                self.entries[i] = (key, value);
                self.contents = Ghost(m);
                assert forall|i2: int, j: int|
                    0 <= i2 < j < self.len() implies lex_lt(#[trigger] self.key(i2), #[trigger] self.key(j)) by {
                    assert(old(self).key(i2) == self.key(i2));
                    assert(old(self).key(j) == self.key(j));
                    assert(lex_lt(old(self).key(i2), old(self).key(j)));
                }
                assert forall|q: Seq<u8>| #[trigger] self.contents@.contains_key(q) implies exists|x: int|
                    0 <= x < self.len() && self.key(x) == q by {
                    if q != k {
                        assert(old(self).contents@.contains_key(q));
                        let x = choose|x: int| 0 <= x < old(self).len() && old(self).key(x) == q;
                        assert(self.key(x) == q);
                    } else {
                        assert(self.key(i as int) == q);
                    }
                }
                assert forall|x: int| 0 <= x < self.len() implies self.contents@.contains_key(#[trigger] self.key(x))
                    && self.contents@[self.key(x)] == self.entries@[x].1@ by {
                    if x != i {
                        assert(old(self).key(x) == self.key(x));
                        assert(lex_lt(old(self).key(x), k) || lex_lt(k, old(self).key(x)));
                        lemma_lex_irreflexive(k);
                    }
                }
            },
            Err(i) => {
                self.entries.insert(i, (key, value));
                self.contents = Ghost(m);
                assert forall|a: int, b: int|
                    0 <= a < b < self.len() implies lex_lt(#[trigger] self.key(a), #[trigger] self.key(b)) by {
                    if b < i {
                        assert(lex_lt(old(self).key(a), old(self).key(b)));
                    } else if b == i {
                        assert(lex_lt(old(self).key(a), k));
                    } else if a < i {
                        assert(self.key(b) == old(self).key(b - 1));
                        assert(lex_lt(old(self).key(a), k));
                        assert(lex_lt(k, old(self).key(b - 1)));
                        lemma_lex_transitive(old(self).key(a), k, old(self).key(b - 1));
                    } else if a == i {
                        assert(lex_lt(k, old(self).key(b - 1)));
                    } else {
                        assert(lex_lt(old(self).key(a - 1), old(self).key(b - 1)));
                    }
                }
                assert forall|q: Seq<u8>| #[trigger] self.contents@.contains_key(q) implies exists|x: int|
                    0 <= x < self.len() && self.key(x) == q by {
                    if q != k {
                        assert(old(self).contents@.contains_key(q));
                        let x = choose|x: int| 0 <= x < old(self).len() && old(self).key(x) == q;
                        if x < i {
                            assert(self.key(x) == q);
                        } else {
                            assert(self.key(x + 1) == q);
                        }
                    } else {
                        assert(self.key(i as int) == q);
                    }
                }
                assert forall|x: int| 0 <= x < self.len() implies self.contents@.contains_key(#[trigger] self.key(x))
                    && self.contents@[self.key(x)] == self.entries@[x].1@ by {
                    lemma_lex_irreflexive(k);
                    if x < i {
                        assert(self.key(x) == old(self).key(x));
                        assert(lex_lt(old(self).key(x), k));
                    } else if x > i {
                        assert(self.key(x) == old(self).key(x - 1));
                        assert(lex_lt(k, old(self).key(x - 1)));
                    }
                }
            },
        }
    }

    /// Removes `key`; tells whether it was there.
    pub fn remove(&mut self, key: &[u8]) -> (r: bool)
        requires
            old(self).wf(),
        ensures
            final(self).wf(),
            r == old(self)@.contains_key(key@),
            final(self)@ == old(self)@.remove(key@),
    {
        match self.find(key) {
            Ok(i) => {
                let ghost m = self.contents@.remove(key@);
                self.entries.remove(i);
                self.contents = Ghost(m);
                assert forall|a: int, b: int|
                    0 <= a < b < self.len() implies lex_lt(#[trigger] self.key(a), #[trigger] self.key(b)) by {
                    let oa = if a < i { a } else { a + 1 };
                    let ob = if b < i { b } else { b + 1 };
                    assert(self.key(a) == old(self).key(oa));
                    assert(self.key(b) == old(self).key(ob));
                    assert(lex_lt(old(self).key(oa), old(self).key(ob)));
                }
                assert forall|q: Seq<u8>| #[trigger] self.contents@.contains_key(q) implies exists|x: int|
                    0 <= x < self.len() && self.key(x) == q by {
                    assert(old(self).contents@.contains_key(q));
                    let x = choose|x: int| 0 <= x < old(self).len() && old(self).key(x) == q;
                    if x < i {
                        assert(self.key(x) == q);
                    } else {
                        assert(x != i);
                        assert(self.key(x - 1) == q);
                    }
                }
                assert forall|x: int| 0 <= x < self.len() implies self.contents@.contains_key(#[trigger] self.key(x))
                    && self.contents@[self.key(x)] == self.entries@[x].1@ by {
                    let ox = if x < i { x } else { x + 1 };
                    assert(self.key(x) == old(self).key(ox));
                    assert(self.entries@[x] == old(self).entries@[ox]);
                    lemma_lex_irreflexive(key@);
                    if ox < i {
                        assert(lex_lt(old(self).key(ox), old(self).key(i as int)));
                    } else {
                        assert(lex_lt(old(self).key(i as int), old(self).key(ox)));
                    }
                }
                true
            },
            Err(i) => {
                proof {
                    if self@.contains_key(key@) {
                        let j = choose|j: int| 0 <= j < self.len() && self.key(j) == key@;
                        lemma_lex_irreflexive(key@);
                        if j < i {
                            assert(lex_lt(self.key(j), key@));
                        } else {
                            assert(lex_lt(key@, self.key(j)));
                        }
                    }
                    assert(self.contents@.remove(key@) =~= self.contents@);
                }
                false
            },
        }
    }
}


impl Index {
    /// The entries in key order.
    pub closed spec fn pairs(&self) -> Seq<(Seq<u8>, Seq<u8>)> {
        Seq::new(self.entries@.len(), |i: int| (self.entries@[i].0@, self.entries@[i].1@))
    }

    /// The entries are sorted by key and are exactly the map's pairs.
    pub proof fn lemma_pairs(&self)
        requires
            self.wf(),
        ensures
            self.pairs().len() == self@.len(),
            self@.dom().finite(),
            forall|i: int, j: int|
                0 <= i < j < self.pairs().len() ==> lex_lt(#[trigger] self.pairs()[i].0, #[trigger] self.pairs()[j].0),
            forall|i: int|
                0 <= i < self.pairs().len() ==> self@.contains_key(#[trigger] self.pairs()[i].0)
                    && self@[self.pairs()[i].0] == self.pairs()[i].1,
            forall|k: Seq<u8>|
                #[trigger] self@.contains_key(k) ==> exists|i: int|
                    0 <= i < self.pairs().len() && self.pairs()[i].0 == k,
    {
        self.lemma_len();
        assert forall|i: int, j: int|
            0 <= i < j < self.pairs().len() implies lex_lt(#[trigger] self.pairs()[i].0, #[trigger] self.pairs()[j].0) by {
            assert(lex_lt(self.key(i), self.key(j)));
        }
        assert forall|i: int| 0 <= i < self.pairs().len() implies self@.contains_key(#[trigger] self.pairs()[i].0)
            && self@[self.pairs()[i].0] == self.pairs()[i].1 by {
            assert(self.contents@.contains_key(self.key(i)));
        }
        assert forall|k: Seq<u8>| #[trigger] self@.contains_key(k) implies exists|i: int|
            0 <= i < self.pairs().len() && self.pairs()[i].0 == k by {
            assert(self.contents@.contains_key(k));
            let i = choose|i: int| 0 <= i < self.len() && self.key(i) == k;
            assert(self.pairs()[i].0 == k);
        }
    }

    /// The key and value of the `i`-th entry in key order.
    pub fn entry_at(&self, i: usize) -> (r: (&[u8], &[u8]))
        requires
            i < self.pairs().len(),
        ensures
            (r.0@, r.1@) == self.pairs()[i as int],
    {
        (self.entries[i].0.as_slice(), self.entries[i].1.as_slice())
    }

    /// All keys that start with `prefix`, in byte order.
    pub fn keys_with_prefix(&self, prefix: &[u8]) -> (r: Vec<Vec<u8>>)
        requires
            self.wf(),
        ensures
            sorted_matching_keys(self@, prefix@, r@.map_values(|k: Vec<u8>| k@)),
    {
        proof { self.lemma_pairs(); }
        let ghost p = self.pairs();
        let mut out: Vec<Vec<u8>> = Vec::new();
        let ghost mut src: Seq<int> = Seq::empty();
        let mut i: usize = 0;
        let n = self.entries.len();
        while i < n
            invariant
                p == self.pairs(),
                n == p.len(),
                i <= n,
                src.len() == out@.len(),
                forall|a: int| 0 <= a < out@.len() ==> 0 <= #[trigger] src[a] < i && out@[a]@ == p[src[a]].0,
                forall|a: int, b: int| 0 <= a < b < out@.len() ==> #[trigger] src[a] < #[trigger] src[b],
                forall|a: int| 0 <= a < out@.len() ==> prefix@.is_prefix_of(#[trigger] out@[a]@),
                forall|j: int| 0 <= j < i && prefix@.is_prefix_of(#[trigger] p[j].0) ==>
                    exists|a: int| 0 <= a < src.len() && src[a] == j,
            decreases n - i,
        {
            let (k, _) = self.entry_at(i);
            if starts_with(k, prefix) {
                let ghost before = out@;
                let ghost src0 = src;
                out.push(copy_range(k, 0, k.len()));
                proof {
                    src = src.push(i as int);
                    assert forall|j: int| 0 <= j < i + 1 && prefix@.is_prefix_of(#[trigger] p[j].0) implies
                        exists|a: int| 0 <= a < src.len() && src[a] == j by {
                        if j < i {
                            let a = choose|a: int| 0 <= a < src0.len() && src0[a] == j;
                            assert(src[a] == j);
                        } else {
                            assert(src[src0.len() as int] == j);
                        }
                    }
                    assert forall|a: int| 0 <= a < out@.len() implies prefix@.is_prefix_of(#[trigger] out@[a]@) by {
                        if a < before.len() {
                            assert(out@[a] == before[a]);
                        }
                    }
                    assert forall|a: int| 0 <= a < out@.len() implies 0 <= #[trigger] src[a] < i + 1
                        && out@[a]@ == p[src[a]].0 by {
                        if a < before.len() {
                            assert(out@[a] == before[a]);
                            assert(src[a] == src0[a]);
                        }
                    }
                }
            }
            i = i + 1;
        }
        proof {
            let r = out@.map_values(|k: Vec<u8>| k@);
            assert forall|a: int, b: int| 0 <= a < b < r.len() implies lex_lt(#[trigger] r[a], #[trigger] r[b]) by {
                assert(src[a] < src[b]);
                assert(lex_lt(p[src[a]].0, p[src[b]].0));
            }
            assert forall|a: int| 0 <= a < r.len() implies self@.contains_key(#[trigger] r[a])
                && prefix@.is_prefix_of(r[a]) by {
                assert(prefix@.is_prefix_of(out@[a]@));
                assert(self@.contains_key(p[src[a]].0));
            }
            assert forall|k: Seq<u8>| #[trigger] self@.contains_key(k) && prefix@.is_prefix_of(k) implies
                exists|a: int| 0 <= a < r.len() && r[a] == k by {
                let j = choose|j: int| 0 <= j < p.len() && p[j].0 == k;
                let a = choose|a: int| 0 <= a < src.len() && src[a] == j;
                assert(r[a] == k);
            }
        }
        out
    }
}

/// `out` holds exactly the keys of `m` that start with `prefix`, each once,
/// in byte order.
pub open spec fn sorted_matching_keys(m: Map<Seq<u8>, Seq<u8>>, prefix: Seq<u8>, out: Seq<Seq<u8>>) -> bool {
    &&& forall|a: int, b: int| 0 <= a < b < out.len() ==> lex_lt(#[trigger] out[a], #[trigger] out[b])
    &&& forall|a: int| 0 <= a < out.len() ==> m.contains_key(#[trigger] out[a]) && prefix.is_prefix_of(out[a])
    &&& forall|k: Seq<u8>| #[trigger] m.contains_key(k) && prefix.is_prefix_of(k) ==>
        exists|a: int| 0 <= a < out.len() && out[a] == k
}

/// Whether `k` starts with `prefix`.
pub fn starts_with(k: &[u8], prefix: &[u8]) -> (r: bool)
    ensures
        r == prefix@.is_prefix_of(k@),
{
    if prefix.len() > k.len() {
        return false;
    }
    let mut i: usize = 0;
    while i < prefix.len()
        invariant
            prefix@.len() <= k@.len(),
            i <= prefix@.len(),
            forall|j: int| 0 <= j < i ==> prefix@[j] == k@[j],
        decreases prefix@.len() - i,
    {
        if prefix[i] != k[i] {
            assert(prefix@[i as int] != k@.subrange(0, prefix@.len() as int)[i as int]);
            return false;
        }
        i = i + 1;
    }
    assert(prefix@ =~= k@.subrange(0, prefix@.len() as int));
    true
}

} // verus!
