//! The manifest, `number:snapshot_path:log_path` on one line, which names
//! the snapshot and the log that make up the current state; and the names
//! of snapshot files.
use vstd::prelude::*;
use vstd::utf8::{valid_utf8, decode_utf8, encode_utf8};
use vstd::string::StringSliceAdditionalSpecFns;
use crate::codec::{push_all, copy_range, utf8_to_string};
use crate::config::SnapshotMeta;
use crate::error::StoreError;

verus! {

/// The decimal digits of `n`, most significant first.
pub open spec fn decimal(n: nat) -> Seq<u8>
    decreases n,
{
    if n < 10 {
        seq![(48 + n) as u8]
    } else {
        decimal(n / 10) + seq![(48 + n % 10) as u8]
    }
}

pub open spec fn is_digit(b: u8) -> bool {
    48 <= b <= 57
}

/// The number that decimal digits stand for.
pub open spec fn digits_value(s: Seq<u8>) -> nat
    decreases s.len(),
{
    if s.len() == 0 {
        0
    } else {
        digits_value(s.drop_last()) * 10 + (s.last() - 48) as nat
    }
}

/// One or more digits.
pub open spec fn all_digits(s: Seq<u8>) -> bool {
    s.len() > 0 && forall|i: int| 0 <= i < s.len() ==> is_digit(#[trigger] s[i])
}

pub proof fn lemma_decimal(n: nat)
    ensures
        all_digits(decimal(n)),
        digits_value(decimal(n)) == n,
    decreases n,
{
    if n >= 10 {
        lemma_decimal(n / 10);
        let d = decimal(n);
        assert(d.drop_last() =~= decimal(n / 10));
        vstd::arithmetic::div_mod::lemma_fundamental_div_mod(n as int, 10);
        assert(d.last() == (48 + n % 10) as u8);
        assert(digits_value(d) == digits_value(decimal(n / 10)) * 10 + n % 10);
        assert forall|i: int| 0 <= i < d.len() implies is_digit(#[trigger] d[i]) by {
            if i < d.len() - 1 {
                assert(d[i] == decimal(n / 10)[i]);
            }
        }
    } else {
        assert(decimal(n).drop_last() =~= Seq::<u8>::empty());
        assert(digits_value(decimal(n)) == digits_value(Seq::<u8>::empty()) * 10 + n);
    }
}

/// Appends the decimal digits of `n` to `out`.
pub fn write_decimal(out: &mut Vec<u8>, n: u64)
    ensures
        final(out)@ == old(out)@ + decimal(n as nat),
    decreases n,
{
    if n >= 10 {
        write_decimal(out, n / 10);
    }
    out.push((48 + n % 10) as u8);
    assert(final(out)@ =~= old(out)@ + decimal(n as nat));
}

proof fn lemma_digits_grow(s: Seq<u8>, k: int)
    requires
        0 <= k <= s.len(),
        forall|i: int| 0 <= i < s.len() ==> is_digit(#[trigger] s[i]),
    ensures
        digits_value(s) >= digits_value(s.subrange(0, k)),
    decreases s.len(),
{
    if k < s.len() {
        let f = s.drop_last();
        assert forall|i: int| 0 <= i < f.len() implies is_digit(#[trigger] f[i]) by {
            assert(f[i] == s[i]);
        }
        lemma_digits_grow(f, k);
        assert(f.subrange(0, k) =~= s.subrange(0, k));
    } else {
        assert(s.subrange(0, k) =~= s);
    }
}

/// Reads a decimal number: `None` where `s` is empty, holds a non-digit, or
/// stands for a number beyond `u64`.
pub fn parse_decimal(s: &[u8]) -> (r: Option<u64>)
    ensures
        r is Some <==> all_digits(s@) && digits_value(s@) <= u64::MAX,
        r matches Some(v) ==> v == digits_value(s@),
{
    let n = s.len();
    if n == 0 {
        return None;
    }
    let mut acc: u64 = 0;
    let mut i: usize = 0;
    while i < n
        invariant
            n == s@.len(),
            i <= n,
            forall|j: int| 0 <= j < i ==> is_digit(#[trigger] s@[j]),
            acc == digits_value(s@.subrange(0, i as int)),
        decreases n - i,
    {
        let b = s[i];
        if b < 48 || b > 57 {
            assert(!is_digit(s@[i as int]));
            return None;
        }
        let d = (b - 48) as u64;
        assert(s@.subrange(0, i + 1).drop_last() =~= s@.subrange(0, i as int));
        if acc > (u64::MAX - d) / 10 {
            proof {
                assert(acc * 10 + d > u64::MAX) by (nonlinear_arith)
                    requires acc > (u64::MAX - d) / 10, d <= 9;
                if all_digits(s@) {
                    lemma_digits_grow(s@, i + 1);
                }
            }
            return None;
        }
        assert(acc * 10 + d <= u64::MAX) by (nonlinear_arith)
            requires acc <= (u64::MAX - d) / 10, d <= 9;
        acc = acc * 10 + d;
        i = i + 1;
    }
    assert(s@.subrange(0, n as int) =~= s@);
    Some(acc)
}

/// The bytes of a path as the manifest holds it.
pub open spec fn path_bytes(p: Seq<char>) -> Seq<u8> {
    encode_utf8(p)
}

/// The manifest line that publishes `meta`.
pub open spec fn manifest_bytes(number: nat, snapshot_path: Seq<char>, log_path: Seq<char>) -> Seq<u8> {
    decimal(number) + seq![58u8] + path_bytes(snapshot_path) + seq![58u8] + path_bytes(log_path) + seq![10u8]
}

/// Writes the manifest line for `meta`. A path that holds a colon or a
/// byte other than printable ASCII cannot stand in the line and is refused.
pub fn format_manifest(meta: &SnapshotMeta) -> (r: Result<Vec<u8>, StoreError>)
    ensures
        r is Ok <==> path_ok(meta.snapshot_path@) && path_ok(meta.log_path@),
        r matches Err(e) ==> e is InvalidInput,
        r matches Ok(v) ==> v@ == manifest_bytes(meta.snapshot_number as nat, meta.snapshot_path@, meta.log_path@),
{
    let sp = meta.snapshot_path.as_str().as_bytes();
    let lp = meta.log_path.as_str().as_bytes();
    if !path_fits(sp) || !path_fits(lp) {
        return Err(StoreError::InvalidInput { msg: "path cannot stand in the manifest".to_string() });
    }
    let mut out: Vec<u8> = Vec::new();
    write_decimal(&mut out, meta.snapshot_number);
    out.push(58u8);
    push_all(&mut out, sp);
    out.push(58u8);
    push_all(&mut out, lp);
    out.push(10u8);
    assert(out@ =~= manifest_bytes(meta.snapshot_number as nat, meta.snapshot_path@, meta.log_path@));
    Ok(out)
}

/// Position of the first byte `c` in `s`, if any.
pub open spec fn find_byte(s: Seq<u8>, c: u8) -> Option<nat>
    decreases s.len(),
{
    if s.len() == 0 {
        None
    } else if s[0] == c {
        Some(0)
    } else {
        match find_byte(s.drop_first(), c) {
            Some(i) => Some(i + 1),
            None => None,
        }
    }
}

proof fn lemma_find_byte(s: Seq<u8>, c: u8)
    ensures
        find_byte(s, c) matches Some(i) ==> i < s.len() && s[i as int] == c
            && forall|j: int| 0 <= j < i ==> s[j] != c,
        find_byte(s, c) is None ==> forall|j: int| 0 <= j < s.len() ==> s[j] != c,
    decreases s.len(),
{
    if s.len() > 0 {
        lemma_find_byte(s.drop_first(), c);
        assert forall|j: int| 0 < j < s.len() implies s[j] == s.drop_first()[j - 1] by {}
    }
}

/// Finds the first byte `c` of `s[from..]`.
fn find_from(s: &[u8], from: usize, c: u8) -> (r: Option<usize>)
    requires
        from <= s@.len(),
    ensures
        r matches Some(i) ==> find_byte(s@.subrange(from as int, s@.len() as int), c) == Some((i - from) as nat)
            && from <= i < s@.len(),
        r is None ==> find_byte(s@.subrange(from as int, s@.len() as int), c) is None,
{
    let n = s.len();
    let mut i = from;
    while i < n
        invariant
            n == s@.len(),
            from <= i <= n,
            forall|j: int| from <= j < i ==> s@[j] != c,
        decreases n - i,
    {
        if s[i] == c {
            proof { lemma_find_first(s@, from as int, i as int, c); }
            return Some(i);
        }
        i = i + 1;
    }
    proof { lemma_find_none(s@, from as int, c); }
    None
}

proof fn lemma_find_first(s: Seq<u8>, from: int, i: int, c: u8)
    requires
        0 <= from <= i < s.len(),
        s[i] == c,
        forall|j: int| from <= j < i ==> s[j] != c,
    ensures
        find_byte(s.subrange(from, s.len() as int), c) == Some((i - from) as nat),
    decreases i - from,
{
    let t = s.subrange(from, s.len() as int);
    assert(t.drop_first() =~= s.subrange(from + 1, s.len() as int));
    if from < i {
        lemma_find_first(s, from + 1, i, c);
    }
}

proof fn lemma_find_none(s: Seq<u8>, from: int, c: u8)
    requires
        0 <= from <= s.len(),
        forall|j: int| from <= j < s.len() ==> s[j] != c,
    ensures
        find_byte(s.subrange(from, s.len() as int), c) is None,
    decreases s.len() - from,
{
    let t = s.subrange(from, s.len() as int);
    if from < s.len() {
        assert(t.drop_first() =~= s.subrange(from + 1, s.len() as int));
        lemma_find_none(s, from + 1, c);
    }
}

/// The manifest's line: its bytes less one trailing newline.
pub open spec fn manifest_line(b: Seq<u8>) -> Seq<u8> {
    if b.len() > 0 && b.last() == 10 { b.drop_last() } else { b }
}

/// The three colon-separated fields of a line, where it has exactly three.
pub open spec fn fields(line: Seq<u8>) -> Option<(Seq<u8>, Seq<u8>, Seq<u8>)> {
    match find_byte(line, 58) {
        None => None,
        Some(i) => {
            let rest = line.subrange(i + 1 as int, line.len() as int);
            match find_byte(rest, 58) {
                None => None,
                Some(j) => {
                    let last = rest.subrange(j + 1 as int, rest.len() as int);
                    if find_byte(last, 58) is Some {
                        None
                    } else {
                        Some((line.subrange(0, i as int), rest.subrange(0, j as int), last))
                    }
                },
            }
        },
    }
}

/// A byte of printable ASCII: no control byte such as a line break.
pub open spec fn printable(b: u8) -> bool {
    32 <= b <= 126
}

/// Every byte of `s` is printable ASCII, so `s` is one line.
pub open spec fn printable_line(s: Seq<u8>) -> bool {
    forall|i: int| 0 <= i < s.len() ==> printable(#[trigger] s[i])
}

/// Whether a path can stand in a manifest: printable ASCII, no colon.
pub open spec fn path_ok(p: Seq<char>) -> bool {
    printable_line(path_bytes(p)) && !path_bytes(p).contains(58u8)
}

/// Whether `b` is a well-formed manifest: one line of printable ASCII,
/// ended by at most one newline, with exactly three colon-separated fields
/// of which the first is a number that fits in `u64`.
pub open spec fn manifest_ok(b: Seq<u8>) -> bool {
    &&& printable_line(manifest_line(b))
    &&& fields(manifest_line(b)) matches Some((n, s, l)) && all_digits(n)
        && digits_value(n) <= u64::MAX && valid_utf8(s) && valid_utf8(l)
}

/// Whether every byte of `s` is printable ASCII.
pub fn is_printable_line(s: &[u8]) -> (r: bool)
    ensures
        r == printable_line(s@),
{
    let mut i: usize = 0;
    while i < s.len()
        invariant
            i <= s@.len(),
            forall|j: int| 0 <= j < i ==> printable(#[trigger] s@[j]),
        decreases s@.len() - i,
    {
        if s[i] < 32 || s[i] > 126 {
            assert(!printable(s@[i as int]));
            return false;
        }
        i = i + 1;
    }
    true
}

/// Whether the path bytes `b` can stand in a manifest.
fn path_fits(b: &[u8]) -> (r: bool)
    ensures
        r == (printable_line(b@) && !b@.contains(58u8)),
{
    if !is_printable_line(b) {
        return false;
    }
    assert(b@.subrange(0, b@.len() as int) =~= b@);
    proof { lemma_find_byte(b@, 58u8); }
    match find_from(b, 0, 58) {
        Some(i) => {
            assert(b@[i as int] == 58u8);
            false
        },
        None => true,
    }
}

fn malformed() -> (e: StoreError)
    ensures
        e is CorruptLog,
{
    StoreError::CorruptLog { msg: "malformed manifest".to_string() }
}

/// Positions of the two colons of a line with exactly three fields.
fn colons(l: &[u8]) -> (r: Option<(usize, usize)>)
    ensures
        r is Some <==> fields(l@) is Some,
        r matches Some((i, j)) ==> i < j < l@.len() && fields(l@) == Some((
            l@.subrange(0, i as int),
            l@.subrange(i + 1, j as int),
            l@.subrange(j + 1, l@.len() as int),
        )),
{
    let len = l.len();
    assert(l@.subrange(0, len as int) =~= l@);
    let i = match find_from(l, 0, 58) {
        Some(i) => i,
        None => return None,
    };
    let ghost rest = l@.subrange(i + 1, l@.len() as int);
    let j = match find_from(l, i + 1, 58) {
        Some(j) => j,
        None => return None,
    };
    let ghost last = rest.subrange((j - i) as int, rest.len() as int);
    assert(last =~= l@.subrange(j + 1, l@.len() as int));
    assert(rest.subrange(0, (j - i - 1) as int) =~= l@.subrange(i + 1, j as int));
    match find_from(l, j + 1, 58) {
        Some(_) => None,
        None => Some((i, j)),
    }
}

/// Reads a manifest. Anything but one line of printable ASCII with exactly
/// three colon-separated fields, the first a number that fits in `u64`, is
/// corrupt.
pub fn parse_manifest(b: &[u8]) -> (r: Result<SnapshotMeta, StoreError>)
    ensures
        r is Ok <==> manifest_ok(b@),
        r matches Err(e) ==> e is CorruptLog,
        r matches Ok(meta) ==> fields(manifest_line(b@)) matches Some((n, s, l))
            && meta.snapshot_number == digits_value(n)
            && meta.snapshot_path@ == decode_utf8(s)
            && meta.log_path@ == decode_utf8(l),
{
    let mut end = b.len();
    if end > 0 && b[end - 1] == 10 {
        end = end - 1;
    }
    let line = copy_range(b, 0, end);
    assert(line@ =~= manifest_line(b@));
    let l = line.as_slice();
    if !is_printable_line(l) {
        return Err(malformed());
    }
    let (i, j) = match colons(l) {
        Some(p) => p,
        None => return Err(malformed()),
    };
    let number = match parse_decimal(copy_range(l, 0, i).as_slice()) {
        Some(v) => v,
        None => return Err(malformed()),
    };
    let snapshot_path = match utf8_to_string(copy_range(l, i + 1, j)) {
        Some(s) => s,
        None => return Err(malformed()),
    };
    let log_path = match utf8_to_string(copy_range(l, j + 1, l.len())) {
        Some(s) => s,
        None => return Err(malformed()),
    };
    Ok(SnapshotMeta { snapshot_number: number, snapshot_path, log_path })
}

proof fn lemma_find_after(a: Seq<u8>, c: u8, b: Seq<u8>)
    requires
        !a.contains(c),
    ensures
        find_byte(a + seq![c] + b, c) == Some(a.len()),
    decreases a.len(),
{
    let s = a + seq![c] + b;
    if a.len() > 0 {
        assert(a[0] != c) by {
            if a[0] == c {
                assert(a.contains(c));
            }
        }
        let a1 = a.drop_first();
        assert(!a1.contains(c)) by {
            if a1.contains(c) {
                let k = choose|k: int| 0 <= k < a1.len() && a1[k] == c;
                assert(a[k + 1] == c);
            }
        }
        lemma_find_after(a1, c, b);
        assert(s.drop_first() =~= a1 + seq![c] + b);
    }
}

proof fn lemma_find_absent(a: Seq<u8>, c: u8)
    requires
        !a.contains(c),
    ensures
        find_byte(a, c) is None,
{
    lemma_find_byte(a, c);
    if find_byte(a, c) is Some {
        let i = find_byte(a, c)->0;
        assert(a[i as int] == c);
    }
}

/// A manifest written for a snapshot number and two paths that can stand
/// in it reads back as that number and those paths.
pub proof fn lemma_manifest_round_trip(number: u64, snapshot_path: Seq<char>, log_path: Seq<char>)
    requires
        path_ok(snapshot_path),
        path_ok(log_path),
    ensures
        manifest_ok(manifest_bytes(number as nat, snapshot_path, log_path)),
        fields(manifest_line(manifest_bytes(number as nat, snapshot_path, log_path)))
            == Some((decimal(number as nat), path_bytes(snapshot_path), path_bytes(log_path))),
        digits_value(decimal(number as nat)) == number,
        decode_utf8(path_bytes(snapshot_path)) == snapshot_path,
        decode_utf8(path_bytes(log_path)) == log_path,
{
    let d = decimal(number as nat);
    let sp = path_bytes(snapshot_path);
    let lp = path_bytes(log_path);
    let b = manifest_bytes(number as nat, snapshot_path, log_path);
    lemma_decimal(number as nat);
    assert(!d.contains(58u8)) by {
        if d.contains(58u8) {
            let k = choose|k: int| 0 <= k < d.len() && d[k] == 58u8;
            assert(is_digit(d[k]));
        }
    }
    let line = d + seq![58u8] + (sp + seq![58u8] + lp);
    assert(manifest_line(b) =~= line);
    assert forall|i: int| 0 <= i < line.len() implies printable(#[trigger] line[i]) by {
        if i < d.len() {
            assert(is_digit(d[i]));
        } else if d.len() < i < d.len() + 1 + sp.len() {
            assert(line[i] == sp[i - d.len() - 1]);
        } else if d.len() + 1 + sp.len() < i {
            assert(line[i] == lp[i - d.len() - 2 - sp.len()]);
        }
    }
    lemma_find_after(d, 58u8, sp + seq![58u8] + lp);
    let rest = line.subrange(d.len() + 1 as int, line.len() as int);
    assert(rest =~= sp + seq![58u8] + lp);
    lemma_find_after(sp, 58u8, lp);
    assert(rest.subrange(sp.len() + 1 as int, rest.len() as int) =~= lp);
    lemma_find_absent(lp, 58u8);
    assert(line.subrange(0, d.len() as int) =~= d);
    assert(rest.subrange(0, sp.len() as int) =~= sp);
    vstd::utf8::encode_utf8_valid_utf8(snapshot_path);
    vstd::utf8::encode_utf8_valid_utf8(log_path);
    vstd::utf8::encode_utf8_decode_utf8(snapshot_path);
    vstd::utf8::encode_utf8_decode_utf8(log_path);
}

/// The name of snapshot file number `n`: `snapshot-<n>.snap`.
pub open spec fn snapshot_name(n: nat) -> Seq<u8> {
    name_head() + decimal(n) + name_tail()
}

pub open spec fn name_head() -> Seq<u8> {
    seq![115u8, 110, 97, 112, 115, 104, 111, 116, 45]
}

pub open spec fn name_tail() -> Seq<u8> {
    seq![46u8, 115, 110, 97, 112]
}

/// The snapshot number that a file name carries, if it names a snapshot.
pub open spec fn number_in_name(name: Seq<u8>) -> Option<nat> {
    if name.len() >= 14 && name.subrange(0, 9) == name_head()
        && name.subrange(name.len() - 5, name.len() as int) == name_tail()
        && all_digits(name.subrange(9, name.len() - 5)) {
        Some(digits_value(name.subrange(9, name.len() - 5)))
    } else {
        None
    }
}

/// The file name of snapshot number `n`.
pub fn snapshot_file_name(n: u64) -> (r: Vec<u8>)
    ensures
        r@ == snapshot_name(n as nat),
{
    let mut out: Vec<u8> = vec![115u8, 110, 97, 112, 115, 104, 111, 116, 45];
    write_decimal(&mut out, n);
    out.push(46u8);
    out.push(115u8);
    out.push(110u8);
    out.push(97u8);
    out.push(112u8);
    assert(out@ =~= snapshot_name(n as nat));
    out
}

/// Whether `name` is a snapshot file that a snapshot numbered `current`
/// supersedes, that is, one with a smaller number.
pub fn is_superseded(name: &[u8], current: u64) -> (r: bool)
    ensures
        r == (number_in_name(name@) matches Some(k) && k < current),
{
    let n = name.len();
    if n < 14 {
        return false;
    }
    let head: Vec<u8> = vec![115u8, 110, 97, 112, 115, 104, 111, 116, 45];
    let tail: Vec<u8> = vec![46u8, 115, 110, 97, 112];
    assert(head@ =~= name_head());
    assert(tail@ =~= name_tail());
    let h = copy_range(name, 0, 9);
    let t = copy_range(name, n - 5, n);
    if !crate::protocol::bytes_eq(h.as_slice(), head.as_slice())
        || !crate::protocol::bytes_eq(t.as_slice(), tail.as_slice()) {
        return false;
    }
    let mid = copy_range(name, 9, n - 5);
    match parse_decimal(mid.as_slice()) {
        Some(k) => k < current,
        None => {
            proof {
                if all_digits(mid@) {
                    assert(digits_value(mid@) > u64::MAX);
                }
            }
            false
        },
    }
}

} // verus!
