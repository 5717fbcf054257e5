//! The line protocol that the network front end speaks: one command per
//! line, words separated by ASCII whitespace.
use vstd::prelude::*;
use crate::codec::{copy_range, push_all};
use crate::error::{StoreError, error_text};
use crate::manifest::{decimal, write_decimal};
use vstd::string::StringSliceAdditionalSpecFns;
use vstd::utf8::encode_utf8;

verus! {

pub open spec fn is_space(b: u8) -> bool {
    b == 32 || (9 <= b && b <= 13)
}

/// Length of the word at the head of `s`.
pub open spec fn word_len(s: Seq<u8>) -> nat
    decreases s.len(),
{
    if s.len() == 0 || is_space(s[0]) {
        0
    } else {
        1 + word_len(s.drop_first())
    }
}

/// The words of `s`, in order.
pub open spec fn words(s: Seq<u8>) -> Seq<Seq<u8>>
    decreases s.len(),
{
    if s.len() == 0 {
        Seq::empty()
    } else if is_space(s[0]) {
        words(s.drop_first())
    } else {
        let w = word_len(s);
        if 0 < w <= s.len() {
            seq![s.subrange(0, w as int)] + words(s.subrange(w as int, s.len() as int))
        } else {
            Seq::empty()
        }
    }
}

/// Words joined by single spaces.
pub open spec fn join(ws: Seq<Seq<u8>>) -> Seq<u8>
    decreases ws.len(),
{
    if ws.len() == 0 {
        Seq::empty()
    } else if ws.len() == 1 {
        ws[0]
    } else {
        join(ws.drop_last()) + seq![32u8] + ws.last()
    }
}

pub proof fn lemma_word_len(s: Seq<u8>)
    ensures
        word_len(s) <= s.len(),
        forall|j: int| 0 <= j < word_len(s) ==> !is_space(#[trigger] s[j]),
        word_len(s) < s.len() ==> is_space(s[word_len(s) as int]),
    decreases s.len(),
{
    if s.len() > 0 && !is_space(s[0]) {
        lemma_word_len(s.drop_first());
        assert forall|j: int| 0 <= j < word_len(s) implies !is_space(#[trigger] s[j]) by {
            if j > 0 {
                assert(s[j] == s.drop_first()[j - 1]);
            }
        }
    }
}

/// A word of `s` that starts at `from` and ends at `to`.
proof fn lemma_word_at(s: Seq<u8>, from: int, to: int)
    requires
        0 <= from < to <= s.len(),
        forall|j: int| from <= j < to ==> !is_space(#[trigger] s[j]),
        to == s.len() || is_space(s[to]),
    ensures
        word_len(s.subrange(from, s.len() as int)) == to - from,
    decreases to - from,
{
    let t = s.subrange(from, s.len() as int);
    assert(t.drop_first() =~= s.subrange(from + 1, s.len() as int));
    assert(t[0] == s[from]);
    assert(!is_space(t[0]));
    if from + 1 < to {
        lemma_word_at(s, from + 1, to);
    } else {
        let u = s.subrange(from + 1, s.len() as int);
        if u.len() > 0 {
            assert(u[0] == s[to]);
        }
        assert(word_len(u) == 0);
    }
}

/// The words of `line`, in order.
pub fn split_words(line: &[u8]) -> (r: Vec<Vec<u8>>)
    ensures
        r@.map_values(|w: Vec<u8>| w@) == words(line@),
{
    let n = line.len();
    let mut out: Vec<Vec<u8>> = Vec::new();
    let mut i: usize = 0;
    assert(line@.subrange(0, n as int) =~= line@);
    while i < n
        invariant
            n == line@.len(),
            i <= n,
            words(line@) == out@.map_values(|w: Vec<u8>| w@) + words(line@.subrange(i as int, n as int)),
        decreases n - i,
    {
        let ghost rest = line@.subrange(i as int, n as int);
        if line[i] == 32 || (9 <= line[i] && line[i] <= 13) {
            assert(rest.drop_first() =~= line@.subrange(i + 1, n as int));
            i = i + 1;
        } else {
            let start = i;
            while i < n && !(line[i] == 32 || (9 <= line[i] && line[i] <= 13))
                invariant
                    n == line@.len(),
                    start <= i <= n,
                    start < n,
                    !is_space(line@[start as int]),
                    forall|j: int| start <= j < i ==> !is_space(#[trigger] line@[j]),
                decreases n - i,
            {
                i = i + 1;
            }
            if i == start {
                i = i + 1;
            }
            proof {
                lemma_word_at(line@, start as int, i as int);
                assert(rest.subrange(0, (i - start) as int) =~= line@.subrange(start as int, i as int));
                assert(rest.subrange((i - start) as int, rest.len() as int) =~= line@.subrange(i as int, n as int));
            }
            let ghost before = out@.map_values(|w: Vec<u8>| w@);
            out.push(copy_range(line, start, i));
            assert(out@.map_values(|w: Vec<u8>| w@) =~= before.push(line@.subrange(start as int, i as int)));
        }
    }
    assert(out@.map_values(|w: Vec<u8>| w@) + words(line@.subrange(n as int, n as int))
        =~= out@.map_values(|w: Vec<u8>| w@));
    out
}


/// One line of the protocol.
pub enum Command {
    /// `SET key value...`: the value is the remaining words, joined by
    /// single spaces.
    SetKey { key: Vec<u8>, value: Vec<u8> },
    /// `GET key`
    GetKey { key: Vec<u8> },
    /// `DEL key`
    DelKey { key: Vec<u8> },
    /// `SCAN [prefix]`
    ScanKeys { prefix: Option<Vec<u8>> },
    /// `SNAPSHOT`
    TakeSnapshot,
    /// A line with no words, which gets no reply.
    Blank,
    /// Anything else.
    Invalid,
}

pub open spec fn kw_set() -> Seq<u8> {
    seq![83u8, 69, 84]
}

pub open spec fn kw_get() -> Seq<u8> {
    seq![71u8, 69, 84]
}

pub open spec fn kw_del() -> Seq<u8> {
    seq![68u8, 69, 76]
}

pub open spec fn kw_scan() -> Seq<u8> {
    seq![83u8, 67, 65, 78]
}

pub open spec fn kw_snapshot() -> Seq<u8> {
    seq![83u8, 78, 65, 80, 83, 72, 79, 84]
}

/// The command that the words `ws` of a line stand for.
pub open spec fn command_of(c: Command, ws: Seq<Seq<u8>>) -> bool {
    if ws.len() == 0 {
        c is Blank
    } else if ws[0] == kw_set() && ws.len() >= 3 {
        c matches Command::SetKey { key, value } && key@ == ws[1] && value@ == join(ws.subrange(2, ws.len() as int))
    } else if ws[0] == kw_get() && ws.len() >= 2 {
        c matches Command::GetKey { key } && key@ == ws[1]
    } else if ws[0] == kw_del() && ws.len() >= 2 {
        c matches Command::DelKey { key } && key@ == ws[1]
    } else if ws[0] == kw_scan() {
        c matches Command::ScanKeys { prefix } && if ws.len() >= 2 {
            prefix matches Some(p) && p@ == ws[1]
        } else {
            prefix is None
        }
    } else if ws[0] == kw_snapshot() {
        c is TakeSnapshot
    } else {
        c is Invalid
    }
}

/// Whether two byte strings are equal.
pub fn bytes_eq(a: &[u8], b: &[u8]) -> (r: bool)
    ensures
        r == (a@ == b@),
{
    if a.len() != b.len() {
        return false;
    }
    let mut i: usize = 0;
    while i < a.len()
        invariant
            a@.len() == b@.len(),
            i <= a@.len(),
            forall|j: int| 0 <= j < i ==> a@[j] == b@[j],
        decreases a@.len() - i,
    {
        if a[i] != b[i] {
            return false;
        }
        i = i + 1;
    }
    assert(a@ =~= b@);
    true
}

/// The words `ws[from..]` joined by single spaces.
fn join_from(ws: &Vec<Vec<u8>>, from: usize) -> (r: Vec<u8>)
    requires
        from < ws@.len(),
    ensures
        r@ == join(ws@.map_values(|w: Vec<u8>| w@).subrange(from as int, ws@.len() as int)),
{
    let ghost v = ws@.map_values(|w: Vec<u8>| w@);
    let mut out: Vec<u8> = Vec::new();
    crate::codec::push_all(&mut out, ws[from].as_slice());
    assert(v.subrange(from as int, from + 1) =~= seq![v[from as int]]);
    let n = ws.len();
    let mut i: usize = from + 1;
    while i < n
        invariant
            n == ws@.len(),
            v == ws@.map_values(|w: Vec<u8>| w@),
            from < i <= ws@.len(),
            out@ == join(v.subrange(from as int, i as int)),
        decreases ws@.len() - i,
    {
        out.push(32u8);
        crate::codec::push_all(&mut out, ws[i].as_slice());
        assert(v.subrange(from as int, i + 1).drop_last() =~= v.subrange(from as int, i as int));
        i = i + 1;
    }
    out
}

/// Reads one line of the protocol.
pub fn parse_command(line: &[u8]) -> (r: Command)
    ensures
        command_of(r, words(line@)),
{
    let ws = split_words(line);
    let ghost v = ws@.map_values(|w: Vec<u8>| w@);
    if ws.len() == 0 {
        return Command::Blank;
    }
    let set_kw: Vec<u8> = vec![83u8, 69, 84];
    let get_kw: Vec<u8> = vec![71u8, 69, 84];
    let del_kw: Vec<u8> = vec![68u8, 69, 76];
    let scan_kw: Vec<u8> = vec![83u8, 67, 65, 78];
    let snapshot_kw: Vec<u8> = vec![83u8, 78, 65, 80, 83, 72, 79, 84];
    assert(set_kw@ =~= kw_set());
    assert(get_kw@ =~= kw_get());
    assert(del_kw@ =~= kw_del());
    assert(scan_kw@ =~= kw_scan());
    assert(snapshot_kw@ =~= kw_snapshot());
    let head = ws[0].as_slice();
    assert(head@ == v[0]);
    if bytes_eq(head, set_kw.as_slice()) && ws.len() >= 3 {
        Command::SetKey { key: crate::codec::to_vec(ws[1].as_slice()), value: join_from(&ws, 2) }
    } else if bytes_eq(head, get_kw.as_slice()) && ws.len() >= 2 {
        Command::GetKey { key: crate::codec::to_vec(ws[1].as_slice()) }
    } else if bytes_eq(head, del_kw.as_slice()) && ws.len() >= 2 {
        Command::DelKey { key: crate::codec::to_vec(ws[1].as_slice()) }
    } else if bytes_eq(head, scan_kw.as_slice()) {
        if ws.len() >= 2 {
            Command::ScanKeys { prefix: Some(crate::codec::to_vec(ws[1].as_slice())) }
        } else {
            Command::ScanKeys { prefix: None }
        }
    } else if bytes_eq(head, snapshot_kw.as_slice()) {
        Command::TakeSnapshot
    } else {
        Command::Invalid
    }
}


/// The answer to one command.
pub enum Reply {
    /// A `SET` succeeded: `OK`.
    Stored,
    /// A `GET` found the value, which is sent as it is.
    Found(Vec<u8>),
    /// A `GET` found nothing: `(nil)`.
    Missing,
    /// A `DEL`: `1` where the key was there, `0` where not.
    Deleted(bool),
    /// A `SCAN`: one key per line, then `OK`.
    Keys(Vec<String>),
    /// A `SNAPSHOT`: `OK snapshot-` and its number, in at least four digits.
    SnapshotTaken(u64),
    /// A command that failed: `ERROR: ` and the error.
    Failed(StoreError),
    /// A line that is no command: `ERROR: invalid command`.
    Unknown,
}

pub open spec fn ok_line() -> Seq<u8> {
    seq![79u8, 75, 10]
}

/// `n` in decimal, with leading zeros up to `width` digits.
pub open spec fn padded(n: nat, width: nat) -> Seq<u8> {
    let d = decimal(n);
    if d.len() < width {
        Seq::new((width - d.len()) as nat, |i: int| 48u8) + d
    } else {
        d
    }
}

/// Each key, then a newline.
pub open spec fn key_lines(keys: Seq<String>) -> Seq<u8>
    decreases keys.len(),
{
    if keys.len() == 0 {
        Seq::empty()
    } else {
        key_lines(keys.drop_last()) + encode_utf8(keys.last()@) + seq![10u8]
    }
}

/// The bytes sent for a reply.
pub open spec fn reply_bytes(r: Reply) -> Seq<u8> {
    match r {
        Reply::Stored => ok_line(),
        Reply::Found(v) => v@ + seq![10u8],
        Reply::Missing => seq![40u8, 110, 105, 108, 41, 10],
        Reply::Deleted(existed) => if existed { seq![49u8, 10] } else { seq![48u8, 10] },
        Reply::Keys(keys) => key_lines(keys@) + ok_line(),
        Reply::SnapshotTaken(n) => seq![79u8, 75, 32, 115, 110, 97, 112, 115, 104, 111, 116, 45]
            + padded(n as nat, 4) + seq![10u8],
        Reply::Failed(e) => error_head() + encode_utf8(error_text(e)) + seq![10u8],
        Reply::Unknown => error_head() + invalid_command() + seq![10u8],
    }
}

pub open spec fn error_head() -> Seq<u8> {
    seq![69u8, 82, 82, 79, 82, 58, 32]
}

pub open spec fn invalid_command() -> Seq<u8> {
    seq![105u8, 110, 118, 97, 108, 105, 100, 32, 99, 111, 109, 109, 97, 110, 100]
}

fn push_error_head(out: &mut Vec<u8>)
    ensures
        final(out)@ == old(out)@ + error_head(),
{
    let head: Vec<u8> = vec![69u8, 82, 82, 79, 82, 58, 32];
    push_all(out, head.as_slice());
    assert(head@ =~= error_head());
}

/// The bytes to send for `reply`.
pub fn render_reply(reply: &Reply) -> (r: Vec<u8>)
    ensures
        r@ == reply_bytes(*reply),
{
    let mut out: Vec<u8> = Vec::new();
    match reply {
        Reply::Stored => {
            out.push(79u8);
            out.push(75u8);
            out.push(10u8);
        },
        Reply::Found(v) => {
            push_all(&mut out, v.as_slice());
            out.push(10u8);
        },
        Reply::Missing => {
            let nil: Vec<u8> = vec![40u8, 110, 105, 108, 41, 10];
            push_all(&mut out, nil.as_slice());
        },
        Reply::Deleted(existed) => {
            out.push(if *existed { 49u8 } else { 48u8 });
            out.push(10u8);
        },
        Reply::Keys(keys) => {
            let n = keys.len();
            let mut i: usize = 0;
            while i < n
                invariant
                    n == keys@.len(),
                    i <= n,
                    out@ == key_lines(keys@.subrange(0, i as int)),
                decreases n - i,
            {
                push_all(&mut out, keys[i].as_str().as_bytes());
                out.push(10u8);
                assert(keys@.subrange(0, i + 1).drop_last() =~= keys@.subrange(0, i as int));
                i = i + 1;
            }
            assert(keys@.subrange(0, n as int) =~= keys@);
            out.push(79u8);
            out.push(75u8);
            out.push(10u8);
        },
        Reply::SnapshotTaken(number) => {
            let head: Vec<u8> = vec![79u8, 75, 32, 115, 110, 97, 112, 115, 104, 111, 116, 45];
            push_all(&mut out, head.as_slice());
            let mut digits: Vec<u8> = Vec::new();
            write_decimal(&mut digits, *number);
            let mut z: usize = digits.len();
            while z < 4
                invariant
                    digits@ == decimal(*number as nat),
                    digits@.len() <= z <= 4 || (z == digits@.len()),
                    out@ == head@ + Seq::new((z - digits@.len()) as nat, |i: int| 48u8),
                decreases 4 - z,
            {
                out.push(48u8);
                z = z + 1;
                assert(out@ =~= head@ + Seq::new((z - digits@.len()) as nat, |i: int| 48u8));
            }
            push_all(&mut out, digits.as_slice());
            out.push(10u8);
            proof {
                let d = decimal(*number as nat);
                if d.len() >= 4 {
                    assert(Seq::new((z - digits@.len()) as nat, |i: int| 48u8) =~= Seq::<u8>::empty());
                }
            }
            assert(out@ =~= reply_bytes(*reply));
        },
        Reply::Failed(e) => {
            push_error_head(&mut out);
            let text = e.message();
            push_all(&mut out, text.as_str().as_bytes());
            out.push(10u8);
        },
        Reply::Unknown => {
            push_error_head(&mut out);
            let text: Vec<u8> = vec![105u8, 110, 118, 97, 108, 105, 100, 32, 99, 111, 109, 109, 97, 110, 100];
            push_all(&mut out, text.as_slice());
            out.push(10u8);
            assert(text@ =~= invalid_command());
        },
    }
    assert(out@ =~= reply_bytes(*reply));
    out
}

} // verus!
