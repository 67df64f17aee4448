//! The on-disk record format and its verified codec.
//!
//! A record is five `key = value` lines in fixed order: `checkpoint_id`,
//! `pid`, `cmd`, `tag`, `dump_time`. The pid is a bare decimal integer;
//! every other value is text in which a backslash and a newline are
//! escaped, so any command line round-trips exactly.

use vstd::prelude::*;

use crate::errors::StoreError;
use crate::num::int_rep;
use crate::num::is_digit;
use crate::num::push_i32;
use crate::num::scan_int;
use crate::num::scan_int_exec;
use crate::record::CheckpointMeta;
use crate::record::RecordView;
use crate::text::push_char;

verus! {

/// How one character is written inside a value: backslash and newline are
/// escaped, everything else stands for itself.
pub open spec fn esc_char(c: char) -> Seq<char> {
    if c == '\\' {
        seq!['\\', '\\']
    } else if c == '\n' {
        seq!['\\', 'n']
    } else {
        seq![c]
    }
}

/// The escaped form of a value.
pub open spec fn escape(v: Seq<char>) -> Seq<char>
    decreases v.len(),
{
    if v.len() == 0 {
        Seq::empty()
    } else {
        esc_char(v[0]) + escape(v.drop_first())
    }
}

pub proof fn lemma_escape_app(a: Seq<char>, b: Seq<char>)
    ensures
        escape(a + b) == escape(a) + escape(b),
    decreases a.len(),
{
    if a.len() == 0 {
        assert(a + b =~= b);
        assert(escape(a) + escape(b) =~= escape(b));
    } else {
        assert((a + b).drop_first() =~= a.drop_first() + b);
        assert((a + b)[0] == a[0]);
        lemma_escape_app(a.drop_first(), b);
        assert(escape(a + b) =~= escape(a) + escape(b));
    }
}

/// Prepends a character to the value of a successful scan.
pub open spec fn scan_cons(c: char, r: Option<(Seq<char>, int)>) -> Option<(Seq<char>, int)> {
    match r {
        Some(p) => Some((seq![c] + p.0, p.1)),
        None => None,
    }
}

/// Scans an escaped value starting at `i`, up to and including its
/// terminating newline; yields the unescaped value and the position just
/// past the newline.
pub open spec fn scan_value(s: Seq<char>, i: int) -> Option<(Seq<char>, int)>
    decreases s.len() - i when 0 <= i <= s.len()
{
    if i == s.len() {
        None
    } else if s[i] == '\n' {
        Some((Seq::empty(), i + 1))
    } else if s[i] == '\\' {
        if i + 1 == s.len() {
            None
        } else if s[i + 1] == '\\' {
            scan_cons('\\', scan_value(s, i + 2))
        } else if s[i + 1] == 'n' {
            scan_cons('\n', scan_value(s, i + 2))
        } else {
            None
        }
    } else {
        scan_cons(s[i], scan_value(s, i + 1))
    }
}

/// Scanning reads back exactly the value whose escaped form it was given.
pub proof fn lemma_scan_value_at(p: Seq<char>, v: Seq<char>, rest: Seq<char>)
    ensures
        scan_value(p + escape(v) + seq!['\n'] + rest, p.len() as int) == Some(
            (v, p.len() + escape(v).len() as int + 1),
        ),
    decreases v.len(),
{
    let s = p + escape(v) + seq!['\n'] + rest;
    let i = p.len() as int;
    if v.len() == 0 {
        assert(escape(v).len() == 0);
        assert(s[i] == '\n');
        assert(scan_value(s, i) == Some((Seq::<char>::empty(), i + 1)));
        assert(v =~= Seq::<char>::empty());
    } else {
        let c = v[0];
        let v2 = v.drop_first();
        assert(escape(v) == esc_char(c) + escape(v2));
        let p2 = p + esc_char(c);
        assert(s =~= p2 + escape(v2) + seq!['\n'] + rest);
        lemma_scan_value_at(p2, v2, rest);
        if c == '\\' {
            assert(s[i] == '\\');
            assert(s[i + 1] == '\\');
            assert(p2.len() == i + 2);
            assert(scan_value(s, i) == scan_cons('\\', scan_value(s, i + 2)));
            assert(seq!['\\'] + v2 =~= v);
        } else if c == '\n' {
            assert(s[i] == '\\');
            assert(s[i + 1] == 'n');
            assert(p2.len() == i + 2);
            assert(scan_value(s, i) == scan_cons('\n', scan_value(s, i + 2)));
            assert(seq!['\n'] + v2 =~= v);
        } else {
            assert(s[i] == c);
            assert(p2.len() == i + 1);
            assert(scan_value(s, i) == scan_cons(c, scan_value(s, i + 1)));
            assert(seq![c] + v2 =~= v);
        }
    }
}

/// What a successful scan consumed is exactly the escaped form of the
/// value it returned, newline included.
pub proof fn lemma_scan_value_sound(s: Seq<char>, i: int, v: Seq<char>, j: int)
    requires
        0 <= i <= s.len(),
        scan_value(s, i) == Some((v, j)),
    ensures
        i < j <= s.len(),
        s.subrange(i, j) == escape(v) + seq!['\n'],
    decreases s.len() - i,
{
    if s[i] == '\n' {
        assert(v =~= Seq::<char>::empty());
        assert(s.subrange(i, j) =~= seq!['\n']);
        assert(escape(v) + seq!['\n'] =~= seq!['\n']);
    } else if s[i] == '\\' {
        if s[i + 1] == '\\' {
            let r2 = scan_value(s, i + 2);
            let v2 = r2->Some_0.0;
            lemma_scan_value_sound(s, i + 2, v2, j);
            assert(v == seq!['\\'] + v2);
            assert(v[0] == '\\');
            assert(v.drop_first() =~= v2);
            assert(escape(v) == esc_char('\\') + escape(v2));
            assert(s.subrange(i + 2, j) == escape(v2) + seq!['\n']);
            assert(s.subrange(i + 2, j).len() == j - i - 2);
            assert(escape(v2).len() + 1 == j - i - 2);
            assert(escape(v).len() == 2 + escape(v2).len());
            assert(s.subrange(i, j).len() == (escape(v) + seq!['\n']).len());
            assert forall|t: int| 0 <= t < j - i implies s.subrange(i, j)[t] == (escape(v)
                + seq!['\n'])[t] by {
                if t == 0 {
                    assert((escape(v) + seq!['\n'])[0] == escape(v)[0]);
                } else if t == 1 {
                    assert((escape(v) + seq!['\n'])[1] == escape(v)[1]);
                } else {
                    assert(s.subrange(i, j)[t] == s[i + t]);
                    assert(s[i + t] == s.subrange(i + 2, j)[t - 2]);
                    assert(s.subrange(i + 2, j)[t - 2] == (escape(v2) + seq!['\n'])[t - 2]);
                    if t - 2 < escape(v2).len() {
                        assert((escape(v2) + seq!['\n'])[t - 2] == escape(v2)[t - 2]);
                        assert(escape(v)[t] == escape(v2)[t - 2]);
                        assert((escape(v) + seq!['\n'])[t] == escape(v)[t]);
                    } else {
                        assert((escape(v2) + seq!['\n'])[t - 2] == '\n');
                        assert((escape(v) + seq!['\n'])[t] == '\n');
                    }
                }
            }
            assert(s.subrange(i, j) =~= escape(v) + seq!['\n']);
        } else {
            let r2 = scan_value(s, i + 2);
            let v2 = r2->Some_0.0;
            lemma_scan_value_sound(s, i + 2, v2, j);
            assert(v == seq!['\n'] + v2);
            assert(v[0] == '\n');
            assert(v.drop_first() =~= v2);
            assert(escape(v) == esc_char('\n') + escape(v2));
            assert(s.subrange(i + 2, j) == escape(v2) + seq!['\n']);
            assert(s.subrange(i + 2, j).len() == j - i - 2);
            assert(escape(v2).len() + 1 == j - i - 2);
            assert(escape(v).len() == 2 + escape(v2).len());
            assert(s.subrange(i, j).len() == (escape(v) + seq!['\n']).len());
            assert forall|t: int| 0 <= t < j - i implies s.subrange(i, j)[t] == (escape(v)
                + seq!['\n'])[t] by {
                if t == 0 {
                    assert((escape(v) + seq!['\n'])[0] == escape(v)[0]);
                } else if t == 1 {
                    assert((escape(v) + seq!['\n'])[1] == escape(v)[1]);
                } else {
                    assert(s.subrange(i, j)[t] == s[i + t]);
                    assert(s[i + t] == s.subrange(i + 2, j)[t - 2]);
                    assert(s.subrange(i + 2, j)[t - 2] == (escape(v2) + seq!['\n'])[t - 2]);
                    if t - 2 < escape(v2).len() {
                        assert((escape(v2) + seq!['\n'])[t - 2] == escape(v2)[t - 2]);
                        assert(escape(v)[t] == escape(v2)[t - 2]);
                        assert((escape(v) + seq!['\n'])[t] == escape(v)[t]);
                    } else {
                        assert((escape(v2) + seq!['\n'])[t - 2] == '\n');
                        assert((escape(v) + seq!['\n'])[t] == '\n');
                    }
                }
            }
            assert(s.subrange(i, j) =~= escape(v) + seq!['\n']);
        }
    } else {
        let c = s[i];
        let r2 = scan_value(s, i + 1);
        let v2 = r2->Some_0.0;
        lemma_scan_value_sound(s, i + 1, v2, j);
        assert(v == seq![c] + v2);
        assert(v[0] == c);
        assert(v.drop_first() =~= v2);
        assert(escape(v) == esc_char(c) + escape(v2));
        assert(s.subrange(i + 1, j) == escape(v2) + seq!['\n']);
        assert(s.subrange(i + 1, j).len() == j - i - 1);
        assert(escape(v2).len() + 1 == j - i - 1);
        assert(escape(v).len() == 1 + escape(v2).len());
        assert(s.subrange(i, j).len() == (escape(v) + seq!['\n']).len());
        assert forall|t: int| 0 <= t < j - i implies s.subrange(i, j)[t] == (escape(v)
            + seq!['\n'])[t] by {
            if t == 0 {
                assert((escape(v) + seq!['\n'])[0] == escape(v)[0]);
            } else {
                assert(s.subrange(i, j)[t] == s[i + t]);
                assert(s[i + t] == s.subrange(i + 1, j)[t - 1]);
                assert(s.subrange(i + 1, j)[t - 1] == (escape(v2) + seq!['\n'])[t - 1]);
                if t - 1 < escape(v2).len() {
                    assert((escape(v2) + seq!['\n'])[t - 1] == escape(v2)[t - 1]);
                    assert(escape(v)[t] == escape(v2)[t - 1]);
                    assert((escape(v) + seq!['\n'])[t] == escape(v)[t]);
                } else {
                    assert((escape(v2) + seq!['\n'])[t - 1] == '\n');
                    assert((escape(v) + seq!['\n'])[t] == '\n');
                }
            }
        }
        assert(s.subrange(i, j) =~= escape(v) + seq!['\n']);
    }
}

/// Position just past `k` when `s` carries exactly `k` at `i`.
pub open spec fn expect(s: Seq<char>, i: int, k: Seq<char>) -> Option<int> {
    if 0 <= i && i + k.len() <= s.len() && s.subrange(i, i + k.len() as int) == k {
        Some(i + k.len() as int)
    } else {
        None
    }
}

/// Position just past a newline standing at `i`.
pub open spec fn expect_nl(s: Seq<char>, i: int) -> Option<int> {
    if 0 <= i < s.len() && s[i] == '\n' {
        Some(i + 1)
    } else {
        None
    }
}

pub proof fn lemma_expect_at(p: Seq<char>, k: Seq<char>, rest: Seq<char>)
    ensures
        expect(p + k + rest, p.len() as int, k) == Some(p.len() + k.len() as int),
{
    let s = p + k + rest;
    let i = p.len() as int;
    assert forall|t: int| 0 <= t < k.len() implies s.subrange(i, i + k.len() as int)[t]
        == k[t] by {
        assert(s.subrange(i, i + k.len() as int)[t] == s[i + t]);
        assert(s[i + t] == (p + k)[i + t]);
    }
    assert(s.subrange(i, i + k.len() as int) =~= k);
}

/// One `key = text` line, newline included.
pub open spec fn text_line(k: Seq<char>, v: Seq<char>) -> Seq<char> {
    k + escape(v) + seq!['\n']
}

/// The `pid` line: key, bare decimal integer, newline.
pub open spec fn int_line(k: Seq<char>, pv: int) -> Seq<char> {
    k + int_rep(pv) + seq!['\n']
}

pub proof fn lemma_text_line_at(p: Seq<char>, k: Seq<char>, v: Seq<char>, rest: Seq<char>)
    ensures
        expect(p + text_line(k, v) + rest, p.len() as int, k) == Some(p.len() + k.len() as int),
        scan_value(p + text_line(k, v) + rest, p.len() + k.len() as int) == Some(
            (v, p.len() + text_line(k, v).len() as int),
        ),
{
    let s = p + text_line(k, v) + rest;
    let p2 = p + k;
    assert(s =~= p + k + (escape(v) + seq!['\n'] + rest));
    lemma_expect_at(p, k, escape(v) + seq!['\n'] + rest);
    assert(s =~= p2 + escape(v) + seq!['\n'] + rest);
    lemma_scan_value_at(p2, v, rest);
}

pub proof fn lemma_int_line_at(p: Seq<char>, k: Seq<char>, pv: int, rest: Seq<char>)
    requires
        i32::MIN <= pv <= i32::MAX,
    ensures
        expect(p + int_line(k, pv) + rest, p.len() as int, k) == Some(p.len() + k.len() as int),
        scan_int(p + int_line(k, pv) + rest, p.len() + k.len() as int) == Some(
            (pv, p.len() + k.len() + int_rep(pv).len() as int),
        ),
        expect_nl(p + int_line(k, pv) + rest, p.len() + k.len() + int_rep(pv).len() as int)
            == Some(p.len() + int_line(k, pv).len() as int),
{
    let s = p + int_line(k, pv) + rest;
    let p2 = p + k;
    assert(s =~= p + k + (int_rep(pv) + seq!['\n'] + rest));
    lemma_expect_at(p, k, int_rep(pv) + seq!['\n'] + rest);
    assert(s =~= p2 + int_rep(pv) + (seq!['\n'] + rest));
    let nl_rest = seq!['\n'] + rest;
    assert(nl_rest[0] == '\n');
    assert(!is_digit('\n'));
    lemma_scan_int_at(p2, pv, nl_rest);
    let e = p.len() + k.len() + int_rep(pv).len() as int;
    assert(s[e] == (p2 + int_rep(pv) + nl_rest)[e]);
    assert(s[e] == '\n');
}

pub proof fn lemma_scan_int_at(p: Seq<char>, pv: int, rest: Seq<char>)
    requires
        i32::MIN <= pv <= i32::MAX,
        rest.len() == 0 || !is_digit(rest[0]),
    ensures
        scan_int(p + int_rep(pv) + rest, p.len() as int) == Some(
            (pv, p.len() + int_rep(pv).len() as int),
        ),
{
    let s = p + int_rep(pv) + rest;
    let i = p.len() as int;
    let e = i + int_rep(pv).len() as int;
    assert forall|t: int| 0 <= t < int_rep(pv).len() implies s.subrange(i, e)[t] == int_rep(
        pv,
    )[t] by {
        assert(s.subrange(i, e)[t] == s[i + t]);
        assert(s[i + t] == (p + int_rep(pv))[i + t]);
    }
    assert(s.subrange(i, e) =~= int_rep(pv));
    if e < s.len() {
        assert(s[e] == rest[0]);
    }
    crate::num::lemma_scan_int_of_rep(s, i, pv);
}

/// The serialized form of a record: five `key = value` lines in fixed
/// order.
pub open spec fn serial_spec(r: RecordView) -> Seq<char> {
    text_line("checkpoint_id = "@, r.id) + int_line("pid = "@, r.pid) + text_line(
        "cmd = "@,
        r.cmd,
    ) + text_line("tag = "@, r.tag) + text_line("dump_time = "@, r.dump_time)
}

/// Parses a serialized record; yields the record exactly when the whole
/// text is one well-formed serialization.
pub open spec fn parse_spec(s: Seq<char>) -> Option<RecordView> {
    match expect(s, 0, "checkpoint_id = "@) {
        None => None,
        Some(i1) => match scan_value(s, i1) {
            None => None,
            Some((id, i2)) => match expect(s, i2, "pid = "@) {
                None => None,
                Some(i3) => match scan_int(s, i3) {
                    None => None,
                    Some((pid, i4)) => match expect_nl(s, i4) {
                        None => None,
                        Some(i5) => match expect(s, i5, "cmd = "@) {
                            None => None,
                            Some(i6) => match scan_value(s, i6) {
                                None => None,
                                Some((cmd, i7)) => match expect(s, i7, "tag = "@) {
                                    None => None,
                                    Some(i8) => match scan_value(s, i8) {
                                        None => None,
                                        Some((tag, i9)) => match expect(s, i9, "dump_time = "@) {
                                            None => None,
                                            Some(i10) => match scan_value(s, i10) {
                                                None => None,
                                                Some((dump_time, i11)) => if i11 == s.len() {
                                                    Some(
                                                        RecordView {
                                                            id,
                                                            pid,
                                                            cmd,
                                                            tag,
                                                            dump_time,
                                                        },
                                                    )
                                                } else {
                                                    None
                                                },
                                            },
                                        },
                                    },
                                },
                            },
                        },
                    },
                },
            },
        },
    }
}

/// Round-trip: parsing a serialized record yields that record, field for
/// field, for every record whose pid fits an `i32`.
pub proof fn lemma_parse_of_serial(r: RecordView)
    requires
        i32::MIN <= r.pid <= i32::MAX,
    ensures
        parse_spec(serial_spec(r)) == Some(r),
{
    let s = serial_spec(r);
    let l1 = text_line("checkpoint_id = "@, r.id);
    let l2 = int_line("pid = "@, r.pid);
    let l3 = text_line("cmd = "@, r.cmd);
    let l4 = text_line("tag = "@, r.tag);
    let l5 = text_line("dump_time = "@, r.dump_time);
    assert(s == l1 + l2 + l3 + l4 + l5);
    assert(s =~= Seq::<char>::empty() + l1 + (l2 + l3 + l4 + l5));
    lemma_text_line_at(Seq::<char>::empty(), "checkpoint_id = "@, r.id, l2 + l3 + l4 + l5);
    assert(s =~= l1 + l2 + (l3 + l4 + l5));
    lemma_int_line_at(l1, "pid = "@, r.pid, l3 + l4 + l5);
    assert(s =~= (l1 + l2) + l3 + (l4 + l5));
    lemma_text_line_at(l1 + l2, "cmd = "@, r.cmd, l4 + l5);
    assert(s =~= (l1 + l2 + l3) + l4 + l5);
    lemma_text_line_at(l1 + l2 + l3, "tag = "@, r.tag, l5);
    assert(s =~= (l1 + l2 + l3 + l4) + l5 + Seq::<char>::empty());
    lemma_text_line_at(l1 + l2 + l3 + l4, "dump_time = "@, r.dump_time, Seq::<char>::empty());
    assert(parse_spec(s) == Some(RecordView { id: r.id, pid: r.pid, cmd: r.cmd, tag: r.tag,
        dump_time: r.dump_time }));
    assert(RecordView { id: r.id, pid: r.pid, cmd: r.cmd, tag: r.tag, dump_time: r.dump_time }
        == r);
}

fn expect_str(s: &str, i: usize, k: &str) -> (r: Option<usize>)
    requires
        i <= s@.len(),
    ensures
        match r {
            Some(j) => expect(s@, i as int, k@) == Some(j as int) && i <= j <= s@.len(),
            None => expect(s@, i as int, k@) is None,
        },
{
    let s_len: usize = s.unicode_len();
    let k_len: usize = k.unicode_len();
    if k_len > s_len - i {
        return None;
    }
    let mut t: usize = 0;
    while t < k_len
        invariant
            0 <= t <= k_len,
            i + k_len <= s_len,
            s_len == s@.len(),
            k_len == k@.len(),
            forall|u: int| 0 <= u < t ==> s@[i + u] == k@[u],
        decreases k_len - t,
    {
        if s.get_char(i + t) != k.get_char(t) {
            assert(s@.subrange(i as int, i + k@.len() as int)[t as int] != k@[t as int]);
            return None;
        }
        t = t + 1;
    }
    assert(s@.subrange(i as int, i + k@.len() as int) =~= k@);
    Some(i + k_len)
}

/// Prepends already-read text to the value of a successful scan.
pub open spec fn scan_prepend(p: Seq<char>, r: Option<(Seq<char>, int)>) -> Option<
    (Seq<char>, int),
> {
    match r {
        Some(x) => Some((p + x.0, x.1)),
        None => None,
    }
}

fn scan_value_exec(s: &str, i: usize) -> (r: Option<(String, usize)>)
    requires
        i <= s@.len(),
    ensures
        match r {
            Some(vj) => {
                &&& scan_value(s@, i as int) == Some((vj.0@, vj.1 as int))
                &&& i < vj.1 <= s@.len()
            },
            None => scan_value(s@, i as int) is None,
        },
{
    let s_len: usize = s.unicode_len();
    let mut out = String::new();
    let mut j: usize = i;
    assert(out@ + scan_value(s@, i as int)->Some_0.0 =~= scan_value(s@, i as int)->Some_0.0);
    loop
        invariant
            i <= j <= s_len,
            s_len == s@.len(),
            scan_value(s@, i as int) == scan_prepend(out@, scan_value(s@, j as int)),
        decreases s_len - j,
    {
        if j == s_len {
            return None;
        }
        let c = s.get_char(j);
        if c == '\n' {
            assert(scan_value(s@, j as int) == Some((Seq::<char>::empty(), j + 1)));
            assert(out@ + Seq::<char>::empty() =~= out@);
            return Some((out, j + 1));
        }
        if c == '\\' {
            if j + 1 == s_len {
                return None;
            }
            let c2 = s.get_char(j + 1);
            if c2 == '\\' {
                assert(scan_value(s@, j as int) == scan_cons('\\', scan_value(s@, j + 2)));
                proof {
                    let inner = scan_value(s@, j + 2);
                    if inner is Some {
                        assert(out@ + (seq!['\\'] + inner->Some_0.0) =~= out@.push('\\')
                            + inner->Some_0.0);
                    }
                }
                push_char(&mut out, '\\');
                j = j + 2;
            } else if c2 == 'n' {
                assert(scan_value(s@, j as int) == scan_cons('\n', scan_value(s@, j + 2)));
                proof {
                    let inner = scan_value(s@, j + 2);
                    if inner is Some {
                        assert(out@ + (seq!['\n'] + inner->Some_0.0) =~= out@.push('\n')
                            + inner->Some_0.0);
                    }
                }
                push_char(&mut out, '\n');
                j = j + 2;
            } else {
                return None;
            }
        } else {
            assert(scan_value(s@, j as int) == scan_cons(c, scan_value(s@, j + 1)));
            proof {
                let inner = scan_value(s@, j + 1);
                if inner is Some {
                    assert(out@ + (seq![c] + inner->Some_0.0) =~= out@.push(c)
                        + inner->Some_0.0);
                }
            }
            push_char(&mut out, c);
            j = j + 1;
        }
    }
}

/// Parses the text of a record file. Returns the record exactly when the
/// text is a well-formed serialization, and reports it corrupt otherwise.
pub fn parse(s: &str) -> (r: Result<CheckpointMeta, StoreError>)
    ensures
        match r {
            Ok(rec) => parse_spec(s@) == Some(rec@),
            Err(e) => parse_spec(s@) is None && e is Corrupt,
        },
{
    let s_len: usize = s.unicode_len();
    let i1 = match expect_str(s, 0, "checkpoint_id = ") {
        Some(j) => j,
        None => {
            return Err(StoreError::Corrupt);
        },
    };
    let (id, i2) = match scan_value_exec(s, i1) {
        Some(vj) => vj,
        None => {
            return Err(StoreError::Corrupt);
        },
    };
    let i3 = match expect_str(s, i2, "pid = ") {
        Some(j) => j,
        None => {
            return Err(StoreError::Corrupt);
        },
    };
    let (pid, i4) = match scan_int_exec(s, i3) {
        Some(vj) => vj,
        None => {
            return Err(StoreError::Corrupt);
        },
    };
    let i5 = if i4 < s_len && s.get_char(i4) == '\n' {
        i4 + 1
    } else {
        assert(expect_nl(s@, i4 as int) is None);
        return Err(StoreError::Corrupt);
    };
    let i6 = match expect_str(s, i5, "cmd = ") {
        Some(j) => j,
        None => {
            return Err(StoreError::Corrupt);
        },
    };
    let (cmd, i7) = match scan_value_exec(s, i6) {
        Some(vj) => vj,
        None => {
            return Err(StoreError::Corrupt);
        },
    };
    let i8 = match expect_str(s, i7, "tag = ") {
        Some(j) => j,
        None => {
            return Err(StoreError::Corrupt);
        },
    };
    let (tag, i9) = match scan_value_exec(s, i8) {
        Some(vj) => vj,
        None => {
            return Err(StoreError::Corrupt);
        },
    };
    let i10 = match expect_str(s, i9, "dump_time = ") {
        Some(j) => j,
        None => {
            return Err(StoreError::Corrupt);
        },
    };
    let (dump_time, i11) = match scan_value_exec(s, i10) {
        Some(vj) => vj,
        None => {
            return Err(StoreError::Corrupt);
        },
    };
    if i11 != s_len {
        return Err(StoreError::Corrupt);
    }
    let rec = CheckpointMeta { checkpoint_id: id, pid, cmd, tag, dump_time };
    assert(parse_spec(s@) == Some(rec@));
    Ok(rec)
}

/// Appends the escaped form of `v` to `out`.
fn push_escaped(out: &mut String, v: &str)
    ensures
        final(out)@ == old(out)@ + escape(v@),
{
    let v_len: usize = v.unicode_len();
    let mut i: usize = 0;
    assert(out@ =~= old(out)@ + escape(v@.take(0)));
    while i < v_len
        invariant
            0 <= i <= v_len,
            v_len == v@.len(),
            out@ == old(out)@ + escape(v@.take(i as int)),
        decreases v_len - i,
    {
        let c = v.get_char(i);
        if c == '\\' {
            push_char(out, '\\');
            push_char(out, '\\');
        } else if c == '\n' {
            push_char(out, '\\');
            push_char(out, 'n');
        } else {
            push_char(out, c);
        }
        proof {
            lemma_escape_app(v@.take(i as int), seq![v@[i as int]]);
            assert(v@.take(i + 1) =~= v@.take(i as int) + seq![v@[i as int]]);
            assert(seq![v@[i as int]].drop_first() =~= Seq::<char>::empty());
            assert(escape(Seq::<char>::empty()) =~= Seq::<char>::empty());
            assert(escape(seq![v@[i as int]]) == esc_char(v@[i as int]) + escape(
                Seq::<char>::empty(),
            ));
            assert(escape(seq![v@[i as int]]) =~= esc_char(v@[i as int]));
            assert(out@ =~= old(out)@ + escape(v@.take(i + 1)));
        }
        i = i + 1;
    }
    assert(v@.take(v_len as int) =~= v@);
}

/// Serializes a record into the text of its record file.
pub fn serialize(rec: &CheckpointMeta) -> (out: String)
    ensures
        out@ == serial_spec(rec@),
{
    let mut out = String::new();
    out.append("checkpoint_id = ");
    push_escaped(&mut out, rec.checkpoint_id.as_str());
    push_char(&mut out, '\n');
    out.append("pid = ");
    push_i32(rec.pid, &mut out);
    push_char(&mut out, '\n');
    out.append("cmd = ");
    push_escaped(&mut out, rec.cmd.as_str());
    push_char(&mut out, '\n');
    out.append("tag = ");
    push_escaped(&mut out, rec.tag.as_str());
    push_char(&mut out, '\n');
    out.append("dump_time = ");
    push_escaped(&mut out, rec.dump_time.as_str());
    push_char(&mut out, '\n');
    assert(out@ =~= serial_spec(rec@));
    out
}

proof fn lemma_subrange_split(s: Seq<char>, a: int, b: int, c: int)
    requires
        0 <= a <= b <= c <= s.len(),
    ensures
        s.subrange(a, c) == s.subrange(a, b) + s.subrange(b, c),
{
    assert(s.subrange(a, c) =~= s.subrange(a, b) + s.subrange(b, c));
}

/// Only serializations parse: a text that parses to `r` is exactly `r`'s
/// serialization, so the on-disk format is canonical.
#[verifier::rlimit(60)]
pub proof fn lemma_serial_of_parse(s: Seq<char>, r: RecordView)
    requires
        parse_spec(s) == Some(r),
    ensures
        i32::MIN <= r.pid <= i32::MAX,
        serial_spec(r) == s,
{
    let k1 = "checkpoint_id = "@;
    let k2 = "pid = "@;
    let k3 = "cmd = "@;
    let k4 = "tag = "@;
    let k5 = "dump_time = "@;
    let i1 = expect(s, 0, k1)->Some_0;
    let sv1 = scan_value(s, i1)->Some_0;
    let id = sv1.0;
    let i2 = sv1.1;
    let i3 = expect(s, i2, k2)->Some_0;
    let si = scan_int(s, i3)->Some_0;
    let pid = si.0;
    let i4 = si.1;
    let i5 = expect_nl(s, i4)->Some_0;
    let i6 = expect(s, i5, k3)->Some_0;
    let sv2 = scan_value(s, i6)->Some_0;
    let cmd = sv2.0;
    let i7 = sv2.1;
    let i8 = expect(s, i7, k4)->Some_0;
    let sv3 = scan_value(s, i8)->Some_0;
    let tag = sv3.0;
    let i9 = sv3.1;
    let i10 = expect(s, i9, k5)->Some_0;
    let sv4 = scan_value(s, i10)->Some_0;
    let dt = sv4.0;
    let i11 = sv4.1;
    assert(r == RecordView { id, pid, cmd, tag, dump_time: dt });
    assert(i11 == s.len());

    assert(i1 == k1.len() && s.subrange(0, i1) == k1);
    assert(scan_value(s, i1) == Some((id, i2)));
    lemma_scan_value_sound(s, i1, id, i2);
    assert(i3 == i2 + k2.len() && s.subrange(i2, i3) == k2);
    assert(scan_int(s, i3) == Some((pid, i4)));
    crate::num::lemma_scan_int_sound(s, i3, pid, i4);
    assert(i5 == i4 + 1 && s[i4] == '\n');
    assert(s.subrange(i4, i5) =~= seq!['\n']);
    assert(i6 == i5 + k3.len() && s.subrange(i5, i6) == k3);
    assert(scan_value(s, i6) == Some((cmd, i7)));
    lemma_scan_value_sound(s, i6, cmd, i7);
    assert(i8 == i7 + k4.len() && s.subrange(i7, i8) == k4);
    assert(scan_value(s, i8) == Some((tag, i9)));
    lemma_scan_value_sound(s, i8, tag, i9);
    assert(i10 == i9 + k5.len() && s.subrange(i9, i10) == k5);
    assert(scan_value(s, i10) == Some((dt, i11)));
    lemma_scan_value_sound(s, i10, dt, i11);

    lemma_subrange_split(s, 0, i1, i2);
    assert(s.subrange(0, i2) =~= text_line(k1, id));
    lemma_subrange_split(s, 0, i2, i3);
    lemma_subrange_split(s, 0, i3, i4);
    lemma_subrange_split(s, 0, i4, i5);
    assert(s.subrange(0, i5) =~= text_line(k1, id) + int_line(k2, pid));
    lemma_subrange_split(s, 0, i5, i6);
    lemma_subrange_split(s, 0, i6, i7);
    assert(s.subrange(0, i7) =~= text_line(k1, id) + int_line(k2, pid) + text_line(k3, cmd));
    lemma_subrange_split(s, 0, i7, i8);
    lemma_subrange_split(s, 0, i8, i9);
    assert(s.subrange(0, i9) =~= text_line(k1, id) + int_line(k2, pid) + text_line(k3, cmd)
        + text_line(k4, tag));
    lemma_subrange_split(s, 0, i9, i10);
    lemma_subrange_split(s, 0, i10, i11);
    assert(s.subrange(0, i11) =~= text_line(k1, id) + int_line(k2, pid) + text_line(k3, cmd)
        + text_line(k4, tag) + text_line(k5, dt));
    assert(s.subrange(0, s.len() as int) =~= s);
}

/// Serialization is injective: distinct records never serialize alike.
pub proof fn lemma_serial_injective(a: RecordView, b: RecordView)
    requires
        i32::MIN <= a.pid <= i32::MAX,
        i32::MIN <= b.pid <= i32::MAX,
        serial_spec(a) == serial_spec(b),
    ensures
        a == b,
{
    lemma_parse_of_serial(a);
    lemma_parse_of_serial(b);
}

} // verus!

