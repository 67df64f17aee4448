//! Decimal representation of integers: a canonical spec-level form,
//! executable formatting and scanning, and the round-trip lemmas that the
//! record codec builds on.

use vstd::prelude::*;

verus! {

pub open spec fn is_digit(c: char) -> bool {
    '0' <= c && c <= '9'
}

pub open spec fn digit_char(d: int) -> char
    recommends
        0 <= d < 10,
{
    ((d + 48) as char)
}

pub open spec fn digit_val(c: char) -> int
    recommends
        is_digit(c),
{
    c as int - 48
}

/// Canonical decimal digits of `n`, most significant first.
pub open spec fn dec_rep(n: nat) -> Seq<char>
    decreases n,
{
    if n < 10 {
        seq![digit_char(n as int)]
    } else {
        dec_rep(n / 10).push(digit_char((n % 10) as int))
    }
}

/// Canonical decimal form of a (possibly negative) integer.
pub open spec fn int_rep(i: int) -> Seq<char> {
    if i < 0 {
        seq!['-'] + dec_rep((-i) as nat)
    } else {
        dec_rep(i as nat)
    }
}

pub open spec fn all_digits(s: Seq<char>) -> bool {
    forall|i: int| 0 <= i < s.len() ==> is_digit(#[trigger] s[i])
}

/// The value of a digit string, most significant digit first.
pub open spec fn digits_val(s: Seq<char>) -> int
    decreases s.len(),
{
    if s.len() == 0 {
        0
    } else {
        digits_val(s.drop_last()) * 10 + digit_val(s.last())
    }
}

pub proof fn lemma_digits_val_nonneg(s: Seq<char>)
    requires
        all_digits(s),
    ensures
        digits_val(s) >= 0,
    decreases s.len(),
{
    if s.len() > 0 {
        assert(all_digits(s.drop_last())) by {
            assert(forall|i: int|
                0 <= i < s.drop_last().len() ==> s.drop_last()[i] == #[trigger] s[i]);
        }
        lemma_digits_val_nonneg(s.drop_last());
    }
}

pub proof fn lemma_dec_rep_digits(n: nat)
    ensures
        dec_rep(n).len() >= 1,
        all_digits(dec_rep(n)),
        n > 0 ==> dec_rep(n)[0] != '0',
        n < 10 ==> dec_rep(n).len() == 1,
        n >= 10 ==> dec_rep(n).len() >= 2,
    decreases n,
{
    if n < 10 {
    } else {
        lemma_dec_rep_digits(n / 10);
    }
}

pub proof fn lemma_dec_rep_val(n: nat)
    ensures
        digits_val(dec_rep(n)) == n,
    decreases n,
{
    if n < 10 {
        assert(digit_val(digit_char(n as int)) == n);
        assert(dec_rep(n).drop_last().len() == 0);
        assert(digits_val(dec_rep(n).drop_last()) == 0);
        assert(dec_rep(n).last() == digit_char(n as int));
    } else {
        lemma_dec_rep_val(n / 10);
        assert(dec_rep(n).drop_last() =~= dec_rep(n / 10));
        assert(dec_rep(n).last() == digit_char((n % 10) as int));
        assert(digit_val(digit_char((n % 10) as int)) == n % 10);
    }
}

/// A digit string is canonical when it is nonempty and has no superfluous
/// leading zero.
pub open spec fn canonical_digits(s: Seq<char>) -> bool {
    s.len() >= 1 && all_digits(s) && (s.len() > 1 ==> s[0] != '0')
}

pub proof fn lemma_digits_val_pos(s: Seq<char>)
    requires
        all_digits(s),
        s.len() >= 1,
        s[0] != '0',
    ensures
        digits_val(s) >= 1,
    decreases s.len(),
{
    if s.len() == 1 {
        assert(is_digit(s[0]));
    } else {
        assert(all_digits(s.drop_last())) by {
            assert(forall|i: int|
                0 <= i < s.drop_last().len() ==> s.drop_last()[i] == #[trigger] s[i]);
        }
        lemma_digits_val_pos(s.drop_last());
        assert(is_digit(s.last()));
        assert(digits_val(s) >= 1) by (nonlinear_arith)
            requires
                digits_val(s) == digits_val(s.drop_last()) * 10 + digit_val(s.last()),
                digits_val(s.drop_last()) >= 1,
                digit_val(s.last()) >= 0,
        ;
    }
}

/// A canonical digit string is the decimal representation of its value.
pub proof fn lemma_canonical_digits_rep(s: Seq<char>)
    requires
        canonical_digits(s),
    ensures
        digits_val(s) >= 0,
        dec_rep(digits_val(s) as nat) == s,
    decreases s.len(),
{
    lemma_digits_val_nonneg(s);
    if s.len() == 1 {
        assert(is_digit(s[0]));
        assert(s.drop_last().len() == 0);
        assert(digits_val(s.drop_last()) == 0);
        assert(s.last() == s[0]);
        assert(digits_val(s) == digit_val(s[0]));
        assert(digit_char(digit_val(s[0])) == s[0]);
        assert(dec_rep(digits_val(s) as nat) =~= s);
    } else {
        let p = s.drop_last();
        let d = digit_val(s.last());
        assert(all_digits(p)) by {
            assert(forall|i: int| 0 <= i < p.len() ==> p[i] == #[trigger] s[i]);
        }
        assert(p[0] == s[0]);
        lemma_canonical_digits_rep(p);
        let v = digits_val(p);
        lemma_digits_val_pos(p);
        assert(is_digit(s.last()));
        assert(0 <= d < 10);
        let w = digits_val(s);
        assert(w == v * 10 + d);
        assert(w >= 10) by (nonlinear_arith)
            requires
                v >= 1,
                d >= 0,
                w == v * 10 + d,
        ;
        assert(w / 10 == v && w % 10 == d) by (nonlinear_arith)
            requires
                0 <= d < 10,
                w == v * 10 + d,
        ;
        assert(dec_rep(w as nat) == dec_rep(v as nat).push(digit_char(d)));
        assert(digit_char(d) == s.last());
        assert(dec_rep(w as nat) =~= s);
    }
}

/// First position at or after `i` that does not hold a digit.
pub open spec fn digit_run_end(s: Seq<char>, i: int) -> int
    decreases s.len() - i when i <= s.len()
{
    if i < 0 {
        i
    } else if i >= s.len() || !is_digit(s[i]) {
        i
    } else {
        digit_run_end(s, i + 1)
    }
}

pub proof fn lemma_digit_run_end_props(s: Seq<char>, i: int)
    requires
        0 <= i <= s.len(),
    ensures
        i <= digit_run_end(s, i) <= s.len(),
        forall|k: int| i <= k < digit_run_end(s, i) ==> is_digit(#[trigger] s[k]),
        digit_run_end(s, i) == s.len() || !is_digit(s[digit_run_end(s, i)]),
    decreases s.len() - i,
{
    if i < s.len() && is_digit(s[i]) {
        lemma_digit_run_end_props(s, i + 1);
    }
}

pub proof fn lemma_digit_run_end_exact(s: Seq<char>, i: int, e: int)
    requires
        0 <= i <= e <= s.len(),
        forall|k: int| i <= k < e ==> is_digit(#[trigger] s[k]),
        e == s.len() || !is_digit(s[e]),
    ensures
        digit_run_end(s, i) == e,
    decreases e - i,
{
    if i < e {
        lemma_digit_run_end_exact(s, i + 1, e);
    }
}

/// Scan a canonical signed decimal numeral in the range of `i32`, starting
/// at position `i`; yields the value and the position just past it.
pub open spec fn scan_int(s: Seq<char>, i: int) -> Option<(int, int)>
    recommends
        0 <= i <= s.len(),
{
    let neg = i < s.len() && s[i] == '-';
    let d0 = if neg {
        i + 1
    } else {
        i
    };
    let j = digit_run_end(s, d0);
    if j == d0 {
        None
    } else if s[d0] == '0' && (j > d0 + 1 || neg) {
        None
    } else {
        let v = digits_val(s.subrange(d0, j));
        let sv = if neg {
            -v
        } else {
            v
        };
        if i32::MIN <= sv <= i32::MAX {
            Some((sv, j))
        } else {
            None
        }
    }
}

/// Scanning reads back exactly what `int_rep` wrote, provided the numeral
/// is followed by a non-digit or by the end of the text.
pub proof fn lemma_scan_int_of_rep(s: Seq<char>, i: int, p: int)
    requires
        i32::MIN <= p <= i32::MAX,
        0 <= i,
        i + int_rep(p).len() <= s.len(),
        s.subrange(i, i + int_rep(p).len() as int) == int_rep(p),
        i + int_rep(p).len() == s.len() || !is_digit(s[i + int_rep(p).len()]),
    ensures
        scan_int(s, i) == Some((p, i + int_rep(p).len() as int)),
{
    let rep = int_rep(p);
    let e = i + rep.len() as int;
    if p < 0 {
        let m = (-p) as nat;
        lemma_dec_rep_digits(m);
        assert(s[i] == rep[0]);
        assert(rep[0] == '-');
        let d0 = i + 1;
        assert(forall|k: int| d0 <= k < e ==> is_digit(#[trigger] s[k])) by {
            assert(forall|k: int|
                d0 <= k < e ==> s[k] == rep[k - i] && rep[k - i] == dec_rep(m)[k - i - 1]);
        }
        lemma_digit_run_end_exact(s, d0, e);
        assert forall|t: int| 0 <= t < e - d0 implies s.subrange(d0, e)[t] == dec_rep(m)[t] by {
            assert(rep[t + 1] == s.subrange(i, e)[t + 1]);
            assert(s.subrange(i, e)[t + 1] == s[d0 + t]);
            assert(rep[t + 1] == dec_rep(m)[t]);
        }
        assert(s.subrange(d0, e).len() == dec_rep(m).len());
        assert(s.subrange(d0, e) =~= dec_rep(m));
        lemma_dec_rep_val(m);
        assert(s[d0] == dec_rep(m)[0]);
        assert(s[d0] != '0');
        assert(digits_val(s.subrange(d0, e)) == m);
    } else {
        let m = p as nat;
        lemma_dec_rep_digits(m);
        assert(forall|k: int| i <= k < e ==> is_digit(#[trigger] s[k])) by {
            assert(forall|k: int| i <= k < e ==> s[k] == rep[k - i]);
        }
        assert(i < s.len() && is_digit(s[i]));
        assert(s[i] != '-');
        lemma_digit_run_end_exact(s, i, e);
        assert(rep == dec_rep(m));
        assert(s.subrange(i, e) == rep);
        assert(s.subrange(i, e) =~= dec_rep(m));
        lemma_dec_rep_val(m);
        assert(s[i] == dec_rep(m)[0]);
        if p > 0 {
            assert(s[i] != '0');
        } else {
            assert(e == i + 1);
        }
    }
}

/// What a successful scan accepted is exactly the canonical form of the
/// value it returned.
pub proof fn lemma_scan_int_sound(s: Seq<char>, i: int, v: int, j: int)
    requires
        0 <= i <= s.len(),
        scan_int(s, i) == Some((v, j)),
    ensures
        i32::MIN <= v <= i32::MAX,
        i < j <= s.len(),
        s.subrange(i, j) == int_rep(v),
        j == s.len() || !is_digit(s[j]),
{
    let neg = i < s.len() && s[i] == '-';
    let d0 = if neg {
        i + 1
    } else {
        i
    };
    assert(d0 <= s.len()) by {
        if neg {
            assert(i < s.len());
        }
    }
    lemma_digit_run_end_props(s, d0);
    let e = digit_run_end(s, d0);
    assert(e == j);
    let run = s.subrange(d0, e);
    assert(all_digits(run));
    assert(canonical_digits(run));
    lemma_canonical_digits_rep(run);
    let m = digits_val(run);
    if neg {
        lemma_digits_val_pos(run);
        assert(v == -m);
        assert(int_rep(v) == seq!['-'] + dec_rep(m as nat));
        assert(s.subrange(i, j) =~= seq![s[i]] + run);
        assert(s.subrange(i, j) =~= int_rep(v));
    } else {
        assert(v == m);
        assert(s.subrange(i, j) =~= run);
        assert(!(v < 0));
        assert(int_rep(v) == dec_rep(m as nat));
    }
}

fn digit_to_char(d: u64) -> (c: char)
    requires
        d < 10,
    ensures
        c == digit_char(d as int),
{
    match d {
        0 => '0',
        1 => '1',
        2 => '2',
        3 => '3',
        4 => '4',
        5 => '5',
        6 => '6',
        7 => '7',
        8 => '8',
        _ => '9',
    }
}

/// Appends the canonical decimal digits of `n` to `out`.
fn push_dec(n: u64, out: &mut String)
    ensures
        final(out)@ == old(out)@ + dec_rep(n as nat),
    decreases n,
{
    if n >= 10 {
        push_dec(n / 10, out);
        let c = digit_to_char(n % 10);
        crate::text::push_char(out, c);
        assert(final(out)@ =~= old(out)@ + dec_rep(n as nat));
    } else {
        let c = digit_to_char(n);
        crate::text::push_char(out, c);
        assert(final(out)@ =~= old(out)@ + dec_rep(n as nat));
    }
}

/// Appends the canonical decimal form of `p` to `out`.
pub fn push_i32(p: i32, out: &mut String)
    ensures
        final(out)@ == old(out)@ + int_rep(p as int),
{
    if p < 0 {
        crate::text::push_char(out, '-');
        let m: u64 = (-(p as i64)) as u64;
        push_dec(m, out);
        assert(final(out)@ =~= old(out)@ + int_rep(p as int));
    } else {
        push_dec(p as u64, out);
    }
}

/// Formats `p` in its canonical decimal form.
pub fn fmt_i32(p: i32) -> (s: String)
    ensures
        s@ == int_rep(p as int),
{
    let mut out = String::new();
    push_i32(p, &mut out);
    assert(out@ =~= int_rep(p as int));
    out
}

/// Executable scan matching `scan_int`.
pub fn scan_int_exec(s: &str, i: usize) -> (r: Option<(i32, usize)>)
    requires
        i <= s@.len(),
    ensures
        match r {
            Some(vj) => {
                &&& scan_int(s@, i as int) == Some((vj.0 as int, vj.1 as int))
                &&& i < vj.1 <= s@.len()
            },
            None => scan_int(s@, i as int) is None,
        },
{
    let s_len: usize = s.unicode_len();
    let neg: bool = i < s_len && s.get_char(i) == '-';
    let d0: usize = if neg {
        i + 1
    } else {
        i
    };
    let ghost ge = digit_run_end(s@, d0 as int);
    proof {
        lemma_digit_run_end_props(s@, d0 as int);
    }
    let mut j: usize = d0;
    let mut acc: u64 = 0;
    while j < s_len && is_digit_exec(s.get_char(j))
        invariant
            d0 <= j <= s_len,
            s_len == s@.len(),
            ge == digit_run_end(s@, d0 as int),
            d0 <= ge <= s_len,
            forall|k: int| d0 <= k < ge ==> is_digit(#[trigger] s@[k]),
            ge == s@.len() || !is_digit(s@[ge as int]),
            j <= ge,
            acc <= 2147483649,
            acc <= 2147483648 ==> acc == digits_val(s@.subrange(d0 as int, j as int)),
            acc == 2147483649 ==> digits_val(s@.subrange(d0 as int, j as int)) > 2147483648,
        decreases s_len - j,
    {
        assert(j < ge) by {
            if j >= ge {
                assert(j == ge);
                assert(is_digit(s@[j as int]));
            }
        }
        let c = s.get_char(j);
        let d: u64 = ((c as u32) - 48) as u64;
        assert(d == digit_val(s@[j as int]));
        assert(d < 10);
        let ghost prev = s@.subrange(d0 as int, j as int);
        let ghost cur = s@.subrange(d0 as int, j as int + 1);
        assert(cur.drop_last() =~= prev);
        assert(cur.last() == s@[j as int]);
        assert(digits_val(cur) == digits_val(prev) * 10 + d);
        if acc <= 2147483648 {
            let next: u64 = acc * 10 + d;
            if next > 2147483648 {
                acc = 2147483649;
            } else {
                acc = next;
            }
        } else {
            assert(digits_val(prev) > 2147483648);
            assert(digits_val(cur) > 2147483648) by (nonlinear_arith)
                requires
                    digits_val(prev) > 2147483648,
                    digits_val(cur) == digits_val(prev) * 10 + d,
                    d >= 0,
            ;
        }
        j = j + 1;
    }
    assert(j == ge) by {
        if j < ge {
            assert(is_digit(s@[j as int]));
        } else {
            assert(j == ge);
        }
    }
    if j == d0 {
        return None;
    }
    assert(is_digit(s@[d0 as int]));
    let first = s.get_char(d0);
    if first == '0' && (j > d0 + 1 || neg) {
        return None;
    }
    let ghost v = digits_val(s@.subrange(d0 as int, j as int));
    proof {
        assert(forall|k: int|
            0 <= k < s@.subrange(d0 as int, j as int).len()
                ==> is_digit(#[trigger] s@.subrange(d0 as int, j as int)[k]));
        lemma_digits_val_nonneg(s@.subrange(d0 as int, j as int));
    }
    if neg {
        if acc > 2147483648 {
            assert(-v < i32::MIN);
            return None;
        }
        let sv: i32 = (-(acc as i64)) as i32;
        assert(sv as int == -v);
        Some((sv, j))
    } else {
        if acc > 2147483647 {
            assert(v > i32::MAX) by {
                if acc == 2147483648 {
                    assert(acc == v);
                }
            }
            return None;
        }
        let sv: i32 = acc as i32;
        Some((sv, j))
    }
}

/// Exec test for `is_digit`.
pub fn is_digit_exec(c: char) -> (r: bool)
    ensures
        r == is_digit(c),
{
    '0' <= c && c <= '9'
}

} // verus!
