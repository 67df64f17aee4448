//! Lexicographic order on character sequences, prefix tests, and small
//! string-building helpers used by the record codec, the lister and the
//! retention engine.

use vstd::prelude::*;

verus! {

/// Lexicographic order over sequences of characters, comparing scalar
/// values position by position; a proper prefix sorts before any extension.
pub open spec fn lex_le(a: Seq<char>, b: Seq<char>) -> bool
    decreases a.len(),
{
    if a.len() == 0 {
        true
    } else if b.len() == 0 {
        false
    } else if a[0] != b[0] {
        a[0] < b[0]
    } else {
        lex_le(a.drop_first(), b.drop_first())
    }
}

pub proof fn lemma_lex_le_total(a: Seq<char>, b: Seq<char>)
    ensures
        lex_le(a, b) || lex_le(b, a),
    decreases a.len(),
{
    if a.len() == 0 {
    } else if b.len() == 0 {
    } else if a[0] == b[0] {
        lemma_lex_le_total(a.drop_first(), b.drop_first());
    }
}

pub proof fn lemma_lex_le_antisymmetric(a: Seq<char>, b: Seq<char>)
    requires
        lex_le(a, b),
        lex_le(b, a),
    ensures
        a == b,
    decreases a.len(),
{
    if a.len() == 0 {
        assert(b.len() == 0);
        assert(a =~= b);
    } else {
        assert(b.len() != 0);
        assert(a[0] == b[0]);
        lemma_lex_le_antisymmetric(a.drop_first(), b.drop_first());
        assert(a =~= seq![a[0]] + a.drop_first());
        assert(b =~= seq![b[0]] + b.drop_first());
    }
}

pub proof fn lemma_lex_le_transitive(a: Seq<char>, b: Seq<char>, c: Seq<char>)
    requires
        lex_le(a, b),
        lex_le(b, c),
    ensures
        lex_le(a, c),
    decreases a.len(),
{
    if a.len() != 0 && b.len() != 0 && c.len() != 0 {
        if a[0] == b[0] && b[0] == c[0] {
            lemma_lex_le_transitive(a.drop_first(), b.drop_first(), c.drop_first());
        }
    }
}

/// The first `n` elements of `s`, or all of `s` when it is shorter.
pub open spec fn take_at_most(s: Seq<char>, n: int) -> Seq<char> {
    if s.len() <= n {
        s
    } else {
        s.take(n)
    }
}

/// Truncation keeps the lexicographic order.
pub proof fn lemma_take_at_most_monotone(a: Seq<char>, b: Seq<char>, n: int)
    requires
        0 <= n,
        lex_le(a, b),
    ensures
        lex_le(take_at_most(a, n), take_at_most(b, n)),
    decreases a.len(),
{
    if n == 0 {
        assert(take_at_most(a, 0) =~= Seq::<char>::empty());
    } else if a.len() == 0 {
        assert(take_at_most(a, n) =~= Seq::<char>::empty());
    } else if b.len() == 0 {
        // contradicts lex_le(a, b)
        assert(false);
    } else if a[0] != b[0] {
        assert(take_at_most(a, n)[0] == a[0]);
        assert(take_at_most(b, n)[0] == b[0]);
    } else {
        lemma_take_at_most_monotone(a.drop_first(), b.drop_first(), n - 1);
        assert(take_at_most(a, n).drop_first() =~= take_at_most(a.drop_first(), n - 1));
        assert(take_at_most(b, n).drop_first() =~= take_at_most(b.drop_first(), n - 1));
        assert(take_at_most(a, n)[0] == a[0]);
        assert(take_at_most(b, n)[0] == b[0]);
    }
}

/// Whether `p` is a prefix of `s`.
pub open spec fn is_prefix_of(p: Seq<char>, s: Seq<char>) -> bool {
    p.len() <= s.len() && s.take(p.len() as int) == p
}

/// Exec test for `lex_le` on string slices.
pub fn str_lex_le(a: &str, b: &str) -> (r: bool)
    ensures
        r == lex_le(a@, b@),
{
    let a_len: usize = a.unicode_len();
    let b_len: usize = b.unicode_len();
    let mut i: usize = 0;
    assert(a@.skip(0) =~= a@);
    assert(b@.skip(0) =~= b@);
    loop
        invariant
            i <= a_len,
            i <= b_len,
            a_len == a@.len(),
            b_len == b@.len(),
            forall|k: int| 0 <= k < i ==> a@[k] == b@[k],
            lex_le(a@, b@) == lex_le(a@.skip(i as int), b@.skip(i as int)),
        decreases a_len - i,
    {
        if i == a_len {
            assert(a@.skip(i as int).len() == 0);
            return true;
        }
        if i == b_len {
            assert(b@.skip(i as int).len() == 0);
            assert(a@.skip(i as int).len() != 0);
            return false;
        }
        let ca = a.get_char(i);
        let cb = b.get_char(i);
        assert(a@.skip(i as int)[0] == a@[i as int]);
        assert(b@.skip(i as int)[0] == b@[i as int]);
        if ca != cb {
            return ca < cb;
        }
        assert(a@.skip(i as int).drop_first() =~= a@.skip(i + 1));
        assert(b@.skip(i as int).drop_first() =~= b@.skip(i + 1));
        i = i + 1;
    }
}

/// Exec test for `is_prefix_of` on string slices.
pub fn str_starts_with(s: &str, p: &str) -> (r: bool)
    ensures
        r == is_prefix_of(p@, s@),
{
    let p_len: usize = p.unicode_len();
    let s_len: usize = s.unicode_len();
    if p_len > s_len {
        return false;
    }
    let mut i: usize = 0;
    while i < p_len
        invariant
            0 <= i <= p_len,
            p_len <= s_len,
            p_len == p@.len(),
            s_len == s@.len(),
            forall|k: int| 0 <= k < i ==> s@[k] == p@[k],
        decreases p_len - i,
    {
        if s.get_char(i) != p.get_char(i) {
            assert(s@.take(p@.len() as int)[i as int] != p@[i as int]);
            return false;
        }
        i = i + 1;
    }
    assert(s@.take(p@.len() as int) =~= p@);
    true
}

/// Exec test that two strings agree on their first `n` characters
/// (counting a whole string when it is shorter than `n`).
pub fn same_truncation(a: &str, b: &str, n: usize) -> (r: bool)
    ensures
        r == (take_at_most(a@, n as int) == take_at_most(b@, n as int)),
{
    let a_len: usize = a.unicode_len();
    let b_len: usize = b.unicode_len();
    let na: usize = if a_len <= n { a_len } else { n };
    let nb: usize = if b_len <= n { b_len } else { n };
    if na != nb {
        assert(take_at_most(a@, n as int).len() == na);
        assert(take_at_most(b@, n as int).len() == nb);
        return false;
    }
    let mut i: usize = 0;
    while i < na
        invariant
            0 <= i <= na,
            na == nb,
            na <= a_len,
            nb <= b_len,
            a_len == a@.len(),
            b_len == b@.len(),
            na == take_at_most(a@, n as int).len(),
            nb == take_at_most(b@, n as int).len(),
            forall|k: int| 0 <= k < i ==> a@[k] == b@[k],
        decreases na - i,
    {
        if a.get_char(i) != b.get_char(i) {
            assert(take_at_most(a@, n as int)[i as int] == a@[i as int]);
            assert(take_at_most(b@, n as int)[i as int] == b@[i as int]);
            return false;
        }
        i = i + 1;
    }
    assert(take_at_most(a@, n as int) =~= take_at_most(b@, n as int));
    true
}

/// Exec test that two strings hold the same characters.
pub fn str_eq(a: &str, b: &str) -> (r: bool)
    ensures
        r == (a@ == b@),
{
    let a_len: usize = a.unicode_len();
    let b_len: usize = b.unicode_len();
    if a_len != b_len {
        return false;
    }
    let mut i: usize = 0;
    while i < a_len
        invariant
            0 <= i <= a_len,
            a_len == a@.len(),
            b_len == b@.len(),
            a_len == b_len,
            forall|k: int| 0 <= k < i ==> a@[k] == b@[k],
        decreases a_len - i,
    {
        if a.get_char(i) != b.get_char(i) {
            return false;
        }
        i = i + 1;
    }
    assert(a@ =~= b@);
    true
}

/// Relies on `std::string::String::push`: appends the given character to
/// the end of the string.
#[verifier::external_body]
pub fn push_char(s: &mut String, c: char)
    ensures
        final(s)@ == old(s)@.push(c),
{
    s.push(c)
}

} // verus!
