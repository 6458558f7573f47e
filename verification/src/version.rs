//! Version ordering: runs of digits compare by value, other characters one
//! by one.

use vstd::prelude::*;
use std::cmp::Ordering;
use crate::text::{chars_of, is_digit};

verus! {

/// The number of ASCII digits at the start of `s`.
pub open spec fn digit_run(s: Seq<char>) -> int
    decreases s.len(),
{
    if s.len() > 0 && is_digit(s[0]) {
        1 + digit_run(s.drop_first())
    } else {
        0
    }
}

/// The decimal value of a string of digits.
pub open spec fn decimal_value(s: Seq<char>) -> int
    decreases s.len(),
{
    if s.len() == 0 {
        0
    } else {
        10 * decimal_value(s.drop_last()) + (s.last() as int - '0' as int)
    }
}

/// `n`, capped at `u128::MAX`.
pub open spec fn saturate(n: int) -> int {
    if n > u128::MAX {
        u128::MAX as int
    } else {
        n
    }
}

/// The value of the digit run at the start of `s`, capped at `u128::MAX`.
pub open spec fn run_value(s: Seq<char>) -> int {
    saturate(decimal_value(s.take(digit_run(s))))
}

/// The order of two version strings. When both start with a digit, the two
/// runs of digits compare by value (capped at `u128::MAX`); otherwise the
/// first characters compare by code point. A string that runs out first is
/// the smaller.
pub open spec fn version_order(a: Seq<char>, b: Seq<char>) -> Ordering
    decreases a.len() + b.len(),
{
    if a.len() == 0 && b.len() == 0 {
        Ordering::Equal
    } else if a.len() == 0 {
        Ordering::Less
    } else if b.len() == 0 {
        Ordering::Greater
    } else if is_digit(a[0]) && is_digit(b[0]) {
        if run_value(a) < run_value(b) {
            Ordering::Less
        } else if run_value(a) > run_value(b) {
            Ordering::Greater
        } else {
            proof {
                lemma_digit_run_bounds(a);
                lemma_digit_run_bounds(b);
            }
            version_order(a.skip(digit_run(a)), b.skip(digit_run(b)))
        }
    } else if a[0] < b[0] {
        Ordering::Less
    } else if a[0] > b[0] {
        Ordering::Greater
    } else {
        version_order(a.drop_first(), b.drop_first())
    }
}

/// The opposite of an order.
pub open spec fn flip(o: Ordering) -> Ordering {
    match o {
        Ordering::Less => Ordering::Greater,
        Ordering::Equal => Ordering::Equal,
        Ordering::Greater => Ordering::Less,
    }
}

pub proof fn lemma_digit_run_bounds(s: Seq<char>)
    ensures
        0 <= digit_run(s) <= s.len(),
        s.len() > 0 && is_digit(s[0]) ==> digit_run(s) >= 1,
    decreases s.len(),
{
    if s.len() > 0 && is_digit(s[0]) {
        lemma_digit_run_bounds(s.drop_first());
    }
}

proof fn lemma_decimal_nonneg(s: Seq<char>)
    requires
        forall|i: int| 0 <= i < s.len() ==> is_digit(#[trigger] s[i]),
    ensures
        decimal_value(s) >= 0,
    decreases s.len(),
{
    if s.len() > 0 {
        lemma_decimal_nonneg(s.drop_last());
    }
}

/// Reads the run of digits that starts at `start`: its value, capped at
/// `u128::MAX`, and the index just past it.
pub fn take_number(v: &Vec<char>, start: usize) -> (r: (u128, usize))
    requires
        start <= v@.len(),
    ensures
        r.1 == start + digit_run(v@.skip(start as int)),
        r.1 <= v@.len(),
        r.0 == saturate(decimal_value(v@.subrange(start as int, r.1 as int))),
{
    let mut n: u128 = 0;
    let mut i = start;
    proof {
        assert(v@.subrange(start as int, start as int) =~= Seq::<char>::empty());
    }
    while i < v.len() && '0' <= v[i] && v[i] <= '9'
        invariant
            start <= i <= v@.len(),
            digit_run(v@.skip(start as int)) == (i - start) + digit_run(v@.skip(i as int)),
            forall|j: int| start <= j < i ==> is_digit(#[trigger] v@[j]),
            n == saturate(decimal_value(v@.subrange(start as int, i as int))),
        decreases v.len() - i,
    {
        let d = ((v[i] as u32) - ('0' as u32)) as u128;
        let ghost x = decimal_value(v@.subrange(start as int, i as int));
        proof {
            assert(v@.skip(i as int).drop_first() == v@.skip(i + 1));
            let sub = v@.subrange(start as int, i + 1);
            assert(sub.drop_last() == v@.subrange(start as int, i as int));
            assert forall|j: int| 0 <= j < v@.subrange(start as int, i as int).len() implies is_digit(
                #[trigger] v@.subrange(start as int, i as int)[j],
            ) by {
                assert(v@.subrange(start as int, i as int)[j] == v@[start + j]);
            }
            lemma_decimal_nonneg(v@.subrange(start as int, i as int));
        }
        let m: u128 = if n > u128::MAX / 10 {
            u128::MAX
        } else {
            n * 10
        };
        n = if m > u128::MAX - d {
            u128::MAX
        } else {
            m + d
        };
        i = i + 1;
        assert(decimal_value(v@.subrange(start as int, i as int)) == 10 * x + d);
    }
    proof {
        if i < v@.len() {
            assert(v@.skip(i as int)[0] == v@[i as int]);
        }
    }
    (n, i)
}

/// The suffix of `v` that starts at `i`.
pub open spec fn from(v: Seq<char>, i: usize) -> Seq<char> {
    v.skip(i as int)
}

proof fn lemma_from_start(v: Seq<char>)
    ensures
        from(v, 0) == v,
{
    assert(v.skip(0) == v);
}

proof fn lemma_char_step(v: Seq<char>, i: usize)
    requires
        i < v.len(),
        v.len() <= usize::MAX,
    ensures
        from(v, i).len() > 0,
        from(v, i)[0] == v[i as int],
        from(v, i).drop_first() == from(v, (i + 1) as usize),
{
    assert(v.skip(i as int).drop_first() == v.skip(i + 1));
}

proof fn lemma_run_step(v: Seq<char>, i: usize, i2: usize, n: u128)
    requires
        i < v.len(),
        is_digit(v[i as int]),
        i2 == i + digit_run(v.skip(i as int)),
        i2 <= v.len(),
        n == saturate(decimal_value(v.subrange(i as int, i2 as int))),
    ensures
        n == run_value(from(v, i)),
        from(v, i).skip(digit_run(from(v, i))) == from(v, i2),
        from(v, i).skip(digit_run(from(v, i))).len() < from(v, i).len(),
{
    let s = v.skip(i as int);
    lemma_digit_run_bounds(s);
    assert(s.take(digit_run(s)) == v.subrange(i as int, i2 as int));
    assert(s.skip(digit_run(s)) == v.skip(i2 as int));
}

/// Compares two version strings the way a package manager should: runs of
/// digits compare numerically (so `1.10` sorts after `1.9`), other
/// characters compare one by one.
pub fn version_cmp(a: &str, b: &str) -> (r: Ordering)
    ensures
        r == version_order(a@, b@),
{
    let av = chars_of(a);
    let bv = chars_of(b);
    let mut i: usize = 0;
    let mut j: usize = 0;
    proof {
        lemma_from_start(av@);
        lemma_from_start(bv@);
    }
    loop
        invariant
            i <= av@.len(),
            j <= bv@.len(),
            version_order(a@, b@) == version_order(from(av@, i), from(bv@, j)),
            av@ == a@,
            bv@ == b@,
        decreases av@.len() - i + bv@.len() - j,
    {
        if i == av.len() && j == bv.len() {
            return Ordering::Equal;
        }
        if i == av.len() {
            return Ordering::Less;
        }
        if j == bv.len() {
            return Ordering::Greater;
        }
        let ca = av[i];
        let cb = bv[j];
        proof {
            lemma_char_step(av@, i);
            lemma_char_step(bv@, j);
        }
        if '0' <= ca && ca <= '9' && '0' <= cb && cb <= '9' {
            let (na, i2) = take_number(&av, i);
            let (nb, j2) = take_number(&bv, j);
            proof {
                lemma_run_step(av@, i, i2, na);
                lemma_run_step(bv@, j, j2, nb);
            }
            if na < nb {
                return Ordering::Less;
            }
            if na > nb {
                return Ordering::Greater;
            }
            i = i2;
            j = j2;
        } else {
            if ca < cb {
                return Ordering::Less;
            }
            if ca > cb {
                return Ordering::Greater;
            }
            i = i + 1;
            j = j + 1;
        }
    }
}

/// Every version string is equal to itself.
pub proof fn law_version_cmp_reflexive(a: Seq<char>)
    ensures
        version_order(a, a) == Ordering::Equal,
    decreases a.len(),
{
    if a.len() > 0 {
        lemma_digit_run_bounds(a);
        if is_digit(a[0]) {
            law_version_cmp_reflexive(a.skip(digit_run(a)));
        } else {
            law_version_cmp_reflexive(a.drop_first());
        }
    }
}

/// The version order is transitive: `a <= b <= c` gives `a <= c`, strictly
/// when either step is strict.
pub proof fn law_version_cmp_transitive(a: Seq<char>, b: Seq<char>, c: Seq<char>)
    ensures
        version_order(a, b) != Ordering::Greater && version_order(b, c) != Ordering::Greater
            ==> version_order(a, c) != Ordering::Greater,
        version_order(a, b) == Ordering::Less && version_order(b, c) != Ordering::Greater
            ==> version_order(a, c) == Ordering::Less,
        version_order(a, b) != Ordering::Greater && version_order(b, c) == Ordering::Less
            ==> version_order(a, c) == Ordering::Less,
    decreases a.len() + b.len() + c.len(),
{
    if a.len() > 0 && b.len() > 0 && c.len() > 0 {
        lemma_digit_run_bounds(a);
        lemma_digit_run_bounds(b);
        lemma_digit_run_bounds(c);
        if is_digit(a[0]) && is_digit(b[0]) && is_digit(c[0]) {
            law_version_cmp_transitive(
                a.skip(digit_run(a)),
                b.skip(digit_run(b)),
                c.skip(digit_run(c)),
            );
        } else if !is_digit(a[0]) && !is_digit(b[0]) && !is_digit(c[0]) {
            law_version_cmp_transitive(a.drop_first(), b.drop_first(), c.drop_first());
        }
    }
}

/// Swapping the arguments flips the order.
pub proof fn law_version_cmp_antisymmetric(a: Seq<char>, b: Seq<char>)
    ensures
        version_order(b, a) == flip(version_order(a, b)),
    decreases a.len() + b.len(),
{
    if a.len() > 0 && b.len() > 0 {
        lemma_digit_run_bounds(a);
        lemma_digit_run_bounds(b);
        if is_digit(a[0]) && is_digit(b[0]) {
            law_version_cmp_antisymmetric(a.skip(digit_run(a)), b.skip(digit_run(b)));
        } else {
            law_version_cmp_antisymmetric(a.drop_first(), b.drop_first());
        }
    }
}

} // verus!

verus! {

/// The order of two strings (`String::cmp`): by code point, a proper prefix
/// first.
pub open spec fn lex_order(a: Seq<char>, b: Seq<char>) -> Ordering
    decreases a.len(),
{
    if a.len() == 0 && b.len() == 0 {
        Ordering::Equal
    } else if a.len() == 0 {
        Ordering::Less
    } else if b.len() == 0 {
        Ordering::Greater
    } else if a[0] < b[0] {
        Ordering::Less
    } else if a[0] > b[0] {
        Ordering::Greater
    } else {
        lex_order(a.drop_first(), b.drop_first())
    }
}

/// Compares two strings by code point, a proper prefix first.
pub fn lex_cmp(a: &str, b: &str) -> (r: Ordering)
    ensures
        r == lex_order(a@, b@),
{
    let av = chars_of(a);
    let bv = chars_of(b);
    let mut i: usize = 0;
    proof {
        lemma_from_start(av@);
        lemma_from_start(bv@);
    }
    loop
        invariant
            i <= av@.len(),
            i <= bv@.len(),
            lex_order(a@, b@) == lex_order(from(av@, i), from(bv@, i)),
            av@ == a@,
            bv@ == b@,
        decreases av@.len() - i,
    {
        if i == av.len() && i == bv.len() {
            return Ordering::Equal;
        }
        if i == av.len() {
            return Ordering::Less;
        }
        if i == bv.len() {
            return Ordering::Greater;
        }
        proof {
            lemma_char_step(av@, i);
            lemma_char_step(bv@, i);
        }
        if av[i] < bv[i] {
            return Ordering::Less;
        }
        if av[i] > bv[i] {
            return Ordering::Greater;
        }
        i = i + 1;
    }
}

/// Swapping the arguments flips the order.
pub proof fn law_lex_antisymmetric(a: Seq<char>, b: Seq<char>)
    ensures
        lex_order(b, a) == flip(lex_order(a, b)),
    decreases a.len(),
{
    if a.len() > 0 && b.len() > 0 && a[0] == b[0] {
        law_lex_antisymmetric(a.drop_first(), b.drop_first());
    }
}

} // verus!

verus! {

/// The string order is transitive.
pub proof fn law_lex_transitive(a: Seq<char>, b: Seq<char>, c: Seq<char>)
    ensures
        lex_order(a, b) != Ordering::Greater && lex_order(b, c) != Ordering::Greater
            ==> lex_order(a, c) != Ordering::Greater,
        lex_order(a, b) == Ordering::Less && lex_order(b, c) != Ordering::Greater ==> lex_order(a, c)
            == Ordering::Less,
        lex_order(a, b) != Ordering::Greater && lex_order(b, c) == Ordering::Less ==> lex_order(a, c)
            == Ordering::Less,
    decreases a.len(),
{
    if a.len() > 0 && b.len() > 0 && c.len() > 0 {
        law_lex_transitive(a.drop_first(), b.drop_first(), c.drop_first());
    }
}

} // verus!

verus! {

proof fn lemma_digit_run_append(a: Seq<char>, t: Seq<char>)
    requires
        digit_run(a) < a.len() || t.len() == 0 || !is_digit(t[0]),
    ensures
        digit_run(a + t) == digit_run(a),
    decreases a.len(),
{
    if a.len() == 0 {
        assert(a + t =~= t);
    } else {
        assert((a + t)[0] == a[0]);
        if is_digit(a[0]) {
            assert((a + t).drop_first() =~= a.drop_first() + t);
            lemma_digit_run_append(a.drop_first(), t);
        }
    }
}

proof fn lemma_digit_run_all(a: Seq<char>, t: Seq<char>)
    requires
        digit_run(a) == a.len(),
    ensures
        digit_run(a + t) == a.len() + digit_run(t),
        forall|i: int| 0 <= i < a.len() ==> is_digit(#[trigger] a[i]),
    decreases a.len(),
{
    if a.len() == 0 {
        assert(a + t =~= t);
    } else {
        assert((a + t)[0] == a[0]);
        assert((a + t).drop_first() =~= a.drop_first() + t);
        lemma_digit_run_all(a.drop_first(), t);
        assert forall|i: int| 0 <= i < a.len() implies is_digit(#[trigger] a[i]) by {
            if i > 0 {
                assert(a[i] == a.drop_first()[i - 1]);
            }
        }
    }
}

proof fn lemma_digit_run_prefix_digits(s: Seq<char>)
    ensures
        forall|i: int| 0 <= i < digit_run(s) ==> is_digit(#[trigger] s[i]),
    decreases s.len(),
{
    if s.len() > 0 && is_digit(s[0]) {
        lemma_digit_run_prefix_digits(s.drop_first());
        lemma_digit_run_bounds(s);
        lemma_digit_run_bounds(s.drop_first());
        assert forall|i: int| 0 <= i < digit_run(s) implies is_digit(#[trigger] s[i]) by {
            if i > 0 {
                assert(s[i] == s.drop_first()[i - 1]);
            }
        }
    }
}

proof fn lemma_decimal_extend(s: Seq<char>, u: Seq<char>)
    requires
        forall|i: int| 0 <= i < s.len() ==> is_digit(#[trigger] s[i]),
        forall|i: int| 0 <= i < u.len() ==> is_digit(#[trigger] u[i]),
    ensures
        decimal_value(s + u) >= decimal_value(s),
    decreases u.len(),
{
    if u.len() == 0 {
        assert(s + u =~= s);
    } else {
        let w = s + u.drop_last();
        assert((s + u).drop_last() =~= w);
        assert((s + u).last() == u.last());
        assert(forall|i: int| 0 <= i < u.drop_last().len() ==> u.drop_last()[i] == u[i]);
        lemma_decimal_extend(s, u.drop_last());
        assert forall|i: int| 0 <= i < w.len() implies is_digit(#[trigger] w[i]) by {
            if i < s.len() {
                assert(w[i] == s[i]);
            } else {
                assert(w[i] == u[i - s.len()]);
            }
        }
        lemma_decimal_nonneg(w);
        assert(is_digit(u[u.len() - 1]));
    }
}

proof fn lemma_prefix_order(a: Seq<char>, t: Seq<char>)
    ensures
        version_order(a, a + t) != Ordering::Greater,
        t.len() > 0 && !(a.len() > 0 && is_digit(a.last()) && is_digit(t[0])) ==> version_order(
            a,
            a + t,
        ) == Ordering::Less,
    decreases a.len(),
{
    let b = a + t;
    if a.len() == 0 {
        assert(b =~= t);
    } else {
        assert(b[0] == a[0]);
        lemma_digit_run_bounds(a);
        if is_digit(a[0]) {
            let k = digit_run(a);
            lemma_digit_run_bounds(b);
            if k < a.len() || t.len() == 0 || !is_digit(t[0]) {
                lemma_digit_run_append(a, t);
                assert(b.take(k) =~= a.take(k));
                assert(run_value(b) == run_value(a));
                assert(b.skip(k) =~= a.skip(k) + t);
                lemma_prefix_order(a.skip(k), t);
                if a.skip(k).len() > 0 {
                    assert(a.skip(k).last() == a.last());
                } else {
                    assert(k == a.len());
                    lemma_digit_run_prefix_digits(a);
                    assert(is_digit(a[k - 1]));
                }
            } else {
                lemma_digit_run_all(a, t);
                let m = digit_run(t);
                lemma_digit_run_prefix_digits(t);
                lemma_digit_run_bounds(t);
                assert(b.take(k + m) =~= a + t.take(m));
                assert(a.take(k) =~= a);
                lemma_decimal_extend(a, t.take(m));
                assert(run_value(b) >= run_value(a));
                if run_value(b) == run_value(a) {
                    lemma_digit_run_bounds(a.skip(k));
                    assert(a.skip(k).len() == 0);
                    assert(version_order(a.skip(k), b.skip(digit_run(b))) != Ordering::Greater);
                }
            }
        } else {
            assert(b.drop_first() =~= a.drop_first() + t);
            lemma_prefix_order(a.drop_first(), t);
            if a.drop_first().len() > 0 {
                assert(a.drop_first().last() == a.last());
            }
        }
    }
}

/// A version string sorts before every longer string that starts with it,
/// and after none: `a` < `a + t` for non-empty `t` (so `1.0` < `1.0-1` and
/// `1.0` < `1.0+b1`), except where `t` continues the digit run that ends `a`.
/// There the two runs compare by value, so `a` still never sorts after `a + t`
/// (`0` and `00` are equal).
pub proof fn law_version_prefix_sorts_first(a: Seq<char>, t: Seq<char>)
    ensures
        version_order(a, a + t) != Ordering::Greater,
        version_order(a + t, a) != Ordering::Less,
        t.len() > 0 && !(a.len() > 0 && is_digit(a.last()) && is_digit(t[0])) ==> {
            &&& version_order(a, a + t) == Ordering::Less
            &&& version_order(a + t, a) == Ordering::Greater
        },
{
    lemma_prefix_order(a, t);
    law_version_cmp_antisymmetric(a, a + t);
}

} // verus!
