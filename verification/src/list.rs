//! `chancery list`: the index sorted by id, version and suite, as a table.

use vstd::prelude::*;
use std::cmp::Ordering;
use crate::text::{string_of, push_str};
use crate::version::{lex_order, version_order, lex_cmp, version_cmp, law_lex_antisymmetric, law_lex_transitive, law_version_cmp_antisymmetric};
use crate::repo::{Entry, EntryView, entries};

verus! {

/// The listing order: by id, then by version (`version_order`), then by
/// suite.
pub open spec fn entry_order(a: EntryView, b: EntryView) -> Ordering {
    match lex_order(a.name, b.name) {
        Ordering::Equal => match version_order(a.version, b.version) {
            Ordering::Equal => lex_order(a.suite, b.suite),
            o => o,
        },
        o => o,
    }
}

/// `a` sorts strictly before `b`.
pub open spec fn entry_before(a: EntryView, b: EntryView) -> bool {
    entry_order(a, b) == Ordering::Less
}

/// Whether `a` sorts strictly before `b`.
pub fn entry_less(a: &Entry, b: &Entry) -> (r: bool)
    ensures
        r == entry_before(a@, b@),
{
    match lex_cmp(a.name.as_str(), b.name.as_str()) {
        Ordering::Less => true,
        Ordering::Greater => false,
        Ordering::Equal => match version_cmp(a.version.as_str(), b.version.as_str()) {
            Ordering::Less => true,
            Ordering::Greater => false,
            Ordering::Equal => match lex_cmp(a.suite.as_str(), b.suite.as_str()) {
                Ordering::Less => true,
                _ => false,
            },
        },
    }
}

/// Of two entries, at most one sorts before the other.
pub proof fn law_entry_before_asymmetric(a: EntryView, b: EntryView)
    ensures
        entry_before(a, b) ==> !entry_before(b, a),
{
    law_lex_antisymmetric(a.name, b.name);
    law_version_cmp_antisymmetric(a.version, b.version);
    law_lex_antisymmetric(a.suite, b.suite);
}

} // verus!

verus! {

/// `s` with `x` inserted after the last element that `x` does not sort
/// before (one step of a stable insertion sort).
pub open spec fn sorted_insert(s: Seq<EntryView>, x: EntryView) -> Seq<EntryView>
    decreases s.len(),
{
    if s.len() > 0 && entry_before(x, s.last()) {
        sorted_insert(s.drop_last(), x).push(s.last())
    } else {
        s.push(x)
    }
}

/// The stable sort of `s` in the listing order.
pub open spec fn sorted_spec(s: Seq<EntryView>) -> Seq<EntryView>
    decreases s.len(),
{
    if s.len() == 0 {
        Seq::empty()
    } else {
        sorted_insert(sorted_spec(s.drop_last()), s.last())
    }
}

/// No element sorts before the one just ahead of it.
pub open spec fn is_sorted(s: Seq<EntryView>) -> bool {
    forall|i: int| 0 <= i < s.len() - 1 ==> !entry_before(#[trigger] s[i + 1], s[i])
}

proof fn lemma_sorted_insert_step(r: Seq<EntryView>, x: EntryView, j: int)
    requires
        0 < j <= r.len(),
        entry_before(x, r[j - 1]),
        sorted_insert(r, x) == sorted_insert(r.take(j), x) + r.skip(j),
    ensures
        sorted_insert(r, x) == sorted_insert(r.take(j - 1), x) + r.skip(j - 1),
{
    let t = r.take(j);
    assert(t.last() == r[j - 1]);
    assert(t.drop_last() == r.take(j - 1));
    assert(sorted_insert(t, x) == sorted_insert(r.take(j - 1), x).push(r[j - 1]));
    assert(sorted_insert(r.take(j - 1), x).push(r[j - 1]) + r.skip(j) =~= sorted_insert(
        r.take(j - 1),
        x,
    ) + r.skip(j - 1));
}

/// Sorts the index in the listing order, stably.
pub fn sort_entries(db: Vec<Entry>) -> (r: Vec<Entry>)
    ensures
        entries(r@) == sorted_spec(entries(db@)),
{
    let ghost all = entries(db@);
    let ghost dbv = db@;
    let mut r: Vec<Entry> = Vec::new();
    assert(all.take(0) =~= Seq::<EntryView>::empty());
    for x in it: db
        invariant
            it.seq() == dbv,
            all == entries(dbv),
            entries(r@) == sorted_spec(all.take(it.index() as int)),
    {
        let ghost rv = entries(r@);
        let mut j = r.len();
        assert(rv.take(rv.len() as int) == rv);
        assert(rv.skip(rv.len() as int) =~= Seq::<EntryView>::empty());
        while j > 0 && entry_less(&x, &r[j - 1])
            invariant
                j <= r@.len(),
                rv == entries(r@),
                sorted_insert(rv, x@) == sorted_insert(rv.take(j as int), x@) + rv.skip(j as int),
            decreases j,
        {
            proof {
                lemma_sorted_insert_step(rv, x@, j as int);
            }
            j = j - 1;
        }
        proof {
            assert(sorted_insert(rv.take(j as int), x@) == rv.take(j as int).push(x@));
            assert(entries(r@.insert(j as int, x)) =~= rv.insert(j as int, x@));
            assert(rv.take(j as int).push(x@) + rv.skip(j as int) =~= rv.insert(j as int, x@));
            assert(x == dbv[it.index() as int]);
            let t = all.take(it.index() + 1);
            assert(t.drop_last() == all.take(it.index() as int));
            assert(t.last() == x@);
        }
        r.insert(j, x);
    }
    assert(all.take(all.len() as int) == all);
    r
}

proof fn lemma_sorted_insert_last(s: Seq<EntryView>, x: EntryView)
    ensures
        sorted_insert(s, x).len() == s.len() + 1,
        sorted_insert(s, x).last() == x || (s.len() > 0 && sorted_insert(s, x).last() == s.last()),
    decreases s.len(),
{
    if s.len() > 0 && entry_before(x, s.last()) {
        lemma_sorted_insert_last(s.drop_last(), x);
    }
}

proof fn lemma_sorted_insert_sorted(s: Seq<EntryView>, x: EntryView)
    requires
        is_sorted(s),
    ensures
        is_sorted(sorted_insert(s, x)),
        sorted_insert(s, x).to_multiset() == s.to_multiset().insert(x),
    decreases s.len(),
{
    broadcast use vstd::seq_lib::to_multiset_build;

    if s.len() > 0 && entry_before(x, s.last()) {
        let u = s.drop_last();
        assert(is_sorted(u)) by {
            assert forall|i: int| 0 <= i < u.len() - 1 implies !entry_before(#[trigger] u[i + 1], u[i]) by {
                assert(u[i + 1] == s[i + 1] && u[i] == s[i]);
            }
        }
        lemma_sorted_insert_sorted(u, x);
        lemma_sorted_insert_last(u, x);
        let t = sorted_insert(u, x);
        let r = t.push(s.last());
        law_entry_before_asymmetric(x, s.last());
        if t.last() != x {
            assert(u.len() > 0 && t.last() == u.last());
            assert(u.last() == s[s.len() - 2]);
            let k = s.len() - 2;
            assert(!entry_before(s[k + 1], s[k]));
        }
        assert forall|i: int| 0 <= i < r.len() - 1 implies !entry_before(#[trigger] r[i + 1], r[i]) by {
            if i < r.len() - 2 {
                assert(r[i + 1] == t[i + 1] && r[i] == t[i]);
            } else {
                assert(r[i] == t.last());
            }
        }
        assert(s == u.push(s.last()));
        assert(r.to_multiset() == t.to_multiset().insert(s.last()));
        assert(s.to_multiset() == u.to_multiset().insert(s.last()));
        assert(r.to_multiset() =~= s.to_multiset().insert(x));
    } else {
        let r = s.push(x);
        assert forall|i: int| 0 <= i < r.len() - 1 implies !entry_before(#[trigger] r[i + 1], r[i]) by {
            if i < r.len() - 2 {
                assert(r[i + 1] == s[i + 1] && r[i] == s[i]);
            }
        }
    }
}

/// The listing order sorts: the result is a rearrangement of the index in
/// which no entry sorts before the one ahead of it.
pub proof fn law_sorted_spec(s: Seq<EntryView>)
    ensures
        is_sorted(sorted_spec(s)),
        sorted_spec(s).to_multiset() == s.to_multiset(),
    decreases s.len(),
{
    broadcast use vstd::seq_lib::to_multiset_build;

    if s.len() > 0 {
        law_sorted_spec(s.drop_last());
        lemma_sorted_insert_sorted(sorted_spec(s.drop_last()), s.last());
        assert(s == s.drop_last().push(s.last()));
    } else {
        assert(sorted_spec(s) =~= s);
    }
}

} // verus!

verus! {

/// `s` padded on the right with spaces to `w` characters (`{:<w}`).
pub open spec fn pad(s: Seq<char>, w: int) -> Seq<char> {
    if s.len() >= w {
        s
    } else {
        s + Seq::new((w - s.len()) as nat, |i: int| ' ')
    }
}

/// One line of the table.
pub open spec fn row_spec(a: Seq<char>, b: Seq<char>, c: Seq<char>, d: Seq<char>, e: Seq<char>) -> Seq<char> {
    pad(a, 20) + seq![' '] + pad(b, 12) + seq![' '] + pad(c, 8) + seq![' '] + pad(d, 10) + seq![' ']
        + e + seq!['\n']
}

pub open spec fn header_row() -> Seq<char> {
    row_spec("PACKAGE"@, "VERSION"@, "ARCH"@, "SUITE"@, "COMPONENT"@)
}

pub open spec fn entry_row(e: EntryView) -> Seq<char> {
    row_spec(e.name, e.version, e.arch, e.suite, e.component)
}

pub open spec fn table_rows(s: Seq<EntryView>) -> Seq<char>
    decreases s.len(),
{
    if s.len() == 0 {
        Seq::empty()
    } else {
        table_rows(s.drop_last()) + entry_row(s.last())
    }
}

/// What `chancery list` prints: `(no packages)`, or a header and one row per
/// entry in the listing order.
pub open spec fn list_spec(db: Seq<EntryView>) -> Seq<char> {
    if db.len() == 0 {
        "(no packages)\n"@
    } else {
        header_row() + table_rows(sorted_spec(db))
    }
}

fn push_padded(out: &mut Vec<char>, s: &str, w: usize)
    ensures
        final(out)@ == old(out)@ + pad(s@, w as int),
{
    let ghost start = out@;
    let v = crate::text::chars_of(s);
    push_str(out, s);
    let mut n = v.len();
    let ghost mid = out@;
    while n < w
        invariant
            v@ == s@,
            s@.len() <= n <= w || (n == s@.len() && n >= w),
            out@ == mid + Seq::new((n - s@.len()) as nat, |i: int| ' '),
        decreases w - n,
    {
        out.push(' ');
        n = n + 1;
        assert(out@ =~= mid + Seq::new((n - s@.len()) as nat, |i: int| ' '));
    }
    proof {
        if s@.len() >= w {
            assert(out@ =~= start + s@);
        } else {
            assert(out@ =~= start + pad(s@, w as int));
        }
    }
}

fn push_row(out: &mut Vec<char>, a: &str, b: &str, c: &str, d: &str, e: &str)
    ensures
        final(out)@ == old(out)@ + row_spec(a@, b@, c@, d@, e@),
{
    let ghost start = out@;
    push_padded(out, a, 20);
    out.push(' ');
    push_padded(out, b, 12);
    out.push(' ');
    push_padded(out, c, 8);
    out.push(' ');
    push_padded(out, d, 10);
    out.push(' ');
    push_str(out, e);
    out.push('\n');
    assert(out@ =~= start + row_spec(a@, b@, c@, d@, e@));
}

/// What `chancery list` prints for the index `db`.
pub fn list_text(db: Vec<Entry>) -> (s: String)
    ensures
        s@ == list_spec(entries(db@)),
{
    let mut out: Vec<char> = Vec::new();
    if db.len() == 0 {
        push_str(&mut out, "(no packages)\n");
        return string_of(&out);
    }
    let ghost dbv = entries(db@);
    let sorted = sort_entries(db);
    push_row(&mut out, "PACKAGE", "VERSION", "ARCH", "SUITE", "COMPONENT");
    let ghost pre = out@;
    let ghost sv = entries(sorted@);
    assert(sv.take(0) =~= Seq::<EntryView>::empty());
    let mut i: usize = 0;
    while i < sorted.len()
        invariant
            i <= sorted@.len(),
            sv == entries(sorted@),
            out@ == pre + table_rows(sv.take(i as int)),
        decreases sorted.len() - i,
    {
        let e = &sorted[i];
        push_row(
            &mut out,
            e.name.as_str(),
            e.version.as_str(),
            e.arch.as_str(),
            e.suite.as_str(),
            e.component.as_str(),
        );
        proof {
            assert(sv.take(i + 1).drop_last() == sv.take(i as int));
            assert(sv.take(i + 1).last() == e@);
            assert(out@ =~= pre + table_rows(sv.take(i + 1)));
        }
        i = i + 1;
    }
    assert(sv.take(sv.len() as int) == sv);
    string_of(&out)
}

} // verus!

verus! {

/// `a` does not sort after `b`.
pub open spec fn entry_le(a: EntryView, b: EntryView) -> bool {
    !entry_before(b, a)
}

/// The listing order is transitive.
pub proof fn law_entry_order_transitive(a: EntryView, b: EntryView, c: EntryView)
    ensures
        entry_le(a, b) && entry_le(b, c) ==> entry_le(a, c),
{
    law_lex_antisymmetric(a.name, b.name);
    law_lex_antisymmetric(b.name, c.name);
    law_lex_antisymmetric(a.name, c.name);
    law_version_cmp_antisymmetric(a.version, b.version);
    law_version_cmp_antisymmetric(b.version, c.version);
    law_version_cmp_antisymmetric(a.version, c.version);
    law_lex_antisymmetric(a.suite, b.suite);
    law_lex_antisymmetric(b.suite, c.suite);
    law_lex_antisymmetric(a.suite, c.suite);
    law_lex_transitive(a.name, b.name, c.name);
    law_lex_transitive(c.name, b.name, a.name);
    crate::version::law_version_cmp_transitive(a.version, b.version, c.version);
    crate::version::law_version_cmp_transitive(c.version, b.version, a.version);
    law_lex_transitive(a.suite, b.suite, c.suite);
    law_lex_transitive(c.suite, b.suite, a.suite);
}

/// In the sorted index no entry sorts after a later one.
pub proof fn law_sorted_pairwise(s: Seq<EntryView>)
    ensures
        forall|i: int, j: int| 0 <= i < j < sorted_spec(s).len() ==> entry_le(
            #[trigger] sorted_spec(s)[i],
            #[trigger] sorted_spec(s)[j],
        ),
{
    law_sorted_spec(s);
    let r = sorted_spec(s);
    assert forall|i: int, j: int| 0 <= i < j < r.len() implies entry_le(#[trigger] r[i], #[trigger] r[j]) by {
        lemma_adjacent_chain(r, i, j);
    }
}

proof fn lemma_adjacent_chain(r: Seq<EntryView>, i: int, j: int)
    requires
        is_sorted(r),
        0 <= i < j < r.len(),
    ensures
        entry_le(r[i], r[j]),
    decreases j - i,
{
    let k = j - 1;
    assert(!entry_before(r[k + 1], r[k]));
    if i < k {
        lemma_adjacent_chain(r, i, k);
        law_entry_order_transitive(r[i], r[k], r[j]);
    }
}

} // verus!
