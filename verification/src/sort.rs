//! Stable ordering of listing entries under the listing order: each entry is
//! inserted, in input order, before the first already-placed entry that is
//! not strictly below it, so entries with equal keys keep their input order.

use vstd::prelude::*;
use crate::entry::{FileEntry, FileEntryView};
use crate::order::{
    entry_lt, entry_tied, entry_before, lex_lt, lower_of, lemma_entry_lt_asymmetric,
    lemma_entry_lt_connected,
};
use vstd::seq_lib::lemma_multiset_commutative;
use vstd::seq_lib::group_to_multiset_ensures;
use vstd::multiset::group_multiset_axioms;
use vstd::multiset::Multiset;

verus! {

/// The views of a sequence of entries.
pub open spec fn views_of(s: Seq<FileEntry>) -> Seq<FileEntryView> {
    s.map_values(|e: FileEntry| e@)
}

/// `x` placed into `s` before the first element that is not strictly below
/// `x`; elements strictly below `x` keep their places in front of it.
pub open spec fn insert_ordered(x: FileEntryView, s: Seq<FileEntryView>) -> Seq<FileEntryView>
    decreases s.len(),
{
    if s.len() == 0 {
        seq![x]
    } else if entry_lt(s[0], x) {
        seq![s[0]] + insert_ordered(x, s.drop_first())
    } else {
        seq![x] + s
    }
}

/// The ordered form of a sequence of entries: each element inserted in input
/// order, so the ordering is stable for elements the order ties.
pub open spec fn ordered_entries(s: Seq<FileEntryView>) -> Seq<FileEntryView>
    decreases s.len(),
{
    if s.len() == 0 {
        Seq::empty()
    } else {
        insert_ordered(s[0], ordered_entries(s.drop_first()))
    }
}

/// Sortedness under the listing order: no element is strictly below an
/// earlier one.
pub open spec fn sorted_entries(s: Seq<FileEntryView>) -> bool {
    forall|i: int, j: int| 0 <= i < j < s.len() ==> !entry_lt(s[j], s[i])
}

/// A nonempty sequence's multiset is its tail's multiset plus its head.
proof fn lemma_to_multiset_drop_first(s: Seq<FileEntryView>)
    requires
        s.len() > 0,
    ensures
        s.to_multiset() =~= s.drop_first().to_multiset().insert(s[0]),
{
    broadcast use group_to_multiset_ensures;
    broadcast use group_multiset_axioms;

    vstd::seq_lib::to_multiset_remove(s, 0);
    assert(s.remove(0) =~= s.drop_first());
    assert(s.contains(s[0]));
    assert(s.to_multiset().count(s[0]) > 0);
    assert(s.drop_first().to_multiset().insert(s[0]) =~= s.to_multiset().remove(s[0]).insert(
        s[0],
    ));
}

/// Inserting `x` adds exactly `x` to the contents.
pub proof fn lemma_insert_ordered_multiset(x: FileEntryView, s: Seq<FileEntryView>)
    ensures
        insert_ordered(x, s).to_multiset() =~= s.to_multiset().insert(x),
    decreases s.len(),
{
    broadcast use group_to_multiset_ensures;
    broadcast use group_multiset_axioms;
    broadcast use vstd::seq_lib::to_multiset_build;

    if s.len() == 0 {
        assert(s =~= Seq::<FileEntryView>::empty());
        assert(seq![x] =~= s.push(x));
        assert(s.push(x).to_multiset() =~= s.to_multiset().insert(x));
    } else if entry_lt(s[0], x) {
        lemma_insert_ordered_multiset(x, s.drop_first());
        lemma_multiset_commutative(seq![s[0]], insert_ordered(x, s.drop_first()));
        lemma_to_multiset_drop_first(s);
        lemma_multiset_commutative(seq![s[0]], s.drop_first());
        assert(seq![s[0]] + s.drop_first() =~= s);
        assert(insert_ordered(x, s).to_multiset() =~= s.to_multiset().insert(x));
    } else {
        lemma_multiset_commutative(seq![x], s);
        let e = Seq::<FileEntryView>::empty();
        assert(seq![x] =~= e.push(x));
        assert(e.push(x).to_multiset() =~= e.to_multiset().insert(x));
        assert(forall|a: FileEntryView| !e.contains(a));
        assert(forall|a: FileEntryView| e.to_multiset().count(a) == 0);
        assert(e.to_multiset() =~= Multiset::<FileEntryView>::empty());
        assert(insert_ordered(x, s).to_multiset() =~= s.to_multiset().insert(x));
    }
}

/// Inserting into a sorted sequence yields a sorted sequence.
pub proof fn lemma_insert_ordered_sorted(x: FileEntryView, s: Seq<FileEntryView>)
    requires
        sorted_entries(s),
    ensures
        sorted_entries(insert_ordered(x, s)),
    decreases s.len(),
{
    broadcast use group_to_multiset_ensures;
    broadcast use group_multiset_axioms;

    let r = insert_ordered(x, s);
    if s.len() == 0 {
        assert(sorted_entries(r));
    } else if entry_lt(s[0], x) {
        let t = insert_ordered(x, s.drop_first());
        assert(sorted_entries(s.drop_first())) by {
            assert(forall|i: int, j: int|
                0 <= i < j < s.drop_first().len() ==> s.drop_first()[i] == s[i + 1]
                    && s.drop_first()[j] == s[j + 1]);
        }
        lemma_insert_ordered_sorted(x, s.drop_first());
        lemma_insert_ordered_multiset(x, s.drop_first());
        // every element of the tail of `r` is either `x` or an element of
        // `s.drop_first()`, and neither is strictly below `s[0]`
        assert forall|j: int| 1 <= j < r.len() implies !entry_lt(r[j], r[0]) by {
            assert(r[0] == s[0]);
            assert(r[j] == t[j - 1]);
            assert(t.contains(t[j - 1]));
            assert(t.to_multiset().count(t[j - 1]) > 0);
            if t[j - 1] == x {
                lemma_entry_lt_asymmetric(s[0], x);
            } else {
                assert(s.drop_first().to_multiset().count(t[j - 1]) > 0);
                assert(s.drop_first().contains(t[j - 1]));
                let k = choose|k: int|
                    0 <= k < s.drop_first().len() && s.drop_first()[k] == t[j - 1];
                assert(s.drop_first()[k] == s[k + 1]);
                assert(!entry_lt(s[k + 1], s[0]));
            }
        }
        assert forall|i: int, j: int| 0 <= i < j < r.len() implies !entry_lt(r[j], r[i]) by {
            if i > 0 {
                assert(r[i] == t[i - 1] && r[j] == t[j - 1]);
            }
        }
    } else {
        // r == seq![x] + s: nothing in s is strictly below x
        assert forall|j: int| 1 <= j < r.len() implies !entry_lt(r[j], r[0]) by {
            assert(r[0] == x);
            assert(r[j] == s[j - 1]);
            if entry_lt(s[j - 1], x) {
                lemma_entry_lt_connected(s[j - 1], x, s[0]);
                assert(entry_lt(s[j - 1], s[0]) || entry_lt(s[0], x));
                assert(j - 1 > 0 ==> !entry_lt(s[j - 1], s[0]));
                assert(false);
            }
        }
        assert forall|i: int, j: int| 0 <= i < j < r.len() implies !entry_lt(r[j], r[i]) by {
            if i > 0 {
                assert(r[i] == s[i - 1] && r[j] == s[j - 1]);
            }
        }
    }
}

/// The ordered form of any sequence is sorted.
pub proof fn lemma_ordered_entries_sorted(s: Seq<FileEntryView>)
    ensures
        sorted_entries(ordered_entries(s)),
    decreases s.len(),
{
    if s.len() > 0 {
        lemma_ordered_entries_sorted(s.drop_first());
        lemma_insert_ordered_sorted(s[0], ordered_entries(s.drop_first()));
    }
}

/// Ordering a sequence permutes it: the contents are unchanged.
pub proof fn lemma_ordered_entries_permutes(s: Seq<FileEntryView>)
    ensures
        ordered_entries(s).to_multiset() =~= s.to_multiset(),
    decreases s.len(),
{
    broadcast use group_multiset_axioms;

    if s.len() == 0 {
        assert(s =~= Seq::<FileEntryView>::empty());
    } else {
        let t = ordered_entries(s.drop_first());
        lemma_ordered_entries_permutes(s.drop_first());
        lemma_insert_ordered_multiset(s[0], t);
        lemma_to_multiset_drop_first(s);
        assert(insert_ordered(s[0], t).to_multiset() =~= s.drop_first().to_multiset().insert(
            s[0],
        ));
    }
}

/// What sortedness says entry by entry: every directory precedes every file,
/// and entries of the same classification come in ascending order of their
/// case-folded names.
pub proof fn lemma_sorted_entries_grouped(s: Seq<FileEntryView>)
    requires
        sorted_entries(s),
    ensures
        forall|i: int, j: int| 0 <= i < j < s.len() && s[j].is_directory ==> s[i].is_directory,
        forall|i: int, j: int|
            0 <= i < j < s.len() && s[i].is_directory == s[j].is_directory ==> !lex_lt(
                lower_of(s[j].name),
                lower_of(s[i].name),
            ),
{
    assert forall|i: int, j: int|
        0 <= i < j < s.len() && s[j].is_directory implies s[i].is_directory by {
        assert(!entry_lt(s[j], s[i]));
    }
    assert forall|i: int, j: int|
        0 <= i < j < s.len() && s[i].is_directory == s[j].is_directory implies !lex_lt(
        lower_of(s[j].name),
        lower_of(s[i].name),
    ) by {
        assert(!entry_lt(s[j], s[i]));
    }
}

/// What `filter` keeps of a one-element sequence.
proof fn lemma_filter_singleton(x: FileEntryView, p: spec_fn(FileEntryView) -> bool)
    ensures
        p(x) ==> seq![x].filter(p) == seq![x],
        !p(x) ==> seq![x].filter(p) == Seq::<FileEntryView>::empty(),
{
    reveal_with_fuel(Seq::filter, 2);
    assert(seq![x].drop_last() =~= Seq::<FileEntryView>::empty());
    assert(seq![x].last() == x);
    if p(x) {
        assert(seq![x].filter(p) =~= Seq::<FileEntryView>::empty().push(x));
        assert(Seq::<FileEntryView>::empty().push(x) =~= seq![x]);
    }
}

/// Inserting `x` leaves the subsequence of entries tied with `k` unchanged,
/// except that `x` itself, if tied with `k`, lands at its front.
proof fn lemma_insert_ordered_filter(x: FileEntryView, t: Seq<FileEntryView>, k: FileEntryView)
    ensures
        entry_tied(x, k) ==> insert_ordered(x, t).filter(|e: FileEntryView| entry_tied(e, k))
            == seq![x] + t.filter(|e: FileEntryView| entry_tied(e, k)),
        !entry_tied(x, k) ==> insert_ordered(x, t).filter(|e: FileEntryView| entry_tied(e, k))
            == t.filter(|e: FileEntryView| entry_tied(e, k)),
    decreases t.len(),
{
    let p = |e: FileEntryView| entry_tied(e, k);
    if t.len() == 0 {
        reveal(Seq::filter);
        lemma_filter_singleton(x, p);
        if p(x) {
            assert(seq![x] + t.filter(p) =~= seq![x]);
        }
    } else if entry_lt(t[0], x) {
        lemma_insert_ordered_filter(x, t.drop_first(), k);
        Seq::filter_distributes_over_add(seq![t[0]], insert_ordered(x, t.drop_first()), p);
        Seq::filter_distributes_over_add(seq![t[0]], t.drop_first(), p);
        lemma_filter_singleton(t[0], p);
        assert(seq![t[0]] + t.drop_first() =~= t);
        assert(insert_ordered(x, t) == seq![t[0]] + insert_ordered(x, t.drop_first()));
        if p(x) {
            // `t[0]` is strictly below `x`, so it cannot be tied with `k`
            if p(t[0]) {
                lemma_entry_lt_connected(t[0], x, k);
                assert(false);
            }
            assert(insert_ordered(x, t).filter(p) =~= seq![x] + t.filter(p));
        } else {
            assert(insert_ordered(x, t).filter(p) =~= t.filter(p));
        }
    } else {
        Seq::filter_distributes_over_add(seq![x], t, p);
        lemma_filter_singleton(x, p);
        assert(insert_ordered(x, t) == seq![x] + t);
        if !p(x) {
            assert(insert_ordered(x, t).filter(p) =~= t.filter(p));
        }
    }
}

/// The ordering is stable: for any reference entry `k`, the entries tied
/// with `k` appear in the ordered result exactly in their input order.
pub proof fn lemma_ordered_entries_stable(s: Seq<FileEntryView>, k: FileEntryView)
    ensures
        ordered_entries(s).filter(|e: FileEntryView| entry_tied(e, k)) == s.filter(
            |e: FileEntryView| entry_tied(e, k),
        ),
    decreases s.len(),
{
    let p = |e: FileEntryView| entry_tied(e, k);
    if s.len() == 0 {
        reveal(Seq::filter);
        assert(ordered_entries(s) == s);
    } else {
        lemma_ordered_entries_stable(s.drop_first(), k);
        lemma_insert_ordered_filter(s[0], ordered_entries(s.drop_first()), k);
        Seq::filter_distributes_over_add(seq![s[0]], s.drop_first(), p);
        lemma_filter_singleton(s[0], p);
        assert(seq![s[0]] + s.drop_first() =~= s);
        if p(s[0]) {
            assert(s.filter(p) =~= seq![s[0]] + s.drop_first().filter(p));
            assert(ordered_entries(s).filter(p) =~= s.filter(p));
        } else {
            assert(s.filter(p) =~= s.drop_first().filter(p));
        }
    }
}

/// `insert_ordered` lands `x` at the first position whose element is not
/// strictly below `x`, leaving everything else in place.
proof fn lemma_insert_ordered_at(x: FileEntryView, s: Seq<FileEntryView>, p: int)
    requires
        0 <= p <= s.len(),
        forall|i: int| 0 <= i < p ==> entry_lt(s[i], x),
        p < s.len() ==> !entry_lt(s[p], x),
    ensures
        insert_ordered(x, s) =~= s.take(p) + seq![x] + s.skip(p),
    decreases p,
{
    if p == 0 {
        if s.len() == 0 {
            assert(insert_ordered(x, s) =~= s.take(0) + seq![x] + s.skip(0));
        } else {
            assert(insert_ordered(x, s) == seq![x] + s);
            assert(seq![x] + s =~= s.take(0) + seq![x] + s.skip(0));
        }
    } else {
        assert(entry_lt(s[0], x));
        assert forall|i: int| 0 <= i < p - 1 implies entry_lt(s.drop_first()[i], x) by {
            assert(s.drop_first()[i] == s[i + 1]);
        }
        assert(p - 1 < s.drop_first().len() ==> !entry_lt(s.drop_first()[p - 1], x)) by {
            if p - 1 < s.drop_first().len() {
                assert(s.drop_first()[p - 1] == s[p]);
            }
        }
        lemma_insert_ordered_at(x, s.drop_first(), p - 1);
        assert(seq![s[0]] + (s.drop_first().take(p - 1) + seq![x] + s.drop_first().skip(p - 1))
            =~= s.take(p) + seq![x] + s.skip(p));
    }
}

/// Places `x` into the already-ordered `v`, before the first entry that the
/// listing order does not put strictly below `x`.
pub fn insert_entry(v: &mut Vec<FileEntry>, x: FileEntry)
    ensures
        views_of(final(v)@) == insert_ordered(x@, views_of(old(v)@)),
{
    let ghost s = views_of(v@);
    let mut j: usize = 0;
    while j < v.len() && entry_before(&v[j], &x)
        invariant
            j <= v.len(),
            v@ == old(v)@,
            s == views_of(v@),
            forall|i: int| 0 <= i < j ==> entry_lt(s[i], x@),
        decreases v.len() - j,
    {
        assert(s[j as int] == v@[j as int]@);
        j = j + 1;
    }
    assert(j < v.len() ==> !entry_lt(s[j as int], x@));
    let ghost xv = x@;
    v.insert(j, x);
    proof {
        lemma_insert_ordered_at(xv, s, j as int);
        assert(views_of(v@) =~= s.take(j as int) + seq![xv] + s.skip(j as int));
    }
}

/// Orders a vector of entries: the result is exactly the stable ordered form
/// of the input.
pub fn sort_entries(entries: Vec<FileEntry>) -> (r: Vec<FileEntry>)
    ensures
        views_of(r@) == ordered_entries(views_of(entries@)),
{
    let ghost orig = entries@;
    let mut rest = entries;
    let mut result: Vec<FileEntry> = Vec::new();
    proof {
        assert(rest@ =~= orig.take(rest@.len() as int));
        assert(orig.skip(orig.len() as int) =~= Seq::<FileEntry>::empty());
        assert(views_of(Seq::<FileEntry>::empty()) =~= Seq::<FileEntryView>::empty());
        assert(views_of(result@) =~= Seq::<FileEntryView>::empty());
    }
    while rest.len() > 0
        invariant
            rest@.len() <= orig.len(),
            rest@ == orig.take(rest@.len() as int),
            views_of(result@) == ordered_entries(views_of(orig.skip(rest@.len() as int))),
        decreases rest.len(),
    {
        let ghost k: int = rest@.len() as int;
        let x = rest.pop().unwrap();
        proof {
            assert(x == orig.take(k)[k - 1]);
            assert(x == orig[k - 1]);
            assert(rest@ =~= orig.take(k - 1));
        }
        insert_entry(&mut result, x);
        proof {
            let tail = views_of(orig.skip(k - 1));
            assert(tail.len() > 0);
            assert(tail[0] == orig[k - 1]@);
            assert(tail.drop_first() =~= views_of(orig.skip(k)));
            assert(ordered_entries(tail) == insert_ordered(
                orig[k - 1]@,
                ordered_entries(views_of(orig.skip(k))),
            ));
        }
    }
    proof {
        assert(orig.skip(0) =~= orig);
    }
    result
}

} // verus!
