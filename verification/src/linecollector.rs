//! The frequency collector: a map from line text to occurrence count,
//! together with a counter of all insertions ever made.

use lazysort::SortedBy;
use vstd::prelude::*;
use vstd::multiset::Multiset;
use vstd::relations::sorted_by;
use vstd::seq_lib::group_to_multiset_ensures;
use vstd::seq_lib::lemma_sorted_unique;

use crate::order::lemma_rank_total_ordering;
use crate::order::pair_view;
use crate::order::pairs_view;
use crate::order::rank_cmp;
use crate::order::rank_order;

verus! {

/// `rv` lists each line of `m` exactly once, together with its count.
pub open spec fn is_ranking(rv: Seq<(nat, Seq<char>)>, m: Map<Seq<char>, nat>) -> bool {
    &&& forall|i: int|
        0 <= i < rv.len() ==> m.dom().contains((#[trigger] rv[i]).1) && m[rv[i].1] == rv[i].0
    &&& forall|i: int, j: int| 0 <= i < j < rv.len() ==> (#[trigger] rv[i]).1 != (#[trigger] rv[j]).1
    &&& forall|k: Seq<char>|
        #[trigger] m.dom().contains(k) ==> (exists|i: int| 0 <= i < rv.len() && (#[trigger] rv[i]).1 == k)
}

/// Sum of the counts of a ranking's entries.
pub open spec fn sum_ranked(rv: Seq<(nat, Seq<char>)>) -> nat
    decreases rv.len(),
{
    if rv.len() == 0 {
        0
    } else {
        sum_ranked(rv.drop_last()) + rv.last().0
    }
}

/// Occurrence count of `k` in `m`, taking absent keys as zero.
pub open spec fn cnt(m: Map<Seq<char>, nat>, k: Seq<char>) -> nat {
    if m.dom().contains(k) {
        m[k]
    } else {
        0
    }
}

/// The effect of one insertion on the counts map.
pub open spec fn bump(m: Map<Seq<char>, nat>, k: Seq<char>) -> Map<Seq<char>, nat> {
    m.insert(k, cnt(m, k) + 1)
}

/// The counts map that a sequence of insertions leaves behind, starting
/// from `m`.
pub open spec fn counts_after(m: Map<Seq<char>, nat>, lines: Seq<Seq<char>>) -> Map<
    Seq<char>,
    nat,
>
    decreases lines.len(),
{
    if lines.len() == 0 {
        m
    } else {
        bump(counts_after(m, lines.drop_last()), lines.last())
    }
}

/// The counts map described by a sequence of (line, count) entries.
spec fn counts_of(s: Seq<(String, usize)>) -> Map<Seq<char>, nat>
    decreases s.len(),
{
    if s.len() == 0 {
        Map::empty()
    } else {
        counts_of(s.drop_last()).insert(s.last().0@, s.last().1 as nat)
    }
}

/// Sum of the counts of a sequence of entries.
spec fn sum_counts(s: Seq<(String, usize)>) -> nat
    decreases s.len(),
{
    if s.len() == 0 {
        0
    } else {
        sum_counts(s.drop_last()) + s.last().1 as nat
    }
}

/// Entries hold pairwise distinct lines, each with a positive count.
spec fn entries_wf(s: Seq<(String, usize)>) -> bool {
    &&& forall|i: int, j: int| 0 <= i < j < s.len() ==> s[i].0@ != s[j].0@
    &&& forall|i: int| 0 <= i < s.len() ==> (#[trigger] s[i]).1 >= 1
}

proof fn lemma_entries_wf_drop_last(s: Seq<(String, usize)>)
    requires
        entries_wf(s),
        s.len() > 0,
    ensures
        entries_wf(s.drop_last()),
{
    let t = s.drop_last();
    assert forall|i: int| 0 <= i < t.len() implies (#[trigger] t[i]).1 >= 1 by {
        assert(t[i] == s[i]);
    }
}

/// The shape of the counts map of well-formed entries: its keys are exactly
/// the entry lines, and each key maps to its entry's count.
proof fn lemma_counts_of_props(s: Seq<(String, usize)>)
    requires
        entries_wf(s),
    ensures
        counts_of(s).dom().finite(),
        counts_of(s).dom().len() == s.len(),
        forall|k: Seq<char>|
            counts_of(s).dom().contains(k) <==> (exists|i: int|
                0 <= i < s.len() && (#[trigger] s[i]).0@ == k),
        forall|i: int|
            0 <= i < s.len() ==> counts_of(s).dom().contains(#[trigger] s[i].0@) && counts_of(
                s,
            )[s[i].0@] == s[i].1 as nat,
    decreases s.len(),
{
    if s.len() == 0 {
    } else {
        let t = s.drop_last();
        let last = s.last();
        lemma_entries_wf_drop_last(s);
        lemma_counts_of_props(t);
        assert(forall|i: int| 0 <= i < t.len() ==> #[trigger] t[i] == s[i]);
        // the last line is new, so the insert grows the domain by one
        assert(!counts_of(t).dom().contains(last.0@)) by {
            if counts_of(t).dom().contains(last.0@) {
                let i = choose|i: int| 0 <= i < t.len() && (#[trigger] t[i]).0@ == last.0@;
                assert(s[i].0@ == s[s.len() - 1].0@);
            }
        }
        assert(counts_of(s).dom() =~= counts_of(t).dom().insert(last.0@));
        assert forall|i: int|
            0 <= i < s.len() implies counts_of(s).dom().contains(#[trigger] s[i].0@) && counts_of(
            s,
        )[s[i].0@] == s[i].1 as nat by {
            if i < s.len() - 1 {
                assert(s[i] == t[i]);
                assert(s[i].0@ != last.0@);
            }
        }
        assert forall|k: Seq<char>| counts_of(s).dom().contains(k) implies (exists|i: int|
            0 <= i < s.len() && (#[trigger] s[i]).0@ == k) by {
            if counts_of(t).dom().contains(k) {
                let i = choose|i: int| 0 <= i < t.len() && (#[trigger] t[i]).0@ == k;
                assert(s[i].0@ == k);
            } else {
                assert(s[s.len() - 1].0@ == k);
            }
        }
    }
}

/// Every entry's count is bounded by the sum of all counts.
proof fn lemma_sum_counts_bound(s: Seq<(String, usize)>, i: int)
    requires
        0 <= i < s.len(),
    ensures
        s[i].1 <= sum_counts(s),
    decreases s.len(),
{
    if i < s.len() - 1 {
        assert(s.drop_last()[i] == s[i]);
        lemma_sum_counts_bound(s.drop_last(), i);
    }
}

/// Replacing one entry changes the sum by the difference of the counts.
proof fn lemma_sum_counts_update(s: Seq<(String, usize)>, i: int, e: (String, usize))
    requires
        0 <= i < s.len(),
    ensures
        sum_counts(s.update(i, e)) == sum_counts(s) - s[i].1 + e.1,
    decreases s.len(),
{
    let u = s.update(i, e);
    if i == s.len() - 1 {
        assert(u.drop_last() =~= s.drop_last());
        assert(u.last() == e);
    } else {
        assert(u.drop_last() =~= s.drop_last().update(i, e));
        assert(u.last() == s.last());
        assert(s.drop_last()[i] == s[i]);
        lemma_sum_counts_update(s.drop_last(), i, e);
    }
}

/// Raising one entry's count is an insert on the counts map.
proof fn lemma_counts_of_update(s: Seq<(String, usize)>, i: int, c: usize)
    requires
        entries_wf(s),
        0 <= i < s.len(),
    ensures
        counts_of(s.update(i, (s[i].0, c))) =~= counts_of(s).insert(s[i].0@, c as nat),
    decreases s.len(),
{
    let e = (s[i].0, c);
    let u = s.update(i, e);
    let t = s.drop_last();
    lemma_entries_wf_drop_last(s);
    if i == s.len() - 1 {
        assert(u.drop_last() =~= t);
        assert(u.last() == e);
        assert(counts_of(u) =~= counts_of(t).insert(s[i].0@, c as nat));
        assert(counts_of(s).insert(s[i].0@, c as nat) =~= counts_of(t).insert(
            s[i].0@,
            c as nat,
        ));
    } else {
        assert(u.drop_last() =~= t.update(i, (t[i].0, c)));
        assert(u.last() == s.last());
        assert(t[i] == s[i]);
        lemma_counts_of_update(t, i, c);
        // the updated line differs from the last line, so the inserts commute
        assert(s[i].0@ != s.last().0@);
        assert(counts_of(u) =~= counts_of(t).insert(s[i].0@, c as nat).insert(
            s.last().0@,
            s.last().1 as nat,
        ));
        assert(counts_of(s).insert(s[i].0@, c as nat) =~= counts_of(t).insert(
            s.last().0@,
            s.last().1 as nat,
        ).insert(s[i].0@, c as nat));
        assert(counts_of(t).insert(s[i].0@, c as nat).insert(s.last().0@, s.last().1 as nat)
            =~= counts_of(t).insert(s.last().0@, s.last().1 as nat).insert(s[i].0@, c as nat));
    }
}

/// The shared frequency store: line texts with their occurrence counts, and
/// the total number of insertions performed.
pub struct LineCollector {
    entries: Vec<(String, usize)>,
    total_lines: usize,
}

impl LineCollector {
    /// The counts map this collector holds: each recorded line's view maps to
    /// its occurrence count.
    pub closed spec fn counts(self) -> Map<Seq<char>, nat> {
        counts_of(self.entries@)
    }

    /// The number of insertions performed so far.
    pub closed spec fn total(self) -> nat {
        self.total_lines as nat
    }

    /// Internal consistency: lines are distinct, counts are positive, and the
    /// total equals the sum of all counts.
    pub closed spec fn wf(self) -> bool {
        &&& entries_wf(self.entries@)
        &&& self.total_lines == sum_counts(self.entries@)
    }

    /// Creates an empty collector.
    pub fn new() -> (r: LineCollector)
        ensures
            r.wf(),
            r.counts() == Map::<Seq<char>, nat>::empty(),
            r.total() == 0,
    {
        LineCollector { entries: Vec::new(), total_lines: 0 }
    }

    /// Number of lines inserted so far, duplicates included.
    pub fn num_total(&self) -> (r: usize)
        ensures
            r as nat == self.total(),
    {
        self.total_lines
    }

    /// Number of distinct lines inserted so far.
    pub fn num_unique(&self) -> (r: usize)
        requires
            self.wf(),
        ensures
            r as nat == self.counts().dom().len(),
    {
        proof {
            lemma_counts_of_props(self.entries@);
        }
        self.entries.len()
    }

    /// Records one occurrence of `line`, creating its entry if absent.
    pub fn insert(&mut self, line: &str)
        requires
            old(self).wf(),
            old(self).total() < usize::MAX,
        ensures
            final(self).wf(),
            final(self).counts() == bump(old(self).counts(), line@),
            final(self).total() == old(self).total() + 1,
    {
        let ghost s_old = old(self).entries@;
        proof {
            lemma_counts_of_props(s_old);
        }
        let n = self.entries.len();
        let mut i: usize = 0;
        while i < n
            invariant
                s_old == old(self).entries@,
                self.entries@ == s_old,
                self.total_lines == old(self).total_lines,
                old(self).wf(),
                old(self).total() < usize::MAX,
                n == s_old.len(),
                i <= n,
                forall|j: int| 0 <= j < i ==> (#[trigger] s_old[j]).0@ != line@,
                forall|k: Seq<char>|
                    counts_of(s_old).dom().contains(k) <==> (exists|j: int|
                        0 <= j < s_old.len() && (#[trigger] s_old[j]).0@ == k),
                forall|j: int|
                    0 <= j < s_old.len() ==> counts_of(s_old).dom().contains(
                        #[trigger] s_old[j].0@,
                    ) && counts_of(s_old)[s_old[j].0@] == s_old[j].1 as nat,
            decreases n - i,
        {
            if crate::order::str_eq(self.entries[i].0.as_str(), line) {
                let c = self.entries[i].1;
                proof {
                    lemma_sum_counts_bound(s_old, i as int);
                    lemma_sum_counts_update(s_old, i as int, (s_old[i as int].0, (c + 1) as usize));
                    lemma_counts_of_update(s_old, i as int, (c + 1) as usize);
                }
                self.entries[i].1 = c + 1;
                self.total_lines = self.total_lines + 1;
                proof {
                    assert(self.entries@ =~= s_old.update(
                        i as int,
                        (s_old[i as int].0, (c + 1) as usize),
                    ));
                    assert forall|p: int, q: int|
                        0 <= p < q < self.entries@.len() implies (#[trigger] self.entries@[p]).0@
                        != (#[trigger] self.entries@[q]).0@ by {
                        assert(self.entries@[p].0@ == s_old[p].0@);
                        assert(self.entries@[q].0@ == s_old[q].0@);
                    }
                    assert(s_old[i as int].0@ == line@);
                    assert(cnt(old(self).counts(), line@) == c);
                    assert(self.counts() =~= bump(old(self).counts(), line@));
                    assert(self.counts() == bump(old(self).counts(), line@));
                }
                return ;
            }
            i = i + 1;
        }
        // the line is new: append it with count one
        proof {
            assert(!old(self).counts().dom().contains(line@)) by {
                if old(self).counts().dom().contains(line@) {
                    let j = choose|j: int| 0 <= j < s_old.len() && (#[trigger] s_old[j]).0@
                        == line@;
                }
            }
        }
        let key: String = line.to_owned();
        self.entries.push((key, 1));
        self.total_lines = self.total_lines + 1;
        proof {
            let s_new = self.entries@;
            assert(s_new.drop_last() =~= s_old);
            assert(s_new.last().0@ == line@);
            assert forall|p: int, q: int|
                0 <= p < q < s_new.len() implies (#[trigger] s_new[p]).0@ != (
            #[trigger] s_new[q]).0@ by {
                assert(s_new[p] == s_old[p]);
                if q < s_new.len() - 1 {
                    assert(s_new[q] == s_old[q]);
                } else {
                    assert(s_new[q].0@ == line@);
                    assert(s_old[p].0@ != line@);
                }
            }
            assert(cnt(old(self).counts(), line@) == 0);
            assert(sum_counts(s_new) == sum_counts(s_old) + 1);
            assert(self.counts() =~= bump(old(self).counts(), line@));
            assert(self.counts() == bump(old(self).counts(), line@));
        }
    }

    /// Exact-match lookup of a line's occurrence count.
    pub fn get(&self, key: &str) -> (r: Option<usize>)
        requires
            self.wf(),
        ensures
            match r {
                Some(c) => self.counts().dom().contains(key@) && self.counts()[key@] == c as nat,
                None => !self.counts().dom().contains(key@),
            },
    {
        proof {
            lemma_counts_of_props(self.entries@);
        }
        let n = self.entries.len();
        let mut i: usize = 0;
        while i < n
            invariant
                self.wf(),
                n == self.entries@.len(),
                i <= n,
                forall|j: int| 0 <= j < i ==> (#[trigger] self.entries@[j]).0@ != key@,
                forall|k: Seq<char>|
                    self.counts().dom().contains(k) <==> (exists|j: int|
                        0 <= j < self.entries@.len() && (#[trigger] self.entries@[j]).0@ == k),
                forall|j: int|
                    0 <= j < self.entries@.len() ==> self.counts().dom().contains(
                        #[trigger] self.entries@[j].0@,
                    ) && self.counts()[self.entries@[j].0@] == self.entries@[j].1 as nat,
            decreases n - i,
        {
            if crate::order::str_eq(self.entries[i].0.as_str(), key) {
                return Some(self.entries[i].1);
            }
            i = i + 1;
        }
        proof {
            if self.counts().dom().contains(key@) {
                let j = choose|j: int|
                    0 <= j < self.entries@.len() && (#[trigger] self.entries@[j]).0@ == key@;
            }
        }
        None
    }

    /// The ranking: every recorded line with its count, ordered by count
    /// descending, ties broken by ascending lexicographic line order. The
    /// counts it yields sum to the total number of insertions.
    pub fn iter(&self) -> (r: Vec<(usize, String)>)
        requires
            self.wf(),
        ensures
            is_ranking(pairs_view(r@), self.counts()),
            sorted_by(pairs_view(r@), rank_order()),
            r@.len() == self.counts().dom().len(),
            forall|i: int| 0 <= i < r@.len() ==> (#[trigger] r@[i]).0 >= 1,
            sum_ranked(pairs_view(r@)) == self.total(),
    {
        proof {
            lemma_counts_of_props(self.entries@);
        }
        let n = self.entries.len();
        let mut pairs: Vec<(usize, String)> = Vec::new();
        let mut i: usize = 0;
        while i < n
            invariant
                self.wf(),
                n == self.entries@.len(),
                i <= n,
                pairs@.len() == i,
                forall|j: int|
                    0 <= j < i ==> (#[trigger] pairs@[j]).0 == self.entries@[j].1 && pairs@[j].1@
                        == self.entries@[j].0@,
            decreases n - i,
        {
            let count = self.entries[i].1;
            let text = self.entries[i].0.clone();
            pairs.push((count, text));
            i = i + 1;
        }
        proof {
            lemma_counts_of_props(self.entries@);
            let rv = pairs_view(pairs@);
            assert(forall|j: int| 0 <= j < rv.len() ==> #[trigger] rv[j] == pair_view(pairs@[j]));
            assert forall|k: Seq<char>| #[trigger] self.counts().dom().contains(k) implies (
            exists|j: int| 0 <= j < rv.len() && (#[trigger] rv[j]).1 == k) by {
                let j = choose|j: int|
                    0 <= j < self.entries@.len() && (#[trigger] self.entries@[j]).0@ == k;
                assert(rv[j].1 == k);
            }
            assert(is_ranking(rv, self.counts()));
            assert forall|j: int| 0 <= j < self.entries@.len() implies (#[trigger] rv[j]).0
                == self.entries@[j].1 as nat by {
                assert(rv[j] == pair_view(pairs@[j]));
            }
            lemma_sum_ranked_entries(rv, self.entries@);
        }
        let sorted = sort_ranked(pairs);
        proof {
            lemma_ranking_same_multiset(pairs_view(pairs@), pairs_view(sorted@), self.counts());
            lemma_sum_ranked_permutation(pairs_view(pairs@), pairs_view(sorted@));
            let rv = pairs_view(sorted@);
            assert forall|j: int| 0 <= j < sorted@.len() implies (#[trigger] sorted@[j]).0
                >= 1 by {
                assert(rv[j] == pair_view(sorted@[j]));
                let k = rv[j].1;
                assert(self.counts().dom().contains(k));
                let e = choose|e: int|
                    0 <= e < self.entries@.len() && (#[trigger] self.entries@[e]).0@ == k;
                assert(self.counts()[k] == self.entries@[e].1 as nat);
                assert(self.entries@[e].1 >= 1);
            }
        }
        sorted
    }
}

/// Sorts ranking entries by count descending, ties broken by ascending line.
///
/// Relies on lazysort's `SortedBy::sorted_by`: draining the returned iterator
/// yields exactly the items of the input, arranged in the order the comparator
/// decides; `rank_cmp`'s own contract ties that order to `rank_order()`.
#[verifier::external_body]
fn sort_ranked(pairs: Vec<(usize, String)>) -> (r: Vec<(usize, String)>)
    ensures
        pairs_view(r@).to_multiset() == pairs_view(pairs@).to_multiset(),
        sorted_by(pairs_view(r@), rank_order()),
{
    pairs.into_iter().sorted_by(|x, y| rank_cmp(x, y)).collect()
}

/// Removing one entry lowers the sum of counts by that entry's count.
proof fn lemma_sum_ranked_remove(rv: Seq<(nat, Seq<char>)>, j: int)
    requires
        0 <= j < rv.len(),
    ensures
        sum_ranked(rv.remove(j)) == sum_ranked(rv) - rv[j].0,
    decreases rv.len(),
{
    if j == rv.len() - 1 {
        assert(rv.remove(j) =~= rv.drop_last());
    } else {
        let t = rv.drop_last();
        assert(rv.remove(j).drop_last() =~= t.remove(j));
        assert(rv.remove(j).last() == rv.last());
        assert(t[j] == rv[j]);
        lemma_sum_ranked_remove(t, j);
    }
}

/// Rearranging a ranking's entries leaves the sum of counts unchanged.
proof fn lemma_sum_ranked_permutation(a: Seq<(nat, Seq<char>)>, b: Seq<(nat, Seq<char>)>)
    requires
        a.to_multiset() == b.to_multiset(),
    ensures
        sum_ranked(a) == sum_ranked(b),
    decreases a.len(),
{
    broadcast use group_to_multiset_ensures;

    assert(a.to_multiset().len() == a.len());
    assert(b.to_multiset().len() == b.len());
    if a.len() > 0 {
        let e = a.last();
        assert(a.contains(e));
        assert(a.to_multiset().count(e) > 0);
        assert(b.to_multiset().count(e) > 0);
        assert(b.contains(e));
        let j = choose|j: int| 0 <= j < b.len() && b[j] == e;
        assert(a.remove(a.len() - 1) =~= a.drop_last());
        assert(a.drop_last().to_multiset() =~= a.to_multiset().remove(e));
        assert(b.remove(j).to_multiset() =~= b.to_multiset().remove(e));
        lemma_sum_ranked_permutation(a.drop_last(), b.remove(j));
        lemma_sum_ranked_remove(b, j);
    }
}

/// A ranking whose entries mirror the collector's entries carries the same
/// sum of counts.
proof fn lemma_sum_ranked_entries(rv: Seq<(nat, Seq<char>)>, s: Seq<(String, usize)>)
    requires
        rv.len() == s.len(),
        forall|j: int| 0 <= j < s.len() ==> (#[trigger] rv[j]).0 == s[j].1 as nat,
    ensures
        sum_ranked(rv) == sum_counts(s),
    decreases s.len(),
{
    if s.len() > 0 {
        assert(forall|j: int| 0 <= j < s.len() - 1 ==> #[trigger] rv.drop_last()[j] == rv[j]);
        assert(forall|j: int| 0 <= j < s.len() - 1 ==> #[trigger] s.drop_last()[j] == s[j]);
        lemma_sum_ranked_entries(rv.drop_last(), s.drop_last());
        assert(rv.last().0 == s.last().1 as nat);
    }
}

/// Rearranging a ranking leaves it a ranking of the same counts map.
proof fn lemma_ranking_same_multiset(
    a: Seq<(nat, Seq<char>)>,
    b: Seq<(nat, Seq<char>)>,
    m: Map<Seq<char>, nat>,
)
    requires
        is_ranking(a, m),
        a.to_multiset() == b.to_multiset(),
    ensures
        is_ranking(b, m),
        b.len() == a.len(),
{
    broadcast use group_to_multiset_ensures;

    assert(a.to_multiset().len() == a.len());
    assert(b.to_multiset().len() == b.len());
    assert(a.no_duplicates()) by {
        assert forall|i: int, j: int|
            0 <= i < a.len() && 0 <= j < a.len() && i != j implies (#[trigger] a[i]) != (
        #[trigger] a[j]) by {
            if i < j {
                assert(a[i].1 != a[j].1);
            } else {
                assert(a[j].1 != a[i].1);
            }
        }
    }
    // every element of b occurs in a, so its count and line agree with m
    assert forall|i: int|
        0 <= i < b.len() implies m.dom().contains((#[trigger] b[i]).1) && m[b[i].1] == b[i].0 by {
        assert(b.contains(b[i]));
        assert(b.to_multiset().count(b[i]) > 0);
        assert(a.to_multiset().count(b[i]) > 0);
        assert(a.contains(b[i]));
    }
    // lines stay pairwise distinct
    assert forall|i: int, j: int| 0 <= i < j < b.len() implies (#[trigger] b[i]).1 != (
    #[trigger] b[j]).1 by {
        if b[i].1 == b[j].1 {
            assert(b.contains(b[i]));
            assert(b.contains(b[j]));
            assert(b.to_multiset().count(b[i]) > 0);
            assert(b.to_multiset().count(b[j]) > 0);
            assert(a.to_multiset().count(b[i]) > 0);
            assert(a.to_multiset().count(b[j]) > 0);
            assert(a.contains(b[i]));
            assert(a.contains(b[j]));
            let p = choose|p: int| 0 <= p < a.len() && a[p] == b[i];
            let q = choose|q: int| 0 <= q < a.len() && a[q] == b[j];
            assert(b[i] == b[j]);
            a.lemma_multiset_has_no_duplicates();
            assert(b.to_multiset().count(b[i]) == 1);
            let s0 = b.subrange(0, j);
            let s1 = b.subrange(j, b.len() as int);
            assert(b =~= s0 + s1);
            vstd::seq_lib::lemma_multiset_commutative(s0, s1);
            assert(s0[i] == b[i]);
            assert(s0.contains(b[i]));
            assert(s1[0] == b[j]);
            assert(s1.contains(b[j]));
            assert(b.to_multiset().count(b[i]) >= 2);
        }
    }
    // every line of m still appears
    assert forall|k: Seq<char>| #[trigger] m.dom().contains(k) implies (exists|i: int|
        0 <= i < b.len() && (#[trigger] b[i]).1 == k) by {
        let i = choose|i: int| 0 <= i < a.len() && (#[trigger] a[i]).1 == k;
        assert(a.contains(a[i]));
        assert(a.to_multiset().count(a[i]) > 0);
        assert(b.to_multiset().count(a[i]) > 0);
        assert(b.contains(a[i]));
        let j = choose|j: int| 0 <= j < b.len() && b[j] == a[i];
        assert(b[j].1 == k);
    }
}

/// After a sequence of insertions, each line's count has grown by exactly
/// its number of occurrences among the inserted lines.
pub proof fn lemma_counts_after_count(m: Map<Seq<char>, nat>, lines: Seq<Seq<char>>, k: Seq<char>)
    ensures
        cnt(counts_after(m, lines), k) == cnt(m, k) + lines.to_multiset().count(k),
    decreases lines.len(),
{
    broadcast use group_to_multiset_ensures;
    broadcast use vstd::multiset::group_multiset_axioms;
    broadcast use vstd::multiset::group_multiset_properties;

    if lines.len() == 0 {
        assert(lines.to_multiset() =~= Multiset::empty());
    } else {
        let t = lines.drop_last();
        let last = lines.last();
        lemma_counts_after_count(m, t, k);
        assert(t.push(last) =~= lines);
        assert(lines.to_multiset() =~= t.to_multiset().insert(last));
        if last == k {
            assert(lines.to_multiset().count(k) == t.to_multiset().count(k) + 1);
        } else {
            assert(lines.to_multiset().count(k) == t.to_multiset().count(k));
        }
    }
}

/// After a sequence of insertions, the recorded lines are the old ones
/// together with every line inserted.
pub proof fn lemma_counts_after_dom(m: Map<Seq<char>, nat>, lines: Seq<Seq<char>>)
    ensures
        counts_after(m, lines).dom() =~= m.dom().union(lines.to_multiset().dom()),
    decreases lines.len(),
{
    broadcast use group_to_multiset_ensures;
    broadcast use vstd::multiset::group_multiset_axioms;
    broadcast use vstd::multiset::group_multiset_properties;

    if lines.len() == 0 {
        assert(lines.to_multiset() =~= Multiset::empty());
        assert(lines.to_multiset().dom() =~= Set::empty());
    } else {
        let t = lines.drop_last();
        let last = lines.last();
        lemma_counts_after_dom(m, t);
        assert(t.push(last) =~= lines);
        assert(lines.to_multiset() =~= t.to_multiset().insert(last));
        assert(lines.to_multiset().dom() =~= t.to_multiset().dom().insert(last));
        assert(counts_after(m, lines).dom() =~= counts_after(m, t).dom().insert(last));
    }
}

/// Inserting the same multiset of lines, in any order, leaves the same
/// counts map behind: the final state does not depend on insertion order.
pub proof fn lemma_insert_order_irrelevant(
    m: Map<Seq<char>, nat>,
    a: Seq<Seq<char>>,
    b: Seq<Seq<char>>,
)
    requires
        a.to_multiset() == b.to_multiset(),
    ensures
        counts_after(m, a) == counts_after(m, b),
{
    let ma = counts_after(m, a);
    let mb = counts_after(m, b);
    lemma_counts_after_dom(m, a);
    lemma_counts_after_dom(m, b);
    assert(ma.dom() =~= mb.dom());
    assert forall|k: Seq<char>| ma.dom().contains(k) implies #[trigger] ma[k] == mb[k] by {
        lemma_counts_after_count(m, a, k);
        lemma_counts_after_count(m, b, k);
        assert(cnt(ma, k) == cnt(mb, k));
    }
    assert(ma =~= mb);
}

/// Starting from an empty collector, a sequence of insertions records each
/// distinct line inserted, with its number of occurrences as its count.
pub proof fn lemma_counts_from_empty(lines: Seq<Seq<char>>)
    ensures
        forall|k: Seq<char>|
            cnt(counts_after(Map::empty(), lines), k) == lines.to_multiset().count(k),
        counts_after(Map::empty(), lines).dom() =~= lines.to_multiset().dom(),
{
    broadcast use vstd::multiset::group_multiset_axioms;

    assert forall|k: Seq<char>|
        cnt(counts_after(Map::empty(), lines), k) == lines.to_multiset().count(k) by {
        lemma_counts_after_count(Map::empty(), lines, k);
        assert(cnt(Map::empty(), k) == 0);
    }
    lemma_counts_after_dom(Map::empty(), lines);
    assert(Map::<Seq<char>, nat>::empty().dom() =~= Set::empty());
    assert(counts_after(Map::empty(), lines).dom() =~= lines.to_multiset().dom());
}

/// A counts map has exactly one sorted ranking: any two rankings of the same
/// map, both sorted by the ranking order, are the same sequence. In
/// particular the ranking is a total order on the collector's state, and two
/// ranking requests with no insertion in between agree.
pub proof fn lemma_ranking_unique(
    a: Seq<(nat, Seq<char>)>,
    b: Seq<(nat, Seq<char>)>,
    m: Map<Seq<char>, nat>,
)
    requires
        is_ranking(a, m),
        is_ranking(b, m),
        sorted_by(a, rank_order()),
        sorted_by(b, rank_order()),
    ensures
        a == b,
{
    broadcast use group_to_multiset_ensures;

    assert forall|p: (nat, Seq<char>)| true implies a.to_multiset().count(p)
        == b.to_multiset().count(p) by {
        lemma_ranking_count(a, m, p);
        lemma_ranking_count(b, m, p);
    }
    assert(a.to_multiset() =~= b.to_multiset());
    lemma_rank_total_ordering();
    lemma_sorted_unique(a, b, rank_order());
    assert(a =~= b);
}

/// In a ranking, a pair occurs once if the map sends its line to its count,
/// and not at all otherwise.
proof fn lemma_ranking_count(a: Seq<(nat, Seq<char>)>, m: Map<Seq<char>, nat>, p: (nat, Seq<char>))
    requires
        is_ranking(a, m),
    ensures
        a.to_multiset().count(p) == if m.dom().contains(p.1) && m[p.1] == p.0 {
            1nat
        } else {
            0nat
        },
{
    broadcast use group_to_multiset_ensures;

    assert(a.no_duplicates()) by {
        assert forall|i: int, j: int|
            0 <= i < a.len() && 0 <= j < a.len() && i != j implies (#[trigger] a[i]) != (
        #[trigger] a[j]) by {
            if i < j {
                assert(a[i].1 != a[j].1);
            } else {
                assert(a[j].1 != a[i].1);
            }
        }
    }
    if m.dom().contains(p.1) && m[p.1] == p.0 {
        let i = choose|i: int| 0 <= i < a.len() && (#[trigger] a[i]).1 == p.1;
        assert(a[i].0 == m[p.1]);
        assert(a[i] == p);
        assert(a.contains(p));
        a.lemma_multiset_has_no_duplicates();
    } else {
        if a.to_multiset().count(p) > 0 {
            assert(a.contains(p));
            let i = choose|i: int| 0 <= i < a.len() && a[i] == p;
            assert(m.dom().contains(p.1) && m[p.1] == p.0);
        }
    }
}

} // verus!
