//! Finding, in a list of closed intervals, one that overlaps no other.
//!
//! Two intervals overlap when they share a point, an end point included:
//! `[0, 3]` and `[3, 5]` overlap, `[0, 3]` and `[4, 6]` do not.

use vstd::prelude::*;
use vstd::relations::sorted_by;
use core::cmp::Ordering;
use crate::Mode;

verus! {

/// A closed interval from `low` to `high`.
#[derive(Debug, Clone, Copy, PartialEq, Eq, Structural, PartialOrd, Ord)]
pub struct Interval {
    pub low: i32,
    pub high: i32,
}

/// The two intervals share a point.
pub open spec fn overlap(a: Interval, b: Interval) -> bool {
    b.low <= a.high && b.high >= a.low
}

/// The interval at position `i` overlaps none of the others.
pub open spec fn is_isolated(list: Seq<Interval>, i: int) -> bool {
    &&& 0 <= i < list.len()
    &&& forall|j: int| 0 <= j < list.len() && j != i ==> !overlap(list[i], #[trigger] list[j])
}

/// Some interval of the list overlaps none of the others.
pub open spec fn has_isolated(list: Seq<Interval>) -> bool {
    exists|i: int| is_isolated(list, i)
}

/// `r` is an interval of the list that overlaps no other, or none when the
/// list has no such interval.
pub open spec fn finds_isolated(list: Seq<Interval>, r: Option<Interval>) -> bool {
    &&& r is None <==> !has_isolated(list)
    &&& r matches Some(x) ==> exists|i: int| is_isolated(list, i) && list[i] == x
}

/// `x` is the first interval of the list that overlaps no other.
pub open spec fn is_first_isolated(list: Seq<Interval>, x: Interval) -> bool {
    exists|i: int|
        {
            &&& is_isolated(list, i)
            &&& list[i] == x
            &&& forall|k: int| 0 <= k < i ==> !is_isolated(list, k)
        }
}

/// Every interval starts no later than it ends.
pub open spec fn well_formed(list: Seq<Interval>) -> bool {
    forall|i: int| 0 <= i < list.len() ==> (#[trigger] list[i]).low <= list[i].high
}

/// `a` comes no later than `b` by start, then by end.
pub open spec fn interval_leq(a: Interval, b: Interval) -> bool {
    a.low < b.low || (a.low == b.low && a.high <= b.high)
}

impl Interval {
    pub fn new(low: i32, high: i32) -> (r: Interval)
        ensures
            r.low == low,
            r.high == high,
    {
        Interval { low, high }
    }

    pub fn copy(&self) -> (r: Interval)
        ensures
            r == *self,
    {
        Interval { low: self.low, high: self.high }
    }

    /// Whether the two intervals share a point.
    pub fn overlaps(lhs: &Interval, rhs: &Interval) -> (r: bool)
        ensures
            r == overlap(*lhs, *rhs),
    {
        if rhs.low <= lhs.high && rhs.high >= lhs.low {
            return true;
        }
        false
    }

    /// Orders by start, then by end.
    pub fn compare(&self, other: &Interval) -> (r: Ordering)
        ensures
            (r == Ordering::Less) == (interval_leq(*self, *other) && *self != *other),
            (r == Ordering::Equal) == (*self == *other),
            (r == Ordering::Greater) == (interval_leq(*other, *self) && *self != *other),
    {
        if self.low < other.low {
            Ordering::Less
        } else if self.low > other.low {
            Ordering::Greater
        } else if self.high < other.high {
            Ordering::Less
        } else if self.high > other.high {
            Ordering::Greater
        } else {
            Ordering::Equal
        }
    }
}

/// Whether some interval overlaps none of the others: none for an empty
/// list, the one interval of a list of one, else what `f` finds.
pub fn has_single_interval<F>(list: &[Interval], f: F) -> (r: Option<Interval>) where
    F: Fn(&[Interval]) -> Option<Interval>,

    requires
        list@.len() >= 2 ==> f.requires((list,)),
    ensures
        list@.len() == 0 ==> r is None,
        list@.len() == 1 ==> r == Some(list@[0]),
        list@.len() >= 2 ==> f.ensures((list,), r),
{
    if list.len() == 0 {
        return None;
    } else if list.len() == 1 {
        return Some(list[0].copy());
    }
    f(list)
}

/// Compares each interval with all the others, and returns the first that
/// overlaps none of them.
pub fn naive_search(list: &[Interval]) -> (r: Option<Interval>)
    ensures
        finds_isolated(list@, r),
        r matches Some(x) ==> is_first_isolated(list@, x),
{
    let n = list.len();
    let mut idx: usize = 0;
    while idx < n
        invariant
            n == list@.len(),
            idx <= n,
            forall|k: int| 0 <= k < idx ==> !is_isolated(list@, k),
        decreases n - idx,
    {
        let mut has_overlap = false;
        let mut idx2: usize = 0;
        while idx2 < n && !has_overlap
            invariant
                n == list@.len(),
                idx < n,
                idx2 <= n,
                !has_overlap ==> forall|j: int|
                    0 <= j < idx2 && j != idx ==> !overlap(list@[idx as int], #[trigger] list@[j]),
                has_overlap ==> !is_isolated(list@, idx as int),
            decreases n - idx2 + if has_overlap {
                0int
            } else {
                1int
            },
        {
            if idx2 != idx && Interval::overlaps(&list[idx], &list[idx2]) {
                has_overlap = true;
            } else {
                idx2 = idx2 + 1;
            }
        }
        if !has_overlap {
            assert(is_isolated(list@, idx as int));
            return Some(list[idx].copy());
        }
        idx = idx + 1;
    }
    None
}

impl Interval {
    /// Whether some interval overlaps none of the others, found by the
    /// search that `mode` names. The direct search returns the first such
    /// interval; the sorting one needs well-formed intervals.
    pub fn has_single_interval(list: &Vec<Interval>, mode: &Mode) -> (r: Option<Interval>)
        ensures
            list@.len() == 0 ==> r is None,
            list@.len() == 1 ==> r == Some(list@[0]),
            *mode == Mode::Naive || well_formed(list@) ==> finds_isolated(list@, r),
            *mode == Mode::Naive ==> (r matches Some(x) ==> is_first_isolated(list@, x)),
    {
        if list.len() == 0 {
            return None;
        } else if list.len() == 1 {
            assert(is_isolated(list@, 0));
            return Some(list[0].copy());
        }
        match mode {
            Mode::Naive => naive_search(list.as_slice()),
            Mode::DynamicProgramming => dynamic_search(list.as_slice()),
        }
    }
}

/// The intervals, each with its position in the list.
pub open spec fn tagged(list: Seq<Interval>) -> Seq<(Interval, usize)> {
    Seq::new(list.len(), |k: int| (list[k], k as usize))
}

/// Tagged intervals ordered by start, then by end.
pub open spec fn by_start() -> spec_fn((Interval, usize), (Interval, usize)) -> bool {
    |a: (Interval, usize), b: (Interval, usize)| interval_leq(a.0, b.0)
}

/// The intervals of a list of tagged intervals.
pub open spec fn untagged(s: Seq<(Interval, usize)>) -> Seq<Interval> {
    s.map_values(|p: (Interval, usize)| p.0)
}

/// A rearrangement of the tagged list holds each position once, with the
/// interval found there.
proof fn lemma_rearranged(list: Seq<Interval>, s: Seq<(Interval, usize)>)
    requires
        list.len() <= usize::MAX,
        s.to_multiset() == tagged(list).to_multiset(),
    ensures
        s.len() == list.len(),
        s.no_duplicates(),
        forall|p: int|
            0 <= p < s.len() ==> (#[trigger] s[p]).1 < list.len() && s[p].0 == list[s[p].1 as int],
        forall|k: int| 0 <= k < list.len() ==> s.contains(#[trigger] tagged(list)[k]),
{
    broadcast use vstd::seq_lib::group_to_multiset_ensures;

    let t = tagged(list);
    assert(s.to_multiset().len() == t.to_multiset().len());
    assert forall|p: int| 0 <= p < s.len() implies (#[trigger] s[p]).1 < list.len() && s[p].0
        == list[s[p].1 as int] by {
        assert(s.to_multiset().count(s[p]) > 0);
        assert(t.contains(s[p]));
        let j = choose|j: int| 0 <= j < t.len() && t[j] == s[p];
        assert(t[j].1 == j);
    }
    assert forall|k: int| 0 <= k < list.len() implies s.contains(#[trigger] tagged(list)[k]) by {
        assert(t.to_multiset().count(t[k]) > 0);
    }
    assert forall|a: int, b: int| 0 <= a < t.len() && 0 <= b < t.len() && a != b implies t[a]
        != t[b] by {
        assert(t[a].1 == a && t[b].1 == b);
    }
    assert(t.no_duplicates());
    t.lemma_multiset_has_no_duplicates();
    s.lemma_multiset_has_no_duplicates_conv();
}

/// An interval that overlaps no other in the rearranged list overlaps no
/// other in the list.
proof fn lemma_isolated_to_list(list: Seq<Interval>, s: Seq<(Interval, usize)>, i: int)
    requires
        list.len() <= usize::MAX,
        s.to_multiset() == tagged(list).to_multiset(),
        is_isolated(untagged(s), i),
    ensures
        is_isolated(list, s[i].1 as int),
        list[s[i].1 as int] == untagged(s)[i],
{
    lemma_rearranged(list, s);
    let k = s[i].1 as int;
    assert forall|j: int| 0 <= j < list.len() && j != k implies !overlap(
        list[k],
        #[trigger] list[j],
    ) by {
        assert(s.contains(tagged(list)[j]));
        let p = choose|p: int| 0 <= p < s.len() && s[p] == tagged(list)[j];
        assert(s[p].1 == j);
        assert(p != i);
        assert(untagged(s)[p] == list[j]);
        assert(!overlap(untagged(s)[i], untagged(s)[p]));
    }
}

/// When the list has an interval that overlaps no other, so does the
/// rearranged list.
proof fn lemma_isolated_from_list(list: Seq<Interval>, s: Seq<(Interval, usize)>, k: int)
    requires
        list.len() <= usize::MAX,
        s.to_multiset() == tagged(list).to_multiset(),
        is_isolated(list, k),
    ensures
        has_isolated(untagged(s)),
{
    lemma_rearranged(list, s);
    assert(s.contains(tagged(list)[k]));
    let p = choose|p: int| 0 <= p < s.len() && s[p] == tagged(list)[k];
    let ivs = untagged(s);
    assert forall|q: int| 0 <= q < ivs.len() && q != p implies !overlap(ivs[p], #[trigger] ivs[q]) by {
        let j = s[q].1 as int;
        assert(s[q] != s[p]);
        assert(j != k);
    }
    assert(is_isolated(ivs, p));
}

/// Relies on `slice::sort_by`: it permutes the list so that the comparator
/// orders it; the comparator orders by the intervals alone.
#[verifier::external_body]
fn sort_by_start(v: &mut Vec<(Interval, usize)>)
    ensures
        final(v)@.to_multiset() == old(v)@.to_multiset(),
        sorted_by(final(v)@, by_start()),
{
    v.sort_by(|a, b| a.0.compare(&b.0));
}

/// Sorts the intervals, then walks them once, growing a span over the
/// intervals that overlap, and returns an interval that overlaps no other.
/// For well-formed intervals it finds one exactly when the list has one; a
/// list of one interval gives none.
pub fn dynamic_search(list: &[Interval]) -> (r: Option<Interval>)
    requires
        list@.len() >= 1,
    ensures
        list@.len() == 1 ==> r is None,
        list@.len() >= 2 && well_formed(list@) ==> finds_isolated(list@, r),
{
    let n = list.len();
    let mut sorted: Vec<(Interval, usize)> = Vec::with_capacity(n);
    let mut j: usize = 0;
    while j < n
        invariant
            n == list@.len(),
            j <= n,
            sorted@ == tagged(list@).take(j as int),
        decreases n - j,
    {
        sorted.push((list[j].copy(), j));
        j = j + 1;
        assert(sorted@ =~= tagged(list@).take(j as int));
    }
    assert(sorted@ =~= tagged(list@));
    sort_by_start(&mut sorted);
    let ghost ivs = untagged(sorted@);
    let ghost wf = well_formed(list@);
    proof {
        lemma_rearranged(list@, sorted@);
        assert(wf ==> well_formed(ivs));
    }
    let idx_max = n - 1;
    let mut span = sorted[0].0.copy();
    let mut found = true;
    let ghost mut start: int = 0;
    let ghost mut top: int = 0;
    let mut idx: usize = 1;
    while idx < n
        invariant
            n == list@.len() == sorted@.len() == ivs.len(),
            idx_max == n - 1,
            ivs == untagged(sorted@),
            wf == well_formed(list@),
            wf ==> well_formed(ivs),
            sorted_by(sorted@, by_start()),
            sorted@.to_multiset() == tagged(list@).to_multiset(),
            1 <= idx <= n,
            0 <= start <= top < idx,
            start == 0 || start + 1 < n,
            found <==> start == idx - 1,
            span.low == ivs[start].low,
            span.high == ivs[top].high,
            forall|k: int| start <= k < idx ==> (#[trigger] ivs[k]).high <= span.high,
            wf ==> forall|k: int| 0 <= k < start ==> (#[trigger] ivs[k]).high < span.low,
            wf ==> forall|k: int|
                0 <= k < idx && (k != start || !found) ==> !is_isolated(ivs, k),
        decreases n - idx,
    {
        let itr = sorted[idx].0.copy();
        proof {
            assert(by_start()(sorted@[start], sorted@[idx as int]));
            assert(by_start()(sorted@[top], sorted@[idx as int]));
        }
        if Interval::overlaps(&span, &itr) {
            proof {
                if wf {
                    assert(overlap(ivs[top], ivs[idx as int]));
                    assert(!is_isolated(ivs, idx as int));
                    assert(!is_isolated(ivs, top));
                }
            }
            if itr.high > span.high {
                span.high = itr.high;
                proof {
                    top = idx as int;
                }
            }
            found = false;
        } else {
            proof {
                assert forall|k: int| idx < k < n implies (#[trigger] ivs[k]).low >= itr.low by {
                    assert(by_start()(sorted@[idx as int], sorted@[k]));
                }
            }
            if idx == 1 {
                proof {
                    if wf {
                        assert(span == ivs[0]);
                        assert(is_isolated(ivs, 0));
                        lemma_isolated_to_list(list@, sorted@, 0);
                    }
                }
                return Some(span.copy());
            } else if idx == idx_max {
                proof {
                    if wf {
                        assert forall|k: int| 0 <= k < n && k != idx implies !overlap(
                            ivs[idx as int],
                            #[trigger] ivs[k],
                        ) by {
                            if k < start {
                                assert(by_start()(sorted@[start], sorted@[idx as int]));
                            }
                        }
                        assert(is_isolated(ivs, idx as int));
                        lemma_isolated_to_list(list@, sorted@, idx as int);
                    }
                }
                return Some(itr.copy());
            } else if found {
                proof {
                    if wf {
                        assert(top == start);
                        assert(span == ivs[start]);
                        assert forall|k: int| 0 <= k < n && k != start implies !overlap(
                            ivs[start],
                            #[trigger] ivs[k],
                        ) by {}
                        assert(is_isolated(ivs, start));
                        lemma_isolated_to_list(list@, sorted@, start);
                    }
                }
                return Some(span.copy());
            }
            proof {
                if wf {
                    assert forall|k: int| 0 <= k < idx implies (#[trigger] ivs[k]).high
                        < itr.low by {
                        if k < start {
                            assert(by_start()(sorted@[start], sorted@[idx as int]));
                        }
                    }
                }
            }
            span.low = itr.low;
            span.high = itr.high;
            found = true;
            proof {
                start = idx as int;
                top = idx as int;
            }
        }
        idx = idx + 1;
    }
    proof {
        if wf && n >= 2 {
            if has_isolated(list@) {
                let k = choose|k: int| is_isolated(list@, k);
                lemma_isolated_from_list(list@, sorted@, k);
            }
        }
    }
    None
}

} // verus!
