//! Levelling a row of buildings.
//!
//! One height is chosen among the buildings' heights. Every building lower
//! than it is removed whole; of every other building the levels above it are
//! removed. The answer is the fewest levels removed over all choices.

use vstd::prelude::*;
use vstd::relations::sorted_by;
use crate::Mode;

verus! {

/// The largest number of buildings handled: every count of levels then fits
/// in an `i64`.
pub const MAX_BUILDINGS: usize = 0x7fff_ffff;

/// Levels removed from a building of height `x` when `h` is chosen.
pub open spec fn removed_from(x: int, h: int) -> int {
    if x >= h {
        x - h
    } else {
        x
    }
}

/// The levels removed from each building when `h` is chosen.
pub open spec fn removal(h: int) -> spec_fn(i32) -> int {
    |x: i32| removed_from(x as int, h)
}

/// The height of each building.
pub open spec fn height() -> spec_fn(i32) -> int {
    |x: i32| x as int
}

/// The sum of `f` over the buildings.
pub open spec fn sum_of(s: Seq<i32>, f: spec_fn(i32) -> int) -> int
    decreases s.len(),
{
    if s.len() == 0 {
        0
    } else {
        sum_of(s.drop_last(), f) + f(s.last())
    }
}

/// Levels removed from all the buildings when `h` is chosen.
pub open spec fn cost(heights: Seq<i32>, h: int) -> int {
    sum_of(heights, removal(h))
}

/// `r` is the fewest levels removed over all choices of a building's height.
pub open spec fn is_min_cost(heights: Seq<i32>, r: int) -> bool {
    &&& exists|k: int| 0 <= k < heights.len() && r == cost(heights, heights[k] as int)
    &&& forall|k: int| 0 <= k < heights.len() ==> r <= #[trigger] cost(heights, heights[k] as int)
}

/// Some building has a negative height.
pub open spec fn any_negative(heights: Seq<i32>) -> bool {
    exists|k: int| 0 <= k < heights.len() && heights[k] < 0
}

/// A sum over two rows is the sum of the sums over each.
proof fn lemma_sum_concat(a: Seq<i32>, b: Seq<i32>, f: spec_fn(i32) -> int)
    ensures
        sum_of(a + b, f) == sum_of(a, f) + sum_of(b, f),
    decreases b.len(),
{
    if b.len() == 0 {
        assert(a + b =~= a);
    } else {
        assert((a + b).drop_last() =~= a + b.drop_last());
        lemma_sum_concat(a, b.drop_last(), f);
    }
}

/// Taking a building out of a row takes its term out of the sum.
proof fn lemma_sum_remove(s: Seq<i32>, p: int, f: spec_fn(i32) -> int)
    requires
        0 <= p < s.len(),
    ensures
        sum_of(s, f) == sum_of(s.remove(p), f) + f(s[p]),
    decreases s.len(),
{
    if p == s.len() - 1 {
        assert(s.remove(p) =~= s.drop_last());
    } else {
        assert(s.remove(p).drop_last() =~= s.drop_last().remove(p));
        lemma_sum_remove(s.drop_last(), p, f);
    }
}

/// Sums do not depend on the order of the buildings.
proof fn lemma_sum_permutation(a: Seq<i32>, b: Seq<i32>, f: spec_fn(i32) -> int)
    requires
        a.to_multiset() == b.to_multiset(),
    ensures
        sum_of(a, f) == sum_of(b, f),
    decreases a.len(),
{
    broadcast use vstd::seq_lib::group_to_multiset_ensures;

    vstd::seq_lib::to_multiset_len(a);
    vstd::seq_lib::to_multiset_len(b);
    if a.len() > 0 {
        let x = a.last();
        assert(a.to_multiset().count(x) > 0);
        assert(b.contains(x));
        let p = choose|p: int| 0 <= p < b.len() && b[p] == x;
        assert(a.drop_last().push(x) =~= a);
        assert(b.remove(p).to_multiset() =~= b.to_multiset().remove(x));
        assert(a.drop_last().to_multiset() =~= a.to_multiset().remove(x));
        lemma_sum_permutation(a.drop_last(), b.remove(p), f);
        lemma_sum_remove(b, p, f);
        assert(sum_of(a, f) == sum_of(a.drop_last(), f) + f(x));
    } else {
        assert(b.len() == 0);
    }
}

/// A sum is at most another when each term is.
proof fn lemma_sum_le(s: Seq<i32>, f: spec_fn(i32) -> int, g: spec_fn(i32) -> int)
    requires
        forall|k: int| 0 <= k < s.len() ==> f(s[k]) <= g(#[trigger] s[k]),
    ensures
        sum_of(s, f) <= sum_of(s, g),
    decreases s.len(),
{
    if s.len() > 0 {
        assert(f(s[s.len() - 1]) <= g(s[s.len() - 1]));
        lemma_sum_le(s.drop_last(), f, g);
    }
}

/// Terms that each fall short by `c` give a sum that falls short by
/// `c` times their number.
proof fn lemma_sum_shift(s: Seq<i32>, f: spec_fn(i32) -> int, g: spec_fn(i32) -> int, c: int)
    requires
        forall|k: int| 0 <= k < s.len() ==> f(s[k]) == g(#[trigger] s[k]) - c,
    ensures
        sum_of(s, f) == sum_of(s, g) - s.len() * c,
    decreases s.len(),
{
    if s.len() > 0 {
        assert(f(s[s.len() - 1]) == g(s[s.len() - 1]) - c);
        lemma_sum_shift(s.drop_last(), f, g, c);
        assert(s.len() * c == (s.len() - 1) * c + c) by (nonlinear_arith);
    }
}

/// Sums of terms within `[lo, hi]` lie within `[len * lo, len * hi]`.
proof fn lemma_sum_bounds(s: Seq<i32>, f: spec_fn(i32) -> int, lo: int, hi: int)
    requires
        forall|k: int| 0 <= k < s.len() ==> lo <= #[trigger] f(s[k]) <= hi,
    ensures
        s.len() * lo <= sum_of(s, f) <= s.len() * hi,
    decreases s.len(),
{
    if s.len() > 0 {
        assert(lo <= f(s[s.len() - 1]) <= hi);
        lemma_sum_bounds(s.drop_last(), f, lo, hi);
        assert(s.len() * lo == (s.len() - 1) * lo + lo) by (nonlinear_arith);
        assert(s.len() * hi == (s.len() - 1) * hi + hi) by (nonlinear_arith);
    } else {
        assert(s.len() * lo == 0 && s.len() * hi == 0) by (nonlinear_arith)
            requires
                s.len() == 0,
        ;
    }
}

/// The message of a rejected input.
#[derive(Debug)]
pub struct GenericError {
    pub details: String,
}

impl GenericError {
    pub fn new(msg: &str) -> (r: GenericError)
        ensures
            r.details@ == msg@,
    {
        broadcast use vstd::string::group_string_axioms;

        GenericError { details: msg.to_string() }
    }
}

/// With no negative heights, no choice removes a negative number of levels.
proof fn lemma_cost_nonnegative(heights: Seq<i32>, h: int)
    requires
        !any_negative(heights),
        -0x8000_0000 <= h < 0x8000_0000,
    ensures
        cost(heights, h) >= 0,
{
    assert forall|k: int| 0 <= k < heights.len() implies 0 <= #[trigger] removal(h)(heights[k])
        <= 0x1_0000_0000 by {
        assert(heights[k] >= 0);
    }
    lemma_sum_bounds(heights, removal(h), 0, 0x1_0000_0000);
    assert(heights.len() * 0 == 0);
}

/// Tries each building's height in turn and keeps the fewest levels removed;
/// `-1` for no buildings. The fewest is found when no height is negative.
pub fn naive_search(list_of_building_heights: &Vec<i32>) -> (r: i64)
    requires
        list_of_building_heights.len() <= MAX_BUILDINGS,
    ensures
        list_of_building_heights.len() == 0 ==> r == -1,
        list_of_building_heights.len() > 0 && !any_negative(list_of_building_heights@)
            ==> is_min_cost(list_of_building_heights@, r as int),
{
    let heights = list_of_building_heights;
    let n = heights.len();
    let mut min_demolished_levels: i64 = -1;
    let mut i: usize = 0;
    while i < n
        invariant
            n == heights.len() <= MAX_BUILDINGS,
            i <= n,
            i == 0 ==> min_demolished_levels == -1,
            !any_negative(heights@) ==> {
                &&& i > 0 ==> min_demolished_levels >= 0
                &&& i > 0 ==> exists|k: int|
                    0 <= k < i && min_demolished_levels == cost(heights@, heights@[k] as int)
                &&& forall|k: int|
                    0 <= k < i ==> min_demolished_levels <= #[trigger] cost(
                        heights@,
                        heights@[k] as int,
                    )
            },
        decreases n - i,
    {
        let selected_height = heights[i];
        let mut demolished_levels: i64 = 0;
        let mut j: usize = 0;
        while j < n
            invariant
                n == heights.len() <= MAX_BUILDINGS,
                i < n,
                j <= n,
                selected_height == heights@[i as int],
                demolished_levels == sum_of(heights@.take(j as int), removal(selected_height as int)),
                -(j as int) * 0x8000_0000 <= demolished_levels <= (j as int) * 0x1_0000_0000,
            decreases n - j,
        {
            let height = heights[j];
            if height >= selected_height {
                demolished_levels = demolished_levels + (height as i64 - selected_height as i64);
            } else {
                demolished_levels = demolished_levels + height as i64;
            }
            proof {
                assert(heights@.take(j + 1).drop_last() =~= heights@.take(j as int));
            }
            j = j + 1;
        }
        assert(heights@.take(n as int) =~= heights@);
        proof {
            if !any_negative(heights@) {
                lemma_cost_nonnegative(heights@, selected_height as int);
            }
        }
        if min_demolished_levels == -1 || demolished_levels < min_demolished_levels {
            min_demolished_levels = demolished_levels;
        }
        i = i + 1;
    }
    min_demolished_levels
}

/// Ascending order of heights.
pub open spec fn ascending() -> spec_fn(i32, i32) -> bool {
    |a: i32, b: i32| a <= b
}

/// Levels removed, in ascending heights `s`, when the building at `idx` is
/// chosen and every building before it counts as lower: all of those before
/// it, and of those after it the levels above it.
pub open spec fn sorted_cost(s: Seq<i32>, idx: int) -> int {
    sum_of(s.take(idx), height()) + sum_of(s.skip(idx + 1), height()) - (s.len() - 1 - idx)
        * s[idx]
}

/// The sum over a single building is its term.
proof fn lemma_sum_single(v: i32, f: spec_fn(i32) -> int)
    ensures
        sum_of(seq![v], f) == f(v),
{
    assert(seq![v].drop_last() =~= Seq::<i32>::empty());
    assert(sum_of(Seq::<i32>::empty(), f) == 0);
    assert(seq![v].last() == v);
}

/// In ascending non-negative heights, choosing the building at `idx` counts
/// at least the levels removed for its height, and exactly those when no
/// building before it has the same height.
proof fn lemma_sorted_cost(s: Seq<i32>, idx: int)
    requires
        0 <= idx < s.len(),
        forall|i: int, j: int| 0 <= i < j < s.len() ==> s[i] <= s[j],
        !any_negative(s),
    ensures
        sorted_cost(s, idx) >= cost(s, s[idx] as int),
        (forall|i: int| 0 <= i < idx ==> s[i] < s[idx]) ==> sorted_cost(s, idx) == cost(
            s,
            s[idx] as int,
        ),
{
    let h = s[idx] as int;
    let before = s.take(idx);
    let after = s.skip(idx + 1);
    assert(s =~= before + seq![s[idx]] + after);
    lemma_sum_concat(before + seq![s[idx]], after, removal(h));
    lemma_sum_concat(before, seq![s[idx]], removal(h));
    lemma_sum_single(s[idx], removal(h));
    assert forall|k: int| 0 <= k < after.len() implies removal(h)(after[k]) == height()(
        #[trigger] after[k],
    ) - h by {
        assert(after[k] == s[idx + 1 + k]);
    }
    lemma_sum_shift(after, removal(h), height(), h);
    assert forall|k: int| 0 <= k < before.len() implies removal(h)(before[k]) <= height()(
        #[trigger] before[k],
    ) by {
        assert(before[k] == s[k]);
    }
    lemma_sum_le(before, removal(h), height());
    if forall|i: int| 0 <= i < idx ==> s[i] < s[idx] {
        assert forall|k: int| 0 <= k < before.len() implies removal(h)(before[k]) == height()(
            #[trigger] before[k],
        ) - 0 by {
            assert(before[k] == s[k]);
        }
        lemma_sum_shift(before, removal(h), height(), 0);
    }
}

/// The first position of `v` in `s`.
proof fn lemma_first_index(s: Seq<i32>, v: i32) -> (j: int)
    requires
        s.contains(v),
    ensures
        0 <= j < s.len(),
        s[j] == v,
        forall|i: int| 0 <= i < j ==> s[i] != v,
    decreases s.len(),
{
    if s.drop_last().contains(v) {
        let j = lemma_first_index(s.drop_last(), v);
        assert forall|i: int| 0 <= i < j implies s[i] != v by {
            assert(s.drop_last()[i] == s[i]);
        }
        j
    } else {
        assert forall|i: int| 0 <= i < s.len() - 1 implies s[i] != v by {
            assert(s.drop_last()[i] == s[i]);
        }
        s.len() - 1
    }
}

/// A rearrangement of heights none of which is negative has none either.
proof fn lemma_no_negative_permutation(heights: Seq<i32>, s: Seq<i32>)
    requires
        s.to_multiset() == heights.to_multiset(),
        !any_negative(heights),
    ensures
        !any_negative(s),
{
    broadcast use vstd::seq_lib::group_to_multiset_ensures;

    if any_negative(s) {
        let k = choose|k: int| 0 <= k < s.len() && s[k] < 0;
        assert(s.to_multiset().count(s[k]) > 0);
        assert(heights.contains(s[k]));
    }
}

/// The least `sorted_cost` over a sorted copy of the heights is the fewest
/// levels removed over all choices.
proof fn lemma_sorted_min(heights: Seq<i32>, s: Seq<i32>, m: int)
    requires
        s.to_multiset() == heights.to_multiset(),
        forall|i: int, j: int| 0 <= i < j < s.len() ==> s[i] <= s[j],
        !any_negative(heights),
        exists|k: int| 0 <= k < s.len() && m == sorted_cost(s, k),
        forall|k: int| 0 <= k < s.len() ==> m <= #[trigger] sorted_cost(s, k),
    ensures
        is_min_cost(heights, m),
{
    broadcast use vstd::seq_lib::group_to_multiset_ensures;

    lemma_no_negative_permutation(heights, s);
    assert forall|k: int| 0 <= k < heights.len() implies m <= #[trigger] cost(
        heights,
        heights[k] as int,
    ) by {
        let v = heights[k];
        assert(heights.to_multiset().count(v) > 0);
        let j = lemma_first_index(s, v);
        lemma_sorted_cost(s, j);
        lemma_sum_permutation(s, heights, removal(v as int));
    }
    let k = choose|k: int| 0 <= k < s.len() && m == sorted_cost(s, k);
    let v = s[k];
    assert(s.to_multiset().count(v) > 0);
    let j = lemma_first_index(s, v);
    lemma_sorted_cost(s, k);
    lemma_sorted_cost(s, j);
    lemma_sum_permutation(s, heights, removal(v as int));
    assert(heights.contains(v));
    let i = choose|i: int| 0 <= i < heights.len() && heights[i] == v;
    assert(m == cost(heights, heights[i] as int));
}

/// The fewest levels removed is one number: the direct search and the one
/// that sorts first, which both return it, agree.
pub proof fn lemma_min_cost_unique(heights: Seq<i32>, a: int, b: int)
    requires
        is_min_cost(heights, a),
        is_min_cost(heights, b),
    ensures
        a == b,
{
    let i = choose|i: int| 0 <= i < heights.len() && a == cost(heights, heights[i] as int);
    let j = choose|j: int| 0 <= j < heights.len() && b == cost(heights, heights[j] as int);
    assert(b <= cost(heights, heights[i] as int));
    assert(a <= cost(heights, heights[j] as int));
}

/// Relies on `slice::sort`: it permutes the list into ascending order.
#[verifier::external_body]
fn sort_heights(v: &mut Vec<i32>)
    ensures
        final(v)@.to_multiset() == old(v)@.to_multiset(),
        sorted_by(final(v)@, ascending()),
{
    v.sort();
}

/// Sorts the heights, sums them up once, and reads the levels removed for
/// each choice off the running sums; `-1` for no buildings. The fewest is
/// found when no height is negative.
pub fn dynamic_search(list_of_building_heights: &Vec<i32>) -> (r: i64)
    requires
        list_of_building_heights.len() <= MAX_BUILDINGS,
    ensures
        list_of_building_heights.len() == 0 ==> r == -1,
        list_of_building_heights.len() > 0 && !any_negative(list_of_building_heights@)
            ==> is_min_cost(list_of_building_heights@, r as int),
{
    let n = list_of_building_heights.len();
    let mut local_building_heights = list_of_building_heights.clone();
    assert(local_building_heights@ =~= list_of_building_heights@);
    sort_heights(&mut local_building_heights);
    let ghost s = local_building_heights@;
    proof {
        broadcast use vstd::seq_lib::group_to_multiset_ensures;

        assert(s.to_multiset().len() == list_of_building_heights@.to_multiset().len());
        assert forall|i: int, j: int| 0 <= i < j < s.len() implies s[i] <= s[j] by {
            assert(ascending()(s[i], s[j]));
        }
    }
    let mut integrate_building_heights: Vec<i64> = Vec::with_capacity(n);
    let mut accu: i64 = 0;
    let mut i: usize = 0;
    while i < n
        invariant
            n == s.len() <= MAX_BUILDINGS,
            s == local_building_heights@,
            i <= n,
            integrate_building_heights@.len() == i,
            forall|k: int|
                0 <= k < i ==> #[trigger] integrate_building_heights@[k] == sum_of(
                    s.take(k + 1),
                    height(),
                ),
            accu == sum_of(s.take(i as int), height()),
            -(i as int) * 0x8000_0000 <= accu <= (i as int) * 0x8000_0000,
        decreases n - i,
    {
        accu = accu + local_building_heights[i] as i64;
        proof {
            assert(s.take(i + 1).drop_last() =~= s.take(i as int));
        }
        integrate_building_heights.push(accu);
        i = i + 1;
    }
    let mut min_demolished_levels: i64 = -1;
    let mut idx: usize = 0;
    while idx < n
        invariant
            n == s.len() == integrate_building_heights@.len() <= MAX_BUILDINGS,
            s == local_building_heights@,
            s.to_multiset() == list_of_building_heights@.to_multiset(),
            forall|i: int, j: int| 0 <= i < j < s.len() ==> s[i] <= s[j],
            forall|k: int|
                0 <= k < n ==> #[trigger] integrate_building_heights@[k] == sum_of(
                    s.take(k + 1),
                    height(),
                ),
            idx <= n,
            idx == 0 ==> min_demolished_levels == -1,
            !any_negative(list_of_building_heights@) ==> {
                &&& idx > 0 ==> min_demolished_levels >= 0
                &&& idx > 0 ==> exists|k: int|
                    0 <= k < idx && min_demolished_levels == sorted_cost(s, k)
                &&& forall|k: int|
                    0 <= k < idx ==> min_demolished_levels <= #[trigger] sorted_cost(s, k)
            },
        decreases n - idx,
    {
        let height_at = local_building_heights[idx];
        let last_idx = n - 1;
        proof {
            let before = s.take(idx as int);
            let after = s.skip(idx + 1);
            assert(s.take(n as int) =~= s.take(idx + 1) + after);
            lemma_sum_concat(s.take(idx + 1), after, height());
            assert forall|k: int| 0 <= k < before.len() implies -0x8000_0000 <= #[trigger] height()(
                before[k],
            ) <= 0x8000_0000 by {}
            lemma_sum_bounds(before, height(), -0x8000_0000, 0x8000_0000);
            assert forall|k: int| 0 <= k < after.len() implies -0x8000_0000 <= #[trigger] height()(
                after[k],
            ) <= 0x8000_0000 by {}
            lemma_sum_bounds(after, height(), -0x8000_0000, 0x8000_0000);
            assert(-0x8000_0000 * (last_idx - idx) <= (last_idx - idx) * height_at <= 0x8000_0000 * (
            last_idx - idx)) by (nonlinear_arith)
                requires
                    0 <= last_idx - idx,
                    -0x8000_0000 <= height_at < 0x8000_0000,
            ;
            if idx > 0 {
                assert(s.take(idx - 1 + 1) =~= before);
            }
        }
        let mut left_levels: i64 = 0;
        if idx > 0 {
            left_levels = integrate_building_heights[idx - 1];
        }
        let right_levels = integrate_building_heights[last_idx] - integrate_building_heights[idx]
            - ((last_idx - idx) as i64 * height_at as i64);
        let demolished_levels = left_levels + right_levels;
        assert(demolished_levels == sorted_cost(s, idx as int));
        proof {
            if !any_negative(list_of_building_heights@) {
                lemma_no_negative_permutation(list_of_building_heights@, s);
                lemma_sorted_cost(s, idx as int);
                lemma_cost_nonnegative(s, height_at as int);
            }
        }
        if min_demolished_levels == -1 || demolished_levels < min_demolished_levels {
            min_demolished_levels = demolished_levels;
        }
        idx = idx + 1;
    }
    proof {
        if n > 0 && !any_negative(list_of_building_heights@) {
            lemma_sorted_min(list_of_building_heights@, s, min_demolished_levels as int);
        }
    }
    min_demolished_levels
}

/// Whether some building has a negative height.
pub fn has_negative(list_of_building_heights: &Vec<i32>) -> (r: bool)
    ensures
        r == any_negative(list_of_building_heights@),
{
    let mut i: usize = 0;
    while i < list_of_building_heights.len()
        invariant
            i <= list_of_building_heights.len(),
            forall|k: int| 0 <= k < i ==> list_of_building_heights@[k] >= 0,
        decreases list_of_building_heights.len() - i,
    {
        if list_of_building_heights[i] < 0 {
            return true;
        }
        i = i + 1;
    }
    false
}

/// The fewest levels removed, by the search that `mode` names; rejects an
/// empty row and a negative height.
pub fn run(list_of_building_heights: &Vec<i32>, mode: &Mode) -> (r: Result<i64, GenericError>)
    requires
        list_of_building_heights.len() <= MAX_BUILDINGS,
    ensures
        list_of_building_heights.len() == 0 ==> (r matches Err(e) && e.details@
            == "vector empty!"@),
        list_of_building_heights.len() > 0 && any_negative(list_of_building_heights@) ==> (r matches Err(
            e,
        ) && e.details@ == "Interval has bunker!"@),
        list_of_building_heights.len() > 0 && !any_negative(list_of_building_heights@) ==> (r matches Ok(
            v,
        ) && is_min_cost(list_of_building_heights@, v as int)),
{
    proof {
        reveal_strlit("vector empty!");
        reveal_strlit("Interval has bunker!");
    }
    if list_of_building_heights.len() == 0 {
        return Err(GenericError::new("vector empty!"));
    }
    if has_negative(list_of_building_heights) {
        return Err(GenericError::new("Interval has bunker!"));
    }
    if list_of_building_heights.len() == 1 {
        proof {
            let h = list_of_building_heights@[0];
            assert(list_of_building_heights@ =~= seq![h]);
            lemma_sum_single(h, removal(h as int));
        }
        return Ok(0);
    }
    match mode {
        Mode::Naive => Ok(naive_search(list_of_building_heights)),
        Mode::DynamicProgramming => Ok(dynamic_search(list_of_building_heights)),
    }
}

} // verus!
