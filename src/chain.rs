//! The fun-value reduction over a forest of parent pointers.
//!
//! Each node has a fun value and points either to the void (`0`) or to the
//! node at 1-based position `p`. The nodes are visited by descending parent,
//! then descending value; one pass merges each lone chain into its parent,
//! and of siblings that meet at a parent lets the smaller value travel on
//! while the larger one is added to the total.

use vstd::prelude::*;
use vstd::relations::{sorted_by, total_ordering};
use core::cmp::Ordering;

verus! {

/// A node as it enters the processing list: its 0-based position, the parent
/// it points to (`0` for the void, else 1-based) and its fun value.
pub struct FunElement {
    pub idx: usize,
    pub next_element: usize,
    pub fun_val: i64,
}

/// `a` comes before `b` when ordered by parent, then value, then position.
pub open spec fn elem_lt(a: FunElement, b: FunElement) -> bool {
    ||| a.next_element < b.next_element
    ||| a.next_element == b.next_element && a.fun_val < b.fun_val
    ||| a.next_element == b.next_element && a.fun_val == b.fun_val && a.idx < b.idx
}

/// The order in which the nodes are processed: descending parent, then
/// descending value, then descending position.
pub open spec fn descending() -> spec_fn(FunElement, FunElement) -> bool {
    |a: FunElement, b: FunElement| a == b || elem_lt(b, a)
}

/// Parent, then value, compared as the two keys of a node; the position is
/// not part of this comparison.
pub open spec fn key_order(a: FunElement, b: FunElement) -> Ordering {
    if a.next_element < b.next_element {
        Ordering::Less
    } else if a.next_element > b.next_element {
        Ordering::Greater
    } else if a.fun_val < b.fun_val {
        Ordering::Less
    } else if a.fun_val > b.fun_val {
        Ordering::Greater
    } else {
        Ordering::Equal
    }
}

impl FunElement {
    /// Total order over parent, value and position, the position breaking the
    /// ties that the two keys leave.
    pub fn compare(&self, other: &FunElement) -> (r: Ordering)
        ensures
            (r == Ordering::Less) == elem_lt(*self, *other),
            (r == Ordering::Equal) == (*self == *other),
            (r == Ordering::Greater) == elem_lt(*other, *self),
    {
        if self.next_element != other.next_element {
            if self.next_element < other.next_element {
                Ordering::Less
            } else {
                Ordering::Greater
            }
        } else if self.fun_val != other.fun_val {
            if self.fun_val < other.fun_val {
                Ordering::Less
            } else {
                Ordering::Greater
            }
        } else if self.idx < other.idx {
            Ordering::Less
        } else if self.idx > other.idx {
            Ordering::Greater
        } else {
            Ordering::Equal
        }
    }
}

impl PartialEq for FunElement {
    fn eq(&self, other: &FunElement) -> (r: bool) {
        self.next_element == other.next_element && self.fun_val == other.fun_val
    }
}

impl vstd::std_specs::cmp::PartialEqSpecImpl for FunElement {
    open spec fn obeys_eq_spec() -> bool {
        true
    }

    open spec fn eq_spec(&self, other: &FunElement) -> bool {
        self.next_element == other.next_element && self.fun_val == other.fun_val
    }
}

impl Eq for FunElement {
}

impl PartialOrd for FunElement {
    fn partial_cmp(&self, other: &FunElement) -> (r: Option<Ordering>) {
        if self.next_element < other.next_element {
            Some(Ordering::Less)
        } else if self.next_element > other.next_element {
            Some(Ordering::Greater)
        } else if self.fun_val < other.fun_val {
            Some(Ordering::Less)
        } else if self.fun_val > other.fun_val {
            Some(Ordering::Greater)
        } else {
            Some(Ordering::Equal)
        }
    }
}

impl vstd::std_specs::cmp::PartialOrdSpecImpl for FunElement {
    open spec fn obeys_partial_cmp_spec() -> bool {
        true
    }

    open spec fn partial_cmp_spec(&self, other: &FunElement) -> Option<Ordering> {
        Some(key_order(*self, *other))
    }
}

/// The processing order is a total order.
pub proof fn lemma_descending_total()
    ensures
        total_ordering(descending()),
{
}

/// The input rejected by the reduction.
#[derive(Debug, Clone, Copy, PartialEq, Eq, Structural)]
pub enum ReduceError {
    /// The value and parent lists differ in length.
    InvalidInput,
    /// A parent points past the last node.
    MalformedGraph,
}

/// Every parent is the void or one of the nodes.
pub open spec fn parents_in_range(parents: Seq<usize>) -> bool {
    forall|i: int| 0 <= i < parents.len() ==> #[trigger] parents[i] <= parents.len()
}

/// The nodes, in their input order, as processing elements.
pub open spec fn node_elements(values: Seq<i64>, parents: Seq<usize>) -> Seq<FunElement> {
    Seq::new(
        values.len(),
        |i: int| FunElement { idx: i as usize, next_element: parents[i], fun_val: values[i] },
    )
}

/// The positions of the nodes in the order in which the pass visits them.
pub open spec fn processing_order(values: Seq<i64>, parents: Seq<usize>) -> Seq<usize> {
    node_elements(values, parents).sort_by(descending()).map_values(|e: FunElement| e.idx)
}

/// The larger of the two values.
pub open spec fn max_i64(a: i64, b: i64) -> i64 {
    if a >= b {
        a
    } else {
        b
    }
}

/// What the pass adds to the total from position `i` of `order` on, where
/// `eff` holds the effective values at that point.
pub open spec fn walk_from(parents: Seq<usize>, order: Seq<usize>, eff: Seq<i64>, i: nat) -> int
    decreases order.len() - i,
{
    if i >= order.len() {
        0
    } else if i + 1 == order.len() {
        eff[order[i as int] as int] as int
    } else {
        let cur = order[i as int] as int;
        let next = order[i + 1int] as int;
        if parents[cur] == 0 {
            eff[cur] + walk_from(parents, order, eff, i + 1)
        } else if parents[cur] == parents[next] {
            if eff[cur] >= eff[next] {
                eff[cur] + walk_from(parents, order, eff, i + 1)
            } else {
                eff[next] + walk_from(parents, order, eff.update(next, eff[cur]), i + 1)
            }
        } else {
            let p = parents[cur] - 1;
            walk_from(parents, order, eff.update(p, max_i64(eff[p], eff[cur])), i + 1)
        }
    }
}

/// The total fun value of a forest: the pass over the processing order,
/// starting from the input values.
pub open spec fn forest_total(values: Seq<i64>, parents: Seq<usize>) -> int {
    walk_from(parents, processing_order(values, parents), values, 0)
}

/// A list that holds the nodes, ordered for processing, is the processing
/// order, and names only nodes.
proof fn lemma_sorted_elements(values: Seq<i64>, parents: Seq<usize>, s: Seq<FunElement>)
    requires
        values.len() == parents.len(),
        s.to_multiset() == node_elements(values, parents).to_multiset(),
        sorted_by(s, descending()),
    ensures
        s == node_elements(values, parents).sort_by(descending()),
        forall|k: int| 0 <= k < s.len() ==> (#[trigger] s[k]).idx < values.len(),
        s.len() == values.len(),
{
    let nodes = node_elements(values, parents);
    lemma_descending_total();
    nodes.lemma_sort_by_ensures(descending());
    vstd::seq_lib::lemma_sorted_unique(s, nodes.sort_by(descending()), descending());
    assert forall|k: int| 0 <= k < s.len() implies (#[trigger] s[k]).idx < values.len() by {
        assert(s.to_multiset().count(s[k]) > 0) by {
            broadcast use vstd::seq_lib::group_to_multiset_ensures;
        }
        assert(nodes.contains(s[k])) by {
            broadcast use vstd::seq_lib::group_to_multiset_ensures;
        }
    }
    assert(s.len() == nodes.len()) by {
        broadcast use vstd::seq_lib::group_to_multiset_ensures;

        assert(s.to_multiset().len() == nodes.to_multiset().len());
    }
}

/// The processing order has one entry per node, each a position in range.
proof fn lemma_processing_order_nodes(values: Seq<i64>, parents: Seq<usize>)
    requires
        values.len() == parents.len(),
    ensures
        processing_order(values, parents).len() == values.len(),
        forall|k: int|
            0 <= k < values.len() ==> (#[trigger] processing_order(values, parents)[k])
                < values.len(),
{
    let nodes = node_elements(values, parents);
    lemma_descending_total();
    nodes.lemma_sort_by_ensures(descending());
    lemma_sorted_elements(values, parents, nodes.sort_by(descending()));
}

/// However the sort arranges the nodes, a list that holds each of them once
/// and is ordered for processing gives the same total: the reduction is
/// deterministic.
pub proof fn lemma_total_deterministic(
    values: Seq<i64>,
    parents: Seq<usize>,
    arranged: Seq<FunElement>,
)
    requires
        values.len() == parents.len(),
        arranged.to_multiset() == node_elements(values, parents).to_multiset(),
        sorted_by(arranged, descending()),
    ensures
        walk_from(parents, arranged.map_values(|e: FunElement| e.idx), values, 0) == forest_total(
            values,
            parents,
        ),
{
    lemma_sorted_elements(values, parents, arranged);
}

/// A lone node that points to the void totals its own value.
pub proof fn lemma_single_root(v: i64)
    ensures
        forest_total(seq![v], seq![0usize]) == v,
{
    lemma_processing_order_nodes(seq![v], seq![0usize]);
    assert(processing_order(seq![v], seq![0usize])[0] == 0);
}

proof fn lemma_walk_lone_roots(
    parents: Seq<usize>,
    order: Seq<usize>,
    eff: Seq<i64>,
    m: i64,
    i: nat,
)
    requires
        i <= order.len(),
        forall|k: int| 0 <= k < order.len() ==> #[trigger] order[k] < parents.len(),
        forall|k: int| 0 <= k < parents.len() ==> #[trigger] parents[k] == 0,
        eff.len() == parents.len(),
        forall|k: int| 0 <= k < eff.len() ==> #[trigger] eff[k] == m,
    ensures
        walk_from(parents, order, eff, i) == (order.len() - i) * m,
    decreases order.len() - i,
{
    if i < order.len() {
        assert(parents[order[i as int] as int] == 0);
        assert(eff[order[i as int] as int] == m);
        lemma_walk_lone_roots(parents, order, eff, m, i + 1);
        assert((order.len() - i) * m == m + (order.len() - (i + 1)) * m) by (nonlinear_arith);
    } else {
        assert((order.len() - i) * m == 0) by (nonlinear_arith)
            requires
                i == order.len(),
        ;
    }
}

/// `n` nodes that all point to the void and all hold `m` total exactly `n * m`.
pub proof fn lemma_lone_roots_total(values: Seq<i64>, parents: Seq<usize>, m: i64)
    requires
        values.len() == parents.len(),
        forall|k: int| 0 <= k < parents.len() ==> #[trigger] parents[k] == 0,
        forall|k: int| 0 <= k < values.len() ==> #[trigger] values[k] == m,
    ensures
        forest_total(values, parents) == values.len() * m,
{
    lemma_processing_order_nodes(values, parents);
    lemma_walk_lone_roots(parents, processing_order(values, parents), values, m, 0);
}

/// Relies on `slice::sort_by`: it permutes the list so that the comparator
/// orders it; `b.compare(a)` orders it for processing.
#[verifier::external_body]
fn sort_for_processing(v: &mut Vec<FunElement>)
    ensures
        final(v)@.to_multiset() == old(v)@.to_multiset(),
        sorted_by(final(v)@, descending()),
{
    v.sort_by(|a, b| b.compare(a));
}

/// The total fun value of the forest given by `fun_val` and `next_ptr`
/// (`0` for the void, `k` for the node at 0-based position `k - 1`).
/// Lists of different lengths are `InvalidInput`; a parent past the last
/// node is `MalformedGraph`.
pub fn execute(fun_val: Vec<i64>, next_ptr: Vec<usize>) -> (r: Result<i128, ReduceError>)
    ensures
        fun_val.len() != next_ptr.len() ==> r == Err::<i128, ReduceError>(
            ReduceError::InvalidInput,
        ),
        fun_val.len() == next_ptr.len() && !parents_in_range(next_ptr@) ==> r == Err::<
            i128,
            ReduceError,
        >(ReduceError::MalformedGraph),
        fun_val.len() == next_ptr.len() && parents_in_range(next_ptr@) ==> (r matches Ok(
            t,
        ) && t == forest_total(fun_val@, next_ptr@)),
{
    if fun_val.len() != next_ptr.len() {
        return Err(ReduceError::InvalidInput);
    }
    let n = fun_val.len();
    let mut j: usize = 0;
    while j < n
        invariant
            n == next_ptr.len() == fun_val.len(),
            j <= n,
            forall|k: int| 0 <= k < j ==> #[trigger] next_ptr@[k] <= n,
        decreases n - j,
    {
        if next_ptr[j] > n {
            return Err(ReduceError::MalformedGraph);
        }
        j = j + 1;
    }
    let ghost values = fun_val@;
    let ghost parents = next_ptr@;
    let mut elements: Vec<FunElement> = Vec::with_capacity(n);
    let mut j: usize = 0;
    while j < n
        invariant
            n == fun_val.len() == next_ptr.len(),
            j <= n,
            elements@ == node_elements(fun_val@, next_ptr@).take(j as int),
        decreases n - j,
    {
        elements.push(FunElement { idx: j, next_element: next_ptr[j], fun_val: fun_val[j] });
        j = j + 1;
        assert(elements@ =~= node_elements(fun_val@, next_ptr@).take(j as int));
    }
    assert(elements@ =~= node_elements(values, parents));
    sort_for_processing(&mut elements);
    let ghost order = elements@.map_values(|e: FunElement| e.idx);
    proof {
        lemma_sorted_elements(values, parents, elements@);
    }
    assert(order == processing_order(values, parents));
    let mut eff = fun_val;
    let mut total: i128 = 0;
    let mut i: usize = 0;
    while i < n
        invariant
            n == eff.len() == next_ptr.len() == elements.len(),
            parents == next_ptr@,
            parents_in_range(parents),
            order == elements@.map_values(|e: FunElement| e.idx),
            forall|k: int| 0 <= k < n ==> (#[trigger] elements@[k]).idx < n,
            i <= n,
            total + walk_from(parents, order, eff@, i as nat) == forest_total(values, parents),
            -(i as int) * 0x8000_0000_0000_0000 <= total <= (i as int) * 0x8000_0000_0000_0000,
        decreases n - i,
    {
        let cur = elements[i].idx;
        if i + 1 == n {
            total = total + eff[cur] as i128;
        } else {
            let next = elements[i + 1].idx;
            if next_ptr[cur] == 0 {
                // a chain that reaches the void ends here
                total = total + eff[cur] as i128;
            } else if next_ptr[cur] == next_ptr[next] {
                // siblings: the larger value ends, the smaller travels on
                if eff[cur] >= eff[next] {
                    total = total + eff[cur] as i128;
                } else {
                    total = total + eff[next] as i128;
                    let moved = eff[cur];
                    eff.set(next, moved);
                }
            } else {
                // the last child of its parent merges into it
                let p = next_ptr[cur] - 1;
                let merged = max_of(eff[p], eff[cur]);
                eff.set(p, merged);
            }
        }
        i = i + 1;
    }
    Ok(total)
}

/// The larger of the two values.
fn max_of(a: i64, b: i64) -> (r: i64)
    ensures
        r == max_i64(a, b),
{
    if a >= b {
        a
    } else {
        b
    }
}

} // verus!
