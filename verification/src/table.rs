//! The mathematics of a transition table: a sequence of weighted edges in
//! which a roll of the dice selects the edge whose stretch of the cumulative
//! weight it falls into.
use crate::step::{ToStep, Transition};
use vstd::prelude::*;
use vstd::set_lib::{lemma_int_range, set_int_range};

verus! {

/// The sum of the weights of the first `n` edges.
pub open spec fn weight_before<T>(edges: Seq<Transition<T>>, n: int) -> nat
    decreases n,
{
    if n <= 0 {
        0
    } else {
        weight_before(edges, n - 1) + edges[n - 1].weight as nat
    }
}

/// The sum of all weights of the table.
pub open spec fn total_weight<T>(edges: Seq<Transition<T>>) -> nat {
    weight_before(edges, edges.len() as int)
}

/// Edge `i` is the one that `roll` selects: the roll is at least the weight
/// that lies before the edge and less than the weight up to and including it.
pub open spec fn lands_on<T>(edges: Seq<Transition<T>>, roll: nat, i: int) -> bool {
    &&& 0 <= i < edges.len()
    &&& weight_before(edges, i) <= roll < weight_before(edges, i + 1)
}

/// Some edge with a positive weight leads to `to`.
pub open spec fn offers<T>(edges: Seq<Transition<T>>, to: ToStep<T>) -> bool {
    exists|i: int| 0 <= i < edges.len() && #[trigger] edges[i].weight > 0 && edges[i].to == to
}

/// No two edges lead to steps of the same state.
pub open spec fn distinct_targets<T>(edges: Seq<Transition<T>>) -> bool {
    forall|i: int, j: int|
        0 <= i < j < edges.len() ==> (#[trigger] edges[i]).to.state != (#[trigger] edges[j]).to.state
}

/// Some edge, of whatever weight, leads to a step of the given state.
pub open spec fn targets<T>(edges: Seq<Transition<T>>, state: T) -> bool {
    exists|i: int| 0 <= i < edges.len() && (#[trigger] edges[i]).to.state == state
}

/// Where the edge to a step of the given state stands, if there is one.
pub open spec fn position<T>(edges: Seq<Transition<T>>, state: T) -> int {
    choose|i: int| 0 <= i < edges.len() && (#[trigger] edges[i]).to.state == state
}

/// The table after an insert-or-replace: an edge to a step of the same state
/// keeps its place and its target and takes the new weight; otherwise the new
/// edge is added at the end.
pub open spec fn inserted<T>(edges: Seq<Transition<T>>, to: ToStep<T>, weight: usize) -> Seq<
    Transition<T>,
> {
    if targets(edges, to.state) {
        let at = position(edges, to.state);
        edges.update(at, Transition { to: edges[at].to, weight })
    } else {
        edges.push(Transition { to, weight })
    }
}

/// The rolls that select edge `i`.
pub open spec fn rolls_landing_on<T>(edges: Seq<Transition<T>>, i: int) -> Set<int> {
    Set::new(|roll: int| 0 <= roll && lands_on(edges, roll as nat, i))
}

/// Cumulative weight never shrinks as more edges are counted.
pub proof fn lemma_weight_before_grows<T>(edges: Seq<Transition<T>>, i: int, j: int)
    requires
        i <= j,
    ensures
        weight_before(edges, i) <= weight_before(edges, j),
    decreases j - i,
{
    if i < j {
        lemma_weight_before_grows(edges, i, j - 1);
    }
}

/// A table of machine-sized weights weighs at most its length times the
/// largest weight.
pub proof fn lemma_weight_before_bounded<T>(edges: Seq<Transition<T>>, n: int)
    requires
        0 <= n <= edges.len(),
    ensures
        weight_before(edges, n) <= n * usize::MAX,
    decreases n,
{
    if n > 0 {
        lemma_weight_before_bounded(edges, n - 1);
        assert((n - 1) * usize::MAX + usize::MAX == n * usize::MAX) by (nonlinear_arith);
    }
}

/// Every roll below the total weight selects exactly one edge.
pub proof fn lemma_roll_lands_once<T>(edges: Seq<Transition<T>>, roll: nat)
    requires
        roll < total_weight(edges),
    ensures
        exists|i: int| lands_on(edges, roll, i),
        forall|i: int, j: int| lands_on(edges, roll, i) && lands_on(edges, roll, j) ==> i == j,
{
    lemma_some_edge_reaches(edges, roll, edges.len() as int);
    assert forall|i: int, j: int| lands_on(edges, roll, i) && lands_on(edges, roll, j) implies i
        == j by {
        if i < j {
            lemma_weight_before_grows(edges, i + 1, j);
        }
        if j < i {
            lemma_weight_before_grows(edges, j + 1, i);
        }
    }
}

/// A roll below the weight of the first `n` edges lands on one of them.
proof fn lemma_some_edge_reaches<T>(edges: Seq<Transition<T>>, roll: nat, n: int)
    requires
        0 <= n <= edges.len(),
        roll < weight_before(edges, n),
    ensures
        exists|i: int| 0 <= i < n && lands_on(edges, roll, i),
    decreases n,
{
    if weight_before(edges, n - 1) <= roll {
        assert(lands_on(edges, roll, n - 1));
    } else {
        lemma_some_edge_reaches(edges, roll, n - 1);
    }
}

/// A roll never selects an edge of weight zero, and a roll that selects an
/// edge lies below the total weight.
pub proof fn lemma_landing_has_weight<T>(edges: Seq<Transition<T>>, roll: nat, i: int)
    requires
        lands_on(edges, roll, i),
    ensures
        edges[i].weight > 0,
        offers(edges, edges[i].to),
        roll < total_weight(edges),
{
    lemma_weight_before_grows(edges, i + 1, edges.len() as int);
}

/// A step is offered exactly when some roll selects an edge that leads to it.
pub proof fn lemma_offered_is_selectable<T>(edges: Seq<Transition<T>>, to: ToStep<T>)
    ensures
        offers(edges, to) <==> exists|roll: nat, i: int| #[trigger]
            lands_on(edges, roll, i) && edges[i].to == to,
{
    if offers(edges, to) {
        let i = choose|i: int| 0 <= i < edges.len() && #[trigger] edges[i].weight > 0 && edges[i].to == to;
        assert(lands_on(edges, weight_before(edges, i), i));
    }
    if exists|roll: nat, i: int| #[trigger] lands_on(edges, roll, i) && edges[i].to == to {
        let (roll, i) = choose|roll: nat, i: int| #[trigger]
            lands_on(edges, roll, i) && edges[i].to == to;
        assert(edges[i].weight > 0);
    }
}

/// Selection is proportional to weight: of the `total_weight` rolls that
/// select anything, exactly `weight` select a given edge.
pub proof fn lemma_rolls_in_proportion<T>(edges: Seq<Transition<T>>, i: int)
    requires
        0 <= i < edges.len(),
    ensures
        rolls_landing_on(edges, i).finite(),
        rolls_landing_on(edges, i).len() == edges[i].weight,
        rolls_landing_on(edges, i).subset_of(set_int_range(0, total_weight(edges) as int)),
{
    let low = weight_before(edges, i) as int;
    let high = weight_before(edges, i + 1) as int;
    lemma_int_range(low, high);
    assert(rolls_landing_on(edges, i) =~= set_int_range(low, high));
    lemma_weight_before_grows(edges, i + 1, edges.len() as int);
}

/// A table weighs nothing exactly when every edge weighs nothing, which is
/// exactly when it offers no step.
pub proof fn lemma_weightless<T>(edges: Seq<Transition<T>>)
    ensures
        total_weight(edges) == 0 <==> forall|i: int|
            0 <= i < edges.len() ==> (#[trigger] edges[i]).weight == 0,
        total_weight(edges) == 0 <==> forall|to: ToStep<T>| !offers(edges, to),
{
    if total_weight(edges) == 0 {
        assert forall|i: int| 0 <= i < edges.len() implies (#[trigger] edges[i]).weight == 0 by {
            lemma_weight_before_grows(edges, i + 1, edges.len() as int);
        }
    } else {
        lemma_roll_lands_once(edges, 0);
        let i = choose|i: int| lands_on(edges, 0, i);
        lemma_landing_has_weight(edges, 0, i);
    }
    if forall|i: int| 0 <= i < edges.len() ==> (#[trigger] edges[i]).weight == 0 {
        lemma_all_zero(edges, edges.len() as int);
    }
}

/// Edges of weight zero add up to zero.
proof fn lemma_all_zero<T>(edges: Seq<Transition<T>>, n: int)
    requires
        0 <= n <= edges.len(),
        forall|i: int| 0 <= i < edges.len() ==> (#[trigger] edges[i]).weight == 0,
    ensures
        weight_before(edges, n) == 0,
    decreases n,
{
    if n > 0 {
        lemma_all_zero(edges, n - 1);
        assert(edges[n - 1].weight == 0);
    }
}

/// Inserting keeps targets distinct, and afterwards exactly one edge leads
/// to a step of the inserted state: it carries the inserted weight.
pub proof fn lemma_inserted_once<T>(edges: Seq<Transition<T>>, to: ToStep<T>, weight: usize)
    requires
        distinct_targets(edges),
    ensures
        distinct_targets(inserted(edges, to, weight)),
        targets(inserted(edges, to, weight), to.state),
        inserted(edges, to, weight)[position(inserted(edges, to, weight), to.state)].weight
            == weight,
        forall|i: int|
            0 <= i < inserted(edges, to, weight).len() && (#[trigger] inserted(
                edges,
                to,
                weight,
            )[i]).to.state == to.state ==> i == position(inserted(edges, to, weight), to.state),
{
    let after = inserted(edges, to, weight);
    if targets(edges, to.state) {
        let at = position(edges, to.state);
        assert(after[at].to.state == to.state);
    } else {
        assert(after[edges.len() as int].to.state == to.state);
    }
    assert forall|i: int, j: int| 0 <= i < j < after.len() implies (#[trigger] after[i]).to.state
        != (#[trigger] after[j]).to.state by {
        if targets(edges, to.state) {
            assert(after[i].to == edges[i].to && after[j].to == edges[j].to);
        } else {
            if j < edges.len() {
                assert(after[i] == edges[i] && after[j] == edges[j]);
            } else {
                assert(after[i] == edges[i]);
            }
        }
    }
}

/// A second insert for a step of the same state overwrites the first: the
/// table has the same edges in the same places as after the first insert,
/// and the one that leads to that state carries the second weight alone.
pub proof fn lemma_insert_overwrites<T>(
    edges: Seq<Transition<T>>,
    first: ToStep<T>,
    second: ToStep<T>,
    earlier: usize,
    latest: usize,
)
    requires
        distinct_targets(edges),
        first.state == second.state,
    ensures
        inserted(inserted(edges, first, earlier), second, latest) == inserted(
            edges,
            first,
            latest,
        ),
        inserted(inserted(edges, first, earlier), second, latest).len() == inserted(
            edges,
            first,
            earlier,
        ).len(),
{
    let once = inserted(edges, first, earlier);
    lemma_inserted_once(edges, first, earlier);
    let at = position(once, first.state);
    if targets(edges, first.state) {
        let was = position(edges, first.state);
        assert(once[was].to.state == first.state);
        assert(at == was);
    } else {
        assert(once[edges.len() as int].to.state == first.state);
        assert(at == edges.len());
    }
    assert(inserted(once, second, latest) =~= inserted(edges, first, latest));
}

} // verus!
