//! Random walks over a chain.
use crate::chain::{extends, holds, sound, Chain};
use crate::step::{Step, ToStep};
use crate::table::{lemma_weightless, offers, total_weight};
use vstd::prelude::*;

verus! {

/// `from` is a step of the arena and one of its transitions of positive
/// weight leads to `to`.
pub open spec fn follows<T>(steps: Seq<Step<T>>, from: ToStep<T>, to: ToStep<T>) -> bool {
    &&& holds(steps, from)
    &&& offers(steps[from.index as int].transitions@, to)
}

/// No transition of positive weight leaves the step.
pub open spec fn dead_end<T>(steps: Seq<Step<T>>, at: ToStep<T>) -> bool {
    total_weight(steps[at.index as int].transitions@) == 0
}

/// The states along a trail of handles.
pub open spec fn states<T>(trail: Seq<ToStep<T>>) -> Seq<T> {
    trail.map_values(|at: ToStep<T>| at.state)
}

/// `trail` is what a walk of at most `limit` entries from `start` may visit:
/// it begins at `start`, every entry follows from the one before it, it never
/// has more than `limit` entries (but always the first), and it ends early
/// only at a dead end.
pub open spec fn is_walk<T>(
    steps: Seq<Step<T>>,
    start: ToStep<T>,
    limit: usize,
    trail: Seq<ToStep<T>>,
) -> bool {
    &&& trail.len() >= 1
    &&& trail[0] == start
    &&& forall|i: int| 0 <= i < trail.len() - 1 ==> follows(steps, #[trigger] trail[i], trail[i + 1])
    &&& trail.len() <= limit || trail.len() == 1
    &&& trail.len() < limit ==> dead_end(steps, trail.last())
}

/// Walk the Markov chain for a fixed number of steps, returning the visited
/// states.
///
/// The path starts with the state of `start`, also when `steps` is zero. Each
/// further entry is the state of a step chosen at random among the
/// transitions of the step before it. The walk stops when the path has
/// `steps` entries or when it reaches a step that no transition of positive
/// weight leaves.
pub fn walk<T: Copy>(chain: &Chain<T>, start: ToStep<T>, steps: usize) -> (path: Vec<T>)
    requires
        chain.wf(),
        chain.contains(start),
    ensures
        exists|trail: Seq<ToStep<T>>| #[trigger]
            is_walk(chain@, start, steps, trail) && path@ == states(trail),
{
    let mut current = start;
    let mut path = Vec::new();
    path.push(current.state);
    let ghost mut trail = seq![start];
    while path.len() < steps
        invariant
            chain.wf(),
            chain.contains(current),
            trail.len() == path.len(),
            trail.len() >= 1,
            trail[0] == start,
            trail.last() == current,
            path@ == states(trail),
            forall|i: int|
                0 <= i < trail.len() - 1 ==> follows(chain@, #[trigger] trail[i], trail[i + 1]),
            path.len() <= steps || path.len() == 1,
        ensures
            path.len() < steps ==> dead_end(chain@, current),
        decreases steps - path.len(),
    {
        match chain.step(current).next() {
            Some(next) => {
                proof {
                    lemma_follows_within(chain@, current, next);
                    trail = trail.push(next);
                }
                path.push(next.state);
                current = next;
            },
            None => {
                break ;
            },
        }
    }
    proof {
        assert(is_walk(chain@, start, steps, trail));
    }
    path
}

/// A walk stops short of its limit only at the first dead end it meets: no
/// entry before the last is a dead end, and a walk that meets none has as
/// many entries as were asked for (one, if none were).
pub proof fn lemma_walk_ends_at_first_dead_end<T>(
    steps: Seq<Step<T>>,
    start: ToStep<T>,
    limit: usize,
    trail: Seq<ToStep<T>>,
)
    requires
        is_walk(steps, start, limit, trail),
    ensures
        forall|k: int| 0 <= k < trail.len() - 1 ==> !dead_end(steps, #[trigger] trail[k]),
        !dead_end(steps, trail.last()) ==> trail.len() == if limit == 0 {
            1
        } else {
            limit as int
        },
{
    assert forall|k: int| 0 <= k < trail.len() - 1 implies !dead_end(steps, #[trigger] trail[k]) by {
        assert(follows(steps, trail[k], trail[k + 1]));
        lemma_weightless(steps[trail[k].index as int].transitions@);
    }
}

/// Asked for no entries, or for one, a walk records its start and nothing
/// more.
pub proof fn lemma_walk_of_nothing<T>(
    steps: Seq<Step<T>>,
    start: ToStep<T>,
    limit: usize,
    trail: Seq<ToStep<T>>,
)
    requires
        limit <= 1,
        is_walk(steps, start, limit, trail),
    ensures
        trail == seq![start],
        states(trail) == seq![start.state],
{
    assert(trail =~= seq![start]);
    assert(states(trail) =~= seq![start.state]);
}

/// Every entry of a walk through a sound arena names a step of the arena.
pub proof fn lemma_walk_stays_within<T: Copy>(
    steps: Seq<Step<T>>,
    start: ToStep<T>,
    limit: usize,
    trail: Seq<ToStep<T>>,
)
    requires
        sound(steps),
        holds(steps, start),
        is_walk(steps, start, limit, trail),
    ensures
        forall|k: int| 0 <= k < trail.len() ==> holds(steps, #[trigger] trail[k]),
{
    assert forall|k: int| 0 <= k < trail.len() implies holds(steps, #[trigger] trail[k]) by {
        if k > 0 {
            assert(follows(steps, trail[k - 1], trail[k]));
            lemma_follows_within(steps, trail[k - 1], trail[k]);
        }
    }
}

/// Where no step is a dead end, a walk never ends early: it has exactly as
/// many entries as were asked for (one, if none were).
pub proof fn lemma_walk_runs_full_length<T: Copy>(
    steps: Seq<Step<T>>,
    start: ToStep<T>,
    limit: usize,
    trail: Seq<ToStep<T>>,
)
    requires
        sound(steps),
        holds(steps, start),
        forall|at: ToStep<T>| holds(steps, at) ==> !dead_end(steps, at),
        is_walk(steps, start, limit, trail),
    ensures
        trail.len() == if limit == 0 {
            1
        } else {
            limit as int
        },
{
    lemma_walk_stays_within(steps, start, limit, trail);
    assert(holds(steps, trail[trail.len() - 1]));
}

/// One transition of a mutating walk, as the callback saw it: the chain as
/// it was handed over, the two steps, what the callback answered and the
/// chain as it left it.
pub struct Hop<T, E> {
    /// The chain when the callback was called.
    pub before: Seq<Step<T>>,
    /// The step the walk was at.
    pub from: ToStep<T>,
    /// The step that was chosen to come next.
    pub to: ToStep<T>,
    /// What the callback returned.
    pub outcome: Result<(), E>,
    /// The chain when the callback returned.
    pub after: Seq<Step<T>>,
}

/// The step a mutating walk stands at after the given hops.
pub open spec fn reached<T, E>(start: ToStep<T>, hops: Seq<Hop<T, E>>) -> ToStep<T> {
    if hops.len() == 0 {
        start
    } else {
        hops.last().to
    }
}

/// The chain as a mutating walk leaves it after the given hops.
pub open spec fn left<T, E>(first: Seq<Step<T>>, hops: Seq<Hop<T, E>>) -> Seq<Step<T>> {
    if hops.len() == 0 {
        first
    } else {
        hops.last().after
    }
}

/// The path a mutating walk records: the start, then the target of each hop.
pub open spec fn recorded<T, E>(start: ToStep<T>, hops: Seq<Hop<T, E>>) -> Seq<T> {
    seq![start.state] + hops.map_values(|hop: Hop<T, E>| hop.to.state)
}

/// The hops link up: each begins with the chain and at the step where the one
/// before it ended, takes a transition that the chain offered at that moment,
/// and only the last may have failed.
pub open spec fn linked<T, E>(first: Seq<Step<T>>, start: ToStep<T>, hops: Seq<Hop<T, E>>) -> bool {
    forall|i: int|
        0 <= i < hops.len() ==> {
            &&& (#[trigger] hops[i]).before == left(first, hops.take(i))
            &&& hops[i].from == reached(start, hops.take(i))
            &&& follows(hops[i].before, hops[i].from, hops[i].to)
            &&& i < hops.len() - 1 ==> hops[i].outcome is Ok
        }
}

/// `hops` is what a mutating walk of at most `limit` entries from `start` may
/// do to a chain that begins as `first`, and `result` and `last` are what it
/// then returns and leaves behind.
///
/// There is one hop per call of the callback, in order. The walk takes fewer
/// than `limit` hops. If the last hop failed, the result is that failure.
/// Otherwise the result is the recorded path, and the walk ended early only
/// at a step that was a dead end in the chain as last left.
pub open spec fn is_mut_walk<T, E>(
    first: Seq<Step<T>>,
    start: ToStep<T>,
    limit: usize,
    hops: Seq<Hop<T, E>>,
    last: Seq<Step<T>>,
    result: Result<Vec<T>, E>,
) -> bool {
    &&& linked(first, start, hops)
    &&& last == left(first, hops)
    &&& hops.len() < limit || hops.len() == 0
    &&& match result {
        Ok(path) => {
            &&& hops.len() > 0 ==> hops.last().outcome is Ok
            &&& path@ == recorded(start, hops)
            &&& hops.len() + 1 < limit ==> dead_end(last, reached(start, hops))
        },
        Err(failure) => hops.len() > 0 && hops.last().outcome == Err::<(), E>(failure),
    }
}

/// In a sound arena a transition leads to a step of the arena.
pub proof fn lemma_follows_within<T: Copy>(steps: Seq<Step<T>>, from: ToStep<T>, to: ToStep<T>)
    requires
        sound(steps),
        follows(steps, from, to),
    ensures
        holds(steps, to),
{
    let edges = steps[from.index as int].transitions@;
    let j = choose|j: int| 0 <= j < edges.len() && #[trigger] edges[j].weight > 0 && edges[j].to == to;
    assert(holds(steps, edges[j].to));
}

/// Extending twice is extending.
pub proof fn lemma_extends_twice<T>(
    latest: Seq<Step<T>>,
    later: Seq<Step<T>>,
    earlier: Seq<Step<T>>,
)
    requires
        extends(latest, later),
        extends(later, earlier),
    ensures
        extends(latest, earlier),
{
    assert forall|i: int| 0 <= i < earlier.len() implies (#[trigger] latest[i]).state
        == earlier[i].state by {
        assert(later[i].state == earlier[i].state);
    }
}

/// A handle into an arena is a handle into every arena that extends it.
pub proof fn lemma_extends_holds<T>(later: Seq<Step<T>>, earlier: Seq<Step<T>>, at: ToStep<T>)
    requires
        extends(later, earlier),
        holds(earlier, at),
    ensures
        holds(later, at),
{
    assert(later[at.index as int].state == earlier[at.index as int].state);
}

/// One more hop that begins where the others ended keeps the hops linked and
/// adds its target to the recorded path.
pub proof fn lemma_hop_appended<T, E>(
    first: Seq<Step<T>>,
    start: ToStep<T>,
    hops: Seq<Hop<T, E>>,
    hop: Hop<T, E>,
)
    requires
        linked(first, start, hops),
        hops.len() > 0 ==> hops.last().outcome is Ok,
        hop.before == left(first, hops),
        hop.from == reached(start, hops),
        follows(hop.before, hop.from, hop.to),
    ensures
        linked(first, start, hops.push(hop)),
        recorded(start, hops.push(hop)) == recorded(start, hops).push(hop.to.state),
        reached(start, hops.push(hop)) == hop.to,
        left(first, hops.push(hop)) == hop.after,
{
    let longer = hops.push(hop);
    assert forall|i: int| 0 <= i < longer.len() implies {
        &&& (#[trigger] longer[i]).before == left(first, longer.take(i))
        &&& longer[i].from == reached(start, longer.take(i))
        &&& follows(longer[i].before, longer[i].from, longer[i].to)
        &&& i < longer.len() - 1 ==> longer[i].outcome is Ok
    } by {
        assert(longer.take(i) == hops.take(i));
        if i < hops.len() {
            assert(longer[i] == hops[i]);
        } else {
            assert(hops.take(i) == hops);
        }
    }
    assert(recorded(start, longer) =~= recorded(start, hops).push(hop.to.state));
}

/// In a mutating walk that returns a path, the callback was called once per
/// transition and never failed: there is one hop less than the path has
/// entries, and hop `i` went from the step recorded at `i` to the step
/// recorded at `i + 1`.
pub proof fn lemma_path_matches_hops<T, E>(
    first: Seq<Step<T>>,
    start: ToStep<T>,
    limit: usize,
    hops: Seq<Hop<T, E>>,
    last: Seq<Step<T>>,
    path: Vec<T>,
)
    requires
        is_mut_walk(first, start, limit, hops, last, Ok::<Vec<T>, E>(path)),
    ensures
        hops.len() == path@.len() - 1,
        path@.len() <= limit || path@.len() == 1,
        forall|i: int|
            0 <= i < hops.len() ==> {
                &&& (#[trigger] hops[i]).from.state == path@[i]
                &&& hops[i].to.state == path@[i + 1]
                &&& hops[i].outcome is Ok
            },
{
    assert forall|i: int| 0 <= i < hops.len() implies {
        &&& (#[trigger] hops[i]).from.state == path@[i]
        &&& hops[i].to.state == path@[i + 1]
        &&& hops[i].outcome is Ok
    } by {
        if i > 0 {
            assert(hops.take(i).last() == hops[i - 1]);
        }
    }
}

/// A mutating walk fails exactly when a call of the callback failed. That
/// call is the last one, every call before it succeeded, and its failure is
/// what the walk returns.
pub proof fn lemma_failure_ends_walk<T, E>(
    first: Seq<Step<T>>,
    start: ToStep<T>,
    limit: usize,
    hops: Seq<Hop<T, E>>,
    last: Seq<Step<T>>,
    result: Result<Vec<T>, E>,
)
    requires
        is_mut_walk(first, start, limit, hops, last, result),
    ensures
        forall|k: int|
            0 <= k < hops.len() && (#[trigger] hops[k]).outcome is Err ==> {
                &&& k == hops.len() - 1
                &&& result is Err
                &&& hops[k].outcome == Err::<(), E>(result->Err_0)
            },
        result is Err ==> {
            &&& hops.len() >= 1
            &&& hops.last().outcome == Err::<(), E>(result->Err_0)
            &&& forall|i: int| 0 <= i < hops.len() - 1 ==> (#[trigger] hops[i]).outcome is Ok
        },
{
}

/// Walk the Markov chain for a fixed number of steps, applying a function to
/// each transition.
///
/// The walk goes as [`walk`] does. After a next step has been chosen and
/// before it is recorded, `apply` is called with the chain, the current step
/// and the next one; it may change the chain. If it fails, the walk stops at
/// once and returns the failure, leaving the chain as the callback left it.
///
/// The callback must accept every transition that a sound chain offers, and
/// must leave the chain sound and every step in its place.
pub fn mut_walk<T, E, F>(chain: &mut Chain<T>, start: ToStep<T>, steps: usize, apply: F) -> (result:
    Result<Vec<T>, E>) where
    T: Copy,
    F: Fn(&mut Chain<T>, ToStep<T>, ToStep<T>) -> Result<(), E>,

    requires
        old(chain).wf(),
        old(chain).contains(start),
        forall|c: &mut Chain<T>, from: ToStep<T>, to: ToStep<T>|
            c.wf() && follows(c@, from, to) ==> #[trigger] call_requires(apply, (c, from, to)),
        forall|c: &mut Chain<T>, from: ToStep<T>, to: ToStep<T>, outcome: Result<(), E>|
            c.wf() && follows(c@, from, to) && #[trigger] call_ensures(
                apply,
                (c, from, to),
                outcome,
            ) ==> final(c).wf() && extends(final(c)@, c@),
    ensures
        final(chain).wf(),
        extends(final(chain)@, old(chain)@),
        exists|hops: Seq<Hop<T, E>>|
            {
                &&& #[trigger] is_mut_walk(old(chain)@, start, steps, hops, final(chain)@, result)
                &&& forall|i: int|
                    0 <= i < hops.len() ==> exists|c: &mut Chain<T>|
                        {
                            &&& c@ == (#[trigger] hops[i]).before
                            &&& final(c)@ == hops[i].after
                            &&& #[trigger] call_ensures(
                                apply,
                                (c, hops[i].from, hops[i].to),
                                hops[i].outcome,
                            )
                        }
            },
{
    let ghost first = chain@;
    let mut current = start;
    let mut path = Vec::new();
    path.push(current.state);
    let ghost mut hops: Seq<Hop<T, E>> = Seq::empty();
    while path.len() < steps
        invariant
            first == old(chain)@,
            chain.wf(),
            chain.contains(current),
            extends(chain@, first),
            forall|c: &mut Chain<T>, from: ToStep<T>, to: ToStep<T>|
                c.wf() && follows(c@, from, to) ==> #[trigger] call_requires(apply, (c, from, to)),
            forall|c: &mut Chain<T>, from: ToStep<T>, to: ToStep<T>, outcome: Result<(), E>|
                c.wf() && follows(c@, from, to) && #[trigger] call_ensures(
                    apply,
                    (c, from, to),
                    outcome,
                ) ==> final(c).wf() && extends(final(c)@, c@),
            path.len() == hops.len() + 1,
            path@ == recorded(start, hops),
            current == reached(start, hops),
            chain@ == left(first, hops),
            linked(first, start, hops),
            hops.len() > 0 ==> hops.last().outcome is Ok,
            path.len() <= steps || path.len() == 1,
            forall|i: int|
                0 <= i < hops.len() ==> exists|c: &mut Chain<T>|
                    {
                        &&& c@ == (#[trigger] hops[i]).before
                        &&& final(c)@ == hops[i].after
                        &&& #[trigger] call_ensures(
                            apply,
                            (c, hops[i].from, hops[i].to),
                            hops[i].outcome,
                        )
                    },
        ensures
            path.len() < steps ==> dead_end(chain@, current),
        decreases steps - path.len(),
    {
        match chain.step(current).next() {
            Some(next) => {
                let ghost before = chain@;
                proof {
                    lemma_follows_within(before, current, next);
                }
                let outcome = apply(chain, current, next);
                proof {
                    let hop = Hop { before, from: current, to: next, outcome, after: chain@ };
                    lemma_hop_appended(first, start, hops, hop);
                    lemma_extends_twice(chain@, before, first);
                    lemma_extends_holds(chain@, before, next);
                    hops = hops.push(hop);
                }
                match outcome {
                    Ok(()) => {},
                    Err(failure) => {
                        proof {
                            assert(is_mut_walk(
                                first,
                                start,
                                steps,
                                hops,
                                chain@,
                                Err::<Vec<T>, E>(failure),
                            ));
                        }
                        return Err(failure);
                    },
                }
                path.push(next.state);
                current = next;
            },
            None => {
                break ;
            },
        }
    }
    proof {
        assert(is_mut_walk(first, start, steps, hops, chain@, Ok::<Vec<T>, E>(path)));
    }
    Ok(path)
}

} // verus!
