//! Steps, the handles that name them, and their transition tables.
use crate::chance::roll_below;
use crate::table::{
    distinct_targets, inserted, lands_on, lemma_weight_before_bounded, offers, position, targets,
    total_weight, weight_before,
};
use std::hash::{Hash, Hasher};
use vstd::laws_eq::obeys_concrete_eq;
use vstd::prelude::*;
use vstd::std_specs::cmp::{PartialEqSpec, PartialEqSpecImpl};

verus! {

/// Names a step of a chain: where it lives in the arena and the state it
/// holds. Cheap to copy; any number of tables and callers may hold the same
/// handle.
#[derive(Debug)]
pub struct ToStep<T> {
    /// Position of the step in its chain.
    pub index: usize,
    /// The state value of the step.
    pub state: T,
}

/// One outgoing edge of a step.
#[derive(Debug)]
pub struct Transition<T> {
    /// The step the edge leads to.
    pub to: ToStep<T>,
    /// How strongly the edge is preferred; zero means never taken.
    pub weight: usize,
}

/// A node of the chain: a state and the weighted transitions that leave it.
///
/// Steps are compared and hashed by their state alone, whatever their
/// transitions.
#[derive(Debug)]
pub struct Step<T> {
    /// The state value for this step.
    pub state: T,
    /// Outgoing transitions and their weights, at most one per target state.
    pub transitions: Vec<Transition<T>>,
}

/// Hands a state to a hasher with `Hash::hash`.
///
/// Not verified, and nothing is claimed of what the hasher then holds: the
/// wrapper is here so that steps and handles hash as their states do.
#[verifier::external_body]
fn feed<T: Hash, H: Hasher>(state: &T, hasher: &mut H) {
    state.hash(hasher);
}

impl<T: Copy> Clone for ToStep<T> {
    fn clone(&self) -> (copy: Self)
        ensures
            copy == *self,
    {
        *self
    }
}

impl<T: Copy> Copy for ToStep<T> {

}

impl<T: Copy> Clone for Transition<T> {
    fn clone(&self) -> (copy: Self)
        ensures
            copy == *self,
    {
        *self
    }
}

impl<T: Copy> Copy for Transition<T> {

}

impl<T: Copy> Clone for Step<T> {
    /// A step of the same state with a table of its own that holds the same
    /// transitions: the same targets with the same weights.
    fn clone(&self) -> (copy: Self)
        ensures
            copy.state == self.state,
            copy.transitions@ == self.transitions@,
    {
        let transitions = self.transitions.clone();
        Step { state: self.state, transitions }
    }
}

impl<T: PartialEq> PartialEq for ToStep<T> {
    /// Handles are equal when the steps they name hold equal states.
    fn eq(&self, other: &Self) -> (same: bool) {
        self.state == other.state
    }
}

impl<T: PartialEq> PartialEqSpecImpl for ToStep<T> {
    open spec fn obeys_eq_spec() -> bool {
        <T as PartialEqSpec>::obeys_eq_spec()
    }

    open spec fn eq_spec(&self, other: &Self) -> bool {
        self.state.eq_spec(&other.state)
    }
}

impl<T: Eq> Eq for ToStep<T> {

}

impl<T: Hash> Hash for ToStep<T> {
    /// Feeds the state, and nothing else, to the hasher.
    fn hash<H: Hasher>(&self, hasher: &mut H) {
        feed(&self.state, hasher);
    }
}

impl<T: PartialEq> PartialEq for Step<T> {
    /// Steps are equal when they hold equal states.
    fn eq(&self, other: &Self) -> (same: bool) {
        self.state == other.state
    }
}

impl<T: PartialEq> PartialEqSpecImpl for Step<T> {
    open spec fn obeys_eq_spec() -> bool {
        <T as PartialEqSpec>::obeys_eq_spec()
    }

    open spec fn eq_spec(&self, other: &Self) -> bool {
        self.state.eq_spec(&other.state)
    }
}

impl<T: Eq> Eq for Step<T> {

}

impl<T: Hash> Hash for Step<T> {
    /// Feeds the state, and nothing else, to the hasher.
    fn hash<H: Hasher>(&self, hasher: &mut H) {
        feed(&self.state, hasher);
    }
}

impl<T: Default> Default for Step<T> {
    /// A step of the default state with no transitions.
    fn default() -> (step: Self)
        ensures
            step.transitions@ == Seq::<Transition<T>>::empty(),
            call_ensures(T::default, (), step.state),
    {
        Step { state: T::default(), transitions: Vec::new() }
    }
}

impl<T: Copy> Step<T> {
    /// The table holds at most one transition per target state.
    pub open spec fn wf(&self) -> bool {
        distinct_targets(self.transitions@)
    }

    /// Create a new `Step` with the given state and no transitions.
    pub fn new(state: T) -> (step: Self)
        ensures
            step.state == state,
            step.transitions@ == Seq::<Transition<T>>::empty(),
            step.wf(),
    {
        Step { state, transitions: Vec::new() }
    }

    /// The sum of the weights of all outgoing transitions.
    pub fn total_weight(&self) -> (total: u128)
        ensures
            total == total_weight(self.transitions@),
    {
        let mut total: u128 = 0;
        let mut i: usize = 0;
        while i < self.transitions.len()
            invariant
                i <= self.transitions.len(),
                total == weight_before(self.transitions@, i as int),
            decreases self.transitions.len() - i,
        {
            proof {
                lemma_weight_before_bounded(self.transitions@, i as int);
                assert(i * usize::MAX + usize::MAX <= u128::MAX) by (nonlinear_arith)
                    requires
                        i <= usize::MAX,
                        usize::MAX <= 0xffff_ffff_ffff_ffff,
                ;
            }
            total = total + self.transitions[i].weight as u128;
            i += 1;
        }
        total
    }

    /// The transition that a given roll selects: the first one at which the
    /// running sum of weights exceeds the roll. Rolls at or beyond the total
    /// weight select nothing.
    pub fn pick(&self, roll: u128) -> (next: Option<ToStep<T>>)
        ensures
            match next {
                Some(to) => exists|i: int| #[trigger]
                    lands_on(self.transitions@, roll as nat, i) && to == self.transitions@[i].to,
                None => roll >= total_weight(self.transitions@),
            },
    {
        let mut cumulative: u128 = 0;
        let mut i: usize = 0;
        while i < self.transitions.len()
            invariant
                i <= self.transitions.len(),
                cumulative == weight_before(self.transitions@, i as int),
                cumulative <= roll,
            decreases self.transitions.len() - i,
        {
            let weight: u128 = self.transitions[i].weight as u128;
            if roll - cumulative < weight {
                assert(lands_on(self.transitions@, roll as nat, i as int));
                return Some(self.transitions[i].to);
            }
            cumulative = cumulative + weight;
            i += 1;
        }
        None
    }

    /// Randomly select the next step based on transition weights.
    ///
    /// Returns nothing exactly when no weight is positive. Otherwise the
    /// answer is the target of some transition of positive weight; which one
    /// depends on the dice.
    pub fn next(&self) -> (next: Option<ToStep<T>>)
        ensures
            next is None <==> total_weight(self.transitions@) == 0,
            next matches Some(to) ==> offers(self.transitions@, to),
    {
        let total: u128 = self.total_weight();
        if total == 0 {
            return None;
        }
        let roll: u128 = roll_below(total);
        let next = self.pick(roll);
        proof {
            if let Some(to) = next {
                let i = choose|i: int| #[trigger]
                    lands_on(self.transitions@, roll as nat, i) && to == self.transitions@[i].to;
                assert(self.transitions@[i].weight > 0);
            }
        }
        next
    }
}

impl<T: Copy + PartialEq> Step<T> {
    /// Where the transition to a step of the given state stands in the table.
    fn find(&self, state: T) -> (found: Option<usize>)
        requires
            obeys_concrete_eq::<T>(),
            self.wf(),
        ensures
            match found {
                Some(at) => targets(self.transitions@, state) && at == position(
                    self.transitions@,
                    state,
                ),
                None => !targets(self.transitions@, state),
            },
    {
        let mut i: usize = 0;
        while i < self.transitions.len()
            invariant
                obeys_concrete_eq::<T>(),
                self.wf(),
                i <= self.transitions.len(),
                forall|j: int| 0 <= j < i ==> (#[trigger] self.transitions@[j]).to.state != state,
            decreases self.transitions.len() - i,
        {
            proof {
                reveal(obeys_concrete_eq);
            }
            if self.transitions[i].to.state == state {
                assert(self.transitions@[i as int].to.state == state);
                return Some(i);
            }
            i += 1;
        }
        None
    }

    /// The weight of the transition to a step of the given state, if the
    /// table has one.
    pub fn weight_to(&self, state: T) -> (weight: Option<usize>)
        requires
            obeys_concrete_eq::<T>(),
            self.wf(),
        ensures
            match weight {
                Some(weight) => targets(self.transitions@, state) && weight
                    == self.transitions@[position(self.transitions@, state)].weight,
                None => !targets(self.transitions@, state),
            },
    {
        match self.find(state) {
            Some(at) => Some(self.transitions[at].weight),
            None => None,
        }
    }

    /// Add or update a transition to another step with a given weight.
    ///
    /// Transitions are keyed by the state of their target: a transition to a
    /// step of the same state is overwritten in place, keeping the target it
    /// already had.
    pub fn insert_transition(&mut self, to_step: ToStep<T>, weight: usize)
        requires
            obeys_concrete_eq::<T>(),
            old(self).wf(),
        ensures
            final(self).state == old(self).state,
            final(self).transitions@ == inserted(old(self).transitions@, to_step, weight),
            final(self).wf(),
    {
        match self.find(to_step.state) {
            Some(at) => {
                self.transitions[at].weight = weight;
            },
            None => {
                self.transitions.push(Transition { to: to_step, weight });
            },
        }
    }
}

} // verus!
