//! The arena that owns the steps of a chain.
use crate::step::{Step, ToStep};
use crate::table::inserted;
use vstd::laws_eq::obeys_concrete_eq;
use vstd::prelude::*;

verus! {

/// The handle names a step of the arena: its index is in range and the step
/// there holds the state the handle carries.
pub open spec fn holds<T>(steps: Seq<Step<T>>, at: ToStep<T>) -> bool {
    &&& at.index < steps.len()
    &&& steps[at.index as int].state == at.state
}

/// Every table is well formed and every transition leads to a step of the
/// same arena.
pub open spec fn sound<T: Copy>(steps: Seq<Step<T>>) -> bool {
    forall|i: int|
        0 <= i < steps.len() ==> {
            &&& (#[trigger] steps[i]).wf()
            &&& forall|j: int|
                0 <= j < steps[i].transitions@.len() ==> holds(
                    steps,
                    #[trigger] steps[i].transitions@[j].to,
                )
        }
}

/// `later` has every step of `earlier`, at the same place and with the same
/// state, so a handle into `earlier` is a handle into `later`.
pub open spec fn extends<T>(later: Seq<Step<T>>, earlier: Seq<Step<T>>) -> bool {
    &&& earlier.len() <= later.len()
    &&& forall|i: int| 0 <= i < earlier.len() ==> (#[trigger] later[i]).state == earlier[i].state
}

/// A Markov chain: steps addressed by stable handles.
///
/// Steps are never removed and never change their state, so a handle stays
/// good for as long as the chain lives. Transitions may form any directed
/// graph, cycles and self-loops included.
pub struct Chain<T> {
    steps: Vec<Step<T>>,
}

impl<T> View for Chain<T> {
    type V = Seq<Step<T>>;

    closed spec fn view(&self) -> Seq<Step<T>> {
        self.steps@
    }
}

impl<T: Copy> Chain<T> {
    /// The chain's invariant.
    pub open spec fn wf(&self) -> bool {
        sound(self@)
    }

    /// The handle names a step of this chain.
    pub open spec fn contains(&self, at: ToStep<T>) -> bool {
        holds(self@, at)
    }

    /// A chain without steps.
    pub fn new() -> (chain: Self)
        ensures
            chain@ == Seq::<Step<T>>::empty(),
            chain.wf(),
    {
        Chain { steps: Vec::new() }
    }

    /// The number of steps.
    pub fn len(&self) -> (n: usize)
        ensures
            n == self@.len(),
    {
        self.steps.len()
    }

    /// Moves a step into the chain and returns the handle that names it from
    /// then on. Its transitions may lead to steps already in the chain and to
    /// the step itself.
    pub fn add(&mut self, step: Step<T>) -> (at: ToStep<T>)
        requires
            old(self).wf(),
            step.wf(),
            forall|j: int|
                0 <= j < step.transitions@.len() ==> holds(
                    old(self)@.push(step),
                    #[trigger] step.transitions@[j].to,
                ),
        ensures
            final(self)@ == old(self)@.push(step),
            at == (ToStep { index: old(self)@.len() as usize, state: step.state }),
            final(self).wf(),
            final(self).contains(at),
    {
        let at = ToStep { index: self.steps.len(), state: step.state };
        self.steps.push(step);
        at
    }

    /// The step that a handle names.
    pub fn step(&self, at: ToStep<T>) -> (step: &Step<T>)
        requires
            self.contains(at),
        ensures
            *step == self@[at.index as int],
    {
        &self.steps[at.index]
    }
}

impl<T: Copy + PartialEq> Chain<T> {
    /// Add or update the transition from one step of the chain to another.
    ///
    /// The table of `from` is keyed by target state: if it already has a
    /// transition to a step of `to`'s state, that transition takes the new
    /// weight and keeps its target; otherwise a transition to `to` is added.
    /// Nothing else in the chain changes.
    pub fn insert_transition(&mut self, from: ToStep<T>, to: ToStep<T>, weight: usize)
        requires
            obeys_concrete_eq::<T>(),
            old(self).wf(),
            old(self).contains(from),
            old(self).contains(to),
        ensures
            final(self)@.len() == old(self)@.len(),
            forall|i: int|
                0 <= i < old(self)@.len() && i != from.index ==> final(self)@[i] == old(self)@[i],
            final(self)@[from.index as int].state == from.state,
            final(self)@[from.index as int].transitions@ == inserted(
                old(self)@[from.index as int].transitions@,
                to,
                weight,
            ),
            final(self).wf(),
            extends(final(self)@, old(self)@),
    {
        self.steps[from.index].insert_transition(to, weight);
    }
}

} // verus!
