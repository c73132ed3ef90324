use crate::backward_reach::{
    above, below, faces, monotone, preorder, some_below, steps_back, PredBasis,
};
use crate::multiset::{lemma_order_consistent, lemma_order_reflexive, MultiSet};
use std::hash::Hash;
use vstd::multiset::Multiset;
use vstd::prelude::*;

verus! {

/// The marking after a transition has fired forward: the inputs are taken
/// from the state, as far as they are there, and the outputs are added.
pub open spec fn fired<T>(state: Multiset<T>, inputs: Multiset<T>, outputs: Multiset<T>) -> Multiset<
    T,
> {
    state.sub(inputs).add(outputs)
}

/// The marking before a transition fired: the inputs are given back to the
/// state and the outputs are taken from it, as far as they are there.
pub open spec fn unfired<T>(
    state: Multiset<T>,
    inputs: Multiset<T>,
    outputs: Multiset<T>,
) -> Multiset<T> {
    state.add(inputs).sub(outputs)
}

/// A rule that consumes one marking and produces another.
pub struct Transition<T: Eq + Hash + Clone> {
    inputs: MultiSet<T>,
    outputs: MultiSet<T>,
}

impl<T: Eq + Hash + Clone> Transition<T> {
    /// The tokens that firing consumes.
    pub closed spec fn inputs(&self) -> Multiset<T> {
        self.inputs@
    }

    /// The tokens that firing produces.
    pub closed spec fn outputs(&self) -> Multiset<T> {
        self.outputs@
    }

    /// Firing on `state` keeps every count within the range of `i32`.
    pub open spec fn fits_forward(&self, state: Multiset<T>) -> bool {
        forall|e: T| #[trigger] fired(state, self.inputs(), self.outputs()).count(e) <= i32::MAX
    }

    /// Firing backward on `state` keeps every count within the range of
    /// `i32`, also before the outputs are taken away.
    pub open spec fn fits_backward(&self, state: Multiset<T>) -> bool {
        forall|e: T| #[trigger] state.add(self.inputs()).count(e) <= i32::MAX
    }

    /// The transition that consumes `inputs` and produces `outputs`.
    pub fn new(inputs: MultiSet<T>, outputs: MultiSet<T>) -> (transition: Transition<T>)
        ensures
            transition.inputs() == inputs@,
            transition.outputs() == outputs@,
    {
        Transition { inputs, outputs }
    }

    /// Fires the transition on a marking. Whether the inputs are present is
    /// not asked: what is missing of them is simply not taken.
    pub fn act(&self, multiset: &MultiSet<T>) -> (next: MultiSet<T>)
        requires
            self.fits_forward(multiset@),
        ensures
            next@ == fired(multiset@, self.inputs(), self.outputs()),
    {
        let left = multiset.clone() - self.inputs.clone();
        let outputs = self.outputs.clone();
        proof {
            assert forall|e: T| left@.count(e) + outputs@.count(e) <= i32::MAX by {
                assert(fired(multiset@, self.inputs(), self.outputs()).count(e) <= i32::MAX);
            }
        }
        left + outputs
    }

    /// Fires the transition backward on a marking. Whether the outputs are
    /// present is not asked: what is missing of them is simply not taken.
    pub fn reverse_act(&self, multiset: &MultiSet<T>) -> (prior: MultiSet<T>)
        requires
            self.fits_backward(multiset@),
        ensures
            prior@ == unfired(multiset@, self.inputs(), self.outputs()),
    {
        let state = multiset.clone();
        let inputs = self.inputs.clone();
        proof {
            assert forall|e: T| state@.count(e) + inputs@.count(e) <= i32::MAX by {
                assert(multiset@.add(self.inputs()).count(e) <= i32::MAX);
            }
        }
        state + inputs - self.outputs.clone()
    }
}

impl<T: Eq + Hash + Clone> Clone for Transition<T> {
    /// A transition with the same inputs and outputs.
    fn clone(&self) -> (copy: Self)
        ensures
            copy.inputs() == self.inputs(),
            copy.outputs() == self.outputs(),
    {
        Transition { inputs: self.inputs.clone(), outputs: self.outputs.clone() }
    }
}

/// A net: a list of transitions over one kind of place.
pub struct PetriNet<T: Eq + Hash + Clone> {
    transitions: Vec<Transition<T>>,
}

impl<T: Eq + Hash + Clone> PetriNet<T> {
    /// The transitions of the net, in the order in which they were given.
    pub closed spec fn rules(&self) -> Seq<Transition<T>> {
        self.transitions@
    }

    /// The net of the given transitions.
    pub fn new(transitions: Vec<Transition<T>>) -> (net: PetriNet<T>)
        ensures
            net.rules() == transitions@,
    {
        PetriNet { transitions }
    }
}

impl<T: Eq + Hash + Clone> PredBasis<MultiSet<T>> for PetriNet<T> {
    /// Every transition can be fired backward on `state` within the range
    /// of `i32`.
    open spec fn admits(&self, state: &MultiSet<T>) -> bool {
        forall|k: int| 0 <= k < self.rules().len() ==> (#[trigger] self.rules()[k]).fits_backward(state@)
    }

    /// The list holds, for every transition in turn, the marking that
    /// firing it backward on `state` gives.
    open spec fn is_basis(&self, state: &MultiSet<T>, basis: Seq<MultiSet<T>>) -> bool {
        &&& basis.len() == self.rules().len()
        &&& forall|k: int|
            0 <= k < basis.len() ==> (#[trigger] basis[k])@ == unfired(
                state@,
                self.rules()[k].inputs(),
                self.rules()[k].outputs(),
            )
    }

    /// Fires every transition backward on `state`, once each, in the order
    /// of the net. Equal and dominated markings are not removed.
    fn pred_basis(&self, state: &MultiSet<T>) -> (basis: Vec<MultiSet<T>>) {
        let mut basis: Vec<MultiSet<T>> = Vec::new();
        let mut k: usize = 0;
        while k < self.transitions.len()
            invariant
                self.admits(state),
                k <= self.transitions.len(),
                basis.len() == k,
                forall|i: int|
                    0 <= i < k ==> (#[trigger] basis@[i])@ == unfired(
                        state@,
                        self.rules()[i].inputs(),
                        self.rules()[i].outputs(),
                    ),
            decreases self.transitions.len() - k,
        {
            assert(self.rules()[k as int].fits_backward(state@));
            let prior = self.transitions[k].reverse_act(state);
            basis.push(prior);
            k += 1;
        }
        basis
    }
}

/// Where the inputs of a transition are all present in a state, firing
/// takes away exactly the inputs and adds exactly the outputs.
pub proof fn lemma_act_exact<T: Eq + Hash + Clone>(transition: Transition<T>, state: MultiSet<T>)
    requires
        transition.inputs().subset_of(state@),
    ensures
        forall|e: T|
            #[trigger] fired(state@, transition.inputs(), transition.outputs()).count(e)
                == state@.count(e) - transition.inputs().count(e) + transition.outputs().count(e),
{
    assert forall|e: T|
        #[trigger] fired(state@, transition.inputs(), transition.outputs()).count(e)
            == state@.count(e) - transition.inputs().count(e) + transition.outputs().count(
            e,
        ) by {
        assert(transition.inputs().count(e) <= state@.count(e));
    }
}

/// Firing backward is monotone: from a smaller marking it leads to a
/// smaller marking.
pub proof fn lemma_unfired_monotone<T>(
    small: Multiset<T>,
    large: Multiset<T>,
    inputs: Multiset<T>,
    outputs: Multiset<T>,
)
    requires
        small.subset_of(large),
    ensures
        unfired(small, inputs, outputs).subset_of(unfired(large, inputs, outputs)),
{
    assert forall|e: T|
        unfired(small, inputs, outputs).count(e) <= unfired(large, inputs, outputs).count(e) by {
        assert(small.count(e) <= large.count(e));
    }
}

/// Domination of markings is a preorder.
pub proof fn lemma_markings_preorder<T: Eq + Hash>()
    ensures
        preorder::<MultiSet<T>>(),
{
    assert forall|a: MultiSet<T>| #[trigger] below(&a, &a) by {
        lemma_order_reflexive(a);
    }
    assert forall|a: MultiSet<T>, b: MultiSet<T>, c: MultiSet<T>| #[trigger]
        below(&a, &b) && #[trigger] below(&b, &c) implies below(&a, &c) by {
        lemma_order_consistent(a, b);
        lemma_order_consistent(b, c);
        lemma_order_consistent(a, c);
        assert forall|e: T| a@.count(e) <= c@.count(e) by {
            assert(a@.count(e) <= b@.count(e));
            assert(b@.count(e) <= c@.count(e));
        }
    }
    assert forall|a: MultiSet<T>, b: MultiSet<T>| #[trigger] above(&a, &b) <==> below(&b, &a) by {
        lemma_order_consistent(a, b);
        lemma_order_consistent(b, a);
    }
}

/// A net is monotone under domination: below every predecessor of a
/// marking lies a predecessor of any smaller marking.
pub proof fn lemma_net_monotone<T: Eq + Hash + Clone>(net: &PetriNet<T>)
    ensures
        monotone::<MultiSet<T>, PetriNet<T>>(net),
{
    assert forall|x: MultiSet<T>, lower: Seq<MultiSet<T>>, y: MultiSet<T>, pred: MultiSet<T>| #[trigger]
        faces(net, x, lower, y, pred) implies some_below(lower, &pred) by {
        assert(steps_back(net, y, pred));
        let upper = choose|basis: Seq<MultiSet<T>>| #[trigger]
            net.is_basis(&y, basis) && basis.contains(pred);
        let j = choose|j: int| 0 <= j < upper.len() && upper[j] == pred;
        let rule = net.rules()[j];
        assert(lower[j]@ == unfired(x@, rule.inputs(), rule.outputs()));
        assert(upper[j]@ == unfired(y@, rule.inputs(), rule.outputs()));
        assert(x@.subset_of(y@));
        lemma_unfired_monotone(x@, y@, rule.inputs(), rule.outputs());
        assert(below(&lower[j], &pred));
    }
}

} // verus!
