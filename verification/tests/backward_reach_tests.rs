use std::cell::{Cell, RefCell};
use verf::backward_reach::{
    exists_ge_than, exists_le_than, explore_next, is_backward_reach, is_backward_reach_observed,
    PredBasis,
};
use verf::multiset::MultiSet;
use verf::petrinet::{PetriNet, Transition};

#[test]
fn test_lock_backward_reach() {
    let lock = String::from("Lock");
    let waiting = String::from("Waiting");
    let current = String::from("Current");

    let get_lock_inputs: MultiSet<&String> = MultiSet::from_vec(vec![&lock, &waiting]);
    let get_lock_outputs: MultiSet<&String> = MultiSet::from_vec(vec![&current]);
    let get_lock_transition = Transition::new(get_lock_inputs, get_lock_outputs);
    let release_lock_inputs: MultiSet<&String> = MultiSet::from_vec(vec![&current]);
    let release_lock_outputs: MultiSet<&String> = MultiSet::from_vec(vec![&lock, &waiting]);
    let release_lock_transition = Transition::new(release_lock_inputs, release_lock_outputs);
    let lock_petri_net = PetriNet::new(vec![get_lock_transition, release_lock_transition]);

    let initial_state: MultiSet<&String> = MultiSet::from_vec(vec![&lock, &waiting, &waiting]);
    let bad_state_gen: MultiSet<&String> = MultiSet::from_vec(vec![&current, &current]);

    assert!(!is_backward_reach(&lock_petri_net, bad_state_gen, vec![initial_state]))
}

#[test]
fn acquisition_without_the_lock_token_is_reachable() {
    let lock = String::from("Lock");
    let waiting = String::from("Waiting");
    let current = String::from("Current");

    let get_lock = Transition::new(
        MultiSet::from_vec(vec![&waiting]),
        MultiSet::from_vec(vec![&current]),
    );
    let release_lock = Transition::new(
        MultiSet::from_vec(vec![&current]),
        MultiSet::from_vec(vec![&lock, &waiting]),
    );
    let net = PetriNet::new(vec![get_lock, release_lock]);

    let initial_state: MultiSet<&String> = MultiSet::from_vec(vec![&lock, &waiting, &waiting]);
    let bad_state: MultiSet<&String> = MultiSet::from_vec(vec![&current, &current]);

    assert!(is_backward_reach(&net, bad_state, vec![initial_state]))
}

#[test]
fn acquisition_from_the_lock_token_alone_keeps_one_holder() {
    let lock = String::from("Lock");
    let waiting = String::from("Waiting");
    let current = String::from("Current");

    let get_lock = Transition::new(
        MultiSet::from_vec(vec![&lock]),
        MultiSet::from_vec(vec![&current]),
    );
    let release_lock = Transition::new(
        MultiSet::from_vec(vec![&current]),
        MultiSet::from_vec(vec![&lock, &waiting]),
    );
    let net = PetriNet::new(vec![get_lock, release_lock]);

    let initial_state: MultiSet<&String> = MultiSet::from_vec(vec![&lock, &waiting, &waiting]);
    let bad_state: MultiSet<&String> = MultiSet::from_vec(vec![&current, &current]);

    assert!(!is_backward_reach(&net, bad_state, vec![initial_state]))
}

#[test]
fn two_lock_tokens_allow_two_holders() {
    let lock = String::from("Lock");
    let waiting = String::from("Waiting");
    let current = String::from("Current");

    let get_lock = Transition::new(
        MultiSet::from_vec(vec![&lock, &waiting]),
        MultiSet::from_vec(vec![&current]),
    );
    let release_lock = Transition::new(
        MultiSet::from_vec(vec![&current]),
        MultiSet::from_vec(vec![&lock, &waiting]),
    );
    let net = PetriNet::new(vec![get_lock, release_lock]);

    let initial_state: MultiSet<&String> =
        MultiSet::from_vec(vec![&lock, &lock, &waiting, &waiting]);
    let bad_state: MultiSet<&String> = MultiSet::from_vec(vec![&current, &current]);

    assert!(is_backward_reach(&net, bad_state, vec![initial_state]))
}

#[test]
fn search_through_a_trait_object() {
    let net = PetriNet::new(vec![Transition::new(
        MultiSet::from_vec(vec![1]),
        MultiSet::from_vec(vec![2]),
    )]);
    let system: &dyn PredBasis<MultiSet<i32>> = &net;
    assert!(is_backward_reach(
        system,
        MultiSet::from_vec(vec![2]),
        vec![MultiSet::from_vec(vec![1])]
    ));
}

#[test]
fn target_dominated_by_initial_state_is_reached_at_once() {
    let net: PetriNet<i32> = PetriNet::new(Vec::new());
    assert!(is_backward_reach(
        &net,
        MultiSet::from_vec(vec![1]),
        vec![MultiSet::from_vec(vec![2]), MultiSet::from_vec(vec![1, 1, 3])]
    ));
}

#[test]
fn nothing_is_reached_without_initial_states() {
    let net = PetriNet::new(vec![Transition::new(
        MultiSet::from_vec(vec![1]),
        MultiSet::from_vec(vec![1]),
    )]);
    assert!(!is_backward_reach(&net, MultiSet::from_vec(vec![1]), Vec::new()));
}

#[test]
fn exists_le_than_on_integers() {
    assert!(exists_le_than(&vec![5, 3], &4));
    assert!(exists_le_than(&vec![4], &4));
    assert!(!exists_le_than(&vec![5, 6], &4));
    assert!(!exists_le_than(&Vec::<i32>::new(), &4));
}

#[test]
fn exists_ge_than_on_integers() {
    assert!(exists_ge_than(&vec![3, 5], &4));
    assert!(exists_ge_than(&vec![4], &4));
    assert!(!exists_ge_than(&vec![3, 2], &4));
    assert!(!exists_ge_than(&Vec::<i32>::new(), &4));
}

#[test]
fn exists_le_than_on_incomparable_multisets() {
    let items = vec![MultiSet::from_vec(vec![1, 1]), MultiSet::from_vec(vec![2])];
    assert!(!exists_le_than(&items, &MultiSet::from_vec(vec![1, 3])));
    assert!(exists_le_than(&items, &MultiSet::from_vec(vec![2, 3])));
    assert!(!exists_ge_than(&items, &MultiSet::from_vec(vec![1, 2])));
    assert!(exists_ge_than(&items, &MultiSet::from_vec(vec![1])));
}

/// Counts down: the only predecessor of `n` is `n - 1`, and zero has none.
struct Countdown {
    expansions: Cell<usize>,
}

impl PredBasis<u32> for Countdown {
    fn pred_basis(&self, state: &u32) -> Vec<u32> {
        self.expansions.set(self.expansions.get() + 1);
        if *state > 0 {
            vec![*state - 1]
        } else {
            Vec::new()
        }
    }
}

#[test]
fn search_expands_each_state_until_the_worklist_is_empty() {
    let system = Countdown { expansions: Cell::new(0) };
    assert!(!is_backward_reach(&system, 3, vec![]));
    assert_eq!(system.expansions.get(), 4);
}

/// Hands out the same two predecessors for every state.
struct Fixed {
    expansions: Cell<usize>,
}

impl PredBasis<MultiSet<i32>> for Fixed {
    fn pred_basis(&self, _state: &MultiSet<i32>) -> Vec<MultiSet<i32>> {
        self.expansions.set(self.expansions.get() + 1);
        vec![MultiSet::from_vec(vec![1, 2]), MultiSet::from_vec(vec![7])]
    }
}

#[test]
fn state_above_an_explored_state_is_dropped_without_expansion() {
    let system = Fixed { expansions: Cell::new(0) };
    let init: Vec<MultiSet<i32>> = vec![MultiSet::from_vec(vec![9])];
    let mut to_explore = vec![MultiSet::from_vec(vec![1, 1, 2])];
    let mut explored = vec![MultiSet::from_vec(vec![1])];
    assert!(!explore_next(&system, &init, &mut to_explore, &mut explored));
    assert_eq!(system.expansions.get(), 0);
    assert!(to_explore.is_empty());
    assert_eq!(explored.len(), 1);
}

#[test]
fn state_equal_to_an_explored_state_is_dropped_without_expansion() {
    let system = Fixed { expansions: Cell::new(0) };
    let init: Vec<MultiSet<i32>> = Vec::new();
    let mut to_explore = vec![MultiSet::from_vec(vec![3]), MultiSet::from_vec(vec![1])];
    let mut explored = vec![MultiSet::from_vec(vec![1])];
    assert!(!explore_next(&system, &init, &mut to_explore, &mut explored));
    assert_eq!(system.expansions.get(), 0);
    assert_eq!(to_explore.len(), 1);
    assert!(to_explore[0] == MultiSet::from_vec(vec![3]));
    assert_eq!(explored.len(), 1);
}

#[test]
fn state_dominated_by_initial_state_is_reported() {
    let system = Fixed { expansions: Cell::new(0) };
    let init: Vec<MultiSet<i32>> = vec![MultiSet::from_vec(vec![4, 4, 5])];
    let mut to_explore = vec![MultiSet::from_vec(vec![4, 5])];
    let mut explored = Vec::new();
    assert!(explore_next(&system, &init, &mut to_explore, &mut explored));
    assert_eq!(system.expansions.get(), 0);
    assert!(explored.is_empty());
}

#[test]
fn fresh_state_is_expanded_once_and_joins_the_explored() {
    let system = Fixed { expansions: Cell::new(0) };
    let init: Vec<MultiSet<i32>> = vec![MultiSet::from_vec(vec![9])];
    let mut to_explore = vec![MultiSet::from_vec(vec![3]), MultiSet::from_vec(vec![4])];
    let mut explored = vec![MultiSet::from_vec(vec![5])];
    assert!(!explore_next(&system, &init, &mut to_explore, &mut explored));
    assert_eq!(system.expansions.get(), 1);
    assert_eq!(to_explore.len(), 3);
    assert!(to_explore[0] == MultiSet::from_vec(vec![3]));
    assert!(to_explore[1] == MultiSet::from_vec(vec![1, 2]));
    assert!(to_explore[2] == MultiSet::from_vec(vec![7]));
    assert_eq!(explored.len(), 2);
    assert!(explored[1] == MultiSet::from_vec(vec![4]));
}

#[test]
fn search_prunes_states_above_explored_ones() {
    let system = Fixed { expansions: Cell::new(0) };
    let reached = is_backward_reach(
        &system,
        MultiSet::from_vec(vec![7]),
        vec![MultiSet::from_vec(vec![9])],
    );
    assert!(!reached);
    assert_eq!(system.expansions.get(), 2);
}

#[test]
fn observer_sees_every_popped_state_in_order() {
    let get_lock = Transition::new(MultiSet::from_vec(vec![0, 1]), MultiSet::from_vec(vec![2]));
    let release_lock = Transition::new(MultiSet::from_vec(vec![2]), MultiSet::from_vec(vec![0, 1]));
    let net = PetriNet::new(vec![get_lock, release_lock]);
    let seen: RefCell<Vec<MultiSet<i32>>> = RefCell::new(Vec::new());
    let reached = is_backward_reach_observed(
        &net,
        MultiSet::from_vec(vec![2, 2]),
        vec![MultiSet::from_vec(vec![0, 1, 1])],
        |state: &MultiSet<i32>| seen.borrow_mut().push(state.clone()),
    );
    assert!(!reached);
    let seen = seen.into_inner();
    assert_eq!(seen.len(), 7);
    assert!(seen[0] == MultiSet::from_vec(vec![2, 2]));
    assert!(seen[1] == MultiSet::from_vec(vec![2, 2, 2]));
    assert!(seen[2] == MultiSet::from_vec(vec![0, 1, 2]));
    assert!(seen[3] == MultiSet::from_vec(vec![2, 2]));
    assert!(seen[4] == MultiSet::from_vec(vec![0, 0, 1, 1]));
    assert!(seen[5] == MultiSet::from_vec(vec![0, 1, 2]));
    assert!(seen[6] == MultiSet::from_vec(vec![0, 0, 0, 1, 1, 1]));
}

#[test]
fn observer_sees_the_state_that_is_found() {
    let net: PetriNet<i32> = PetriNet::new(Vec::new());
    let calls = Cell::new(0);
    let reached = is_backward_reach_observed(
        &net,
        MultiSet::from_vec(vec![1]),
        vec![MultiSet::from_vec(vec![1, 2])],
        |_state: &MultiSet<i32>| calls.set(calls.get() + 1),
    );
    assert!(reached);
    assert_eq!(calls.get(), 1);
}
