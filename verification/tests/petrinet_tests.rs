use verf::backward_reach::PredBasis;
use verf::multiset::MultiSet;
use verf::petrinet::{PetriNet, Transition};

fn compare_unordered_vec<T: PartialEq>(first: Vec<T>, second: Vec<T>) -> bool {
    for i in &first {
        let mut found_match = false;
        for j in &second {
            if j == i {
                found_match = true;
            }
        }
        if !found_match {
            return false;
        }
    }
    true
}

#[test]
fn act() {
    let inputs: MultiSet<i32> = MultiSet::from_vec(vec![1, 2]);
    let outputs: MultiSet<i32> = MultiSet::from_vec(vec![3]);
    let transition = Transition::new(inputs, outputs);
    let state: MultiSet<i32> = MultiSet::from_vec(vec![1, 2, 3]);
    let expected_state: MultiSet<i32> = MultiSet::from_vec(vec![3, 3]);
    assert!(transition.act(&state) == expected_state);
}

#[test]
fn reverse_act() {
    let inputs: MultiSet<i32> = MultiSet::from_vec(vec![1, 2]);
    let outputs: MultiSet<i32> = MultiSet::from_vec(vec![3]);
    let transition = Transition::new(inputs, outputs);
    let state: MultiSet<i32> = MultiSet::from_vec(vec![1, 2, 3]);
    let expected_state: MultiSet<i32> = MultiSet::from_vec(vec![1, 1, 2, 2]);
    assert!(transition.reverse_act(&state) == expected_state);
}

#[test]
fn pred_basis() {
    let first_place = String::from("First");
    let second_place = String::from("Second");
    let third_place = String::from("Third");
    let first_inputs: MultiSet<&String> = MultiSet::from_vec(vec![&first_place, &second_place]);
    let first_outputs: MultiSet<&String> = MultiSet::from_vec(vec![&third_place]);
    let first_transition = Transition::new(first_inputs, first_outputs);
    let second_inputs: MultiSet<&String> = MultiSet::from_vec(vec![&third_place]);
    let second_outputs: MultiSet<&String> = MultiSet::from_vec(vec![&first_place, &second_place]);
    let second_transition = Transition::new(second_inputs, second_outputs);
    let petri_net = PetriNet::new(vec![first_transition, second_transition]);

    let initial_state: MultiSet<&String> = MultiSet::from_vec(vec![&second_place, &second_place]);
    let first_expected_state: MultiSet<&String> =
        MultiSet::from_vec(vec![&second_place, &third_place]);
    let second_expected_state: MultiSet<&String> = MultiSet::from_vec(vec![
        &second_place,
        &second_place,
        &second_place,
        &first_place,
    ]);

    assert!(compare_unordered_vec(
        petri_net.pred_basis(&initial_state),
        vec![first_expected_state, second_expected_state]
    ))
}

#[test]
fn pred_basis_lists_one_state_for_each_transition_in_order() {
    let forth = Transition::new(MultiSet::from_vec(vec![1, 2]), MultiSet::from_vec(vec![3]));
    let back = Transition::new(MultiSet::from_vec(vec![3]), MultiSet::from_vec(vec![1, 2]));
    let net = PetriNet::new(vec![forth, back]);
    let basis = net.pred_basis(&MultiSet::from_vec(vec![2, 2]));
    assert_eq!(basis.len(), 2);
    assert!(basis[0] == MultiSet::from_vec(vec![1, 2, 2, 2]));
    assert!(basis[1] == MultiSet::from_vec(vec![2, 3]));
}

#[test]
fn pred_basis_keeps_duplicates() {
    let rule = Transition::new(MultiSet::from_vec(vec![1]), MultiSet::from_vec(vec![2]));
    let net = PetriNet::new(vec![rule.clone(), rule]);
    let basis = net.pred_basis(&MultiSet::from_vec(vec![2]));
    assert_eq!(basis.len(), 2);
    assert!(basis[0] == MultiSet::from_vec(vec![1]));
    assert!(basis[1] == MultiSet::from_vec(vec![1]));
}

#[test]
fn pred_basis_of_net_without_transitions_is_empty() {
    let net: PetriNet<i32> = PetriNet::new(Vec::new());
    assert!(net.pred_basis(&MultiSet::from_vec(vec![1])).is_empty());
}

#[test]
fn act_on_state_holding_the_inputs_is_exact() {
    let transition = Transition::new(MultiSet::from_vec(vec![1, 1, 2]), MultiSet::from_vec(vec![2, 4]));
    let next = transition.act(&MultiSet::from_vec(vec![1, 1, 1, 2, 3]));
    assert_eq!(next.get(&1), Some(1));
    assert_eq!(next.get(&2), Some(1));
    assert_eq!(next.get(&3), Some(1));
    assert_eq!(next.get(&4), Some(1));
}

#[test]
fn act_without_the_inputs_still_adds_the_outputs() {
    let transition = Transition::new(MultiSet::from_vec(vec![1, 2]), MultiSet::from_vec(vec![3]));
    let next = transition.act(&MultiSet::from_vec(vec![2]));
    assert!(next == MultiSet::from_vec(vec![3]));
}

#[test]
fn reverse_act_after_act_need_not_give_back_the_state() {
    let transition = Transition::new(MultiSet::from_vec(vec![1]), MultiSet::from_vec(vec![2]));
    let state: MultiSet<i32> = MultiSet::from_vec(vec![3]);
    let back = transition.reverse_act(&transition.act(&state));
    assert!(back == MultiSet::from_vec(vec![1, 3]));
    assert!(back != state);
}

#[test]
fn clone_of_transition_acts_alike() {
    let transition = Transition::new(MultiSet::from_vec(vec![1]), MultiSet::from_vec(vec![2, 2]));
    let copy = transition.clone();
    let state: MultiSet<i32> = MultiSet::from_vec(vec![1, 1]);
    assert!(copy.act(&state) == transition.act(&state));
    assert!(copy.act(&state) == MultiSet::from_vec(vec![1, 2, 2]));
}
