use casper::{Arena, Error, Message, Validator, Weight, Weights};

fn weights_of(entries: Vec<(Validator, Weight)>) -> Weights {
    Weights::new(entries).unwrap()
}

#[test]
fn genesis_has_no_estimate_and_empty_justification() {
    let g = Message::genesis(0);
    assert_eq!(g.id, 0);
    assert_eq!(g.sender, 0);
    assert!(g.estimate.is_none());
    assert!(g.justification.is_empty());

    let mut arena = Arena::new();
    let gid = arena.create_genesis();
    assert_eq!(gid, 0);
    let stored = arena.get(gid);
    assert!(stored.estimate.is_none());
    assert!(stored.justification.is_empty());
    assert_eq!(stored.sender, 0);
}

#[test]
fn estimate_stays_within_observed_messages() {
    let w = weights_of(vec![(1, 1), (2, 1)]);
    let mut arena = Arena::new();
    let g = arena.create_genesis();
    let m1 = arena.create_message(1, vec![g], g, &w).unwrap();
    let m2 = arena.create_message(2, vec![g, m1], g, &w).unwrap();
    for id in [m1, m2] {
        let est = arena.get(id).estimate.unwrap();
        assert!(est == g || arena.get(id).justification.contains(&est));
    }
}

#[test]
fn single_chain_estimates_its_tip() {
    let w = weights_of(vec![(1, 1), (2, 1), (3, 1), (4, 1)]);
    let mut arena = Arena::new();
    let g = arena.create_genesis();
    // each link builds on the previous one
    let c1 = arena.create_message(1, vec![g], g, &w).unwrap();
    assert_eq!(arena.get(c1).estimate, Some(g));
    let c2 = arena.create_message(2, vec![g, c1], g, &w).unwrap();
    assert_eq!(arena.get(c2).estimate, Some(c1));
    let c3 = arena.create_message(3, vec![g, c1, c2], g, &w).unwrap();
    assert_eq!(arena.get(c3).estimate, Some(c2));
    // a justification holding genesis and the whole chain estimates the tip
    let m = arena.create_message(4, vec![g, c1, c2, c3], g, &w).unwrap();
    assert_eq!(arena.get(m).estimate, Some(c3));
    // a justification holding the chain's tip alone is disconnected from
    // genesis, so the descent finds no child there and stays at genesis
    let stranded = arena.create_message(5, vec![c3], g, &w).unwrap();
    assert_eq!(arena.get(stranded).estimate, Some(g));
}

#[test]
fn heavier_child_wins_regardless_of_identifier_order() {
    // the lighter child has the smaller identifier, yet loses
    let w = weights_of(vec![(1, 1), (2, 3)]);
    let mut arena = Arena::new();
    let g = arena.create_genesis();
    let light = arena.create_message(1, vec![g], g, &w).unwrap();
    let heavy = arena.create_message(2, vec![g], g, &w).unwrap();
    assert!(light < heavy);
    let m = arena.create_message(3, vec![g, light, heavy], g, &w).unwrap();
    assert_eq!(arena.get(m).estimate, Some(heavy));
}

#[test]
fn equal_weight_tie_breaks_to_smaller_identifier() {
    let w = weights_of(vec![(1, 2), (2, 2)]);
    let mut arena = Arena::new();
    let g = arena.create_genesis();
    let first = arena.create_message(1, vec![g], g, &w).unwrap();
    let second = arena.create_message(2, vec![g], g, &w).unwrap();
    let m = arena.create_message(3, vec![g, first, second], g, &w).unwrap();
    assert_eq!(arena.get(m).estimate, Some(first));
}

#[test]
fn worked_scenario_four_validators() {
    // four validators of equal weight
    let w = weights_of(vec![(1, 1), (2, 1), (3, 1), (4, 1)]);
    let mut arena = Arena::new();
    let g = arena.create_genesis();
    let m1 = arena.create_message(1, vec![g], g, &w).unwrap();
    assert_eq!(arena.get(m1).estimate, Some(g));
    let m2 = arena.create_message(2, vec![g, m1], g, &w).unwrap();
    assert_eq!(arena.get(m2).estimate, Some(m1));
    let m3 = arena.create_message(3, vec![g], g, &w).unwrap();
    assert_eq!(arena.get(m3).estimate, Some(g));
    // children of g here are m1 and m3; score(m1) = 2 beats score(m3) = 1,
    // then m2 is the only child of m1
    let m4 = arena.create_message(4, vec![g, m1, m2, m3], g, &w).unwrap();
    assert_eq!(arena.get(m4).estimate, Some(m2));
}

#[test]
fn empty_weight_table_descends_to_smallest_identifiers() {
    let w = weights_of(vec![]);
    let mut arena = Arena::new();
    let g = arena.create_genesis();
    let m1 = arena.create_message(1, vec![g], g, &w).unwrap();
    let m2 = arena.create_message(2, vec![g], g, &w).unwrap();
    let m3 = arena.create_message(3, vec![g, m1], g, &w).unwrap();
    assert_eq!(arena.get(m3).estimate, Some(m1));
    // all scores are zero: pick the smallest child at each level
    let m = arena.create_message(4, vec![g, m1, m2, m3], g, &w).unwrap();
    assert_eq!(arena.get(m).estimate, Some(m3));
}

#[test]
fn unweighted_validator_contributes_nothing() {
    // validator 1 authored the smaller-id child but carries no weight
    let w = weights_of(vec![(2, 1)]);
    let mut arena = Arena::new();
    let g = arena.create_genesis();
    let unweighted = arena.create_message(1, vec![g], g, &w).unwrap();
    let weighted = arena.create_message(2, vec![g], g, &w).unwrap();
    let m = arena
        .create_message(3, vec![g, unweighted, weighted], g, &w)
        .unwrap();
    assert_eq!(arena.get(m).estimate, Some(weighted));
}

#[test]
fn estimator_can_be_called_directly() {
    let w = weights_of(vec![(1, 1), (2, 1)]);
    let mut arena = Arena::new();
    let g = arena.create_genesis();
    let m1 = arena.create_message(1, vec![g], g, &w).unwrap();
    let head = casper::estimator(&arena, &vec![g, m1], g, &w);
    assert_eq!(head, m1);
}

#[test]
fn latest_message_index_keeps_greatest_identifier_per_validator() {
    let w = weights_of(vec![(1, 1), (2, 1)]);
    let mut arena = Arena::new();
    let g = arena.create_genesis();
    let a = arena.create_message(1, vec![g], g, &w).unwrap();
    let b = arena.create_message(1, vec![g, a], g, &w).unwrap();
    let c = arena.create_message(2, vec![g], g, &w).unwrap();
    let idx = casper::latest_message_per_validator(&arena, &vec![g, a, b, c], &w);
    assert_eq!(idx, vec![(1, b), (2, c)]);
}

#[test]
fn message_new_packs_the_fork_choice_result() {
    let w = weights_of(vec![(1, 1), (2, 1)]);
    let mut arena = Arena::new();
    let g = arena.create_genesis();
    let m1 = arena.create_message(1, vec![g], g, &w).unwrap();
    let msg = Message::new(2, vec![g, m1], g, 7, &arena, &w).unwrap();
    assert_eq!(msg.id, 7);
    assert_eq!(msg.sender, 2);
    assert_eq!(msg.estimate, Some(m1));
    assert_eq!(msg.justification, vec![g, m1]);
}

#[test]
fn build_message_matches_new() {
    let w = weights_of(vec![(1, 1), (2, 1)]);
    let mut arena = Arena::new();
    let g = arena.create_genesis();
    let m1 = arena.create_message(1, vec![g], g, &w).unwrap();
    let a = Message::new(2, vec![g, m1], g, 9, &arena, &w).unwrap();
    let b = Message::build_message(2, vec![g, m1], g, 9, &arena, &w).unwrap();
    assert_eq!(a.estimate, b.estimate);
    assert_eq!(a.id, b.id);
    assert_eq!(a.sender, b.sender);
}

#[test]
fn create_message_rejects_bad_requests() {
    let w = weights_of(vec![(1, 1)]);
    let mut arena = Arena::new();
    let g = arena.create_genesis();
    assert_eq!(
        arena.create_message(0, vec![g], g, &w),
        Err(Error::InvalidSender)
    );
    assert_eq!(
        arena.create_message(1, vec![], g, &w),
        Err(Error::EmptyJustification)
    );
    assert_eq!(
        arena.create_message(1, vec![5], g, &w),
        Err(Error::InvalidHandle)
    );
    assert_eq!(
        arena.create_message(1, vec![g], 9, &w),
        Err(Error::InvalidHandle)
    );
    // the arena is unchanged by the rejections
    assert_eq!(arena.len(), 1);
}
