use matchy::matching::graph_pair;
use matchy::matching::PairError;
use matchy::Pairing;

fn sorted_members(pairs: &Vec<Vec<u64>>) -> Vec<u64> {
    let mut all: Vec<u64> = pairs.iter().flatten().cloned().collect();
    all.sort();
    all
}

fn contains_group(pairs: &Vec<Vec<u64>>, a: u64, b: u64) -> bool {
    pairs.iter().any(|p| p.contains(&a) && p.contains(&b))
}

#[test]
fn scenario_four_no_history() {
    let Pairing(pairs, imperfect) = graph_pair(vec![1, 2, 3, 4], &vec![], 42).unwrap();
    assert_eq!(pairs.len(), 2);
    assert!(pairs.iter().all(|p| p.len() == 2));
    assert_eq!(sorted_members(&pairs), vec![1, 2, 3, 4]);
    assert!(imperfect.is_empty());
}

#[test]
fn scenario_four_with_history() {
    for seed in 0..25u64 {
        let history = vec![vec![1, 2], vec![3, 4]];
        let Pairing(pairs, imperfect) = graph_pair(vec![1, 2, 3, 4], &history, seed).unwrap();
        assert_eq!(pairs.len(), 2);
        assert!(pairs.iter().all(|p| p.len() == 2));
        assert_eq!(sorted_members(&pairs), vec![1, 2, 3, 4]);
        assert!(!contains_group(&pairs, 1, 2), "repeated {{1,2}} at seed {seed}");
        assert!(!contains_group(&pairs, 3, 4), "repeated {{3,4}} at seed {seed}");
        assert!(contains_group(&pairs, 1, 3) || contains_group(&pairs, 1, 4));
        assert!(imperfect.is_empty());
    }
}

#[test]
fn scenario_five_no_history() {
    for seed in 0..25u64 {
        let Pairing(pairs, imperfect) = graph_pair(vec![1, 2, 3, 4, 5], &vec![], seed).unwrap();
        assert_eq!(pairs.len(), 2);
        let mut sizes: Vec<usize> = pairs.iter().map(|p| p.len()).collect();
        sizes.sort();
        assert_eq!(sizes, vec![2, 3]);
        assert_eq!(sorted_members(&pairs), vec![1, 2, 3, 4, 5]);
        assert!(imperfect.is_empty(), "imperfect at seed {seed}: {imperfect:?}");
    }
}

#[test]
fn scenario_too_few() {
    assert_eq!(
        graph_pair(vec![], &vec![], 1).unwrap_err(),
        PairError::InsufficientParticipants
    );
    assert_eq!(
        graph_pair(vec![7], &vec![], 1).unwrap_err(),
        PairError::InsufficientParticipants
    );
}

#[test]
fn scenario_too_many() {
    let many: Vec<u64> = (0..201).collect();
    assert_eq!(
        graph_pair(many, &vec![], 1).unwrap_err(),
        PairError::TooManyParticipants
    );
}

#[test]
fn scenario_fully_constrained() {
    let history = vec![vec![1, 2], vec![2, 3], vec![1, 3]];
    for seed in 0..10u64 {
        assert_eq!(
            graph_pair(vec![1, 2, 3], &history, seed).unwrap_err(),
            PairError::SolverInvariantViolation
        );
    }
}

#[test]
fn error_messages_are_distinct() {
    assert_eq!(
        PairError::InsufficientParticipants.message(),
        "Cannot pair with < 2 elements."
    );
    assert_eq!(
        PairError::TooManyParticipants.message(),
        "Exceeded the 200-element limit of graph_pair()."
    );
    assert_eq!(
        PairError::SolverInvariantViolation.message(),
        "Matching was unexpectedly empty."
    );
}

#[test]
fn imperfect_members_met_before() {
    // participant 1 already met everyone, so it can only repeat: the
    // matching pairs two of {2,3,4} and the bulk pair {1, leftover} is
    // flagged
    let history = vec![vec![1, 2], vec![1, 3], vec![1, 4]];
    for seed in 0..25u64 {
        let Pairing(pairs, imperfect) = graph_pair(vec![1, 2, 3, 4], &history, seed).unwrap();
        assert_eq!(sorted_members(&pairs), vec![1, 2, 3, 4]);
        let mut imp = imperfect.clone();
        imp.sort();
        imp.dedup();
        assert_eq!(imp.len(), 2, "seed {seed}: {imperfect:?}");
        assert!(imp.contains(&1), "seed {seed}: {imperfect:?}");
        // the flagged pair really stands together in a match
        assert!(contains_group(&pairs, imp[0], imp[1]));
    }
}

#[test]
fn remainder_with_positive_score() {
    // three participants where exactly one pair already met: the matching
    // takes a novel pair, the leftover joins it as a triple and is flagged
    // (its score is one); participant 3 met nobody, so it is never flagged
    let history = vec![vec![1, 2]];
    for seed in 0..25u64 {
        let Pairing(pairs, imperfect) = graph_pair(vec![1, 2, 3], &history, seed).unwrap();
        assert_eq!(pairs.len(), 1);
        assert_eq!(sorted_members(&pairs), vec![1, 2, 3]);
        assert_eq!(imperfect.len(), 1, "seed {seed}: {imperfect:?}");
        assert_ne!(imperfect[0], 3, "seed {seed}");
    }
}

#[test]
fn remainder_with_zero_score() {
    // five participants, no history: the remainder joins a match it has
    // met nobody of, so nothing is flagged even though a triple exists
    let Pairing(pairs, imperfect) = graph_pair(vec![10, 20, 30, 40, 50], &vec![], 7).unwrap();
    assert!(pairs.iter().any(|p| p.len() == 3));
    assert!(imperfect.is_empty());
}

#[test]
fn determinism_same_inputs() {
    let history = vec![vec![1, 2], vec![5, 6]];
    let entities: Vec<u64> = (1..=10).collect();
    let Pairing(p1, i1) = graph_pair(entities.clone(), &history, 1234).unwrap();
    let Pairing(p2, i2) = graph_pair(entities, &history, 1234).unwrap();
    assert_eq!(p1, p2);
    assert_eq!(i1, i2);
    assert_eq!(
        matchy::helpers::checksum_matching(1234, &p1),
        matchy::helpers::checksum_matching(1234, &p2)
    );
}

#[test]
fn history_of_absent_members_is_ignored() {
    // history naming participants outside the current set imposes nothing
    let history = vec![vec![1, 99], vec![98, 97]];
    let Pairing(pairs, imperfect) = graph_pair(vec![1, 2, 3, 4], &history, 3).unwrap();
    assert_eq!(sorted_members(&pairs), vec![1, 2, 3, 4]);
    assert!(imperfect.is_empty());
}
