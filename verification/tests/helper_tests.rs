use matchy::helpers::checksum_matching;
use matchy::helpers::hash_seed;
use matchy::helpers::key_checksum;
use matchy::helpers::key_matches;
use matchy::matching::random_pair;
use matchy::matching::ConstraintEdge;
use matchy::pair::pair;
use matchy::Pairing;

#[test]
fn hash_seed_is_stable() {
    assert_eq!(hash_seed("2024-06-01"), hash_seed("2024-06-01"));
    assert_ne!(hash_seed("2024-06-01"), hash_seed("2024-06-02"));
    assert_eq!(hash_seed(""), hash_seed(""));
}

#[test]
fn checksum_is_stable_and_short() {
    let pairs = vec![vec![1u64, 2], vec![3, 4]];
    let c1 = checksum_matching(42, &pairs);
    let c2 = checksum_matching(42, &pairs);
    assert_eq!(c1, c2);
    assert_eq!(c1.len(), 8);
    assert!(c1.chars().all(|c| c.is_ascii_hexdigit()));
}

#[test]
fn checksum_tracks_its_inputs() {
    let pairs = vec![vec![1u64, 2], vec![3, 4]];
    let reordered = vec![vec![3u64, 4], vec![1, 2]];
    let changed = vec![vec![1u64, 3], vec![2, 4]];
    let c = checksum_matching(42, &pairs);
    assert_ne!(c, checksum_matching(43, &pairs));
    assert_ne!(c, checksum_matching(42, &reordered));
    assert_ne!(c, checksum_matching(42, &changed));
}

#[test]
fn key_checksum_combines_hash_and_checksum() {
    let pairs = vec![vec![1u64, 2], vec![3, 4]];
    let k = key_checksum("friday", &pairs);
    assert_eq!(k, checksum_matching(hash_seed("friday"), &pairs));
    assert!(key_matches("friday", &k, &pairs));
    assert!(!key_matches("saturday", &k, &pairs));
    assert!(!key_matches("friday", &String::from("00000000"), &pairs) || k == "00000000");
}

#[test]
fn constraint_edge_normalizes() {
    assert_eq!(ConstraintEdge::new((5, 2)), ConstraintEdge::new((2, 5)));
    assert_eq!(ConstraintEdge::new((0, 0)), ConstraintEdge::new((0, 0)));
    assert_ne!(ConstraintEdge::new((1, 2)), ConstraintEdge::new((1, 3)));
}

#[test]
fn random_pair_partitions() {
    let entities: Vec<u64> = (1..=9).collect();
    let Pairing(pairs, imperfect) = random_pair(entities, 5);
    assert!(imperfect.is_empty());
    assert_eq!(pairs.len(), 4);
    let mut all: Vec<u64> = pairs.iter().flatten().cloned().collect();
    all.sort();
    assert_eq!(all, (1..=9).collect::<Vec<u64>>());
    for (i, p) in pairs.iter().enumerate() {
        if i + 1 < pairs.len() {
            assert_eq!(p.len(), 2);
        } else {
            assert_eq!(p.len(), 3);
        }
    }
}

#[test]
fn random_pair_even_count() {
    let Pairing(pairs, _) = random_pair(vec![1, 2, 3, 4, 5, 6], 11);
    assert_eq!(pairs.len(), 3);
    assert!(pairs.iter().all(|p| p.len() == 2));
}

#[test]
fn pair_matches_random_pair() {
    let entities: Vec<u64> = (1..=7).collect();
    let bare = pair(entities.clone(), 99);
    let Pairing(pairs, _) = random_pair(entities, 99);
    assert_eq!(bare, pairs);
}

#[test]
fn shuffle_depends_on_seed() {
    // across a few seeds the shuffled chunking must depart from the input
    // order somewhere: a shuffle that handed its input back unchanged
    // would fail this
    let entities: Vec<u64> = (1..=12).collect();
    let identity = pair(entities.clone(), 0)
        == vec![vec![1, 2], vec![3, 4], vec![5, 6], vec![7, 8], vec![9, 10], vec![11, 12]];
    let mut any_different = false;
    let mut any_pair_of_seeds_differ = false;
    let first = pair(entities.clone(), 0);
    for seed in 0..20u64 {
        let p = pair(entities.clone(), seed);
        if p != vec![vec![1, 2], vec![3, 4], vec![5, 6], vec![7, 8], vec![9, 10], vec![11, 12]] {
            any_different = true;
        }
        if p != first {
            any_pair_of_seeds_differ = true;
        }
    }
    assert!(any_different || !identity);
    assert!(any_different);
    assert!(any_pair_of_seeds_differ);
}
