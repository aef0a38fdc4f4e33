use fbas_analyzer::analysis::minimal_quorums::{find_minimal_quorums, find_minimal_quorums_beside};
use fbas_analyzer::analysis::preprocessing::reduce;
use fbas_analyzer::analysis::quorums::{greatest_quorum_in, is_quorum_beside_faulty};
use fbas_analyzer::analysis::symmetric_clusters::{are_interchangeable, find_symmetric_clusters};
use fbas_analyzer::node_set::NodeIdSet;
use fbas_analyzer::types::{Fbas, Node, QuorumSet};

fn set(ids: &[usize]) -> NodeIdSet {
    NodeIdSet::from_vec(&ids.to_vec())
}

fn lists(sets: &Vec<NodeIdSet>) -> Vec<Vec<usize>> {
    sets.iter().map(|s| s.to_vec()).collect()
}

fn flat(threshold: usize, validators: &[usize]) -> QuorumSet {
    QuorumSet { threshold, validators: validators.to_vec(), inner_quorum_sets: vec![] }
}

fn fbas_of(quorum_sets: Vec<QuorumSet>) -> Fbas {
    let nodes = quorum_sets
        .into_iter()
        .enumerate()
        .map(|(i, quorum_set)| Node { public_key: format!("n{}", i), quorum_set })
        .collect();
    Fbas { nodes }
}

#[test]
fn reduce_drops_nodes_that_no_quorum_has() {
    // node 0 needs node 3, which nothing satisfies; node 1 and 2 satisfy each other
    let fbas = fbas_of(vec![
        flat(2, &[0, 3]),
        QuorumSet { threshold: 2, validators: vec![1, 0], inner_quorum_sets: vec![flat(1, &[3, 2])] },
        flat(1, &[1, 0]),
        flat(3, &[0, 1]),
    ]);
    let (reduced, kept) = reduce(&fbas);
    assert_eq!(kept, vec![1, 2]);
    assert_eq!(
        reduced,
        fbas_of_named(
            &["n1", "n2"],
            vec![
                QuorumSet { threshold: 2, validators: vec![0], inner_quorum_sets: vec![flat(1, &[1])] },
                flat(1, &[0]),
            ]
        )
    );
    assert_eq!(lists(&find_minimal_quorums(&reduced)), vec![vec![0, 1]]);
    assert_eq!(lists(&find_minimal_quorums(&fbas)), vec![vec![1, 2]]);
    assert_eq!(greatest_quorum_in(&fbas, &set(&[0, 1, 2, 3])).to_vec(), vec![1, 2]);
    assert!(greatest_quorum_in(&fbas, &set(&[0, 1, 3])).is_empty());
}

fn fbas_of_named(names: &[&str], quorum_sets: Vec<QuorumSet>) -> Fbas {
    let nodes = quorum_sets
        .into_iter()
        .zip(names.iter())
        .map(|(quorum_set, name)| Node { public_key: name.to_string(), quorum_set })
        .collect();
    Fbas { nodes }
}

#[test]
fn reduce_of_a_system_without_quorum_is_empty() {
    let fbas = fbas_of(vec![flat(2, &[0])]);
    let (reduced, kept) = reduce(&fbas);
    assert!(kept.is_empty());
    assert_eq!(reduced, Fbas::new());
}

#[test]
fn quorums_beside_faulty_nodes() {
    let fbas = fbas_of(vec![flat(2, &[0, 1, 2]), flat(2, &[0, 1, 2]), flat(2, &[0, 1, 2])]);
    assert!(is_quorum_beside_faulty(&fbas, &set(&[0]), &set(&[1])));
    assert!(!is_quorum_beside_faulty(&fbas, &set(&[]), &set(&[1])));
    assert!(!is_quorum_beside_faulty(&fbas, &set(&[1]), &set(&[1, 2])));
    assert!(!is_quorum_beside_faulty(&fbas, &set(&[0]), &set(&[])));
}

#[test]
fn symmetric_clusters_divide_the_nodes() {
    let fbas = fbas_of(vec![
        flat(2, &[0, 1, 2]),
        flat(2, &[0, 1, 2]),
        flat(2, &[0, 1, 2]),
        flat(1, &[0, 3]),
        flat(2, &[3, 4, 4]),
        flat(2, &[3, 4, 4]),
    ]);
    // node 0 is named by node 3 and so differs from 1 and 2; 4 and 5 have the
    // same quorum set, but it names 4 and not 5
    assert_eq!(
        lists(&find_symmetric_clusters(&fbas)),
        vec![vec![0], vec![1, 2], vec![3], vec![4], vec![5]]
    );
    assert!(are_interchangeable(&fbas, 1, 2));
    assert!(are_interchangeable(&fbas, 2, 2));
    assert!(!are_interchangeable(&fbas, 0, 1));
    assert!(!are_interchangeable(&fbas, 1, 6));
    assert!(find_symmetric_clusters(&Fbas::new()).is_empty());
    let same = fbas_of(vec![flat(2, &[0, 1, 2]), flat(2, &[0, 1, 2]), flat(2, &[0, 1, 2])]);
    assert_eq!(lists(&find_symmetric_clusters(&same)), vec![vec![0, 1, 2]]);
}

#[test]
fn blocking_form_turns_two_of_three_into_two_of_three() {
    let q = flat(2, &[0, 1, 2]);
    assert_eq!(q.to_blocking_form(), flat(2, &[0, 1, 2]));
    assert_eq!(flat(3, &[0, 1, 2]).to_blocking_form(), flat(1, &[0, 1, 2]));
    assert_eq!(flat(0, &[0, 1]).to_blocking_form(), flat(3, &[0, 1]));
    assert_eq!(flat(5, &[0, 1]).to_blocking_form(), flat(0, &[0, 1]));
    let nested = QuorumSet { threshold: 1, validators: vec![0], inner_quorum_sets: vec![flat(2, &[1, 2])] };
    assert_eq!(
        nested.to_blocking_form(),
        QuorumSet { threshold: 2, validators: vec![0], inner_quorum_sets: vec![flat(1, &[1, 2])] }
    );
    assert!(nested.is_blocked_by(&set(&[0, 1])));
    assert!(!nested.is_blocked_by(&set(&[1, 2])));
    assert!(!nested.is_blocked_by(&set(&[0])));
}

#[test]
fn node_sets_behave_as_sets() {
    let mut a = set(&[1, 5, 70]);
    assert!(a.contains(70) && !a.contains(2) && !a.contains(1000));
    assert_eq!(a.len(), 3);
    assert!(!a.insert(5));
    assert!(a.insert(2));
    assert!(a.remove(1));
    assert!(!a.remove(1));
    assert_eq!(a.to_vec(), vec![2, 5, 70]);
    assert_eq!(a.members(), vec![2, 5, 70]);
    let b = set(&[5, 6]);
    let mut u = a.clone();
    u.union_with(&b);
    assert_eq!(u.to_vec(), vec![2, 5, 6, 70]);
    let mut i = a.clone();
    i.intersect_with(&b);
    assert_eq!(i.to_vec(), vec![5]);
    let mut d = a.clone();
    d.difference_with(&b);
    assert_eq!(d.to_vec(), vec![2, 70]);
    assert!(i.is_subset(&a) && a.is_superset(&i) && !a.is_subset(&b));
    assert!(d.is_disjoint(&b) && !a.is_disjoint(&b));
    assert!(set(&[]).is_empty() && !a.is_empty());
    assert!(set(&[3, 1]) == set(&[1, 3, 3]));
    assert!(set(&[9]).comes_before(&set(&[0, 1])));
    assert!(set(&[0, 1]).comes_before(&set(&[0, 10])));
    assert!(!set(&[0, 10]).comes_before(&set(&[0, 1])));
    assert!(!set(&[0, 1]).comes_before(&set(&[0, 1])));
}

#[test]
fn minimal_quorums_beside_faulty_nodes() {
    let fbas = fbas_of(vec![flat(2, &[0, 1, 2]), flat(2, &[0, 1, 2]), flat(2, &[0, 1, 2])]);
    assert_eq!(lists(&find_minimal_quorums_beside(&fbas, &set(&[0]))), vec![vec![1], vec![2]]);
    assert_eq!(
        lists(&find_minimal_quorums_beside(&fbas, &set(&[]))),
        vec![vec![0, 1], vec![0, 2], vec![1, 2]]
    );
    assert!(find_minimal_quorums_beside(&fbas, &set(&[0, 1, 2])).is_empty());
}
