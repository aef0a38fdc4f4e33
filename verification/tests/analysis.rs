use fbas_analyzer::analysis::blocking_sets::find_minimal_blocking_sets;
use fbas_analyzer::analysis::front_end::Analysis;
use fbas_analyzer::analysis::minimal_quorums::{
    find_minimal_members_in_order, find_minimal_quorums, find_nonintersecting_quorums,
    has_quorum_intersection_via_alternative_check, has_quorum_intersection_via_minimal_quorums,
};
use fbas_analyzer::analysis::minimal_sets::Family;
use fbas_analyzer::analysis::splitting_sets::find_minimal_splitting_sets;
use fbas_analyzer::node_set::NodeIdSet;
use fbas_analyzer::types::{Fbas, Node, QuorumSet};

fn set(ids: &[usize]) -> NodeIdSet {
    NodeIdSet::from_vec(&ids.to_vec())
}

fn lists(sets: &Vec<NodeIdSet>) -> Vec<Vec<usize>> {
    sets.iter().map(|s| s.to_vec()).collect()
}

fn flat(threshold: usize, validators: &[usize]) -> QuorumSet {
    QuorumSet { threshold, validators: validators.to_vec(), inner_quorum_sets: vec![] }
}

fn fbas_of(quorum_sets: Vec<QuorumSet>) -> Fbas {
    let nodes = quorum_sets
        .into_iter()
        .enumerate()
        .map(|(i, quorum_set)| Node { public_key: format!("n{}", i), quorum_set })
        .collect();
    Fbas { nodes }
}

#[test]
fn three_nodes_two_of_three() {
    let fbas = fbas_of(vec![flat(2, &[0, 1, 2]), flat(2, &[0, 1, 2]), flat(2, &[0, 1, 2])]);
    let pairs = vec![vec![0, 1], vec![0, 2], vec![1, 2]];
    assert_eq!(lists(&find_minimal_quorums(&fbas)), pairs);
    assert_eq!(lists(&find_minimal_blocking_sets(&fbas)), pairs);
    assert_eq!(lists(&find_minimal_splitting_sets(&fbas)), vec![vec![0], vec![1], vec![2]]);
    assert!(has_quorum_intersection_via_minimal_quorums(&fbas));
    assert_eq!(has_quorum_intersection_via_alternative_check(&fbas), (true, None));
}

#[test]
fn two_nodes_two_of_two() {
    let fbas = fbas_of(vec![flat(2, &[0, 1]), flat(2, &[0, 1])]);
    assert_eq!(lists(&find_minimal_quorums(&fbas)), vec![vec![0, 1]]);
    assert!(has_quorum_intersection_via_minimal_quorums(&fbas));
    assert!(has_quorum_intersection_via_alternative_check(&fbas).0);
    assert_eq!(lists(&find_minimal_blocking_sets(&fbas)), vec![vec![0], vec![1]]);
    assert!(find_minimal_splitting_sets(&fbas).is_empty());
}

#[test]
fn two_cliques_without_links() {
    let fbas = fbas_of(vec![flat(2, &[0, 1]), flat(2, &[0, 1]), flat(2, &[2, 3]), flat(2, &[2, 3])]);
    assert_eq!(lists(&find_minimal_quorums(&fbas)), vec![vec![0, 1], vec![2, 3]]);
    assert!(!has_quorum_intersection_via_minimal_quorums(&fbas));
    let (intersects, witnesses) = has_quorum_intersection_via_alternative_check(&fbas);
    assert!(!intersects);
    let (a, b) = witnesses.unwrap();
    assert!(fbas.is_quorum(&a));
    assert!(fbas.is_quorum(&b));
    assert!(a.is_disjoint(&b));
    let mut found = vec![a.to_vec(), b.to_vec()];
    found.sort();
    assert_eq!(found, vec![vec![0, 1], vec![2, 3]]);
    assert_eq!(lists(&find_minimal_splitting_sets(&fbas)), vec![Vec::<usize>::new()]);
    assert_eq!(
        lists(&find_minimal_blocking_sets(&fbas)),
        vec![vec![0, 2], vec![0, 3], vec![1, 2], vec![1, 3]]
    );
}

#[test]
fn has_quorum_intersection_if_just_one_quorum() {
    let fbas = Fbas::from_json_str(
        r#"[
            {
                "publicKey": "n0",
                "quorumSet": { "threshold": 2, "validators": ["n0", "n1"] }
            },
            {
                "publicKey": "n1",
                "quorumSet": { "threshold": 2, "validators": ["n0", "n1"] }
            }
        ]"#,
    );
    assert!(Analysis::new(&fbas).has_quorum_intersection());
    assert!(has_quorum_intersection_via_minimal_quorums(&fbas));
}

#[test]
fn a_system_without_quorum_has_no_two_quorums_apart() {
    let fbas = Fbas::from_json_str(
        r#"[
            {
                "publicKey": "n0",
                "quorumSet": { "threshold": 2, "validators": ["n0", "n1"] }
            }
        ]"#,
    );
    assert!(find_minimal_quorums(&fbas).is_empty());
    assert!(Analysis::new(&fbas).has_quorum_intersection());
    assert!(has_quorum_intersection_via_minimal_quorums(&fbas));
    assert_eq!(has_quorum_intersection_via_alternative_check(&fbas), (true, None));
    assert!(find_nonintersecting_quorums(&fbas).is_none());
    assert!(find_minimal_splitting_sets(&fbas).is_empty());
}

#[test]
fn minimal_quorums_id_ordering() {
    let fbas = Fbas::from_json_str(
        r#"[
            {
                "publicKey": "n0",
                "quorumSet": { "threshold": 2, "validators": ["n1", "n2"] }
            },
            {
                "publicKey": "n1",
                "quorumSet": { "threshold": 2, "validators": ["n1", "n2"] }
            },
            {
                "publicKey": "n2",
                "quorumSet": { "threshold": 2, "validators": ["n1", "n2"] }
            }
        ]"#,
    );
    let analysis = Analysis::new(&fbas);
    let expected = vec![set(&[1, 2])];
    let actual = analysis.minimal_quorums().unwrap();
    assert_eq!(expected, actual);
}

#[test]
fn a_node_that_needs_nobody_is_a_quorum() {
    let fbas = fbas_of(vec![flat(0, &[]), flat(1, &[1]), flat(2, &[0, 1])]);
    assert_eq!(lists(&find_minimal_quorums(&fbas)), vec![vec![0], vec![1]]);
    assert!(!fbas.is_quorum(&set(&[])));
    assert!(!fbas.is_quorum(&set(&[2])));
    assert!(!fbas.is_quorum(&set(&[0, 2])));
    assert!(fbas.is_quorum(&set(&[0, 1, 2])));
    assert!(!fbas.is_quorum(&set(&[0, 7])));
}

#[test]
fn nested_quorum_sets_count_as_one_child() {
    let inner = flat(2, &[1, 2]);
    let nested = QuorumSet { threshold: 2, validators: vec![0], inner_quorum_sets: vec![inner] };
    assert!(nested.is_satisfied_by(&set(&[0, 1, 2])));
    assert!(!nested.is_satisfied_by(&set(&[0, 1])));
    assert!(!nested.is_satisfied_by(&set(&[1, 2])));
    assert!(!flat(3, &[0, 1]).is_satisfied_by(&set(&[0, 1])));
    assert!(flat(0, &[]).is_satisfied_by(&set(&[])));
}

#[test]
fn empty_system_has_nothing() {
    let fbas = Fbas::new();
    assert!(find_minimal_quorums(&fbas).is_empty());
    assert!(find_minimal_splitting_sets(&fbas).is_empty());
    assert_eq!(lists(&find_minimal_blocking_sets(&fbas)), vec![Vec::<usize>::new()]);
    assert!(has_quorum_intersection_via_minimal_quorums(&fbas));
}

fn nested_system() -> Fbas {
    let org = |o: usize| flat(2, &[3 * o, 3 * o + 1, 3 * o + 2]);
    let quorum_set =
        QuorumSet { threshold: 2, validators: vec![], inner_quorum_sets: vec![org(0), org(1), org(2)] };
    fbas_of((0..9).map(|_| quorum_set.clone()).collect())
}

#[test]
fn minimal_quorums_are_an_antichain_of_quorums() {
    let fbas = nested_system();
    let quorums = find_minimal_quorums(&fbas);
    assert_eq!(quorums.len(), 27);
    for (i, q) in quorums.iter().enumerate() {
        assert!(fbas.is_quorum(q));
        for v in q.to_vec() {
            let mut smaller = q.clone();
            smaller.remove(v);
            assert!(!fbas.is_quorum(&smaller));
        }
        for (j, other) in quorums.iter().enumerate() {
            assert!(i == j || !q.is_subset(other));
            assert!(i >= j || q.comes_before(other));
        }
    }
    assert_eq!(quorums[0].to_vec(), vec![0, 1, 3, 4]);
    assert_eq!(quorums[26].to_vec(), vec![4, 5, 7, 8]);
}

#[test]
fn both_checks_of_quorum_intersection_agree() {
    let split = fbas_of(vec![flat(1, &[0]), flat(2, &[1, 2]), flat(2, &[1, 2]), flat(9, &[0])]);
    let systems = vec![nested_system(), split, Fbas::new(), fbas_of(vec![flat(2, &[0])])];
    let expected = vec![true, false, true, true];
    for (fbas, intersects) in systems.iter().zip(expected) {
        let quorums = find_minimal_quorums(fbas);
        let pairwise = quorums.iter().all(|a| quorums.iter().all(|b| !a.is_disjoint(b)));
        assert_eq!(has_quorum_intersection_via_minimal_quorums(fbas), intersects);
        assert_eq!(pairwise, intersects);
        let (direct, witnesses) = has_quorum_intersection_via_alternative_check(fbas);
        assert_eq!(direct, intersects);
        assert_eq!(witnesses.is_some(), !pairwise);
        assert_eq!(find_nonintersecting_quorums(fbas).is_some(), !pairwise);
        let splitting = find_minimal_splitting_sets(fbas);
        assert_eq!(lists(&splitting) == vec![Vec::<usize>::new()], !pairwise);
    }
}

#[test]
fn blocking_sets_meet_every_quorum() {
    let fbas = nested_system();
    let quorums = find_minimal_quorums(&fbas);
    let blocking = find_minimal_blocking_sets(&fbas);
    assert_eq!(blocking.len(), 27);
    for b in blocking.iter() {
        assert!(quorums.iter().all(|q| !q.is_disjoint(b)));
        for v in b.to_vec() {
            let mut smaller = b.clone();
            smaller.remove(v);
            assert!(quorums.iter().any(|q| q.is_disjoint(&smaller)));
        }
    }
    let splitting = find_minimal_splitting_sets(&fbas);
    let singles: Vec<Vec<usize>> = (0..9).map(|v| vec![v]).collect();
    assert_eq!(lists(&splitting), singles);
}

#[test]
fn search_in_a_given_order_finds_the_same() {
    let fbas = nested_system();
    let up: Vec<usize> = (0..9).collect();
    let down: Vec<usize> = (0..9).rev().collect();
    let part: Vec<usize> = vec![5, 0, 4, 1, 3];
    let all = find_minimal_quorums(&fbas);
    assert_eq!(find_minimal_members_in_order(Family::Quorums, &fbas, &up), all);
    assert_eq!(find_minimal_members_in_order(Family::Quorums, &fbas, &down), all);
    let among: Vec<Vec<usize>> = lists(&all).into_iter().filter(|q| q.iter().all(|v| part.contains(v))).collect();
    assert_eq!(lists(&find_minimal_members_in_order(Family::Quorums, &fbas, &part)), among);
    assert_eq!(among, vec![vec![0, 1, 3, 4], vec![0, 1, 3, 5], vec![0, 1, 4, 5]]);
}
