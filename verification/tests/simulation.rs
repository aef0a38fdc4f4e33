use fbas_analyzer::analysis::minimal_quorums::find_minimal_quorums;
use fbas_analyzer::node_set::NodeIdSet;
use fbas_analyzer::rank::{sort_by_rank, trust_counts};
use fbas_analyzer::simulation::{get_67p_threshold, ChangeEffect, Graph, HigherTiersGraphQsc};
use fbas_analyzer::types::{Fbas, QuorumSet};

#[test]
fn get_neighbors_by_tierness_middle_tier_directed_links() {
    let graph = Graph::new_tiered_full_mesh(&vec![3, 3, 3]);
    let higher_tier_qsc = HigherTiersGraphQsc::new_67p(graph);
    let actual = higher_tier_qsc.get_neighbors_by_tierness(3);
    let expected = (vec![0, 1, 2], vec![4, 5], vec![]);
    assert_eq!(expected, actual);
}

#[test]
fn get_neighbors_by_tierness_top_tier_directed_links() {
    let graph = Graph::new_tiered_full_mesh(&vec![3, 3, 3]);
    let higher_tier_qsc = HigherTiersGraphQsc::new_67p(graph);
    let actual = higher_tier_qsc.get_neighbors_by_tierness(1);
    let expected = (vec![], vec![0, 2], vec![]);
    assert_eq!(expected, actual);
}

#[test]
fn get_neighbors_by_tierness_middle_tier_undirected_links() {
    let mut graph = Graph::new_full_mesh(4);
    graph.outlinks.push(vec![3, 5]);
    graph.outlinks.push(vec![4]);
    graph.outlinks[3].push(4);
    let higher_tier_qsc = HigherTiersGraphQsc::new_67p(graph);
    let actual = higher_tier_qsc.get_neighbors_by_tierness(4);
    let expected = (vec![3], vec![], vec![5]);
    assert_eq!(expected, actual);
}

#[test]
fn get_neighbors_by_tierness_top_tier_undirected_links() {
    let mut graph = Graph::new_full_mesh(4);
    graph.outlinks.push(vec![3, 5]);
    graph.outlinks.push(vec![4]);
    graph.outlinks[3].push(4);
    let higher_tier_qsc = HigherTiersGraphQsc::new_67p(graph);
    let actual = higher_tier_qsc.get_neighbors_by_tierness(3);
    let expected = (vec![], vec![0, 1, 2], vec![4]);
    assert_eq!(expected, actual);
}

#[test]
fn graphs_are_built_tier_by_tier() {
    assert_eq!(Graph::new_full_mesh(3).outlinks, vec![vec![1, 2], vec![0, 2], vec![0, 1]]);
    assert_eq!(Graph::new_full_mesh(0).outlinks, Vec::<Vec<usize>>::new());
    assert_eq!(
        Graph::new_tiered_full_mesh(&vec![1, 2]).outlinks,
        vec![vec![], vec![0, 2], vec![0, 1]]
    );
    assert_eq!(Graph::new_tiered_full_mesh(&vec![2, 0, 1]).outlinks, vec![vec![1], vec![0], vec![]]);
    assert_eq!(Graph::new_tiered_full_mesh(&vec![1, 2]).get_in_degrees(), vec![2, 1, 1]);
}

#[test]
fn thresholds_leave_room_for_a_third() {
    let expected = vec![1, 1, 2, 3, 3, 4, 5, 5, 6, 7, 7];
    let actual: Vec<usize> = (0..11).map(get_67p_threshold).collect();
    assert_eq!(expected, actual);
}

#[test]
fn configure_takes_the_higher_tier() {
    let qsc = HigherTiersGraphQsc::new_67p(Graph::new_tiered_full_mesh(&vec![3, 2]));
    let mut fbas = Fbas::new_generic_unconfigured(5);
    assert_eq!(qsc.configure(4, &mut fbas), ChangeEffect::Change);
    assert_eq!(
        fbas.nodes[4].quorum_set,
        QuorumSet { threshold: 3, validators: vec![0, 1, 2, 4], inner_quorum_sets: vec![] }
    );
    assert_eq!(qsc.configure(4, &mut fbas), ChangeEffect::NoChange);
    assert_eq!(qsc.configure(1, &mut fbas), ChangeEffect::Change);
    assert_eq!(
        fbas.nodes[1].quorum_set,
        QuorumSet { threshold: 3, validators: vec![0, 1, 2], inner_quorum_sets: vec![] }
    );
    assert_eq!(fbas.nodes[1].public_key, "n1");
    assert_eq!(fbas.nodes[0].quorum_set, QuorumSet::new());
    let alone = HigherTiersGraphQsc::new_67p(Graph::new_full_mesh(1));
    let mut single = Fbas::new_generic_unconfigured(1);
    assert_eq!(alone.configure(0, &mut single), ChangeEffect::Change);
    assert_eq!(
        single.nodes[0].quorum_set,
        QuorumSet { threshold: 1, validators: vec![], inner_quorum_sets: vec![] }
    );
}

#[test]
fn nodes_are_sorted_by_score_highest_first() {
    let scores = vec![5, 9, 5, 1, 9];
    assert_eq!(sort_by_rank(vec![0, 1, 2, 3, 4], &scores), vec![1, 4, 0, 2, 3]);
    assert_eq!(sort_by_rank(vec![3, 2, 0], &scores), vec![2, 0, 3]);
    assert_eq!(sort_by_rank(vec![], &scores), Vec::<usize>::new());
}

#[test]
fn trust_is_counted_with_nested_quorum_sets() {
    let mut fbas = Fbas::new_generic_unconfigured(3);
    fbas.nodes[0].quorum_set = QuorumSet {
        threshold: 1,
        validators: vec![1, 1, 7],
        inner_quorum_sets: vec![QuorumSet { threshold: 1, validators: vec![2, 1], inner_quorum_sets: vec![] }],
    };
    fbas.nodes[2].quorum_set = QuorumSet { threshold: 1, validators: vec![0], inner_quorum_sets: vec![] };
    assert_eq!(trust_counts(&fbas), vec![1, 3, 1]);
}

fn configured(qsc: &HigherTiersGraphQsc, n: usize) -> Fbas {
    let mut fbas = Fbas::new_generic_unconfigured(n);
    for node_id in 0..n {
        qsc.configure(node_id, &mut fbas);
    }
    fbas
}

#[test]
fn higher_tier_qsc_can_be_like_ideal_safe() {
    let n = 10;
    let higher_tier_qsc = HigherTiersGraphQsc::new_67p(Graph::new_tiered_full_mesh(&vec![n]));

    let actual = configured(&higher_tier_qsc, n);
    let mut expected = Fbas::new_generic_unconfigured(n);
    for node in expected.nodes.iter_mut() {
        node.quorum_set =
            QuorumSet { threshold: 7, validators: (0..n).collect(), inner_quorum_sets: vec![] };
    }
    assert_eq!(expected, actual);
}

#[test]
fn higher_tier_qsc_has_few_minimal_quorums() {
    let tier_sizes = vec![3, 10, 20];
    let higher_tier_qsc = HigherTiersGraphQsc::new_67p(Graph::new_tiered_full_mesh(&tier_sizes));
    let n = tier_sizes.into_iter().sum();

    let fbas = configured(&higher_tier_qsc, n);
    let actual = find_minimal_quorums(&fbas);
    let expected = vec![NodeIdSet::from_vec(&vec![0, 1, 2])];
    assert_eq!(expected, actual);
}
