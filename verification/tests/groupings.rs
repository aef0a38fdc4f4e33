use fbas_analyzer::analysis::front_end::Analysis;
use fbas_analyzer::analysis::merge_by_group::remove_non_minimal_node_sets;
use fbas_analyzer::analysis::results::NodeIdSetVecResult;
use fbas_analyzer::groupings::{Grouping, Groupings, Organizations};
use fbas_analyzer::io::groupings::{RawGrouping, RawGroupings};
use fbas_analyzer::io::{
    to_json_string_using_node_ids, to_json_string_using_organization_names,
    to_json_string_using_public_keys, RawFbas,
};
use fbas_analyzer::node_set::{NodeId, NodeIdSet};
use fbas_analyzer::types::Fbas;

fn set(ids: &[usize]) -> NodeIdSet {
    NodeIdSet::from_vec(&ids.to_vec())
}

fn lists(sets: &Vec<NodeIdSet>) -> Vec<Vec<usize>> {
    sets.iter().map(|s| s.to_vec()).collect()
}

#[test]
fn read_isps_from_nodes_json_str() {
    let json = r#"[
            {
                "publicKey": "GCGB2",
                "active": true,
                "isp": "Google.com"
            },
            {
                "publicKey": "GCM6Q",
                "active": true,
                "isp": "StackOverflow"
            },
            {
                "publicKey": "GCHAR",
                "active": true,
                "isp": "Hetzner"
            },
            {
                "publicKey": "GABMK",
                "active": true,
                "isp": "Google.com"
            }]"#;
    let fbas = Fbas::from_json_str(&json);
    let isps = Groupings::load_isps_from_str(&json, &fbas);
    let expected_names = vec!["Google.com", "Hetzner", "StackOverflow"];
    let actual_names: Vec<String> = isps.groupings.iter().map(|x| x.name.clone()).collect();
    let expected_validators: Vec<Vec<NodeId>> = vec![vec![0, 3], vec![2], vec![1]];
    let actual_validators: Vec<Vec<NodeId>> = isps
        .groupings
        .iter()
        .map(|x| x.validators.clone())
        .collect();
    assert_eq!(expected_names, actual_names);
    assert_eq!(expected_validators, actual_validators);
}

#[test]
fn read_countries_from_nodes_json_str() {
    let json = r#"[
            {
                "publicKey": "GCGB2",
                "active": true,
                "geoData": {
                    "countryCode": "AA",
                    "countryName": "Absurdistan"
                }
            },
            {
                "publicKey": "GCM6Q",
                "active": true,
                "geoData": {
                    "countryCode": "WA",
                    "countryName": "Wakanda"
                }
            },
            {
                "publicKey": "GCHAR",
                "active": true,
                "geoData": {
                    "countryCode": "TI",
                    "countryName": "Timbuktu"
                }
            },
            {
                "publicKey": "GABMK",
                "active": true,
                "geoData": {
                    "countryCode": "TI",
                    "countryName": "Timbuktu"
                }
            }]"#;
    let fbas = Fbas::from_json_str(&json);
    let countries = Groupings::load_countries_from_str(&json, &fbas);
    let expected_names = vec!["Absurdistan", "Timbuktu", "Wakanda"];
    let actual_names: Vec<String> =
        countries.groupings.iter().map(|x| x.name.clone()).collect();
    let expected_validators: Vec<Vec<NodeId>> = vec![vec![0], vec![2, 3], vec![1]];
    let actual_validators: Vec<Vec<NodeId>> = countries
        .groupings
        .iter()
        .map(|x| x.validators.clone())
        .collect();
    assert_eq!(expected_names, actual_names);
    assert_eq!(expected_validators, actual_validators);
}

#[test]
fn missing_ctry_key_in_json_doesnt_panic() {
    let json = r#"[
            {
                "publicKey": "GCGB2",
                "geoData": {
                    "countryName": "Wakanda"
                }
            },
            {
                "publicKey": "GCM6Q",
                "geoData": {
                    "countryName": "Absurdistan"
                }
            },
            {
                "publicKey": "GABMK"
            }]"#;
    let fbas = Fbas::from_json_str(&json);
    let countries = Groupings::load_countries_from_str(&json, &fbas);
    let expected_names = vec!["Absurdistan", "Wakanda"];
    let actual_names: Vec<String> =
        countries.groupings.iter().map(|x| x.name.clone()).collect();
    let expected_validators: Vec<Vec<NodeId>> = vec![vec![1], vec![0]];
    let actual_validators: Vec<Vec<NodeId>> = countries
        .groupings
        .iter()
        .map(|x| x.validators.clone())
        .collect();
    assert_eq!(expected_names, actual_names);
    assert_eq!(expected_validators, actual_validators);
}

#[test]
fn special_chars_filtered_from_json_str() {
    let json = r#"[
            {
                "publicKey": "GCGB2",
                "isp": "Google.com"
            },
            {
                "publicKey": "GCM6Q",
                "isp": "Google.com."
            },
            {
                "publicKey": "GCHAR",
                "isp": "Amazon.com Inc,"
            },
            {
                "publicKey": "GCARK",
                "isp": "Google.com,"
            },
            {
                "publicKey": "GABMK",
                "isp": "Amazon.com, Inc."
            }]"#;
    let fbas = Fbas::from_json_str(&json);
    let isps = Groupings::load_isps_from_str(&json, &fbas);
    let expected_names = vec!["Amazon.com Inc", "Google.com"];
    let actual_names: Vec<String> = isps.groupings.iter().map(|x| x.name.clone()).collect();
    let expected_validators: Vec<Vec<NodeId>> = vec![vec![2, 4], vec![0, 1, 3]];
    let actual_validators: Vec<Vec<NodeId>> = isps
        .groupings
        .iter()
        .map(|x| x.validators.clone())
        .collect();
    assert_eq!(expected_names, actual_names);
    assert_eq!(expected_validators, actual_validators);
}

#[test]
fn grouping_names_are_cleaned() {
    let clean = |s: &str| Groupings::remove_special_chars_from_grouping_name(s.to_string());
    assert_eq!(clean("Amazon.com, Inc."), "Amazon.com Inc");
    assert_eq!(clean("a.b"), "a.b");
    assert_eq!(clean("a.,"), "a");
    assert_eq!(clean(",,"), "");
    assert_eq!(clean(""), "");
    assert_eq!(clean("."), "");
    assert_eq!(clean("Zürich.."), "Zürich.");
}

#[test]
fn groups_come_in_the_order_of_their_names() {
    let raw = RawFbas::from_json_str(
        r#"[{"publicKey": "a", "isp": "b"}, {"publicKey": "b", "isp": "ab"},
            {"publicKey": "c", "isp": "B"}, {"publicKey": "d", "isp": "a"},
            {"publicKey": "e", "isp": null}, {"publicKey": "f", "isp": "ab"}]"#,
    )
    .unwrap();
    let groups = Groupings::get_isps_from_raw_nodes(raw.0);
    let group = |name: &str, keys: &[&str]| RawGrouping {
        name: name.to_string(),
        validators: keys.iter().map(|k| k.to_string()).collect(),
    };
    assert_eq!(
        groups,
        RawGroupings(vec![
            group("B", &["c"]),
            group("a", &["d"]),
            group("ab", &["b", "f"]),
            group("b", &["a"]),
        ])
    );
}

#[test]
fn groupings_from_json_pass_over_unknown_keys() {
    let fbas = Fbas::new_generic_unconfigured(4);
    let json = r#"[{"id": "x", "name": "first", "validators": ["n2", "nobody", "n0"]},
                   {"name": "second", "validators": ["n3"]}]"#;
    let groupings = Groupings::from_json_str(json, &fbas);
    assert_eq!(
        groupings.groupings,
        vec![
            Grouping { name: "first".to_string(), validators: vec![2, 0] },
            Grouping { name: "second".to_string(), validators: vec![3] },
        ]
    );
    assert_eq!(groupings.merged_ids, vec![2, 1, 2, 3]);
    assert_eq!(groupings.get_by_member(0).unwrap().name, "first");
    assert_eq!(groupings.get_by_member(3).unwrap().name, "second");
    assert!(groupings.get_by_member(1).is_none());
    assert!(groupings.get_by_member(17).is_none());
    assert_eq!(groupings.to_raw(&fbas).0[0].validators, vec!["n2", "n0"]);
    assert!(Groupings::try_from_json_str(r#"[{"name": "first"}]"#, &fbas).is_none());
    assert!(Groupings::try_from_json_str(r#"{"name": "first"}"#, &fbas).is_none());
    assert!(Groupings::try_load_isps_from_str(r#"[{"isp": "x"}]"#, &fbas).is_none());
    assert!(Groupings::try_load_countries_from_str(r#"[{"publicKey": "a", "geoData": 3}]"#, &fbas)
        .is_none());
    let organizations = Organizations::from_json_str(json, &fbas);
    assert_eq!(organizations.groupings, groupings);
    assert!(Organizations::try_from_json_str("[1]", &fbas).is_none());
}

#[test]
fn merging_by_group_keeps_the_minimal_sets() {
    let fbas = Fbas::new_generic_unconfigured(6);
    let groupings = Groupings::new(
        vec![
            Grouping { name: "a".to_string(), validators: vec![0, 1] },
            Grouping { name: "b".to_string(), validators: vec![3, 2] },
        ],
        &fbas,
    );
    assert_eq!(groupings.merge_node_set(&set(&[1, 2, 4, 9])).to_vec(), vec![0, 3, 4, 9]);
    let result = NodeIdSetVecResult::new(vec![set(&[0, 2]), set(&[1, 3]), set(&[1, 2, 4]), set(&[5])]);
    let merged = result.merged_by_group(&groupings);
    assert_eq!(lists(&merged.node_sets), vec![vec![5], vec![0, 3]]);
    assert!(merged.len() <= result.len());
    assert_eq!(lists(&result.minimal_sets().unwrap()), vec![vec![5], vec![0, 2], vec![1, 3], vec![1, 2, 4]]);
    assert_eq!(result.involved_nodes().to_vec(), vec![0, 1, 2, 3, 4, 5]);
    assert!(!result.contains_empty_set());
    assert!(!result.is_empty());
}

#[test]
fn non_minimal_sets_are_dropped() {
    let sets = vec![set(&[0, 1, 2]), set(&[1, 2]), set(&[3]), set(&[1, 2]), set(&[0, 3])];
    assert_eq!(lists(&remove_non_minimal_node_sets(sets)), vec![vec![3], vec![1, 2]]);
    assert_eq!(lists(&remove_non_minimal_node_sets(vec![set(&[]), set(&[1])])), vec![Vec::<usize>::new()]);
}

#[test]
fn node_sets_as_json() {
    let mut fbas = Fbas::new_generic_unconfigured(3);
    fbas.nodes[1].public_key = "Jim".to_string();
    let organizations = Organizations::from_json_str(
        r#"[{"name": "J Mafia", "validators": ["Jim", "n2"]}]"#,
        &fbas,
    );
    let sets = vec![set(&[0, 1]), set(&[2]), set(&[])];
    assert_eq!(to_json_string_using_node_ids(&sets), "[[0,1],[2],[]]");
    assert_eq!(to_json_string_using_public_keys(&sets, &fbas), r#"[["n0","Jim"],["n2"],[]]"#);
    assert_eq!(
        to_json_string_using_organization_names(&sets, &fbas, &organizations),
        r#"[["n0","J Mafia"],["J Mafia"],[]]"#
    );
}

#[test]
fn analysis_with_merging_by_organization() {
    let fbas = Fbas::from_json_str(
        r#"[{"publicKey": "a", "quorumSet": {"threshold": 2, "validators": ["a", "b", "c"]}},
            {"publicKey": "b", "quorumSet": {"threshold": 2, "validators": ["a", "b", "c"]}},
            {"publicKey": "c", "quorumSet": {"threshold": 2, "validators": ["a", "b", "c"]}}]"#,
    );
    let organizations = Groupings::from_json_str(
        r#"[{"id": "2661", "name": "Foundation", "validators": ["c", "a", "b"]}]"#,
        &fbas,
    );
    let analysis = Analysis::new(&fbas);
    assert!(analysis.has_quorum_intersection());
    assert_eq!(analysis.minimal_quorums().merged_by_group(&organizations).minimal_sets().len(), 1);
    assert_eq!(analysis.minimal_blocking_sets().merged_by_group(&organizations).minimal_sets().len(), 1);
    assert_eq!(analysis.minimal_splitting_sets().merged_by_group(&organizations).minimal_sets().len(), 1);
    assert_eq!(analysis.top_tier().to_vec(), vec![0, 1, 2]);
    let (intersects, quorums) = analysis.has_quorum_intersection_via_alternative_check();
    assert!(intersects);
    assert!(quorums.is_none());
}
