use fbas_analyzer::io::RawFbas;
use fbas_analyzer::types::{Fbas, Node, PublicKey, QuorumSet};

fn quorum_sets_of(fbas: Fbas) -> Vec<QuorumSet> {
    fbas.nodes.into_iter().map(|x| x.quorum_set).collect()
}

#[test]
fn from_json_to_fbas() {
    let input = r#"[
            {
                "publicKey": "GCGB2S2KGYARPVIA37HYZXVRM2YZUEXA6S33ZU5BUDC6THSB62LZSTYH",
                "quorumSet": {
                    "threshold": 1,
                    "validators": [],
                    "innerQuorumSets": [
                        {
                            "threshold": 2,
                            "validators": [
                                "GCGB2S2KGYARPVIA37HYZXVRM2YZUEXA6S33ZU5BUDC6THSB62LZSTYH",
                                "GABMKJM6I25XI4K7U6XWMULOUQIQ27BCTMLS6BYYSOWKTBUXVRJSXHYQ",
                                "GCM6QMP3DLRPTAZW2UZPCPX2LF3SXWXKPMP3GKFZBDSF3QZGV2G5QSTK"
                            ],
                            "innerQuorumSets": []
                        }
                    ]
                }
            },
            {
                "publicKey": "GABMKJM6I25XI4K7U6XWMULOUQIQ27BCTMLS6BYYSOWKTBUXVRJSXHYQ",
                "quorumSet": {
                    "threshold": 3,
                    "validators": [
                        "GCGB2S2KGYARPVIA37HYZXVRM2YZUEXA6S33ZU5BUDC6THSB62LZSTYH",
                        "GABMKJM6I25XI4K7U6XWMULOUQIQ27BCTMLS6BYYSOWKTBUXVRJSXHYQ",
                        "GCM6QMP3DLRPTAZW2UZPCPX2LF3SXWXKPMP3GKFZBDSF3QZGV2G5QSTK"
                    ]
                },
                "aFieldWeIgnore": 42
            },
            {
                "publicKey": "GCM6QMP3DLRPTAZW2UZPCPX2LF3SXWXKPMP3GKFZBDSF3QZGV2G5QSTK"
            }]"#;

    let expected_public_keys = vec![
        "GCGB2S2KGYARPVIA37HYZXVRM2YZUEXA6S33ZU5BUDC6THSB62LZSTYH",
        "GABMKJM6I25XI4K7U6XWMULOUQIQ27BCTMLS6BYYSOWKTBUXVRJSXHYQ",
        "GCM6QMP3DLRPTAZW2UZPCPX2LF3SXWXKPMP3GKFZBDSF3QZGV2G5QSTK",
    ];
    let expected_quorum_sets = vec![
        QuorumSet {
            threshold: 1,
            validators: vec![].into_iter().collect(),
            inner_quorum_sets: vec![QuorumSet {
                threshold: 2,
                validators: vec![0, 1, 2].into_iter().collect(),
                inner_quorum_sets: vec![],
            }],
        },
        QuorumSet {
            threshold: 3,
            validators: vec![0, 1, 2].into_iter().collect(),
            inner_quorum_sets: vec![],
        },
        Default::default(),
    ];

    let actual = Fbas::from_json_str(&input);
    let actual_public_keys: Vec<PublicKey> =
        actual.nodes.iter().map(|x| x.public_key.clone()).collect();
    let actual_quorum_sets: Vec<QuorumSet> = quorum_sets_of(actual);

    assert_eq!(expected_public_keys, actual_public_keys);
    assert_eq!(expected_quorum_sets, actual_quorum_sets);
}

#[test]
fn from_json_ignores_unknown_public_keys() {
    let input = r#"[
            {
                "publicKey": "GCGB2S2KGYARPVIA37HYZXVRM2YZUEXA6S33ZU5BUDC6THSB62LZSTYH",
                "quorumSet": {
                    "threshold": 2,
                    "validators": [
                        "GCGB2S2KGYARPVIA37HYZXVRM2YZUEXA6S33ZU5BUDC6THSB62LZSTYH",
                        "GABMKJM6I25XI4K7U6XWMULOUQIQ27BCTMLS6BYYSOWKTBUXVRJSXHYQ",
                        "GCM6QMP3DLRPTAZW2UZPCPX2LF3SXWXKPMP3GKFZBDSF3QZGV2G5QSTK"
                    ]
                }
            },
            {
                "publicKey": "GABMKJM6I25XI4K7U6XWMULOUQIQ27BCTMLS6BYYSOWKTBUXVRJSXHYQ"
            }]"#;

    let expected_quorum_sets = vec![
        QuorumSet {
            threshold: 2,
            validators: vec![0, 1].into_iter().collect(),
            inner_quorum_sets: Default::default(),
        },
        Default::default(),
    ];

    let actual = Fbas::from_json_str(&input);
    let actual_quorum_sets: Vec<QuorumSet> = quorum_sets_of(actual);

    assert_eq!(expected_quorum_sets, actual_quorum_sets);
}

#[test]
fn raw_fbas_rejects_what_is_no_array_of_nodes() {
    assert!(RawFbas::from_json_str("{").is_none());
    assert!(RawFbas::from_json_str("{}").is_none());
    assert!(RawFbas::from_json_str(r#"[{"quorumSet": null}]"#).is_none());
    assert!(RawFbas::from_json_str(r#"[{"publicKey": "a", "quorumSet": null}]"#).is_none());
    assert!(RawFbas::from_json_str(r#"[{"publicKey": "a"}]"#).is_some());
    let node = Node { public_key: "a".to_string(), quorum_set: QuorumSet::new() };
    assert_eq!(Fbas::try_from_json_str(r#"[{"publicKey": "a"}]"#), Some(Fbas { nodes: vec![node] }));
}

#[test]
fn to_json_and_back_results_in_identical_fbas() {
    let first = Fbas::new_generic_unconfigured(7);
    let json = first.to_json_string();
    let recombined = Fbas::from_json_str(&json);
    assert_eq!(first, recombined);
}

#[test]
fn generic_nodes_are_named_by_their_ids() {
    let fbas = Fbas::new_generic_unconfigured(12);
    assert_eq!(fbas.nodes[0].public_key, "n0");
    assert_eq!(fbas.nodes[9].public_key, "n9");
    assert_eq!(fbas.nodes[10].public_key, "n10");
    assert_eq!(fbas.nodes[11].public_key, "n11");
}

#[test]
fn json_text_keeps_the_order_of_members() {
    let mut fbas = Fbas::new_generic_unconfigured(2);
    fbas.nodes[0].quorum_set = QuorumSet {
        threshold: 1,
        validators: vec![1],
        inner_quorum_sets: vec![QuorumSet { threshold: 2, validators: vec![0, 1], inner_quorum_sets: vec![] }],
    };
    let expected = concat_all(&[
        r#"[{"publicKey":"n0","quorumSet":{"threshold":1,"validators":["n1"],"innerQuorumSets":["#,
        r#"{"threshold":2,"validators":["n0","n1"],"innerQuorumSets":[]}]}},"#,
        r#"{"publicKey":"n1","quorumSet":{"threshold":0,"validators":[],"innerQuorumSets":[]}}]"#,
    ]);
    assert_eq!(fbas.to_json_string(), expected);
    assert_eq!(Fbas::from_json_str(&fbas.to_json_string_pretty()), fbas);
    assert!(fbas.to_json_string_pretty().contains('\n'));
}

fn concat_all(parts: &[&str]) -> String {
    parts.iter().map(|p| p.to_string()).collect()
}

#[test]
fn a_text_that_was_read_is_decoded() {
    assert_eq!(Fbas::from_json_read(None), None);
    assert_eq!(Fbas::from_json_read(Some("[".to_string())), None);
    assert_eq!(Fbas::from_json_read(Some("[]".to_string())), Some(Fbas::new()));
    let read = Fbas::from_json_read(Some(r#"[{"publicKey": "a"}, {"publicKey": "b"}]"#.to_string()));
    assert_eq!(read.unwrap().nodes.len(), 2);
}
