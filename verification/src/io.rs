//! Reading systems and groupings from JSON documents and writing them back.

use crate::groupings::{Groupings, Organizations};
use crate::json::{parse, parsed, render, render_pretty, rendered, rendered_pretty};
use crate::json::{Json, JsonModel, Member};
use crate::analysis::sets::views;
use crate::node_set::{ascending, NodeId, NodeIdSet};
use crate::types::{Fbas, Node, NodeModel, PublicKey, QuorumSet, QuorumSetModel};
use vstd::prelude::*;

pub mod groupings;

verus! {

/// A quorum set as documents hold it: validators by public key.
#[derive(Debug, PartialEq, Eq)]
pub struct RawQuorumSet {
    pub threshold: usize,
    pub validators: Vec<PublicKey>,
    pub inner_quorum_sets: Vec<RawQuorumSet>,
}

/// Where a node is, as far as documents say.
#[derive(Debug, PartialEq, Eq)]
pub struct RawGeoData {
    pub country_name: Option<String>,
}

/// A node as documents hold it.
#[derive(Debug, PartialEq, Eq)]
pub struct RawNode {
    pub public_key: PublicKey,
    pub quorum_set: RawQuorumSet,
    pub isp: Option<String>,
    pub geo_data: Option<RawGeoData>,
}

/// A system as documents hold it: its nodes in order.
#[derive(Debug, PartialEq, Eq)]
pub struct RawFbas(pub Vec<RawNode>);

/// The mathematical content of a [`RawQuorumSet`].
pub struct RawQuorumSetModel {
    pub threshold: nat,
    pub validators: Seq<Seq<char>>,
    pub inner: Seq<RawQuorumSetModel>,
}

/// The mathematical content of a [`RawNode`].
pub struct RawNodeModel {
    pub public_key: Seq<char>,
    pub quorum_set: RawQuorumSetModel,
    pub isp: Option<Seq<char>>,
    pub geo_data: Option<Option<Seq<char>>>,
}

/// The texts of a sequence of strings, in order.
pub open spec fn texts_of(s: Seq<String>) -> Seq<Seq<char>> {
    s.map_values(|t: String| t@)
}

/// The models of a sequence of raw quorum sets, in order.
pub open spec fn raw_models_of(s: Seq<RawQuorumSet>) -> Seq<RawQuorumSetModel>
    decreases s, 0nat,
{
    if s.len() == 0 {
        Seq::empty()
    } else {
        raw_models_of(s.drop_last()).push(s.last()@)
    }
}

impl View for RawQuorumSet {
    type V = RawQuorumSetModel;

    open spec fn view(&self) -> RawQuorumSetModel
        decreases self, 1nat,
    {
        RawQuorumSetModel {
            threshold: self.threshold as nat,
            validators: texts_of(self.validators@),
            inner: raw_models_of(self.inner_quorum_sets@),
        }
    }
}

/// `raw_models_of` keeps length and order.
pub proof fn lemma_raw_models_of(s: Seq<RawQuorumSet>)
    ensures
        raw_models_of(s).len() == s.len(),
        forall|i: int| 0 <= i < s.len() ==> (#[trigger] raw_models_of(s)[i]) == s[i]@,
    decreases s.len(),
{
    if s.len() > 0 {
        let front = s.drop_last();
        lemma_raw_models_of(front);
        assert(raw_models_of(s) == raw_models_of(front).push(s.last()@));
        assert forall|i: int| 0 <= i < s.len() implies (#[trigger] raw_models_of(s)[i])
            == s[i]@ by {
            if i < front.len() {
                assert(raw_models_of(front)[i] == front[i]@);
            }
        }
    }
}

impl View for RawGeoData {
    type V = Option<Seq<char>>;

    open spec fn view(&self) -> Option<Seq<char>> {
        match self.country_name {
            Some(t) => Some(t@),
            None => None,
        }
    }
}

impl View for RawNode {
    type V = RawNodeModel;

    open spec fn view(&self) -> RawNodeModel {
        RawNodeModel {
            public_key: self.public_key@,
            quorum_set: self.quorum_set@,
            isp: match self.isp {
                Some(t) => Some(t@),
                None => None,
            },
            geo_data: match self.geo_data {
                Some(g) => Some(g@),
                None => None,
            },
        }
    }
}

impl View for RawFbas {
    type V = Seq<RawNodeModel>;

    open spec fn view(&self) -> Seq<RawNodeModel> {
        self.0@.map_values(|n: RawNode| n@)
    }
}

/// Index of the first member of `m` at or after `from` that is named `name`.
pub open spec fn member_index(m: Seq<(Seq<char>, JsonModel)>, name: Seq<char>, from: int) -> Option<
    int,
>
    decreases m.len() - from,
{
    if from < 0 || from >= m.len() {
        None
    } else if m[from].0 == name {
        Some(from)
    } else {
        member_index(m, name, from + 1)
    }
}

/// The text of a document that is a text.
pub open spec fn decode_text(doc: JsonModel) -> Option<Seq<char>> {
    match doc {
        JsonModel::Text(t) => Some(t),
        _ => None,
    }
}

/// The text of a document that is a text; none where it is null; an error
/// (the outer `None`) for any other document.
pub open spec fn decode_optional_text(doc: JsonModel) -> Option<Option<Seq<char>>> {
    match doc {
        JsonModel::Text(t) => Some(Some(t)),
        JsonModel::Null => Some(None),
        _ => None,
    }
}

/// The texts of the first `n` documents of `docs`, if all of them are texts.
pub open spec fn decode_texts(docs: Seq<JsonModel>, n: int) -> Option<Seq<Seq<char>>>
    decreases n,
{
    if n <= 0 || n > docs.len() {
        Some(Seq::empty())
    } else {
        match (decode_texts(docs, n - 1), decode_text(docs[n - 1])) {
            (Some(front), Some(t)) => Some(front.push(t)),
            _ => None,
        }
    }
}

/// The texts of a document that is an array of texts.
pub open spec fn decode_text_array(doc: JsonModel) -> Option<Seq<Seq<char>>> {
    match doc {
        JsonModel::Array(a) => decode_texts(a, a.len() as int),
        _ => None,
    }
}

/// The threshold that a document states: a non-negative integer that fits
/// the machine word.
pub open spec fn decode_threshold(doc: JsonModel) -> Option<nat> {
    match doc {
        JsonModel::Unsigned(u) => if u <= usize::MAX {
            Some(u as nat)
        } else {
            None
        },
        _ => None,
    }
}

/// The quorum sets that the first `n` documents of `docs` hold, if each of
/// them holds one.
pub open spec fn decode_quorum_sets(docs: Seq<JsonModel>, n: int) -> Option<
    Seq<RawQuorumSetModel>,
>
    decreases docs, n,
{
    if n <= 0 || n > docs.len() {
        Some(Seq::empty())
    } else {
        match (decode_quorum_sets(docs, n - 1), decode_quorum_set(docs[n - 1])) {
            (Some(front), Some(q)) => Some(front.push(q)),
            _ => None,
        }
    }
}

/// The quorum set that a document holds: an object with a `threshold`, an
/// array `validators` of public keys and, if it is there, an array
/// `innerQuorumSets` of quorum sets. Other members are passed over.
pub open spec fn decode_quorum_set(doc: JsonModel) -> Option<RawQuorumSetModel>
    decreases doc,
{
    match doc {
        JsonModel::Object(m) => {
            let t = member_index(m, "threshold"@, 0);
            let v = member_index(m, "validators"@, 0);
            let i = member_index(m, "innerQuorumSets"@, 0);
            if t.is_none() || v.is_none() || !(0 <= t.unwrap() < m.len()) || !(0 <= v.unwrap()
                < m.len()) {
                None
            } else {
                let threshold = decode_threshold(m[t.unwrap()].1);
                let validators = decode_text_array(m[v.unwrap()].1);
                let inner = if i.is_none() || !(0 <= i.unwrap() < m.len()) {
                    Some(Seq::empty())
                } else {
                    match m[i.unwrap()].1 {
                        JsonModel::Array(a) => decode_quorum_sets(a, a.len() as int),
                        _ => None,
                    }
                };
                if threshold.is_none() || validators.is_none() || inner.is_none() {
                    None
                } else {
                    Some(
                        RawQuorumSetModel {
                            threshold: threshold.unwrap(),
                            validators: validators.unwrap(),
                            inner: inner.unwrap(),
                        },
                    )
                }
            }
        },
        _ => None,
    }
}

/// Index of the first member named `name`.
pub fn find_member(members: &Vec<Member>, name: &str) -> (found: Option<usize>)
    ensures
        match found {
            Some(i) => i < members@.len() && member_index(
                crate::json::member_models(members@),
                name@,
                0,
            ) == Some(i as int),
            None => member_index(crate::json::member_models(members@), name@, 0).is_none(),
        },
{
    let key = name.to_owned();
    let ghost m = crate::json::member_models(members@);
    proof {
        crate::json::lemma_member_models(members@);
    }
    let mut i: usize = 0;
    while i < members.len()
        invariant
            i <= members.len(),
            key@ == name@,
            m == crate::json::member_models(members@),
            m.len() == members@.len(),
            forall|k: int| 0 <= k < members@.len() ==> (#[trigger] m[k]) == (
                members@[k].name@,
                members@[k].value@,
            ),
            member_index(m, name@, 0) == member_index(m, name@, i as int),
        decreases members.len() - i,
    {
        if members[i].name == key {
            return Some(i);
        }
        i = i + 1;
    }
    None
}

/// The text of a document that is a text.
pub fn read_text(doc: &Json) -> (text: Option<String>)
    ensures
        match text {
            Some(t) => decode_text(doc@) == Some(t@),
            None => decode_text(doc@).is_none(),
        },
{
    match doc {
        Json::Text(t) => Some(t.clone()),
        _ => None,
    }
}

/// The text of a document that is a text, none for null, an error for any
/// other document.
pub fn read_optional_text(doc: &Json) -> (text: Result<Option<String>, ()>)
    ensures
        match text {
            Ok(Some(t)) => decode_optional_text(doc@) == Some(Some(t@)),
            Ok(None) => decode_optional_text(doc@) == Some(None::<Seq<char>>),
            Err(_) => decode_optional_text(doc@).is_none(),
        },
{
    match doc {
        Json::Text(t) => Ok(Some(t.clone())),
        Json::Null => Ok(None),
        _ => Err(()),
    }
}

/// The texts of a document that is an array of texts.
#[verifier::loop_isolation(false)]
pub fn read_text_array(doc: &Json) -> (texts: Option<Vec<String>>)
    ensures
        match texts {
            Some(v) => decode_text_array(doc@) == Some(texts_of(v@)),
            None => decode_text_array(doc@).is_none(),
        },
{
    match doc {
        Json::Array(a) => {
            let ghost docs = crate::json::array_models(a@);
            proof {
                crate::json::lemma_array_models(a@);
            }
            let mut v: Vec<String> = Vec::new();
            let mut i: usize = 0;
            while i < a.len()
                invariant
                    i <= a.len(),
                    docs.len() == a@.len(),
                    forall|k: int| 0 <= k < a@.len() ==> (#[trigger] docs[k]) == a@[k]@,
                    decode_texts(docs, i as int) == Some(texts_of(v@)),
                decreases a.len() - i,
            {
                match read_text(&a[i]) {
                    Some(t) => {
                        let ghost before = texts_of(v@);
                        v.push(t);
                        assert(texts_of(v@) =~= before.push(t@));
                    },
                    None => {
                        assert(decode_texts(docs, i + 1).is_none());
                        proof {
                            lemma_decode_texts_fails(docs, i + 1, docs.len() as int);
                        }
                        return None;
                    },
                }
                i = i + 1;
            }
            Some(v)
        },
        _ => None,
    }
}

/// Once a prefix fails to decode, every longer prefix fails.
pub proof fn lemma_decode_texts_fails(docs: Seq<JsonModel>, m: int, n: int)
    requires
        0 <= m <= n <= docs.len(),
        decode_texts(docs, m).is_none(),
    ensures
        decode_texts(docs, n).is_none(),
    decreases n - m,
{
    if m < n {
        lemma_decode_texts_fails(docs, m, n - 1);
    }
}

/// Once a prefix fails to decode, every longer prefix fails.
pub proof fn lemma_decode_quorum_sets_fails(docs: Seq<JsonModel>, m: int, n: int)
    requires
        0 <= m <= n <= docs.len(),
        decode_quorum_sets(docs, m).is_none(),
    ensures
        decode_quorum_sets(docs, n).is_none(),
    decreases n - m,
{
    if m < n {
        lemma_decode_quorum_sets_fails(docs, m, n - 1);
    }
}

/// The threshold that a document states.
pub fn read_threshold(doc: &Json) -> (threshold: Option<usize>)
    ensures
        match threshold {
            Some(t) => decode_threshold(doc@) == Some(t as nat),
            None => decode_threshold(doc@).is_none(),
        },
{
    match doc {
        Json::Unsigned(u) => {
            if *u <= usize::MAX as u64 {
                Some(*u as usize)
            } else {
                None
            }
        },
        _ => None,
    }
}

impl RawQuorumSet {
    /// The quorum set that a document holds: an object with a `threshold`,
    /// an array `validators` of public keys and, if it is there, an array
    /// `innerQuorumSets` of quorum sets.
    #[verifier::loop_isolation(false)]
    pub fn from_json(doc: &Json) -> (q: Option<RawQuorumSet>)
        ensures
            match q {
                Some(r) => decode_quorum_set(doc@) == Some(r@),
                None => decode_quorum_set(doc@).is_none(),
            },
        decreases doc,
    {
        match doc {
            Json::Object(members) => {
                let ghost m = crate::json::member_models(members@);
                proof {
                    crate::json::lemma_member_models(members@);
                }
                let t = find_member(members, "threshold");
                let v = find_member(members, "validators");
                let i = find_member(members, "innerQuorumSets");
                if t.is_none() || v.is_none() {
                    return None;
                }
                let threshold = read_threshold(&members[t.unwrap()].value);
                let validators = read_text_array(&members[v.unwrap()].value);
                if threshold.is_none() || validators.is_none() {
                    return None;
                }
                let mut inner: Vec<RawQuorumSet> = Vec::new();
                if i.is_some() {
                    match &members[i.unwrap()].value {
                        Json::Array(a) => {
                            let ghost docs = crate::json::array_models(a@);
                            proof {
                                crate::json::lemma_array_models(a@);
                            }
                            let mut k: usize = 0;
                            while k < a.len()
                                invariant
                                    k <= a.len(),
                                    docs.len() == a@.len(),
                                    forall|j: int|
                                        0 <= j < a@.len() ==> (#[trigger] docs[j]) == a@[j]@,
                                    decode_quorum_sets(docs, k as int) == Some(
                                        raw_models_of(inner@),
                                    ),
                                    forall|j: int|
                                        0 <= j < a@.len() ==> decreases_to!(doc => #[trigger] a@[j]),
                                decreases a.len() - k,
                            {
                                match RawQuorumSet::from_json(&a[k]) {
                                    Some(q) => {
                                        let ghost before = inner@;
                                        inner.push(q);
                                        assert(inner@.drop_last() =~= before);
                                    },
                                    None => {
                                        assert(decode_quorum_sets(docs, k + 1).is_none());
                                        proof {
                                            lemma_decode_quorum_sets_fails(
                                                docs,
                                                k + 1,
                                                docs.len() as int,
                                            );
                                        }
                                        return None;
                                    },
                                }
                                k = k + 1;
                            }
                        },
                        _ => {
                            return None;
                        },
                    }
                }
                let q = RawQuorumSet {
                    threshold: threshold.unwrap(),
                    validators: validators.unwrap(),
                    inner_quorum_sets: inner,
                };
                Some(q)
            },
            _ => None,
        }
    }
}

/// The value of the first member of `m` named `name`.
pub open spec fn member(m: Seq<(Seq<char>, JsonModel)>, name: Seq<char>) -> Option<JsonModel> {
    match member_index(m, name, 0) {
        Some(i) => if 0 <= i < m.len() {
            Some(m[i].1)
        } else {
            None
        },
        None => None,
    }
}

/// The quorum set without children and with threshold 0.
pub open spec fn empty_raw_quorum_set() -> RawQuorumSetModel {
    RawQuorumSetModel { threshold: 0, validators: Seq::empty(), inner: Seq::empty() }
}

/// What a document says of where a node is: none for null; for an object,
/// its `countryName`, a text or none.
pub open spec fn decode_geo_data(doc: JsonModel) -> Option<Option<Option<Seq<char>>>> {
    match doc {
        JsonModel::Null => Some(None),
        JsonModel::Object(m) => match member(m, "countryName"@) {
            None => Some(Some(None)),
            Some(c) => match decode_optional_text(c) {
                Some(name) => Some(Some(name)),
                None => None,
            },
        },
        _ => None,
    }
}

/// The node that a document holds: an object with a text `publicKey` and,
/// where they are there, a `quorumSet`, an `isp` and a `geoData`. A node
/// without `quorumSet` has the empty one.
pub open spec fn decode_node(doc: JsonModel) -> Option<RawNodeModel> {
    match doc {
        JsonModel::Object(m) => {
            let key = match member(m, "publicKey"@) {
                Some(k) => decode_text(k),
                None => None,
            };
            let quorum_set = match member(m, "quorumSet"@) {
                Some(q) => decode_quorum_set(q),
                None => Some(empty_raw_quorum_set()),
            };
            let isp = match member(m, "isp"@) {
                Some(i) => decode_optional_text(i),
                None => Some(None),
            };
            let geo_data = match member(m, "geoData"@) {
                Some(g) => decode_geo_data(g),
                None => Some(None),
            };
            if key.is_none() || quorum_set.is_none() || isp.is_none() || geo_data.is_none() {
                None
            } else {
                Some(
                    RawNodeModel {
                        public_key: key.unwrap(),
                        quorum_set: quorum_set.unwrap(),
                        isp: isp.unwrap(),
                        geo_data: geo_data.unwrap(),
                    },
                )
            }
        },
        _ => None,
    }
}

/// The nodes that the first `n` documents of `docs` hold, if each holds one.
pub open spec fn decode_nodes(docs: Seq<JsonModel>, n: int) -> Option<Seq<RawNodeModel>>
    decreases n,
{
    if n <= 0 || n > docs.len() {
        Some(Seq::empty())
    } else {
        match (decode_nodes(docs, n - 1), decode_node(docs[n - 1])) {
            (Some(front), Some(node)) => Some(front.push(node)),
            _ => None,
        }
    }
}

/// The system that a document holds: an array of nodes.
pub open spec fn decode_fbas(doc: JsonModel) -> Option<Seq<RawNodeModel>> {
    match doc {
        JsonModel::Array(a) => decode_nodes(a, a.len() as int),
        _ => None,
    }
}

/// Once a prefix fails to decode, every longer prefix fails.
pub proof fn lemma_decode_nodes_fails(docs: Seq<JsonModel>, m: int, n: int)
    requires
        0 <= m <= n <= docs.len(),
        decode_nodes(docs, m).is_none(),
    ensures
        decode_nodes(docs, n).is_none(),
    decreases n - m,
{
    if m < n {
        lemma_decode_nodes_fails(docs, m, n - 1);
    }
}

impl RawQuorumSet {
    /// The quorum set without children and with threshold 0.
    pub fn new() -> (q: RawQuorumSet)
        ensures
            q@ == empty_raw_quorum_set(),
    {
        let q = RawQuorumSet {
            threshold: 0,
            validators: Vec::new(),
            inner_quorum_sets: Vec::new(),
        };
        assert(q@.validators =~= Seq::empty());
        assert(q@.inner =~= Seq::empty());
        q
    }
}

impl Default for RawQuorumSet {
    fn default() -> (q: RawQuorumSet)
        ensures
            q@ == empty_raw_quorum_set(),
    {
        RawQuorumSet::new()
    }
}

impl RawGeoData {
    /// What a document says of where a node is.
    pub fn from_json(doc: &Json) -> (g: Result<Option<RawGeoData>, ()>)
        ensures
            match g {
                Ok(Some(d)) => decode_geo_data(doc@) == Some(Some(d@)),
                Ok(None) => decode_geo_data(doc@) == Some(None::<Option<Seq<char>>>),
                Err(_) => decode_geo_data(doc@).is_none(),
            },
    {
        match doc {
            Json::Null => Ok(None),
            Json::Object(members) => {
                proof {
                    crate::json::lemma_member_models(members@);
                }
                match find_member(members, "countryName") {
                    None => Ok(Some(RawGeoData { country_name: None })),
                    Some(i) => match read_optional_text(&members[i].value) {
                        Ok(name) => Ok(Some(RawGeoData { country_name: name })),
                        Err(_) => Err(()),
                    },
                }
            },
            _ => Err(()),
        }
    }
}

impl RawNode {
    /// The node that a document holds.
    pub fn from_json(doc: &Json) -> (node: Option<RawNode>)
        ensures
            match node {
                Some(n) => decode_node(doc@) == Some(n@),
                None => decode_node(doc@).is_none(),
            },
    {
        match doc {
            Json::Object(members) => {
                proof {
                    crate::json::lemma_member_models(members@);
                }
                let public_key = match find_member(members, "publicKey") {
                    Some(i) => match read_text(&members[i].value) {
                        Some(k) => k,
                        None => {
                            return None;
                        },
                    },
                    None => {
                        return None;
                    },
                };
                let quorum_set = match find_member(members, "quorumSet") {
                    Some(i) => match RawQuorumSet::from_json(&members[i].value) {
                        Some(q) => q,
                        None => {
                            return None;
                        },
                    },
                    None => RawQuorumSet::new(),
                };
                let isp = match find_member(members, "isp") {
                    Some(i) => match read_optional_text(&members[i].value) {
                        Ok(t) => t,
                        Err(_) => {
                            return None;
                        },
                    },
                    None => None,
                };
                let geo_data = match find_member(members, "geoData") {
                    Some(i) => match RawGeoData::from_json(&members[i].value) {
                        Ok(g) => g,
                        Err(_) => {
                            return None;
                        },
                    },
                    None => None,
                };
                Some(RawNode { public_key, quorum_set, isp, geo_data })
            },
            _ => None,
        }
    }
}

/// The nodes that a document holds: an array of nodes.
#[verifier::loop_isolation(false)]
pub fn read_nodes(doc: &Json) -> (nodes: Option<Vec<RawNode>>)
    ensures
        match nodes {
            Some(v) => decode_fbas(doc@) == Some(v@.map_values(|n: RawNode| n@)),
            None => decode_fbas(doc@).is_none(),
        },
{
    match doc {
        Json::Array(a) => {
            let ghost docs = crate::json::array_models(a@);
            proof {
                crate::json::lemma_array_models(a@);
            }
            let mut v: Vec<RawNode> = Vec::new();
            let mut i: usize = 0;
            while i < a.len()
                invariant
                    i <= a.len(),
                    decode_nodes(docs, i as int) == Some(v@.map_values(|n: RawNode| n@)),
                decreases a.len() - i,
            {
                match RawNode::from_json(&a[i]) {
                    Some(n) => {
                        let ghost before = v@.map_values(|n: RawNode| n@);
                        v.push(n);
                        assert(v@.map_values(|n: RawNode| n@) =~= before.push(n@));
                    },
                    None => {
                        assert(decode_nodes(docs, i + 1).is_none());
                        proof {
                            lemma_decode_nodes_fails(docs, i + 1, docs.len() as int);
                        }
                        return None;
                    },
                }
                i = i + 1;
            }
            Some(v)
        },
        _ => None,
    }
}

impl RawFbas {
    /// The system that a document holds: an array of nodes.
    pub fn from_json(doc: &Json) -> (raw: Option<RawFbas>)
        ensures
            match raw {
                Some(r) => decode_fbas(doc@) == Some(r@),
                None => decode_fbas(doc@).is_none(),
            },
    {
        match read_nodes(doc) {
            Some(v) => Some(RawFbas(v)),
            None => None,
        }
    }
}

/// The id that the public key `pk` stands for among `keys`, the keys of the
/// nodes in id order: the last node with that key.
pub open spec fn node_id_of(keys: Seq<Seq<char>>, pk: Seq<char>) -> Option<usize>
    decreases keys.len(),
{
    if keys.len() == 0 {
        None
    } else if keys.last() == pk {
        Some((keys.len() - 1) as usize)
    } else {
        node_id_of(keys.drop_last(), pk)
    }
}

/// An id found for a key is the index of a node with that key.
pub proof fn lemma_node_id_of(keys: Seq<Seq<char>>, pk: Seq<char>)
    requires
        keys.len() <= usize::MAX,
    ensures
        match node_id_of(keys, pk) {
            Some(i) => i < keys.len() && keys[i as int] == pk && forall|j: int|
                i < j < keys.len() ==> keys[j] != pk,
            None => forall|j: int| 0 <= j < keys.len() ==> keys[j] != pk,
        },
    decreases keys.len(),
{
    if keys.len() > 0 && keys.last() != pk {
        let front = keys.drop_last();
        lemma_node_id_of(front, pk);
        match node_id_of(front, pk) {
            Some(i) => {
                assert(front[i as int] == pk);
                assert forall|j: int| i < j < keys.len() implies keys[j] != pk by {
                    if j < front.len() {
                        assert(front[j] != pk);
                    }
                }
            },
            None => {
                assert forall|j: int| 0 <= j < keys.len() implies keys[j] != pk by {
                    if j < front.len() {
                        assert(front[j] != pk);
                    }
                }
            },
        }
    }
}

/// The ids of those of the first `n` of `names` that are keys of nodes, in
/// order; names that no node has are passed over.
pub open spec fn known_ids(keys: Seq<Seq<char>>, names: Seq<Seq<char>>, n: int) -> Seq<usize>
    decreases n,
{
    if n <= 0 || n > names.len() {
        Seq::empty()
    } else {
        match node_id_of(keys, names[n - 1]) {
            Some(i) => known_ids(keys, names, n - 1).push(i),
            None => known_ids(keys, names, n - 1),
        }
    }
}

/// The first `n` of `raws`, each with ids for keys.
pub open spec fn quorum_sets_of_raw(
    keys: Seq<Seq<char>>,
    raws: Seq<RawQuorumSetModel>,
    n: int,
) -> Seq<QuorumSetModel>
    decreases raws, n,
{
    if n <= 0 || n > raws.len() {
        Seq::empty()
    } else {
        quorum_sets_of_raw(keys, raws, n - 1).push(quorum_set_of_raw(keys, raws[n - 1]))
    }
}

/// The quorum set that `raw` describes once ids stand for keys: the same
/// threshold, the ids of the validators that are known, the inner quorum
/// sets likewise.
pub open spec fn quorum_set_of_raw(keys: Seq<Seq<char>>, raw: RawQuorumSetModel) -> QuorumSetModel
    decreases raw,
{
    QuorumSetModel {
        threshold: raw.threshold,
        validators: known_ids(keys, raw.validators, raw.validators.len() as int),
        inner: quorum_sets_of_raw(keys, raw.inner, raw.inner.len() as int),
    }
}

/// The keys of raw nodes, in order.
pub open spec fn raw_keys(raw: Seq<RawNodeModel>) -> Seq<Seq<char>> {
    raw.map_values(|n: RawNodeModel| n.public_key)
}

/// The system that raw nodes describe: each node keeps its key, and ids
/// stand for the keys in its quorum set.
pub open spec fn fbas_of_raw(raw: Seq<RawNodeModel>) -> Seq<NodeModel> {
    raw.map_values(
        |n: RawNodeModel|
            NodeModel {
                public_key: n.public_key,
                quorum_set: quorum_set_of_raw(raw_keys(raw), n.quorum_set),
            },
    )
}

/// Ids found for keys are below the number of keys.
pub proof fn lemma_known_ids_below(keys: Seq<Seq<char>>, names: Seq<Seq<char>>, n: int)
    requires
        keys.len() <= usize::MAX,
    ensures
        forall|i: int|
            0 <= i < known_ids(keys, names, n).len() ==> (#[trigger] known_ids(keys, names, n)[i])
                < keys.len(),
    decreases n,
{
    if 0 < n <= names.len() {
        lemma_known_ids_below(keys, names, n - 1);
        lemma_node_id_of(keys, names[n - 1]);
        let all = known_ids(keys, names, n);
        let front = known_ids(keys, names, n - 1);
        assert forall|i: int| 0 <= i < all.len() implies (#[trigger] all[i]) < keys.len() by {
            if i < front.len() {
                assert(all[i] == front[i]);
            }
        }
    }
}

/// A quorum set made from a raw one names no id beyond the keys.
pub proof fn lemma_quorum_set_of_raw_ids_below(keys: Seq<Seq<char>>, raw: RawQuorumSetModel)
    requires
        keys.len() <= usize::MAX,
    ensures
        quorum_set_of_raw(keys, raw).ids_below(keys.len()),
    decreases raw, 1int, 0int,
{
    lemma_known_ids_below(keys, raw.validators, raw.validators.len() as int);
    lemma_quorum_sets_of_raw_ids_below(keys, raw, raw.inner.len() as int);
}

/// The inner quorum sets made from raw ones name no id beyond the keys.
pub proof fn lemma_quorum_sets_of_raw_ids_below(
    keys: Seq<Seq<char>>,
    raw: RawQuorumSetModel,
    n: int,
)
    requires
        keys.len() <= usize::MAX,
        n <= raw.inner.len(),
    ensures
        quorum_sets_of_raw(keys, raw.inner, n).len() == (if n > 0 {
            n
        } else {
            0
        }),
        forall|i: int|
            0 <= i < n ==> (#[trigger] quorum_sets_of_raw(keys, raw.inner, n)[i])
                == quorum_set_of_raw(keys, raw.inner[i]) && quorum_sets_of_raw(
                keys,
                raw.inner,
                n,
            )[i].ids_below(keys.len()),
    decreases raw, 0int, n,
{
    if n > 0 {
        lemma_quorum_sets_of_raw_ids_below(keys, raw, n - 1);
        lemma_quorum_set_of_raw_ids_below(keys, raw.inner[n - 1]);
        let all = quorum_sets_of_raw(keys, raw.inner, n);
        let front = quorum_sets_of_raw(keys, raw.inner, n - 1);
        assert forall|i: int| 0 <= i < n implies (#[trigger] all[i]) == quorum_set_of_raw(
            keys,
            raw.inner[i],
        ) && all[i].ids_below(keys.len()) by {
            if i < n - 1 {
                assert(all[i] == front[i]);
            }
        }
    }
}

/// The id that `pk` stands for among `keys`.
pub fn lookup_node_id(keys: &Vec<PublicKey>, pk: &String) -> (id: Option<NodeId>)
    ensures
        id == node_id_of(texts_of(keys@), pk@),
{
    let mut i: usize = keys.len();
    let ghost all = texts_of(keys@);
    assert(all.take(i as int) =~= all);
    while i > 0
        invariant
            i <= keys.len(),
            all == texts_of(keys@),
            node_id_of(all, pk@) == node_id_of(all.take(i as int), pk@),
        decreases i,
    {
        i = i - 1;
        assert(all.take(i + 1).last() == keys@[i as int]@);
        assert(all.take(i + 1).drop_last() =~= all.take(i as int));
        if keys[i] == *pk {
            return Some(i);
        }
    }
    assert(all.take(0).len() == 0);
    None
}

/// The keys of the nodes of a system, in id order.
pub open spec fn public_keys(net: Seq<NodeModel>) -> Seq<Seq<char>> {
    net.map_values(|n: NodeModel| n.public_key)
}

/// The first `n` of `sets`, each with keys for ids.
pub open spec fn raws_of_quorum_sets(
    keys: Seq<Seq<char>>,
    sets: Seq<QuorumSetModel>,
    n: int,
) -> Seq<RawQuorumSetModel>
    decreases sets, n,
{
    if n <= 0 || n > sets.len() {
        Seq::empty()
    } else {
        raws_of_quorum_sets(keys, sets, n - 1).push(raw_of_quorum_set(keys, sets[n - 1]))
    }
}

/// The raw form of a quorum set: the same threshold, the key of each
/// validator, the inner quorum sets likewise.
pub open spec fn raw_of_quorum_set(keys: Seq<Seq<char>>, q: QuorumSetModel) -> RawQuorumSetModel
    decreases q,
{
    RawQuorumSetModel {
        threshold: q.threshold,
        validators: Seq::new(q.validators.len(), |i: int| keys[q.validators[i] as int]),
        inner: raws_of_quorum_sets(keys, q.inner, q.inner.len() as int),
    }
}

/// The raw form of a system: each node with its key and the raw form of its
/// quorum set, and nothing said of where it is.
pub open spec fn raw_of_fbas(net: Seq<NodeModel>) -> Seq<RawNodeModel> {
    net.map_values(
        |n: NodeModel|
            RawNodeModel {
                public_key: n.public_key,
                quorum_set: raw_of_quorum_set(public_keys(net), n.quorum_set),
                isp: None,
                geo_data: None,
            },
    )
}

/// Whether every quorum set of `net` names only ids of nodes of `net`.
pub open spec fn well_formed(net: Seq<NodeModel>) -> bool {
    forall|i: int| 0 <= i < net.len() ==> (#[trigger] net[i]).quorum_set.ids_below(net.len())
}

impl QuorumSet {
    /// The quorum set that `raw` describes once ids stand for keys; `keys`
    /// holds the keys of the nodes in id order. Validators whose key no node
    /// has are left out.
    #[verifier::loop_isolation(false)]
    pub fn from_raw(raw: &RawQuorumSet, keys: &Vec<PublicKey>) -> (q: QuorumSet)
        ensures
            q@ == quorum_set_of_raw(texts_of(keys@), raw@),
        decreases raw,
    {
        let ghost ks = texts_of(keys@);
        let ghost names = texts_of(raw.validators@);
        let mut validators: Vec<NodeId> = Vec::new();
        let mut i: usize = 0;
        while i < raw.validators.len()
            invariant
                i <= raw.validators.len(),
                validators@ == known_ids(ks, names, i as int),
            decreases raw.validators.len() - i,
        {
            match lookup_node_id(keys, &raw.validators[i]) {
                Some(id) => {
                    validators.push(id);
                },
                None => {},
            }
            i = i + 1;
        }
        proof {
            lemma_raw_models_of(raw.inner_quorum_sets@);
        }
        let ghost raws = raw@.inner;
        let mut inner: Vec<QuorumSet> = Vec::new();
        let mut k: usize = 0;
        while k < raw.inner_quorum_sets.len()
            invariant
                k <= raw.inner_quorum_sets.len(),
                crate::types::models_of(inner@) == quorum_sets_of_raw(ks, raws, k as int),
            decreases raw.inner_quorum_sets.len() - k,
        {
            let q = QuorumSet::from_raw(&raw.inner_quorum_sets[k], keys);
            let ghost before = inner@;
            inner.push(q);
            assert(inner@.drop_last() =~= before);
            k = k + 1;
        }
        QuorumSet { threshold: raw.threshold, validators, inner_quorum_sets: inner }
    }

    /// The raw form of the quorum set: keys for ids.
    #[verifier::loop_isolation(false)]
    pub fn to_raw(&self, fbas: &Fbas) -> (raw: RawQuorumSet)
        requires
            self@.ids_below(fbas@.len()),
        ensures
            raw@ == raw_of_quorum_set(public_keys(fbas@), self@),
        decreases self,
    {
        let ghost ks = public_keys(fbas@);
        let mut validators: Vec<PublicKey> = Vec::new();
        let mut i: usize = 0;
        while i < self.validators.len()
            invariant
                i <= self.validators.len(),
                validators@.len() == i,
                forall|j: int|
                    0 <= j < i ==> (#[trigger] validators@[j])@ == ks[self.validators@[j] as int],
            decreases self.validators.len() - i,
        {
            let v = self.validators[i];
            assert(self@.validators[i as int] == v);
            assert(v < fbas@.len());
            assert(ks[v as int] == fbas.nodes@[v as int].public_key@);
            validators.push(fbas.nodes[v].public_key.clone());
            i = i + 1;
        }
        proof {
            crate::types::lemma_models_of(self.inner_quorum_sets@);
        }
        let ghost sets = self@.inner;
        let mut inner: Vec<RawQuorumSet> = Vec::new();
        let mut k: usize = 0;
        while k < self.inner_quorum_sets.len()
            invariant
                k <= self.inner_quorum_sets.len(),
                raw_models_of(inner@) == raws_of_quorum_sets(ks, sets, k as int),
            decreases self.inner_quorum_sets.len() - k,
        {
            assert(sets[k as int].ids_below(fbas@.len()));
            let r = self.inner_quorum_sets[k].to_raw(fbas);
            let ghost before = inner@;
            inner.push(r);
            assert(inner@.drop_last() =~= before);
            k = k + 1;
        }
        let raw = RawQuorumSet { threshold: self.threshold, validators, inner_quorum_sets: inner };
        assert(raw@.validators =~= raw_of_quorum_set(ks, self@).validators);
        raw
    }
}

impl Node {
    /// The node that `raw_node` describes once ids stand for keys.
    pub fn from_raw(raw_node: RawNode, keys: &Vec<PublicKey>) -> (node: Node)
        ensures
            node@ == (NodeModel {
                public_key: raw_node@.public_key,
                quorum_set: quorum_set_of_raw(texts_of(keys@), raw_node@.quorum_set),
            }),
    {
        let quorum_set = QuorumSet::from_raw(&raw_node.quorum_set, keys);
        Node { public_key: raw_node.public_key, quorum_set }
    }

    /// The raw form of the node: keys for ids.
    pub fn to_raw(&self, fbas: &Fbas) -> (raw: RawNode)
        requires
            self@.quorum_set.ids_below(fbas@.len()),
        ensures
            raw@ == (RawNodeModel {
                public_key: self@.public_key,
                quorum_set: raw_of_quorum_set(public_keys(fbas@), self@.quorum_set),
                isp: None,
                geo_data: None,
            }),
    {
        RawNode {
            public_key: self.public_key.clone(),
            quorum_set: self.quorum_set.to_raw(fbas),
            isp: None,
            geo_data: None,
        }
    }
}

impl Fbas {
    /// The id of the node whose public key is `pk`: the last such node.
    pub fn get_node_id(&self, pk: &String) -> (id: Option<NodeId>)
        ensures
            id == node_id_of(public_keys(self@), pk@),
    {
        let mut i: usize = self.nodes.len();
        let ghost all = public_keys(self@);
        assert(all.take(i as int) =~= all);
        while i > 0
            invariant
                i <= self.nodes.len(),
                all == public_keys(self@),
                node_id_of(all, pk@) == node_id_of(all.take(i as int), pk@),
            decreases i,
        {
            i = i - 1;
            assert(all.take(i + 1).last() == self.nodes@[i as int].public_key@);
            assert(all.take(i + 1).drop_last() =~= all.take(i as int));
            if self.nodes[i].public_key == *pk {
                return Some(i);
            }
        }
        assert(all.take(0).len() == 0);
        None
    }

    /// The system that `raw_fbas` describes: the id of a node is its place,
    /// and ids stand for the keys in the quorum sets.
    pub fn from_raw(raw_fbas: RawFbas) -> (fbas: Fbas)
        ensures
            fbas@ == fbas_of_raw(raw_fbas@),
            well_formed(fbas@),
    {
        let raw_nodes = raw_fbas.0;
        let ghost raw = raw_fbas@;
        let mut keys: Vec<PublicKey> = Vec::new();
        let mut i: usize = 0;
        while i < raw_nodes.len()
            invariant
                i <= raw_nodes.len(),
                raw == raw_nodes@.map_values(|n: RawNode| n@),
                texts_of(keys@) == raw_keys(raw).take(i as int),
            decreases raw_nodes.len() - i,
        {
            let ghost before = texts_of(keys@);
            keys.push(raw_nodes[i].public_key.clone());
            assert(texts_of(keys@) =~= before.push(raw_nodes@[i as int].public_key@));
            assert(texts_of(keys@) =~= raw_keys(raw).take(i + 1));
            i = i + 1;
        }
        assert(raw_keys(raw).take(raw_nodes@.len() as int) =~= raw_keys(raw));
        let mut nodes: Vec<Node> = Vec::new();
        let mut raw_nodes = raw_nodes;
        let ghost all = raw_nodes@;
        let n = raw_nodes.len();
        // Nodes are moved out from the back, then put in order.
        let mut reversed: Vec<Node> = Vec::new();
        while raw_nodes.len() > 0
            invariant
                raw_nodes@.len() + reversed@.len() == n,
                n == all.len(),
                raw == all.map_values(|n: RawNode| n@),
                texts_of(keys@) == raw_keys(raw),
                raw_nodes@ == all.take(raw_nodes@.len() as int),
                forall|j: int|
                    0 <= j < reversed@.len() ==> (#[trigger] reversed@[j])@ == fbas_of_raw(raw)[n
                        - 1 - j],
            decreases raw_nodes.len(),
        {
            let ghost len = raw_nodes@.len();
            let raw_node = raw_nodes.pop().unwrap();
            assert(raw_node == all[len - 1]);
            assert(raw_nodes@ =~= all.take(len - 1));
            let node = Node::from_raw(raw_node, &keys);
            reversed.push(node);
        }
        while reversed.len() > 0
            invariant
                reversed@.len() + nodes@.len() == n,
                n == raw.len(),
                forall|j: int|
                    0 <= j < reversed@.len() ==> (#[trigger] reversed@[j])@ == fbas_of_raw(raw)[n
                        - 1 - j],
                forall|j: int| 0 <= j < nodes@.len() ==> (#[trigger] nodes@[j])@ == fbas_of_raw(raw)[j],
            decreases reversed.len(),
        {
            let node = reversed.pop().unwrap();
            nodes.push(node);
        }
        let fbas = Fbas { nodes };
        assert(fbas@ =~= fbas_of_raw(raw));
        proof {
            assert forall|i: int| 0 <= i < fbas@.len() implies (#[trigger] fbas@[i]).quorum_set.ids_below(
                fbas@.len(),
            ) by {
                lemma_quorum_set_of_raw_ids_below(raw_keys(raw), raw[i].quorum_set);
            }
        }
        fbas
    }

    /// The raw form of the system: keys for ids.
    pub fn to_raw(&self) -> (raw: RawFbas)
        requires
            well_formed(self@),
        ensures
            raw@ == raw_of_fbas(self@),
    {
        let mut nodes: Vec<RawNode> = Vec::new();
        let mut i: usize = 0;
        while i < self.nodes.len()
            invariant
                i <= self.nodes.len(),
                well_formed(self@),
                nodes@.len() == i,
                forall|j: int| 0 <= j < i ==> (#[trigger] nodes@[j])@ == raw_of_fbas(self@)[j],
            decreases self.nodes.len() - i,
        {
            assert(self@[i as int] == self.nodes@[i as int]@);
            nodes.push(self.nodes[i].to_raw(self));
            i = i + 1;
        }
        let raw = RawFbas(nodes);
        assert(raw@ =~= raw_of_fbas(self@));
        raw
    }
}

/// The documents of texts: an array element for each.
pub open spec fn encode_texts(texts: Seq<Seq<char>>) -> Seq<JsonModel> {
    texts.map_values(|t: Seq<char>| JsonModel::Text(t))
}

/// The documents of the first `n` of `raws`.
pub open spec fn encode_quorum_sets(raws: Seq<RawQuorumSetModel>, n: int) -> Seq<JsonModel>
    decreases raws, n,
{
    if n <= 0 || n > raws.len() {
        Seq::empty()
    } else {
        encode_quorum_sets(raws, n - 1).push(encode_quorum_set(raws[n - 1]))
    }
}

/// The document of a quorum set: an object with `threshold`, `validators`
/// and `innerQuorumSets`, in this order.
pub open spec fn encode_quorum_set(raw: RawQuorumSetModel) -> JsonModel
    decreases raw,
{
    JsonModel::Object(
        seq![
            ("threshold"@, JsonModel::Unsigned(raw.threshold as u64)),
            ("validators"@, JsonModel::Array(encode_texts(raw.validators))),
            (
                "innerQuorumSets"@,
                JsonModel::Array(encode_quorum_sets(raw.inner, raw.inner.len() as int)),
            ),
        ],
    )
}

/// The document of a text that may be missing: null where it is.
pub open spec fn encode_optional_text(text: Option<Seq<char>>) -> JsonModel {
    match text {
        Some(t) => JsonModel::Text(t),
        None => JsonModel::Null,
    }
}

/// The document of a node: an object with `publicKey` and `quorumSet`, then
/// `isp` and `geoData` where the node has them.
pub open spec fn encode_node(node: RawNodeModel) -> JsonModel {
    let base = seq![
        ("publicKey"@, JsonModel::Text(node.public_key)),
        ("quorumSet"@, encode_quorum_set(node.quorum_set)),
    ];
    let with_isp = match node.isp {
        Some(t) => base.push(("isp"@, JsonModel::Text(t))),
        None => base,
    };
    JsonModel::Object(
        match node.geo_data {
            Some(g) => with_isp.push(
                ("geoData"@, JsonModel::Object(seq![("countryName"@, encode_optional_text(g))])),
            ),
            None => with_isp,
        },
    )
}

/// The document of a system: the array of its nodes.
pub open spec fn encode_fbas(raw: Seq<RawNodeModel>) -> JsonModel {
    JsonModel::Array(raw.map_values(|n: RawNodeModel| encode_node(n)))
}

/// The array of the documents of `texts`.
pub fn write_text_array(texts: &Vec<String>) -> (doc: Json)
    ensures
        doc@ == JsonModel::Array(encode_texts(texts_of(texts@))),
{
    let mut docs: Vec<Json> = Vec::new();
    let mut i: usize = 0;
    while i < texts.len()
        invariant
            i <= texts.len(),
            docs@.len() == i,
            forall|j: int| 0 <= j < i ==> (#[trigger] docs@[j])@ == JsonModel::Text(texts@[j]@),
        decreases texts.len() - i,
    {
        docs.push(Json::Text(texts[i].clone()));
        i = i + 1;
    }
    proof {
        crate::json::lemma_array_models(docs@);
        assert(crate::json::array_models(docs@) =~= encode_texts(texts_of(texts@)));
    }
    Json::Array(docs)
}

/// A member of an object.
pub fn member_of(name: &str, value: Json) -> (m: Member)
    ensures
        m.name@ == name@,
        m.value == value,
{
    Member { name: name.to_owned(), value }
}

impl RawQuorumSet {
    /// The document of the quorum set.
    #[verifier::loop_isolation(false)]
    pub fn to_json(&self) -> (doc: Json)
        ensures
            doc@ == encode_quorum_set(self@),
        decreases self,
    {
        proof {
            lemma_raw_models_of(self.inner_quorum_sets@);
        }
        let ghost raws = self@.inner;
        let mut inner: Vec<Json> = Vec::new();
        let mut k: usize = 0;
        while k < self.inner_quorum_sets.len()
            invariant
                k <= self.inner_quorum_sets.len(),
                crate::json::array_models(inner@) == encode_quorum_sets(raws, k as int),
            decreases self.inner_quorum_sets.len() - k,
        {
            let d = self.inner_quorum_sets[k].to_json();
            let ghost before = inner@;
            inner.push(d);
            assert(inner@.drop_last() =~= before);
            k = k + 1;
        }
        let mut members: Vec<Member> = Vec::new();
        members.push(member_of("threshold", Json::Unsigned(self.threshold as u64)));
        members.push(member_of("validators", write_text_array(&self.validators)));
        members.push(member_of("innerQuorumSets", Json::Array(inner)));
        proof {
            crate::json::lemma_member_models(members@);
            assert(crate::json::member_models(members@) =~= encode_quorum_set(
                self@,
            )->Object_0);
        }
        Json::Object(members)
    }
}

impl RawNode {
    /// The document of the node.
    pub fn to_json(&self) -> (doc: Json)
        ensures
            doc@ == encode_node(self@),
    {
        let mut members: Vec<Member> = Vec::new();
        members.push(member_of("publicKey", Json::Text(self.public_key.clone())));
        members.push(member_of("quorumSet", self.quorum_set.to_json()));
        match &self.isp {
            Some(t) => {
                members.push(member_of("isp", Json::Text(t.clone())));
            },
            None => {},
        }
        match &self.geo_data {
            Some(g) => {
                let country = match &g.country_name {
                    Some(c) => Json::Text(c.clone()),
                    None => Json::Null,
                };
                let mut inner: Vec<Member> = Vec::new();
                inner.push(member_of("countryName", country));
                proof {
                    crate::json::lemma_member_models(inner@);
                    assert(crate::json::member_models(inner@) =~= seq![
                        ("countryName"@, encode_optional_text(g@)),
                    ]);
                }
                members.push(member_of("geoData", Json::Object(inner)));
            },
            None => {},
        }
        proof {
            crate::json::lemma_member_models(members@);
            assert(crate::json::member_models(members@) =~= encode_node(self@)->Object_0);
        }
        Json::Object(members)
    }
}

impl RawFbas {
    /// The document of the system.
    pub fn to_json(&self) -> (doc: Json)
        ensures
            doc@ == encode_fbas(self@),
    {
        let mut docs: Vec<Json> = Vec::new();
        let mut i: usize = 0;
        while i < self.0.len()
            invariant
                i <= self.0.len(),
                docs@.len() == i,
                forall|j: int| 0 <= j < i ==> (#[trigger] docs@[j])@ == encode_node(self.0@[j]@),
            decreases self.0.len() - i,
        {
            docs.push(self.0[i].to_json());
            i = i + 1;
        }
        proof {
            crate::json::lemma_array_models(docs@);
            assert(crate::json::array_models(docs@) =~= encode_fbas(self@)->Array_0);
        }
        Json::Array(docs)
    }
}

/// The raw system that a JSON text holds: the text is read as a document,
/// and the document as an array of nodes.
pub open spec fn raw_fbas_in(text: Seq<char>) -> Option<Seq<RawNodeModel>> {
    match parsed(text) {
        Some(doc) => decode_fbas(doc),
        None => None,
    }
}

impl RawFbas {
    /// The raw system that a JSON text holds, if it holds one.
    pub fn from_json_str(json: &str) -> (raw: Option<RawFbas>)
        ensures
            match raw {
                Some(r) => raw_fbas_in(json@) == Some(r@),
                None => raw_fbas_in(json@).is_none(),
            },
    {
        match parse(json) {
            Some(doc) => RawFbas::from_json(&doc),
            None => None,
        }
    }

    /// The JSON text of the raw system, on one line.
    pub fn to_json_string(&self) -> (text: String)
        ensures
            text@ == rendered(encode_fbas(self@)),
    {
        render(&self.to_json())
    }

    /// The JSON text of the raw system, indented.
    pub fn to_json_string_pretty(&self) -> (text: String)
        ensures
            text@ == rendered_pretty(encode_fbas(self@)),
    {
        render_pretty(&self.to_json())
    }
}

impl Fbas {
    /// The system that a JSON text holds, or `None` where the text is not
    /// JSON or does not hold an array of nodes.
    pub fn try_from_json_str(json: &str) -> (fbas: Option<Fbas>)
        ensures
            match fbas {
                Some(f) => raw_fbas_in(json@).is_some() && f@ == fbas_of_raw(
                    raw_fbas_in(json@).unwrap(),
                ) && well_formed(f@),
                None => raw_fbas_in(json@).is_none(),
            },
    {
        match RawFbas::from_json_str(json) {
            Some(_) => Some(Fbas::from_json_str(json)),
            None => None,
        }
    }

    /// The system that a JSON text holds.
    pub fn from_json_str(json: &str) -> (fbas: Fbas)
        requires
            raw_fbas_in(json@).is_some(),
        ensures
            fbas@ == fbas_of_raw(raw_fbas_in(json@).unwrap()),
            well_formed(fbas@),
    {
        match RawFbas::from_json_str(json) {
            Some(raw) => Fbas::from_raw(raw),
            None => unreached(),
        }
    }

    /// The JSON text of the system, on one line.
    pub fn to_json_string(&self) -> (text: String)
        requires
            well_formed(self@),
        ensures
            text@ == rendered(encode_fbas(raw_of_fbas(self@))),
    {
        self.to_raw().to_json_string()
    }

    /// The JSON text of the system, indented.
    pub fn to_json_string_pretty(&self) -> (text: String)
        requires
            well_formed(self@),
        ensures
            text@ == rendered_pretty(encode_fbas(raw_of_fbas(self@))),
    {
        self.to_raw().to_json_string_pretty()
    }
}

/// Calls `std::io::read_to_string` on the standard input: the text read,
/// or `None` where reading failed. Nothing is claimed of the text.
#[verifier::external_body]
fn read_stdin() -> (text: Option<String>) {
    std::io::read_to_string(std::io::stdin()).ok()
}

impl Fbas {
    /// The system that the JSON text on the standard input holds, or `None`
    /// where reading fails or the text does not hold an array of nodes.
    pub fn from_json_stdin() -> (fbas: Option<Fbas>)
        ensures
            match fbas {
                Some(f) => well_formed(f@) && exists|text: Seq<char>|
                    raw_fbas_in(text).is_some() && f@ == fbas_of_raw(
                        #[trigger] raw_fbas_in(text).unwrap(),
                    ),
                None => true,
            },
    {
        Fbas::from_json_read(read_stdin())
    }

    /// The system that a JSON text holds, where a text was read: `None`
    /// where none was, or where the text does not hold an array of nodes.
    pub fn from_json_read(text: Option<String>) -> (fbas: Option<Fbas>)
        ensures
            match text {
                Some(t) => match fbas {
                    Some(f) => raw_fbas_in(t@).is_some() && f@ == fbas_of_raw(
                        raw_fbas_in(t@).unwrap(),
                    ) && well_formed(f@),
                    None => raw_fbas_in(t@).is_none(),
                },
                None => fbas.is_none(),
            },
    {
        match text {
            Some(t) => Fbas::try_from_json_str(t.as_str()),
            None => None,
        }
    }
}

impl Organizations {
    /// The organizations that `raw_organizations` describes, for the nodes
    /// of `fbas`.
    pub fn from_raw(raw_organizations: groupings::RawGroupings, fbas: &Fbas) -> (orgs:
        Organizations)
        ensures
            orgs.groupings.wf(),
            orgs.groupings.universe() == fbas@.len(),
            orgs.groupings.groups() == groupings::groupings_of_raw(
                public_keys(fbas@),
                raw_organizations@,
            ),
    {
        Organizations { groupings: Groupings::from_raw(raw_organizations, fbas) }
    }

    /// The organizations that a JSON text holds, for the nodes of `fbas`,
    /// or `None` where the text does not hold an array of groupings.
    pub fn try_from_json_str(json: &str, fbas: &Fbas) -> (o: Option<Organizations>)
        ensures
            match o {
                Some(orgs) => groupings::raw_groupings_in(json@).is_some() && orgs.groupings.wf()
                    && orgs.groupings.universe() == fbas@.len() && orgs.groupings.groups()
                    == groupings::groupings_of_raw(
                    public_keys(fbas@),
                    groupings::raw_groupings_in(json@).unwrap(),
                ),
                None => groupings::raw_groupings_in(json@).is_none(),
            },
    {
        match groupings::RawGroupings::from_json_str(json) {
            Some(_) => Some(Organizations::from_json_str(json, fbas)),
            None => None,
        }
    }

    /// The organizations that a JSON text holds, for the nodes of `fbas`.
    pub fn from_json_str(json: &str, fbas: &Fbas) -> (orgs: Organizations)
        requires
            groupings::raw_groupings_in(json@).is_some(),
        ensures
            orgs.groupings.wf(),
            orgs.groupings.universe() == fbas@.len(),
            orgs.groupings.groups() == groupings::groupings_of_raw(
                public_keys(fbas@),
                groupings::raw_groupings_in(json@).unwrap(),
            ),
    {
        Organizations { groupings: Groupings::from_json_str(json, fbas) }
    }
}

/// The document of node sets with a number for each node: an array that
/// holds, for each set, the array of its members in ascending order.
pub open spec fn encode_id_sets(sets: Seq<Set<usize>>) -> JsonModel {
    JsonModel::Array(
        sets.map_values(
            |s: Set<usize>|
                JsonModel::Array(ascending(s).map_values(|v: usize| JsonModel::Unsigned(v as u64))),
        ),
    )
}

/// The document of node sets with a text for each node: an array that
/// holds, for each set, the array of the labels of its members in ascending
/// order of the members.
pub open spec fn encode_labelled_sets(sets: Seq<Set<usize>>, labels: Seq<Seq<char>>) -> JsonModel {
    JsonModel::Array(
        sets.map_values(
            |s: Set<usize>|
                JsonModel::Array(
                    ascending(s).map_values(|v: usize| JsonModel::Text(labels[v as int])),
                ),
        ),
    )
}

/// Whether every member of every set is below `n`.
pub open spec fn sets_below(sets: Seq<Set<usize>>, n: nat) -> bool {
    forall|i: int, v: usize| 0 <= i < sets.len() && #[trigger] sets[i].contains(v) ==> v < n
}

/// The document of node sets with the label of each node.
pub fn write_labelled_sets(node_sets: &Vec<NodeIdSet>, labels: &Vec<String>) -> (doc: Json)
    requires
        sets_below(views(node_sets@), labels@.len()),
    ensures
        doc@ == encode_labelled_sets(views(node_sets@), texts_of(labels@)),
{
    let ghost sets = views(node_sets@);
    let mut docs: Vec<Json> = Vec::new();
    let mut i: usize = 0;
    while i < node_sets.len()
        invariant
            i <= node_sets.len(),
            sets == views(node_sets@),
            sets_below(sets, labels@.len()),
            docs@.len() == i,
            forall|k: int|
                0 <= k < i ==> (#[trigger] docs@[k])@ == JsonModel::Array(
                    ascending(sets[k]).map_values(
                        |v: usize| JsonModel::Text(texts_of(labels@)[v as int]),
                    ),
                ),
        decreases node_sets.len() - i,
    {
        let members = node_sets[i].members();
        let mut inner: Vec<Json> = Vec::new();
        let mut k: usize = 0;
        while k < members.len()
            invariant
                k <= members.len(),
                i < node_sets@.len(),
                sets == views(node_sets@),
                sets_below(sets, labels@.len()),
                members@.to_set() == sets[i as int],
                members@ == ascending(sets[i as int]),
                inner@.len() == k,
                forall|j: int|
                    0 <= j < k ==> (#[trigger] inner@[j])@ == JsonModel::Text(
                        labels@[members@[j] as int]@,
                    ),
            decreases members.len() - k,
        {
            let v = members[k];
            assert(members@.contains(v));
            assert(sets[i as int].contains(v));
            inner.push(Json::Text(labels[v].clone()));
            k = k + 1;
        }
        proof {
            crate::json::lemma_array_models(inner@);
            let expected = ascending(sets[i as int]).map_values(
                |v: usize| JsonModel::Text(texts_of(labels@)[v as int]),
            );
            assert forall|j: int| 0 <= j < members@.len() implies crate::json::array_models(
                inner@,
            )[j] == expected[j] by {
                assert(members@.contains(members@[j]));
                assert(sets[i as int].contains(members@[j]));
                assert(members@[j] < labels@.len());
            }
            assert(crate::json::array_models(inner@) =~= expected);
        }
        docs.push(Json::Array(inner));
        i = i + 1;
    }
    proof {
        crate::json::lemma_array_models(docs@);
        assert(crate::json::array_models(docs@) =~= encode_labelled_sets(
            sets,
            texts_of(labels@),
        )->Array_0);
    }
    Json::Array(docs)
}

/// The JSON text of node sets, nodes represented by their ids.
pub fn to_json_string_using_node_ids(node_sets: &Vec<NodeIdSet>) -> (text: String)
    ensures
        text@ == rendered(encode_id_sets(views(node_sets@))),
{
    let ghost sets = views(node_sets@);
    let mut docs: Vec<Json> = Vec::new();
    let mut i: usize = 0;
    while i < node_sets.len()
        invariant
            i <= node_sets.len(),
            sets == views(node_sets@),
            docs@.len() == i,
            forall|k: int|
                0 <= k < i ==> (#[trigger] docs@[k])@ == JsonModel::Array(
                    ascending(sets[k]).map_values(|v: usize| JsonModel::Unsigned(v as u64)),
                ),
        decreases node_sets.len() - i,
    {
        let members = node_sets[i].members();
        let mut inner: Vec<Json> = Vec::new();
        let mut k: usize = 0;
        while k < members.len()
            invariant
                k <= members.len(),
                i < node_sets@.len(),
                members@ == ascending(sets[i as int]),
                inner@.len() == k,
                forall|j: int|
                    0 <= j < k ==> (#[trigger] inner@[j])@ == JsonModel::Unsigned(
                        members@[j] as u64,
                    ),
            decreases members.len() - k,
        {
            inner.push(Json::Unsigned(members[k] as u64));
            k = k + 1;
        }
        proof {
            crate::json::lemma_array_models(inner@);
            assert(crate::json::array_models(inner@) =~= ascending(sets[i as int]).map_values(
                |v: usize| JsonModel::Unsigned(v as u64),
            ));
        }
        docs.push(Json::Array(inner));
        i = i + 1;
    }
    proof {
        crate::json::lemma_array_models(docs@);
        assert(crate::json::array_models(docs@) =~= encode_id_sets(sets)->Array_0);
    }
    render(&Json::Array(docs))
}

/// The JSON text of node sets, nodes represented by their public keys.
pub fn to_json_string_using_public_keys(node_sets: &Vec<NodeIdSet>, fbas: &Fbas) -> (text: String)
    requires
        sets_below(views(node_sets@), fbas@.len()),
    ensures
        text@ == rendered(encode_labelled_sets(views(node_sets@), public_keys(fbas@))),
{
    let mut labels: Vec<String> = Vec::new();
    let mut v: usize = 0;
    while v < fbas.nodes.len()
        invariant
            v <= fbas.nodes.len(),
            labels@.len() == v,
            forall|w: int| 0 <= w < v ==> (#[trigger] labels@[w])@ == public_keys(fbas@)[w],
        decreases fbas.nodes.len() - v,
    {
        labels.push(fbas.nodes[v].public_key.clone());
        v = v + 1;
    }
    assert(texts_of(labels@) =~= public_keys(fbas@));
    render(&write_labelled_sets(node_sets, &labels))
}

/// The name under which a node is shown: that of its organization, or its
/// public key where it belongs to none.
pub open spec fn organization_labels(net: Seq<NodeModel>, groupings: Groupings) -> Seq<Seq<char>> {
    Seq::new(
        net.len(),
        |v: int|
            match crate::groupings::group_index_of(
                groupings.groups(),
                v as usize,
                groupings.groups().len() as int,
            ) {
                Some(i) => groupings.groups()[i as int].name,
                None => net[v].public_key,
            },
    )
}

/// The JSON text of node sets, nodes represented by the name of their
/// organization, or by their public key where they belong to none.
pub fn to_json_string_using_organization_names(
    node_sets: &Vec<NodeIdSet>,
    fbas: &Fbas,
    organizations: &Organizations,
) -> (text: String)
    requires
        sets_below(views(node_sets@), fbas@.len()),
        organizations.groupings.wf(),
        organizations.groupings.universe() == fbas@.len(),
    ensures
        text@ == rendered(
            encode_labelled_sets(
                views(node_sets@),
                organization_labels(fbas@, organizations.groupings),
            ),
        ),
{
    let ghost expected = organization_labels(fbas@, organizations.groupings);
    let mut labels: Vec<String> = Vec::new();
    let mut v: usize = 0;
    while v < fbas.nodes.len()
        invariant
            v <= fbas.nodes.len(),
            organizations.groupings.wf(),
            organizations.groupings.universe() == fbas@.len(),
            expected == organization_labels(fbas@, organizations.groupings),
            labels@.len() == v,
            forall|w: int| 0 <= w < v ==> (#[trigger] labels@[w])@ == expected[w],
        decreases fbas.nodes.len() - v,
    {
        let label = match organizations.groupings.get_by_member(v) {
            Some(org) => org.name.clone(),
            None => fbas.nodes[v].public_key.clone(),
        };
        assert(fbas@[v as int].public_key == fbas.nodes@[v as int].public_key@);
        labels.push(label);
        v = v + 1;
    }
    assert(texts_of(labels@) =~= expected);
    render(&write_labelled_sets(node_sets, &labels))
}

} // verus!
