//! Reading groupings from JSON documents, and deriving them from what the
//! nodes of a document say of their provider or country.

use crate::groupings::{Grouping, GroupingModel, Groupings};
use crate::io::{
    decode_text, decode_text_array, find_member, known_ids, lemma_known_ids_below, member,
    public_keys, raw_fbas_in, raw_keys, read_text, read_text_array, texts_of, RawFbas, RawNode,
    RawNodeModel,
};
use crate::json::{parse, parsed, Json, JsonModel};
use crate::node_set::NodeId;
use crate::text::push_char;
use crate::types::{Fbas, PublicKey};
use vstd::prelude::*;
use vstd::string::StrSliceExecFns;

verus! {

/// A grouping as documents hold it: its members by public key.
#[derive(Debug, PartialEq, Eq)]
pub struct RawGrouping {
    pub name: String,
    pub validators: Vec<PublicKey>,
}

/// Groupings as documents hold them, in order.
#[derive(Debug, PartialEq, Eq)]
pub struct RawGroupings(pub Vec<RawGrouping>);

/// The mathematical content of a [`RawGrouping`].
pub struct RawGroupingModel {
    pub name: Seq<char>,
    pub validators: Seq<Seq<char>>,
}

impl View for RawGrouping {
    type V = RawGroupingModel;

    open spec fn view(&self) -> RawGroupingModel {
        RawGroupingModel { name: self.name@, validators: texts_of(self.validators@) }
    }
}

impl View for RawGroupings {
    type V = Seq<RawGroupingModel>;

    open spec fn view(&self) -> Seq<RawGroupingModel> {
        self.0@.map_values(|g: RawGrouping| g@)
    }
}

/// Whether a character is kept in the name of a grouping.
pub open spec fn is_kept(c: char) -> bool {
    c != ','
}

/// The name of a grouping as it is compared and shown: without commas and
/// without a full stop at its end.
pub open spec fn clean_name(name: Seq<char>) -> Seq<char> {
    let kept = name.filter(|c: char| is_kept(c));
    if kept.len() > 0 && kept.last() == '.' {
        kept.drop_last()
    } else {
        kept
    }
}

/// Whether `a` comes before `b` in the order of texts: character by
/// character from position `from` on, a proper prefix first.
pub open spec fn text_before_from(a: Seq<char>, b: Seq<char>, from: int) -> bool
    decreases a.len() - from,
{
    if from < 0 || from >= b.len() {
        false
    } else if from >= a.len() {
        true
    } else if a[from] != b[from] {
        (a[from] as u32) < (b[from] as u32)
    } else {
        text_before_from(a, b, from + 1)
    }
}

/// Whether `a` comes before `b` in the order of texts.
pub open spec fn text_before(a: Seq<char>, b: Seq<char>) -> bool {
    text_before_from(a, b, 0)
}

/// Whether `a` comes before `b` in the order of texts.
pub fn is_text_before(a: &str, b: &str) -> (before: bool)
    ensures
        before == text_before(a@, b@),
{
    let n = a.unicode_len();
    let m = b.unicode_len();
    let mut i: usize = 0;
    while i < n && i < m
        invariant
            n == a@.len(),
            m == b@.len(),
            i <= n,
            i <= m,
            text_before(a@, b@) == text_before_from(a@, b@, i as int),
        decreases n - i,
    {
        let x = a.get_char(i);
        let y = b.get_char(i);
        if x != y {
            return (x as u32) < (y as u32);
        }
        i = i + 1;
    }
    i < m
}

impl Groupings {
    /// The name without commas and without a full stop at its end.
    pub fn remove_special_chars_from_grouping_name(name: String) -> (cleaned: String)
        ensures
            cleaned@ == clean_name(name@),
    {
        let text = name.as_str();
        let n = text.unicode_len();
        let ghost keep = |c: char| is_kept(c);
        let mut kept = String::new();
        let mut last: Option<char> = None;
        let mut i: usize = 0;
        assert(name@.take(0).filter(keep) =~= Seq::empty()) by {
            reveal(Seq::filter);
        }
        while i < n
            invariant
                i <= n,
                n == name@.len(),
                text@ == name@,
                keep == |c: char| is_kept(c),
                kept@ == name@.take(i as int).filter(keep),
                match last {
                    Some(c) => kept@.len() > 0 && kept@.last() == c,
                    None => kept@.len() == 0,
                },
            decreases n - i,
        {
            let c = text.get_char(i);
            proof {
                reveal(Seq::filter);
                assert(name@.take(i + 1).drop_last() =~= name@.take(i as int));
                assert(name@.take(i + 1).last() == c);
            }
            if c != ',' {
                push_char(&mut kept, c);
                last = Some(c);
            }
            i = i + 1;
        }
        assert(name@.take(n as int) =~= name@);
        match last {
            Some('.') => {
                let len = kept.as_str().unicode_len();
                kept.as_str().substring_char(0, len - 1).to_owned()
            },
            _ => kept,
        }
    }
}

/// A grouping with one member.
pub open spec fn single_group(label: Seq<char>, key: Seq<char>) -> RawGroupingModel {
    RawGroupingModel { name: label, validators: seq![key] }
}

/// `groups`, which are in the order of their names, with `key` added to the
/// group named `label`; where there is none yet, a new group takes its
/// place in the order.
pub open spec fn add_to_group(
    groups: Seq<RawGroupingModel>,
    label: Seq<char>,
    key: Seq<char>,
) -> Seq<RawGroupingModel>
    decreases groups.len(),
{
    if groups.len() == 0 {
        seq![single_group(label, key)]
    } else if groups.last().name == label {
        groups.drop_last().push(
            RawGroupingModel { name: label, validators: groups.last().validators.push(key) },
        )
    } else if text_before(groups.last().name, label) {
        groups.push(single_group(label, key))
    } else {
        add_to_group(groups.drop_last(), label, key).push(groups.last())
    }
}

/// The groups of the first `n` nodes: one for each label, in the order of
/// the labels; each holds the keys of the nodes with its label, in the order
/// of the nodes. A node without label is in no group.
pub open spec fn grouped_by_label(
    keys: Seq<Seq<char>>,
    labels: Seq<Option<Seq<char>>>,
    n: int,
) -> Seq<RawGroupingModel>
    decreases n,
{
    if n <= 0 || n > keys.len() || n > labels.len() {
        Seq::empty()
    } else {
        match labels[n - 1] {
            Some(label) => add_to_group(grouped_by_label(keys, labels, n - 1), label, keys[n - 1]),
            None => grouped_by_label(keys, labels, n - 1),
        }
    }
}

/// Adds `key` to the group of `groups` named `label`.
pub fn add_key_to_group(groups: &mut Vec<RawGrouping>, label: String, key: PublicKey)
    ensures
        final(groups)@.map_values(|g: RawGrouping| g@) == add_to_group(
            old(groups)@.map_values(|g: RawGrouping| g@),
            label@,
            key@,
        ),
{
    let ghost before = groups@.map_values(|g: RawGrouping| g@);
    let mut p: usize = groups.len();
    assert(before.take(p as int) =~= before);
    assert(before.skip(p as int) =~= Seq::empty());
    while p > 0
        invariant
            p <= groups.len(),
            groups@ == old(groups)@,
            before == groups@.map_values(|g: RawGrouping| g@),
            add_to_group(before, label@, key@) == add_to_group(
                before.take(p as int),
                label@,
                key@,
            ) + before.skip(p as int),
        ensures
            p > 0 ==> before[p - 1].name != label@ && text_before(before[p - 1].name, label@),
        decreases p,
    {
        let ghost front = before.take(p as int);
        assert(front.last() == groups@[p - 1]@);
        assert(front.drop_last() =~= before.take(p - 1));
        if groups[p - 1].name == label {
            let mut group = groups.remove(p - 1);
            group.validators.push(key);
            assert(group@ == (RawGroupingModel {
                name: label@,
                validators: front.last().validators.push(key@),
            })) by {
                assert(texts_of(group.validators@) =~= front.last().validators.push(key@));
            }
            groups.insert(p - 1, group);
            assert(groups@.map_values(|g: RawGrouping| g@) =~= front.drop_last().push(group@)
                + before.skip(p as int));
            return ;
        }
        if is_text_before(groups[p - 1].name.as_str(), label.as_str()) {
            break ;
        }
        assert(add_to_group(front, label@, key@) == add_to_group(
            before.take(p - 1),
            label@,
            key@,
        ).push(before[p - 1]));
        assert(add_to_group(before.take(p - 1), label@, key@).push(before[p - 1]) + before.skip(
            p as int,
        ) =~= add_to_group(before.take(p - 1), label@, key@) + before.skip(p - 1));
        p = p - 1;
    }
    let mut validators: Vec<PublicKey> = Vec::new();
    validators.push(key);
    let group = RawGrouping { name: label, validators };
    assert(group@ == single_group(label@, key@)) by {
        assert(texts_of(group.validators@) =~= seq![key@]);
    }
    proof {
        let front = before.take(p as int);
        if p > 0 {
            assert(front.last() == before[p - 1]);
        }
        assert(add_to_group(front, label@, key@) =~= front.push(group@));
        assert(front.push(group@) + before.skip(p as int) =~= before.insert(p as int, group@));
    }
    groups.insert(p, group);
    assert(groups@.map_values(|g: RawGrouping| g@) =~= before.insert(p as int, group@));
}

/// For each node the cleaned name of its provider, where it states one.
pub open spec fn isp_labels(raw: Seq<RawNodeModel>) -> Seq<Option<Seq<char>>> {
    raw.map_values(
        |n: RawNodeModel|
            match n.isp {
                Some(t) => Some(clean_name(t)),
                None => None,
            },
    )
}

/// For each node the cleaned name of its country, where it states one.
pub open spec fn country_labels(raw: Seq<RawNodeModel>) -> Seq<Option<Seq<char>>> {
    raw.map_values(
        |n: RawNodeModel|
            match n.geo_data {
                Some(Some(c)) => Some(clean_name(c)),
                _ => None,
            },
    )
}

/// The groups of `raw_nodes` by the label that `labels` holds for each.
pub fn group_by_label(raw_nodes: &Vec<RawNode>, labels: Vec<Option<String>>) -> (groups:
    RawGroupings)
    requires
        labels@.len() == raw_nodes@.len(),
    ensures
        groups@ == grouped_by_label(
            raw_keys(raw_nodes@.map_values(|n: RawNode| n@)),
            labels@.map_values(
                |l: Option<String>|
                    match l {
                        Some(t) => Some(t@),
                        None => None,
                    },
            ),
            raw_nodes@.len() as int,
        ),
        is_name_sorted(groups@),
{
    let ghost keys = raw_keys(raw_nodes@.map_values(|n: RawNode| n@));
    let ghost names = labels@.map_values(
        |l: Option<String>|
            match l {
                Some(t) => Some(t@),
                None => None,
            },
    );
    let mut groups: Vec<RawGrouping> = Vec::new();
    let mut i: usize = 0;
    while i < raw_nodes.len()
        invariant
            i <= raw_nodes.len(),
            labels@.len() == raw_nodes@.len(),
            keys == raw_keys(raw_nodes@.map_values(|n: RawNode| n@)),
            names == labels@.map_values(
                |l: Option<String>|
                    match l {
                        Some(t) => Some(t@),
                        None => None,
                    },
            ),
            groups@.map_values(|g: RawGrouping| g@) == grouped_by_label(keys, names, i as int),
        decreases raw_nodes.len() - i,
    {
        match &labels[i] {
            Some(label) => {
                add_key_to_group(&mut groups, label.clone(), raw_nodes[i].public_key.clone());
            },
            None => {},
        }
        i = i + 1;
    }
    proof {
        lemma_grouped_by_label_sorted(keys, names, raw_nodes@.len() as int);
    }
    RawGroupings(groups)
}

impl Groupings {
    /// The groupings of the nodes by provider: one for each cleaned provider
    /// name, in the order of the names, with the keys of its nodes.
    pub fn get_isps_from_raw_nodes(raw_nodes: Vec<RawNode>) -> (groups: RawGroupings)
        ensures
            groups@ == grouped_by_label(
                raw_keys(raw_nodes@.map_values(|n: RawNode| n@)),
                isp_labels(raw_nodes@.map_values(|n: RawNode| n@)),
                raw_nodes@.len() as int,
            ),
            is_name_sorted(groups@),
    {
        let ghost raw = raw_nodes@.map_values(|n: RawNode| n@);
        let mut labels: Vec<Option<String>> = Vec::new();
        let mut i: usize = 0;
        while i < raw_nodes.len()
            invariant
                i <= raw_nodes.len(),
                raw == raw_nodes@.map_values(|n: RawNode| n@),
                labels@.len() == i,
                forall|k: int|
                    0 <= k < i ==> (match #[trigger] labels@[k] {
                        Some(t) => Some(t@),
                        None => None,
                    }) == isp_labels(raw)[k],
            decreases raw_nodes.len() - i,
        {
            let label = match &raw_nodes[i].isp {
                Some(name) => Some(Groupings::remove_special_chars_from_grouping_name(name.clone())),
                None => None,
            };
            labels.push(label);
            i = i + 1;
        }
        assert(labels@.map_values(
            |l: Option<String>|
                match l {
                    Some(t) => Some(t@),
                    None => None,
                },
        ) =~= isp_labels(raw));
        group_by_label(&raw_nodes, labels)
    }

    /// The groupings of the nodes by country: one for each cleaned country
    /// name, in the order of the names, with the keys of its nodes.
    pub fn get_countries_from_raw_nodes(raw_nodes: Vec<RawNode>) -> (groups: RawGroupings)
        ensures
            groups@ == grouped_by_label(
                raw_keys(raw_nodes@.map_values(|n: RawNode| n@)),
                country_labels(raw_nodes@.map_values(|n: RawNode| n@)),
                raw_nodes@.len() as int,
            ),
            is_name_sorted(groups@),
    {
        let ghost raw = raw_nodes@.map_values(|n: RawNode| n@);
        let mut labels: Vec<Option<String>> = Vec::new();
        let mut i: usize = 0;
        while i < raw_nodes.len()
            invariant
                i <= raw_nodes.len(),
                raw == raw_nodes@.map_values(|n: RawNode| n@),
                labels@.len() == i,
                forall|k: int|
                    0 <= k < i ==> (match #[trigger] labels@[k] {
                        Some(t) => Some(t@),
                        None => None,
                    }) == country_labels(raw)[k],
            decreases raw_nodes.len() - i,
        {
            let label = match &raw_nodes[i].geo_data {
                Some(geo_data) => match &geo_data.country_name {
                    Some(name) => Some(
                        Groupings::remove_special_chars_from_grouping_name(name.clone()),
                    ),
                    None => None,
                },
                None => None,
            };
            labels.push(label);
            i = i + 1;
        }
        assert(labels@.map_values(
            |l: Option<String>|
                match l {
                    Some(t) => Some(t@),
                    None => None,
                },
        ) =~= country_labels(raw));
        group_by_label(&raw_nodes, labels)
    }
}

/// The grouping that `raw` describes once ids stand for keys: the same
/// name, and the ids of the members that are nodes.
pub open spec fn grouping_of_raw(keys: Seq<Seq<char>>, raw: RawGroupingModel) -> GroupingModel {
    GroupingModel {
        name: raw.name,
        validators: known_ids(keys, raw.validators, raw.validators.len() as int),
    }
}

/// The groupings that `raw` describes once ids stand for keys.
pub open spec fn groupings_of_raw(keys: Seq<Seq<char>>, raw: Seq<RawGroupingModel>) -> Seq<
    GroupingModel,
> {
    raw.map_values(|g: RawGroupingModel| grouping_of_raw(keys, g))
}

/// The raw form of a grouping: the same name, and the key of each member.
pub open spec fn raw_of_grouping(keys: Seq<Seq<char>>, g: GroupingModel) -> RawGroupingModel {
    RawGroupingModel {
        name: g.name,
        validators: Seq::new(g.validators.len(), |i: int| keys[g.validators[i] as int]),
    }
}

/// The grouping that a document holds: an object with a text `name` and an
/// array `validators` of public keys. Other members are passed over.
pub open spec fn decode_grouping(doc: JsonModel) -> Option<RawGroupingModel> {
    match doc {
        JsonModel::Object(m) => {
            let name = match member(m, "name"@) {
                Some(n) => decode_text(n),
                None => None,
            };
            let validators = match member(m, "validators"@) {
                Some(v) => decode_text_array(v),
                None => None,
            };
            if name.is_none() || validators.is_none() {
                None
            } else {
                Some(RawGroupingModel { name: name.unwrap(), validators: validators.unwrap() })
            }
        },
        _ => None,
    }
}

/// The groupings that the first `n` documents hold, if each holds one.
pub open spec fn decode_groupings(docs: Seq<JsonModel>, n: int) -> Option<Seq<RawGroupingModel>>
    decreases n,
{
    if n <= 0 || n > docs.len() {
        Some(Seq::empty())
    } else {
        match (decode_groupings(docs, n - 1), decode_grouping(docs[n - 1])) {
            (Some(front), Some(g)) => Some(front.push(g)),
            _ => None,
        }
    }
}

/// The groupings that a JSON text holds: the text is read as a document,
/// and the document as an array of groupings.
pub open spec fn raw_groupings_in(text: Seq<char>) -> Option<Seq<RawGroupingModel>> {
    match parsed(text) {
        Some(JsonModel::Array(a)) => decode_groupings(a, a.len() as int),
        _ => None,
    }
}

/// Once a prefix fails to decode, every longer prefix fails.
pub proof fn lemma_decode_groupings_fails(docs: Seq<JsonModel>, m: int, n: int)
    requires
        0 <= m <= n <= docs.len(),
        decode_groupings(docs, m).is_none(),
    ensures
        decode_groupings(docs, n).is_none(),
    decreases n - m,
{
    if m < n {
        lemma_decode_groupings_fails(docs, m, n - 1);
    }
}

impl RawGrouping {
    /// The grouping that a document holds.
    pub fn from_json(doc: &Json) -> (g: Option<RawGrouping>)
        ensures
            match g {
                Some(r) => decode_grouping(doc@) == Some(r@),
                None => decode_grouping(doc@).is_none(),
            },
    {
        match doc {
            Json::Object(members) => {
                proof {
                    crate::json::lemma_member_models(members@);
                }
                let name = match find_member(members, "name") {
                    Some(i) => match read_text(&members[i].value) {
                        Some(n) => n,
                        None => {
                            return None;
                        },
                    },
                    None => {
                        return None;
                    },
                };
                let validators = match find_member(members, "validators") {
                    Some(i) => match read_text_array(&members[i].value) {
                        Some(v) => v,
                        None => {
                            return None;
                        },
                    },
                    None => {
                        return None;
                    },
                };
                Some(RawGrouping { name, validators })
            },
            _ => None,
        }
    }
}

impl RawGroupings {
    /// The groupings that a JSON text holds, if it holds an array of them.
    #[verifier::loop_isolation(false)]
    pub fn from_json_str(json: &str) -> (raw: Option<RawGroupings>)
        ensures
            match raw {
                Some(r) => raw_groupings_in(json@) == Some(r@),
                None => raw_groupings_in(json@).is_none(),
            },
    {
        match parse(json) {
            Some(Json::Array(a)) => {
                let ghost docs = crate::json::array_models(a@);
                proof {
                    crate::json::lemma_array_models(a@);
                }
                let mut v: Vec<RawGrouping> = Vec::new();
                let mut i: usize = 0;
                while i < a.len()
                    invariant
                        i <= a.len(),
                        decode_groupings(docs, i as int) == Some(
                            v@.map_values(|g: RawGrouping| g@),
                        ),
                    decreases a.len() - i,
                {
                    match RawGrouping::from_json(&a[i]) {
                        Some(g) => {
                            let ghost before = v@.map_values(|g: RawGrouping| g@);
                            v.push(g);
                            assert(v@.map_values(|g: RawGrouping| g@) =~= before.push(g@));
                        },
                        None => {
                            assert(decode_groupings(docs, i + 1).is_none());
                            proof {
                                lemma_decode_groupings_fails(docs, i + 1, docs.len() as int);
                            }
                            return None;
                        },
                    }
                    i = i + 1;
                }
                Some(RawGroupings(v))
            },
            _ => None,
        }
    }
}

impl Grouping {
    /// The grouping that `raw_grouping` describes once ids stand for keys.
    /// Members whose key no node of `fbas` has are left out.
    pub fn from_raw(raw_grouping: RawGrouping, fbas: &Fbas) -> (g: Grouping)
        ensures
            g@ == grouping_of_raw(public_keys(fbas@), raw_grouping@),
    {
        let ghost keys = public_keys(fbas@);
        let ghost names = texts_of(raw_grouping.validators@);
        let mut validators: Vec<NodeId> = Vec::new();
        let mut i: usize = 0;
        while i < raw_grouping.validators.len()
            invariant
                i <= raw_grouping.validators.len(),
                keys == public_keys(fbas@),
                names == texts_of(raw_grouping.validators@),
                validators@ == known_ids(keys, names, i as int),
            decreases raw_grouping.validators.len() - i,
        {
            match fbas.get_node_id(&raw_grouping.validators[i]) {
                Some(id) => {
                    validators.push(id);
                },
                None => {},
            }
            i = i + 1;
        }
        Grouping { name: raw_grouping.name, validators }
    }

    /// The raw form of the grouping: keys for ids.
    pub fn to_raw(&self, fbas: &Fbas) -> (raw: RawGrouping)
        requires
            forall|i: int| 0 <= i < self.validators@.len() ==> self.validators@[i] < fbas@.len(),
        ensures
            raw@ == raw_of_grouping(public_keys(fbas@), self@),
    {
        let ghost keys = public_keys(fbas@);
        let mut validators: Vec<PublicKey> = Vec::new();
        let mut i: usize = 0;
        while i < self.validators.len()
            invariant
                i <= self.validators.len(),
                keys == public_keys(fbas@),
                forall|k: int|
                    0 <= k < self.validators@.len() ==> self.validators@[k] < fbas@.len(),
                validators@.len() == i,
                forall|k: int|
                    0 <= k < i ==> (#[trigger] validators@[k])@ == keys[self.validators@[k] as int],
            decreases self.validators.len() - i,
        {
            let v = self.validators[i];
            assert(keys[v as int] == fbas.nodes@[v as int].public_key@);
            validators.push(fbas.nodes[v].public_key.clone());
            i = i + 1;
        }
        let raw = RawGrouping { name: self.name.clone(), validators };
        assert(raw@.validators =~= raw_of_grouping(keys, self@).validators);
        raw
    }
}

impl Groupings {
    /// The groupings that `raw_groupings` describes, for the nodes of `fbas`.
    pub fn from_raw(raw_groupings: RawGroupings, fbas: &Fbas) -> (g: Groupings)
        ensures
            g.wf(),
            g.universe() == fbas@.len(),
            g.groups() == groupings_of_raw(public_keys(fbas@), raw_groupings@),
    {
        let ghost keys = public_keys(fbas@);
        let ghost raw = raw_groupings@;
        let mut raws = raw_groupings.0;
        let ghost all = raws@;
        let n = raws.len();
        let mut reversed: Vec<Grouping> = Vec::new();
        while raws.len() > 0
            invariant
                raws@.len() + reversed@.len() == n,
                n == all.len(),
                keys == public_keys(fbas@),
                raw == all.map_values(|g: RawGrouping| g@),
                raws@ == all.take(raws@.len() as int),
                forall|j: int|
                    0 <= j < reversed@.len() ==> (#[trigger] reversed@[j])@ == grouping_of_raw(
                        keys,
                        raw[n - 1 - j],
                    ),
            decreases raws.len(),
        {
            let ghost len = raws@.len();
            let raw_grouping = raws.pop().unwrap();
            assert(raw_grouping == all[len - 1]);
            assert(raws@ =~= all.take(len - 1));
            reversed.push(Grouping::from_raw(raw_grouping, fbas));
        }
        let mut groupings: Vec<Grouping> = Vec::new();
        while reversed.len() > 0
            invariant
                reversed@.len() + groupings@.len() == n,
                n == raw.len(),
                forall|j: int|
                    0 <= j < reversed@.len() ==> (#[trigger] reversed@[j])@ == grouping_of_raw(
                        keys,
                        raw[n - 1 - j],
                    ),
                forall|j: int|
                    0 <= j < groupings@.len() ==> (#[trigger] groupings@[j])@ == grouping_of_raw(
                        keys,
                        raw[j],
                    ),
            decreases reversed.len(),
        {
            let g = reversed.pop().unwrap();
            groupings.push(g);
        }
        let ghost groups = groupings@.map_values(|g: Grouping| g@);
        assert(groups =~= groupings_of_raw(keys, raw));
        let count = fbas.nodes.len();
        proof {
            assert(keys.len() == count);
            assert forall|i: int, k: int|
                0 <= i < groups.len() && 0 <= k < groups[i].validators.len() implies (
            #[trigger] groups[i].validators[k]) < fbas@.len() by {
                lemma_known_ids_below(keys, raw[i].validators, raw[i].validators.len() as int);
            }
        }
        Groupings::new(groupings, fbas)
    }

    /// The raw form of the groupings: keys for ids.
    pub fn to_raw(&self, fbas: &Fbas) -> (raw: RawGroupings)
        requires
            self.wf(),
            self.universe() == fbas@.len(),
        ensures
            raw@ == self.groups().map_values(
                |g: GroupingModel| raw_of_grouping(public_keys(fbas@), g),
            ),
    {
        let ghost keys = public_keys(fbas@);
        let mut raws: Vec<RawGrouping> = Vec::new();
        let mut i: usize = 0;
        while i < self.groupings.len()
            invariant
                i <= self.groupings.len(),
                self.wf(),
                self.universe() == fbas@.len(),
                keys == public_keys(fbas@),
                raws@.len() == i,
                forall|k: int|
                    0 <= k < i ==> (#[trigger] raws@[k])@ == raw_of_grouping(
                        keys,
                        self.groupings@[k]@,
                    ),
            decreases self.groupings.len() - i,
        {
            assert forall|k: int| 0 <= k < self.groupings@[i as int].validators@.len() implies
                self.groupings@[i as int].validators@[k] < fbas@.len() by {
                assert(self.groups()[i as int].validators[k] < self.universe());
            }
            raws.push(self.groupings[i].to_raw(fbas));
            i = i + 1;
        }
        let raw = RawGroupings(raws);
        assert(raw@ =~= self.groups().map_values(|g: GroupingModel| raw_of_grouping(keys, g)));
        raw
    }

    /// The groupings that a JSON text holds, for the nodes of `fbas`, or
    /// `None` where the text does not hold an array of groupings.
    pub fn try_from_json_str(json: &str, fbas: &Fbas) -> (g: Option<Groupings>)
        ensures
            match g {
                Some(groupings) => raw_groupings_in(json@).is_some() && groupings.wf()
                    && groupings.universe() == fbas@.len() && groupings.groups()
                    == groupings_of_raw(public_keys(fbas@), raw_groupings_in(json@).unwrap()),
                None => raw_groupings_in(json@).is_none(),
            },
    {
        match RawGroupings::from_json_str(json) {
            Some(_) => Some(Groupings::from_json_str(json, fbas)),
            None => None,
        }
    }

    /// The groupings that a JSON text holds, for the nodes of `fbas`.
    pub fn from_json_str(json: &str, fbas: &Fbas) -> (g: Groupings)
        requires
            raw_groupings_in(json@).is_some(),
        ensures
            g.wf(),
            g.universe() == fbas@.len(),
            g.groups() == groupings_of_raw(public_keys(fbas@), raw_groupings_in(json@).unwrap()),
    {
        match RawGroupings::from_json_str(json) {
            Some(raw) => Groupings::from_raw(raw, fbas),
            None => unreached(),
        }
    }

    /// The groupings by provider of the nodes that a JSON text holds, for
    /// the nodes of `fbas`, or `None` where the text holds no array of nodes.
    pub fn try_load_isps_from_str(json: &str, fbas: &Fbas) -> (g: Option<Groupings>)
        ensures
            match g {
                Some(groupings) => raw_fbas_in(json@).is_some() && groupings.wf()
                    && groupings.universe() == fbas@.len() && groupings.groups()
                    == groupings_of_raw(
                    public_keys(fbas@),
                    grouped_by_label(
                        raw_keys(raw_fbas_in(json@).unwrap()),
                        isp_labels(raw_fbas_in(json@).unwrap()),
                        raw_fbas_in(json@).unwrap().len() as int,
                    ),
                ),
                None => raw_fbas_in(json@).is_none(),
            },
    {
        match RawFbas::from_json_str(json) {
            Some(_) => Some(Groupings::load_isps_from_str(json, fbas)),
            None => None,
        }
    }

    /// The groupings by provider of the nodes that a JSON text holds, for
    /// the nodes of `fbas`.
    pub fn load_isps_from_str(json: &str, fbas: &Fbas) -> (g: Groupings)
        requires
            raw_fbas_in(json@).is_some(),
        ensures
            g.wf(),
            g.universe() == fbas@.len(),
            g.groups() == groupings_of_raw(
                public_keys(fbas@),
                grouped_by_label(
                    raw_keys(raw_fbas_in(json@).unwrap()),
                    isp_labels(raw_fbas_in(json@).unwrap()),
                    raw_fbas_in(json@).unwrap().len() as int,
                ),
            ),
    {
        match RawFbas::from_json_str(json) {
            Some(raw) => {
                let raw_groupings = Groupings::get_isps_from_raw_nodes(raw.0);
                Groupings::from_raw(raw_groupings, fbas)
            },
            None => unreached(),
        }
    }

    /// The groupings by country of the nodes that a JSON text holds, for
    /// the nodes of `fbas`, or `None` where the text holds no array of nodes.
    pub fn try_load_countries_from_str(json: &str, fbas: &Fbas) -> (g: Option<Groupings>)
        ensures
            match g {
                Some(groupings) => raw_fbas_in(json@).is_some() && groupings.wf()
                    && groupings.universe() == fbas@.len() && groupings.groups()
                    == groupings_of_raw(
                    public_keys(fbas@),
                    grouped_by_label(
                        raw_keys(raw_fbas_in(json@).unwrap()),
                        country_labels(raw_fbas_in(json@).unwrap()),
                        raw_fbas_in(json@).unwrap().len() as int,
                    ),
                ),
                None => raw_fbas_in(json@).is_none(),
            },
    {
        match RawFbas::from_json_str(json) {
            Some(_) => Some(Groupings::load_countries_from_str(json, fbas)),
            None => None,
        }
    }

    /// The groupings by country of the nodes that a JSON text holds, for
    /// the nodes of `fbas`.
    pub fn load_countries_from_str(json: &str, fbas: &Fbas) -> (g: Groupings)
        requires
            raw_fbas_in(json@).is_some(),
        ensures
            g.wf(),
            g.universe() == fbas@.len(),
            g.groups() == groupings_of_raw(
                public_keys(fbas@),
                grouped_by_label(
                    raw_keys(raw_fbas_in(json@).unwrap()),
                    country_labels(raw_fbas_in(json@).unwrap()),
                    raw_fbas_in(json@).unwrap().len() as int,
                ),
            ),
    {
        match RawFbas::from_json_str(json) {
            Some(raw) => {
                let raw_groupings = Groupings::get_countries_from_raw_nodes(raw.0);
                Groupings::from_raw(raw_groupings, fbas)
            },
            None => unreached(),
        }
    }
}

/// Of two different texts one comes before the other.
pub proof fn lemma_text_order_total(a: Seq<char>, b: Seq<char>, from: int)
    requires
        0 <= from <= a.len(),
        from <= b.len(),
        a.take(from) == b.take(from),
    ensures
        text_before_from(a, b, from) || text_before_from(b, a, from) || a == b,
    decreases a.len() - from,
{
    if from < a.len() && from < b.len() {
        if a[from] == b[from] {
            assert(a.take(from + 1) =~= a.take(from).push(a[from]));
            assert(b.take(from + 1) =~= b.take(from).push(b[from]));
            lemma_text_order_total(a, b, from + 1);
        } else {
            assert((a[from] as u32) != (b[from] as u32)) by {
                vstd::utf8::char_u32_cast(a[from], a[from] as u32);
                vstd::utf8::char_u32_cast(b[from], b[from] as u32);
            }
        }
    } else if from == a.len() && from == b.len() {
        assert(a.take(from) =~= a);
        assert(b.take(from) =~= b);
    }
}

/// The order of texts is transitive.
pub proof fn lemma_text_order_transitive(a: Seq<char>, b: Seq<char>, c: Seq<char>, from: int)
    requires
        0 <= from,
        text_before_from(a, b, from),
        text_before_from(b, c, from),
    ensures
        text_before_from(a, c, from),
    decreases a.len() - from,
{
    if from < a.len() && a[from] == b[from] && b[from] == c[from] {
        lemma_text_order_transitive(a, b, c, from + 1);
    }
}

/// No text comes before itself.
pub proof fn lemma_text_order_irreflexive(a: Seq<char>, from: int)
    requires
        0 <= from,
    ensures
        !text_before_from(a, a, from),
    decreases a.len() - from,
{
    if from < a.len() {
        lemma_text_order_irreflexive(a, from + 1);
    }
}

/// Whether the groups are in the order of their names, each before the
/// next. Groups in this order have different names.
pub open spec fn is_name_sorted(groups: Seq<RawGroupingModel>) -> bool {
    forall|i: int, j: int|
        0 <= i < j < groups.len() ==> text_before(groups[i].name, groups[j].name)
}

/// Adding a key keeps the groups in the order of their names, and adds no
/// name but the label.
pub proof fn lemma_add_to_group_sorted(
    groups: Seq<RawGroupingModel>,
    label: Seq<char>,
    key: Seq<char>,
)
    requires
        is_name_sorted(groups),
    ensures
        is_name_sorted(add_to_group(groups, label, key)),
        forall|k: int|
            0 <= k < add_to_group(groups, label, key).len() ==> (#[trigger] add_to_group(
                groups,
                label,
                key,
            )[k]).name == label || exists|j: int|
                0 <= j < groups.len() && (#[trigger] groups[j]).name == add_to_group(
                    groups,
                    label,
                    key,
                )[k].name,
    decreases groups.len(),
{
    let out = add_to_group(groups, label, key);
    if groups.len() == 0 {
    } else if groups.last().name == label {
        assert forall|k: int| 0 <= k < out.len() implies (#[trigger] out[k]).name == label
            || exists|j: int| 0 <= j < groups.len() && (#[trigger] groups[j]).name
            == out[k].name by {
            if k < groups.len() - 1 {
                assert(groups[k].name == out[k].name);
            }
        }
        assert forall|i: int, j: int| 0 <= i < j < out.len() implies text_before(
            out[i].name,
            out[j].name,
        ) by {
            assert(out[i].name == groups[i].name);
            assert(out[j].name == groups[j].name);
        }
    } else if text_before(groups.last().name, label) {
        assert forall|k: int| 0 <= k < out.len() implies (#[trigger] out[k]).name == label
            || exists|j: int| 0 <= j < groups.len() && (#[trigger] groups[j]).name
            == out[k].name by {
            if k < groups.len() {
                assert(groups[k].name == out[k].name);
            }
        }
        assert forall|i: int, j: int| 0 <= i < j < out.len() implies text_before(
            out[i].name,
            out[j].name,
        ) by {
            if j == groups.len() && i < groups.len() - 1 {
                assert(text_before(groups[i].name, groups[groups.len() - 1].name));
                lemma_text_order_transitive(groups[i].name, groups.last().name, label, 0);
            }
        }
    } else {
        let front = groups.drop_last();
        let mid = add_to_group(front, label, key);
        lemma_add_to_group_sorted(front, label, key);
        assert(label.take(0) =~= groups.last().name.take(0));
        lemma_text_order_total(label, groups.last().name, 0);
        assert(text_before(label, groups.last().name));
        assert forall|k: int| 0 <= k < out.len() implies (#[trigger] out[k]).name == label
            || exists|j: int| 0 <= j < groups.len() && (#[trigger] groups[j]).name
            == out[k].name by {
            if k < mid.len() {
                assert(out[k] == mid[k]);
                if mid[k].name != label {
                    let j = choose|j: int|
                        0 <= j < front.len() && (#[trigger] front[j]).name == mid[k].name;
                    assert(groups[j].name == out[k].name);
                }
            } else {
                assert(groups[groups.len() - 1].name == out[k].name);
            }
        }
        assert forall|i: int, j: int| 0 <= i < j < out.len() implies text_before(
            out[i].name,
            out[j].name,
        ) by {
            if j == out.len() - 1 {
                assert(out[i] == mid[i]);
                if mid[i].name != label {
                    let m = choose|m: int|
                        0 <= m < front.len() && (#[trigger] front[m]).name == mid[i].name;
                    assert(text_before(groups[m].name, groups[groups.len() - 1].name));
                }
            } else {
                assert(out[i] == mid[i]);
                assert(out[j] == mid[j]);
            }
        }
    }
}

/// The groups by label are in the order of their names.
pub proof fn lemma_grouped_by_label_sorted(
    keys: Seq<Seq<char>>,
    labels: Seq<Option<Seq<char>>>,
    n: int,
)
    ensures
        is_name_sorted(grouped_by_label(keys, labels, n)),
    decreases n,
{
    if n <= 0 || n > keys.len() || n > labels.len() {
    } else {
        lemma_grouped_by_label_sorted(keys, labels, n - 1);
        match labels[n - 1] {
            Some(label) => {
                lemma_add_to_group_sorted(
                    grouped_by_label(keys, labels, n - 1),
                    label,
                    keys[n - 1],
                );
            },
            None => {},
        }
    }
}

} // verus!
