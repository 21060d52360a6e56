//! JSON values as plain trees, and the text that parses to them.

use crate::text::{first_from, lemma_first_from, same_text};
use vstd::prelude::*;

verus! {

// ---- the model --------------------------------------------------------------------

/// A JSON value as a mathematical tree. Numbers carry nothing: no rule here reads them.
pub enum JsonTree {
    Null,
    Bool(bool),
    Number,
    Text(Seq<char>),
    List(Seq<JsonTree>),
    /// The members in the order in which the parsed object hands them out.
    Object(Seq<(Seq<char>, JsonTree)>),
}

/// A JSON value.
#[derive(Debug)]
pub enum Json {
    Null,
    Bool(bool),
    Number,
    Text(String),
    List(Vec<Json>),
    Object(Vec<(String, Json)>),
}

impl Json {
    /// The tree that this value stands for.
    pub open spec fn tree(self) -> JsonTree
        decreases self,
    {
        match self {
            Json::Null => JsonTree::Null,
            Json::Bool(b) => JsonTree::Bool(b),
            Json::Number => JsonTree::Number,
            Json::Text(s) => JsonTree::Text(s@),
            Json::List(items) => JsonTree::List(json_trees(items@)),
            Json::Object(members) => JsonTree::Object(member_trees(members@)),
        }
    }
}

/// The trees of a list of values.
pub open spec fn json_trees(items: Seq<Json>) -> Seq<JsonTree>
    decreases items,
{
    if items.len() == 0 {
        Seq::empty()
    } else {
        json_trees(items.drop_last()).push(items.last().tree())
    }
}

/// The names and trees of an object's members.
pub open spec fn member_trees(members: Seq<(String, Json)>) -> Seq<(Seq<char>, JsonTree)>
    decreases members,
{
    if members.len() == 0 {
        Seq::empty()
    } else {
        member_trees(members.drop_last()).push((members.last().0@, members.last().1.tree()))
    }
}

/// The tree of a list has one entry for each item.
pub proof fn lemma_json_trees(items: Seq<Json>)
    ensures
        json_trees(items).len() == items.len(),
        forall|i: int| 0 <= i < items.len() ==> #[trigger] json_trees(items)[i] == items[i].tree(),
    decreases items.len(),
{
    if items.len() > 0 {
        lemma_json_trees(items.drop_last());
    }
}

/// The tree of an object has one entry for each member.
pub proof fn lemma_member_trees(members: Seq<(String, Json)>)
    ensures
        member_trees(members).len() == members.len(),
        forall|i: int|
            0 <= i < members.len() ==> #[trigger] member_trees(members)[i] == (
                members[i].0@,
                members[i].1.tree(),
            ),
    decreases members.len(),
{
    if members.len() > 0 {
        lemma_member_trees(members.drop_last());
    }
}

// ---- what serde_json does -----------------------------------------------------------

/// The JSON value of `serde_json`.
#[verifier::external_type_specification]
#[verifier::external_body]
pub struct ExValue(serde_json::Value);

/// What a `serde_json::Value` holds.
pub uninterp spec fn value_tree(v: serde_json::Value) -> JsonTree;

/// The tree that a text parses to as JSON, if it is JSON: what `serde_json::from_str` returns.
pub uninterp spec fn json_parsed(text: Seq<char>) -> Option<JsonTree>;

/// The outermost layer of a `serde_json::Value`.
pub enum Layer<'a> {
    Null,
    Bool(bool),
    Number,
    Text(&'a String),
    List(&'a Vec<serde_json::Value>),
    Object(Vec<(&'a String, &'a serde_json::Value)>),
}

impl<'a> Layer<'a> {
    /// The tree of a value with this outermost layer.
    pub open spec fn tree(self) -> JsonTree {
        match self {
            Layer::Null => JsonTree::Null,
            Layer::Bool(b) => JsonTree::Bool(b),
            Layer::Number => JsonTree::Number,
            Layer::Text(s) => JsonTree::Text(s@),
            Layer::List(items) => JsonTree::List(
                Seq::new(items@.len(), |i: int| value_tree(items@[i])),
            ),
            Layer::Object(members) => JsonTree::Object(
                Seq::new(members@.len(), |i: int| (members@[i].0@, value_tree(*members@[i].1))),
            ),
        }
    }
}

/// `serde_json::from_str` into a `serde_json::Value`. Whether it succeeds, and with what tree, is a
/// function of the text alone, [`json_parsed`].
#[verifier::external_body]
fn parse_value(text: &str) -> (r: Option<serde_json::Value>)
    ensures
        match json_parsed(text@) {
            Some(t) => r is Some && value_tree(r->0) == t,
            None => r is None,
        },
{
    serde_json::from_str::<serde_json::Value>(text).ok()
}

/// Matching on a `serde_json::Value`: the tree of a value is made of its variant and of the trees
/// of what the variant holds, an object's members in the order of `serde_json::Map::iter`.
#[verifier::external_body]
fn open_value(v: &serde_json::Value) -> (r: Layer<'_>)
    ensures
        r.tree() == value_tree(*v),
{
    match v {
        serde_json::Value::Null => Layer::Null,
        serde_json::Value::Bool(b) => Layer::Bool(*b),
        serde_json::Value::Number(_) => Layer::Number,
        serde_json::Value::String(s) => Layer::Text(s),
        serde_json::Value::Array(items) => Layer::List(items),
        serde_json::Value::Object(members) => Layer::Object(members.iter().collect()),
    }
}

// ---- parsing ------------------------------------------------------------------------

/// The plain form of a `serde_json::Value`.
pub fn json_of(v: &serde_json::Value) -> (r: Json)
    ensures
        r.tree() == value_tree(*v),
    decreases value_tree(*v),
{
    let layer = open_value(v);
    let ghost whole = value_tree(*v);
    match layer {
        Layer::Null => Json::Null,
        Layer::Bool(b) => Json::Bool(b),
        Layer::Number => Json::Number,
        Layer::Text(s) => Json::Text(s.clone()),
        Layer::List(items) => {
            let mut out: Vec<Json> = Vec::new();
            let ghost want = Seq::new(items@.len(), |i: int| value_tree(items@[i]));
            for i in 0..items.len()
                invariant
                    whole == value_tree(*v),
                    whole == JsonTree::List(want),
                    want == Seq::new(items@.len(), |i: int| value_tree(items@[i])),
                    json_trees(out@) == want.take(i as int),
            {
                assert(decreases_to!(whole => whole->List_0[i as int]));
                let item = json_of(&items[i]);
                let ghost o = out@;
                out.push(item);
                assert(out@.drop_last() == o);
                assert(want.take(i + 1) == want.take(i as int).push(want[i as int]));
            }
            assert(want.take(items@.len() as int) == want);
            Json::List(out)
        },
        Layer::Object(members) => {
            let mut out: Vec<(String, Json)> = Vec::new();
            let ghost want = Seq::new(
                members@.len(),
                |i: int| (members@[i].0@, value_tree(*members@[i].1)),
            );
            for i in 0..members.len()
                invariant
                    whole == value_tree(*v),
                    whole == JsonTree::Object(want),
                    want == Seq::new(
                        members@.len(),
                        |i: int| (members@[i].0@, value_tree(*members@[i].1)),
                    ),
                    member_trees(out@) == want.take(i as int),
            {
                assert(decreases_to!(whole => whole->Object_0[i as int].1));
                let name = members[i].0.clone();
                let item = json_of(members[i].1);
                let ghost o = out@;
                out.push((name, item));
                assert(out@.drop_last() == o);
                assert(want.take(i + 1) == want.take(i as int).push(want[i as int]));
            }
            assert(want.take(members@.len() as int) == want);
            Json::Object(out)
        },
    }
}

/// The tree of a value, if there is one.
pub open spec fn opt_tree(v: Option<Json>) -> Option<JsonTree> {
    match v {
        Some(j) => Some(j.tree()),
        None => None,
    }
}

/// The value that `text` parses to, or `None` where it is not JSON.
pub fn parse_json(text: &str) -> (r: Option<Json>)
    ensures
        opt_tree(r) == json_parsed(text@),
{
    match parse_value(text) {
        Some(v) => Some(json_of(&v)),
        None => None,
    }
}

// ---- reading --------------------------------------------------------------------------

/// Whether a member has this name.
pub open spec fn has_name(name: Seq<char>) -> spec_fn((Seq<char>, JsonTree)) -> bool {
    |m: (Seq<char>, JsonTree)| m.0 == name
}

/// The first member of an object with this name.
pub open spec fn member(t: JsonTree, name: Seq<char>) -> Option<JsonTree> {
    match t {
        JsonTree::Object(members) => match first_from(members, has_name(name), 0) {
            Some(i) => Some(members[i].1),
            None => None,
        },
        _ => None,
    }
}

/// Whether the member at a position is the first with this name.
pub open spec fn first_named(members: Seq<(Seq<char>, JsonTree)>, k: int, name: Seq<char>) -> bool {
    0 <= k < members.len() && members[k].0 == name && forall|j: int|
        0 <= j < k ==> (#[trigger] members[j]).0 != name
}

/// The member of an object under a name is the first with that name, and there is none only where no member
/// has it; what is no object has no members.
pub proof fn members_are_found_by_name(t: JsonTree, name: Seq<char>)
    ensures
        match t {
            JsonTree::Object(members) => match member(t, name) {
                Some(v) => exists|k: int|
                    #[trigger] first_named(members, k, name) && members[k].1 == v,
                None => forall|k: int|
                    0 <= k < members.len() ==> (#[trigger] members[k]).0 != name,
            },
            _ => member(t, name) is None,
        },
        member_text(t, name) == match member(t, name) {
            Some(JsonTree::Text(s)) => Some(s),
            _ => None,
        },
{
    if let JsonTree::Object(members) = t {
        let named = has_name(name);
        lemma_first_from(members, named, 0);
        match first_from(members, named, 0) {
            Some(k) => {
                assert(named(members[k]));
                assert forall|j: int| 0 <= j < k implies (#[trigger] members[j]).0 != name by {
                    assert(!named(members[j]));
                }
                assert(first_named(members, k, name));
                assert(member(t, name) == Some(members[k].1));
            },
            None => {
                assert forall|k: int| 0 <= k < members.len() implies (#[trigger] members[k]).0
                    != name by {
                    assert(!named(members[k]));
                }
                assert(member(t, name) is None);
            },
        }
    }
}

/// The text of the member with this name, where it is a text.
pub open spec fn member_text(t: JsonTree, name: Seq<char>) -> Option<Seq<char>> {
    match member(t, name) {
        Some(JsonTree::Text(s)) => Some(s),
        _ => None,
    }
}

impl Json {
    /// The text of the member with this name, where it is a text.
    pub fn text_of(&self, name: &str) -> (r: Option<&String>)
        ensures
            match r {
                Some(s) => member_text(self.tree(), name@) == Some(s@),
                None => member_text(self.tree(), name@) is None,
            },
    {
        match self {
            Json::Object(members) => {
                let ghost trees = member_trees(members@);
                let ghost named = has_name(name@);
                proof {
                    lemma_member_trees(members@);
                }
                for i in 0..members.len()
                    invariant
                        trees == member_trees(members@),
                        trees.len() == members@.len(),
                        forall|k: int|
                            0 <= k < members@.len() ==> #[trigger] trees[k] == (
                                members@[k].0@,
                                members@[k].1.tree(),
                            ),
                        named == has_name(name@),
                        self.tree() == JsonTree::Object(trees),
                        first_from(trees, named, 0) == first_from(trees, named, i as int),
                {
                    assert(trees[i as int].0 == members@[i as int].0@);
                    if same_text(members[i].0.as_str(), name) {
                        return match &members[i].1 {
                            Json::Text(s) => Some(s),
                            _ => None,
                        };
                    }
                }
                None
            },
            _ => None,
        }
    }
}

} // verus!
