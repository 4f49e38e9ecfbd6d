//! JSON documents: what the parsers read of them, and reading one from its text.

use serde_json::Value;
use vstd::prelude::*;

use crate::text;

verus! {

/// A JSON document.
#[derive(Debug, PartialEq, Eq)]
pub enum Json {
    Null,
    Bool(bool),
    /// A number, where it is a whole one that fits in 64 bits without a sign.
    Number(Option<u64>),
    Text(String),
    Array(Vec<Json>),
    /// The members of an object, each with its name.
    Object(Vec<(String, Json)>),
}

/// What a document says.
pub enum JsonTree {
    Null,
    Bool(bool),
    Number(Option<u64>),
    Text(Seq<char>),
    Array(Seq<JsonTree>),
    Object(Seq<(Seq<char>, JsonTree)>),
}

/// What the documents of `items` say.
pub open spec fn trees(items: Seq<Json>) -> Seq<JsonTree>
    decreases items,
{
    if items.len() == 0 {
        Seq::empty()
    } else {
        trees(items.drop_last()).push(items.last().tree())
    }
}

/// What the members of an object say.
pub open spec fn member_trees(members: Seq<(String, Json)>) -> Seq<(Seq<char>, JsonTree)>
    decreases members,
{
    if members.len() == 0 {
        Seq::empty()
    } else {
        member_trees(members.drop_last()).push((members.last().0@, members.last().1.tree()))
    }
}

impl Json {
    /// What the document says.
    pub open spec fn tree(self) -> JsonTree
        decreases self,
    {
        match self {
            Json::Null => JsonTree::Null,
            Json::Bool(b) => JsonTree::Bool(b),
            Json::Number(n) => JsonTree::Number(n),
            Json::Text(s) => JsonTree::Text(s@),
            Json::Array(items) => JsonTree::Array(trees(items@)),
            Json::Object(members) => JsonTree::Object(member_trees(members@)),
        }
    }
}

impl View for Json {
    type V = JsonTree;

    open spec fn view(&self) -> JsonTree {
        self.tree()
    }
}

/// The value of the first member called `name`.
pub open spec fn member_of(members: Seq<(Seq<char>, JsonTree)>, name: Seq<char>) -> Option<JsonTree>
    decreases members.len(),
{
    if members.len() == 0 {
        None
    } else if members.first().0 == name {
        Some(members.first().1)
    } else {
        member_of(members.drop_first(), name)
    }
}

impl JsonTree {
    /// The member called `name`, where the document is an object that has one.
    pub open spec fn member(self, name: Seq<char>) -> Option<JsonTree> {
        match self {
            JsonTree::Object(members) => member_of(members, name),
            _ => None,
        }
    }

    /// The text, where the document is one.
    pub open spec fn text(self) -> Option<Seq<char>> {
        match self {
            JsonTree::Text(s) => Some(s),
            _ => None,
        }
    }

    /// The items, where the document is an array.
    pub open spec fn items(self) -> Option<Seq<JsonTree>> {
        match self {
            JsonTree::Array(items) => Some(items),
            _ => None,
        }
    }

    /// The number, where the document is a whole one that fits in 64 bits without a sign.
    pub open spec fn number(self) -> Option<u64> {
        match self {
            JsonTree::Number(n) => n,
            _ => None,
        }
    }

    /// The text of the member called `name`.
    pub open spec fn text_member(self, name: Seq<char>) -> Option<Seq<char>> {
        match self.member(name) {
            Some(value) => value.text(),
            None => None,
        }
    }

    /// The number of the member called `name`.
    pub open spec fn number_member(self, name: Seq<char>) -> Option<u64> {
        match self.member(name) {
            Some(value) => value.number(),
            None => None,
        }
    }

    /// The items of the member called `name`.
    pub open spec fn items_member(self, name: Seq<char>) -> Option<Seq<JsonTree>> {
        match self.member(name) {
            Some(value) => value.items(),
            None => None,
        }
    }
}

/// A member is found by its name, the first where several have it, and none is missed.
pub proof fn law_first_member_of_a_name(members: Seq<(Seq<char>, JsonTree)>, name: Seq<char>)
    ensures
        match member_of(members, name) {
            Some(value) => exists|i: int|
                0 <= i < members.len() && #[trigger] members[i] == (name, value) && (forall|j: int|
                    0 <= j < i ==> (#[trigger] members[j]).0 != name),
            None => forall|j: int| 0 <= j < members.len() ==> (#[trigger] members[j]).0 != name,
        },
    decreases members.len(),
{
    if members.len() > 0 {
        if members[0].0 == name {
            assert(members[0] == (name, member_of(members, name)->0));
        } else {
            let rest = members.drop_first();
            law_first_member_of_a_name(rest, name);
            match member_of(rest, name) {
                Some(value) => {
                    let i = choose|i: int|
                        0 <= i < rest.len() && #[trigger] rest[i] == (name, value) && (forall|j: int|
                            0 <= j < i ==> (#[trigger] rest[j]).0 != name);
                    assert(members[i + 1] == (name, value));
                    assert forall|j: int| 0 <= j < i + 1 implies (
                    #[trigger] members[j]).0 != name by {
                        if j > 0 {
                            assert(rest[j - 1] == members[j]);
                        }
                    }
                },
                None => {
                    assert forall|j: int| 0 <= j < members.len() implies (
                    #[trigger] members[j]).0 != name by {
                        if j > 0 {
                            assert(rest[j - 1] == members[j]);
                        }
                    }
                },
            }
        }
    }
}

/// A document is read only as what it is: texts as texts, arrays as arrays, whole numbers
/// that fit as numbers, and only objects have members.
pub proof fn law_documents_are_read_as_what_they_are(tree: JsonTree, name: Seq<char>)
    ensures
        tree.text() == match tree {
            JsonTree::Text(s) => Some(s),
            _ => None,
        },
        tree.items() == match tree {
            JsonTree::Array(items) => Some(items),
            _ => None,
        },
        tree.number() == match tree {
            JsonTree::Number(Some(n)) => Some(n),
            _ => None,
        },
        tree.member(name) == match tree {
            JsonTree::Object(members) => member_of(members, name),
            _ => None,
        },
        forall|s: Seq<char>|
            tree.text_member(name) == Some(s) <==> tree.member(name) == Some(JsonTree::Text(s)),
        forall|items: Seq<JsonTree>|
            tree.items_member(name) == Some(items) <==> tree.member(name) == Some(
                JsonTree::Array(items),
            ),
        forall|n: u64|
            tree.number_member(name) == Some(n) <==> tree.member(name) == Some(
                JsonTree::Number(Some(n)),
            ),
{
}

/// A member is a smaller document than the object that holds it.
pub proof fn lemma_member_is_smaller(members: Seq<(Seq<char>, JsonTree)>, name: Seq<char>)
    ensures
        member_of(members, name) matches Some(value) ==> decreases_to!(members => value),
    decreases members.len(),
{
    if members.len() > 0 {
        if members.first().0 == name {
            assert(decreases_to!(members => members[0]));
            assert(decreases_to!(members[0] => members[0].1));
        } else {
            lemma_member_is_smaller(members.drop_first(), name);
            assert(decreases_to!(members => members.subrange(1, members.len() as int)));
        }
    }
}

/// The items of a member are smaller than the document.
pub proof fn lemma_items_are_smaller(tree: JsonTree, name: Seq<char>)
    ensures
        tree.items_member(name) matches Some(items) ==> decreases_to!(tree => items),
{
    if let JsonTree::Object(members) = tree {
        lemma_member_is_smaller(members, name);
        assert(decreases_to!(tree => tree->Object_0));
        if let Some(value) = member_of(members, name) {
            if let JsonTree::Array(items) = value {
                assert(decreases_to!(value => value->Array_0));
            }
        }
    }
}

/// Each document of a list says what stands at its place in `trees`.
pub proof fn lemma_trees(items: Seq<Json>)
    ensures
        trees(items).len() == items.len(),
        forall|i: int| 0 <= i < items.len() ==> #[trigger] trees(items)[i] == items[i]@,
    decreases items.len(),
{
    if items.len() > 0 {
        lemma_trees(items.drop_last());
    }
}

/// Each member says what stands at its place in `member_trees`.
pub proof fn lemma_member_trees(members: Seq<(String, Json)>)
    ensures
        member_trees(members).len() == members.len(),
        forall|i: int|
            0 <= i < members.len() ==> #[trigger] member_trees(members)[i] == (
                members[i].0@,
                members[i].1@,
            ),
    decreases members.len(),
{
    if members.len() > 0 {
        lemma_member_trees(members.drop_last());
    }
}

/// What serde_json reads from a text: the document that the text is, or none where it is
/// no JSON document.
pub uninterp spec fn document_of(source: Seq<char>) -> Option<JsonTree>;

impl Json {
    /// The document that `source` is. Calls `serde_json::from_str` for a
    /// `serde_json::Value`, takes a failure for none, and turns each kind of value into
    /// its counterpart here, a number into what `as_u64` gives for it. The parts of an
    /// array or object are read from their own text in the same way. The result is
    /// claimed to depend on `source` alone.
    #[verifier::external_body]
    pub(crate) fn parse(source: &str) -> (r: Option<Json>)
        ensures
            match r {
                Some(document) => document_of(source@) == Some(document@),
                None => document_of(source@) is None,
            },
    {
        Some(match serde_json::from_str(source).ok()? {
            Value::Null => Json::Null,
            Value::Bool(b) => Json::Bool(b),
            Value::Number(n) => Json::Number(n.as_u64()),
            Value::String(s) => Json::Text(s),
            Value::Array(items) => {
                let parts = items.iter().map(|v| Json::parse(&v.to_string()));
                Json::Array(parts.collect::<Option<_>>()?)
            },
            Value::Object(members) => {
                let parts = members.iter().map(|(k, v)| Some((k.clone(), Json::parse(&v.to_string())?)));
                Json::Object(parts.collect::<Option<_>>()?)
            },
        })
    }

    /// The member called `name`, where the document is an object that has one.
    pub fn get(&self, name: &str) -> (r: Option<&Json>)
        ensures
            match r {
                Some(value) => self@.member(name@) == Some(value@),
                None => self@.member(name@) is None,
            },
    {
        match self {
            Json::Object(members) => {
                let ghost all = member_trees(members@);
                proof {
                    lemma_member_trees(members@);
                }
                assert(all.skip(0) == all);
                let mut i: usize = 0;
                while i < members.len()
                    invariant
                        i <= members.len(),
                        all == member_trees(members@),
                        self@ == JsonTree::Object(all),
                        all.len() == members.len(),
                        forall|k: int|
                            0 <= k < members.len() ==> #[trigger] all[k] == (
                                members@[k].0@,
                                members@[k].1@,
                            ),
                        member_of(all, name@) == member_of(all.skip(i as int), name@),
                    decreases members.len() - i,
                {
                    let ghost rest = all.skip(i as int);
                    assert(rest.first() == all[i as int]);
                    assert(rest.drop_first() == all.skip(i + 1));
                    if text::same(members[i].0.as_str(), name) {
                        return Some(&members[i].1);
                    }
                    i = i + 1;
                }
                None
            },
            _ => None,
        }
    }

    /// The text, where the document is one.
    pub fn as_str(&self) -> (r: Option<&str>)
        ensures
            match r {
                Some(s) => self@.text() == Some(s@),
                None => self@.text() is None,
            },
    {
        match self {
            Json::Text(s) => Some(s.as_str()),
            _ => None,
        }
    }

    /// The items, where the document is an array.
    pub fn as_array(&self) -> (r: Option<&Vec<Json>>)
        ensures
            match r {
                Some(items) => self@.items() == Some(trees(items@)),
                None => self@.items() is None,
            },
    {
        match self {
            Json::Array(items) => Some(items),
            _ => None,
        }
    }

    /// The number, where the document is a whole one that fits in 64 bits without a sign.
    pub fn as_u64(&self) -> (r: Option<u64>)
        ensures
            r == self@.number(),
    {
        match self {
            Json::Number(n) => *n,
            _ => None,
        }
    }

    /// The text of the member called `name`.
    pub fn text_member(&self, name: &str) -> (r: Option<&str>)
        ensures
            match r {
                Some(s) => self@.text_member(name@) == Some(s@),
                None => self@.text_member(name@) is None,
            },
    {
        match self.get(name) {
            Some(value) => value.as_str(),
            None => None,
        }
    }

    /// The number of the member called `name`.
    pub fn number_member(&self, name: &str) -> (r: Option<u64>)
        ensures
            r == self@.number_member(name@),
    {
        match self.get(name) {
            Some(value) => value.as_u64(),
            None => None,
        }
    }

    /// The items of the member called `name`.
    pub fn items_member(&self, name: &str) -> (r: Option<&Vec<Json>>)
        ensures
            match r {
                Some(items) => self@.items_member(name@) == Some(trees(items@)),
                None => self@.items_member(name@) is None,
            },
    {
        match self.get(name) {
            Some(value) => value.as_array(),
            None => None,
        }
    }
}

} // verus!
