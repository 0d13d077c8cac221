//! JSON values, as far as the datasets need them.

use crate::error::OldeError;
use crate::text::same_str;
use vstd::prelude::*;
use vstd::string::*;

verus! {

/// A JSON value.
#[derive(Debug, PartialEq, Eq)]
pub enum Json {
    /// `null`.
    Null,
    /// `true` or `false`.
    Bool(bool),
    /// A number, as it is written.
    Number(String),
    /// A string.
    Text(String),
    /// An array.
    List(Vec<Json>),
    /// An object: its members.
    Object(Vec<Member>),
}

/// A member of an object.
#[derive(Debug, PartialEq, Eq)]
pub struct Member {
    /// The name of the member.
    pub name: String,
    /// Its value.
    pub value: Json,
}

/// What a `Json` holds.
pub enum JsonView {
    Null,
    Bool(bool),
    Number(Seq<char>),
    Text(Seq<char>),
    List(Seq<JsonView>),
    Object(Seq<Seq<char>>, Seq<JsonView>),
}

impl View for Json {
    type V = JsonView;

    open spec fn view(&self) -> JsonView
        decreases self,
    {
        match self {
            Json::Null => JsonView::Null,
            Json::Bool(b) => JsonView::Bool(*b),
            Json::Number(n) => JsonView::Number(n@),
            Json::Text(s) => JsonView::Text(s@),
            Json::List(items) => JsonView::List(
                Seq::new(
                    items@.len(),
                    |i: int|
                        if 0 <= i < items@.len() {
                            items@[i].view()
                        } else {
                            JsonView::Null
                        },
                ),
            ),
            Json::Object(members) => JsonView::Object(
                Seq::new(members@.len(), |i: int| members@[i].name@),
                Seq::new(
                    members@.len(),
                    |i: int|
                        if 0 <= i < members@.len() {
                            members@[i].value.view()
                        } else {
                            JsonView::Null
                        },
                ),
            ),
        }
    }
}

/// `serde_json::Error`, the error of `serde_json`. It is carried through
/// unread.
#[verifier::external_type_specification]
#[verifier::external_body]
pub struct ExJsonError(serde_json::Error);

/// `serde_json::Value`, a JSON value as `serde_json` holds it. It is read
/// through `split` only.
#[verifier::external_type_specification]
#[verifier::external_body]
pub struct ExJsonValue(serde_json::Value);

/// The JSON value that a text stands for, as `serde_json::from_slice` reads
/// it; none where the text is no JSON.
pub uninterp spec fn json_parse(bytes: Seq<u8>) -> Option<JsonView>;

/// What a `serde_json::Value` holds, level by level as `split` tells it.
pub uninterp spec fn value_tree(value: serde_json::Value) -> JsonView;

/// Reads a text as JSON.
///
/// Calls `serde_json::from_slice` for a `serde_json::Value`. Whether the
/// text is JSON, and which value it stands for, depends on the text alone
/// and is left to `serde_json`.
#[verifier::external_body]
fn read_value(bytes: &[u8]) -> (r: Result<serde_json::Value, serde_json::Error>)
    ensures
        match r {
            Ok(value) => json_parse(bytes@) == Some(value_tree(value)),
            Err(_) => json_parse(bytes@) is None,
        },
{
    serde_json::from_slice::<serde_json::Value>(bytes)
}

/// One level of a value of `serde_json`: which kind of value it is, and
/// what it holds at once.
enum Shape<'a> {
    Null,
    Bool(bool),
    Number(String),
    Text(&'a String),
    List(&'a Vec<serde_json::Value>),
    Object(Vec<(&'a String, &'a serde_json::Value)>),
}

/// What each of the values holds.
pub open spec fn value_trees(values: Seq<serde_json::Value>) -> Seq<JsonView> {
    values.map_values(|v: serde_json::Value| value_tree(v))
}

/// Tells the variants of `serde_json::Value` apart, and hands out what the
/// variant holds: a number as the `Display` of `serde_json::Number` writes
/// it, the members of an object in the order in which the `iter` of
/// `serde_json::Map` walks them.
///
/// The contract says no more than that the value holds what is handed out:
/// a scalar itself, and for an array or an object what each part holds.
#[verifier::external_body]
fn split<'a>(value: &'a serde_json::Value) -> (shape: Shape<'a>)
    ensures
        value_tree(*value) == match shape {
            Shape::Null => JsonView::Null,
            Shape::Bool(b) => JsonView::Bool(b),
            Shape::Number(n) => JsonView::Number(n@),
            Shape::Text(s) => JsonView::Text(s@),
            Shape::List(items) => JsonView::List(value_trees(items@)),
            Shape::Object(members) => JsonView::Object(
                members@.map_values(|m: (&String, &serde_json::Value)| m.0@),
                members@.map_values(|m: (&String, &serde_json::Value)| value_tree(*m.1)),
            ),
        },
{
    match value {
        serde_json::Value::Null => Shape::Null,
        serde_json::Value::Bool(b) => Shape::Bool(*b),
        serde_json::Value::Number(n) => Shape::Number(n.to_string()),
        serde_json::Value::String(s) => Shape::Text(s),
        serde_json::Value::Array(items) => Shape::List(items),
        serde_json::Value::Object(members) => Shape::Object(members.iter().collect()),
    }
}

/// The `Json` that holds what a value of `serde_json` holds.
fn tree_of(value: &serde_json::Value) -> (json: Json)
    ensures
        json@ == value_tree(*value),
    decreases value_tree(*value),
{
    match split(value) {
        Shape::Null => Json::Null,
        Shape::Bool(b) => Json::Bool(b),
        Shape::Number(n) => Json::Number(n),
        Shape::Text(s) => Json::Text(s.clone()),
        Shape::List(items) => {
            let ghost trees = value_trees(items@);
            let mut out: Vec<Json> = Vec::new();
            let mut i: usize = 0;
            while i < items.len()
                invariant
                    value_tree(*value) == JsonView::List(trees),
                    trees == value_trees(items@),
                    0 <= i <= items.len(),
                    out@.len() == i,
                    forall|j: int| 0 <= j < i ==> (#[trigger] out@[j])@ == trees[j],
                decreases items.len() - i,
            {
                assert(trees[i as int] == value_tree(items@[i as int]));
                assert(decreases_to!(value_tree(*value) => value_tree(*value)->List_0));
                assert(decreases_to!(trees => trees[i as int]));
                out.push(tree_of(&items[i]));
                i += 1;
            }
            proof {
                lemma_list_view(out);
                assert(items_view(out@) =~= trees);
            }
            Json::List(out)
        },
        Shape::Object(members) => {
            let ghost names = members@.map_values(|m: (&String, &serde_json::Value)| m.0@);
            let ghost trees = members@.map_values(
                |m: (&String, &serde_json::Value)| value_tree(*m.1),
            );
            let mut out: Vec<Member> = Vec::new();
            let mut i: usize = 0;
            while i < members.len()
                invariant
                    value_tree(*value) == JsonView::Object(names, trees),
                    names == members@.map_values(|m: (&String, &serde_json::Value)| m.0@),
                    trees == members@.map_values(
                        |m: (&String, &serde_json::Value)| value_tree(*m.1),
                    ),
                    0 <= i <= members.len(),
                    out@.len() == i,
                    forall|j: int|
                        0 <= j < i ==> (#[trigger] out@[j]).name@ == names[j] && out@[j].value@
                            == trees[j],
                decreases members.len() - i,
            {
                assert(trees[i as int] == value_tree(*members@[i as int].1));
                assert(names[i as int] == members@[i as int].0@);
                assert(decreases_to!(value_tree(*value) => value_tree(*value)->Object_1));
                assert(decreases_to!(trees => trees[i as int]));
                let name = members[i].0.clone();
                let value = tree_of(members[i].1);
                out.push(Member { name, value });
                i += 1;
            }
            proof {
                lemma_object_view(out);
                assert(member_names(out@) =~= names);
                assert(member_values(out@) =~= trees);
            }
            Json::Object(out)
        },
    }
}

/// What a `serde_json::Error` says, by its `Display`. Nothing is claimed
/// of the words.
#[verifier::external_body]
fn error_text(error: &serde_json::Error) -> (text: String) {
    error.to_string()
}

/// Reads a text as JSON. A text that is no JSON is a failure.
pub fn parse(bytes: &[u8]) -> (r: Result<Json, OldeError>)
    ensures
        match json_parse(bytes@) {
            Some(json) => r matches Ok(j) && j@ == json,
            None => r matches Err(OldeError::JSONError(_)),
        },
{
    match read_value(bytes) {
        Ok(value) => Ok(tree_of(&value)),
        Err(e) => Err(OldeError::JSONError(error_text(&e))),
    }
}

/// The names of the members of an object.
pub open spec fn member_names(members: Seq<Member>) -> Seq<Seq<char>> {
    Seq::new(members.len(), |i: int| members[i].name@)
}

/// The values of the members of an object.
pub open spec fn member_values(members: Seq<Member>) -> Seq<JsonView> {
    Seq::new(members.len(), |i: int| members[i].value@)
}

/// The items of an array, as plain values.
pub open spec fn items_view(items: Seq<Json>) -> Seq<JsonView> {
    Seq::new(items.len(), |i: int| items[i]@)
}

/// What an object holds is what its members hold.
pub proof fn lemma_object_view(members: Vec<Member>)
    ensures
        Json::Object(members)@ == JsonView::Object(
            member_names(members@),
            member_values(members@),
        ),
{
    let j = Json::Object(members);
    assert(j@ matches JsonView::Object(ns, vs) && ns =~= member_names(members@) && vs
        =~= member_values(members@));
}

/// What an array holds is what its items hold.
pub proof fn lemma_list_view(items: Vec<Json>)
    ensures
        Json::List(items)@ == JsonView::List(items_view(items@)),
{
    let j = Json::List(items);
    assert(j@ matches JsonView::List(vs) && vs =~= items_view(items@));
}

/// The first member named `name` stands at `i`.
pub open spec fn is_first_member(names: Seq<Seq<char>>, name: Seq<char>, i: int) -> bool {
    &&& 0 <= i < names.len()
    &&& names[i] == name
    &&& forall|j: int| 0 <= j < i ==> #[trigger] names[j] != name
}

/// The value of the first member named `name`; none where no member has
/// that name.
pub open spec fn member(names: Seq<Seq<char>>, values: Seq<JsonView>, name: Seq<char>) -> Option<
    JsonView,
> {
    if exists|i: int| is_first_member(names, name, i) {
        Some(values[choose|i: int| is_first_member(names, name, i)])
    } else {
        None
    }
}

/// The member at the first place of its name is the member of that name.
pub proof fn lemma_first_member(
    names: Seq<Seq<char>>,
    values: Seq<JsonView>,
    name: Seq<char>,
    i: int,
)
    requires
        is_first_member(names, name, i),
    ensures
        member(names, values, name) == Some(values[i]),
{
    let c = choose|c: int| is_first_member(names, name, c);
    if c < i {
        assert(names[c] != name);
    } else if c > i {
        assert(names[i] != name);
    }
}

/// The text of the member named `name`, which must be there and be a
/// string.
pub open spec fn required_text(names: Seq<Seq<char>>, values: Seq<JsonView>, name: Seq<char>)
    -> Option<Seq<char>> {
    match member(names, values, name) {
        Some(JsonView::Text(s)) => Some(s),
        _ => None,
    }
}

/// The text of the member named `name`, which may be missing or `null`, and
/// must be a string else. The outer `None` stands for a member of another
/// kind.
pub open spec fn optional_text(names: Seq<Seq<char>>, values: Seq<JsonView>, name: Seq<char>)
    -> Option<Option<Seq<char>>> {
    match member(names, values, name) {
        None => Some(None),
        Some(JsonView::Null) => Some(None),
        Some(JsonView::Text(s)) => Some(Some(s)),
        _ => None,
    }
}

/// The value of the first member named `name`.
pub fn find<'a>(members: &'a Vec<Member>, name: &str) -> (r: Option<&'a Json>)
    ensures
        match r {
            Some(j) => member(member_names(members@), member_values(members@), name@) == Some(j@),
            None => member(member_names(members@), member_values(members@), name@) is None,
        },
{
    let ghost ns = member_names(members@);
    let mut i: usize = 0;
    while i < members.len()
        invariant
            ns == member_names(members@),
            0 <= i <= members.len(),
            forall|j: int| 0 <= j < i ==> #[trigger] ns[j] != name@,
        decreases members.len() - i,
    {
        if same_str(members[i].name.as_str(), name) {
            proof {
                lemma_first_member(ns, member_values(members@), name@, i as int);
            }
            return Some(&members[i].value);
        }
        i += 1;
    }
    proof {
        assert forall|c: int| !is_first_member(ns, name@, c) by {
            if 0 <= c < ns.len() {
                assert(ns[c] != name@);
            }
        }
    }
    None
}

/// The failure for data that is not of the expected form.
pub fn malformed(what: &str) -> (e: OldeError)
    ensures
        e matches OldeError::JSONError(s) && s@ == what@,
{
    OldeError::JSONError(what.to_owned())
}

/// The failure for a member that is not as it must be.
fn bad_member(name: &str, must: &str) -> (e: OldeError)
    ensures
        e matches OldeError::JSONError(s) && s@ == "member `"@ + name@ + "` "@ + must@,
{
    let mut words = "member `".to_owned();
    words.append(name);
    words.append("` ");
    words.append(must);
    OldeError::JSONError(words)
}

/// The text of the member named `name`; a failure where it is missing or no
/// string.
pub fn text_of(members: &Vec<Member>, name: &str) -> (r: Result<String, OldeError>)
    ensures
        match required_text(member_names(members@), member_values(members@), name@) {
            Some(s) => r matches Ok(t) && t@ == s,
            None => r matches Err(OldeError::JSONError(_)),
        },
{
    match find(members, name) {
        Some(Json::Text(s)) => Ok(s.clone()),
        _ => Err(bad_member(name, "must be a string")),
    }
}

/// The text of the member named `name`, if there is one that is not
/// `null`; a failure where it is neither `null` nor a string.
pub fn optional_text_of(members: &Vec<Member>, name: &str) -> (r: Result<
    Option<String>,
    OldeError,
>)
    ensures
        match optional_text(member_names(members@), member_values(members@), name@) {
            Some(Some(s)) => r matches Ok(Some(t)) && t@ == s,
            Some(None) => r matches Ok(None),
            None => r matches Err(OldeError::JSONError(_)),
        },
{
    match find(members, name) {
        None => Ok(None),
        Some(Json::Null) => Ok(None),
        Some(Json::Text(s)) => Ok(Some(s.clone())),
        _ => Err(bad_member(name, "must be a string or null")),
    }
}

} // verus!
