//! JSON values, as the `serde_json` crate reads and writes them.
//!
//! A value is held here in a form that says what the library reads of it:
//! text, a boolean, an object of named values, and everything else.

use crate::files::NUL;
use crate::frcode::TERMINATOR;
use serde_json::Value;
use vstd::prelude::*;
use vstd::string::StringExecFns;

verus! {

/// A JSON value of the `serde_json` crate.
#[verifier::external_type_specification]
#[verifier::external_body]
pub struct ExValue(Value);

/// A named value of an object.
pub struct Member {
    pub name: String,
    pub value: Json,
}

/// A JSON value, as far as the library looks into it.
pub enum Json {
    /// A string.
    Text(String),
    /// `true` or `false`.
    Boolean(bool),
    /// An object: its members in their order.
    Object(Vec<Member>),
    /// Any other value.
    Other(Value),
}

/// A named value as a mathematical value.
pub struct MemberView {
    pub name: Seq<char>,
    pub value: JsonView,
}

/// A JSON value as a mathematical value.
pub enum JsonView {
    Text(Seq<char>),
    Boolean(bool),
    Object(Seq<MemberView>),
    Other(Value),
}

/// The views of the members of an object.
pub open spec fn members_view(members: Seq<Member>) -> Seq<MemberView>
    decreases members,
{
    Seq::new(
        members.len(),
        |i: int|
            if 0 <= i < members.len() {
                MemberView { name: members[i].name@, value: json_view(members[i].value) }
            } else {
                MemberView { name: Seq::empty(), value: JsonView::Boolean(false) }
            },
    )
}

/// The view of a JSON value.
pub open spec fn json_view(json: Json) -> JsonView
    decreases json,
{
    match json {
        Json::Text(text) => JsonView::Text(text@),
        Json::Boolean(b) => JsonView::Boolean(b),
        Json::Object(members) => JsonView::Object(members_view(members@)),
        Json::Other(value) => JsonView::Other(value),
    }
}

impl View for Json {
    type V = JsonView;

    open spec fn view(&self) -> JsonView {
        json_view(*self)
    }
}

/// Whether `a` comes before `b` in the order of strings: character by
/// character, and a text before every longer text that it begins.
pub open spec fn text_before(a: Seq<char>, b: Seq<char>) -> bool
    decreases a.len(),
{
    if b.len() == 0 {
        false
    } else if a.len() == 0 {
        true
    } else if a[0] != b[0] {
        (a[0] as u32) < (b[0] as u32)
    } else {
        text_before(a.drop_first(), b.drop_first())
    }
}

/// Whether a value is made of text, booleans and objects alone, and the
/// members of every object stand in the order of their names, no name
/// twice.
pub open spec fn well_keyed(json: JsonView) -> bool
    decreases json,
{
    match json {
        JsonView::Text(_) => true,
        JsonView::Boolean(_) => true,
        JsonView::Object(members) => {
            &&& forall|i: int, j: int|
                0 <= i < j < members.len() ==> text_before(
                    (#[trigger] members[i]).name,
                    (#[trigger] members[j]).name,
                )
            &&& forall|i: int|
                0 <= i < members.len() ==> well_keyed((#[trigger] members[i]).value)
        },
        JsonView::Other(_) => false,
    }
}

/// The deepest nesting of objects from which `serde_json` reads a value
/// back: its reader counts down from 128 as it enters an object, and gives
/// up when the count is used up.
pub const MAX_DEPTH: usize = 127;

/// Whether no object of a value is nested more than `limit` deep, the
/// value itself counted.
pub open spec fn nested_within(json: JsonView, limit: nat) -> bool
    decreases json,
{
    match json {
        JsonView::Object(members) => {
            &&& limit > 0
            &&& forall|i: int|
                0 <= i < members.len() ==> nested_within(
                    (#[trigger] members[i]).value,
                    (limit - 1) as nat,
                )
        },
        _ => true,
    }
}

/// A value that is nested within a limit is nested within every greater
/// limit.
pub proof fn lemma_nesting_grows(json: JsonView, limit: nat, greater: nat)
    requires
        nested_within(json, limit),
        limit <= greater,
    ensures
        nested_within(json, greater),
    decreases json,
{
    match json {
        JsonView::Object(members) => {
            assert forall|i: int| 0 <= i < members.len() implies nested_within(
                (#[trigger] members[i]).value,
                (greater - 1) as nat,
            ) by {
                lemma_nesting_grows(members[i].value, (limit - 1) as nat, (greater - 1) as nat);
            }
        },
        _ => {},
    }
}

/// Whether a value is read back from its text as it is: it is made of
/// text, booleans and objects alone, the members of every object stand
/// in the order of their names, no name twice, and no object is nested
/// more than [`MAX_DEPTH`] deep.
pub open spec fn reads_back(json: JsonView) -> bool {
    well_keyed(json) && nested_within(json, MAX_DEPTH as nat)
}

/// The first of the members that has the name `name`.
pub open spec fn member_of(members: Seq<MemberView>, name: Seq<char>) -> Option<JsonView>
    decreases members.len(),
{
    if members.len() == 0 {
        None
    } else if members[0].name == name {
        Some(members[0].value)
    } else {
        member_of(members.drop_first(), name)
    }
}

/// The text that `serde_json` writes for a value.
pub uninterp spec fn json_text(json: JsonView) -> Seq<u8>;

/// The value that `serde_json` reads from a text, if the text is JSON.
pub uninterp spec fn parsed_json(text: Seq<u8>) -> Option<JsonView>;

/// Puts a value of `serde_json` together, variant by variant.
#[verifier::external_body]
fn to_value(json: Json) -> Value {
    match json {
        Json::Text(text) => Value::String(text),
        Json::Boolean(b) => Value::Bool(b),
        Json::Object(members) => Value::Object(members.into_iter().map(|m| (m.name, to_value(m.value))).collect()),
        Json::Other(value) => value,
    }
}

/// Takes a value of `serde_json` apart, variant by variant: strings,
/// booleans and objects keep what they hold, and any other value is kept
/// whole.
#[verifier::external_body]
fn from_value(value: Value) -> Json {
    match value {
        Value::String(text) => Json::Text(text),
        Value::Bool(b) => Json::Boolean(b),
        Value::Object(map) => Json::Object(map.into_iter().map(|(name, v)| Member { name, value: from_value(v) }).collect()),
        other => Json::Other(other),
    }
}

/// Puts the value together and calls `serde_json::to_vec`. The text holds
/// no zero byte and no line feed: the compact writer puts no white space
/// between tokens and writes every character below U+0020 of a string as
/// an escape. A value of text, booleans and objects whose members stand in
/// the order of their names, with no object nested more than
/// [`MAX_DEPTH`] deep, is read back from its text as it was: an object of
/// `serde_json` keeps its members in that order, a string is read back
/// from its escapes, and the reader follows objects that deep.
#[verifier::external_body]
fn print_json(json: Json) -> (text: Vec<u8>)
    ensures
        text@ == json_text(json@),
        forall|i: int| 0 <= i < text@.len() ==> text@[i] != NUL && text@[i] != TERMINATOR,
        reads_back(json@) ==> parsed_json(text@) == Some(json@),
{
    serde_json::to_vec(&to_value(json)).unwrap_or_default()
}

/// Calls `serde_json::from_slice` for a value and takes it apart: the
/// value of the text, or nothing when the text is no JSON.
#[verifier::external_body]
fn parse_json(text: &[u8]) -> (r: Option<Json>)
    ensures
        match r {
            Some(json) => parsed_json(text@) == Some(json@),
            None => parsed_json(text@) is None,
        },
{
    serde_json::from_slice::<Value>(text).ok().map(from_value)
}

impl Json {
    /// Writes the value as JSON text without white space. The text holds
    /// no zero byte and no line feed. A value of text, booleans and
    /// objects in the order of their names, nested no deeper than
    /// [`MAX_DEPTH`], is read back from it.
    pub fn write(self) -> (text: Vec<u8>)
        ensures
            text@ == json_text(self@),
            forall|i: int| 0 <= i < text@.len() ==> text@[i] != NUL && text@[i] != TERMINATOR,
            reads_back(self@) ==> parsed_json(text@) == Some(self@),
    {
        print_json(self)
    }

    /// Reads a value from JSON text. Gives nothing exactly when the text
    /// is no JSON.
    pub fn read(text: &[u8]) -> (r: Option<Json>)
        ensures
            match r {
                Some(json) => parsed_json(text@) == Some(json@),
                None => parsed_json(text@) is None,
            },
    {
        parse_json(text)
    }

    /// Makes the member of an object that holds a text.
    pub fn text_member(name: &str, text: &str) -> (member: Member)
        ensures
            member.name@ == name@,
            member.value@ == JsonView::Text(text@),
    {
        Member { name: String::from_str(name), value: Json::Text(String::from_str(text)) }
    }
}

/// Finds the first of the members that has the name `name`.
pub fn member<'a>(members: &'a Vec<Member>, name: &str) -> (r: Option<&'a Json>)
    ensures
        match member_of(members_view(members@), name@) {
            Some(value) => r is Some && r->0@ == value,
            None => r is None,
        },
{
    let wanted = String::from_str(name);
    let ghost all = members_view(members@);
    let mut i: usize = 0;
    assert(all.subrange(0, all.len() as int) =~= all);
    while i < members.len()
        invariant
            i <= members@.len(),
            wanted@ == name@,
            all == members_view(members@),
            member_of(all.subrange(i as int, all.len() as int), name@) == member_of(all, name@),
        decreases members.len() - i,
    {
        let ghost rest = all.subrange(i as int, all.len() as int);
        proof {
            assert(rest[0] == all[i as int]);
            assert(rest.drop_first() =~= all.subrange(i + 1, all.len() as int));
        }
        if members[i].name == wanted {
            return Some(&members[i].value);
        }
        i += 1;
    }
    None
}

/// The text of the first member named `name`, if it holds a text.
pub open spec fn text_of_member(members: Seq<MemberView>, name: Seq<char>) -> Option<Seq<char>> {
    match member_of(members, name) {
        Some(JsonView::Text(text)) => Some(text),
        _ => None,
    }
}

/// The boolean of the first member named `name`, if it holds one.
pub open spec fn boolean_of_member(members: Seq<MemberView>, name: Seq<char>) -> Option<bool> {
    match member_of(members, name) {
        Some(JsonView::Boolean(b)) => Some(b),
        _ => None,
    }
}

/// The members of the first member named `name`, if it holds an object.
pub open spec fn object_of_member(members: Seq<MemberView>, name: Seq<char>) -> Option<
    Seq<MemberView>,
> {
    match member_of(members, name) {
        Some(JsonView::Object(inner)) => Some(inner),
        _ => None,
    }
}

/// Reads the text of the first member named `name`.
pub fn text_in(members: &Vec<Member>, name: &str) -> (r: Option<String>)
    ensures
        match text_of_member(members_view(members@), name@) {
            Some(text) => r is Some && r->0@ == text,
            None => r is None,
        },
{
    match member(members, name) {
        Some(value) => match value {
            Json::Text(text) => Some(text.clone()),
            _ => None,
        },
        None => None,
    }
}

/// Reads the boolean of the first member named `name`.
pub fn boolean_in(members: &Vec<Member>, name: &str) -> (r: Option<bool>)
    ensures
        r == boolean_of_member(members_view(members@), name@),
{
    match member(members, name) {
        Some(value) => match value {
            Json::Boolean(b) => Some(*b),
            _ => None,
        },
        None => None,
    }
}

/// Finds the members of the first member named `name`.
pub fn object_in<'a>(members: &'a Vec<Member>, name: &str) -> (r: Option<&'a Vec<Member>>)
    ensures
        match object_of_member(members_view(members@), name@) {
            Some(inner) => r is Some && members_view(r->0@) == inner,
            None => r is None,
        },
{
    match member(members, name) {
        Some(value) => match value {
            Json::Object(inner) => Some(inner),
            _ => None,
        },
        None => None,
    }
}

} // verus!
