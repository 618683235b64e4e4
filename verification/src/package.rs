//! The identity of a package: its store path and where it came from.

use crate::json::{
    boolean_in, boolean_of_member, json_text, lemma_nesting_grows, member_of, members_view,
    nested_within, object_in, object_of_member, parsed_json, reads_back, text_before, text_in,
    text_of_member, well_keyed, Json, JsonView, Member, MemberView, MAX_DEPTH,
};
use vstd::prelude::*;
use vstd::string::StringExecFns;
use vstd::std_specs::cmp::PartialEqSpecImpl;

verus! {

/// How a package was reached in the package set.
#[derive(Debug, PartialEq, Eq)]
pub struct PathOrigin {
    /// The attribute path of the package that led to this one.
    pub attr: String,
    /// The output of that package.
    pub output: String,
    /// Whether `attr` names this package itself, and not one that only
    /// depends on it.
    pub toplevel: bool,
}

/// One build output: an immutable directory named by a hash.
#[derive(Debug, Eq)]
pub struct StorePath {
    hash: String,
    name: String,
    origin: PathOrigin,
}

/// A store path as a mathematical value.
pub struct StorePathView {
    pub hash: Seq<char>,
    pub name: Seq<char>,
    pub attr: Seq<char>,
    pub output: Seq<char>,
    pub toplevel: bool,
}

impl View for StorePath {
    type V = StorePathView;

    closed spec fn view(&self) -> StorePathView {
        StorePathView {
            hash: self.hash@,
            name: self.name@,
            attr: self.origin.attr@,
            output: self.origin.output@,
            toplevel: self.origin.toplevel,
        }
    }
}

impl Clone for PathOrigin {
    fn clone(&self) -> (r: PathOrigin)
        ensures
            r == *self,
    {
        PathOrigin {
            attr: self.attr.clone(),
            output: self.output.clone(),
            toplevel: self.toplevel,
        }
    }
}

impl Clone for StorePath {
    fn clone(&self) -> (r: StorePath)
        ensures
            r == *self,
    {
        StorePath {
            hash: self.hash.clone(),
            name: self.name.clone(),
            origin: self.origin.clone(),
        }
    }
}

impl PartialEq for StorePath {
    /// Two store paths are equal when their hashes are.
    fn eq(&self, other: &StorePath) -> (r: bool) {
        self.hash == other.hash
    }
}

impl PartialEqSpecImpl for StorePath {
    open spec fn obeys_eq_spec() -> bool {
        true
    }

    open spec fn eq_spec(&self, other: &StorePath) -> bool {
        self@.hash == other@.hash
    }
}

/// The store path as text: the directory of the store, the hash, a hyphen
/// and the name.
pub open spec fn store_path_text(path: StorePathView) -> Seq<char> {
    "/nix/store/"@ + path.hash + "-"@ + path.name
}

/// The JSON value that stands for a store path: the object of its hash,
/// its name and its origin, which is the object of the attribute path, the
/// output and whether the package is reached directly.
pub open spec fn layout(path: StorePathView) -> JsonView {
    JsonView::Object(
        seq![
            MemberView { name: "hash"@, value: JsonView::Text(path.hash) },
            MemberView { name: "name"@, value: JsonView::Text(path.name) },
            MemberView {
                name: "origin"@,
                value: JsonView::Object(
                    seq![
                        MemberView { name: "attr"@, value: JsonView::Text(path.attr) },
                        MemberView { name: "output"@, value: JsonView::Text(path.output) },
                        MemberView { name: "toplevel"@, value: JsonView::Boolean(path.toplevel) },
                    ],
                ),
            },
        ],
    )
}

/// The store path that a JSON value stands for: the value has to be an
/// object whose members `hash` and `name` hold text and whose member
/// `origin` holds an object, whose members `attr` and `output` hold text
/// and whose member `toplevel` holds a boolean. Other members are passed
/// over.
pub open spec fn store_path_of(json: JsonView) -> Option<StorePathView> {
    match json {
        JsonView::Object(members) => match (
            text_of_member(members, "hash"@),
            text_of_member(members, "name"@),
            object_of_member(members, "origin"@),
        ) {
            (Some(hash), Some(name), Some(origin)) => match (
                text_of_member(origin, "attr"@),
                text_of_member(origin, "output"@),
                boolean_of_member(origin, "toplevel"@),
            ) {
                (Some(attr), Some(output), Some(toplevel)) => Some(
                    StorePathView { hash, name, attr, output, toplevel },
                ),
                _ => None,
            },
            _ => None,
        },
        _ => None,
    }
}

/// The JSON text of a store path.
pub open spec fn store_path_json(path: StorePathView) -> Seq<u8> {
    json_text(layout(path))
}

/// The store path that a JSON text stands for, if it stands for one.
pub open spec fn parsed_store_path(json: Seq<u8>) -> Option<StorePathView> {
    match parsed_json(json) {
        Some(value) => store_path_of(value),
        None => None,
    }
}

/// The value that stands for a store path has its members in the order
/// of their names, nests its objects two deep, and stands for that store
/// path.
pub proof fn lemma_layout_reads_back(path: StorePathView)
    ensures
        well_keyed(layout(path)),
        nested_within(layout(path), 2),
        reads_back(layout(path)),
        store_path_of(layout(path)) == Some(path),
{
    reveal_strlit("hash");
    reveal_strlit("name");
    reveal_strlit("origin");
    reveal_strlit("attr");
    reveal_strlit("output");
    reveal_strlit("toplevel");
    reveal_with_fuel(member_of, 4);
    let inner = seq![
        MemberView { name: "attr"@, value: JsonView::Text(path.attr) },
        MemberView { name: "output"@, value: JsonView::Text(path.output) },
        MemberView { name: "toplevel"@, value: JsonView::Boolean(path.toplevel) },
    ];
    let outer = seq![
        MemberView { name: "hash"@, value: JsonView::Text(path.hash) },
        MemberView { name: "name"@, value: JsonView::Text(path.name) },
        MemberView { name: "origin"@, value: JsonView::Object(inner) },
    ];
    assert("hash"@[0] == 'h' && "name"@[0] == 'n' && "origin"@[0] == 'o');
    assert("attr"@[0] == 'a' && "output"@[0] == 'o' && "toplevel"@[0] == 't');
    assert(text_before("hash"@, "name"@));
    assert(text_before("hash"@, "origin"@));
    assert(text_before("name"@, "origin"@));
    assert(text_before("attr"@, "output"@));
    assert(text_before("attr"@, "toplevel"@));
    assert(text_before("output"@, "toplevel"@));
    reveal_with_fuel(well_keyed, 3);
    assert forall|i: int, j: int| 0 <= i < j < inner.len() implies text_before(
        (#[trigger] inner[i]).name,
        (#[trigger] inner[j]).name,
    ) by {
        if i == 0 && j == 1 {
        } else if i == 0 && j == 2 {
        } else {
            assert(i == 1 && j == 2);
        }
    }
    assert forall|i: int| 0 <= i < inner.len() implies well_keyed(
        (#[trigger] inner[i]).value,
    ) by {
        if i == 0 {
        } else if i == 1 {
        } else {
            assert(i == 2);
        }
    }
    assert(well_keyed(JsonView::Object(inner)));
    assert forall|i: int, j: int| 0 <= i < j < outer.len() implies text_before(
        (#[trigger] outer[i]).name,
        (#[trigger] outer[j]).name,
    ) by {
        if i == 0 && j == 1 {
        } else if i == 0 && j == 2 {
        } else {
            assert(i == 1 && j == 2);
        }
    }
    assert forall|i: int| 0 <= i < outer.len() implies well_keyed(
        (#[trigger] outer[i]).value,
    ) by {
        if i == 0 {
        } else if i == 1 {
        } else {
            assert(i == 2);
        }
    }
    assert(well_keyed(JsonView::Object(outer)));
    reveal_with_fuel(nested_within, 3);
    assert(nested_within(JsonView::Object(inner), 1));
    assert(nested_within(JsonView::Object(outer), 2));
    lemma_nesting_grows(layout(path), 2, MAX_DEPTH as nat);
    assert(outer.drop_first()[0] == outer[1]);
    assert(outer.drop_first().drop_first()[0] == outer[2]);
    assert(inner.drop_first()[0] == inner[1]);
    assert(inner.drop_first().drop_first()[0] == inner[2]);
    assert(text_of_member(outer, "hash"@) == Some(path.hash));
    assert(text_of_member(outer, "name"@) == Some(path.name));
    assert(object_of_member(outer, "origin"@) == Some(inner));
    assert(text_of_member(inner, "attr"@) == Some(path.attr));
    assert(text_of_member(inner, "output"@) == Some(path.output));
    assert(boolean_of_member(inner, "toplevel"@) == Some(path.toplevel));
}

/// Reads a store path from the members of the object that stands for it.
fn from_members(members: &Vec<Member>) -> (r: Option<StorePath>)
    ensures
        match store_path_of(JsonView::Object(members_view(members@))) {
            Some(path) => r is Some && r->0@ == path,
            None => r is None,
        },
{
    let hash = match text_in(members, "hash") {
        Some(hash) => hash,
        None => {
            return None;
        },
    };
    let name = match text_in(members, "name") {
        Some(name) => name,
        None => {
            return None;
        },
    };
    let origin = match object_in(members, "origin") {
        Some(origin) => origin,
        None => {
            return None;
        },
    };
    let attr = match text_in(origin, "attr") {
        Some(attr) => attr,
        None => {
            return None;
        },
    };
    let output = match text_in(origin, "output") {
        Some(output) => output,
        None => {
            return None;
        },
    };
    let toplevel = match boolean_in(origin, "toplevel") {
        Some(toplevel) => toplevel,
        None => {
            return None;
        },
    };
    Some(StorePath { hash, name, origin: PathOrigin { attr, output, toplevel } })
}

impl StorePath {
    /// Makes a store path from its parts.
    pub fn new(hash: String, name: String, origin: PathOrigin) -> (path: StorePath)
        ensures
            path@ == (StorePathView {
                hash: hash@,
                name: name@,
                attr: origin.attr@,
                output: origin.output@,
                toplevel: origin.toplevel,
            }),
    {
        StorePath { hash, name, origin }
    }

    /// The hash that names the store path.
    pub fn hash(&self) -> (hash: &str)
        ensures
            hash@ == self@.hash,
    {
        self.hash.as_str()
    }

    /// The store path as text: the directory of the store, the hash, a
    /// hyphen and the name.
    pub fn as_str(&self) -> (text: String)
        ensures
            text@ == store_path_text(self@),
    {
        let mut text = String::from_str("/nix/store/");
        text.append(self.hash.as_str());
        text.append("-");
        text.append(self.name.as_str());
        text
    }

    /// Tests whether `hash` is the hash of this store path.
    pub fn has_hash(&self, hash: &String) -> (same: bool)
        ensures
            same == (hash@ == self@.hash),
    {
        self.hash == *hash
    }

    /// The name of the package.
    pub fn name(&self) -> (name: &str)
        ensures
            name@ == self@.name,
    {
        self.name.as_str()
    }

    /// How the package was reached.
    pub fn origin(&self) -> (origin: &PathOrigin)
        ensures
            origin.attr@ == self@.attr,
            origin.output@ == self@.output,
            origin.toplevel == self@.toplevel,
    {
        &self.origin
    }

    /// Writes the store path as one JSON object, without white space. The
    /// text holds neither a zero byte nor a line feed, and it reads back as
    /// this store path.
    pub fn to_json(&self) -> (json: Vec<u8>)
        ensures
            json@ == store_path_json(self@),
            crate::files::plain(json@),
            parsed_store_path(json@) == Some(self@),
    {
        let mut origin: Vec<Member> = Vec::new();
        origin.push(Json::text_member("attr", self.origin.attr.as_str()));
        origin.push(Json::text_member("output", self.origin.output.as_str()));
        origin.push(
            Member {
                name: String::from_str("toplevel"),
                value: Json::Boolean(self.origin.toplevel),
            },
        );
        let ghost inner = members_view(origin@);
        let mut object: Vec<Member> = Vec::new();
        object.push(Json::text_member("hash", self.hash.as_str()));
        object.push(Json::text_member("name", self.name.as_str()));
        object.push(Member { name: String::from_str("origin"), value: Json::Object(origin) });
        let value = Json::Object(object);
        proof {
            let path = self@;
            assert(inner =~= seq![
                MemberView { name: "attr"@, value: JsonView::Text(path.attr) },
                MemberView { name: "output"@, value: JsonView::Text(path.output) },
                MemberView { name: "toplevel"@, value: JsonView::Boolean(path.toplevel) },
            ]);
            assert(members_view(object@) =~= seq![
                MemberView { name: "hash"@, value: JsonView::Text(path.hash) },
                MemberView { name: "name"@, value: JsonView::Text(path.name) },
                MemberView { name: "origin"@, value: JsonView::Object(inner) },
            ]);
            assert(value@ == layout(path));
            lemma_layout_reads_back(path);
        }
        value.write()
    }

    /// Reads a store path from JSON. Gives `None` exactly when the text is
    /// no JSON or its value does not stand for a store path.
    pub fn from_json(json: &[u8]) -> (r: Option<StorePath>)
        ensures
            match r {
                Some(path) => parsed_store_path(json@) == Some(path@),
                None => parsed_store_path(json@) is None,
            },
    {
        match Json::read(json) {
            Some(value) => match &value {
                Json::Object(members) => from_members(members),
                _ => None,
            },
            None => None,
        }
    }
}

} // verus!
