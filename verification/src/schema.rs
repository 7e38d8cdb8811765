//! Schemas: what a field of a packet looks like, and how a JSON value
//! describes it.

use vstd::prelude::*;

use crate::json::{lemma_array_view, lookup, values_of, Entries, Json, JsonMap, JsonView};

verus! {

/// A field of a packet, or a group of fields.
#[derive(Debug, PartialEq, Eq)]
pub struct Branch {
    pub name: String,
    pub field_type: Option<String>,
    pub match_cases: Option<JsonMap>,
    pub loop_count: Option<Json>,
    pub branches: Option<Vec<Branch>>,
    pub optional: Option<bool>,
    pub eval: Option<String>,
}

/// A schema: the fields of a packet in order.
#[derive(Debug, PartialEq, Eq)]
pub struct Tree {
    pub branches: Vec<Branch>,
}

/// A field as a mathematical value.
pub struct BranchView {
    pub name: Seq<char>,
    pub field_type: Option<Seq<char>>,
    pub match_cases: Option<Entries>,
    pub loop_count: Option<JsonView>,
    pub branches: Option<Seq<BranchView>>,
    pub optional: Option<bool>,
    pub eval: Option<Seq<char>>,
}

/// The text in an optional string.
pub open spec fn text_view(s: Option<String>) -> Option<Seq<char>> {
    match s {
        Some(text) => Some(text@),
        None => None,
    }
}

/// The fields of a row of fields.
pub open spec fn schema_view(fields: Seq<Branch>) -> Seq<BranchView> {
    Seq::new(fields.len(), |i: int| fields[i]@)
}

impl Branch {
    /// The mathematical value.
    pub open spec fn view(&self) -> BranchView
        decreases self,
    {
        BranchView {
            name: self.name@,
            field_type: text_view(self.field_type),
            match_cases: match self.match_cases {
                Some(map) => Some(map@),
                None => None,
            },
            loop_count: match self.loop_count {
                Some(json) => Some(json@),
                None => None,
            },
            branches: match self.branches {
                Some(fields) => Some(
                    Seq::new(
                        fields@.len(),
                        |i: int|
                            if 0 <= i < fields@.len() {
                                fields@[i].view()
                            } else {
                                arbitrary()
                            },
                    ),
                ),
                None => None,
            },
            optional: self.optional,
            eval: text_view(self.eval),
        }
    }
}

/// The nested fields of a field are the row of their mathematical values.
pub proof fn lemma_branches_view(field: Branch)
    ensures
        field@.branches == match field.branches {
            Some(fields) => Some(schema_view(fields@)),
            None => None,
        },
{
    if let Some(fields) = field.branches {
        assert(field@.branches->0 =~= schema_view(fields@));
    }
}

/// The text of an optional string, copied.
fn duplicate_text(text: &Option<String>) -> (r: Option<String>)
    ensures
        text_view(r) == text_view(*text),
{
    match text {
        Some(s) => Some(s.clone()),
        None => None,
    }
}

impl Branch {
    /// An equal field.
    pub fn duplicate(&self) -> (r: Branch)
        ensures
            r@ == self@,
        decreases self,
    {
        let match_cases = match &self.match_cases {
            Some(cases) => Some(cases.duplicate()),
            None => None,
        };
        let loop_count = match &self.loop_count {
            Some(count) => Some(count.duplicate()),
            None => None,
        };
        let branches = match &self.branches {
            Some(fields) => {
                let mut copies: Vec<Branch> = Vec::new();
                for i in 0..fields.len()
                    invariant
                        self.branches matches Some(own) && own == fields,
                        copies.len() == i,
                        forall|j: int| 0 <= j < i ==> #[trigger] copies@[j]@ == fields@[j]@,
                {
                    assert(decreases_to!(self => self.branches->0@[i as int]));
                    let copy = fields[i].duplicate();
                    copies.push(copy);
                }
                assert(schema_view(copies@) =~= schema_view(fields@));
                Some(copies)
            },
            None => None,
        };
        let r = Branch {
            name: self.name.clone(),
            field_type: duplicate_text(&self.field_type),
            match_cases,
            loop_count,
            branches,
            optional: self.optional,
            eval: duplicate_text(&self.eval),
        };
        proof {
            lemma_branches_view(*self);
            lemma_branches_view(r);
        }
        r
    }
}

impl Clone for Branch {
    fn clone(&self) -> (r: Branch)
        ensures
            r@ == self@,
    {
        self.duplicate()
    }
}

impl Clone for Tree {
    fn clone(&self) -> (r: Tree)
        ensures
            schema_view(r.branches@) == schema_view(self.branches@),
    {
        let mut branches: Vec<Branch> = Vec::new();
        for i in 0..self.branches.len()
            invariant
                branches.len() == i,
                forall|j: int| 0 <= j < i ==> #[trigger] branches@[j]@ == self.branches@[j]@,
        {
            branches.push(self.branches[i].duplicate());
        }
        assert(schema_view(branches@) =~= schema_view(self.branches@));
        Tree { branches }
    }
}

/// The greater of two numbers.
pub open spec fn greater(a: nat, b: nat) -> nat {
    if a < b {
        b
    } else {
        a
    }
}

/// How deep a JSON value is nested.
pub open spec fn json_height(json: JsonView) -> nat
    decreases json,
{
    match json {
        JsonView::Array(items) => 1 + values_height(items),
        JsonView::Object(entries) => 1 + entries_height(entries),
        _ => 0,
    }
}

/// How deep the deepest of some JSON values is nested.
pub open spec fn values_height(items: Seq<JsonView>) -> nat
    decreases items,
{
    if items.len() == 0 {
        0
    } else {
        greater(values_height(items.drop_last()), json_height(items.last()))
    }
}

/// How deep the deepest value of some entries is nested.
pub open spec fn entries_height(entries: Entries) -> nat
    decreases entries,
{
    if entries.len() == 0 {
        0
    } else {
        greater(entries_height(entries.drop_last()), json_height(entries.last().1))
    }
}

/// How deep a field is nested, what its cases describe included.
pub open spec fn branch_height(field: BranchView) -> nat
    decreases field,
{
    1 + greater(
        match field.match_cases {
            Some(cases) => entries_height(cases),
            None => 0,
        },
        match field.branches {
            Some(fields) => schema_height(fields),
            None => 0,
        },
    )
}

/// How deep the deepest of some fields is nested.
pub open spec fn schema_height(fields: Seq<BranchView>) -> nat
    decreases fields,
{
    if fields.len() == 0 {
        0
    } else {
        greater(schema_height(fields.drop_last()), branch_height(fields.last()))
    }
}

pub proof fn lemma_values_height(items: Seq<JsonView>, i: int)
    requires
        0 <= i < items.len(),
    ensures
        json_height(items[i]) <= values_height(items),
    decreases items.len(),
{
    if i < items.len() - 1 {
        lemma_values_height(items.drop_last(), i);
    }
}

pub proof fn lemma_entries_height(entries: Entries, i: int)
    requires
        0 <= i < entries.len(),
    ensures
        json_height(entries[i].1) <= entries_height(entries),
    decreases entries.len(),
{
    if i < entries.len() - 1 {
        lemma_entries_height(entries.drop_last(), i);
    }
}

pub proof fn lemma_schema_height(fields: Seq<BranchView>, i: int)
    requires
        0 <= i < fields.len(),
    ensures
        branch_height(fields[i]) <= schema_height(fields),
    decreases fields.len(),
{
    if i < fields.len() - 1 {
        lemma_schema_height(fields.drop_last(), i);
    }
}

pub proof fn lemma_lookup_height(entries: Entries, key: Seq<char>)
    ensures
        lookup(entries, key) matches Some(value) ==> json_height(value) <= entries_height(entries),
{
    lemma_lookup_position(entries, key);
    if lookup(entries, key) is Some {
        let i = choose|i: int|
            0 <= i < entries.len() && lookup(entries, key) == Some((#[trigger] entries[i]).1);
        lemma_entries_height(entries, i);
    }
}

/// What `lookup` finds is the value of one of the entries.
pub proof fn lemma_lookup_position(entries: Entries, key: Seq<char>)
    ensures
        lookup(entries, key) is Some ==> exists|i: int|
            0 <= i < entries.len() && lookup(entries, key) == Some((#[trigger] entries[i]).1),
    decreases entries.len(),
{
    if entries.len() > 0 && entries[0].0 != key && lookup(entries, key) is Some {
        let rest = entries.skip(1);
        lemma_lookup_position(rest, key);
        let i = choose|i: int|
            0 <= i < rest.len() && lookup(rest, key) == Some((#[trigger] rest[i]).1);
        assert(entries[i + 1] == rest[i]);
    }
}

/// A string that may be missing or null; nothing where the value is not one.
pub open spec fn optional_text(json: Option<JsonView>) -> Option<Option<Seq<char>>> {
    match json {
        None => Some(None),
        Some(JsonView::Null) => Some(None),
        Some(JsonView::String(s)) => Some(Some(s)),
        Some(_) => None,
    }
}

/// A boolean that may be missing or null; nothing where the value is not one.
pub open spec fn optional_bool(json: Option<JsonView>) -> Option<Option<bool>> {
    match json {
        None => Some(None),
        Some(JsonView::Null) => Some(None),
        Some(JsonView::Bool(b)) => Some(Some(b)),
        Some(_) => None,
    }
}

/// An object that may be missing or null; nothing where the value is not one.
pub open spec fn optional_entries(json: Option<JsonView>) -> Option<Option<Entries>> {
    match json {
        None => Some(None),
        Some(JsonView::Null) => Some(None),
        Some(JsonView::Object(entries)) => Some(Some(entries)),
        Some(_) => None,
    }
}

/// A value that may be missing or null.
pub open spec fn optional_value(json: Option<JsonView>) -> Option<JsonView> {
    match json {
        Some(JsonView::Null) => None,
        other => other,
    }
}

/// The value of part `i` of a field's description: of an object the value
/// under the part's key, of an array the item at its place.
pub open spec fn part(json: JsonView, key: Seq<char>, i: int) -> Option<JsonView> {
    match json {
        JsonView::Object(entries) => lookup(entries, key),
        JsonView::Array(items) => Some(items[i]),
        _ => None,
    }
}

/// Whether a JSON value has the form of a description in `parts` parts: an
/// object, or an array with an item for each part.
pub open spec fn has_parts(json: JsonView, parts: int) -> bool {
    match json {
        JsonView::Object(_) => true,
        JsonView::Array(items) => items.len() == parts,
        _ => false,
    }
}

pub proof fn lemma_part_height(json: JsonView, key: Seq<char>, i: int, parts: int)
    requires
        has_parts(json, parts),
        0 <= i < parts,
    ensures
        part(json, key, i) matches Some(value) ==> json_height(value) < json_height(json),
{
    match json {
        JsonView::Object(entries) => lemma_lookup_height(entries, key),
        JsonView::Array(items) => lemma_values_height(items, i),
        _ => {},
    }
}

/// The field that a JSON value describes: nothing where it does not describe
/// one. Only the name has to be there.
pub open spec fn branch_of(json: JsonView) -> Option<BranchView>
    decreases json_height(json), 0nat, 0nat,
{
    if !has_parts(json, 7) {
        None
    } else {
        proof {
            lemma_part_height(json, "branches"@, 4, 7);
        }
        let nested = match part(json, "branches"@, 4) {
            None => Some(None),
            Some(JsonView::Null) => Some(None),
            Some(JsonView::Array(items)) => match branches_of(items) {
                Some(fields) => Some(Some(fields)),
                None => None,
            },
            Some(_) => None,
        };
        match (
            part(json, "name"@, 0),
            optional_text(part(json, "type"@, 1)),
            optional_entries(part(json, "match"@, 2)),
            nested,
            optional_bool(part(json, "optional"@, 5)),
            optional_text(part(json, "eval"@, 6)),
        ) {
            (
                Some(JsonView::String(name)),
                Some(field_type),
                Some(match_cases),
                Some(branches),
                Some(optional),
                Some(eval),
            ) => Some(
                BranchView {
                    name,
                    field_type,
                    match_cases,
                    loop_count: optional_value(part(json, "loop_count"@, 3)),
                    branches,
                    optional,
                    eval,
                },
            ),
            _ => None,
        }
    }
}

/// The fields that a row of JSON values describes: nothing where one of them
/// does not describe a field.
pub open spec fn branches_of(items: Seq<JsonView>) -> Option<Seq<BranchView>>
    decreases values_height(items), 1nat, items.len(),
{
    if items.len() == 0 {
        Some(Seq::empty())
    } else {
        match (branches_of(items.drop_last()), branch_of(items.last())) {
            (Some(fields), Some(field)) => Some(fields.push(field)),
            _ => None,
        }
    }
}

/// The fields of the schema that a JSON value describes: nothing where it does
/// not describe a schema.
pub open spec fn tree_of(json: JsonView) -> Option<Seq<BranchView>> {
    if !has_parts(json, 1) {
        None
    } else {
        match part(json, "branches"@, 0) {
            Some(JsonView::Array(items)) => branches_of(items),
            _ => None,
        }
    }
}

/// A described field is nested no deeper than its description.
pub proof fn lemma_branch_of_height(json: JsonView)
    ensures
        branch_of(json) matches Some(field) ==> branch_height(field) <= json_height(json),
    decreases json_height(json), 0nat, 0nat,
{
    if has_parts(json, 7) {
        lemma_part_height(json, "branches"@, 4, 7);
        lemma_part_height(json, "match"@, 2, 7);
        if let Some(JsonView::Array(items)) = part(json, "branches"@, 4) {
            lemma_branches_of_height(items);
        }
        assert(json_height(json) >= 1);
    }
}

/// Described fields are nested no deeper than their descriptions.
pub proof fn lemma_branches_of_height(items: Seq<JsonView>)
    ensures
        branches_of(items) matches Some(fields) ==> schema_height(fields) <= values_height(items),
    decreases values_height(items), 1nat, items.len(),
{
    if items.len() > 0 {
        lemma_branches_of_height(items.drop_last());
        lemma_branch_of_height(items.last());
        if let (Some(fields), Some(field)) = (
            branches_of(items.drop_last()),
            branch_of(items.last()),
        ) {
            assert(fields.push(field).drop_last() =~= fields);
        }
    }
}

/// What `branches_of` says of each item: field `i` is the one that item `i`
/// describes, and there is a result only if each item describes one.
pub proof fn lemma_branches_of_items(items: Seq<JsonView>)
    ensures
        branches_of(items) is Some <==> forall|i: int|
            0 <= i < items.len() ==> branch_of(#[trigger] items[i]) is Some,
        branches_of(items) matches Some(fields) ==> fields.len() == items.len() && forall|i: int|
            0 <= i < items.len() ==> branch_of(#[trigger] items[i]) == Some(fields[i]),
    decreases items.len(),
{
    if items.len() > 0 {
        let front = items.drop_last();
        lemma_branches_of_items(front);
        assert(forall|i: int| 0 <= i < front.len() ==> #[trigger] front[i] == items[i]);
        if branches_of(front) is None {
            let i = choose|i: int| 0 <= i < front.len() && branch_of(#[trigger] front[i]) is None;
            assert(branch_of(items[i]) is None);
        } else {
            assert(forall|i: int|
                0 <= i < items.len() ==> #[trigger] items[i] == (if i < front.len() {
                    front[i]
                } else {
                    items.last()
                }));
        }
    }
}

/// Whether a JSON value has the form of a description in `parts` parts.
fn describes_parts(json: &Json, parts: usize) -> (r: bool)
    ensures
        r == has_parts(json@, parts as int),
{
    match json {
        Json::Object(_) => true,
        Json::Array(items) => {
            proof {
                lemma_array_view(*items);
            }
            items.len() == parts
        },
        _ => false,
    }
}

/// Part `i` of a description, by its key or its place.
fn part_of<'a>(json: &'a Json, key: &str, i: usize, parts: usize) -> (r: Option<&'a Json>)
    requires
        has_parts(json@, parts as int),
        i < parts,
    ensures
        match r {
            Some(value) => part(json@, key@, i as int) == Some(value@),
            None => part(json@, key@, i as int) is None,
        },
{
    match json {
        Json::Object(map) => map.get(key),
        Json::Array(items) => {
            proof {
                lemma_array_view(*items);
            }
            Some(&items[i])
        },
        _ => None,
    }
}

/// A string that may be missing or null.
fn decode_text(json: Option<&Json>) -> (r: Option<Option<String>>)
    ensures
        ({
            let value = match json {
                Some(value) => Some(value@),
                None => None,
            };
            match r {
                Some(text) => optional_text(value) == Some(text_view(text)),
                None => optional_text(value) is None,
            }
        }),
{
    match json {
        None => Some(None),
        Some(Json::Null) => Some(None),
        Some(Json::String(s)) => Some(Some(s.clone())),
        Some(_) => None,
    }
}

/// The field that a JSON value describes.
pub fn decode_branch(json: &Json) -> (r: Option<Branch>)
    ensures
        match r {
            Some(field) => branch_of(json@) == Some(field@),
            None => branch_of(json@) is None,
        },
    decreases json_height(json@), 0nat,
{
    if !describes_parts(json, 7) {
        return None;
    }
    proof {
        lemma_part_height(json@, "branches"@, 4, 7);
    }
    let name = match part_of(json, "name", 0, 7) {
        Some(Json::String(s)) => s.clone(),
        _ => {
            return None;
        },
    };
    let field_type = match decode_text(part_of(json, "type", 1, 7)) {
        Some(text) => text,
        None => {
            return None;
        },
    };
    let match_cases = match part_of(json, "match", 2, 7) {
        None => None,
        Some(Json::Null) => None,
        Some(Json::Object(map)) => Some(map.duplicate()),
        Some(_) => {
            return None;
        },
    };
    let loop_count = match part_of(json, "loop_count", 3, 7) {
        None => None,
        Some(Json::Null) => None,
        Some(value) => Some(value.duplicate()),
    };
    let branches = match part_of(json, "branches", 4, 7) {
        None => None,
        Some(Json::Null) => None,
        Some(Json::Array(items)) => {
            proof {
                lemma_array_view(*items);
            }
            match decode_branches(items) {
                Some(fields) => Some(fields),
                None => {
                    return None;
                },
            }
        },
        Some(_) => {
            return None;
        },
    };
    let optional = match part_of(json, "optional", 5, 7) {
        None => None,
        Some(Json::Null) => None,
        Some(Json::Bool(b)) => Some(*b),
        Some(_) => {
            return None;
        },
    };
    let eval = match decode_text(part_of(json, "eval", 6, 7)) {
        Some(text) => text,
        None => {
            return None;
        },
    };
    let field = Branch { name, field_type, match_cases, loop_count, branches, optional, eval };
    proof {
        lemma_branches_view(field);
    }
    Some(field)
}

/// The fields that a row of JSON values describes.
pub fn decode_branches(items: &Vec<Json>) -> (r: Option<Vec<Branch>>)
    ensures
        match r {
            Some(fields) => branches_of(values_of(items@)) == Some(schema_view(fields@)),
            None => branches_of(values_of(items@)) is None,
        },
    decreases values_height(values_of(items@)), 1nat,
{
    let ghost values = values_of(items@);
    let mut fields: Vec<Branch> = Vec::new();
    proof {
        lemma_branches_of_items(values);
    }
    for i in 0..items.len()
        invariant
            values == values_of(items@),
            fields.len() == i,
            forall|j: int| 0 <= j < i ==> branch_of(values[j]) == Some((#[trigger] fields@[j])@),
            branches_of(values) is Some <==> forall|j: int|
                0 <= j < values.len() ==> branch_of(#[trigger] values[j]) is Some,
    {
        proof {
            lemma_values_height(values, i as int);
        }
        assert(values[i as int] == items@[i as int]@);
        match decode_branch(&items[i]) {
            Some(field) => {
                fields.push(field);
            },
            None => {
                return None;
            },
        }
    }
    proof {
        assert forall|j: int| 0 <= j < values.len() implies branch_of(
            #[trigger] values[j],
        ) is Some by {
            assert(branch_of(values[j]) == Some(fields@[j]@));
        }
        let described = branches_of(values)->0;
        assert forall|j: int| 0 <= j < described.len() implies described[j] == schema_view(
            fields@,
        )[j] by {
            assert(branch_of(values[j]) == Some(fields@[j]@));
        }
        assert(described =~= schema_view(fields@));
    }
    Some(fields)
}

/// The schema that a JSON value describes.
pub fn decode_tree(json: &Json) -> (r: Option<Tree>)
    ensures
        match r {
            Some(tree) => tree_of(json@) == Some(schema_view(tree.branches@)),
            None => tree_of(json@) is None,
        },
{
    if !describes_parts(json, 1) {
        return None;
    }
    match part_of(json, "branches", 0, 1) {
        Some(Json::Array(items)) => {
            proof {
                lemma_array_view(*items);
            }
            match decode_branches(items) {
                Some(branches) => Some(Tree { branches }),
                None => None,
            }
        },
        _ => None,
    }
}

/// The schema that a JSON value describes. The value has to describe one.
pub fn schema_to_tree(schema_json: Json) -> (r: Tree)
    requires
        tree_of(schema_json@) is Some,
    ensures
        tree_of(schema_json@) == Some(schema_view(r.branches@)),
{
    decode_tree(&schema_json).unwrap()
}

} // verus!
