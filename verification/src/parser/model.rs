//! The data model: positioned AST nodes for the restricted JSON dialect
//! (objects whose values are strings or objects), the style descriptor, and
//! the position-free mathematical view of a tree.

use vstd::prelude::*;

verus! {

/// A location inside a source text: 1-based line, 1-based column and
/// 0-based character offset.
#[derive(Clone, Copy, PartialEq, Eq, Structural, Debug)]
pub struct Pos {
    pub line: usize,
    pub col: usize,
    pub offset: usize,
}

/// Which line ending the style asks for after `{` and after each entry.
#[derive(Clone, Copy, PartialEq, Eq, Structural, Debug)]
pub enum LineEnding {
    CRLF,
    LF,
    NONE,
    ANY,
    IGNORE,
}

/// Direction of the required key order.
#[derive(Clone, Copy, PartialEq, Eq, Structural, Debug)]
pub enum SortOrder {
    ASC,
    DESC,
}

/// Which comparator the required key order uses.
#[derive(Clone, Copy, PartialEq, Eq, Structural, Debug)]
pub enum SortAlgorithm {
    NATURAL,
    NORMAL,
    NONE,
}

/// The formatting rules in force: either a full set of rules, or none at
/// all (accept and emit the most compact form).
#[derive(Debug)]
pub enum JsonStyle {
    STYLED {
        line_endings: LineEnding,
        indentation: Option<String>,
        post_colon: Option<String>,
        sort_algorithm: SortAlgorithm,
        order: SortOrder,
    },
    IGNORE,
}

impl Clone for JsonStyle {
    /// The copy is equal to the original.
    fn clone(&self) -> (r: Self)
        ensures
            r == *self,
    {
        match self {
            JsonStyle::STYLED { line_endings, indentation, post_colon, sort_algorithm, order } => {
                JsonStyle::STYLED {
                    line_endings: *line_endings,
                    indentation: match indentation {
                        Some(s) => Some(s.clone()),
                        None => None,
                    },
                    post_colon: match post_colon {
                        Some(s) => Some(s.clone()),
                        None => None,
                    },
                    sort_algorithm: *sort_algorithm,
                    order: *order,
                }
            },
            JsonStyle::IGNORE => JsonStyle::IGNORE,
        }
    }
}

/// A string node: the raw characters between the quotes (escapes are kept
/// as written) and the positions just after the opening quote and just
/// after the closing quote.
#[derive(Debug)]
pub struct JsonString {
    pub value: String,
    pub start: Pos,
    pub end: Pos,
}

/// A value is either a nested object or a string.
#[derive(Debug)]
pub enum JsonType {
    Object(JsonObject),
    String(JsonString),
}

/// An object node: its entries in source order, and the positions just
/// after the opening brace and just after the closing brace.
#[derive(Debug)]
pub struct JsonObject {
    pub values: Vec<(JsonString, JsonType)>,
    pub start: Pos,
    pub end: Pos,
}

/// The mathematical content of a value: the same tree with every position
/// forgotten.
#[verifier::ext_equal]
pub enum VNode {
    Str(Seq<char>),
    Obj(Seq<(Seq<char>, VNode)>),
}

impl View for JsonString {
    type V = Seq<char>;

    open spec fn view(&self) -> Seq<char> {
        self.value@
    }
}

pub open spec fn view_entries(es: Seq<(JsonString, JsonType)>) -> Seq<(Seq<char>, VNode)>
    decreases es,
{
    if es.len() == 0 {
        Seq::empty()
    } else {
        seq![(es[0].0.value@, view_value(es[0].1))] + view_entries(es.subrange(1, es.len() as int))
    }
}

pub open spec fn view_object(o: JsonObject) -> VNode
    decreases o,
{
    VNode::Obj(view_entries(o.values@))
}

pub open spec fn view_value(v: JsonType) -> VNode
    decreases v,
{
    match v {
        JsonType::Object(o) => view_object(o),
        JsonType::String(s) => VNode::Str(s.value@),
    }
}

impl View for JsonObject {
    type V = VNode;

    open spec fn view(&self) -> VNode {
        view_object(*self)
    }
}

impl View for JsonType {
    type V = VNode;

    open spec fn view(&self) -> VNode {
        view_value(*self)
    }
}

/// The view of an entry list has one pair per entry: the key's characters
/// and the value's view.
pub proof fn lemma_view_entries_index(es: Seq<(JsonString, JsonType)>)
    ensures
        view_entries(es).len() == es.len(),
        forall|i: int|
            0 <= i < es.len() ==> view_entries(es)[i] == (es[i].0.value@, view_value(es[i].1)),
    decreases es.len(),
{
    if es.len() > 0 {
        lemma_view_entries_index(es.subrange(1, es.len() as int));
    }
}

/// The positions that frame a value node.
pub open spec fn node_pos(v: JsonType) -> (Pos, Pos) {
    match v {
        JsonType::Object(o) => (o.start, o.end),
        JsonType::String(s) => (s.start, s.end),
    }
}

/// Entry sequences with pairwise equal keys and pairwise equal value
/// views have the same view.
pub proof fn lemma_view_entries_pointwise(a: Seq<(JsonString, JsonType)>, b: Seq<(JsonString, JsonType)>)
    requires
        a.len() == b.len(),
        forall|i: int|
            0 <= i < a.len() ==> a[i].0.value@ == b[i].0.value@ && view_value(a[i].1) == view_value(
                b[i].1,
            ),
    ensures
        view_entries(a) == view_entries(b),
    decreases a.len(),
{
    if a.len() > 0 {
        lemma_view_entries_pointwise(
            a.subrange(1, a.len() as int),
            b.subrange(1, b.len() as int),
        );
        assert(view_entries(a) =~= view_entries(b));
    } else {
        assert(view_entries(a) =~= view_entries(b));
    }
}

/// Build a deep copy of a value: the copy has the same view and the same
/// framing positions as the original.
pub fn clone_value(v: &JsonType) -> (r: JsonType)
    ensures
        r@ == v@,
        node_pos(r) == node_pos(*v),
    decreases *v,
{
    match v {
        JsonType::String(s) => JsonType::String(
            JsonString { value: s.value.clone(), start: s.start, end: s.end },
        ),
        JsonType::Object(o) => JsonType::Object(clone_object(o)),
    }
}

/// Build a deep copy of an object: the copy has the same view and the same
/// framing positions as the original.
pub fn clone_object(o: &JsonObject) -> (r: JsonObject)
    ensures
        r@ == o@,
        r.start == o.start,
        r.end == o.end,
    decreases *o,
{
    let mut values: Vec<(JsonString, JsonType)> = Vec::new();
    let mut i: usize = 0;
    while i < o.values.len()
        invariant
            i <= o.values@.len(),
            values@.len() == i,
            forall|j: int|
                0 <= j < i ==> values@[j].0 == o.values@[j].0 && view_value(values@[j].1)
                    == view_value(o.values@[j].1),
        decreases o.values@.len() - i,
    {
        let (k, v) = &o.values[i];
        let kc = JsonString { value: k.value.clone(), start: k.start, end: k.end };
        assert(decreases_to!(*o => o.values@[i as int].1));
        let vc = clone_value(v);
        values.push((kc, vc));
        i += 1;
    }
    proof {
        lemma_view_entries_pointwise(values@, o.values@);
    }
    JsonObject { values, start: o.start, end: o.end }
}

impl PartialEq for JsonString {
    /// Two strings are the same entry text exactly when their raw
    /// characters agree; the positions play no part.
    fn eq(&self, other: &Self) -> (r: bool) {
        self.value.eq(&other.value)
    }
}

impl vstd::std_specs::cmp::PartialEqSpecImpl for JsonString {
    open spec fn obeys_eq_spec() -> bool {
        true
    }

    open spec fn eq_spec(&self, other: &Self) -> bool {
        self.value@ == other.value@
    }
}

impl Eq for JsonString {

}

impl Clone for JsonString {
    /// The copy is equal to the original, the positions included.
    fn clone(&self) -> (r: Self)
        ensures
            r == *self,
    {
        JsonString { value: self.value.clone(), start: self.start, end: self.end }
    }
}

impl Clone for JsonType {
    /// The copy has the same view and framing positions as the original.
    fn clone(&self) -> (r: Self)
        ensures
            r@ == self@,
            node_pos(r) == node_pos(*self),
    {
        clone_value(self)
    }
}

impl Clone for JsonObject {
    /// The copy has the same view and framing positions as the original.
    fn clone(&self) -> (r: Self)
        ensures
            r@ == self@,
            r.start == self.start,
            r.end == self.end,
    {
        clone_object(self)
    }
}

} // verus!
