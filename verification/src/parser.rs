//! Parsing and serializing of the restricted JSON dialect. The submodules
//! hold the style-aware machinery; this module also offers a small
//! style-blind reader for the dialect, which accepts any whitespace
//! anywhere, and a plain pretty-printer over its trees.

pub mod generator;
pub mod model;
pub mod parser;

use vstd::prelude::*;

verus! {

use vstd::string::StringExecFns;
use crate::parser::model::Pos;
use crate::parser::parser::{advance, cur_start, cur_wf, eat_multispace, pos_of, scan_string, skip_multispace, Cur};
use crate::parser::model::VNode;
use crate::util::{pop_char, push_char, str_to_chars};

/// A value as the style-blind reader sees it: a nested object or a
/// string.
#[derive(Debug)]
pub enum JsonType {
    Object(JsonObject),
    String(JsonString),
}

/// An object as the style-blind reader sees it: its entries in source
/// order and the position just after the opening brace.
#[derive(Debug)]
pub struct JsonObject {
    pub values: Vec<(JsonString, JsonType)>,
    pub position: Pos,
}

/// A string as the style-blind reader sees it: the raw characters between
/// the quotes and the position just after the opening quote.
#[derive(Debug)]
pub struct JsonString {
    pub value: String,
    pub position: Pos,
}

/// The view of a value of the style-blind reader: the same tree with the
/// positions forgotten.
pub open spec fn l_view_value(v: JsonType) -> VNode
    decreases v,
{
    match v {
        JsonType::Object(o) => VNode::Obj(l_view_entries(o.values@)),
        JsonType::String(js) => VNode::Str(js.value@),
    }
}

/// The views of an entry list of the style-blind reader.
pub open spec fn l_view_entries(es: Seq<(JsonString, JsonType)>) -> Seq<(Seq<char>, VNode)>
    decreases es,
{
    if es.len() == 0 {
        Seq::empty()
    } else {
        seq![(es[0].0.value@, l_view_value(es[0].1))] + l_view_entries(
            es.subrange(1, es.len() as int),
        )
    }
}

/// The view of an entry list has one pair per entry.
pub proof fn lemma_l_view_entries_index(es: Seq<(JsonString, JsonType)>)
    ensures
        l_view_entries(es).len() == es.len(),
        forall|i: int|
            0 <= i < es.len() ==> l_view_entries(es)[i] == (es[i].0.value@, l_view_value(
                es[i].1,
            )),
    decreases es.len(),
{
    if es.len() > 0 {
        lemma_l_view_entries_index(es.subrange(1, es.len() as int));
    }
}

/// What reading one string token at `i` does: any whitespace is skipped,
/// then a terminated string must stand here.
pub open spec fn spec_l_string(t: Seq<char>, i: int) -> Option<(int, Seq<char>)> {
    crate::parser::parser::spec_string(t, skip_multispace(t, i))
}

/// What reading one entry at `i` does, whitespace accepted between the
/// tokens: the cursor after it, the key and the value's tree.
pub open spec fn spec_l_entry(t: Seq<char>, i: int, fuel: nat) -> Option<(int, Seq<char>, VNode)>
    decreases fuel, 0int,
{
    if fuel == 0 {
        None
    } else {
        match spec_l_string(t, i) {
            None => None,
            Some((i1, key)) => {
                let i2 = skip_multispace(t, i1);
                if !(i2 < t.len() && t[i2] == ':') {
                    None
                } else {
                    let i4 = skip_multispace(t, i2 + 1);
                    if i4 < t.len() && t[i4] == '"' {
                        match crate::parser::parser::spec_string(t, i4) {
                            Some((i5, v)) => Some((i5, key, VNode::Str(v))),
                            None => None,
                        }
                    } else if i4 < t.len() && t[i4] == '{' {
                        match spec_l_object(t, i4, (fuel - 1) as nat) {
                            Some((i5, es)) => Some((i5, key, VNode::Obj(es))),
                            None => None,
                        }
                    } else {
                        None
                    }
                }
            },
        }
    }
}

/// What reading the rest of a non-empty object body at `i` does.
pub open spec fn spec_l_rest(t: Seq<char>, i: int, fuel: nat) -> Option<(
    int,
    Seq<(Seq<char>, VNode)>,
)>
    decreases fuel, 2int,
{
    if fuel == 0 {
        None
    } else {
        match spec_l_entry(t, i, (fuel - 1) as nat) {
            None => None,
            Some((i1, k, v)) => {
                let i2 = skip_multispace(t, i1);
                if !(i2 < t.len()) {
                    None
                } else if t[i2] == '}' {
                    Some((i2 + 1, seq![(k, v)]))
                } else if t[i2] == ',' {
                    match spec_l_rest(t, i2 + 1, (fuel - 1) as nat) {
                        Some((i3, es)) => Some((i3, seq![(k, v)] + es)),
                        None => None,
                    }
                } else {
                    None
                }
            },
        }
    }
}

/// What reading one object at `i` does, whitespace accepted anywhere
/// around the tokens.
pub open spec fn spec_l_object(t: Seq<char>, i: int, fuel: nat) -> Option<(
    int,
    Seq<(Seq<char>, VNode)>,
)>
    decreases fuel, 1int,
{
    if fuel == 0 {
        None
    } else {
        let i1 = skip_multispace(t, i);
        if !(i1 < t.len() && t[i1] == '{') {
            None
        } else {
            let i3 = skip_multispace(t, i1 + 1);
            if i3 < t.len() && t[i3] == '"' {
                spec_l_rest(t, i3, (fuel - 1) as nat)
            } else if i3 < t.len() && t[i3] == '}' {
                Some((i3 + 1, Seq::empty()))
            } else {
                None
            }
        }
    }
}

/// What reading a whole text does: the root object at the start, with
/// enough fuel for any input.
pub open spec fn spec_parse_root(t: Seq<char>) -> Option<(int, Seq<(Seq<char>, VNode)>)> {
    spec_l_object(t, 0, (2 * t.len() + 2) as nat)
}

/// Read one string token, any whitespace before it accepted.
fn parse_string(t: &Vec<char>, c: Cur) -> (r: Option<(Cur, JsonString)>)
    requires
        cur_wf(t@, c),
    ensures
        match r {
            Some((c2, js)) => {
                let i = skip_multispace(t@, c.i as int);
                &&& cur_wf(t@, c2)
                &&& c2.i > c.i
                &&& c2.i >= skip_multispace(t@, c.i as int) + 2
                &&& i < t@.len() && t@[i] == '"'
                &&& match scan_string(t@, i + 1) {
                    Some(e) => js.value@ == t@.subrange(i + 1, e) && js.position.offset == i + 1
                        && c2.i == e + 1,
                    None => false,
                }
            },
            None => {
                let i = skip_multispace(t@, c.i as int);
                !(i < t@.len() && t@[i] == '"' && scan_string(t@, i + 1) is Some)
            },
        },
        ({
            let sr = spec_l_string(t@, c.i as int);
            match r {
                Some((c2, js)) => sr == Some((c2.i as int, js.value@)),
                None => sr is None,
            }
        }),
{
    let c1 = eat_multispace(t, c);
    match crate::parser::parser::parse_string(t, c1) {
        Ok((c2, js)) => Some((c2, JsonString { value: js.value, position: js.start })),
        Err(_) => None,
    }
}

/// Read one `"key": value` entry, any whitespace between the tokens
/// accepted. The result is exactly what the mirror `spec_l_entry` says.
fn parse_entry(t: &Vec<char>, c: Cur) -> (r: Option<(Cur, (JsonString, JsonType))>)
    requires
        cur_wf(t@, c),
    ensures
        match r {
            Some((c2, kv)) => cur_wf(t@, c2) && c2.i > c.i,
            None => true,
        },
        forall|fuel: nat|
            fuel > 2 * (t@.len() - c.i) ==> {
                let sr = #[trigger] spec_l_entry(t@, c.i as int, fuel);
                match r {
                    Some((c2, kv)) => sr == Some(
                        (c2.i as int, kv.0.value@, l_view_value(kv.1)),
                    ),
                    None => sr is None,
                }
            },
    decreases t@.len() - c.i, 0int,
{
    let ghost i0 = c.i as int;
    let (c1, key) = match parse_string(t, c) {
        Some(x) => x,
        None => {
            return None;
        },
    };
    let c2 = eat_multispace(t, c1);
    if c2.i >= t.len() || t[c2.i] != ':' {
        return None;
    }
    let c3 = advance(t, c2);
    let c4 = eat_multispace(t, c3);
    if c4.i < t.len() && t[c4.i] == '"' {
        match parse_string(t, c4) {
            Some((c5, v)) => {
                proof {
                    assert(skip_multispace(t@, c4.i as int) == c4.i as int);
                    assert(spec_l_string(t@, c4.i as int) == Some((c5.i as int, v.value@)));
                    assert(crate::parser::parser::spec_string(t@, c4.i as int) == Some(
                        (c5.i as int, v.value@),
                    ));
                }
                Some((c5, (key, JsonType::String(v))))
            },
            None => {
                proof {
                    assert(skip_multispace(t@, c4.i as int) == c4.i as int);
                    assert(crate::parser::parser::spec_string(t@, c4.i as int) is None);
                }
                None
            },
        }
    } else if c4.i < t.len() && t[c4.i] == '{' {
        let ro = parse_object(t, c4);
        proof {
            assert(c4.i >= i0 + 3);
        }
        match ro {
            Some((c5, o)) => {
                proof {
                    assert forall|fuel: nat| fuel > 2 * (t@.len() - i0) implies {
                        let sr = #[trigger] spec_l_entry(t@, i0, fuel);
                        sr == Some((c5.i as int, key.value@, l_view_value(JsonType::Object(o))))
                    } by {
                        assert(spec_l_object(t@, c4.i as int, (fuel - 1) as nat) == Some(
                            (c5.i as int, l_view_entries(o.values@)),
                        ));
                    }
                }
                Some((c5, (key, JsonType::Object(o))))
            },
            None => {
                proof {
                    assert forall|fuel: nat| fuel > 2 * (t@.len() - i0) implies {
                        let sr = #[trigger] spec_l_entry(t@, i0, fuel);
                        sr is None
                    } by {
                        assert(spec_l_object(t@, c4.i as int, (fuel - 1) as nat) is None);
                    }
                }
                None
            },
        }
    } else {
        None
    }
}

/// Read the rest of a non-empty object body: entries separated by commas,
/// through the closing brace. The entries appended are exactly what the
/// mirror `spec_l_rest` says.
fn parse_rest(t: &Vec<char>, c: Cur, values: &mut Vec<(JsonString, JsonType)>) -> (r: Option<Cur>)
    requires
        cur_wf(t@, c),
    ensures
        match r {
            Some(c2) => cur_wf(t@, c2) && c2.i > c.i,
            None => true,
        },
        forall|fuel: nat|
            fuel > 2 * (t@.len() - c.i) + 1 ==> {
                let sr = #[trigger] spec_l_rest(t@, c.i as int, fuel);
                match r {
                    Some(c2) => match sr {
                        Some((i2, es)) => c2.i == i2 && l_view_entries(final(values)@)
                            == l_view_entries(old(values)@) + es,
                        None => false,
                    },
                    None => sr is None,
                }
            },
    decreases t@.len() - c.i, 2int,
{
    let ghost i0 = c.i as int;
    let ghost v0 = values@;
    let re = parse_entry(t, c);
    let (c1, kv) = match re {
        Some(x) => x,
        None => {
            proof {
                assert forall|fuel: nat| fuel > 2 * (t@.len() - i0) + 1 implies {
                    let sr = #[trigger] spec_l_rest(t@, i0, fuel);
                    sr is None
                } by {
                    assert(spec_l_entry(t@, i0, (fuel - 1) as nat) is None);
                }
            }
            return None;
        },
    };
    values.push(kv);
    let ghost vp = values@;
    proof {
        lemma_l_view_entries_index(v0);
        lemma_l_view_entries_index(vp);
    }
    let c2 = eat_multispace(t, c1);
    if c2.i >= t.len() {
        proof {
            assert forall|fuel: nat| fuel > 2 * (t@.len() - i0) + 1 implies {
                let sr = #[trigger] spec_l_rest(t@, i0, fuel);
                sr is None
            } by {
                assert(spec_l_entry(t@, i0, (fuel - 1) as nat) == Some(
                    (c1.i as int, kv.0.value@, l_view_value(kv.1)),
                ));
            }
        }
        return None;
    }
    if t[c2.i] == '}' {
        let c3 = advance(t, c2);
        proof {
            assert forall|fuel: nat| fuel > 2 * (t@.len() - i0) + 1 implies {
                let sr = #[trigger] spec_l_rest(t@, i0, fuel);
                match sr {
                    Some((i2, es)) => c3.i == i2 && l_view_entries(vp) == l_view_entries(v0)
                        + es,
                    None => false,
                }
            } by {
                assert(spec_l_entry(t@, i0, (fuel - 1) as nat) == Some(
                    (c1.i as int, kv.0.value@, l_view_value(kv.1)),
                ));
                assert(l_view_entries(vp) =~= l_view_entries(v0) + seq![
                    (kv.0.value@, l_view_value(kv.1)),
                ]);
            }
        }
        Some(c3)
    } else if t[c2.i] == ',' {
        let c3 = advance(t, c2);
        let rr = parse_rest(t, c3, values);
        proof {
            assert forall|fuel: nat| fuel > 2 * (t@.len() - i0) + 1 implies {
                let sr = #[trigger] spec_l_rest(t@, i0, fuel);
                match rr {
                    Some(c4) => match sr {
                        Some((i2, es)) => c4.i == i2 && l_view_entries(values@)
                            == l_view_entries(v0) + es,
                        None => false,
                    },
                    None => sr is None,
                }
            } by {
                assert(spec_l_entry(t@, i0, (fuel - 1) as nat) == Some(
                    (c1.i as int, kv.0.value@, l_view_value(kv.1)),
                ));
                let st = spec_l_rest(t@, c3.i as int, (fuel - 1) as nat);
                match rr {
                    Some(c4) => {
                        assert(st matches Some(_));
                        let stv = st->0;
                        assert(l_view_entries(vp) =~= l_view_entries(v0) + seq![
                            (kv.0.value@, l_view_value(kv.1)),
                        ]);
                        assert(l_view_entries(values@) =~= l_view_entries(v0) + (seq![
                            (kv.0.value@, l_view_value(kv.1)),
                        ] + stv.1));
                    },
                    None => {},
                }
            }
        }
        rr
    } else {
        proof {
            assert forall|fuel: nat| fuel > 2 * (t@.len() - i0) + 1 implies {
                let sr = #[trigger] spec_l_rest(t@, i0, fuel);
                sr is None
            } by {
                assert(spec_l_entry(t@, i0, (fuel - 1) as nat) == Some(
                    (c1.i as int, kv.0.value@, l_view_value(kv.1)),
                ));
            }
        }
        None
    }
}

/// Read one object, any whitespace around its tokens accepted. The result
/// is exactly what the mirror `spec_l_object` says.
fn parse_object(t: &Vec<char>, c: Cur) -> (r: Option<(Cur, JsonObject)>)
    requires
        cur_wf(t@, c),
    ensures
        match r {
            Some((c2, o)) => {
                let i = skip_multispace(t@, c.i as int);
                &&& cur_wf(t@, c2)
                &&& c2.i > c.i
                &&& i < t@.len() && t@[i] == '{'
                &&& o.position.offset == i + 1
            },
            None => true,
        },
        forall|fuel: nat|
            fuel > 2 * (t@.len() - c.i) + 1 ==> {
                let sr = #[trigger] spec_l_object(t@, c.i as int, fuel);
                match r {
                    Some((c2, o)) => sr == Some((c2.i as int, l_view_entries(o.values@))),
                    None => sr is None,
                }
            },
    decreases t@.len() - c.i, 1int,
{
    let ghost i0 = c.i as int;
    let c1 = eat_multispace(t, c);
    if c1.i >= t.len() || t[c1.i] != '{' {
        return None;
    }
    let c2 = advance(t, c1);
    let position = pos_of(c2);
    let c3 = eat_multispace(t, c2);
    if c3.i < t.len() && t[c3.i] == '"' {
        let mut values: Vec<(JsonString, JsonType)> = Vec::new();
        let rr = parse_rest(t, c3, &mut values);
        match rr {
            Some(c4) => {
                let o = JsonObject { values, position };
                proof {
                    assert forall|fuel: nat| fuel > 2 * (t@.len() - i0) + 1 implies {
                        let sr = #[trigger] spec_l_object(t@, i0, fuel);
                        sr == Some((c4.i as int, l_view_entries(o.values@)))
                    } by {
                        let st = spec_l_rest(t@, c3.i as int, (fuel - 1) as nat);
                        assert(st matches Some(_));
                        let stv = st->0;
                        lemma_l_view_entries_index(Seq::<(JsonString, JsonType)>::empty());
                        assert(l_view_entries(Seq::<(JsonString, JsonType)>::empty())
                            =~= Seq::<(Seq<char>, VNode)>::empty());
                        assert(l_view_entries(o.values@) =~= stv.1);
                    }
                }
                Some((c4, o))
            },
            None => {
                proof {
                    assert forall|fuel: nat| fuel > 2 * (t@.len() - i0) + 1 implies {
                        let sr = #[trigger] spec_l_object(t@, i0, fuel);
                        sr is None
                    } by {
                        assert(spec_l_rest(t@, c3.i as int, (fuel - 1) as nat) is None);
                    }
                }
                None
            },
        }
    } else if c3.i < t.len() && t[c3.i] == '}' {
        let c4 = advance(t, c3);
        let o = JsonObject { values: Vec::new(), position };
        proof {
            lemma_l_view_entries_index(o.values@);
            assert(l_view_entries(o.values@) =~= Seq::<(Seq<char>, VNode)>::empty());
        }
        Some((c4, o))
    } else {
        None
    }
}

/// Read a whole text as one object of the dialect, any whitespace
/// accepted anywhere; anything after the object is left alone. The read
/// succeeds exactly when the mirror `spec_parse_root` derives an object,
/// and the tree is then exactly the mirror's.
pub fn parse_root(s: &String) -> (r: Option<JsonObject>)
    ensures
        match r {
            Some(o) => match spec_parse_root(s@) {
                Some((i2, es)) => l_view_entries(o.values@) == es && o.position.offset
                    == skip_multispace(s@, 0) + 1,
                None => false,
            },
            None => spec_parse_root(s@) is None,
        },
{
    let t = str_to_chars(s.as_str());
    let ro = parse_object(&t, cur_start());
    match ro {
        Some((_, o)) => Some(o),
        None => None,
    }
}

/// The number of spaces asked for, none when the count is negative.
pub open spec fn spaces_text(n: int) -> Seq<char> {
    Seq::new(
        if n > 0 {
            n as nat
        } else {
            0
        },
        |k: int| ' ',
    )
}

/// A sum clamped into the 32-bit range.
pub open spec fn clamp_i32(x: int) -> int {
    if x > i32::MAX {
        i32::MAX as int
    } else if x < i32::MIN {
        i32::MIN as int
    } else {
        x
    }
}

/// The exact text the pretty-printer emits for a tree: `current_indent`
/// spaces before each entry of this level, `indent` more per deeper
/// level, and an empty object collapsed onto the brace line.
pub open spec fn pretty_text(n: VNode, indent: int, ci: int, le: Seq<char>) -> Seq<char>
    decreases n, 0int,
{
    match n {
        VNode::Str(v) => "\""@ + v + "\""@,
        VNode::Obj(es) => if es.len() == 0 {
            ("{"@ + le).drop_last() + "}"@
        } else {
            "{"@ + le + pretty_entries(es, indent, ci, le) + le + spaces_text(ci - indent)
                + "}"@
        },
    }
}

/// The text of one entry: its leading spaces, the quoted key, a colon and
/// a space, then its value one level deeper.
pub open spec fn pretty_entry_text(
    k: Seq<char>,
    v: VNode,
    indent: int,
    ci: int,
    le: Seq<char>,
) -> Seq<char>
    decreases v, 1int,
{
    spaces_text(ci) + "\""@ + k + "\""@ + ": "@ + pretty_text(v, indent, clamp_i32(ci + indent), le)
}

/// The text of an entry list: the entries separated by a comma and a line
/// break.
pub open spec fn pretty_entries(
    es: Seq<(Seq<char>, VNode)>,
    indent: int,
    ci: int,
    le: Seq<char>,
) -> Seq<char>
    decreases es, 2int,
{
    if es.len() == 0 {
        Seq::empty()
    } else {
        pretty_entry_text(es[0].0, es[0].1, indent, ci, le) + pretty_rest(
            es.subrange(1, es.len() as int),
            indent,
            ci,
            le,
        )
    }
}

/// The text of the entries behind the first one, each behind a comma and
/// a line break.
pub open spec fn pretty_rest(
    es: Seq<(Seq<char>, VNode)>,
    indent: int,
    ci: int,
    le: Seq<char>,
) -> Seq<char>
    decreases es, 2int,
{
    if es.len() == 0 {
        Seq::empty()
    } else {
        ","@ + le + pretty_entry_text(es[0].0, es[0].1, indent, ci, le) + pretty_rest(
            es.subrange(1, es.len() as int),
            indent,
            ci,
            le,
        )
    }
}

/// A plain pretty-printer over the style-blind reader's trees: entries on
/// their own lines, a fixed number of leading spaces per level. What it
/// writes is pinned by `pretty_text` over the tree's view.
pub trait Pretty {
    /// The tree this value prints as.
    spec fn tree(&self) -> VNode;

    /// Write this value into the buffer, its entries indented by
    /// `current_indent` spaces and each deeper level by `indent` more.
    fn pretty_impl(
        &self,
        buf: &mut String,
        indent: i32,
        current_indent: i32,
        line_ending: &'static str,
    )
        ensures
            final(buf)@ == old(buf)@ + pretty_text(
                self.tree(),
                indent as int,
                current_indent as int,
                line_ending@,
            ),
    ;

    /// Write this value into a fresh buffer.
    fn pretty(&self, indent: i32, current_indent: i32, line_ending: &'static str) -> (r: String)
        ensures
            r@ == pretty_text(
                self.tree(),
                indent as int,
                current_indent as int,
                line_ending@,
            ),
    ;
}

fn pretty_spaces(buf: &mut String, n: i64)
    ensures
        final(buf)@ == old(buf)@ + spaces_text(n as int),
{
    let mut i: i64 = 0;
    while i < n
        invariant
            0 <= i,
            i <= n || i == 0,
            buf@ == old(buf)@ + spaces_text(i as int),
        decreases n - i,
    {
        push_char(buf, ' ');
        proof {
            assert(buf@ =~= old(buf)@ + spaces_text(i as int + 1));
        }
        i = i + 1;
    }
    proof {
        assert(buf@ =~= old(buf)@ + spaces_text(n as int));
    }
}

fn pretty_value(
    v: &JsonType,
    buf: &mut String,
    indent: i32,
    current_indent: i32,
    line_ending: &'static str,
)
    ensures
        final(buf)@ == old(buf)@ + pretty_text(
            l_view_value(*v),
            indent as int,
            current_indent as int,
            line_ending@,
        ),
    decreases *v, 0int,
{
    match v {
        JsonType::Object(o) => {
            pretty_object(o, buf, indent, current_indent, line_ending);
        },
        JsonType::String(js) => {
            push_char(buf, '"');
            buf.append(js.value.as_str());
            push_char(buf, '"');
            proof {
                reveal_strlit("\"");
                assert(buf@ =~= old(buf)@ + ("\""@ + js.value@ + "\""@));
            }
        },
    }
}

fn pretty_entry(
    entry: &(JsonString, JsonType),
    buf: &mut String,
    indent: i32,
    current_indent: i32,
    line_ending: &'static str,
)
    ensures
        final(buf)@ == old(buf)@ + pretty_entry_text(
            entry.0.value@,
            l_view_value(entry.1),
            indent as int,
            current_indent as int,
            line_ending@,
        ),
    decreases *entry, 1int,
{
    pretty_spaces(buf, current_indent as i64);
    push_char(buf, '"');
    buf.append(entry.0.value.as_str());
    push_char(buf, '"');
    buf.append(": ");
    let deeper: i64 = current_indent as i64 + indent as i64;
    let deeper_clamped: i32 = if deeper > i32::MAX as i64 {
        i32::MAX
    } else if deeper < i32::MIN as i64 {
        i32::MIN
    } else {
        deeper as i32
    };
    proof {
        assert(deeper_clamped as int == clamp_i32(current_indent as int + indent as int));
    }
    pretty_value(&entry.1, buf, indent, deeper_clamped, line_ending);
    proof {
        reveal_strlit("\"");
        reveal_strlit(": ");
        assert(buf@ =~= old(buf)@ + pretty_entry_text(
            entry.0.value@,
            l_view_value(entry.1),
            indent as int,
            current_indent as int,
            line_ending@,
        ));
    }
}

fn pretty_object(
    o: &JsonObject,
    buf: &mut String,
    indent: i32,
    current_indent: i32,
    line_ending: &'static str,
)
    ensures
        final(buf)@ == old(buf)@ + pretty_text(
            VNode::Obj(l_view_entries(o.values@)),
            indent as int,
            current_indent as int,
            line_ending@,
        ),
    decreases *o, 2int,
{
    let ghost es = l_view_entries(o.values@);
    proof {
        lemma_l_view_entries_index(o.values@);
    }
    push_char(buf, '{');
    buf.append(line_ending);
    proof {
        reveal_strlit("{");
        assert(buf@ =~= old(buf)@ + ("{"@ + line_ending@));
    }
    if o.values.len() == 0 {
        pop_char(buf);
        push_char(buf, '}');
        proof {
            reveal_strlit("{");
            reveal_strlit("}");
            assert(buf@ =~= old(buf)@ + (("{"@ + line_ending@).drop_last() + "}"@));
        }
    } else {
        proof {
            assert(decreases_to!(*o => o.values@[0]));
        }
        pretty_entry(&o.values[0], buf, indent, current_indent, line_ending);
        proof {
            assert(es[0] == (o.values@[0].0.value@, l_view_value(o.values@[0].1)));
        }
        let mut i: usize = 1;
        while i < o.values.len()
            invariant
                1 <= i <= o.values@.len(),
                es == l_view_entries(o.values@),
                es.len() == o.values@.len(),
                forall|m: int|
                    0 <= m < o.values@.len() ==> #[trigger] es[m] == (
                        o.values@[m].0.value@,
                        l_view_value(o.values@[m].1),
                    ),
                buf@ + pretty_rest(
                    es.subrange(i as int, es.len() as int),
                    indent as int,
                    current_indent as int,
                    line_ending@,
                ) == old(buf)@ + "{"@ + line_ending@ + pretty_entries(
                    es,
                    indent as int,
                    current_indent as int,
                    line_ending@,
                ),
            decreases o.values@.len() - i,
        {
            let ghost bpre = buf@;
            push_char(buf, ',');
            buf.append(line_ending);
            proof {
                assert(decreases_to!(*o => o.values@[i as int]));
            }
            pretty_entry(&o.values[i], buf, indent, current_indent, line_ending);
            proof {
                reveal_strlit(",");
                let rem = es.subrange(i as int, es.len() as int);
                assert(rem[0] == es[i as int]);
                assert(rem.subrange(1, rem.len() as int) =~= es.subrange(
                    i as int + 1,
                    es.len() as int,
                ));
                assert(buf@ + pretty_rest(
                    es.subrange(i as int + 1, es.len() as int),
                    indent as int,
                    current_indent as int,
                    line_ending@,
                ) =~= old(buf)@ + "{"@ + line_ending@ + pretty_entries(
                    es,
                    indent as int,
                    current_indent as int,
                    line_ending@,
                ));
            }
            i += 1;
        }
        buf.append(line_ending);
        let closing: i64 = current_indent as i64 - indent as i64;
        pretty_spaces(buf, closing);
        push_char(buf, '}');
        proof {
            reveal_strlit("}");
            assert(pretty_rest(
                es.subrange(i as int, es.len() as int),
                indent as int,
                current_indent as int,
                line_ending@,
            ) =~= Seq::<char>::empty());
            assert(buf@ =~= old(buf)@ + pretty_text(
                VNode::Obj(es),
                indent as int,
                current_indent as int,
                line_ending@,
            ));
        }
    }
}

impl Pretty for JsonType {
    open spec fn tree(&self) -> VNode {
        l_view_value(*self)
    }

    fn pretty_impl(
        &self,
        buf: &mut String,
        indent: i32,
        current_indent: i32,
        line_ending: &'static str,
    ) {
        pretty_value(self, buf, indent, current_indent, line_ending);
    }

    fn pretty(&self, indent: i32, current_indent: i32, line_ending: &'static str) -> (r: String) {
        let mut buf = String::new();
        self.pretty_impl(&mut buf, indent, current_indent, line_ending);
        proof {
            assert(buf@ =~= pretty_text(
                self.tree(),
                indent as int,
                current_indent as int,
                line_ending@,
            ));
        }
        buf
    }
}

impl Pretty for JsonString {
    open spec fn tree(&self) -> VNode {
        VNode::Str(self.value@)
    }

    fn pretty_impl(
        &self,
        buf: &mut String,
        indent: i32,
        current_indent: i32,
        line_ending: &'static str,
    ) {
        push_char(buf, '"');
        buf.append(self.value.as_str());
        push_char(buf, '"');
        proof {
            reveal_strlit("\"");
            assert(buf@ =~= old(buf)@ + ("\""@ + self.value@ + "\""@));
        }
    }

    fn pretty(&self, indent: i32, current_indent: i32, line_ending: &'static str) -> (r: String) {
        let mut buf = String::new();
        self.pretty_impl(&mut buf, indent, current_indent, line_ending);
        proof {
            assert(buf@ =~= pretty_text(
                self.tree(),
                indent as int,
                current_indent as int,
                line_ending@,
            ));
        }
        buf
    }
}

impl Pretty for JsonObject {
    open spec fn tree(&self) -> VNode {
        VNode::Obj(l_view_entries(self.values@))
    }

    fn pretty_impl(
        &self,
        buf: &mut String,
        indent: i32,
        current_indent: i32,
        line_ending: &'static str,
    ) {
        pretty_object(self, buf, indent, current_indent, line_ending);
    }

    fn pretty(&self, indent: i32, current_indent: i32, line_ending: &'static str) -> (r: String) {
        let mut buf = String::new();
        self.pretty_impl(&mut buf, indent, current_indent, line_ending);
        proof {
            assert(buf@ =~= pretty_text(
                self.tree(),
                indent as int,
                current_indent as int,
                line_ending@,
            ));
        }
        buf
    }
}

} // verus!
