//! The entry-parity check: join the peer files of one bucket into a merged
//! reference tree, reporting value-shape conflicts on the way, then report
//! every key path the reference holds and a peer lacks.

use vstd::prelude::*;

verus! {

use crate::io::LoadedFile;
use crate::parser::model::{JsonObject, JsonString, JsonType, VNode, lemma_view_entries_index, node_pos, view_entries, view_value};

/// A value-shape conflict found while joining: the key, the value already
/// in the reference, and the value the peer holds.
pub struct Conflict {
    pub key: JsonString,
    pub left: JsonType,
    pub right: JsonType,
}

/// The value under the first occurrence of key `k`.
pub open spec fn vlookup(es: Seq<(Seq<char>, VNode)>, k: Seq<char>) -> Option<VNode>
    decreases es,
{
    if es.len() == 0 {
        None
    } else if es[0].0 == k {
        Some(es[0].1)
    } else {
        vlookup(es.subrange(1, es.len() as int), k)
    }
}

/// Whether some entry carries key `k`.
pub open spec fn has_vkey(es: Seq<(Seq<char>, VNode)>, k: Seq<char>) -> bool {
    vlookup(es, k) is Some
}

/// Merge one key and value into the reference entries: a missing key is
/// appended at the end, two objects join recursively, two strings agree,
/// and any other pairing is a conflict that leaves the reference alone.
pub open spec fn merge_into(acc: Seq<(Seq<char>, VNode)>, k: Seq<char>, v: VNode) -> (
    Seq<(Seq<char>, VNode)>,
    Seq<(Seq<char>, VNode, VNode)>,
)
    decreases v, 1int, acc,
{
    if acc.len() == 0 {
        (seq![(k, v)], Seq::empty())
    } else if acc[0].0 == k {
        match (acc[0].1, v) {
            (VNode::Obj(a), VNode::Obj(b)) => {
                let (m, w) = join_entries(a, b);
                (seq![(k, VNode::Obj(m))] + acc.subrange(1, acc.len() as int), w)
            },
            (VNode::Str(x), VNode::Str(y)) => (acc, Seq::empty()),
            _ => (acc, seq![(k, acc[0].1, v)]),
        }
    } else {
        let (r, w) = merge_into(acc.subrange(1, acc.len() as int), k, v);
        (seq![acc[0]] + r, w)
    }
}

/// Merge every entry of `b`, in order, into the reference entries `acc`;
/// the conflicts come back in the order they were found.
pub open spec fn join_entries(acc: Seq<(Seq<char>, VNode)>, b: Seq<(Seq<char>, VNode)>) -> (
    Seq<(Seq<char>, VNode)>,
    Seq<(Seq<char>, VNode, VNode)>,
)
    decreases b, 0int, b,
{
    if b.len() == 0 {
        (acc, Seq::empty())
    } else {
        let (a1, w1) = merge_into(acc, b[0].0, b[0].1);
        let (a2, w2) = join_entries(a1, b.subrange(1, b.len() as int));
        (a2, w1 + w2)
    }
}

/// The key paths reported for one reference entry against a peer object:
/// the path itself when the peer lacks the key, the nested reports when
/// both sides hold objects, nothing otherwise.
pub open spec fn missing_for(
    k: Seq<char>,
    v: VNode,
    obj: Seq<(Seq<char>, VNode)>,
    prefix: Seq<Seq<char>>,
) -> Seq<Seq<Seq<char>>>
    decreases v, 1int,
{
    match vlookup(obj, k) {
        None => seq![prefix.push(k)],
        Some(w) => match (v, w) {
            (VNode::Obj(a), VNode::Obj(b)) => missing_paths(a, b, prefix.push(k)),
            _ => Seq::empty(),
        },
    }
}

/// Every key path the reference entries hold and the peer object lacks,
/// in reference order, depth first.
pub open spec fn missing_paths(
    acc: Seq<(Seq<char>, VNode)>,
    obj: Seq<(Seq<char>, VNode)>,
    prefix: Seq<Seq<char>>,
) -> Seq<Seq<Seq<char>>>
    decreases acc, 0int,
{
    if acc.len() == 0 {
        Seq::empty()
    } else {
        missing_for(acc[0].0, acc[0].1, obj, prefix) + missing_paths(
            acc.subrange(1, acc.len() as int),
            obj,
            prefix,
        )
    }
}

/// The views of a key path.
pub open spec fn view_path(p: Seq<JsonString>) -> Seq<Seq<char>>
    decreases p,
{
    if p.len() == 0 {
        Seq::empty()
    } else {
        seq![p[0].value@] + view_path(p.subrange(1, p.len() as int))
    }
}

/// The view of a key path has one entry per key.
pub proof fn lemma_view_path_index(p: Seq<JsonString>)
    ensures
        view_path(p).len() == p.len(),
        forall|i: int| 0 <= i < p.len() ==> view_path(p)[i] == p[i].value@,
    decreases p.len(),
{
    if p.len() > 0 {
        lemma_view_path_index(p.subrange(1, p.len() as int));
    }
}

/// Find the first entry with the given key.
fn find_key(values: &Vec<(JsonString, JsonType)>, k: &JsonString) -> (r: Option<usize>)
    ensures
        match r {
            Some(i) => i < values@.len() && values@[i as int].0.value@ == k.value@ && vlookup(
                view_entries(values@),
                k.value@,
            ) == Some(view_value(values@[i as int].1)) && (forall|j: int|
                0 <= j < i ==> values@[j].0.value@ != k.value@),
            None => !has_vkey(view_entries(values@), k.value@),
        },
{
    let mut i: usize = 0;
    proof {
        assert(values@.subrange(0, values@.len() as int) =~= values@);
    }
    while i < values.len()
        invariant
            0 <= i <= values@.len(),
            forall|j: int| 0 <= j < i ==> values@[j].0.value@ != k.value@,
            vlookup(view_entries(values@), k.value@) == vlookup(
                view_entries(values@.subrange(i as int, values@.len() as int)),
                k.value@,
            ),
        decreases values@.len() - i,
    {
        let ghost rem = values@.subrange(i as int, values@.len() as int);
        proof {
            lemma_view_entries_index(rem);
            lemma_view_entries_index(rem.subrange(1, rem.len() as int));
            assert(rem[0] == values@[i as int]);
            assert(view_entries(rem).subrange(1, view_entries(rem).len() as int)
                =~= view_entries(rem.subrange(1, rem.len() as int)));
            assert(rem.subrange(1, rem.len() as int) =~= values@.subrange(
                i as int + 1,
                values@.len() as int,
            ));
        }
        if values[i].0.value.eq(&k.value) {
            return Some(i);
        }
        i += 1;
    }
    proof {
        lemma_view_entries_index(values@.subrange(i as int, values@.len() as int));
    }
    None
}

/// The views of a conflict list.
pub open spec fn view_conflicts(s: Seq<Conflict>) -> Seq<(Seq<char>, VNode, VNode)>
    decreases s,
{
    if s.len() == 0 {
        Seq::empty()
    } else {
        seq![(s[0].key.value@, s[0].left@, s[0].right@)] + view_conflicts(
            s.subrange(1, s.len() as int),
        )
    }
}

/// The view of a conflict list has one triple per conflict.
pub proof fn lemma_view_conflicts_index(s: Seq<Conflict>)
    ensures
        view_conflicts(s).len() == s.len(),
        forall|i: int|
            0 <= i < s.len() ==> view_conflicts(s)[i] == (s[i].key.value@, s[i].left@, s[i].right@),
    decreases s.len(),
{
    if s.len() > 0 {
        lemma_view_conflicts_index(s.subrange(1, s.len() as int));
    }
}

/// Merging a key that no entry carries appends it at the end and finds no
/// conflict.
proof fn lemma_merge_append(es: Seq<(Seq<char>, VNode)>, k: Seq<char>, v: VNode)
    requires
        !has_vkey(es, k),
    ensures
        merge_into(es, k, v) == (es.push((k, v)), Seq::<(Seq<char>, VNode, VNode)>::empty()),
    decreases es.len(),
{
    if es.len() == 0 {
        assert(seq![(k, v)] =~= es.push((k, v)));
    } else {
        assert(es.subrange(1, es.len() as int) =~= es.subrange(1, es.len() as int));
        lemma_merge_append(es.subrange(1, es.len() as int), k, v);
        assert(seq![es[0]] + es.subrange(1, es.len() as int).push((k, v)) =~= es.push((k, v)));
    }
}

/// Merging a key whose first occurrence stands at `i` replaces that entry
/// when both values are objects, keeps the list as it is otherwise, and
/// finds the conflicts the case calls for.
proof fn lemma_merge_at(es: Seq<(Seq<char>, VNode)>, k: Seq<char>, v: VNode, i: int)
    requires
        0 <= i < es.len(),
        es[i].0 == k,
        forall|j: int| 0 <= j < i ==> es[j].0 != k,
    ensures
        merge_into(es, k, v) == match (es[i].1, v) {
            (VNode::Obj(a), VNode::Obj(b)) => (
                es.update(i, (k, VNode::Obj(join_entries(a, b).0))),
                join_entries(a, b).1,
            ),
            (VNode::Str(x), VNode::Str(y)) => (es, Seq::<(Seq<char>, VNode, VNode)>::empty()),
            _ => (es, seq![(k, es[i].1, v)]),
        },
    decreases i,
{
    if i == 0 {
        match (es[0].1, v) {
            (VNode::Obj(a), VNode::Obj(b)) => {
                assert(seq![(k, VNode::Obj(join_entries(a, b).0))] + es.subrange(
                    1,
                    es.len() as int,
                ) =~= es.update(0, (k, VNode::Obj(join_entries(a, b).0))));
            },
            _ => {},
        }
    } else {
        let tail = es.subrange(1, es.len() as int);
        lemma_merge_at(tail, k, v, i - 1);
        assert(tail[i - 1] == es[i]);
        match (es[i].1, v) {
            (VNode::Obj(a), VNode::Obj(b)) => {
                assert(seq![es[0]] + tail.update(i - 1, (k, VNode::Obj(join_entries(a, b).0)))
                    =~= es.update(i, (k, VNode::Obj(join_entries(a, b).0))));
            },
            (VNode::Str(x), VNode::Str(y)) => {
                assert(seq![es[0]] + tail =~= es);
            },
            _ => {
                assert(seq![es[0]] + tail =~= es);
            },
        }
    }
}

/// Join one peer object into the reference object: the reference gains
/// the keys it lacked, nested objects join recursively, and every
/// value-shape conflict is recorded, in walk order, against the value the
/// reference already held.
pub fn join(warnings: &mut Vec<Conflict>, left: JsonObject, right: &JsonObject) -> (r: JsonObject)
    ensures
        view_entries(r.values@) == join_entries(
            view_entries(left.values@),
            view_entries(right.values@),
        ).0,
        view_conflicts(final(warnings)@) == view_conflicts(old(warnings)@) + join_entries(
            view_entries(left.values@),
            view_entries(right.values@),
        ).1,
        r.start == left.start,
        r.end == left.end,
    decreases *right,
{
    let ghost a0 = view_entries(left.values@);
    let ghost bfull = view_entries(right.values@);
    let ghost w0 = view_conflicts(old(warnings)@);
    let JsonObject { values: mut acc, start, end } = left;
    let mut ri: usize = 0;
    proof {
        lemma_view_conflicts_index(warnings@);
        assert(right.values@.subrange(0, right.values@.len() as int) =~= right.values@);
        assert(view_conflicts(warnings@) + join_entries(view_entries(acc@), bfull).1 =~= w0
            + join_entries(a0, bfull).1);
    }
    while ri < right.values.len()
        invariant
            0 <= ri <= right.values@.len(),
            view_entries(right.values@.subrange(ri as int, right.values@.len() as int))
                =~= view_entries(right.values@).subrange(
                ri as int,
                view_entries(right.values@).len() as int,
            ),
            join_entries(a0, bfull).0 == join_entries(
                view_entries(acc@),
                view_entries(right.values@).subrange(
                    ri as int,
                    view_entries(right.values@).len() as int,
                ),
            ).0,
            view_conflicts(warnings@) + join_entries(
                view_entries(acc@),
                view_entries(right.values@).subrange(
                    ri as int,
                    view_entries(right.values@).len() as int,
                ),
            ).1 == w0 + join_entries(a0, bfull).1,
        decreases right.values@.len() - ri,
    {
        let ghost acur = view_entries(acc@);
        let ghost brem = view_entries(right.values@).subrange(
            ri as int,
            view_entries(right.values@).len() as int,
        );
        let ghost wpre = view_conflicts(warnings@);
        proof {
            lemma_view_entries_index(right.values@);
            assert(brem[0] == (right.values@[ri as int].0.value@, view_value(
                right.values@[ri as int].1,
            )));
        }
        let rk = &right.values[ri].0;
        let rv = &right.values[ri].1;
        match find_key(&acc, rk) {
            None => {
                proof {
                    lemma_merge_append(acur, rk.value@, view_value(*rv));
                }
                let ghost accv0 = acc@;
                acc.push((rk.clone(), crate::parser::model::clone_value(rv)));
                proof {
                    lemma_view_entries_index(accv0);
                    lemma_view_entries_index(acc@);
                    assert(view_entries(acc@) =~= acur.push((rk.value@, view_value(*rv))));
                }
            },
            Some(i) => {
                proof {
                    lemma_view_entries_index(acc@);
                    assert(view_entries(acc@)[i as int] == (acc@[i as int].0.value@, view_value(
                        acc@[i as int].1,
                    )));
                    assert forall|j: int| 0 <= j < i implies view_entries(acc@)[j].0
                        != rk.value@ by {
                        assert(view_entries(acc@)[j] == (acc@[j].0.value@, view_value(acc@[j].1)));
                    }
                    lemma_merge_at(acur, rk.value@, view_value(*rv), i as int);
                }
                let is_left_obj = matches!(&acc[i].1, JsonType::Object(_));
                let is_right_obj = matches!(rv, JsonType::Object(_));
                if is_left_obj && is_right_obj {
                    let ghost accv = acc@;
                    let (ek, ev) = acc.remove(i);
                    let lo = match ev {
                        JsonType::Object(o) => o,
                        JsonType::String(_) => vstd::pervasive::unreached(),
                    };
                    let ro = match rv {
                        JsonType::Object(o) => o,
                        JsonType::String(_) => vstd::pervasive::unreached(),
                    };
                    let ghost lov = lo.values@;
                    let ghost rov = ro.values@;
                    proof {
                        assert(acur[i as int].1 == VNode::Obj(view_entries(lov)));
                        assert(view_value(*rv) == VNode::Obj(view_entries(rov)));
                        assert(decreases_to!(*right => right.values));
                        assert(decreases_to!(right.values => right.values@[ri as int]));
                        assert(decreases_to!(right.values@[ri as int] => right.values@[
                            ri as int].1));
                        assert(decreases_to!(right.values@[ri as int].1 => *ro));
                    }
                    let joined = join(warnings, lo, ro);
                    acc.insert(i, (ek, JsonType::Object(joined)));
                    proof {
                        assert(acc@ =~= accv.update(i as int, (ek, JsonType::Object(joined))));
                        lemma_view_entries_index(accv);
                        lemma_view_entries_index(acc@);
                        assert(view_entries(acc@) =~= acur.update(
                            i as int,
                            (rk.value@, VNode::Obj(
                                join_entries(view_entries(lov), view_entries(rov)).0,
                            )),
                        ));
                    }
                } else if !is_left_obj && !is_right_obj {
                } else {
                    let c = Conflict {
                        key: rk.clone(),
                        left: crate::parser::model::clone_value(&acc[i].1),
                        right: crate::parser::model::clone_value(rv),
                    };
                    let ghost wv0 = warnings@;
                    warnings.push(c);
                    proof {
                        lemma_view_conflicts_index(wv0);
                        lemma_view_conflicts_index(warnings@);
                        assert(view_conflicts(warnings@) =~= wpre.push(
                            (rk.value@, view_value(acc@[i as int].1), view_value(*rv)),
                        ));
                    }
                }
            },
        }
        ri += 1;
        proof {
            lemma_view_entries_index(right.values@);
            lemma_view_entries_index(right.values@.subrange(ri as int, right.values@.len() as int));
            assert(view_entries(right.values@.subrange(ri as int, right.values@.len() as int))
                =~= view_entries(right.values@).subrange(
                ri as int,
                view_entries(right.values@).len() as int,
            ));
            assert(brem.subrange(1, brem.len() as int) =~= view_entries(
                right.values@,
            ).subrange(ri as int, view_entries(right.values@).len() as int));
            assert(view_conflicts(warnings@) + join_entries(
                view_entries(acc@),
                view_entries(right.values@).subrange(
                    ri as int,
                    view_entries(right.values@).len() as int,
                ),
            ).1 =~= w0 + join_entries(a0, bfull).1);
        }
    }
    proof {
        assert(view_entries(right.values@).subrange(
            ri as int,
            view_entries(right.values@).len() as int,
        ).len() == 0);
        assert(view_conflicts(warnings@) =~= w0 + join_entries(a0, bfull).1);
    }
    JsonObject { values: acc, start, end }
}

/// The views of a list of key paths.
pub open spec fn view_paths(s: Seq<Vec<JsonString>>) -> Seq<Seq<Seq<char>>>
    decreases s,
{
    if s.len() == 0 {
        Seq::empty()
    } else {
        seq![view_path(s[0]@)] + view_paths(s.subrange(1, s.len() as int))
    }
}

/// The view of a path list has one path per entry.
pub proof fn lemma_view_paths_index(s: Seq<Vec<JsonString>>)
    ensures
        view_paths(s).len() == s.len(),
        forall|i: int| 0 <= i < s.len() ==> view_paths(s)[i] == view_path(s[i]@),
    decreases s.len(),
{
    if s.len() > 0 {
        lemma_view_paths_index(s.subrange(1, s.len() as int));
    }
}

/// Copy a key path.
fn clone_path(p: &Vec<JsonString>) -> (r: Vec<JsonString>)
    ensures
        r@ == p@,
{
    let mut r: Vec<JsonString> = Vec::new();
    let mut i: usize = 0;
    while i < p.len()
        invariant
            0 <= i <= p@.len(),
            r@ == p@.subrange(0, i as int),
        decreases p@.len() - i,
    {
        r.push(p[i].clone());
        proof {
            assert(r@ =~= p@.subrange(0, i as int + 1));
        }
        i += 1;
    }
    proof {
        assert(r@ =~= p@);
    }
    r
}

/// Walk the reference against one peer object and record every key path
/// the reference holds under `path` that the peer lacks.
pub fn compare(
    warnings: &mut Vec<Vec<JsonString>>,
    acc: &JsonObject,
    object: &JsonObject,
    path: &Vec<JsonString>,
)
    ensures
        view_paths(final(warnings)@) == view_paths(old(warnings)@) + missing_paths(
            view_entries(acc.values@),
            view_entries(object.values@),
            view_path(path@),
        ),
    decreases *acc,
{
    let ghost w0 = view_paths(old(warnings)@);
    let ghost afull = view_entries(acc.values@);
    let mut ai: usize = 0;
    proof {
        assert(acc.values@.subrange(0, acc.values@.len() as int) =~= acc.values@);
        lemma_view_entries_index(acc.values@);
        assert((w0 + missing_paths(
            view_entries(acc.values@.subrange(0, acc.values@.len() as int)),
            view_entries(object.values@),
            view_path(path@),
        )) =~= (w0 + missing_paths(afull, view_entries(object.values@), view_path(path@))));
    }
    while ai < acc.values.len()
        invariant
            0 <= ai <= acc.values@.len(),
            view_paths(warnings@) + missing_paths(
                view_entries(acc.values@.subrange(ai as int, acc.values@.len() as int)),
                view_entries(object.values@),
                view_path(path@),
            ) == w0 + missing_paths(afull, view_entries(object.values@), view_path(path@)),
        decreases acc.values@.len() - ai,
    {
        let ghost rem = acc.values@.subrange(ai as int, acc.values@.len() as int);
        let ghost wpre = view_paths(warnings@);
        proof {
            lemma_view_entries_index(rem);
            lemma_view_entries_index(acc.values@);
            assert(rem[0] == acc.values@[ai as int]);
            assert(view_entries(rem)[0] == (acc.values@[ai as int].0.value@, view_value(
                acc.values@[ai as int].1,
            )));
        }
        let k = &acc.values[ai].0;
        let v = &acc.values[ai].1;
        match find_key(&object.values, k) {
            None => {
                let mut p = clone_path(path);
                p.push(k.clone());
                let ghost wv0 = warnings@;
                warnings.push(p);
                proof {
                    lemma_view_paths_index(wv0);
                    lemma_view_paths_index(warnings@);
                    lemma_view_path_index(path@);
                    lemma_view_path_index(path@.push(*k));
                    assert(path@.push(*k).subrange(0, path@.len() as int) =~= path@);
                    assert(view_path(path@.push(*k)) =~= view_path(path@).push(k.value@));
                    assert(view_paths(warnings@) =~= wpre.push(view_path(path@).push(k.value@)));
                }
            },
            Some(oi) => {
                let both_obj = matches!(v, JsonType::Object(_)) && matches!(
                    &object.values[oi].1,
                    JsonType::Object(_),
                );
                if both_obj {
                    let a = match v {
                        JsonType::Object(o) => o,
                        JsonType::String(_) => vstd::pervasive::unreached(),
                    };
                    let b = match &object.values[oi].1 {
                        JsonType::Object(o) => o,
                        JsonType::String(_) => vstd::pervasive::unreached(),
                    };
                    let mut p2 = clone_path(path);
                    p2.push(k.clone());
                    proof {
                        assert(decreases_to!(*acc => acc.values));
                        assert(decreases_to!(acc.values => acc.values@[ai as int]));
                        assert(decreases_to!(acc.values@[ai as int] => acc.values@[ai as int].1));
                        assert(decreases_to!(acc.values@[ai as int].1 => *a));
                        lemma_view_path_index(path@);
                        lemma_view_path_index(p2@);
                        assert(p2@.subrange(0, path@.len() as int) =~= path@);
                        assert(view_path(p2@) =~= view_path(path@).push(k.value@));
                    }
                    compare(warnings, a, b, &p2);
                } else {
                }
            },
        }
        ai += 1;
        proof {
            lemma_view_entries_index(acc.values@.subrange(ai as int, acc.values@.len() as int));
            assert(view_entries(rem).subrange(1, view_entries(rem).len() as int) =~= view_entries(
                acc.values@.subrange(ai as int, acc.values@.len() as int),
            ));
            assert(view_paths(warnings@) =~= wpre + missing_for(
                view_entries(rem)[0].0,
                view_entries(rem)[0].1,
                view_entries(object.values@),
                view_path(path@),
            ));
            assert(missing_paths(view_entries(rem), view_entries(object.values@), view_path(path@))
                =~= missing_for(
                view_entries(rem)[0].0,
                view_entries(rem)[0].1,
                view_entries(object.values@),
                view_path(path@),
            ) + missing_paths(
                view_entries(acc.values@.subrange(ai as int, acc.values@.len() as int)),
                view_entries(object.values@),
                view_path(path@),
            ));
            assert(view_paths(warnings@) + missing_paths(
                view_entries(acc.values@.subrange(ai as int, acc.values@.len() as int)),
                view_entries(object.values@),
                view_path(path@),
            ) =~= w0 + missing_paths(afull, view_entries(object.values@), view_path(path@)));
        }
    }
}

/// The reference entries and the conflicts, in order, that fall out when
/// the peers from index `i` on are joined into `acc`, one after the
/// other.
pub open spec fn join_fold(
    acc: Seq<(Seq<char>, VNode)>,
    files: Seq<(LoadedFile, JsonObject)>,
    i: int,
) -> (Seq<(Seq<char>, VNode)>, Seq<(Seq<char>, VNode, VNode)>)
    decreases files.len() - i,
{
    if i < 0 || i >= files.len() {
        (acc, Seq::empty())
    } else {
        let (a2, w) = join_entries(acc, view_entries(files[i].1.values@));
        let (af, ws) = join_fold(a2, files, i + 1);
        (af, w + ws)
    }
}

/// How every conflict report begins: the tag, the key, and the first
/// peer's path, which every conflict is cited against.
pub open spec fn conflict_prefix(key: Seq<char>, l_path: Seq<char>) -> Seq<char> {
    "[PARITY] Found different value types for key \""@ + key + "\"\n"@ + l_path + "\n"@
}

/// Whether a report opens with the conflict prefix for the given key and
/// first-peer path.
pub open spec fn conflict_report_ok(msg: Seq<char>, key: Seq<char>, l_path: Seq<char>) -> bool {
    let pre = conflict_prefix(key, l_path);
    msg.len() >= pre.len() && msg.subrange(0, pre.len() as int) == pre
}

/// The dotted writing of a key path, each key in quotes.
pub open spec fn dotted(p: Seq<Seq<char>>) -> Seq<char>
    decreases p,
{
    if p.len() == 0 {
        Seq::empty()
    } else if p.len() == 1 {
        "\""@ + p[0] + "\""@
    } else {
        "\""@ + p[0] + "\""@ + "."@ + dotted(p.subrange(1, p.len() as int))
    }
}

/// The message reported for one key path missing from one file.
pub open spec fn missing_msg(path: Seq<Seq<char>>, file: Seq<char>) -> Seq<char> {
    "[PARITY] Cannot find key `"@ + dotted(path) + "` in file "@ + file
}

/// The messages reported for a list of missing key paths in one file.
pub open spec fn render_missing(paths: Seq<Seq<Seq<char>>>, file: Seq<char>) -> Seq<Seq<char>>
    decreases paths,
{
    if paths.len() == 0 {
        Seq::empty()
    } else {
        seq![missing_msg(paths[0], file)] + render_missing(
            paths.subrange(1, paths.len() as int),
            file,
        )
    }
}

/// The missing-key messages of every file from index `i` on, each checked
/// against the final reference entries.
pub open spec fn spec_missing_tail(
    files: Seq<(LoadedFile, JsonObject)>,
    acc: Seq<(Seq<char>, VNode)>,
    i: int,
) -> Seq<Seq<char>>
    decreases files.len() - i,
{
    if i < 0 || i >= files.len() {
        Seq::empty()
    } else {
        render_missing(
            missing_paths(acc, view_entries(files[i].1.values@), Seq::empty()),
            files[i].0.0@,
        ) + spec_missing_tail(files, acc, i + 1)
    }
}

/// A line number clamped into a 32-bit count.
pub open spec fn clamp_line(n: int) -> int {
    if n > u32::MAX {
        u32::MAX as int
    } else {
        n
    }
}

fn line_u32(n: usize) -> (r: u32)
    ensures
        r as int == clamp_line(n as int),
{
    if n > u32::MAX as usize {
        u32::MAX
    } else {
        n as u32
    }
}

/// The message reported for one value-shape conflict: the key, then the
/// two files and the source context of each conflicting value.
pub open spec fn conflict_msg(
    c: Conflict,
    l_path: Seq<char>,
    l_content: Seq<char>,
    r_path: Seq<char>,
    r_content: Seq<char>,
) -> Seq<char> {
    "[PARITY] Found different value types for key \""@ + c.key.value@ + "\"\n"@ + l_path + "\n"@
        + crate::util::spec_print_lines(
        clamp_line(node_pos(c.left).0.line as int),
        clamp_line(node_pos(c.left).1.line as int),
        l_content,
    ) + "\n"@ + r_path + "\n"@ + crate::util::spec_print_lines(
        clamp_line(node_pos(c.right).0.line as int),
        clamp_line(node_pos(c.right).1.line as int),
        r_content,
    )
}

/// Appending one key to a path appends one quoted key to its dotted
/// writing, behind a dot unless the path was empty.
proof fn lemma_dotted_snoc(p: Seq<Seq<char>>, x: Seq<char>)
    ensures
        p.len() == 0 ==> dotted(p.push(x)) == "\""@ + x + "\""@,
        p.len() > 0 ==> dotted(p.push(x)) == dotted(p) + "."@ + "\""@ + x + "\""@,
    decreases p.len(),
{
    if p.len() == 0 {
        assert(p.push(x)[0] == x);
    } else {
        let q = p.push(x);
        assert(q.subrange(1, q.len() as int) =~= p.subrange(1, p.len() as int).push(x));
        lemma_dotted_snoc(p.subrange(1, p.len() as int), x);
        if p.len() == 1 {
            assert(dotted(q) =~= dotted(p) + "."@ + "\""@ + x + "\""@);
        } else {
            assert(dotted(q) =~= dotted(p) + "."@ + "\""@ + x + "\""@);
        }
    }
}

/// Write a key path with dots between its quoted keys.
fn dotted_exec(p: &Vec<JsonString>) -> (r: String)
    ensures
        r@ == dotted(view_path(p@)),
{
    let mut r = String::new();
    let mut i: usize = 0;
    let ghost vp = view_path(p@);
    proof {
        lemma_view_path_index(p@);
        assert(vp.subrange(0, 0) =~= Seq::<Seq<char>>::empty());
    }
    while i < p.len()
        invariant
            0 <= i <= p@.len(),
            vp == view_path(p@),
            vp.len() == p@.len(),
            forall|m: int| 0 <= m < p@.len() ==> vp[m] == p@[m].value@,
            r@ == dotted(vp.subrange(0, i as int)),
        decreases p@.len() - i,
    {
        let ghost rpre = r@;
        if i > 0 {
            crate::util::push_char(&mut r, '.');
        }
        crate::util::push_char(&mut r, '"');
        r.append(p[i].value.as_str());
        crate::util::push_char(&mut r, '"');
        proof {
            reveal_strlit("\"");
            reveal_strlit(".");
            assert(vp.subrange(0, i as int + 1) =~= vp.subrange(0, i as int).push(
                vp[i as int],
            ));
            lemma_dotted_snoc(vp.subrange(0, i as int), vp[i as int]);
            if i == 0 {
                assert(r@ =~= "\""@ + vp[0] + "\""@);
            } else {
                assert(r@ =~= rpre + "."@ + "\""@ + vp[i as int] + "\""@);
                assert(r@ =~= dotted(vp.subrange(0, i as int)) + "."@ + "\""@ + vp[i as int]
                    + "\""@);
            }
            assert(r@ =~= dotted(vp.subrange(0, i as int + 1)));
        }
        i += 1;
    }
    proof {
        assert(vp.subrange(0, i as int) =~= vp);
    }
    r
}

/// Write the message for one key path missing from one file.
fn missing_msg_exec(path: &Vec<JsonString>, file: &String) -> (r: String)
    ensures
        r@ == missing_msg(view_path(path@), file@),
{
    let mut r = "[PARITY] Cannot find key `".to_owned();
    let d = dotted_exec(path);
    r.append(d.as_str());
    r.append("` in file ");
    r.append(file.as_str());
    proof {
        assert(r@ =~= missing_msg(view_path(path@), file@));
    }
    r
}

/// Write the message for one value-shape conflict, citing the reference
/// value's place in the first peer and the conflicting value's place in
/// the current one, each with its source context.
fn conflict_msg_exec(c: &Conflict, l_file: &LoadedFile, r_file: &LoadedFile) -> (r: String)
    ensures
        r@ == conflict_msg(*c, l_file.0@, l_file.1@, r_file.0@, r_file.1@),
{
    let mut m = "[PARITY] Found different value types for key \"".to_owned();
    m.append(c.key.value.as_str());
    m.append("\"\n");
    m.append(l_file.path().as_str());
    m.append("\n");
    let (ls, le) = match &c.left {
        JsonType::Object(o) => (o.start, o.end),
        JsonType::String(s) => (s.start, s.end),
    };
    let lw = crate::util::print_lines(
        line_u32(ls.line)..line_u32(le.line),
        l_file.content().as_str(),
    );
    m.append(lw.as_str());
    m.append("\n");
    m.append(r_file.path().as_str());
    m.append("\n");
    let (rs, re) = match &c.right {
        JsonType::Object(o) => (o.start, o.end),
        JsonType::String(s) => (s.start, s.end),
    };
    let rw = crate::util::print_lines(
        line_u32(rs.line)..line_u32(re.line),
        r_file.content().as_str(),
    );
    m.append(rw.as_str());
    proof {
        assert(m@ =~= conflict_msg(*c, l_file.0@, l_file.1@, r_file.0@, r_file.1@));
    }
    m
}

/// The views of a list of owned strings.
pub open spec fn view_strings(s: Seq<String>) -> Seq<Seq<char>>
    decreases s,
{
    if s.len() == 0 {
        Seq::empty()
    } else {
        seq![s[0]@] + view_strings(s.subrange(1, s.len() as int))
    }
}

/// The view of a string list has one text per string.
pub proof fn lemma_view_strings_index(s: Seq<String>)
    ensures
        view_strings(s).len() == s.len(),
        forall|i: int| 0 <= i < s.len() ==> view_strings(s)[i] == s[i]@,
    decreases s.len(),
{
    if s.len() > 0 {
        lemma_view_strings_index(s.subrange(1, s.len() as int));
    }
}

/// The rendered missing-key messages carry one message per path.
pub proof fn lemma_render_missing_index(paths: Seq<Seq<Seq<char>>>, file: Seq<char>)
    ensures
        render_missing(paths, file).len() == paths.len(),
        forall|i: int|
            0 <= i < paths.len() ==> render_missing(paths, file)[i] == missing_msg(
                paths[i],
                file,
            ),
    decreases paths.len(),
{
    if paths.len() > 0 {
        lemma_render_missing_index(paths.subrange(1, paths.len() as int), file);
    }
}

/// Check one bucket of peer files: join them all into a reference tree,
/// reporting each value-shape conflict once as it is found, then report
/// every key path the reference holds and some file lacks. An empty
/// bucket reports nothing.
pub fn entry_parity(files: &Vec<(LoadedFile, JsonObject)>) -> (r: Vec<String>)
    ensures
        files@.len() == 0 ==> r@.len() == 0,
        files@.len() > 0 ==> {
            let a0 = view_entries(files@[0].1.values@);
            let (accf, ws) = join_fold(a0, files@, 1);
            &&& r@.len() == ws.len() + spec_missing_tail(files@, accf, 0).len()
            &&& view_strings(r@.subrange(ws.len() as int, r@.len() as int)) == spec_missing_tail(
                files@,
                accf,
                0,
            )
            &&& forall|k: int|
                0 <= k < ws.len() ==> conflict_report_ok(
                    (#[trigger] r@[k])@,
                    ws[k].0,
                    files@[0].0.0@,
                )
        },
{
    let mut warnings: Vec<String> = Vec::new();
    if files.len() == 0 {
        return warnings;
    }
    let ghost a0 = view_entries(files@[0].1.values@);
    let ghost total = join_fold(a0, files@, 1);
    let mut acc = crate::parser::model::clone_object(&files[0].1);
    let mut pi: usize = 1;
    while pi < files.len()
        invariant
            1 <= pi <= files@.len(),
            total == join_fold(a0, files@, 1),
            join_fold(view_entries(acc.values@), files@, pi as int).0 == total.0,
            warnings@.len() + join_fold(view_entries(acc.values@), files@, pi as int).1.len()
                == total.1.len(),
            total.1 == total.1.subrange(0, warnings@.len() as int) + join_fold(
                view_entries(acc.values@),
                files@,
                pi as int,
            ).1,
            forall|m: int|
                0 <= m < warnings@.len() ==> conflict_report_ok(
                    (#[trigger] warnings@[m])@,
                    total.1[m].0,
                    files@[0].0.0@,
                ),
        decreases files@.len() - pi,
    {
        let ghost acur = view_entries(acc.values@);
        let ghost wlen0 = warnings@.len();
        let ghost wpre1 = warnings@;
        let mut jw: Vec<Conflict> = Vec::new();
        proof {
            lemma_view_conflicts_index(jw@);
            assert(view_conflicts(jw@) =~= Seq::<(Seq<char>, VNode, VNode)>::empty());
        }
        acc = join(&mut jw, acc, &files[pi].1);
        let ghost w = view_conflicts(jw@);
        proof {
            lemma_view_conflicts_index(jw@);
            assert(w == join_entries(acur, view_entries(files@[pi as int].1.values@)).1);
            assert(forall|m: int|
                0 <= m < w.len() ==> total.1[wlen0 + m] == #[trigger] w[m]);
        }
        let mut ci: usize = 0;
        while ci < jw.len()
            invariant
                0 <= ci <= jw@.len(),
                1 <= pi < files@.len(),
                w == view_conflicts(jw@),
                w.len() == jw@.len(),
                forall|m: int|
                    0 <= m < jw@.len() ==> #[trigger] w[m] == (
                        jw@[m].key.value@,
                        jw@[m].left@,
                        jw@[m].right@,
                    ),
                wlen0 + w.len() <= total.1.len(),
                forall|m: int| 0 <= m < w.len() ==> total.1[wlen0 + m] == #[trigger] w[m],
                warnings@.len() == wlen0 + ci,
                warnings@.subrange(0, wlen0 as int) =~= wpre1,
                forall|m: int|
                    0 <= m < warnings@.len() ==> conflict_report_ok(
                        (#[trigger] warnings@[m])@,
                        total.1[m].0,
                        files@[0].0.0@,
                    ),
            decreases jw@.len() - ci,
        {
            let msg = conflict_msg_exec(&jw[ci], &files[0].0, &files[pi].0);
            let ghost mv = msg@;
            proof {
                let pre = conflict_prefix(jw@[ci as int].key.value@, files@[0].0.0@);
                assert(msg@.len() >= pre.len());
                assert(msg@.subrange(0, pre.len() as int) =~= pre);
                assert(conflict_report_ok(msg@, jw@[ci as int].key.value@, files@[0].0.0@));
            }
            let ghost wv0 = warnings@;
            warnings.push(msg);
            proof {
                assert(warnings@.subrange(0, wlen0 as int) =~= wpre1);
                assert(warnings@[wlen0 + ci as int]@ == mv);
                assert(total.1[wlen0 + ci as int] == w[ci as int]);
                assert(conflict_report_ok(
                    warnings@[wlen0 + ci as int]@,
                    total.1[wlen0 + ci as int].0,
                    files@[0].0.0@,
                ));
                assert forall|m: int|
                    0 <= m < warnings@.len() implies conflict_report_ok(
                    (#[trigger] warnings@[m])@,
                    total.1[m].0,
                    files@[0].0.0@,
                ) by {
                    if m < wlen0 + ci {
                        assert(warnings@[m] == wv0[m]);
                    }
                }
            }
            ci += 1;
        }
        pi += 1;
        proof {
            assert(total.1 =~= total.1.subrange(0, warnings@.len() as int) + join_fold(
                view_entries(acc.values@),
                files@,
                pi as int,
            ).1);
            assert forall|m: int|
                0 <= m < warnings@.len() implies conflict_report_ok(
                (#[trigger] warnings@[m])@,
                total.1[m].0,
                files@[0].0.0@,
            ) by {
                if m < wlen0 {
                    assert(warnings@.subrange(0, wlen0 as int)[m] == warnings@[m]);
                    assert(wpre1[m] == warnings@[m]);
                }
            }
        }
    }
    proof {
        assert(join_fold(view_entries(acc.values@), files@, pi as int).1.len() == 0);
        assert(join_fold(view_entries(acc.values@), files@, pi as int).0 == view_entries(
            acc.values@,
        ));
        assert(warnings@.len() == total.1.len());
    }
    let ghost ccount = total.1.len() as int;
    let mut fi: usize = 0;
    proof {
        lemma_view_strings_index(warnings@.subrange(ccount, warnings@.len() as int));
        assert(view_strings(warnings@.subrange(ccount, warnings@.len() as int))
            =~= Seq::<Seq<char>>::empty());
    }
    while fi < files.len()
        invariant
            0 <= fi <= files@.len(),
            total.0 == view_entries(acc.values@),
            total == join_fold(a0, files@, 1),
            warnings@.len() >= ccount >= 0,
            ccount == total.1.len(),
            view_strings(warnings@.subrange(ccount, warnings@.len() as int))
                + spec_missing_tail(files@, total.0, fi as int) == spec_missing_tail(
                files@,
                total.0,
                0,
            ),
            forall|m: int|
                0 <= m < ccount ==> conflict_report_ok(
                    (#[trigger] warnings@[m])@,
                    total.1[m].0,
                    files@[0].0.0@,
                ),
        decreases files@.len() - fi,
    {
        let ghost wpre = warnings@;
        let mut cw: Vec<Vec<JsonString>> = Vec::new();
        proof {
            lemma_view_paths_index(cw@);
            assert(view_paths(cw@) =~= Seq::<Seq<Seq<char>>>::empty());
        }
        let empty_path: Vec<JsonString> = Vec::new();
        compare(&mut cw, &acc, &files[fi].1, &empty_path);
        proof {
            lemma_view_paths_index(cw@);
            assert(view_path(empty_path@) =~= Seq::<Seq<char>>::empty());
            assert(view_paths(cw@) =~= missing_paths(
                total.0,
                view_entries(files@[fi as int].1.values@),
                Seq::empty(),
            ));
        }
        let ghost paths = view_paths(cw@);
        let mut mi: usize = 0;
        while mi < cw.len()
            invariant
                0 <= mi <= cw@.len(),
                0 <= fi < files@.len(),
                paths == view_paths(cw@),
                paths.len() == cw@.len(),
                forall|m: int| 0 <= m < cw@.len() ==> paths[m] == view_path(cw@[m]@),
                warnings@.len() == wpre.len() + mi,
                wpre.len() >= ccount,
                ccount == total.1.len(),
                warnings@.subrange(0, wpre.len() as int) =~= wpre,
                forall|m: int|
                    0 <= m < ccount ==> conflict_report_ok(
                        (#[trigger] wpre[m])@,
                        total.1[m].0,
                        files@[0].0.0@,
                    ),
                forall|m: int|
                    0 <= m < mi ==> warnings@[wpre.len() + m]@ == missing_msg(
                        paths[m],
                        files@[fi as int].0.0@,
                    ),
            decreases cw@.len() - mi,
        {
            let msg = missing_msg_exec(&cw[mi], files[fi].0.path());
            warnings.push(msg);
            mi += 1;
            proof {
                assert(warnings@.subrange(0, wpre.len() as int) =~= wpre);
                assert forall|m: int|
                    0 <= m < ccount implies conflict_report_ok(
                    (#[trigger] warnings@[m])@,
                    total.1[m].0,
                    files@[0].0.0@,
                ) by {
                    assert(warnings@.subrange(0, wpre.len() as int)[m] == warnings@[m]);
                    assert(wpre[m] == warnings@[m]);
                }
            }
        }
        fi += 1;
        proof {
            assert forall|m: int|
                0 <= m < ccount implies conflict_report_ok(
                (#[trigger] warnings@[m])@,
                total.1[m].0,
                files@[0].0.0@,
            ) by {
                assert(warnings@.subrange(0, wpre.len() as int)[m] == warnings@[m]);
                assert(wpre[m] == warnings@[m]);
            }
            lemma_view_strings_index(warnings@.subrange(ccount, warnings@.len() as int));
            lemma_view_strings_index(wpre.subrange(ccount, wpre.len() as int));
            lemma_render_missing_index(paths, files@[fi - 1].0.0@);
            assert(view_strings(warnings@.subrange(ccount, warnings@.len() as int))
                =~= view_strings(wpre.subrange(ccount, wpre.len() as int)) + render_missing(
                paths,
                files@[fi - 1].0.0@,
            ));
            assert(view_strings(warnings@.subrange(ccount, warnings@.len() as int))
                + spec_missing_tail(files@, total.0, fi as int) =~= spec_missing_tail(
                files@,
                total.0,
                0,
            ));
        }
    }
    proof {
        assert(spec_missing_tail(files@, total.0, fi as int).len() == 0);
        lemma_view_strings_index(warnings@.subrange(ccount, warnings@.len() as int));
        assert(view_strings(warnings@.subrange(ccount, warnings@.len() as int))
            =~= spec_missing_tail(files@, total.0, 0));
    }
    warnings
}

proof fn lemma_merge_keys(acc: Seq<(Seq<char>, VNode)>, k0: Seq<char>, v: VNode, k: Seq<char>)
    ensures
        has_vkey(merge_into(acc, k0, v).0, k) <==> (has_vkey(acc, k) || k == k0),
    decreases acc.len(),
{
    let r = merge_into(acc, k0, v).0;
    if acc.len() == 0 {
        assert(r == seq![(k0, v)]);
        assert(r.subrange(1, r.len() as int) =~= Seq::<(Seq<char>, VNode)>::empty());
        if k != k0 {
            assert(vlookup(r, k) == vlookup(r.subrange(1, r.len() as int), k));
        }
    } else if acc[0].0 == k0 {
        match (acc[0].1, v) {
            (VNode::Obj(a), VNode::Obj(b)) => {
                assert(r == seq![(k0, VNode::Obj(join_entries(a, b).0))] + acc.subrange(
                    1,
                    acc.len() as int,
                ));
                assert(r[0].0 == k0);
                assert(r.subrange(1, r.len() as int) =~= acc.subrange(1, acc.len() as int));
                if k != k0 {
                    assert(vlookup(r, k) == vlookup(acc.subrange(1, acc.len() as int), k));
                    assert(vlookup(acc, k) == vlookup(acc.subrange(1, acc.len() as int), k));
                }
            },
            (VNode::Str(x), VNode::Str(y)) => {
                assert(r == acc);
            },
            _ => {
                assert(r == acc);
            },
        }
    } else {
        lemma_merge_keys(acc.subrange(1, acc.len() as int), k0, v, k);
        assert(r == seq![acc[0]] + merge_into(acc.subrange(1, acc.len() as int), k0, v).0);
        assert(r.subrange(1, r.len() as int) =~= merge_into(
            acc.subrange(1, acc.len() as int),
            k0,
            v,
        ).0);
        if k != acc[0].0 {
            assert(vlookup(r, k) == vlookup(r.subrange(1, r.len() as int), k));
            assert(vlookup(acc, k) == vlookup(acc.subrange(1, acc.len() as int), k));
        }
    }
}

/// Law: after every peer is joined in, the reference holds a key exactly
/// when one of the sides held it. So a key is reported as missing in a
/// file exactly when some peer contains it and that file does not.
pub proof fn lemma_join_key_union(a: Seq<(Seq<char>, VNode)>, b: Seq<(Seq<char>, VNode)>, k: Seq<
    char,
>)
    ensures
        has_vkey(join_entries(a, b).0, k) <==> (has_vkey(a, k) || has_vkey(b, k)),
    decreases b.len(),
{
    if b.len() > 0 {
        lemma_merge_keys(a, b[0].0, b[0].1, k);
        lemma_join_key_union(merge_into(a, b[0].0, b[0].1).0, b.subrange(1, b.len() as int), k);
    }
}

/// Every path the walk reports extends the prefix it was started with by
/// at least one key.
proof fn lemma_missing_prefix(
    acc: Seq<(Seq<char>, VNode)>,
    obj: Seq<(Seq<char>, VNode)>,
    prefix: Seq<Seq<char>>,
)
    ensures
        forall|m: int|
            0 <= m < missing_paths(acc, obj, prefix).len() ==> {
                let p = #[trigger] missing_paths(acc, obj, prefix)[m];
                p.len() > prefix.len() && p.subrange(0, prefix.len() as int) == prefix
            },
    decreases acc, 0int,
{
    if acc.len() > 0 {
        lemma_missing_for_prefix(acc[0].0, acc[0].1, obj, prefix);
        lemma_missing_prefix(acc.subrange(1, acc.len() as int), obj, prefix);
        let head = missing_for(acc[0].0, acc[0].1, obj, prefix);
        let tail = missing_paths(acc.subrange(1, acc.len() as int), obj, prefix);
        assert(missing_paths(acc, obj, prefix) == head + tail);
        assert forall|m: int|
            0 <= m < missing_paths(acc, obj, prefix).len() implies {
            let p = #[trigger] missing_paths(acc, obj, prefix)[m];
            p.len() > prefix.len() && p.subrange(0, prefix.len() as int) == prefix
        } by {
            if m < head.len() {
                assert(missing_paths(acc, obj, prefix)[m] == head[m]);
            } else {
                assert(missing_paths(acc, obj, prefix)[m] == tail[m - head.len()]);
            }
        }
    }
}

proof fn lemma_missing_for_prefix(
    k: Seq<char>,
    v: VNode,
    obj: Seq<(Seq<char>, VNode)>,
    prefix: Seq<Seq<char>>,
)
    ensures
        forall|m: int|
            0 <= m < missing_for(k, v, obj, prefix).len() ==> {
                let p = #[trigger] missing_for(k, v, obj, prefix)[m];
                p.len() > prefix.len() && p.subrange(0, prefix.len() as int) == prefix
            },
    decreases v, 1int,
{
    match vlookup(obj, k) {
        None => {
            assert(missing_for(k, v, obj, prefix)[0] == prefix.push(k));
            assert(prefix.push(k).subrange(0, prefix.len() as int) =~= prefix);
        },
        Some(w) => {
            match (v, w) {
                (VNode::Obj(a), VNode::Obj(b)) => {
                    lemma_missing_prefix(a, b, prefix.push(k));
                    assert(missing_for(k, v, obj, prefix) == missing_paths(
                        a,
                        b,
                        prefix.push(k),
                    ));
                    assert forall|m: int|
                        0 <= m < missing_for(k, v, obj, prefix).len() implies {
                        let p = #[trigger] missing_for(k, v, obj, prefix)[m];
                        p.len() > prefix.len() && p.subrange(0, prefix.len() as int) == prefix
                    } by {
                        let p = missing_paths(a, b, prefix.push(k))[m];
                        assert(missing_for(k, v, obj, prefix)[m] == p);
                        assert(p.len() > prefix.push(k).len() && p.subrange(
                            0,
                            prefix.push(k).len() as int,
                        ) == prefix.push(k));
                        assert(p.subrange(0, prefix.len() as int) =~= prefix) by {
                            assert(forall|t: int|
                                0 <= t < prefix.len() ==> p.subrange(
                                    0,
                                    prefix.push(k).len() as int,
                                )[t] == prefix.push(k)[t]);
                        }
                    }
                },
                _ => {},
            }
        },
    }
}

/// Law: a single key is reported as missing from a peer exactly when the
/// reference holds it at the top level and the peer does not.
pub proof fn lemma_missing_key_reported(
    acc: Seq<(Seq<char>, VNode)>,
    obj: Seq<(Seq<char>, VNode)>,
    k: Seq<char>,
)
    ensures
        missing_paths(acc, obj, Seq::empty()).contains(seq![k]) <==> (has_vkey(acc, k)
            && !has_vkey(obj, k)),
    decreases acc.len(),
{
    let e = Seq::<Seq<char>>::empty();
    if acc.len() == 0 {
    } else {
        lemma_missing_key_reported(acc.subrange(1, acc.len() as int), obj, k);
        let head = missing_for(acc[0].0, acc[0].1, obj, e);
        let tail = missing_paths(acc.subrange(1, acc.len() as int), obj, e);
        let whole = missing_paths(acc, obj, e);
        assert(whole == head + tail);
        match vlookup(obj, acc[0].0) {
            None => {
                assert(head == seq![e.push(acc[0].0)]);
                assert(e.push(acc[0].0) =~= seq![acc[0].0]);
                if acc[0].0 == k {
                    assert(whole[0] == seq![k]);
                    assert(whole.contains(seq![k]));
                    assert(has_vkey(acc, k));
                } else {
                    assert(seq![acc[0].0] != seq![k]) by {
                        assert(seq![acc[0].0][0] == acc[0].0);
                        assert(seq![k][0] == k);
                    }
                    assert(whole.contains(seq![k]) <==> tail.contains(seq![k])) by {
                        if whole.contains(seq![k]) {
                            let m = choose|m: int|
                                0 <= m < whole.len() && whole[m] == seq![k];
                            assert(m >= 1);
                            assert(tail[m - 1] == seq![k]);
                        }
                        if tail.contains(seq![k]) {
                            let m = choose|m: int| 0 <= m < tail.len() && tail[m] == seq![k];
                            assert(whole[m + 1] == seq![k]);
                        }
                    }
                }
            },
            Some(w) => {
                match (acc[0].1, w) {
                    (VNode::Obj(a), VNode::Obj(b)) => {
                        lemma_missing_prefix(a, b, e.push(acc[0].0));
                        assert(head == missing_paths(a, b, e.push(acc[0].0)));
                        assert forall|m: int| 0 <= m < head.len() implies head[m] != seq![
                            k,
                        ] by {
                            assert(missing_paths(a, b, e.push(acc[0].0))[m] == head[m]);
                            assert(head[m].len() > e.push(acc[0].0).len());
                            assert(head[m].len() > 1);
                            assert(seq![k].len() == 1);
                        }
                    },
                    _ => {
                        assert(head.len() == 0);
                    },
                }
                assert(whole.contains(seq![k]) <==> tail.contains(seq![k])) by {
                    if whole.contains(seq![k]) {
                        let m = choose|m: int| 0 <= m < whole.len() && whole[m] == seq![k];
                        if m < head.len() {
                            assert(head[m] == seq![k]);
                            assert(false);
                        } else {
                            assert(tail[m - head.len()] == seq![k]);
                        }
                    }
                    if tail.contains(seq![k]) {
                        let m = choose|m: int| 0 <= m < tail.len() && tail[m] == seq![k];
                        assert(whole[head.len() + m] == seq![k]);
                    }
                }
                if acc[0].0 == k {
                    assert(has_vkey(obj, k));
                    assert(has_vkey(acc, k));
                    if tail.contains(seq![k]) {
                        assert(!has_vkey(obj, k));
                        assert(false);
                    }
                }
            },
        }
    }
}

/// After the whole bucket is joined, the reference holds a key exactly
/// when some peer from index `i` on holds it, or the seed already did.
proof fn lemma_fold_key_union(
    acc: Seq<(Seq<char>, VNode)>,
    files: Seq<(LoadedFile, JsonObject)>,
    i: int,
    k: Seq<char>,
)
    requires
        0 <= i,
    ensures
        has_vkey(join_fold(acc, files, i).0, k) <==> (has_vkey(acc, k) || exists|j: int|
            i <= j < files.len() && has_vkey(view_entries(#[trigger] files[j].1.values@), k)),
    decreases files.len() - i,
{
    if i < files.len() {
        lemma_join_key_union(acc, view_entries(files[i].1.values@), k);
        lemma_fold_key_union(
            join_entries(acc, view_entries(files[i].1.values@)).0,
            files,
            i + 1,
            k,
        );
        if has_vkey(join_fold(acc, files, i).0, k) && !has_vkey(acc, k) {
            if has_vkey(view_entries(files[i].1.values@), k) {
                assert(i <= i < files.len() && has_vkey(view_entries(files[i].1.values@), k));
            }
        }
    }
}

/// Law (the missing-key symmetry of the bucket check, at the top level):
/// once every peer is joined into the reference, a key is reported as
/// missing from a peer exactly when some peer of the bucket holds it and
/// that peer does not.
pub proof fn lemma_bucket_missing_key(
    files: Seq<(LoadedFile, JsonObject)>,
    f: int,
    k: Seq<char>,
)
    requires
        files.len() > 0,
        0 <= f < files.len(),
    ensures
        ({
            let (accf, ws) = join_fold(view_entries(files[0].1.values@), files, 1);
            missing_paths(accf, view_entries(files[f].1.values@), Seq::empty()).contains(
                seq![k],
            ) <==> ((exists|j: int|
                0 <= j < files.len() && has_vkey(
                    view_entries(#[trigger] files[j].1.values@),
                    k,
                )) && !has_vkey(view_entries(files[f].1.values@), k))
        }),
{
    let (accf, ws) = join_fold(view_entries(files[0].1.values@), files, 1);
    lemma_fold_key_union(view_entries(files[0].1.values@), files, 1, k);
    lemma_missing_key_reported(accf, view_entries(files[f].1.values@), k);
    if has_vkey(accf, k) {
        if has_vkey(view_entries(files[0].1.values@), k) {
            assert(0 <= 0 < files.len() && has_vkey(view_entries(files[0].1.values@), k));
        }
    }
    if exists|j: int|
        0 <= j < files.len() && has_vkey(view_entries(#[trigger] files[j].1.values@), k) {
        let j = choose|j: int|
            0 <= j < files.len() && has_vkey(view_entries(#[trigger] files[j].1.values@), k);
        if j == 0 {
            assert(has_vkey(accf, k));
        } else {
            assert(1 <= j < files.len() && has_vkey(view_entries(files[j].1.values@), k));
            assert(has_vkey(accf, k));
        }
    }
}

/// Whether the entries hold the key path: each component an entry of the
/// object under the previous component, whatever the last one's value.
pub open spec fn has_path(es: Seq<(Seq<char>, VNode)>, p: Seq<Seq<char>>) -> bool
    decreases p.len(),
{
    if p.len() == 0 {
        true
    } else {
        match vlookup(es, p[0]) {
            None => false,
            Some(v) => if p.len() == 1 {
                true
            } else {
                match v {
                    VNode::Obj(a) => has_path(a, p.subrange(1, p.len() as int)),
                    VNode::Str(_) => false,
                }
            },
        }
    }
}

/// Whether no object of the tree repeats a key. The parser never produces
/// a repeated key: its grammar does not re-enter one.
pub open spec fn keys_unique(es: Seq<(Seq<char>, VNode)>) -> bool
    decreases es, 0int,
{
    if es.len() == 0 {
        true
    } else {
        &&& (forall|j: int| 1 <= j < es.len() ==> (#[trigger] es[j]).0 != es[0].0)
        &&& node_keys_unique(es[0].1)
        &&& keys_unique(es.subrange(1, es.len() as int))
    }
}

/// Whether no object inside the value repeats a key.
pub open spec fn node_keys_unique(n: VNode) -> bool
    decreases n, 1int,
{
    match n {
        VNode::Str(_) => true,
        VNode::Obj(es) => keys_unique(es),
    }
}

proof fn lemma_vlookup_some_index(es: Seq<(Seq<char>, VNode)>, k: Seq<char>)
    requires
        vlookup(es, k) is Some,
    ensures
        exists|i: int| 0 <= i < es.len() && es[i].0 == k,
    decreases es.len(),
{
    if es.len() > 0 && es[0].0 != k {
        lemma_vlookup_some_index(es.subrange(1, es.len() as int), k);
        let i = choose|i: int|
            0 <= i < es.subrange(1, es.len() as int).len() && es.subrange(
                1,
                es.len() as int,
            )[i].0 == k;
        assert(es[i + 1].0 == k);
    }
}

proof fn lemma_for_sound(
    k: Seq<char>,
    v: VNode,
    obj: Seq<(Seq<char>, VNode)>,
    prefix: Seq<Seq<char>>,
)
    requires
        node_keys_unique(v),
    ensures
        forall|m: int|
            0 <= m < missing_for(k, v, obj, prefix).len() ==> {
                let p = #[trigger] missing_for(k, v, obj, prefix)[m];
                let q = p.subrange(prefix.len() as int, p.len() as int);
                &&& q.len() >= 1
                &&& q[0] == k
                &&& has_path(seq![(k, v)], q)
                &&& !has_path(obj, q)
            },
    decreases v, 1int,
{
    match vlookup(obj, k) {
        None => {
            let p = prefix.push(k);
            let q = p.subrange(prefix.len() as int, p.len() as int);
            assert(q =~= seq![k]);
            assert(seq![(k, v)][0] == (k, v));
        },
        Some(w) => {
            match (v, w) {
                (VNode::Obj(a), VNode::Obj(b)) => {
                    lemma_paths_sound(a, b, prefix.push(k));
                    lemma_missing_prefix(a, b, prefix.push(k));
                    assert(missing_for(k, v, obj, prefix) == missing_paths(
                        a,
                        b,
                        prefix.push(k),
                    ));
                    assert forall|m: int|
                        0 <= m < missing_for(k, v, obj, prefix).len() implies {
                        let p = #[trigger] missing_for(k, v, obj, prefix)[m];
                        let q = p.subrange(prefix.len() as int, p.len() as int);
                        &&& q.len() >= 1
                        &&& q[0] == k
                        &&& has_path(seq![(k, v)], q)
                        &&& !has_path(obj, q)
                    } by {
                        let p = missing_paths(a, b, prefix.push(k))[m];
                        assert(missing_for(k, v, obj, prefix)[m] == p);
                        let q2 = p.subrange(prefix.push(k).len() as int, p.len() as int);
                        assert(has_path(a, q2) && !has_path(b, q2));
                        assert(q2.len() >= 1);
                        let q = p.subrange(prefix.len() as int, p.len() as int);
                        assert(p.subrange(0, prefix.push(k).len() as int) == prefix.push(k));
                        assert(q[0] == p[prefix.len() as int]);
                        assert(p[prefix.len() as int] == prefix.push(k)[prefix.len() as int]);
                        assert(q[0] == k);
                        assert(q.subrange(1, q.len() as int) =~= q2);
                        assert(seq![(k, v)][0] == (k, v));
                        assert(has_path(seq![(k, v)], q));
                        assert(!has_path(obj, q));
                    }
                },
                _ => {},
            }
        },
    }
}

/// Law (soundness of the missing-key walk, at full path depth): when no
/// object of the reference repeats a key, every path the walk reports is
/// held by the reference and absent from the peer.
pub proof fn lemma_paths_sound(
    acc: Seq<(Seq<char>, VNode)>,
    obj: Seq<(Seq<char>, VNode)>,
    prefix: Seq<Seq<char>>,
)
    requires
        keys_unique(acc),
    ensures
        forall|m: int|
            0 <= m < missing_paths(acc, obj, prefix).len() ==> {
                let p = #[trigger] missing_paths(acc, obj, prefix)[m];
                let q = p.subrange(prefix.len() as int, p.len() as int);
                has_path(acc, q) && !has_path(obj, q)
            },
    decreases acc, 0int,
{
    if acc.len() > 0 {
        let tail = acc.subrange(1, acc.len() as int);
        lemma_for_sound(acc[0].0, acc[0].1, obj, prefix);
        lemma_paths_sound(tail, obj, prefix);
        let head = missing_for(acc[0].0, acc[0].1, obj, prefix);
        let rest = missing_paths(tail, obj, prefix);
        assert(missing_paths(acc, obj, prefix) == head + rest);
        assert forall|m: int|
            0 <= m < missing_paths(acc, obj, prefix).len() implies {
            let p = #[trigger] missing_paths(acc, obj, prefix)[m];
            let q = p.subrange(prefix.len() as int, p.len() as int);
            has_path(acc, q) && !has_path(obj, q)
        } by {
            let p = missing_paths(acc, obj, prefix)[m];
            let q = p.subrange(prefix.len() as int, p.len() as int);
            if m < head.len() {
                assert(p == head[m]);
                assert(q[0] == acc[0].0 && has_path(seq![(acc[0].0, acc[0].1)], q)
                    && !has_path(obj, q));
                assert(vlookup(acc, q[0]) == Some(acc[0].1));
                assert(vlookup(seq![(acc[0].0, acc[0].1)], q[0]) == Some(acc[0].1));
                if q.len() > 1 {
                    assert(has_path(acc, q));
                } else {
                    assert(has_path(acc, q));
                }
            } else {
                assert(p == rest[m - head.len()]);
                assert(has_path(tail, q) && !has_path(obj, q));
                assert(q.len() >= 1) by {
                    if q.len() == 0 {
                        assert(has_path(tail, q));
                    }
                }
                lemma_vlookup_some_index(tail, q[0]);
                let i = choose|i: int| 0 <= i < tail.len() && tail[i].0 == q[0];
                assert(acc[i + 1].0 == q[0]);
                assert(q[0] != acc[0].0);
                assert(vlookup(acc, q[0]) == vlookup(tail, q[0]));
                assert(has_path(acc, q));
            }
        }
    }
}

proof fn lemma_unique_entries(es: Seq<(Seq<char>, VNode)>)
    requires
        keys_unique(es),
    ensures
        forall|i: int|
            0 <= i < es.len() ==> vlookup(es, (#[trigger] es[i]).0) == Some(es[i].1)
                && node_keys_unique(es[i].1),
    decreases es.len(),
{
    if es.len() > 0 {
        let tail = es.subrange(1, es.len() as int);
        lemma_unique_entries(tail);
        assert forall|i: int|
            0 <= i < es.len() implies vlookup(es, (#[trigger] es[i]).0) == Some(es[i].1)
            && node_keys_unique(es[i].1) by {
            if i == 0 {
            } else {
                assert(tail[i - 1] == es[i]);
                assert(es[i].0 != es[0].0);
                assert(vlookup(es, es[i].0) == vlookup(tail, es[i].0));
            }
        }
    }
}

proof fn lemma_missing_self_gen(
    sub: Seq<(Seq<char>, VNode)>,
    es: Seq<(Seq<char>, VNode)>,
    prefix: Seq<Seq<char>>,
)
    requires
        forall|i: int|
            0 <= i < sub.len() ==> vlookup(es, (#[trigger] sub[i]).0) == Some(sub[i].1)
                && node_keys_unique(sub[i].1),
    ensures
        missing_paths(sub, es, prefix) == Seq::<Seq<Seq<char>>>::empty(),
    decreases sub, 0int,
{
    if sub.len() > 0 {
        let k = sub[0].0;
        let v = sub[0].1;
        match (v, vlookup(es, k)->0) {
            (VNode::Obj(a), VNode::Obj(b)) => {
                assert(a == b);
                lemma_unique_entries(a);
                lemma_missing_self_gen(a, a, prefix.push(k));
            },
            _ => {},
        }
        let tail = sub.subrange(1, sub.len() as int);
        lemma_missing_self_gen(tail, es, prefix);
        assert(vlookup(es, k) == Some(v));
        assert(missing_for(k, v, es, prefix) =~= Seq::<Seq<Seq<char>>>::empty());
        assert(missing_paths(sub, es, prefix) == missing_for(k, v, es, prefix) + missing_paths(
            tail,
            es,
            prefix,
        ));
        assert(missing_paths(sub, es, prefix) =~= Seq::<Seq<Seq<char>>>::empty());
    }
}

/// Law (the single-file bucket): an object without repeated keys, checked
/// against itself, has nothing missing — so a bucket of one parsed file
/// reports nothing.
pub proof fn lemma_missing_self(es: Seq<(Seq<char>, VNode)>)
    requires
        keys_unique(es),
    ensures
        missing_paths(es, es, Seq::empty()) == Seq::<Seq<Seq<char>>>::empty(),
{
    lemma_unique_entries(es);
    lemma_missing_self_gen(es, es, Seq::empty());
}

} // verus!
