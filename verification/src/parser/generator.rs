//! The canonical generator: serialize a tree under a style, optionally
//! deep-sorting every object's entries by the configured comparator first.
//! The output is pinned down exactly by a recursive specification of the
//! emitted text.

use vstd::prelude::*;

verus! {

use core::cmp::Ordering;
use vstd::string::StringExecFns;
use crate::natural_sort::{lemma_lex_antisym, lemma_lex_equal_is_identity, lemma_lex_trans, lex_cmp};
use crate::parser::model::{JsonObject, JsonString, JsonStyle, JsonType, LineEnding, SortAlgorithm, SortOrder, VNode, lemma_view_entries_index, view_entries, view_object, view_value};
use crate::util::push_char;

/// The line break a style emits after `{` and after each entry.
pub open spec fn nl_of(style: JsonStyle) -> Seq<char> {
    match style {
        JsonStyle::STYLED { line_endings, .. } => match line_endings {
            LineEnding::CRLF => "\r\n"@,
            LineEnding::NONE => ""@,
            _ => "\n"@,
        },
        JsonStyle::IGNORE => ""@,
    }
}

/// The indentation unit a style emits per nesting level.
pub open spec fn indent_of(style: JsonStyle) -> Seq<char> {
    match style {
        JsonStyle::STYLED { indentation: Some(u), .. } => u@,
        JsonStyle::STYLED { indentation: None, .. } => "    "@,
        JsonStyle::IGNORE => ""@,
    }
}

/// The text a style emits after each colon.
pub open spec fn gen_pc_of(style: JsonStyle) -> Seq<char> {
    match style {
        JsonStyle::STYLED { post_colon: Some(p), .. } => p@,
        JsonStyle::STYLED { post_colon: None, .. } => " "@,
        JsonStyle::IGNORE => ""@,
    }
}

/// `s` written `n` times over.
pub open spec fn repeat_seq(s: Seq<char>, n: nat) -> Seq<char>
    decreases n,
{
    if n == 0 {
        Seq::empty()
    } else {
        repeat_seq(s, (n - 1) as nat) + s
    }
}

/// The exact text emitted for a tree at nesting depth `depth`.
pub open spec fn gen_node(style: JsonStyle, n: VNode, depth: nat) -> Seq<char>
    decreases n,
{
    match n {
        VNode::Str(s) => "\""@ + s + "\""@,
        VNode::Obj(es) => "{"@ + nl_of(style) + gen_entries(style, es, depth) + repeat_seq(
            indent_of(style),
            depth,
        ) + "}"@,
    }
}

/// The exact text emitted for an entry list at nesting depth `depth`: one
/// line per entry, a comma after each but the last.
pub open spec fn gen_entries(style: JsonStyle, es: Seq<(Seq<char>, VNode)>, depth: nat) -> Seq<
    char,
>
    decreases es,
{
    if es.len() == 0 {
        Seq::empty()
    } else {
        repeat_seq(indent_of(style), depth + 1) + "\""@ + es[0].0 + "\":"@ + gen_pc_of(style)
            + gen_node(style, es[0].1, depth + 1) + (if es.len() > 1 {
            ","@
        } else {
            ""@
        }) + nl_of(style) + gen_entries(style, es.subrange(1, es.len() as int), depth)
    }
}

/// Whether key `a` may stand before key `b` under the comparator and
/// direction; with no comparator every order is acceptable.
pub open spec fn key_ok(alg: SortAlgorithm, ord: SortOrder, a: Seq<char>, b: Seq<char>) -> bool {
    match alg {
        SortAlgorithm::NATURAL => match ord {
            SortOrder::ASC => crate::natural_sort::spec_compare(a, b) != Ordering::Greater,
            SortOrder::DESC => crate::natural_sort::spec_compare(a, b) != Ordering::Less,
        },
        SortAlgorithm::NORMAL => match ord {
            SortOrder::ASC => crate::natural_sort::lex_cmp(a, b, 0) != Ordering::Greater,
            SortOrder::DESC => crate::natural_sort::lex_cmp(a, b, 0) != Ordering::Less,
        },
        SortAlgorithm::NONE => true,
    }
}

/// Insert an entry into an entry list behind every entry whose key may
/// stand before its own: a stable insertion.
pub open spec fn insert_ventry(
    alg: SortAlgorithm,
    ord: SortOrder,
    e: (Seq<char>, VNode),
    s: Seq<(Seq<char>, VNode)>,
) -> Seq<(Seq<char>, VNode)>
    decreases s,
{
    if s.len() == 0 {
        seq![e]
    } else if key_ok(alg, ord, s[0].0, e.0) {
        seq![s[0]] + insert_ventry(alg, ord, e, s.subrange(1, s.len() as int))
    } else {
        seq![e] + s
    }
}

/// Insert the entries of `es` one after the other into `acc`, sorting
/// each entry's own tree first.
pub open spec fn sort_fold(
    alg: SortAlgorithm,
    ord: SortOrder,
    es: Seq<(Seq<char>, VNode)>,
    acc: Seq<(Seq<char>, VNode)>,
) -> Seq<(Seq<char>, VNode)>
    decreases es, 1int,
{
    if es.len() == 0 {
        acc
    } else {
        sort_fold(
            alg,
            ord,
            es.subrange(1, es.len() as int),
            insert_ventry(alg, ord, (es[0].0, sort_vnode(alg, ord, es[0].1)), acc),
        )
    }
}

/// The tree with every object's entries reordered by the comparator and
/// direction, entries with equal keys keeping their relative order.
pub open spec fn sort_vnode(alg: SortAlgorithm, ord: SortOrder, n: VNode) -> VNode
    decreases n, 0int,
{
    match n {
        VNode::Str(s) => VNode::Str(s),
        VNode::Obj(es) => VNode::Obj(sort_fold(alg, ord, es, Seq::empty())),
    }
}

/// What `generate` emits: the tree itself under no sorting, the deep-sorted
/// tree when the style asks for an order.
pub open spec fn applied_sort(style: JsonStyle, n: VNode) -> VNode {
    match style {
        JsonStyle::STYLED { sort_algorithm, order, .. } => match sort_algorithm {
            SortAlgorithm::NONE => n,
            _ => sort_vnode(sort_algorithm, order, n),
        },
        JsonStyle::IGNORE => n,
    }
}

/// Whether every object of the tree lists its entries in the required
/// order, each key allowed to stand before its successor.
pub open spec fn vnode_sorted(alg: SortAlgorithm, ord: SortOrder, n: VNode) -> bool
    decreases n,
{
    match n {
        VNode::Str(_) => true,
        VNode::Obj(es) => entries_sorted(alg, ord, es),
    }
}

/// Whether an entry list is in the required order, its values included.
pub open spec fn entries_sorted(
    alg: SortAlgorithm,
    ord: SortOrder,
    es: Seq<(Seq<char>, VNode)>,
) -> bool
    decreases es,
{
    if es.len() == 0 {
        true
    } else {
        &&& vnode_sorted(alg, ord, es[0].1)
        &&& (es.len() > 1 ==> key_ok(alg, ord, es[0].0, es[1].0))
        &&& entries_sorted(alg, ord, es.subrange(1, es.len() as int))
    }
}

/// Any two keys can stand in one of the two orders.
proof fn lemma_key_ok_total(alg: SortAlgorithm, ord: SortOrder, a: Seq<char>, b: Seq<char>)
    ensures
        key_ok(alg, ord, a, b) || key_ok(alg, ord, b, a),
{
    match alg {
        SortAlgorithm::NATURAL => {
            crate::natural_sort::lemma_natural_compare_antisymmetric(a, b);
        },
        SortAlgorithm::NORMAL => {
            crate::natural_sort::lemma_lex_antisym(a, b, 0);
        },
        SortAlgorithm::NONE => {},
    }
}

proof fn lemma_insert_len(
    alg: SortAlgorithm,
    ord: SortOrder,
    e: (Seq<char>, VNode),
    s: Seq<(Seq<char>, VNode)>,
)
    ensures
        insert_ventry(alg, ord, e, s).len() == s.len() + 1,
    decreases s.len(),
{
    if s.len() > 0 && key_ok(alg, ord, s[0].0, e.0) {
        lemma_insert_len(alg, ord, e, s.subrange(1, s.len() as int));
    }
}

/// A stable insertion into an ordered entry list keeps it ordered.
proof fn lemma_insert_keeps_sorted(
    alg: SortAlgorithm,
    ord: SortOrder,
    e: (Seq<char>, VNode),
    s: Seq<(Seq<char>, VNode)>,
)
    requires
        entries_sorted(alg, ord, s),
        vnode_sorted(alg, ord, e.1),
    ensures
        entries_sorted(alg, ord, insert_ventry(alg, ord, e, s)),
    decreases s.len(),
{
    let r = insert_ventry(alg, ord, e, s);
    lemma_insert_len(alg, ord, e, s);
    if s.len() == 0 {
        assert(r == seq![e]);
        assert(r.subrange(1, 1) =~= Seq::<(Seq<char>, VNode)>::empty());
        assert(entries_sorted(alg, ord, Seq::<(Seq<char>, VNode)>::empty()));
        assert(entries_sorted(alg, ord, r.subrange(1, 1)));
        assert(entries_sorted(alg, ord, r));
    } else if key_ok(alg, ord, s[0].0, e.0) {
        let tail = s.subrange(1, s.len() as int);
        lemma_insert_keeps_sorted(alg, ord, e, tail);
        lemma_insert_len(alg, ord, e, tail);
        let rt = insert_ventry(alg, ord, e, tail);
        assert(r == seq![s[0]] + rt);
        assert(r.subrange(1, r.len() as int) =~= rt);
        if tail.len() == 0 {
            assert(rt[0] == e);
        } else if key_ok(alg, ord, tail[0].0, e.0) {
            assert(rt[0] == tail[0]);
            assert(key_ok(alg, ord, s[0].0, s[1].0));
        } else {
            assert(rt[0] == e);
        }
        assert(key_ok(alg, ord, r[0].0, r[1].0));
        assert(r[0] == s[0]);
        assert(vnode_sorted(alg, ord, s[0].1));
        assert(vnode_sorted(alg, ord, r[0].1));
        assert(entries_sorted(alg, ord, rt));
        assert(r.subrange(1, r.len() as int) == rt);
        assert(entries_sorted(alg, ord, r.subrange(1, r.len() as int)));
        assert(r.len() > 1);
        assert(entries_sorted(alg, ord, r));
    } else {
        lemma_key_ok_total(alg, ord, s[0].0, e.0);
        assert(r == seq![e] + s);
        assert(r.subrange(1, r.len() as int) =~= s);
        assert(key_ok(alg, ord, e.0, s[0].0));
        assert(entries_sorted(alg, ord, r));
    }
}

proof fn lemma_sort_fold_sorted(
    alg: SortAlgorithm,
    ord: SortOrder,
    es: Seq<(Seq<char>, VNode)>,
    acc: Seq<(Seq<char>, VNode)>,
)
    requires
        entries_sorted(alg, ord, acc),
    ensures
        entries_sorted(alg, ord, sort_fold(alg, ord, es, acc)),
    decreases es, 1int,
{
    if es.len() > 0 {
        lemma_sort_vnode_sorted(alg, ord, es[0].1);
        lemma_insert_keeps_sorted(alg, ord, (es[0].0, sort_vnode(alg, ord, es[0].1)), acc);
        lemma_sort_fold_sorted(
            alg,
            ord,
            es.subrange(1, es.len() as int),
            insert_ventry(alg, ord, (es[0].0, sort_vnode(alg, ord, es[0].1)), acc),
        );
    }
}

/// Law: after a deep sort, every object of the tree lists its entries in
/// the required order.
pub proof fn lemma_sort_vnode_sorted(alg: SortAlgorithm, ord: SortOrder, n: VNode)
    ensures
        vnode_sorted(alg, ord, sort_vnode(alg, ord, n)),
    decreases n, 0int,
{
    match n {
        VNode::Str(_) => {},
        VNode::Obj(es) => {
            lemma_sort_fold_sorted(alg, ord, es, Seq::empty());
        },
    }
}

/// A key stands in a stable insertion's result exactly when it stands in
/// the list or on the inserted entry.
proof fn lemma_insert_keys(
    alg: SortAlgorithm,
    ord: SortOrder,
    e: (Seq<char>, VNode),
    s: Seq<(Seq<char>, VNode)>,
    k: Seq<char>,
)
    ensures
        crate::checks::entry_parity::has_vkey(insert_ventry(alg, ord, e, s), k) <==> (
        crate::checks::entry_parity::has_vkey(s, k) || k == e.0),
    decreases s.len(),
{
    let r = insert_ventry(alg, ord, e, s);
    if s.len() == 0 {
        assert(r.subrange(1, 1) =~= Seq::<(Seq<char>, VNode)>::empty());
        assert(crate::checks::entry_parity::vlookup(
            Seq::<(Seq<char>, VNode)>::empty(),
            k,
        ) is None);
        assert(r[0] == e);
        if k != e.0 {
            assert(crate::checks::entry_parity::vlookup(r, k)
                == crate::checks::entry_parity::vlookup(r.subrange(1, 1), k));
        }
    } else if key_ok(alg, ord, s[0].0, e.0) {
        lemma_insert_keys(alg, ord, e, s.subrange(1, s.len() as int), k);
        assert(r == seq![s[0]] + insert_ventry(alg, ord, e, s.subrange(1, s.len() as int)));
        assert(r.subrange(1, r.len() as int) =~= insert_ventry(
            alg,
            ord,
            e,
            s.subrange(1, s.len() as int),
        ));
        assert(r[0] == s[0]);
        if k != s[0].0 {
            assert(crate::checks::entry_parity::vlookup(r, k)
                == crate::checks::entry_parity::vlookup(r.subrange(1, r.len() as int), k));
            assert(crate::checks::entry_parity::vlookup(s, k)
                == crate::checks::entry_parity::vlookup(s.subrange(1, s.len() as int), k));
        }
    } else {
        assert(r == seq![e] + s);
        assert(r.subrange(1, r.len() as int) =~= s);
        assert(r[0] == e);
        if k != e.0 {
            assert(crate::checks::entry_parity::vlookup(r, k)
                == crate::checks::entry_parity::vlookup(s, k));
        }
    }
}

proof fn lemma_sort_fold_keys(
    alg: SortAlgorithm,
    ord: SortOrder,
    es: Seq<(Seq<char>, VNode)>,
    acc: Seq<(Seq<char>, VNode)>,
    k: Seq<char>,
)
    ensures
        crate::checks::entry_parity::has_vkey(sort_fold(alg, ord, es, acc), k) <==> (
        crate::checks::entry_parity::has_vkey(es, k) || crate::checks::entry_parity::has_vkey(
            acc,
            k,
        )),
    decreases es.len(),
{
    if es.len() > 0 {
        lemma_insert_keys(alg, ord, (es[0].0, sort_vnode(alg, ord, es[0].1)), acc, k);
        lemma_sort_fold_keys(
            alg,
            ord,
            es.subrange(1, es.len() as int),
            insert_ventry(alg, ord, (es[0].0, sort_vnode(alg, ord, es[0].1)), acc),
            k,
        );
    }
}

/// Law: a deep sort reorders an object's entries and nothing else: it
/// keeps exactly the keys the object had.
pub proof fn lemma_sort_vnode_keys(
    alg: SortAlgorithm,
    ord: SortOrder,
    es: Seq<(Seq<char>, VNode)>,
    k: Seq<char>,
)
    ensures
        crate::checks::entry_parity::has_vkey(
            match sort_vnode(alg, ord, VNode::Obj(es)) {
                VNode::Obj(r) => r,
                VNode::Str(_) => Seq::empty(),
            },
            k,
        ) <==> crate::checks::entry_parity::has_vkey(es, k),
{
    lemma_sort_fold_keys(alg, ord, es, Seq::empty(), k);
}

/// Under the lexicographic comparator the key order is transitive.
proof fn lemma_key_ok_trans_normal(ord: SortOrder, a: Seq<char>, b: Seq<char>, c: Seq<char>)
    requires
        key_ok(SortAlgorithm::NORMAL, ord, a, b),
        key_ok(SortAlgorithm::NORMAL, ord, b, c),
    ensures
        key_ok(SortAlgorithm::NORMAL, ord, a, c),
{
    match ord {
        SortOrder::ASC => {
            if lex_cmp(a, c, 0) == Ordering::Greater {
                lemma_lex_antisym(a, c, 0);
                if lex_cmp(a, b, 0) == Ordering::Equal {
                    lemma_lex_equal_is_identity(a, b);
                } else if lex_cmp(b, c, 0) == Ordering::Equal {
                    lemma_lex_equal_is_identity(b, c);
                } else {
                    lemma_lex_trans(a, b, c, 0);
                }
            }
        },
        SortOrder::DESC => {
            if lex_cmp(a, c, 0) == Ordering::Less {
                lemma_lex_antisym(a, c, 0);
                if lex_cmp(a, b, 0) == Ordering::Equal {
                    lemma_lex_equal_is_identity(a, b);
                } else if lex_cmp(b, c, 0) == Ordering::Equal {
                    lemma_lex_equal_is_identity(b, c);
                } else {
                    lemma_lex_antisym(a, b, 0);
                    lemma_lex_antisym(b, c, 0);
                    lemma_lex_trans(c, b, a, 0);
                }
            }
        },
    }
}

/// Under the lexicographic comparator, neighbouring order makes the whole
/// list pairwise ordered.
proof fn lemma_sorted_pairwise(ord: SortOrder, es: Seq<(Seq<char>, VNode)>)
    requires
        entries_sorted(SortAlgorithm::NORMAL, ord, es),
    ensures
        forall|i: int, j: int|
            0 <= i < j < es.len() ==> key_ok(SortAlgorithm::NORMAL, ord, es[i].0, es[j].0),
    decreases es.len(),
{
    if es.len() > 1 {
        let tail = es.subrange(1, es.len() as int);
        lemma_sorted_pairwise(ord, tail);
        assert forall|i: int, j: int|
            0 <= i < j < es.len() implies key_ok(
            SortAlgorithm::NORMAL,
            ord,
            es[i].0,
            es[j].0,
        ) by {
            if i == 0 {
                if j == 1 {
                } else {
                    assert(key_ok(SortAlgorithm::NORMAL, ord, tail[0].0, tail[j - 1].0));
                    lemma_key_ok_trans_normal(ord, es[0].0, es[1].0, es[j].0);
                }
            } else {
                assert(key_ok(SortAlgorithm::NORMAL, ord, tail[i - 1].0, tail[j - 1].0));
            }
        }
    }
}

/// An entry behind every entry of the list is inserted at its end.
proof fn lemma_insert_at_end(
    alg: SortAlgorithm,
    ord: SortOrder,
    e: (Seq<char>, VNode),
    s: Seq<(Seq<char>, VNode)>,
)
    requires
        forall|i: int| 0 <= i < s.len() ==> key_ok(alg, ord, s[i].0, e.0),
    ensures
        insert_ventry(alg, ord, e, s) == s.push(e),
    decreases s.len(),
{
    if s.len() == 0 {
        assert(insert_ventry(alg, ord, e, s) =~= s.push(e));
    } else {
        lemma_insert_at_end(alg, ord, e, s.subrange(1, s.len() as int));
        assert(seq![s[0]] + s.subrange(1, s.len() as int).push(e) =~= s.push(e));
    }
}

/// Folding an already ordered list whose trees are already sorted onto a
/// prefix it belongs behind reproduces the list.
proof fn lemma_sorted_fold_identity(
    ord: SortOrder,
    es: Seq<(Seq<char>, VNode)>,
    acc: Seq<(Seq<char>, VNode)>,
)
    requires
        entries_sorted(SortAlgorithm::NORMAL, ord, es),
        forall|i: int|
            0 <= i < es.len() ==> sort_vnode(SortAlgorithm::NORMAL, ord, #[trigger] es[i].1)
                == es[i].1,
        forall|i: int, j: int|
            0 <= i < acc.len() && 0 <= j < es.len() ==> key_ok(
                SortAlgorithm::NORMAL,
                ord,
                acc[i].0,
                es[j].0,
            ),
    ensures
        sort_fold(SortAlgorithm::NORMAL, ord, es, acc) == acc + es,
    decreases es.len(),
{
    let alg = SortAlgorithm::NORMAL;
    if es.len() == 0 {
        assert(sort_fold(alg, ord, es, acc) =~= acc + es);
    } else {
        assert(sort_vnode(alg, ord, es[0].1) == es[0].1);
        assert((es[0].0, sort_vnode(alg, ord, es[0].1)) == es[0]);
        lemma_insert_at_end(alg, ord, es[0], acc);
        let tail = es.subrange(1, es.len() as int);
        lemma_sorted_pairwise(ord, es);
        assert forall|i: int, j: int|
            0 <= i < acc.push(es[0]).len() && 0 <= j < tail.len() implies key_ok(
            alg,
            ord,
            acc.push(es[0])[i].0,
            tail[j].0,
        ) by {
            if i < acc.len() {
                assert(key_ok(alg, ord, acc[i].0, es[j + 1].0));
            } else {
                assert(key_ok(alg, ord, es[0].0, es[j + 1].0));
            }
        }
        lemma_sorted_fold_identity(ord, tail, acc.push(es[0]));
        assert(acc.push(es[0]) + tail =~= acc + es);
    }
}

/// Whether an entry is one of `acc`, or one of `es` with its tree sorted.
pub open spec fn fold_entry_from(
    alg: SortAlgorithm,
    ord: SortOrder,
    es: Seq<(Seq<char>, VNode)>,
    acc: Seq<(Seq<char>, VNode)>,
    x: (Seq<char>, VNode),
) -> bool {
    (exists|j: int| 0 <= j < acc.len() && x == acc[j]) || (exists|j: int|
        0 <= j < es.len() && x == (es[j].0, sort_vnode(alg, ord, es[j].1)))
}

/// Every entry the fold produces is an entry of the input with its tree
/// sorted, or comes from the prefix it started with.
proof fn lemma_fold_provenance(
    alg: SortAlgorithm,
    ord: SortOrder,
    es: Seq<(Seq<char>, VNode)>,
    acc: Seq<(Seq<char>, VNode)>,
)
    ensures
        forall|m: int|
            0 <= m < sort_fold(alg, ord, es, acc).len() ==> fold_entry_from(
                alg,
                ord,
                es,
                acc,
                #[trigger] sort_fold(alg, ord, es, acc)[m],
            ),
    decreases es.len(),
{
    if es.len() == 0 {
        assert forall|m: int|
            0 <= m < sort_fold(alg, ord, es, acc).len() implies fold_entry_from(
            alg,
            ord,
            es,
            acc,
            #[trigger] sort_fold(alg, ord, es, acc)[m],
        ) by {
            let x = sort_fold(alg, ord, es, acc)[m];
            assert(sort_fold(alg, ord, es, acc) == acc);
            assert(0 <= m < acc.len() && x == acc[m]);
        }
    } else {
        let e = (es[0].0, sort_vnode(alg, ord, es[0].1));
        let acc1 = insert_ventry(alg, ord, e, acc);
        lemma_insert_provenance(alg, ord, e, acc);
        lemma_fold_provenance(alg, ord, es.subrange(1, es.len() as int), acc1);
        let tail = es.subrange(1, es.len() as int);
        assert forall|m: int|
            0 <= m < sort_fold(alg, ord, es, acc).len() implies fold_entry_from(
            alg,
            ord,
            es,
            acc,
            #[trigger] sort_fold(alg, ord, es, acc)[m],
        ) by {
            let x = sort_fold(alg, ord, es, acc)[m];
            assert(sort_fold(alg, ord, es, acc) == sort_fold(alg, ord, tail, acc1));
            assert(x == sort_fold(alg, ord, tail, acc1)[m]);
            assert(fold_entry_from(alg, ord, tail, acc1, x));
            if exists|j: int| 0 <= j < acc1.len() && x == acc1[j] {
                let j = choose|j: int| 0 <= j < acc1.len() && x == acc1[j];
                assert(acc1[j] == e || (exists|t: int| 0 <= t < acc.len() && acc1[j] == acc[t]));
                if exists|t: int| 0 <= t < acc.len() && acc1[j] == acc[t] {
                    let t = choose|t: int| 0 <= t < acc.len() && acc1[j] == acc[t];
                    assert(0 <= t < acc.len() && x == acc[t]);
                } else {
                    assert(acc1[j] == e);
                    assert(0 <= 0 < es.len() && x == (es[0].0, sort_vnode(alg, ord, es[0].1)));
                }
            } else {
                let j = choose|j: int|
                    0 <= j < tail.len() && x == (tail[j].0, sort_vnode(alg, ord, tail[j].1));
                assert(tail[j] == es[j + 1]);
                assert(0 <= j + 1 < es.len() && x == (es[j + 1].0, sort_vnode(
                    alg,
                    ord,
                    es[j + 1].1,
                )));
            }
        }
    }
}

/// Every entry an insertion produces is the inserted one or one of the
/// list's own.
proof fn lemma_insert_provenance(
    alg: SortAlgorithm,
    ord: SortOrder,
    e: (Seq<char>, VNode),
    s: Seq<(Seq<char>, VNode)>,
)
    ensures
        forall|m: int|
            0 <= m < insert_ventry(alg, ord, e, s).len() ==> {
                let x = #[trigger] insert_ventry(alg, ord, e, s)[m];
                x == e || (exists|j: int| 0 <= j < s.len() && x == s[j])
            },
    decreases s.len(),
{
    let r = insert_ventry(alg, ord, e, s);
    if s.len() == 0 {
    } else if key_ok(alg, ord, s[0].0, e.0) {
        let tail = s.subrange(1, s.len() as int);
        lemma_insert_provenance(alg, ord, e, tail);
        let rt = insert_ventry(alg, ord, e, tail);
        assert forall|m: int|
            0 <= m < r.len() implies {
            let x = #[trigger] r[m];
            x == e || (exists|j: int| 0 <= j < s.len() && x == s[j])
        } by {
            if m == 0 {
                assert(r[0] == s[0]);
            } else {
                assert(r[m] == rt[m - 1]);
                if rt[m - 1] == e {
                } else {
                    let j = choose|j: int| 0 <= j < tail.len() && rt[m - 1] == tail[j];
                    assert(tail[j] == s[j + 1]);
                }
            }
        }
    } else {
        assert forall|m: int|
            0 <= m < r.len() implies {
            let x = #[trigger] r[m];
            x == e || (exists|j: int| 0 <= j < s.len() && x == s[j])
        } by {
            if m > 0 {
                assert(r[m] == s[m - 1]);
            }
        }
    }
}

/// Law: under the lexicographic comparator a deep sort is idempotent:
/// sorting a second time changes nothing. (The natural comparator does not
/// order all strings transitively, so no such law holds of it.)
pub proof fn lemma_sort_vnode_idempotent(ord: SortOrder, n: VNode)
    ensures
        sort_vnode(SortAlgorithm::NORMAL, ord, sort_vnode(SortAlgorithm::NORMAL, ord, n))
            == sort_vnode(SortAlgorithm::NORMAL, ord, n),
    decreases n,
{
    let alg = SortAlgorithm::NORMAL;
    match n {
        VNode::Str(_) => {},
        VNode::Obj(es) => {
            let f = sort_fold(alg, ord, es, Seq::empty());
            lemma_sort_fold_sorted(alg, ord, es, Seq::empty());
            lemma_fold_provenance(alg, ord, es, Seq::empty());
            assert forall|i: int|
                0 <= i < f.len() implies sort_vnode(alg, ord, #[trigger] f[i].1) == f[i].1 by {
                assert(fold_entry_from(alg, ord, es, Seq::empty(), f[i]));
                let j = choose|j: int|
                    0 <= j < es.len() && f[i] == (es[j].0, sort_vnode(alg, ord, es[j].1));
                assert(decreases_to!(es => es[j]));
                assert(decreases_to!(es[j] => es[j].1));
                lemma_sort_vnode_idempotent(ord, es[j].1);
            }
            lemma_sorted_fold_identity(ord, f, Seq::empty());
            assert(Seq::<(Seq<char>, VNode)>::empty() + f =~= f);
        },
    }
}

/// Whether key `a` may stand before key `b` under the comparator and
/// direction.
fn key_ok_exec(alg: SortAlgorithm, ord: SortOrder, a: &JsonString, b: &JsonString) -> (r: bool)
    ensures
        r == key_ok(alg, ord, a.value@, b.value@),
{
    match alg {
        SortAlgorithm::NATURAL => {
            let o = crate::natural_sort::compare(a.value.as_str(), b.value.as_str());
            match ord {
                SortOrder::ASC => !matches!(o, Ordering::Greater),
                SortOrder::DESC => !matches!(o, Ordering::Less),
            }
        },
        SortAlgorithm::NORMAL => {
            let o = crate::natural_sort::compare_lex(a.value.as_str(), b.value.as_str());
            match ord {
                SortOrder::ASC => !matches!(o, Ordering::Greater),
                SortOrder::DESC => !matches!(o, Ordering::Less),
            }
        },
        SortAlgorithm::NONE => true,
    }
}

/// Insert one entry into an already processed list, stably.
fn insert_entry_exec(
    alg: SortAlgorithm,
    ord: SortOrder,
    e: (JsonString, JsonType),
    s: Vec<(JsonString, JsonType)>,
) -> (r: Vec<(JsonString, JsonType)>)
    ensures
        view_entries(r@) == insert_ventry(alg, ord, (e.0.value@, e.1@), view_entries(s@)),
    decreases s@.len(),
{
    let ghost sv = s@;
    let ghost ev = (e.0.value@, e.1@);
    if s.len() == 0 {
        let mut out: Vec<(JsonString, JsonType)> = Vec::new();
        out.push(e);
        proof {
            lemma_view_entries_index(sv);
            lemma_view_entries_index(out@);
            assert(view_entries(sv) =~= Seq::<(Seq<char>, VNode)>::empty());
            assert(view_entries(out@) =~= insert_ventry(alg, ord, ev, view_entries(sv)));
        }
        out
    } else if key_ok_exec(alg, ord, &s[0].0, &e.0) {
        let mut s2 = s;
        let head = s2.remove(0);
        proof {
            assert(s2@ =~= sv.subrange(1, sv.len() as int));
        }
        let mut rest = insert_entry_exec(alg, ord, e, s2);
        let ghost rv = rest@;
        rest.insert(0, head);
        proof {
            lemma_view_entries_index(sv);
            lemma_view_entries_index(sv.subrange(1, sv.len() as int));
            lemma_view_entries_index(rv);
            lemma_view_entries_index(rest@);
            assert(rest@ =~= seq![head] + rv);
            assert(view_entries(sv).subrange(1, view_entries(sv).len() as int)
                =~= view_entries(sv.subrange(1, sv.len() as int)));
            assert(view_entries(sv)[0] == (head.0.value@, view_value(head.1)));
            assert(key_ok(alg, ord, view_entries(sv)[0].0, ev.0));
            assert(view_entries(rest@) =~= seq![view_entries(sv)[0]] + view_entries(rv));
            assert(view_entries(rest@) =~= insert_ventry(alg, ord, ev, view_entries(sv)));
        }
        rest
    } else {
        let mut out = s;
        out.insert(0, e);
        proof {
            lemma_view_entries_index(sv);
            lemma_view_entries_index(out@);
            assert(out@ =~= seq![(e.0, e.1)] + sv);
            assert(view_entries(out@) =~= seq![ev] + view_entries(sv));
            assert(view_entries(out@) =~= insert_ventry(alg, ord, ev, view_entries(sv)));
        }
        out
    }
}

/// Deep-sort a value, children before their parents' entry lists.
fn sort_value(v: &JsonType, alg: SortAlgorithm, ord: SortOrder) -> (r: JsonType)
    ensures
        r@ == sort_vnode(alg, ord, v@),
    decreases *v,
{
    match v {
        JsonType::String(sv) => JsonType::String(sv.clone()),
        JsonType::Object(o) => JsonType::Object(sort_object(o, alg, ord)),
    }
}

/// Deep-sort an object, keeping its framing positions.
fn sort_object(o: &JsonObject, alg: SortAlgorithm, ord: SortOrder) -> (r: JsonObject)
    ensures
        r@ == sort_vnode(alg, ord, o@),
        r.start == o.start,
        r.end == o.end,
    decreases *o,
{
    let mut sorted: Vec<(JsonString, JsonType)> = Vec::new();
    let mut i: usize = 0;
    proof {
        assert(o.values@.subrange(0, o.values@.len() as int) =~= o.values@);
        lemma_view_entries_index(sorted@);
        assert(view_entries(sorted@) =~= Seq::<(Seq<char>, VNode)>::empty());
    }
    while i < o.values.len()
        invariant
            i <= o.values@.len(),
            sort_fold(alg, ord, view_entries(o.values@), Seq::empty()) == sort_fold(
                alg,
                ord,
                view_entries(o.values@.subrange(i as int, o.values@.len() as int)),
                view_entries(sorted@),
            ),
        decreases o.values@.len() - i,
    {
        let ghost rem = o.values@.subrange(i as int, o.values@.len() as int);
        let ghost acc0 = view_entries(sorted@);
        let entry = &o.values[i];
        let k = entry.0.clone();
        proof {
            assert(decreases_to!(*o => o.values@[i as int].1));
        }
        let v2 = sort_value(&entry.1, alg, ord);
        sorted = insert_entry_exec(alg, ord, (k, v2), sorted);
        proof {
            lemma_view_entries_index(rem);
            lemma_view_entries_index(
                o.values@.subrange(i as int + 1, o.values@.len() as int),
            );
            let es = view_entries(rem);
            assert(rem[0] == o.values@[i as int]);
            assert(es[0] == (o.values@[i as int].0.value@, view_value(o.values@[i as int].1)));
            assert(es.subrange(1, es.len() as int) =~= view_entries(
                o.values@.subrange(i as int + 1, o.values@.len() as int),
            ));
            assert(view_entries(sorted@) == insert_ventry(
                alg,
                ord,
                (o.values@[i as int].0.value@, sort_vnode(
                    alg,
                    ord,
                    view_value(o.values@[i as int].1),
                )),
                acc0,
            ));
            assert(sort_fold(alg, ord, es, acc0) == sort_fold(
                alg,
                ord,
                view_entries(o.values@.subrange(i as int + 1, o.values@.len() as int)),
                view_entries(sorted@),
            ));
        }
        i += 1;
    }
    proof {
        lemma_view_entries_index(o.values@.subrange(i as int, o.values@.len() as int));
        assert(view_entries(o.values@.subrange(i as int, o.values@.len() as int))
            =~= Seq::<(Seq<char>, VNode)>::empty());
    }
    JsonObject { values: sorted, start: o.start, end: o.end }
}

impl JsonObject {
    /// Reorder every object's entries in the tree by the given comparator
    /// and direction; entries with equal keys keep their relative order,
    /// and the framing positions stay.
    pub fn sort_by(&mut self, alg: SortAlgorithm, ord: SortOrder)
        ensures
            final(self)@ == sort_vnode(alg, ord, old(self)@),
            final(self).start == old(self).start,
            final(self).end == old(self).end,
    {
        let sorted = sort_object(self, alg, ord);
        *self = sorted;
    }
}

/// The canonical generator; it carries the style to emit under.
pub struct Generator {
    pub style: JsonStyle,
}

impl Generator {
    /// Make a generator for the given style.
    pub fn new(style: JsonStyle) -> (g: Generator)
        ensures
            g.style == style,
    {
        Generator { style }
    }

    /// Append the style's line break to the buffer.
    pub fn new_line(&self, buffer: &mut String)
        ensures
            final(buffer)@ == old(buffer)@ + nl_of(self.style),
    {
        match &self.style {
            JsonStyle::STYLED { line_endings, .. } => {
                match line_endings {
                    LineEnding::CRLF => buffer.append("\r\n"),
                    LineEnding::NONE => {
                        proof {
                            reveal_strlit("");
                            assert(buffer@ =~= old(buffer)@ + nl_of(self.style));
                        }
                    },
                    _ => buffer.append("\n"),
                }
            },
            JsonStyle::IGNORE => {
                proof {
                    reveal_strlit("");
                    assert(buffer@ =~= old(buffer)@ + nl_of(self.style));
                }
            },
        }
    }

    /// Append an already laid out indentation prefix to the buffer.
    pub fn new_indent(&self, pre: &Vec<char>, buffer: &mut String)
        ensures
            final(buffer)@ == old(buffer)@ + pre@,
    {
        let mut i: usize = 0;
        while i < pre.len()
            invariant
                i <= pre@.len(),
                buffer@ == old(buffer)@ + pre@.subrange(0, i as int),
            decreases pre@.len() - i,
        {
            push_char(buffer, pre[i]);
            assert(buffer@ =~= old(buffer)@ + pre@.subrange(0, i as int + 1));
            i += 1;
        }
        assert(final(buffer)@ =~= old(buffer)@ + pre@);
    }

    /// The indentation prefix one level deeper than `pre`.
    fn extend_indent(&self, pre: &Vec<char>) -> (r: Vec<char>)
        ensures
            r@ == pre@ + indent_of(self.style),
    {
        let mut r: Vec<char> = Vec::new();
        let mut i: usize = 0;
        while i < pre.len()
            invariant
                i <= pre@.len(),
                r@ == pre@.subrange(0, i as int),
            decreases pre@.len() - i,
        {
            r.push(pre[i]);
            assert(r@ =~= pre@.subrange(0, i as int + 1));
            i += 1;
        }
        assert(r@ =~= pre@);
        match &self.style {
            JsonStyle::STYLED { indentation: Some(u), .. } => {
                let uv = crate::util::str_to_chars(u.as_str());
                let mut k: usize = 0;
                while k < uv.len()
                    invariant
                        k <= uv@.len(),
                        r@ == pre@ + uv@.subrange(0, k as int),
                    decreases uv@.len() - k,
                {
                    r.push(uv[k]);
                    assert(r@ =~= pre@ + uv@.subrange(0, k as int + 1));
                    k += 1;
                }
                assert(r@ =~= pre@ + indent_of(self.style));
            },
            JsonStyle::STYLED { indentation: None, .. } => {
                r.push(' ');
                r.push(' ');
                r.push(' ');
                r.push(' ');
                proof {
                    reveal_strlit("    ");
                    assert(r@ =~= pre@ + indent_of(self.style));
                }
            },
            JsonStyle::IGNORE => {
                proof {
                    reveal_strlit("");
                    assert(r@ =~= pre@ + indent_of(self.style));
                }
            },
        }
        r
    }

    /// Emit one object at the nesting depth whose indentation prefix is
    /// `pre`.
    #[verifier::rlimit(60)]
    fn generate_object(
        &self,
        json: &JsonObject,
        pre: &Vec<char>,
        buffer: &mut String,
        Ghost(depth): Ghost<nat>,
    )
        requires
            pre@ == repeat_seq(indent_of(self.style), depth),
        ensures
            final(buffer)@ == old(buffer)@ + gen_node(self.style, view_object(*json), depth),
        decreases *json, 1int,
    {
        let ghost b0 = old(buffer)@;
        push_char(buffer, '{');
        self.new_line(buffer);
        proof {
            reveal_strlit("{");
            assert(buffer@ =~= b0 + "{"@ + nl_of(self.style));
        }
        let pre2 = self.extend_indent(pre);
        proof {
            assert(pre2@ == repeat_seq(indent_of(self.style), depth + 1));
            assert(json.values@ =~= json.values@.subrange(0, json.values@.len() as int));
            assert((buffer@ + gen_entries(
                self.style,
                view_entries(json.values@.subrange(0, json.values@.len() as int)),
                depth,
            )) =~= (b0 + "{"@ + nl_of(self.style) + gen_entries(
                self.style,
                view_entries(json.values@),
                depth,
            )));
        }
        let mut i: usize = 0;
        while i < json.values.len()
            invariant
                i <= json.values@.len(),
                pre2@ == repeat_seq(indent_of(self.style), depth + 1),
                pre@ == repeat_seq(indent_of(self.style), depth),
                buffer@ + gen_entries(
                    self.style,
                    view_entries(json.values@.subrange(i as int, json.values@.len() as int)),
                    depth,
                ) == b0 + "{"@ + nl_of(self.style) + gen_entries(
                    self.style,
                    view_entries(json.values@),
                    depth,
                ),
            decreases json.values@.len() - i,
        {
            let ghost rem = json.values@.subrange(i as int, json.values@.len() as int);
            let ghost bpre = buffer@;
            let entry = &json.values[i];
            proof {
                assert(decreases_to!(*json => json.values@[i as int]));
            }
            self.new_indent(&pre2, buffer);
            self.generate_entry(entry, &pre2, buffer, Ghost(depth + 1));
            if i + 1 < json.values.len() {
                push_char(buffer, ',');
            }
            self.new_line(buffer);
            proof {
                reveal_strlit(",");
                reveal_strlit("");
                lemma_view_entries_index(rem);
                lemma_view_entries_index(
                    json.values@.subrange(i as int + 1, json.values@.len() as int),
                );
                let es = view_entries(rem);
                assert(rem[0] == json.values@[i as int]);
                assert(es[0] == (entry.0.value@, view_value(entry.1)));
                assert(es.subrange(1, es.len() as int) =~= view_entries(
                    json.values@.subrange(i as int + 1, json.values@.len() as int),
                ));
                if rem.len() > 1 {
                    assert(buffer@ =~= bpre + pre2@ + "\""@ + entry.0.value@ + "\":"@
                        + gen_pc_of(self.style) + gen_node(
                        self.style,
                        view_value(entry.1),
                        depth + 1,
                    ) + ","@ + nl_of(self.style));
                } else {
                    assert(buffer@ =~= bpre + pre2@ + "\""@ + entry.0.value@ + "\":"@
                        + gen_pc_of(self.style) + gen_node(
                        self.style,
                        view_value(entry.1),
                        depth + 1,
                    ) + ""@ + nl_of(self.style));
                }
                assert((buffer@ + gen_entries(
                    self.style,
                    view_entries(
                        json.values@.subrange(i as int + 1, json.values@.len() as int),
                    ),
                    depth,
                )) =~= (bpre + gen_entries(self.style, es, depth)));
            }
            i += 1;
        }
        self.new_indent(pre, buffer);
        push_char(buffer, '}');
        proof {
            reveal_strlit("}");
            lemma_view_entries_index(
                json.values@.subrange(i as int, json.values@.len() as int),
            );
            assert(view_entries(json.values@.subrange(i as int, json.values@.len() as int))
                =~= Seq::<(Seq<char>, VNode)>::empty());
            assert(buffer@ =~= old(buffer)@ + gen_node(self.style, view_object(*json), depth));
        }
    }

    /// Emit one entry, whose own lines sit at the depth of `pre`.
    fn generate_entry(
        &self,
        e: &(JsonString, JsonType),
        pre: &Vec<char>,
        buffer: &mut String,
        Ghost(depth): Ghost<nat>,
    )
        requires
            pre@ == repeat_seq(indent_of(self.style), depth),
        ensures
            final(buffer)@ == old(buffer)@ + "\""@ + e.0.value@ + "\":"@ + gen_pc_of(self.style)
                + gen_node(self.style, view_value(e.1), depth),
        decreases *e, 0int,
    {
        push_char(buffer, '"');
        buffer.append(e.0.value.as_str());
        push_char(buffer, '"');
        push_char(buffer, ':');
        match &self.style {
            JsonStyle::STYLED { post_colon: Some(p), .. } => buffer.append(p.as_str()),
            JsonStyle::STYLED { post_colon: None, .. } => buffer.append(" "),
            JsonStyle::IGNORE => {},
        }
        match &e.1 {
            JsonType::Object(o) => {
                self.generate_object(o, pre, buffer, Ghost(depth));
            },
            JsonType::String(sv) => {
                push_char(buffer, '"');
                buffer.append(sv.value.as_str());
                push_char(buffer, '"');
            },
        }
        proof {
            reveal_strlit("\"");
            reveal_strlit("\":");
            reveal_strlit("");
            assert(buffer@ =~= old(buffer)@ + "\""@ + e.0.value@ + "\":"@ + gen_pc_of(
                self.style,
            ) + gen_node(self.style, view_value(e.1), depth));
        }
    }

    /// Serialize a tree under the generator's style: sort it first when
    /// the style asks for an order, then emit it from depth zero.
    pub fn generate(&self, json: JsonObject) -> (r: String)
        ensures
            r@ == gen_node(self.style, applied_sort(self.style, json@), 0),
    {
        let ghost jv = json@;
        let mut json = json;
        match &self.style {
            JsonStyle::STYLED { sort_algorithm, order, .. } => {
                match sort_algorithm {
                    SortAlgorithm::NONE => {},
                    _ => {
                        json.sort_by(*sort_algorithm, *order);
                    },
                }
            },
            JsonStyle::IGNORE => {},
        }
        let mut buffer = String::new();
        let pre: Vec<char> = Vec::new();
        proof {
            assert(pre@ =~= repeat_seq(indent_of(self.style), 0));
        }
        self.generate_object(&json, &pre, &mut buffer, Ghost(0));
        proof {
            assert(buffer@ =~= gen_node(self.style, applied_sort(self.style, jv), 0));
        }
        buffer
    }
}

} // verus!
