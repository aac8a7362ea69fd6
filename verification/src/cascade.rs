//! The style cascade: class definitions gathered from `classDef` directives,
//! then each node's classes overridden by its own `style` directives, and each
//! edge's default link style overridden by its own `linkStyle`.
use vstd::prelude::*;
use std::collections::BTreeMap;
use crate::model::{IrInlineStyle, IrStyleDef, IrStyleRef, IrStyleTarget, IrNode, IrEdge};
use crate::graph_ir::IrNodeId;
use crate::diagnostics::Span;
use crate::style::{
    text_view, text_keys_distinct, text_map, text_lt, lists_text_map, sorted_entries_of, style_properties,
    parse_style_string, map_entries, insert_text_entry,
};
use crate::text::text_eq;

verus! {

proof fn lemma_text_lt_irreflexive(a: Seq<char>)
    ensures
        !text_lt(a, a),
    decreases a.len(),
{
    if a.len() > 0 {
        lemma_text_lt_irreflexive(a.drop_first());
    }
}

proof fn lemma_text_lt_total(a: Seq<char>, b: Seq<char>)
    ensures
        a == b || text_lt(a, b) || text_lt(b, a),
        !(text_lt(a, b) && text_lt(b, a)),
    decreases a.len(),
{
    if a.len() > 0 && b.len() > 0 {
        lemma_text_lt_total(a.drop_first(), b.drop_first());
        if a[0] == b[0] && a.drop_first() == b.drop_first() {
            assert forall|i: int| 0 <= i < a.len() implies a[i] == b[i] by {
                if i > 0 {
                    assert(a[i] == a.drop_first()[i - 1]);
                    assert(b[i] == b.drop_first()[i - 1]);
                }
            }
            assert(a =~= b);
        }
    } else if a.len() == 0 && b.len() == 0 {
        assert(a =~= b);
    }
}

/// Two lists of texts, each in strictly increasing order, that hold the same texts
/// are the same list.
proof fn lemma_sorted_unique(a: Seq<Seq<char>>, b: Seq<Seq<char>>)
    requires
        forall|i: int, j: int| 0 <= i < j < a.len() ==> text_lt(#[trigger] a[i], #[trigger] a[j]),
        forall|i: int, j: int| 0 <= i < j < b.len() ==> text_lt(#[trigger] b[i], #[trigger] b[j]),
        forall|x: Seq<char>| a.contains(x) <==> b.contains(x),
    ensures
        a == b,
    decreases a.len(),
{
    if a.len() == 0 {
        if b.len() > 0 {
            assert(b.contains(b[0]));
        }
        assert(a =~= b);
    } else if b.len() == 0 {
        assert(a.contains(a[0]));
    } else {
        assert(a.contains(a[0]));
        assert(b.contains(b[0]));
        if a[0] != b[0] {
            let j = choose|j: int| 0 <= j < b.len() && b[j] == a[0];
            let i = choose|i: int| 0 <= i < a.len() && a[i] == b[0];
            assert(text_lt(b[0], b[j]));
            assert(text_lt(a[0], a[i]));
            lemma_text_lt_total(a[0], b[0]);
        }
        let a1 = a.drop_first();
        let b1 = b.drop_first();
        assert forall|x: Seq<char>| a1.contains(x) <==> b1.contains(x) by {
            if a1.contains(x) {
                let i = choose|i: int| 0 <= i < a1.len() && a1[i] == x;
                assert(a[i + 1] == x);
                assert(text_lt(a[0], a[i + 1]));
                lemma_text_lt_irreflexive(x);
                assert(b.contains(x));
                let j = choose|j: int| 0 <= j < b.len() && b[j] == x;
                assert(j != 0);
                assert(b1[j - 1] == x);
            }
            if b1.contains(x) {
                let j = choose|j: int| 0 <= j < b1.len() && b1[j] == x;
                assert(b[j + 1] == x);
                assert(text_lt(b[0], b[j + 1]));
                lemma_text_lt_irreflexive(x);
                assert(a.contains(x));
                let i = choose|i: int| 0 <= i < a.len() && a[i] == x;
                assert(i != 0);
                assert(a1[i - 1] == x);
            }
        }
        assert forall|i: int, j: int| 0 <= i < j < a1.len() implies text_lt(#[trigger] a1[i], #[trigger] a1[j]) by {
            assert(text_lt(a[i + 1], a[j + 1]));
        }
        assert forall|i: int, j: int| 0 <= i < j < b1.len() implies text_lt(#[trigger] b1[i], #[trigger] b1[j]) by {
            assert(text_lt(b[i + 1], b[j + 1]));
        }
        lemma_sorted_unique(a1, b1);
        assert(a =~= seq![a[0]] + a1);
        assert(b =~= seq![b[0]] + b1);
    }
}

/// The cascade of a class depends only on the text of its name.
proof fn lemma_cascade_by_name(refs: Seq<IrStyleRef>, a: String, b: String)
    requires
        a@ == b@,
    ensures
        cascade(refs, IrStyleTarget::Class(a)) == cascade(refs, IrStyleTarget::Class(b)),
    decreases refs.len(),
{
    if refs.len() > 0 {
        lemma_cascade_by_name(refs.drop_last(), a, b);
    }
}

/// The class definitions of a list of directives are determined by it: two lists
/// that both meet [`class_defs`] hold the same names, spans and properties (as text),
/// in the same order.
pub proof fn law_class_defs_determined(refs: Seq<IrStyleRef>, d1: Seq<IrStyleDef>, d2: Seq<IrStyleDef>)
    requires
        class_defs(refs, d1),
        class_defs(refs, d2),
    ensures
        d1.len() == d2.len(),
        forall|i: int| 0 <= i < d1.len() ==> (#[trigger] d1[i]).name@ == d2[i].name@ && d1[i].span == d2[i].span
            && text_view(d1[i].properties@) == text_view(d2[i].properties@),
{
    let n1 = d1.map_values(|d: IrStyleDef| d.name@);
    let n2 = d2.map_values(|d: IrStyleDef| d.name@);
    assert forall|i: int, j: int| 0 <= i < j < n1.len() implies text_lt(#[trigger] n1[i], #[trigger] n1[j]) by {
        assert(text_lt(d1[i].name@, d1[j].name@));
    }
    assert forall|i: int, j: int| 0 <= i < j < n2.len() implies text_lt(#[trigger] n2[i], #[trigger] n2[j]) by {
        assert(text_lt(d2[i].name@, d2[j].name@));
    }
    assert forall|x: Seq<char>| n1.contains(x) <==> n2.contains(x) by {
        if n1.contains(x) {
            let i = choose|i: int| 0 <= i < n1.len() && n1[i] == x;
            assert(defines_class(refs, d1[i].name@));
            let j = choose|j: int| 0 <= j < d2.len() && d2[j].name@ == x;
            assert(n2[j] == x);
        }
        if n2.contains(x) {
            let j = choose|j: int| 0 <= j < n2.len() && n2[j] == x;
            assert(defines_class(refs, d2[j].name@));
            let i = choose|i: int| 0 <= i < d1.len() && d1[i].name@ == x;
            assert(n1[i] == x);
        }
    }
    lemma_sorted_unique(n1, n2);
    assert forall|i: int| 0 <= i < d1.len() implies (#[trigger] d1[i]).name@ == d2[i].name@ && d1[i].span == d2[i].span
        && text_view(d1[i].properties@) == text_view(d2[i].properties@) by {
        assert(n1[i] == n2[i]);
        lemma_cascade_by_name(refs, d1[i].name, d2[i].name);
    }
}

/// Looking up a key in the map of a list of (key, value) texts: present exactly
/// when some entry has the key; with distinct keys, the entry's value.
proof fn lemma_text_map_lookup(ev: Seq<(Seq<char>, Seq<char>)>)
    ensures
        forall|k: Seq<char>| #[trigger] text_map(ev).contains_key(k) <==> exists|i: int| 0 <= i < ev.len() && ev[i].0 == k,
        (forall|i: int, j: int| 0 <= i < j < ev.len() ==> ev[i].0 != ev[j].0) ==> forall|i: int|
            0 <= i < ev.len() ==> #[trigger] text_map(ev)[ev[i].0] == ev[i].1,
    decreases ev.len(),
{
    if ev.len() > 0 {
        let p = ev.drop_last();
        lemma_text_map_lookup(p);
        assert forall|k: Seq<char>| #[trigger] text_map(ev).contains_key(k) <==> exists|i: int| 0 <= i < ev.len() && ev[i].0 == k by {
            if text_map(p).contains_key(k) {
                let i = choose|i: int| 0 <= i < p.len() && p[i].0 == k;
                assert(ev[i].0 == k);
            }
            if exists|i: int| 0 <= i < ev.len() && ev[i].0 == k {
                let i = choose|i: int| 0 <= i < ev.len() && ev[i].0 == k;
                if i < ev.len() - 1 {
                    assert(p[i].0 == k);
                }
            }
        }
        if forall|i: int, j: int| 0 <= i < j < ev.len() ==> ev[i].0 != ev[j].0 {
            assert forall|i: int, j: int| 0 <= i < j < p.len() implies p[i].0 != p[j].0 by {
                assert(ev[i].0 != ev[j].0);
            }
            assert forall|i: int| 0 <= i < ev.len() implies #[trigger] text_map(ev)[ev[i].0] == ev[i].1 by {
                assert(text_map(ev) == text_map(p).insert(ev.last().0, ev.last().1));
                if i < ev.len() - 1 {
                    assert(p[i] == ev[i]);
                    assert(ev[i].0 != ev[ev.len() - 1].0);
                    assert(text_map(p)[p[i].0] == p[i].1);
                }
            }
        }
    }
}

/// A sorted listing of a map builds that map back.
proof fn lemma_listing_map(ev: Seq<(Seq<char>, Seq<char>)>, m: Map<Seq<char>, Seq<char>>)
    requires
        lists_text_map(ev, m),
    ensures
        text_map(ev) == m,
{
    lemma_text_map_lookup(ev);
    assert forall|i: int, j: int| 0 <= i < j < ev.len() implies ev[i].0 != ev[j].0 by {
        assert(text_lt(ev[i].0, ev[j].0));
        lemma_text_lt_irreflexive(ev[i].0);
    }
    assert forall|k: Seq<char>| #[trigger] text_map(ev).contains_key(k) <==> m.contains_key(k) by {
        if text_map(ev).contains_key(k) {
            let i = choose|i: int| 0 <= i < ev.len() && ev[i].0 == k;
            assert(m.contains_key(ev[i].0));
        }
    }
    assert forall|k: Seq<char>| #[trigger] text_map(ev).contains_key(k) implies text_map(ev)[k] == m[k] by {
        let i = choose|i: int| 0 <= i < ev.len() && ev[i].0 == k;
        assert(text_map(ev)[ev[i].0] == ev[i].1);
        assert(m.contains_key(ev[i].0) && m[ev[i].0] == ev[i].1);
    }
    assert(text_map(ev) =~= m);
}

/// Add every entry of `src` to `dst`, replacing values of equal keys.
fn extend_text_map(dst: &mut BTreeMap<String, String>, src: &BTreeMap<String, String>)
    requires
        text_keys_distinct(old(dst)@),
        text_keys_distinct(src@),
    ensures
        text_keys_distinct(final(dst)@),
        text_view(final(dst)@) == text_view(old(dst)@).union_prefer_right(text_view(src@)),
{
    let entries = map_entries(src);
    let ghost ev = entries@.map_values(|p: (String, String)| (p.0@, p.1@));
    let ghost d0 = text_view(dst@);
    proof {
        let m = src@;
        let tv = text_view(m);
        assert forall|j: int| 0 <= j < ev.len() implies #[trigger] tv.contains_key(ev[j].0) && tv[ev[j].0] == ev[j].1 by {
            let s = entries@[j].0;
            assert(m.contains_key(s));
            let c = choose|c: String| m.contains_key(c) && c@ == s@;
            assert(c == s);
        }
        assert forall|k: Seq<char>| #[trigger] tv.contains_key(k) implies exists|j: int| 0 <= j < ev.len() && ev[j].0 == k by {
            let s = choose|s: String| m.contains_key(s) && s@ == k;
            let j = choose|j: int| 0 <= j < entries@.len() && entries@[j].0 == s;
            assert(ev[j].0 == k);
        }
        lemma_listing_map(ev, tv);
        assert(d0.union_prefer_right(text_map(ev.take(0))) =~= d0);
    }
    let mut i: usize = 0;
    while i < entries.len()
        invariant
            i <= entries@.len(),
            ev == entries@.map_values(|p: (String, String)| (p.0@, p.1@)),
            text_keys_distinct(dst@),
            text_view(dst@) == d0.union_prefer_right(text_map(ev.take(i as int))),
        decreases entries@.len() - i,
    {
        let k = entries[i].0.clone();
        let v = entries[i].1.clone();
        proof {
            assert(ev.take(i + 1).drop_last() =~= ev.take(i as int));
            assert(ev[i as int] == (k@, v@));
            assert(d0.union_prefer_right(text_map(ev.take(i + 1))) =~= d0.union_prefer_right(text_map(ev.take(i as int))).insert(k@, v@));
        }
        insert_text_entry(dst, k, v);
        i = i + 1;
    }
    proof {
        assert(ev.take(i as int) =~= ev);
    }
}

/// Whether two style targets name the same thing (a class by its name's text).
pub open spec fn same_target(a: IrStyleTarget, b: IrStyleTarget) -> bool {
    match (a, b) {
        (IrStyleTarget::Class(x), IrStyleTarget::Class(y)) => x@ == y@,
        (IrStyleTarget::Node(x), IrStyleTarget::Node(y)) => x == y,
        (IrStyleTarget::Link(x), IrStyleTarget::Link(y)) => x == y,
        (IrStyleTarget::LinkDefault, IrStyleTarget::LinkDefault) => true,
        _ => false,
    }
}

/// The properties the directives aimed at `t` set, in order: a later directive
/// overrides an earlier one key by key.
pub open spec fn cascade(refs: Seq<IrStyleRef>, t: IrStyleTarget) -> Map<Seq<char>, Seq<char>>
    decreases refs.len(),
{
    if refs.len() == 0 {
        Map::empty()
    } else {
        let rest = cascade(refs.drop_last(), t);
        if same_target(refs.last().target, t) {
            rest.union_prefer_right(style_properties(refs.last().style@))
        } else {
            rest
        }
    }
}

/// The class layer of an element: the cascade of each of its classes, in the
/// order the classes are listed, a later class overriding an earlier one.
pub open spec fn class_layer(refs: Seq<IrStyleRef>, classes: Seq<String>) -> Map<Seq<char>, Seq<char>>
    decreases classes.len(),
{
    if classes.len() == 0 {
        Map::empty()
    } else {
        class_layer(refs, classes.drop_last()).union_prefer_right(
            cascade(refs, IrStyleTarget::Class(classes.last())),
        )
    }
}

/// A node's style: its class layer, overridden by the `style` directives aimed at it.
pub open spec fn node_style(refs: Seq<IrStyleRef>, classes: Seq<String>, index: usize) -> Map<Seq<char>, Seq<char>> {
    class_layer(refs, classes).union_prefer_right(cascade(refs, IrStyleTarget::Node(IrNodeId(index))))
}

/// An edge's style: the default link style, overridden by the `linkStyle` aimed at it.
pub open spec fn edge_style(refs: Seq<IrStyleRef>, index: usize) -> Map<Seq<char>, Seq<char>> {
    cascade(refs, IrStyleTarget::LinkDefault).union_prefer_right(cascade(refs, IrStyleTarget::Link(index)))
}

/// A target is the class named `name`.
pub open spec fn names_class(t: IrStyleTarget, name: Seq<char>) -> bool {
    t matches IrStyleTarget::Class(n) && n@ == name
}

/// Some directive defines the class named `name`.
pub open spec fn defines_class(refs: Seq<IrStyleRef>, name: Seq<char>) -> bool {
    exists|i: int| 0 <= i < refs.len() && #[trigger] names_class(refs[i].target, name)
}

/// The span of the first directive that defines the class named `name`.
pub open spec fn first_class_span(refs: Seq<IrStyleRef>, name: Seq<char>) -> Option<Span>
    decreases refs.len(),
{
    if refs.len() == 0 {
        None
    } else if names_class(refs[0].target, name) {
        Some(refs[0].span)
    } else {
        first_class_span(refs.drop_first(), name)
    }
}

/// The inline style an element ends with: the computed style where it sets
/// anything, else the style it had.
pub open spec fn styled(before: Option<IrInlineStyle>, after: Option<IrInlineStyle>, style: Map<Seq<char>, Seq<char>>) -> bool {
    if style.is_empty() {
        after == before
    } else {
        after matches Some(s) && text_view(s.properties@) == style && text_keys_distinct(s.properties@)
    }
}

/// `after` is `before` with only the inline style changed.
pub open spec fn node_restyled(before: IrNode, after: IrNode) -> bool {
    after == (IrNode { inline_style: after.inline_style, ..before })
}

/// `after` is `before` with only the inline style changed.
pub open spec fn edge_restyled(before: IrEdge, after: IrEdge) -> bool {
    after == (IrEdge { inline_style: after.inline_style, ..before })
}

/// The nodes after the cascade: each keeps everything but its inline style,
/// which becomes its computed style where that sets anything.
pub open spec fn nodes_populated(refs: Seq<IrStyleRef>, before: Seq<IrNode>, after: Seq<IrNode>) -> bool {
    &&& after.len() == before.len()
    &&& forall|i: int| 0 <= i < before.len() ==> node_restyled(before[i], #[trigger] after[i])
        && styled(before[i].inline_style, after[i].inline_style, node_style(refs, before[i].classes@, i as usize))
}

/// The edges after the cascade, as for nodes.
pub open spec fn edges_populated(refs: Seq<IrStyleRef>, before: Seq<IrEdge>, after: Seq<IrEdge>) -> bool {
    &&& after.len() == before.len()
    &&& forall|i: int| 0 <= i < before.len() ==> edge_restyled(before[i], #[trigger] after[i])
        && styled(before[i].inline_style, after[i].inline_style, edge_style(refs, i as usize))
}

/// The class definitions: one per class name that a directive defines, in
/// increasing name order, each with the cascade of its directives and the span of
/// the first of them.
pub open spec fn class_defs(refs: Seq<IrStyleRef>, defs: Seq<IrStyleDef>) -> bool {
    &&& forall|i: int, j: int| 0 <= i < j < defs.len() ==> text_lt(#[trigger] defs[i].name@, #[trigger] defs[j].name@)
    &&& forall|i: int| 0 <= i < defs.len() ==> {
        &&& defines_class(refs, #[trigger] defs[i].name@)
        &&& text_view(defs[i].properties@) == cascade(refs, IrStyleTarget::Class(defs[i].name))
        &&& text_keys_distinct(defs[i].properties@)
        &&& first_class_span(refs, defs[i].name@) == Some(defs[i].span)
    }
    &&& forall|name: Seq<char>| #[trigger] defines_class(refs, name) ==> exists|i: int| 0 <= i < defs.len() && defs[i].name@ == name
}

/// Whether two style targets name the same thing.
fn targets_agree(a: &IrStyleTarget, b: &IrStyleTarget) -> (r: bool)
    ensures
        r == same_target(*a, *b),
{
    match (a, b) {
        (IrStyleTarget::Class(x), IrStyleTarget::Class(y)) => text_eq(x.as_str(), y.as_str()),
        (IrStyleTarget::Node(x), IrStyleTarget::Node(y)) => x.0 == y.0,
        (IrStyleTarget::Link(x), IrStyleTarget::Link(y)) => *x == *y,
        (IrStyleTarget::LinkDefault, IrStyleTarget::LinkDefault) => true,
        _ => false,
    }
}

/// The cascade of the directives aimed at `t`.
fn collect_styles(refs: &Vec<IrStyleRef>, t: &IrStyleTarget) -> (m: BTreeMap<String, String>)
    ensures
        text_keys_distinct(m@),
        text_view(m@) == cascade(refs@, *t),
{
    let mut m: BTreeMap<String, String> = BTreeMap::new();
    proof {
        assert(text_view(m@) =~= Map::<Seq<char>, Seq<char>>::empty());
        assert(refs@.take(0) =~= Seq::<IrStyleRef>::empty());
    }
    let mut i: usize = 0;
    while i < refs.len()
        invariant
            i <= refs@.len(),
            text_keys_distinct(m@),
            text_view(m@) == cascade(refs@.take(i as int), *t),
        decreases refs@.len() - i,
    {
        proof {
            assert(refs@.take(i + 1).drop_last() =~= refs@.take(i as int));
            assert(refs@.take(i + 1).last() == refs@[i as int]);
        }
        if targets_agree(&refs[i].target, t) {
            let parsed = parse_style_string(refs[i].style.as_str());
            extend_text_map(&mut m, &parsed.properties);
        }
        i = i + 1;
    }
    proof {
        assert(refs@.take(i as int) =~= refs@);
    }
    m
}

/// A string map and its text view are empty together.
proof fn lemma_text_view_empty(m: Map<String, String>)
    ensures
        text_view(m).is_empty() == m.is_empty(),
{
    if !m.is_empty() {
        let s = m.dom().choose();
        assert(m.contains_key(s));
        assert(text_view(m).contains_key(s@));
    }
    if !text_view(m).is_empty() {
        let k = text_view(m).dom().choose();
        assert(text_view(m).contains_key(k));
        let s = choose|s: String| m.contains_key(s) && s@ == k;
        assert(m.dom().contains(s));
    }
}

/// A class that some directive defines has a first such directive.
proof fn lemma_first_class_span(refs: Seq<IrStyleRef>, name: Seq<char>)
    requires
        defines_class(refs, name),
    ensures
        first_class_span(refs, name) is Some,
    decreases refs.len(),
{
    if !names_class(refs[0].target, name) {
        let i = choose|i: int| 0 <= i < refs.len() && #[trigger] names_class(refs[i].target, name);
        assert(refs.drop_first()[i - 1] == refs[i]);
        lemma_first_class_span(refs.drop_first(), name);
    }
}

/// The span of the first directive that defines the class named `name`.
fn first_span(refs: &Vec<IrStyleRef>, name: &str) -> (r: Option<Span>)
    ensures
        r == first_class_span(refs@, name@),
{
    proof {
        assert(refs@.skip(0) =~= refs@);
    }
    let mut i: usize = 0;
    while i < refs.len()
        invariant
            i <= refs@.len(),
            first_class_span(refs@, name@) == first_class_span(refs@.skip(i as int), name@),
        decreases refs@.len() - i,
    {
        proof {
            assert(refs@.skip(i as int).drop_first() =~= refs@.skip(i + 1));
            assert(refs@.skip(i as int)[0] == refs@[i as int]);
        }
        match &refs[i].target {
            IrStyleTarget::Class(n) => {
                if text_eq(n.as_str(), name) {
                    return Some(refs[i].span);
                }
            },
            _ => {},
        }
        i = i + 1;
    }
    None
}

/// The class definitions of the directives.
fn build_class_defs(refs: &Vec<IrStyleRef>) -> (defs: Vec<IrStyleDef>)
    ensures
        class_defs(refs@, defs@),
{
    let mut names: BTreeMap<String, String> = BTreeMap::new();
    proof {
        assert(text_view(names@) =~= Map::<Seq<char>, Seq<char>>::empty());
    }
    let mut i: usize = 0;
    while i < refs.len()
        invariant
            i <= refs@.len(),
            text_keys_distinct(names@),
            forall|k: Seq<char>| #[trigger] text_view(names@).contains_key(k) <==> defines_class(refs@.take(i as int), k),
        decreases refs@.len() - i,
    {
        let ghost before = text_view(names@);
        match &refs[i].target {
            IrStyleTarget::Class(n) => {
                insert_text_entry(&mut names, n.clone(), String::new());
            },
            _ => {},
        }
        proof {
            let t = refs@.take(i as int);
            let t1 = refs@.take(i + 1);
            assert forall|k: Seq<char>| #[trigger] text_view(names@).contains_key(k) <==> defines_class(t1, k) by {
                if defines_class(t, k) {
                    let q = choose|q: int| 0 <= q < t.len() && #[trigger] names_class(t[q].target, k);
                    assert(t1[q] == t[q]);
                }
                if defines_class(t1, k) {
                    let q = choose|q: int| 0 <= q < t1.len() && #[trigger] names_class(t1[q].target, k);
                    if q < i {
                        assert(t[q] == t1[q]);
                        assert(names_class(t[q].target, k));
                    } else {
                        assert(t1[q] == refs@[i as int]);
                    }
                }
                if names_class(refs@[i as int].target, k) {
                    assert(t1[i as int] == refs@[i as int]);
                    assert(names_class(t1[i as int].target, k));
                }
            }
        }
        i = i + 1;
    }
    proof {
        assert(refs@.take(i as int) =~= refs@);
    }
    let entries = map_entries(&names);
    let mut defs: Vec<IrStyleDef> = Vec::new();
    let mut j: usize = 0;
    while j < entries.len()
        invariant
            j <= entries@.len(),
            sorted_entries_of(names@, entries@),
            forall|k: Seq<char>| #[trigger] text_view(names@).contains_key(k) <==> defines_class(refs@, k),
            defs@.len() == j,
            forall|q: int| 0 <= q < j ==> {
                &&& (#[trigger] defs@[q]).name == entries@[q].0
                &&& text_view(defs@[q].properties@) == cascade(refs@, IrStyleTarget::Class(defs@[q].name))
                &&& text_keys_distinct(defs@[q].properties@)
                &&& first_class_span(refs@, defs@[q].name@) == Some(defs@[q].span)
            },
        decreases entries@.len() - j,
    {
        let name = entries[j].0.clone();
        proof {
            assert(names@.contains_key(entries@[j as int].0));
            assert(text_view(names@).contains_key(name@));
            lemma_first_class_span(refs@, name@);
        }
        let properties = collect_styles(refs, &IrStyleTarget::Class(name.clone()));
        let span = first_span(refs, name.as_str()).unwrap();
        defs.push(IrStyleDef { name, properties, span });
        j = j + 1;
    }
    proof {
        let d = defs@;
        assert forall|q: int| 0 <= q < d.len() implies defines_class(refs@, #[trigger] d[q].name@) by {
            assert(names@.contains_key(entries@[q].0));
            assert(text_view(names@).contains_key(d[q].name@));
        }
        assert forall|a: int, b: int| 0 <= a < b < d.len() implies text_lt(#[trigger] d[a].name@, #[trigger] d[b].name@) by {
            assert(text_lt(entries@[a].0@, entries@[b].0@));
        }
        assert forall|k: Seq<char>| #[trigger] defines_class(refs@, k) implies exists|q: int| 0 <= q < d.len() && d[q].name@ == k by {
            assert(text_view(names@).contains_key(k));
            let s = choose|s: String| names@.contains_key(s) && s@ == k;
            let q = choose|q: int| 0 <= q < entries@.len() && entries@[q].0 == s;
            assert(d[q].name@ == k);
        }
    }
    defs
}

/// The style a node with these classes at this index is given.
fn node_style_map(refs: &Vec<IrStyleRef>, classes: &Vec<String>, index: usize) -> (m: BTreeMap<String, String>)
    ensures
        text_keys_distinct(m@),
        text_view(m@) == node_style(refs@, classes@, index),
{
    let mut m: BTreeMap<String, String> = BTreeMap::new();
    proof {
        assert(text_view(m@) =~= Map::<Seq<char>, Seq<char>>::empty());
        assert(classes@.take(0) =~= Seq::<String>::empty());
    }
    let mut c: usize = 0;
    while c < classes.len()
        invariant
            c <= classes@.len(),
            text_keys_distinct(m@),
            text_view(m@) == class_layer(refs@, classes@.take(c as int)),
        decreases classes@.len() - c,
    {
        proof {
            assert(classes@.take(c + 1).drop_last() =~= classes@.take(c as int));
            assert(classes@.take(c + 1).last() == classes@[c as int]);
        }
        let layer = collect_styles(refs, &IrStyleTarget::Class(classes[c].clone()));
        extend_text_map(&mut m, &layer);
        c = c + 1;
    }
    proof {
        assert(classes@.take(c as int) =~= classes@);
    }
    let direct = collect_styles(refs, &IrStyleTarget::Node(IrNodeId(index)));
    extend_text_map(&mut m, &direct);
    m
}

/// Give each node its computed style where that sets anything.
fn populate_nodes(refs: &Vec<IrStyleRef>, nodes: &mut Vec<IrNode>)
    ensures
        nodes_populated(refs@, old(nodes)@, final(nodes)@),
{
    let ghost before = nodes@;
    let n = nodes.len();
    let mut i: usize = 0;
    while i < n
        invariant
            n == before.len(),
            nodes@.len() == n,
            i <= n,
            forall|q: int| 0 <= q < i ==> node_restyled(before[q], #[trigger] nodes@[q])
                && styled(before[q].inline_style, nodes@[q].inline_style, node_style(refs@, before[q].classes@, q as usize)),
            forall|q: int| i <= q < n ==> #[trigger] nodes@[q] == before[q],
        decreases n - i,
    {
        let merged = node_style_map(refs, &nodes[i].classes, i);
        proof {
            lemma_text_view_empty(merged@);
        }
        if !merged.is_empty() {
            nodes[i].inline_style = Some(IrInlineStyle { properties: merged });
        }
        i = i + 1;
    }
}

/// Give each edge its computed style where that sets anything.
fn populate_edges(refs: &Vec<IrStyleRef>, edges: &mut Vec<IrEdge>)
    ensures
        edges_populated(refs@, old(edges)@, final(edges)@),
{
    let ghost before = edges@;
    let default_style = collect_styles(refs, &IrStyleTarget::LinkDefault);
    let n = edges.len();
    let mut i: usize = 0;
    while i < n
        invariant
            n == before.len(),
            edges@.len() == n,
            i <= n,
            text_keys_distinct(default_style@),
            text_view(default_style@) == cascade(refs@, IrStyleTarget::LinkDefault),
            forall|q: int| 0 <= q < i ==> edge_restyled(before[q], #[trigger] edges@[q])
                && styled(before[q].inline_style, edges@[q].inline_style, edge_style(refs@, q as usize)),
            forall|q: int| i <= q < n ==> #[trigger] edges@[q] == before[q],
        decreases n - i,
    {
        let mut merged = default_style.clone();
        let specific = collect_styles(refs, &IrStyleTarget::Link(i));
        extend_text_map(&mut merged, &specific);
        proof {
            lemma_text_view_empty(merged@);
        }
        if !merged.is_empty() {
            edges[i].inline_style = Some(IrInlineStyle { properties: merged });
        }
        i = i + 1;
    }
}

/// Resolve the style directives: the class definitions (returned, in name
/// order), then each node's style (its classes, overridden by its own `style`
/// directives) and each edge's style (the default link style, overridden by its
/// own `linkStyle`). An element whose computed style is empty keeps the style it
/// had.
pub fn populate_structured_styles(style_refs: &Vec<IrStyleRef>, nodes: &mut Vec<IrNode>, edges: &mut Vec<IrEdge>) -> (style_defs: Vec<IrStyleDef>)
    ensures
        class_defs(style_refs@, style_defs@),
        nodes_populated(style_refs@, old(nodes)@, final(nodes)@),
        edges_populated(style_refs@, old(edges)@, final(edges)@),
{
    let style_defs = build_class_defs(style_refs);
    populate_nodes(style_refs, nodes);
    populate_edges(style_refs, edges);
    style_defs
}

/// Two inline styles set the same properties, as text.
pub open spec fn same_style(a: Option<IrInlineStyle>, b: Option<IrInlineStyle>) -> bool {
    match (a, b) {
        (None, None) => true,
        (Some(x), Some(y)) => text_view(x.properties@) == text_view(y.properties@),
        _ => false,
    }
}

/// Populating styles is idempotent: resolving the same directives a second time
/// gives the same class definitions (names, spans and properties as text, in the same
/// order) and leaves every node and edge with the style the first time gave it, as
/// text, and everything else unchanged.
pub proof fn law_populate_idempotent(
    refs: Seq<IrStyleRef>,
    d1: Seq<IrStyleDef>,
    d2: Seq<IrStyleDef>,
    n0: Seq<IrNode>,
    n1: Seq<IrNode>,
    n2: Seq<IrNode>,
    e0: Seq<IrEdge>,
    e1: Seq<IrEdge>,
    e2: Seq<IrEdge>,
)
    requires
        class_defs(refs, d1),
        nodes_populated(refs, n0, n1),
        edges_populated(refs, e0, e1),
        class_defs(refs, d2),
        nodes_populated(refs, n1, n2),
        edges_populated(refs, e1, e2),
    ensures
        d2.len() == d1.len(),
        forall|i: int| 0 <= i < d1.len() ==> (#[trigger] d1[i]).name@ == d2[i].name@ && d1[i].span == d2[i].span
            && text_view(d1[i].properties@) == text_view(d2[i].properties@),
        n2.len() == n1.len(),
        e2.len() == e1.len(),
        forall|i: int| 0 <= i < n1.len() ==> node_restyled(n1[i], #[trigger] n2[i]) && same_style(n1[i].inline_style, n2[i].inline_style),
        forall|i: int| 0 <= i < e1.len() ==> edge_restyled(e1[i], #[trigger] e2[i]) && same_style(e1[i].inline_style, e2[i].inline_style),
{
    law_class_defs_determined(refs, d1, d2);
    assert forall|i: int| 0 <= i < n1.len() implies node_restyled(n1[i], #[trigger] n2[i]) && same_style(n1[i].inline_style, n2[i].inline_style) by {
        assert(node_restyled(n0[i], n1[i]));
        assert(n1[i].classes == n0[i].classes);
    }
    assert forall|i: int| 0 <= i < e1.len() implies edge_restyled(e1[i], #[trigger] e2[i]) && same_style(e1[i].inline_style, e2[i].inline_style) by {
        assert(edge_restyled(e0[i], e1[i]));
    }
}

} // verus!
