//! Markup written back from a tree, and what parsing does with it: the
//! markup of a well-formed tree parses to that tree, and every tree that the
//! parser gives is well-formed.
use crate::attributes::{attr_insert, find_key, lemma_find_key};
use crate::attributes::AttrMap;
use crate::dom::{elem_view, lemma_view_children, text_view, views, KindView, Node, NodeType, NodeView};
use crate::parser::{chars_of, push_char};
use crate::grammar::{
    at_closing_tag, attr_value, attributes, document, element, element_close, expect_char,
    in_class, is_ws, lemma_attr_value, lemma_scan, lemma_scan_unique, node, nodes, scan, skip_ws, tag_name,
    text_node, CharClass,
};
use vstd::prelude::*;

verus! {

/// The quote that delimits `v` in markup: `'` where `v` holds `"`.
pub open spec fn quote_for(v: Seq<char>) -> char {
    if v.contains('"') {
        '\''
    } else {
        '"'
    }
}

/// ` name="value"` for each attribute, in order.
pub open spec fn attrs_markup(a: Seq<(Seq<char>, Seq<char>)>) -> Seq<char>
    decreases a.len(),
{
    if a.len() == 0 {
        Seq::empty()
    } else {
        let q = quote_for(a[0].1);
        seq![' '] + a[0].0 + seq!['=', q] + a[0].1 + seq![q] + attrs_markup(
            a.subrange(1, a.len() as int),
        )
    }
}

/// A text node as its text; an element as its start tag, the markup of its
/// children and its closing tag.
pub open spec fn node_markup(n: NodeView) -> Seq<char>
    decreases n,
{
    match n.kind {
        KindView::Text(t) => t,
        KindView::Element { tag, attrs } => seq!['<'] + tag + attrs_markup(attrs) + seq!['>']
            + nodes_markup(n.children) + seq!['<', '/'] + tag + seq!['>'],
    }
}

pub open spec fn nodes_markup(ns: Seq<NodeView>) -> Seq<char>
    decreases ns,
{
    if ns.len() == 0 {
        Seq::empty()
    } else {
        node_markup(ns[0]) + nodes_markup(ns.subrange(1, ns.len() as int))
    }
}

/// A non-empty run of characters of `cls`.
pub open spec fn name_ok(x: Seq<char>, cls: CharClass) -> bool {
    x.len() > 0 && forall|i: int| 0 <= i < x.len() ==> in_class(cls, #[trigger] x[i])
}

/// Attribute names that parse as names, each once, and values that some
/// quote can delimit.
pub open spec fn attrs_ok(a: Seq<(Seq<char>, Seq<char>)>) -> bool {
    &&& forall|i: int|
        0 <= i < a.len() ==> name_ok(#[trigger] a[i].0, CharClass::AttrName) && !(a[i].1.contains(
            '"',
        ) && a[i].1.contains('\''))
    &&& forall|i: int, j: int| 0 <= i < j < a.len() ==> a[i].0 != a[j].0
}

/// Text that the parser keeps as it is: not empty, no `<`, no white space
/// in front.
pub open spec fn text_ok(t: Seq<char>) -> bool {
    t.len() > 0 && !is_ws(t[0]) && !t.contains('<')
}

/// A tree that parsing can give, with elements nested at most `budget` deep.
pub open spec fn node_ok(n: NodeView, budget: int) -> bool
    decreases n,
{
    match n.kind {
        KindView::Text(t) => text_ok(t) && n.children.len() == 0,
        KindView::Element { tag, attrs } => budget > 0 && name_ok(tag, CharClass::TagName)
            && attrs_ok(attrs) && nodes_ok(n.children, budget - 1),
    }
}

/// Siblings that parsing can give: each well-formed, and no two text nodes
/// side by side.
pub open spec fn nodes_ok(ns: Seq<NodeView>, budget: int) -> bool
    decreases ns,
{
    ns.len() == 0 || {
        &&& node_ok(ns[0], budget)
        &&& ns.len() > 1 ==> !(ns[0].kind is Text && ns[1].kind is Text)
        &&& nodes_ok(ns.subrange(1, ns.len() as int), budget)
    }
}

/// `x` stands in `s` from `p` on.
pub open spec fn holds_at(s: Seq<char>, p: int, x: Seq<char>) -> bool {
    0 <= p && p + x.len() <= s.len() && s.subrange(p, p + x.len()) == x
}

proof fn lemma_holds_split(s: Seq<char>, p: int, a: Seq<char>, b: Seq<char>)
    requires
        holds_at(s, p, a + b),
    ensures
        holds_at(s, p, a),
        holds_at(s, p + a.len(), b),
        forall|i: int| 0 <= i < a.len() ==> s[p + i] == a[i],
        forall|i: int| 0 <= i < b.len() ==> s[p + a.len() + i] == b[i],
{
    assert forall|i: int| 0 <= i < a.len() implies s[p + i] == a[i] by {
        assert(s.subrange(p, p + (a + b).len())[i] == (a + b)[i]);
    }
    assert forall|i: int| 0 <= i < b.len() implies s[p + a.len() + i] == b[i] by {
        assert(s.subrange(p, p + (a + b).len())[a.len() + i] == (a + b)[a.len() + i]);
    }
    assert(s.subrange(p, p + a.len()) =~= a);
    assert(s.subrange(p + a.len(), p + a.len() + b.len()) =~= b);
}

/// A run `x` of `cls` at `p` that the next character does not continue is
/// what `scan` finds.
proof fn lemma_scan_run(s: Seq<char>, p: int, x: Seq<char>, cls: CharClass)
    requires
        holds_at(s, p, x),
        forall|i: int| 0 <= i < x.len() ==> in_class(cls, #[trigger] x[i]),
        p + x.len() == s.len() || !in_class(cls, s[p + x.len()]),
    ensures
        scan(s, p, cls) == p + x.len(),
        s.subrange(p, p + x.len()) == x,
{
    assert forall|i: int| p <= i < p + x.len() implies in_class(cls, s[i]) by {
        assert(s.subrange(p, p + x.len())[i - p] == x[i - p]);
    }
    lemma_scan_unique(s, p, p + x.len(), cls);
}

proof fn lemma_attrs_reparse(
    s: Seq<char>,
    p: int,
    a: Seq<(Seq<char>, Seq<char>)>,
    acc: Seq<(Seq<char>, Seq<char>)>,
)
    requires
        attrs_ok(a),
        holds_at(s, p, attrs_markup(a)),
        p + attrs_markup(a).len() < s.len(),
        s[p + attrs_markup(a).len()] == '>',
        forall|i: int, j: int| 0 <= i < acc.len() && 0 <= j < a.len() ==> acc[i].0 != a[j].0,
    ensures
        attributes(s, p, acc) == Ok::<_, crate::error::ErrorView>(
            (acc + a, p + attrs_markup(a).len()),
        ),
    decreases a.len(),
{
    if a.len() == 0 {
        assert(s.subrange(p, p) =~= Seq::<char>::empty());
        lemma_scan_run(s, p, Seq::empty(), CharClass::Whitespace);
        assert(acc + a =~= acc);
    } else {
        let name = a[0].0;
        let v = a[0].1;
        let q = quote_for(v);
        let rest = a.subrange(1, a.len() as int);
        let n = name.len();
        let x1 = seq![' '] + name;
        let x2 = x1 + seq!['=', q];
        let x3 = x2 + v;
        let x4 = x3 + seq![q];
        lemma_holds_split(s, p, x4, attrs_markup(rest));
        lemma_holds_split(s, p, x3, seq![q]);
        lemma_holds_split(s, p, x2, v);
        lemma_holds_split(s, p, x1, seq!['=', q]);
        lemma_holds_split(s, p, seq![' '], name);
        assert(name_ok(name, CharClass::AttrName));
        assert(seq![' '][0] == ' ');
        assert(s[p + 0] == seq![' '][0]);
        assert(s[p] == ' ');
        assert(s[p + 1] == name[0]);
        lemma_scan_run(s, p, seq![' '], CharClass::Whitespace);
        assert(seq!['=', q][0] == '=' && seq!['=', q][1] == q);
        assert(s[p + 1 + n + 0] == seq!['=', q][0]);
        assert(s[p + 1 + n + 1] == seq!['=', q][1]);
        assert(s[p + 1 + n] == '=');
        assert(s.subrange(p + 1 + n, p + 1 + n) =~= Seq::<char>::empty());
        lemma_scan_run(s, p + 1, name, CharClass::AttrName);
        lemma_scan_run(s, p + 1 + n, Seq::empty(), CharClass::Whitespace);
        assert(s[p + 2 + n] == q);
        assert(!v.contains(q));
        assert forall|i: int| 0 <= i < v.len() implies in_class(CharClass::Not(q), #[trigger] v[i]) by {
            if v[i] == q {
                assert(v.contains(q));
            }
        }
        assert(seq![q][0] == q);
        assert(s[p + 3 + n + v.len() + 0] == seq![q][0]);
        lemma_scan_run(s, p + 3 + n, v, CharClass::Not(q));
        assert(attr_value(s, p + 1 + n) == Ok::<_, crate::error::ErrorView>(
            (v, p + 4 + n + v.len()),
        ));
        lemma_find_key(acc, name, 0);
        if find_key(acc, name, 0) >= 0 {
            assert(acc[find_key(acc, name, 0)].0 != a[0].0);
        }
        assert(attr_insert(acc, name, v) == acc.push((name, v)));
        assert(attrs_ok(rest));
        assert forall|i: int, j: int|
            0 <= i < acc.push((name, v)).len() && 0 <= j < rest.len() implies acc.push(
            (name, v),
        )[i].0 != rest[j].0 by {
            if i < acc.len() {
                assert(rest[j] == a[j + 1]);
            } else {
                assert(rest[j] == a[j + 1]);
            }
        }
        lemma_attrs_reparse(s, p + 4 + n + v.len(), rest, acc.push((name, v)));
        assert(acc.push((name, v)) + rest =~= acc + a);
    }
}

/// The markup of a well-formed element, parsed where it stands, gives the
/// element back.
proof fn lemma_element_reparse(s: Seq<char>, p: int, n: NodeView, d: int, lim: int)
    requires
        n.kind is Element,
        node_ok(n, lim - d),
        holds_at(s, p, node_markup(n)),
    ensures
        element(s, p, d, lim) == Ok::<_, crate::error::ErrorView>((n, p + node_markup(n).len())),
    decreases n,
{
    let tag = n.kind->tag;
    let attrs = n.kind->attrs;
    let t = tag.len();
    let am = attrs_markup(attrs);
    let cm = nodes_markup(n.children);
    let y1 = seq!['<'] + tag;
    let y2 = y1 + am;
    let y3 = y2 + seq!['>'];
    let y4 = y3 + cm;
    let y5 = y4 + seq!['<', '/'];
    let y6 = y5 + tag;
    lemma_holds_split(s, p, y6, seq!['>']);
    lemma_holds_split(s, p, y5, tag);
    lemma_holds_split(s, p, y4, seq!['<', '/']);
    lemma_holds_split(s, p, y3, cm);
    lemma_holds_split(s, p, y2, seq!['>']);
    lemma_holds_split(s, p, y1, am);
    lemma_holds_split(s, p, seq!['<'], tag);
    let p1 = p + 1;
    let p2 = p1 + t;
    let p3 = p2 + am.len();
    let p4 = p3 + 1;
    let p5 = p4 + cm.len();
    let p6 = p5 + 2;
    let p7 = p6 + t;
    assert(seq!['<'][0] == '<' && seq!['>'][0] == '>');
    assert(seq!['<', '/'][0] == '<' && seq!['<', '/'][1] == '/');
    assert(s[p + 0] == seq!['<'][0]);
    assert(s[p3 + 0] == seq!['>'][0]);
    assert(s[p5 + 0] == '<' && s[p5 + 1] == '/');
    assert(s[p7 + 0] == seq!['>'][0]);
    if am.len() > 0 {
        assert(am[0] == ' ');
        assert(s[p2 + 0] == am[0]);
    }
    lemma_scan_run(s, p1, tag, CharClass::TagName);
    assert(tag_name(s, p1) == Ok::<_, crate::error::ErrorView>((tag, p2)));
    lemma_attrs_reparse(s, p2, attrs, Seq::empty());
    assert(Seq::<(Seq<char>, Seq<char>)>::empty() + attrs =~= attrs);
    assert(s.subrange(p3, p3) =~= Seq::<char>::empty());
    lemma_scan_run(s, p3, Seq::empty(), CharClass::Whitespace);
    lemma_nodes_reparse(s, p4, n.children, d + 1, lim);
    lemma_scan_run(s, p6, tag, CharClass::TagName);
    assert(tag_name(s, p6) == Ok::<_, crate::error::ErrorView>((tag, p7)));
    assert(element_close(s, p5, tag, attrs, n.children) == Ok::<_, crate::error::ErrorView>(
        (n, p7 + 1),
    ));
}

/// The markup of well-formed siblings, followed by the end of the input or
/// a closing tag, parses to those siblings.
proof fn lemma_nodes_reparse(s: Seq<char>, p: int, ns: Seq<NodeView>, d: int, lim: int)
    requires
        nodes_ok(ns, lim - d),
        holds_at(s, p, nodes_markup(ns)),
        p + nodes_markup(ns).len() == s.len() || at_closing_tag(s, p + nodes_markup(ns).len()),
    ensures
        nodes(s, p, d, lim) == Ok::<_, crate::error::ErrorView>(
            (ns, p + nodes_markup(ns).len()),
        ),
    decreases ns,
{
    if ns.len() == 0 {
        assert(s.subrange(p, p) =~= Seq::<char>::empty());
        lemma_scan_run(s, p, Seq::empty(), CharClass::Whitespace);
        assert(ns =~= Seq::<NodeView>::empty());
    } else {
        let first = ns[0];
        let rest = ns.subrange(1, ns.len() as int);
        let m = node_markup(first);
        lemma_holds_split(s, p, m, nodes_markup(rest));
        let q = p + m.len();
        match first.kind {
            KindView::Element { tag, attrs } => {
                assert(m == seq!['<'] + tag + attrs_markup(attrs) + seq!['>'] + nodes_markup(
                    first.children,
                ) + seq!['<', '/'] + tag + seq!['>']);
                assert(node_ok(first, lim - d));
                assert(tag.len() > 0);
                let y1 = seq!['<'] + tag;
                let y2 = y1 + attrs_markup(attrs);
                let y3 = y2 + seq!['>'];
                let y4 = y3 + nodes_markup(first.children);
                let y5 = y4 + seq!['<', '/'];
                let y6 = y5 + tag;
                assert(y1[0] == '<' && y1[1] == tag[0]);
                assert(y2[0] == y1[0] && y2[1] == y1[1]);
                assert(y3[0] == y2[0] && y3[1] == y2[1]);
                assert(y4[0] == y3[0] && y4[1] == y3[1]);
                assert(y5[0] == y4[0] && y5[1] == y4[1]);
                assert(y6[0] == y5[0] && y6[1] == y5[1]);
                assert(m == y6 + seq!['>']);
                assert(m[0] == '<');
                assert(m[1] == tag[0]);
                assert(s[p + 0] == m[0]);
                assert(s[p + 1] == m[1]);
                assert(in_class(CharClass::TagName, tag[0]));
                assert(s.subrange(p, p) =~= Seq::<char>::empty());
                lemma_scan_run(s, p, Seq::empty(), CharClass::Whitespace);
                assert(!at_closing_tag(s, p));
                lemma_element_reparse(s, p, first, d, lim);
            },
            KindView::Text(t) => {
                assert(node_ok(first, lim - d));
                assert(text_ok(t) && m == t);
                if t[0] == '<' {
                    assert(t.contains('<'));
                }
                assert(!at_closing_tag(s, p));
                assert(s[p + 0] == m[0]);
                assert(s.subrange(p, p) =~= Seq::<char>::empty());
                lemma_scan_run(s, p, Seq::empty(), CharClass::Whitespace);
                if rest.len() > 0 {
                    let m2 = node_markup(rest[0]);
                    lemma_holds_split(s, q, m2, nodes_markup(rest.subrange(1, rest.len() as int)));
                    assert(rest[0].kind is Element);
                    assert(m2[0] == '<');
                    assert(s[q + 0] == m2[0]);
                } else {
                    assert(nodes_markup(rest) =~= Seq::<char>::empty());
                }
                assert forall|i: int| 0 <= i < t.len() implies in_class(
                    CharClass::Not('<'),
                    #[trigger] t[i],
                ) by {
                    if t[i] == '<' {
                        assert(t.contains('<'));
                    }
                }
                lemma_scan_run(s, p, t, CharClass::Not('<'));
                assert(first.children =~= Seq::<NodeView>::empty());
                assert(text_node(s, p) == (first, q));
            },
        }
        assert(node(s, p, d, lim) == Ok::<_, crate::error::ErrorView>((first, q)));
        assert(skip_ws(s, p) == p);
        assert(p < q <= s.len());
        lemma_nodes_reparse(s, q, rest, d, lim);
        assert(q + nodes_markup(rest).len() == p + nodes_markup(ns).len());
        assert(seq![first] + rest =~= ns);
    }
}

proof fn lemma_insert_ok(e: Seq<(Seq<char>, Seq<char>)>, k: Seq<char>, v: Seq<char>)
    requires
        attrs_ok(e),
        name_ok(k, CharClass::AttrName),
        !(v.contains('"') && v.contains('\'')),
    ensures
        attrs_ok(attr_insert(e, k, v)),
{
    lemma_find_key(e, k, 0);
    let r = attr_insert(e, k, v);
    let j = find_key(e, k, 0);
    if j >= 0 {
        assert forall|a: int, b: int| 0 <= a < b < r.len() implies r[a].0 != r[b].0 by {
            assert(r[a].0 == e[a].0 && r[b].0 == e[b].0);
        }
    } else {
        assert forall|a: int, b: int| 0 <= a < b < r.len() implies r[a].0 != r[b].0 by {
            if b == e.len() {
                assert(r[a].0 == e[a].0);
            }
        }
    }
}

/// The attributes that parsing adds to well-formed ones are well-formed.
proof fn lemma_attrs_ok(s: Seq<char>, p: int, acc: Seq<(Seq<char>, Seq<char>)>)
    requires
        attrs_ok(acc),
        0 <= p,
    ensures
        attributes(s, p, acc) matches Ok((a, q)) ==> attrs_ok(a),
    decreases s.len() - p,
{
    let p1 = skip_ws(s, p);
    lemma_scan(s, p, CharClass::Whitespace);
    if p1 < 0 || p1 >= s.len() || s[p1] == '>' || s[p1] == '/' {
    } else {
        let q = scan(s, p1, CharClass::AttrName);
        lemma_scan(s, p1, CharClass::AttrName);
        if q > p1 {
            let name = s.subrange(p1, q);
            assert(name_ok(name, CharClass::AttrName));
            let q1 = skip_ws(s, q);
            lemma_scan(s, q, CharClass::Whitespace);
            if 0 <= q1 < s.len() && s[q1] == '=' {
                lemma_attr_value(s, q1);
                if let Ok((v, r)) = attr_value(s, q1) {
                    let quote = s[q1 + 1];
                    lemma_scan(s, q1 + 2, CharClass::Not(quote));
                    assert(!v.contains(quote)) by {
                        if v.contains(quote) {
                            let i = choose|i: int| 0 <= i < v.len() && v[i] == quote;
                            assert(v[i] == s[q1 + 2 + i]);
                        }
                    }
                    lemma_insert_ok(acc, name, v);
                    lemma_attrs_ok(s, r, attr_insert(acc, name, v));
                }
            } else {
                lemma_insert_ok(acc, name, Seq::empty());
                lemma_attrs_ok(s, q1, attr_insert(acc, name, Seq::empty()));
            }
        }
    }
}

/// An element that parsing gives is well-formed for the depth left.
proof fn lemma_element_ok(s: Seq<char>, p: int, d: int, lim: int)
    requires
        0 <= p,
    ensures
        element(s, p, d, lim) matches Ok((n, q)) ==> n.kind is Element && node_ok(n, lim - d),
    decreases lim - d, s.len() - p, 0int,
{
    if d < lim {
        if let Ok(p1) = expect_char(s, p, '<', crate::error::Expectation::OpenAngle) {
            lemma_scan(s, p1, CharClass::TagName);
            if let Ok((tag, p2)) = tag_name(s, p1) {
                assert(name_ok(tag, CharClass::TagName));
                lemma_scan(s, p1, CharClass::TagName);
                lemma_attrs_ok(s, p2, Seq::empty());
                if let Ok((attrs, p3)) = attributes(s, p2, Seq::empty()) {
                    let p4 = skip_ws(s, p3);
                    lemma_scan(s, p3, CharClass::Whitespace);
                    if 0 <= p4 && p4 + 1 < s.len() && s[p4] == '/' && s[p4 + 1] == '>' {
                        assert(node_ok(elem_view(tag, attrs, Seq::empty()), lim - d));
                    } else if let Ok(p5) = expect_char(s, p4, '>', crate::error::Expectation::CloseAngle) {
                        lemma_nodes_ok(s, p5, d + 1, lim);
                    }
                }
            }
        }
    }
}

/// A node that parsing gives where no white space stands is well-formed; a
/// text node ends at a `<` or
/// at the end of the input.
proof fn lemma_node_ok(s: Seq<char>, p: int, d: int, lim: int)
    requires
        0 <= p,
        p < s.len() ==> !is_ws(s[p]),
    ensures
        node(s, p, d, lim) matches Ok((n, q)) ==> {
            &&& node_ok(n, lim - d)
            &&& n.kind is Text ==> q == s.len() || (0 <= q < s.len() && s[q] == '<')
            &&& (p < s.len() && s[p] == '<') ==> n.kind is Element
        },
    decreases lim - d, s.len() - p, 1int,
{
    if 0 <= p < s.len() {
        if s[p] == '<' {
            lemma_element_ok(s, p, d, lim);
        } else {
            let q = scan(s, p, CharClass::Not('<'));
            lemma_scan(s, p, CharClass::Not('<'));
            let t = s.subrange(p, q);
            assert(t[0] == s[p]);
            assert(text_ok(t));
            assert(!t.contains('<')) by {
                if t.contains('<') {
                    let i = choose|i: int| 0 <= i < t.len() && t[i] == '<';
                    assert(t[i] == s[p + i]);
                }
            }
        }
    }
}

/// Siblings that parsing gives are well-formed; where a `<` or the end of
/// the input stands at the start, the first of them is an element.
proof fn lemma_nodes_ok(s: Seq<char>, p: int, d: int, lim: int)
    requires
        0 <= p,
    ensures
        nodes(s, p, d, lim) matches Ok((ns, q)) ==> {
            &&& nodes_ok(ns, lim - d)
            &&& (p == s.len() || (p < s.len() && s[p] == '<')) ==> (ns.len() == 0
                || ns[0].kind is Element)
        },
    decreases lim - d, s.len() - p, 2int,
{
    let p1 = skip_ws(s, p);
    lemma_scan(s, p, CharClass::Whitespace);
    if p == s.len() || (p < s.len() && s[p] == '<') {
        assert(scan(s, p, CharClass::Whitespace) == p);
    }
    if !(p1 < 0 || p1 >= s.len() || at_closing_tag(s, p1)) {
        lemma_node_ok(s, p1, d, lim);
        if let Ok((n, q)) = node(s, p1, d, lim) {
            if p1 < q <= s.len() {
                lemma_nodes_ok(s, q, d, lim);
                if let Ok((rest, r)) = nodes(s, q, d, lim) {
                    let ns = seq![n] + rest;
                    assert(ns[0] == n);
                    assert(ns.subrange(1, ns.len() as int) =~= rest);
                    if ns.len() > 1 {
                        assert(ns[1] == rest[0]);
                    }
                }
            }
        }
    }
}

/// Parsing the markup of a well-formed element, as a whole document, gives
/// that element back.
pub proof fn law_markup_parses_back(t: NodeView, lim: int)
    requires
        t.kind is Element,
        node_ok(t, lim),
    ensures
        document(node_markup(t), lim) == Ok::<_, crate::error::ErrorView>(t),
{
    let s = node_markup(t);
    let ns = seq![t];
    assert(ns.subrange(1, 1) =~= Seq::<NodeView>::empty());
    assert(nodes_markup(ns.subrange(1, 1)) =~= Seq::<char>::empty());
    assert(ns[0] == t);
    assert(nodes_markup(ns) =~= s);
    assert(nodes_ok(Seq::<NodeView>::empty(), lim));
    assert(nodes_ok(ns, lim));
    assert(s.subrange(0, s.len() as int) =~= s);
    lemma_nodes_reparse(s, 0, ns, 0, lim);
}

/// Every document that parses is well-formed, and the markup written back
/// from it parses to the same tree.
pub proof fn law_round_trip(s: Seq<char>, lim: int)
    requires
        document(s, lim) is Ok,
    ensures
        node_ok(document(s, lim)->Ok_0, lim),
        document(node_markup(document(s, lim)->Ok_0), lim) == document(s, lim),
{
    lemma_nodes_ok(s, 0, 0, lim);
    let t = document(s, lim)->Ok_0;
    law_markup_parses_back(t, lim);
}

/// `<tag attr="v">text</tag>` parses to one element named `tag` with the one
/// attribute `attr` set to `v` and one text child `text`.
pub proof fn law_single_element(
    tag: Seq<char>,
    attr: Seq<char>,
    v: Seq<char>,
    text: Seq<char>,
    lim: int,
)
    requires
        name_ok(tag, CharClass::TagName),
        name_ok(attr, CharClass::AttrName),
        !v.contains('"'),
        text_ok(text),
        lim >= 1,
    ensures
        document(
            seq!['<'] + tag + seq![' '] + attr + seq!['=', '"'] + v + seq!['"', '>'] + text + seq![
                '<',
                '/',
            ] + tag + seq!['>'],
            lim,
        ) == Ok::<_, crate::error::ErrorView>(
            elem_view(tag, seq![(attr, v)], seq![text_view(text)]),
        ),
{
    let a = seq![(attr, v)];
    let t = elem_view(tag, a, seq![text_view(text)]);
    assert(a.subrange(1, 1) =~= Seq::<(Seq<char>, Seq<char>)>::empty());
    assert(a[0] == (attr, v));
    assert(quote_for(v) == '"');
    assert(attrs_markup(Seq::<(Seq<char>, Seq<char>)>::empty()) =~= Seq::<char>::empty());
    assert(attrs_markup(a) =~= seq![' '] + attr + seq!['=', '"'] + v + seq!['"']);
    let cs = seq![text_view(text)];
    assert(cs.subrange(1, 1) =~= Seq::<NodeView>::empty());
    assert(cs[0] == text_view(text));
    assert(node_markup(text_view(text)) == text);
    assert(nodes_markup(Seq::<NodeView>::empty()) =~= Seq::<char>::empty());
    assert(nodes_markup(cs) =~= text);
    assert(text_view(text).children =~= Seq::<NodeView>::empty());
    assert(node_ok(text_view(text), lim - 1));
    assert(nodes_ok(Seq::<NodeView>::empty(), lim - 1));
    assert(nodes_ok(cs, lim - 1));
    assert(attrs_ok(a));
    assert(node_ok(t, lim));
    assert(node_markup(t) =~= seq!['<'] + tag + seq![' '] + attr + seq!['=', '"'] + v + seq![
        '"',
        '>',
    ] + text + seq!['<', '/'] + tag + seq!['>']);
    law_markup_parses_back(t, lim);
}

proof fn lemma_nodes_markup_push(ns: Seq<NodeView>, n: NodeView)
    ensures
        nodes_markup(ns.push(n)) == nodes_markup(ns) + node_markup(n),
    decreases ns.len(),
{
    if ns.len() == 0 {
        assert(ns.push(n).subrange(1, 1) =~= Seq::<NodeView>::empty());
        assert(nodes_markup(ns) =~= Seq::<char>::empty());
        assert(nodes_markup(ns.push(n).subrange(1, 1)) =~= Seq::<char>::empty());
        assert(ns.push(n)[0] == n);
        assert(nodes_markup(ns.push(n)) =~= nodes_markup(ns) + node_markup(n));
    } else {
        let rest = ns.subrange(1, ns.len() as int);
        lemma_nodes_markup_push(rest, n);
        assert(ns.push(n).subrange(1, ns.len() as int + 1) =~= rest.push(n));
        assert(nodes_markup(ns.push(n)) =~= nodes_markup(ns) + node_markup(n));
    }
}

proof fn lemma_attrs_markup_push(a: Seq<(Seq<char>, Seq<char>)>, x: (Seq<char>, Seq<char>))
    ensures
        attrs_markup(a.push(x)) == attrs_markup(a) + attrs_markup(seq![x]),
    decreases a.len(),
{
    let one = seq![x];
    assert(one.subrange(1, 1) =~= Seq::<(Seq<char>, Seq<char>)>::empty());
    assert(attrs_markup(Seq::<(Seq<char>, Seq<char>)>::empty()) =~= Seq::<char>::empty());
    if a.len() == 0 {
        assert(a.push(x) =~= one);
        assert(attrs_markup(a.push(x)) =~= attrs_markup(a) + attrs_markup(one));
    } else {
        let rest = a.subrange(1, a.len() as int);
        lemma_attrs_markup_push(rest, x);
        assert(a.push(x).subrange(1, a.len() as int + 1) =~= rest.push(x));
        assert(attrs_markup(a.push(x)) =~= attrs_markup(a) + attrs_markup(one));
    }
}

/// Whether `c` occurs in `v`.
fn contains_char(v: &Vec<char>, c: char) -> (r: bool)
    ensures
        r == v@.contains(c),
{
    let mut i: usize = 0;
    while i < v.len()
        invariant
            i <= v.len(),
            forall|j: int| 0 <= j < i ==> v@[j] != c,
        decreases v.len() - i,
    {
        if v[i] == c {
            return true;
        }
        i = i + 1;
    }
    false
}

/// Appends ` name="value"` for each attribute, the value delimited by `'`
/// where it holds `"`.
fn write_attributes(a: &AttrMap, out: &mut String)
    ensures
        final(out)@ == old(out)@ + attrs_markup(a@),
{
    let ghost start = out@;
    let mut i: usize = 0;
    assert(a@.take(0) =~= Seq::<(Seq<char>, Seq<char>)>::empty());
    while i < a.len()
        invariant
            i <= a@.len(),
            out@ == start + attrs_markup(a@.take(i as int)),
        decreases a@.len() - i,
    {
        let (name, value) = a.entry(i);
        let quote = if contains_char(&chars_of(value.as_str()), '"') {
            '\''
        } else {
            '"'
        };
        let ghost before = out@;
        push_char(out, ' ');
        out.append(name.as_str());
        push_char(out, '=');
        push_char(out, quote);
        out.append(value.as_str());
        push_char(out, quote);
        proof {
            let x = a@[i as int];
            let one = seq![x];
            assert(one.subrange(1, 1) =~= Seq::<(Seq<char>, Seq<char>)>::empty());
            assert(attrs_markup(Seq::<(Seq<char>, Seq<char>)>::empty()) =~= Seq::<char>::empty());
            assert(attrs_markup(one) =~= seq![' '] + x.0 + seq!['=', quote] + x.1 + seq![quote]);
            assert(a@.take(i + 1) =~= a@.take(i as int).push(x));
            lemma_attrs_markup_push(a@.take(i as int), x);
            assert(out@ =~= start + attrs_markup(a@.take(i + 1)));
        }
        i = i + 1;
    }
    assert(a@.take(a@.len() as int) =~= a@);
}

/// Appends the markup of `n`.
fn write_node(n: &Node, out: &mut String)
    ensures
        final(out)@ == old(out)@ + node_markup(n@),
    decreases n,
{
    proof {
        lemma_view_children(n);
    }
    match &n.node_type {
        NodeType::Text(t) => {
            out.append(t.as_str());
        },
        NodeType::Element(d) => {
            let ghost start = out@;
            push_char(out, '<');
            out.append(d.tag_name.as_str());
            write_attributes(&d.attributes, out);
            push_char(out, '>');
            let ghost open = out@;
            let ghost cs = n@.children;
            let mut i: usize = 0;
            assert(cs.take(0) =~= Seq::<NodeView>::empty());
            assert(nodes_markup(Seq::<NodeView>::empty()) =~= Seq::<char>::empty());
            while i < n.children.len()
                invariant
                    i <= n.children.len(),
                    cs == views(n.children@),
                    out@ == open + nodes_markup(cs.take(i as int)),
                decreases n.children.len() - i,
            {
                write_node(&n.children[i], out);
                proof {
                    assert(cs.take(i + 1) =~= cs.take(i as int).push(cs[i as int]));
                    lemma_nodes_markup_push(cs.take(i as int), cs[i as int]);
                    assert(out@ =~= open + nodes_markup(cs.take(i + 1)));
                }
                i = i + 1;
            }
            push_char(out, '<');
            push_char(out, '/');
            out.append(d.tag_name.as_str());
            push_char(out, '>');
            proof {
                assert(cs.take(cs.len() as int) =~= cs);
                assert(out@ =~= start + node_markup(n@));
            }
        },
    }
}

/// The markup of `n`: text as it is, an element as its start tag, the
/// markup of its children and its closing tag.
pub fn to_markup(n: &Node) -> (r: String)
    ensures
        r@ == node_markup(n@),
{
    let mut out = String::new();
    write_node(n, &mut out);
    assert(out@ =~= node_markup(n@));
    out
}

} // verus!
