//! The markup grammar as spec functions over the input's characters. Each
//! function reads from a position and gives what it parsed together with the
//! position after it, or the failure that ends the parse.
use crate::dom::{elem_view, text_view, NodeView};
use crate::error::{ErrorView, Expectation};
use crate::attributes::attr_insert;
use vstd::prelude::*;

verus! {

/// The sets of characters that the parser consumes in runs.
#[derive(Clone, Copy)]
pub enum CharClass {
    /// Unicode white space, as `char::is_whitespace` takes it
    Whitespace,
    /// ASCII letters and digits
    TagName,
    /// anything but white space and `= > / < " '`
    AttrName,
    /// anything but the given character
    Not(char),
}

pub open spec fn is_ws(c: char) -> bool {
    let n = c as u32;
    ||| 0x09 <= n <= 0x0d
    ||| n == 0x20
    ||| n == 0x85
    ||| n == 0xa0
    ||| n == 0x1680
    ||| 0x2000 <= n <= 0x200a
    ||| n == 0x2028
    ||| n == 0x2029
    ||| n == 0x202f
    ||| n == 0x205f
    ||| n == 0x3000
}

pub open spec fn is_tag_char(c: char) -> bool {
    ('a' <= c <= 'z') || ('A' <= c <= 'Z') || ('0' <= c <= '9')
}

pub open spec fn is_attr_name_char(c: char) -> bool {
    !is_ws(c) && c != '=' && c != '>' && c != '/' && c != '<' && c != '"' && c != '\''
}

pub open spec fn in_class(cls: CharClass, c: char) -> bool {
    match cls {
        CharClass::Whitespace => is_ws(c),
        CharClass::TagName => is_tag_char(c),
        CharClass::AttrName => is_attr_name_char(c),
        CharClass::Not(x) => c != x,
    }
}

/// The end of the longest run of characters of `cls` that starts at `p`.
pub open spec fn scan(s: Seq<char>, p: int, cls: CharClass) -> int
    decreases s.len() - p,
{
    if 0 <= p < s.len() && in_class(cls, s[p]) {
        scan(s, p + 1, cls)
    } else {
        p
    }
}

pub proof fn lemma_scan(s: Seq<char>, p: int, cls: CharClass)
    ensures
        p <= scan(s, p, cls),
        0 <= p <= s.len() ==> scan(s, p, cls) <= s.len(),
        0 <= p ==> forall|i: int| p <= i < scan(s, p, cls) ==> in_class(cls, s[i]),
        0 <= p <= s.len() ==> scan(s, p, cls) == s.len() || !in_class(cls, s[scan(s, p, cls)]),
    decreases s.len() - p,
{
    if 0 <= p < s.len() && in_class(cls, s[p]) {
        lemma_scan(s, p + 1, cls);
    }
}

/// A run of characters of `cls` from `p` to `q` that the next character
/// does not continue is what `scan` finds.
pub proof fn lemma_scan_unique(s: Seq<char>, p: int, q: int, cls: CharClass)
    requires
        0 <= p <= q <= s.len(),
        forall|i: int| p <= i < q ==> in_class(cls, s[i]),
        q == s.len() || !in_class(cls, s[q]),
    ensures
        scan(s, p, cls) == q,
    decreases q - p,
{
    if p < q {
        lemma_scan_unique(s, p + 1, q, cls);
    }
}

pub open spec fn skip_ws(s: Seq<char>, p: int) -> int {
    scan(s, p, CharClass::Whitespace)
}

/// Whether a closing tag `</` starts at `p`.
pub open spec fn at_closing_tag(s: Seq<char>, p: int) -> bool {
    0 <= p && p + 1 < s.len() && s[p] == '<' && s[p + 1] == '/'
}

/// Requires the character `c` at `p`; gives the position after it.
pub open spec fn expect_char(s: Seq<char>, p: int, c: char, ctx: Expectation) -> Result<
    int,
    ErrorView,
> {
    if p < 0 || p >= s.len() {
        Err(ErrorView::UnexpectedEndOfInput)
    } else if s[p] != c {
        Err(ErrorView::MalformedMarkup { context: ctx, offset: p })
    } else {
        Ok(p + 1)
    }
}

/// A non-empty run of ASCII letters and digits.
pub open spec fn tag_name(s: Seq<char>, p: int) -> Result<(Seq<char>, int), ErrorView> {
    let q = scan(s, p, CharClass::TagName);
    if q <= p {
        Err(ErrorView::MalformedMarkup { context: Expectation::TagName, offset: p })
    } else {
        Ok((s.subrange(p, q), q))
    }
}

/// `=`, then a quote, then the value up to the same quote, which is consumed.
pub open spec fn attr_value(s: Seq<char>, p: int) -> Result<(Seq<char>, int), ErrorView> {
    if !(0 <= p < s.len() && s[p] == '=') {
        Err(ErrorView::MalformedMarkup { context: Expectation::Equals, offset: p })
    } else if !(p + 1 < s.len() && (s[p + 1] == '"' || s[p + 1] == '\'')) {
        Err(ErrorView::MalformedMarkup { context: Expectation::Quote, offset: p + 1 })
    } else {
        let q = scan(s, p + 2, CharClass::Not(s[p + 1]));
        if q >= s.len() {
            Err(ErrorView::MalformedMarkup { context: Expectation::ClosingQuote, offset: q })
        } else {
            Ok((s.subrange(p + 2, q), q + 1))
        }
    }
}

pub proof fn lemma_attr_value(s: Seq<char>, p: int)
    ensures
        attr_value(s, p) matches Ok((v, q)) ==> p < q <= s.len(),
{
    if 0 <= p < s.len() && s[p] == '=' && p + 1 < s.len() {
        lemma_scan(s, p + 2, CharClass::Not(s[p + 1]));
    }
}

/// The attributes of a tag from `p`, added to `acc`, up to the `>` or `/`
/// that ends the tag or the end of the input. A name without `=` gets the
/// empty value.
pub open spec fn attributes(s: Seq<char>, p: int, acc: Seq<(Seq<char>, Seq<char>)>) -> Result<
    (Seq<(Seq<char>, Seq<char>)>, int),
    ErrorView,
>
    decreases s.len() - p,
{
    let p1 = skip_ws(s, p);
    if p1 < 0 || p1 >= s.len() || s[p1] == '>' || s[p1] == '/' {
        Ok((acc, p1))
    } else {
        let q = scan(s, p1, CharClass::AttrName);
        if q <= p1 {
            Err(ErrorView::MalformedMarkup { context: Expectation::AttributeName, offset: p1 })
        } else {
            let name = s.subrange(p1, q);
            let q1 = skip_ws(s, q);
            proof {
                lemma_scan(s, p, CharClass::Whitespace);
                lemma_scan(s, q, CharClass::Whitespace);
            }
            if 0 <= q1 < s.len() && s[q1] == '=' {
                match attr_value(s, q1) {
                    Err(e) => Err(e),
                    Ok((v, r)) => {
                        proof {
                            lemma_attr_value(s, q1);
                        }
                        attributes(s, r, attr_insert(acc, name, v))
                    },
                }
            } else {
                proof {
                    lemma_scan(s, p, CharClass::Whitespace);
                    lemma_scan(s, p1, CharClass::AttrName);
                    lemma_scan(s, q, CharClass::Whitespace);
                }
                attributes(s, q1, attr_insert(acc, name, Seq::empty()))
            }
        }
    }
}

/// A run of text up to the next `<` or the end of the input.
pub open spec fn text_node(s: Seq<char>, p: int) -> (NodeView, int) {
    let q = scan(s, p, CharClass::Not('<'));
    (text_view(s.subrange(p, q)), q)
}

/// An element at `p` with `d` elements open around it, nested at most
/// `lim` deep. An empty-element tag `<t/>` has no children and no closing tag.
pub open spec fn element(s: Seq<char>, p: int, d: int, lim: int) -> Result<
    (NodeView, int),
    ErrorView,
>
    decreases lim - d, s.len() - p, 0int,
{
    if d >= lim {
        Err(ErrorView::NestingTooDeep { limit: lim })
    } else {
        match expect_char(s, p, '<', Expectation::OpenAngle) {
            Err(e) => Err(e),
            Ok(p1) => match tag_name(s, p1) {
                Err(e) => Err(e),
                Ok((tag, p2)) => match attributes(s, p2, Seq::empty()) {
                    Err(e) => Err(e),
                    Ok((attrs, p3)) => {
                        let p4 = skip_ws(s, p3);
                        if 0 <= p4 && p4 + 1 < s.len() && s[p4] == '/' && s[p4 + 1] == '>' {
                            Ok((elem_view(tag, attrs, Seq::empty()), p4 + 2))
                        } else {
                            match expect_char(s, p4, '>', Expectation::CloseAngle) {
                                Err(e) => Err(e),
                                Ok(p5) => match nodes(s, p5, d + 1, lim) {
                                    Err(e) => Err(e),
                                    Ok((children, p6)) => element_close(
                                        s,
                                        p6,
                                        tag,
                                        attrs,
                                        children,
                                    ),
                                },
                            }
                        }
                    },
                },
            },
        }
    }
}

/// The closing tag `</tag>` at `p` of an element whose content is parsed.
pub open spec fn element_close(
    s: Seq<char>,
    p: int,
    tag: Seq<char>,
    attrs: Seq<(Seq<char>, Seq<char>)>,
    children: Seq<NodeView>,
) -> Result<(NodeView, int), ErrorView> {
    match expect_char(s, p, '<', Expectation::OpenAngle) {
        Err(e) => Err(e),
        Ok(p1) => match expect_char(s, p1, '/', Expectation::Slash) {
            Err(e) => Err(e),
            Ok(p2) => match tag_name(s, p2) {
                Err(e) => Err(e),
                Ok((close, p3)) => if close != tag {
                    Err(ErrorView::TagMismatch { expected: tag, found: close })
                } else {
                    match expect_char(s, p3, '>', Expectation::CloseAngle) {
                        Err(e) => Err(e),
                        Ok(p4) => Ok((elem_view(tag, attrs, children), p4)),
                    }
                },
            },
        },
    }
}

/// An element where `p` holds `<`, a text node elsewhere.
pub open spec fn node(s: Seq<char>, p: int, d: int, lim: int) -> Result<(NodeView, int), ErrorView>
    decreases lim - d, s.len() - p, 1int,
{
    if p < 0 || p >= s.len() {
        Err(ErrorView::UnexpectedEndOfInput)
    } else if s[p] == '<' {
        element(s, p, d, lim)
    } else {
        Ok(text_node(s, p))
    }
}

/// The siblings from `p` on, each after the white space before it, up to
/// the end of the input or a closing tag.
pub open spec fn nodes(s: Seq<char>, p: int, d: int, lim: int) -> Result<
    (Seq<NodeView>, int),
    ErrorView,
>
    decreases lim - d, s.len() - p, 2int,
{
    let p1 = skip_ws(s, p);
    proof {
        lemma_scan(s, p, CharClass::Whitespace);
    }
    if p1 < 0 || p1 >= s.len() || at_closing_tag(s, p1) {
        Ok((Seq::empty(), p1))
    } else {
        match node(s, p1, d, lim) {
            Err(e) => Err(e),
            Ok((n, q)) => if !(p1 < q <= s.len()) {
                Err(ErrorView::UnexpectedEndOfInput)
            } else {
                proof {
                    lemma_scan(s, p, CharClass::Whitespace);
                }
                match nodes(s, q, d, lim) {
                    Err(e) => Err(e),
                    Ok((rest, r)) => Ok((seq![n] + rest, r)),
                }
            },
        }
    }
}

/// A whole document: exactly one top-level node, an element, with nothing
/// after it but white space.
pub open spec fn document(s: Seq<char>, lim: int) -> Result<NodeView, ErrorView> {
    match nodes(s, 0, 0, lim) {
        Err(e) => Err(e),
        Ok((ns, p)) => if p < s.len() {
            Err(ErrorView::MalformedMarkup { context: Expectation::EndOfInput, offset: p })
        } else if ns.len() == 0 || !(ns[0].kind is Element) {
            Err(ErrorView::MalformedMarkup { context: Expectation::RootElement, offset: p })
        } else if ns.len() > 1 {
            Err(ErrorView::MalformedMarkup { context: Expectation::SingleRoot, offset: p })
        } else {
            Ok(ns[0])
        }
    }
}

/// A run of top-level siblings that takes the whole input.
pub open spec fn fragment(s: Seq<char>, lim: int) -> Result<Seq<NodeView>, ErrorView> {
    match nodes(s, 0, 0, lim) {
        Err(e) => Err(e),
        Ok((ns, p)) => if p < s.len() {
            Err(ErrorView::MalformedMarkup { context: Expectation::EndOfInput, offset: p })
        } else {
            Ok(ns)
        }
    }
}

} // verus!
