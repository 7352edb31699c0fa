//! The recursive-descent parser: a cursor over the input's characters whose
//! methods consume the input and build nodes, each proved to do what the
//! grammar's spec function of the same construct says.
use crate::attributes::AttrMap;
use crate::dom::{elem, text, views, Node, NodeType, NodeView};
use crate::error::{ErrorView, Expectation, ParseError};
use crate::grammar::{
    at_closing_tag, attr_value, attributes, document, element, element_close, expect_char,
    fragment, in_class, is_ws, lemma_scan, lemma_scan_unique, node, nodes, scan, skip_ws,
    tag_name, text_node, CharClass,
};
use vstd::prelude::*;

verus! {

/// How deep elements may nest unless a parser is told otherwise.
pub const DEFAULT_MAX_DEPTH: usize = 512;

/// Relies on String::push: the character is appended at the end.
#[verifier::external_body]
pub(crate) fn push_char(s: &mut String, c: char)
    ensures
        final(s)@ == old(s)@.push(c),
{
    s.push(c);
}

/// The characters of `s`, in order.
pub fn chars_of(s: &str) -> (r: Vec<char>)
    ensures
        r@ == s@,
{
    broadcast use vstd::string::axiom_spec_iter;
    let mut v: Vec<char> = Vec::new();
    for c in it: s.chars()
        invariant
            v@ == it.seq().take(it.index() as int),
    {
        v.push(c);
    }
    v
}

/// A cursor over a document's characters, with the number of elements
/// open around it and the most that may be.
pub struct Parser {
    position: usize,
    input: Vec<char>,
    depth: usize,
    max_depth: usize,
}

impl Parser {
    /// The cursor: how many characters have been consumed.
    pub closed spec fn pos(&self) -> int {
        self.position as int
    }

    /// The characters being parsed.
    pub closed spec fn input(&self) -> Seq<char> {
        self.input@
    }

    /// How many elements are open around the cursor.
    pub closed spec fn depth(&self) -> int {
        self.depth as int
    }

    /// How many elements may be open at once.
    pub closed spec fn limit(&self) -> int {
        self.max_depth as int
    }

    /// The cursor stands within the input and the depth within the limit.
    pub open spec fn wf(&self) -> bool {
        &&& 0 <= self.pos() <= self.input().len()
        &&& 0 <= self.depth() <= self.limit()
    }

    /// What stays fixed while parsing: the input, the nesting limit and,
    /// between calls, the depth.
    pub open spec fn same_frame(&self, other: &Parser) -> bool {
        &&& self.input() == other.input()
        &&& self.limit() == other.limit()
        &&& self.depth() == other.depth()
    }

    /// A parser at the start of `input` that lets elements nest
    /// `max_depth` deep.
    pub fn with_max_depth(input: &str, max_depth: usize) -> (r: Parser)
        ensures
            r.wf(),
            r.input() == input@,
            r.pos() == 0,
            r.depth() == 0,
            r.limit() == max_depth,
    {
        Parser { position: 0, input: chars_of(input), depth: 0, max_depth }
    }

    /// A parser at the start of `input` with the default nesting limit.
    pub fn new(input: &str) -> (r: Parser)
        ensures
            r.wf(),
            r.input() == input@,
            r.pos() == 0,
            r.depth() == 0,
            r.limit() == DEFAULT_MAX_DEPTH,
    {
        Parser::with_max_depth(input, DEFAULT_MAX_DEPTH)
    }

    /// The current character, not consumed.
    pub fn next_char(&self) -> (r: Result<char, ParseError>)
        requires
            self.wf(),
        ensures
            self.pos() < self.input().len() ==> r == Ok::<char, ParseError>(
                self.input()[self.pos()],
            ),
            self.pos() >= self.input().len() ==> r matches Err(ParseError::UnexpectedEndOfInput),
    {
        if self.position < self.input.len() {
            Ok(self.input[self.position])
        } else {
            Err(ParseError::UnexpectedEndOfInput)
        }
    }

    /// Whether the characters from the cursor on begin with `s`.
    pub fn starts_with(&self, s: &str) -> (r: bool)
        requires
            self.wf(),
        ensures
            r == (self.pos() + s@.len() <= self.input().len() && self.input().subrange(
                self.pos(),
                self.pos() + s@.len(),
            ) == s@),
    {
        let t = chars_of(s);
        if t.len() > self.input.len() - self.position {
            return false;
        }
        let mut i: usize = 0;
        while i < t.len()
            invariant
                self.wf(),
                t@ == s@,
                t.len() <= self.input.len() - self.position,
                i <= t.len(),
                forall|j: int| 0 <= j < i ==> self.input@[self.position + j] == t@[j],
            decreases t.len() - i,
        {
            if self.input[self.position + i] != t[i] {
                assert(self.input().subrange(self.pos(), self.pos() + s@.len())[i as int]
                    != s@[i as int]);
                return false;
            }
            i = i + 1;
        }
        assert(self.input().subrange(self.pos(), self.pos() + s@.len()) =~= s@);
        true
    }

    /// Whether all the input has been consumed.
    pub fn eof(&self) -> (r: bool)
        requires
            self.wf(),
        ensures
            r == (self.pos() >= self.input().len()),
    {
        self.position >= self.input.len()
    }

    /// Consumes the current character and gives it.
    pub fn consume_char(&mut self) -> (r: Result<char, ParseError>)
        requires
            old(self).wf(),
        ensures
            final(self).wf(),
            final(self).same_frame(old(self)),
            old(self).pos() < old(self).input().len() ==> (r == Ok::<char, ParseError>(
                old(self).input()[old(self).pos()],
            ) && final(self).pos() == old(self).pos() + 1),
            old(self).pos() >= old(self).input().len() ==> (r matches Err(
                ParseError::UnexpectedEndOfInput,
            ) && final(self).pos() == old(self).pos()),
    {
        if self.position < self.input.len() {
            let c = self.input[self.position];
            self.position = self.position + 1;
            Ok(c)
        } else {
            Err(ParseError::UnexpectedEndOfInput)
        }
    }

    /// Consumes characters while `test` holds of them and gives them.
    pub fn consume_while<F: Fn(char) -> bool>(&mut self, test: F) -> (r: String)
        requires
            old(self).wf(),
            forall|c: char| test.requires((c,)),
        ensures
            final(self).wf(),
            final(self).same_frame(old(self)),
            old(self).pos() <= final(self).pos(),
            r@ == old(self).input().subrange(old(self).pos(), final(self).pos()),
            forall|i: int|
                old(self).pos() <= i < final(self).pos() ==> test.ensures(
                    (old(self).input()[i],),
                    true,
                ),
            final(self).pos() == final(self).input().len() || test.ensures(
                (final(self).input()[final(self).pos()],),
                false,
            ),
    {
        let start = self.position;
        let mut result = String::new();
        while self.position < self.input.len()
            invariant
                self.wf(),
                self.same_frame(old(self)),
                start == old(self).pos() <= self.pos(),
                result@ == self.input().subrange(start as int, self.pos()),
                forall|c: char| test.requires((c,)),
                forall|i: int| start <= i < self.pos() ==> test.ensures((self.input()[i],), true),
            ensures
                self.wf(),
                self.same_frame(old(self)),
                start == old(self).pos() <= self.pos(),
                result@ == self.input().subrange(start as int, self.pos()),
                forall|i: int| start <= i < self.pos() ==> test.ensures((self.input()[i],), true),
                self.pos() == self.input().len() || test.ensures(
                    (self.input()[self.pos()],),
                    false,
                ),
            decreases self.input().len() - self.pos(),
        {
            let c = self.input[self.position];
            if !test(c) {
                break;
            }
            push_char(&mut result, c);
            self.position = self.position + 1;
            assert(result@ =~= self.input().subrange(start as int, self.pos()));
        }
        result
    }

    /// Consumes the white space at the cursor.
    pub fn consume_whitespace(&mut self)
        requires
            old(self).wf(),
        ensures
            final(self).wf(),
            final(self).same_frame(old(self)),
            old(self).pos() <= final(self).pos(),
            final(self).pos() == skip_ws(old(self).input(), old(self).pos()),
    {
        self.consume_in(CharClass::Whitespace);
    }

    /// Consumes the run of characters of `cls` at the cursor and gives it.
    fn consume_in(&mut self, cls: CharClass) -> (r: String)
        requires
            old(self).wf(),
        ensures
            final(self).wf(),
            final(self).same_frame(old(self)),
            old(self).pos() <= final(self).pos(),
            final(self).pos() == scan(old(self).input(), old(self).pos(), cls),
            r@ == old(self).input().subrange(old(self).pos(), final(self).pos()),
    {
        let r = self.consume_while(|c: char| -> (b: bool)
            ensures
                b == in_class(cls, c),
            { class_has(cls, c) });
        proof {
            lemma_scan_unique(old(self).input(), old(self).pos(), self.pos(), cls);
        }
        r
    }

    /// Consumes the character `c`; fails with `context` where another stands.
    fn expect(&mut self, c: char, context: Expectation) -> (r: Result<(), ParseError>)
        requires
            old(self).wf(),
        ensures
            final(self).wf(),
            final(self).same_frame(old(self)),
            old(self).pos() <= final(self).pos(),
            match expect_char(old(self).input(), old(self).pos(), c, context) {
                Ok(q) => r is Ok && final(self).pos() == q,
                Err(e) => r matches Err(x) && x@ == e,
            },
    {
        if self.position >= self.input.len() {
            Err(ParseError::UnexpectedEndOfInput)
        } else if self.input[self.position] != c {
            Err(ParseError::MalformedMarkup { context, offset: self.position })
        } else {
            self.position = self.position + 1;
            Ok(())
        }
    }

    /// Consumes a tag name: one or more ASCII letters and digits.
    pub fn parse_tag_name(&mut self) -> (r: Result<String, ParseError>)
        requires
            old(self).wf(),
        ensures
            final(self).wf(),
            final(self).same_frame(old(self)),
            old(self).pos() <= final(self).pos(),
            agrees_str(r, tag_name(old(self).input(), old(self).pos()), final(self).pos()),
    {
        let start = self.position;
        let name = self.consume_in(CharClass::TagName);
        if self.position == start {
            Err(ParseError::MalformedMarkup { context: Expectation::TagName, offset: start })
        } else {
            Ok(name)
        }
    }

    /// Consumes `=` and a quoted value, and gives the value without quotes.
    pub fn parse_attribute_value(&mut self) -> (r: Result<String, ParseError>)
        requires
            old(self).wf(),
        ensures
            final(self).wf(),
            final(self).same_frame(old(self)),
            old(self).pos() <= final(self).pos(),
            agrees_str(r, attr_value(old(self).input(), old(self).pos()), final(self).pos()),
    {
        let p = self.position;
        if !(p < self.input.len() && self.input[p] == '=') {
            return Err(ParseError::MalformedMarkup { context: Expectation::Equals, offset: p });
        }
        if !(p + 1 < self.input.len() && (self.input[p + 1] == '"' || self.input[p + 1]
            == '\'')) {
            return Err(ParseError::MalformedMarkup { context: Expectation::Quote, offset: p + 1 });
        }
        let quote = self.input[p + 1];
        self.position = p + 2;
        let value = self.consume_in(CharClass::Not(quote));
        if self.position >= self.input.len() {
            return Err(
                ParseError::MalformedMarkup {
                    context: Expectation::ClosingQuote,
                    offset: self.position,
                },
            );
        }
        self.position = self.position + 1;
        Ok(value)
    }

    /// Consumes the attributes of a tag, up to the `>` or `/` that ends it.
    /// A name without `=` gets the empty value; of a repeated name the last
    /// value stays.
    pub fn parse_attributes(&mut self) -> (r: Result<AttrMap, ParseError>)
        requires
            old(self).wf(),
        ensures
            final(self).wf(),
            final(self).same_frame(old(self)),
            old(self).pos() <= final(self).pos(),
            match attributes(old(self).input(), old(self).pos(), Seq::empty()) {
                Ok((a, q)) => r matches Ok(m) && m@ == a && final(self).pos() == q,
                Err(e) => r matches Err(x) && x@ == e,
            },
    {
        let mut attrs = AttrMap::new();
        loop
            invariant
                self.wf(),
                self.same_frame(old(self)),
                old(self).pos() <= self.pos(),
                attributes(old(self).input(), old(self).pos(), Seq::empty()) == attributes(
                    self.input(),
                    self.pos(),
                    attrs@,
                ),
            decreases self.input().len() - self.pos(),
        {
            let ghost here = self.pos();
            self.consume_whitespace();
            let p1 = self.position;
            if p1 >= self.input.len() || self.input[p1] == '>' || self.input[p1] == '/' {
                return Ok(attrs);
            }
            let name = self.consume_in(CharClass::AttrName);
            if self.position == p1 {
                return Err(
                    ParseError::MalformedMarkup { context: Expectation::AttributeName, offset: p1 },
                );
            }
            proof {
                lemma_scan(self.input(), here, CharClass::Whitespace);
            }
            self.consume_whitespace();
            let value = if self.position < self.input.len() && self.input[self.position] == '=' {
                match self.parse_attribute_value() {
                    Ok(v) => v,
                    Err(e) => return Err(e),
                }
            } else {
                String::new()
            };
            attrs.insert(name, value);
        }
    }

    /// Consumes text up to the next `<` or the end of the input.
    pub fn parse_text(&mut self) -> (r: Node)
        requires
            old(self).wf(),
        ensures
            final(self).wf(),
            final(self).same_frame(old(self)),
            old(self).pos() <= final(self).pos(),
            (r@, final(self).pos()) == text_node(old(self).input(), old(self).pos()),
    {
        text(self.consume_in(CharClass::Not('<')))
    }

    /// Parses an element where the cursor stands on `<`, text elsewhere.
    pub fn parse_node(&mut self) -> (r: Result<Node, ParseError>)
        requires
            old(self).wf(),
        ensures
            final(self).wf(),
            final(self).same_frame(old(self)),
            r is Ok ==> old(self).pos() < final(self).pos(),
            agrees_node(
                r,
                node(old(self).input(), old(self).pos(), old(self).depth(), old(self).limit()),
                final(self).pos(),
            ),
        decreases old(self).limit() - old(self).depth(), 1int,
    {
        match self.next_char() {
            Err(e) => Err(e),
            Ok(c) => {
                if c == '<' {
                    self.parse_element()
                } else {
                    let t = self.parse_text();
                    proof {
                        lemma_scan(old(self).input(), old(self).pos() + 1, CharClass::Not('<'));
                    }
                    Ok(t)
                }
            },
        }
    }

    /// Parses an element: its start tag, then either `/>` or `>`, its
    /// content and a closing tag of the same name.
    pub fn parse_element(&mut self) -> (r: Result<Node, ParseError>)
        requires
            old(self).wf(),
        ensures
            final(self).wf(),
            final(self).same_frame(old(self)),
            r is Ok ==> old(self).pos() < final(self).pos(),
            agrees_node(
                r,
                element(old(self).input(), old(self).pos(), old(self).depth(), old(self).limit()),
                final(self).pos(),
            ),
        decreases old(self).limit() - old(self).depth(), 0int,
    {
        if self.depth >= self.max_depth {
            return Err(ParseError::NestingTooDeep { limit: self.max_depth });
        }
        match self.expect('<', Expectation::OpenAngle) {
            Err(e) => return Err(e),
            Ok(()) => {},
        }
        let tag_name = match self.parse_tag_name() {
            Ok(t) => t,
            Err(e) => return Err(e),
        };
        let attributes = match self.parse_attributes() {
            Ok(a) => a,
            Err(e) => return Err(e),
        };
        self.consume_whitespace();
        proof {
            reveal_strlit("/>");
            assert("/>"@.len() == 2);
        }
        if self.starts_with("/>") {
            assert(self.pos() + 2 <= self.input().len());
            assert(self.input@.len() == self.input.len());
            proof {
                assert(self.input().subrange(self.pos(), self.pos() + 2)[0] == '/');
                assert(self.input().subrange(self.pos(), self.pos() + 2)[1] == '>');
            }
            self.position = self.position + 2;
            let r = elem(tag_name, attributes, Vec::new());
            proof {
                assert(views(Seq::<Node>::empty()) =~= Seq::<NodeView>::empty());
            }
            return Ok(r);
        }
        proof {
            reveal_strlit("/>");
            if 0 <= self.pos() && self.pos() + 1 < self.input().len() && self.input()[self.pos()]
                == '/' && self.input()[self.pos() + 1] == '>' {
                assert(self.input().subrange(self.pos(), self.pos() + 2) =~= "/>"@);
            }
        }
        match self.expect('>', Expectation::CloseAngle) {
            Err(e) => return Err(e),
            Ok(()) => {},
        }
        self.depth = self.depth + 1;
        let children = self.parse_nodes();
        self.depth = self.depth - 1;
        let children = match children {
            Ok(c) => c,
            Err(e) => return Err(e),
        };
        self.parse_closing_tag(tag_name, attributes, children)
    }

    /// Consumes the closing tag `</tag>` of an element whose content is
    /// parsed, and builds the element.
    fn parse_closing_tag(&mut self, tag: String, attrs: AttrMap, children: Vec<Node>) -> (r:
        Result<Node, ParseError>)
        requires
            old(self).wf(),
        ensures
            final(self).wf(),
            final(self).same_frame(old(self)),
            old(self).pos() <= final(self).pos(),
            agrees_node(
                r,
                element_close(old(self).input(), old(self).pos(), tag@, attrs@, views(children@)),
                final(self).pos(),
            ),
    {
        match self.expect('<', Expectation::OpenAngle) {
            Err(e) => return Err(e),
            Ok(()) => {},
        }
        match self.expect('/', Expectation::Slash) {
            Err(e) => return Err(e),
            Ok(()) => {},
        }
        let close = match self.parse_tag_name() {
            Ok(t) => t,
            Err(e) => return Err(e),
        };
        if close != tag {
            return Err(ParseError::TagMismatch { expected: tag, found: close });
        }
        match self.expect('>', Expectation::CloseAngle) {
            Err(e) => return Err(e),
            Ok(()) => {},
        }
        Ok(elem(tag, attrs, children))
    }

    /// Parses siblings, each after the white space before it, up to the end
    /// of the input or a closing tag, which is not consumed.
    pub fn parse_nodes(&mut self) -> (r: Result<Vec<Node>, ParseError>)
        requires
            old(self).wf(),
        ensures
            final(self).wf(),
            final(self).same_frame(old(self)),
            r is Ok ==> old(self).pos() <= final(self).pos(),
            agrees_nodes(
                r,
                nodes(old(self).input(), old(self).pos(), old(self).depth(), old(self).limit()),
                final(self).pos(),
            ),
        decreases old(self).limit() - old(self).depth(), 2int,
    {
        let ghost s = self.input();
        let ghost d = self.depth();
        let ghost lim = self.limit();
        let mut acc: Vec<Node> = Vec::new();
        proof {
            assert(views(acc@) =~= Seq::<NodeView>::empty());
            assert(after(Seq::empty(), nodes(s, self.pos(), d, lim)) =~= nodes(
                s,
                self.pos(),
                d,
                lim,
            )) by {
                match nodes(s, self.pos(), d, lim) {
                    Ok((ns, q)) => {
                        assert(Seq::<NodeView>::empty() + ns =~= ns);
                    },
                    Err(e) => {},
                }
            }
        }
        loop
            invariant
                self.wf(),
                self.same_frame(old(self)),
                s == self.input(),
                d == self.depth(),
                lim == self.limit(),
                old(self).pos() <= self.pos(),
                nodes(s, old(self).pos(), d, lim) == after(views(acc@), nodes(s, self.pos(), d, lim)),
            decreases s.len() - self.pos(),
        {
            let ghost here = self.pos();
            self.consume_whitespace();
            proof {
                reveal_strlit("</");
            }
            if self.eof() || self.starts_with("</") {
                proof {
                    assert(views(acc@) + Seq::<NodeView>::empty() =~= views(acc@));
                    if self.pos() < s.len() {
                        assert(s.subrange(self.pos(), self.pos() + 2)[0] == s[self.pos()]);
                        assert(s.subrange(self.pos(), self.pos() + 2)[1] == s[self.pos() + 1]);
                        assert(at_closing_tag(s, self.pos()));
                    }
                }
                return Ok(acc);
            }
            proof {
                if at_closing_tag(s, self.pos()) {
                    assert(s.subrange(self.pos(), self.pos() + 2) =~= "</"@);
                }
            }
            let ghost p1 = self.pos();
            match self.parse_node() {
                Err(e) => return Err(e),
                Ok(n) => {
                    let ghost before = acc@;
                    acc.push(n);
                    proof {
                        assert(views(acc@) =~= views(before) + seq![n@]);
                        match nodes(s, self.pos(), d, lim) {
                            Ok((ns, q)) => {
                                assert(views(before) + (seq![n@] + ns) =~= views(acc@) + ns);
                            },
                            Err(e) => {},
                        }
                    }
                },
            }
        }
    }
}

/// Parses a whole document whose elements nest at most `max_depth` deep:
/// exactly one top-level element, with nothing after it but white space.
/// Several top-level nodes, or a lone text node, are refused.
pub fn parse_document_with_limit(input: &str, max_depth: usize) -> (r: Result<Node, ParseError>)
    ensures
        match document(input@, max_depth as int) {
            Ok(t) => r matches Ok(n) && n@ == t,
            Err(e) => r matches Err(x) && x@ == e,
        },
{
    let mut p = Parser::with_max_depth(input, max_depth);
    let mut ns = match p.parse_nodes() {
        Ok(ns) => ns,
        Err(e) => return Err(e),
    };
    if p.position < p.input.len() {
        return Err(
            ParseError::MalformedMarkup { context: Expectation::EndOfInput, offset: p.position },
        );
    }
    if ns.len() == 0 || !matches!(ns[0].node_type, NodeType::Element(_)) {
        return Err(
            ParseError::MalformedMarkup { context: Expectation::RootElement, offset: p.position },
        );
    }
    if ns.len() > 1 {
        return Err(
            ParseError::MalformedMarkup { context: Expectation::SingleRoot, offset: p.position },
        );
    }
    match ns.pop() {
        Some(n) => Ok(n),
        None => Err(ParseError::UnexpectedEndOfInput),
    }
}

/// Parses a whole document with the default nesting limit.
pub fn parse_document(input: &str) -> (r: Result<Node, ParseError>)
    ensures
        match document(input@, DEFAULT_MAX_DEPTH as int) {
            Ok(t) => r matches Ok(n) && n@ == t,
            Err(e) => r matches Err(x) && x@ == e,
        },
{
    parse_document_with_limit(input, DEFAULT_MAX_DEPTH)
}

/// Parses a run of top-level siblings that takes the whole input, with the
/// default nesting limit.
pub fn parse_fragment(input: &str) -> (r: Result<Vec<Node>, ParseError>)
    ensures
        match fragment(input@, DEFAULT_MAX_DEPTH as int) {
            Ok(ts) => r matches Ok(ns) && views(ns@) == ts,
            Err(e) => r matches Err(x) && x@ == e,
        },
{
    let mut p = Parser::new(input);
    let ns = match p.parse_nodes() {
        Ok(ns) => ns,
        Err(e) => return Err(e),
    };
    if p.position < p.input.len() {
        return Err(
            ParseError::MalformedMarkup { context: Expectation::EndOfInput, offset: p.position },
        );
    }
    Ok(ns)
}

/// A string result and the cursor after it agree with the grammar's outcome
/// `g`.
pub open spec fn agrees_str(
    r: Result<String, ParseError>,
    g: Result<(Seq<char>, int), ErrorView>,
    pos: int,
) -> bool {
    match g {
        Ok((v, q)) => r matches Ok(x) && x@ == v && pos == q,
        Err(e) => r matches Err(x) && x@ == e,
    }
}

/// A node result and the cursor after it agree with the grammar's outcome.
pub open spec fn agrees_node(
    r: Result<Node, ParseError>,
    g: Result<(NodeView, int), ErrorView>,
    pos: int,
) -> bool {
    match g {
        Ok((v, q)) => r matches Ok(x) && x@ == v && pos == q,
        Err(e) => r matches Err(x) && x@ == e,
    }
}

/// A run of nodes and the cursor after it agree with the grammar's outcome.
pub open spec fn agrees_nodes(
    r: Result<Vec<Node>, ParseError>,
    g: Result<(Seq<NodeView>, int), ErrorView>,
    pos: int,
) -> bool {
    match g {
        Ok((v, q)) => r matches Ok(x) && views(x@) == v && pos == q,
        Err(e) => r matches Err(x) && x@ == e,
    }
}

/// The outcome `g` with `pre` put before the nodes it gives.
pub open spec fn after(pre: Seq<NodeView>, g: Result<(Seq<NodeView>, int), ErrorView>) -> Result<
    (Seq<NodeView>, int),
    ErrorView,
> {
    match g {
        Ok((ns, q)) => Ok((pre + ns, q)),
        Err(e) => Err(e),
    }
}

/// Whether `c` is Unicode white space.
pub fn is_whitespace(c: char) -> (r: bool)
    ensures
        r == is_ws(c),
{
    let n = c as u32;
    (0x09 <= n && n <= 0x0d) || n == 0x20 || n == 0x85 || n == 0xa0 || n == 0x1680 || (0x2000
        <= n && n <= 0x200a) || n == 0x2028 || n == 0x2029 || n == 0x202f || n == 0x205f || n
        == 0x3000
}

/// Whether `c` belongs to `cls`.
pub fn class_has(cls: CharClass, c: char) -> (r: bool)
    ensures
        r == in_class(cls, c),
{
    match cls {
        CharClass::Whitespace => is_whitespace(c),
        CharClass::TagName => ('a' <= c && c <= 'z') || ('A' <= c && c <= 'Z') || ('0' <= c && c
            <= '9'),
        CharClass::AttrName => !is_whitespace(c) && c != '=' && c != '>' && c != '/' && c != '<'
            && c != '"' && c != '\'',
        CharClass::Not(x) => c != x,
    }
}

} // verus!
