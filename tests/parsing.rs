use toy_browser::{
    elem, parse_document, parse_document_with_limit, parse_fragment, text, AttrMap, Expectation,
    Node, NodeType, ParseError, Parser,
};

fn attrs(pairs: &[(&str, &str)]) -> AttrMap {
    let mut m = AttrMap::new();
    for (k, v) in pairs {
        m.insert(k.to_string(), v.to_string());
    }
    m
}

fn el(name: &str, pairs: &[(&str, &str)], children: Vec<Node>) -> Node {
    elem(name.to_string(), attrs(pairs), children)
}

fn tx(s: &str) -> Node {
    text(s.to_string())
}

#[test]
fn single_element_with_attribute_and_text() {
    let n = parse_document("<tag attr=\"v\">text</tag>").unwrap();
    assert_eq!(n, el("tag", &[("attr", "v")], vec![tx("text")]));
    match &n.node_type {
        NodeType::Element(d) => {
            assert_eq!(d.tag_name, "tag");
            assert_eq!(d.attributes.len(), 1);
            assert_eq!(d.attributes.get("attr").unwrap(), "v");
        }
        NodeType::Text(_) => panic!("expected an element"),
    }
}

#[test]
fn other_names_and_values() {
    let n = parse_document("<div2 data-x=\"hello world\">some words</div2>").unwrap();
    assert_eq!(n, el("div2", &[("data-x", "hello world")], vec![tx("some words")]));
}

#[test]
fn mismatched_tags_report_inner_tag_first() {
    assert_eq!(
        parse_document("<a><b></a></b>"),
        Err(ParseError::TagMismatch { expected: "b".to_string(), found: "a".to_string() })
    );
}

#[test]
fn empty_input_has_no_root() {
    assert!(matches!(
        parse_document(""),
        Err(ParseError::MalformedMarkup { context: Expectation::RootElement, .. })
    ));
}

#[test]
fn blank_input_has_no_root() {
    assert!(matches!(
        parse_document("  \n\t "),
        Err(ParseError::MalformedMarkup { context: Expectation::RootElement, .. })
    ));
}

#[test]
fn self_closing_element() {
    assert_eq!(parse_document("<br/>"), Ok(el("br", &[], vec![])));
    assert_eq!(parse_document("<br />"), Ok(el("br", &[], vec![])));
    assert_eq!(
        parse_document("<p>a<br/>b</p>"),
        Ok(el("p", &[], vec![tx("a"), el("br", &[], vec![]), tx("b")]))
    );
}

#[test]
fn deep_nesting_is_refused() {
    let input = format!("{}text{}", "<a>".repeat(10000), "</a>".repeat(10000));
    assert_eq!(parse_document(&input), Err(ParseError::NestingTooDeep { limit: 512 }));
}

#[test]
fn nesting_up_to_the_limit_is_accepted() {
    let input = format!("{}x{}", "<a>".repeat(3), "</a>".repeat(3));
    assert!(parse_document_with_limit(&input, 3).is_ok());
    assert_eq!(
        parse_document_with_limit(&input, 2),
        Err(ParseError::NestingTooDeep { limit: 2 })
    );
    let n = parse_document_with_limit("<a>x</a>", 1).unwrap();
    assert_eq!(n, el("a", &[], vec![tx("x")]));
    assert_eq!(
        parse_document_with_limit("<a>x</a>", 0),
        Err(ParseError::NestingTooDeep { limit: 0 })
    );
}

#[test]
fn attribute_forms() {
    let n = parse_document("<p id=\"x\" class='y' disabled></p>").unwrap();
    assert_eq!(n, el("p", &[("id", "x"), ("class", "y"), ("disabled", "")], vec![]));
    match &n.node_type {
        NodeType::Element(d) => {
            assert_eq!(d.attributes.get("id").unwrap(), "x");
            assert_eq!(d.attributes.get("class").unwrap(), "y");
            assert_eq!(d.attributes.get("disabled").unwrap(), "");
            assert!(d.attributes.get("title").is_none());
        }
        NodeType::Text(_) => panic!("expected an element"),
    }
}

#[test]
fn repeated_attribute_keeps_last_value() {
    let n = parse_document("<p a=\"1\" b=\"2\" a=\"3\"></p>").unwrap();
    assert_eq!(n, el("p", &[("a", "3"), ("b", "2")], vec![]));
}

#[test]
fn attribute_value_may_hold_other_quote() {
    let n = parse_document("<p t='say \"hi\"' u=\"it's\"></p>").unwrap();
    assert_eq!(n, el("p", &[("t", "say \"hi\""), ("u", "it's")], vec![]));
}

#[test]
fn adjacent_text_and_elements() {
    let n = parse_document("<p>hello<b>world</b></p>").unwrap();
    assert_eq!(n, el("p", &[], vec![tx("hello"), el("b", &[], vec![tx("world")])]));
}

#[test]
fn whitespace_between_tags_is_dropped() {
    let n = parse_document("  <ul>\n  <li>one </li>\n  <li>two</li>\n</ul>\n").unwrap();
    assert_eq!(
        n,
        el("ul", &[], vec![el("li", &[], vec![tx("one ")]), el("li", &[], vec![tx("two")])])
    );
}

#[test]
fn tag_names_are_case_sensitive() {
    assert_eq!(
        parse_document("<A></a>"),
        Err(ParseError::TagMismatch { expected: "A".to_string(), found: "a".to_string() })
    );
}

#[test]
fn several_roots_are_refused() {
    assert!(matches!(
        parse_document("<a></a><b></b>"),
        Err(ParseError::MalformedMarkup { context: Expectation::SingleRoot, .. })
    ));
}

#[test]
fn text_root_is_refused() {
    assert!(matches!(
        parse_document("hello"),
        Err(ParseError::MalformedMarkup { context: Expectation::RootElement, .. })
    ));
}

#[test]
fn stray_closing_tag_is_refused() {
    assert_eq!(
        parse_document("<a></a></b>"),
        Err(ParseError::MalformedMarkup { context: Expectation::EndOfInput, offset: 7 })
    );
}

#[test]
fn missing_pieces() {
    assert_eq!(parse_document("<a>text"), Err(ParseError::UnexpectedEndOfInput));
    assert_eq!(parse_document("<a"), Err(ParseError::UnexpectedEndOfInput));
    assert_eq!(
        parse_document("<>"),
        Err(ParseError::MalformedMarkup { context: Expectation::TagName, offset: 1 })
    );
    assert_eq!(
        parse_document("<a></>"),
        Err(ParseError::MalformedMarkup { context: Expectation::TagName, offset: 5 })
    );
    assert_eq!(
        parse_document("<a/ >"),
        Err(ParseError::MalformedMarkup { context: Expectation::CloseAngle, offset: 2 })
    );
    assert_eq!(
        parse_document("<a></a"),
        Err(ParseError::UnexpectedEndOfInput)
    );
}

#[test]
fn attribute_errors() {
    assert_eq!(
        parse_document("<a x=y></a>"),
        Err(ParseError::MalformedMarkup { context: Expectation::Quote, offset: 5 })
    );
    assert_eq!(
        parse_document("<a x=\"y></a>"),
        Err(ParseError::MalformedMarkup { context: Expectation::ClosingQuote, offset: 12 })
    );
    assert_eq!(
        parse_document("<a =\"y\"></a>"),
        Err(ParseError::MalformedMarkup { context: Expectation::AttributeName, offset: 3 })
    );
}

#[test]
fn fragment_of_siblings() {
    let ns = parse_fragment("hi <b>x</b> there").unwrap();
    assert_eq!(ns, vec![tx("hi "), el("b", &[], vec![tx("x")]), tx("there")]);
    assert_eq!(parse_fragment("").unwrap(), vec![]);
    assert!(matches!(
        parse_fragment("a</b>"),
        Err(ParseError::MalformedMarkup { context: Expectation::EndOfInput, offset: 1 })
    ));
}

#[test]
fn multibyte_text_is_kept() {
    let n = parse_document("<p>héllo wörld ✓</p>").unwrap();
    assert_eq!(n, el("p", &[], vec![tx("héllo wörld ✓")]));
}

#[test]
fn cursor_operations() {
    let mut p = Parser::new("ab  <x");
    assert!(!p.eof());
    assert_eq!(p.next_char(), Ok('a'));
    assert!(p.starts_with("ab"));
    assert!(!p.starts_with("abc"));
    assert_eq!(p.consume_char(), Ok('a'));
    assert_eq!(p.consume_while(|c| c != ' '), "b");
    p.consume_whitespace();
    assert!(p.starts_with("<x"));
    assert_eq!(p.consume_char(), Ok('<'));
    assert_eq!(p.parse_tag_name(), Ok("x".to_string()));
    assert!(p.eof());
    assert_eq!(p.next_char(), Err(ParseError::UnexpectedEndOfInput));
    assert_eq!(p.consume_char(), Err(ParseError::UnexpectedEndOfInput));
    assert_eq!(p.consume_while(|_| true), "");
}

#[test]
fn unicode_whitespace_is_skipped() {
    let mut p = Parser::new("\u{a0}\u{3000}\t x");
    p.consume_whitespace();
    assert_eq!(p.next_char(), Ok('x'));
}

#[test]
fn node_constructors() {
    let t = tx("abc");
    assert!(t.children.is_empty());
    assert_eq!(t.node_type, NodeType::Text("abc".to_string()));
    let e = el("a", &[("k", "v")], vec![tx("x")]);
    assert_eq!(e.children.len(), 1);
    match e.node_type {
        NodeType::Element(d) => {
            assert_eq!(d.tag_name, "a");
            assert_eq!(d.attributes.entry(0), (&"k".to_string(), &"v".to_string()));
        }
        NodeType::Text(_) => panic!("expected an element"),
    }
}

#[test]
fn parser_methods_step_by_step() {
    let mut p = Parser::new("<p a='1' b>x <i>y</i></p>");
    assert_eq!(p.consume_char(), Ok('<'));
    assert_eq!(p.parse_tag_name(), Ok("p".to_string()));
    let a = p.parse_attributes().unwrap();
    assert_eq!(a, attrs(&[("a", "1"), ("b", "")]));
    assert_eq!(p.consume_char(), Ok('>'));
    let children = p.parse_nodes().unwrap();
    assert_eq!(children, vec![tx("x "), el("i", &[], vec![tx("y")])]);
    assert!(p.starts_with("</p>"));

    let mut q = Parser::new("=\"v w\" rest");
    assert_eq!(q.parse_attribute_value(), Ok("v w".to_string()));
    assert_eq!(q.next_char(), Ok(' '));

    let mut t = Parser::new("plain text<b>");
    assert_eq!(t.parse_text(), tx("plain text"));
    assert_eq!(t.parse_node(), Err(ParseError::UnexpectedEndOfInput));

    let mut e = Parser::new("<b>z</b>");
    assert_eq!(e.parse_element(), Ok(el("b", &[], vec![tx("z")])));
    assert!(e.eof());

    let mut n = Parser::new("word");
    assert_eq!(n.parse_node(), Ok(tx("word")));
}

#[test]
fn attribute_value_errors_from_parser() {
    let mut p = Parser::new("x");
    assert_eq!(
        p.parse_attribute_value(),
        Err(ParseError::MalformedMarkup { context: Expectation::Equals, offset: 0 })
    );
    let mut q = Parser::new("='abc");
    assert_eq!(
        q.parse_attribute_value(),
        Err(ParseError::MalformedMarkup { context: Expectation::ClosingQuote, offset: 5 })
    );
}
