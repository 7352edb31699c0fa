use toy_browser::{elem, parse_document, text, to_markup, AttrMap, Node};

fn round_trip(input: &str) {
    let first = parse_document(input).unwrap();
    let again = parse_document(&to_markup(&first)).unwrap();
    assert_eq!(again, first);
}

#[test]
fn markup_of_element_with_attribute_and_text() {
    let mut a = AttrMap::new();
    a.insert("attr".to_string(), "v".to_string());
    let n = elem("tag".to_string(), a, vec![text("text".to_string())]);
    assert_eq!(to_markup(&n), "<tag attr=\"v\">text</tag>");
}

#[test]
fn markup_picks_single_quote_for_value_with_double_quote() {
    let mut a = AttrMap::new();
    a.insert("t".to_string(), "say \"hi\"".to_string());
    a.insert("e".to_string(), String::new());
    let n: Node = elem("p".to_string(), a, vec![]);
    assert_eq!(to_markup(&n), "<p t='say \"hi\"' e=\"\"></p>");
}

#[test]
fn markup_of_nested_tree() {
    let n = parse_document("<p>hello<b>world</b></p>").unwrap();
    assert_eq!(to_markup(&n), "<p>hello<b>world</b></p>");
}

#[test]
fn round_trip_keeps_trees() {
    round_trip("<tag attr=\"v\">text</tag>");
    round_trip("<p id=\"x\" class='y' disabled></p>");
    round_trip("<p>hello<b>world</b></p>");
    round_trip("  <ul>\n <li a='1'>one </li>\n<li>two<br/></li></ul> ");
    round_trip("<p t='say \"hi\"' u=\"it's\">x</p>");
    round_trip("<a><b><c>deep</c></b>tail</a>");
}
