use rust_simple_parser::parser;
use rust_simple_parser::scan_level;
use rust_simple_parser::Attributes;
use rust_simple_parser::HtmlElement;
use rust_simple_parser::Tokens;

fn text(s: &str) -> Tokens {
    Tokens::Text(s.to_string())
}

fn open(s: &str) -> Tokens {
    Tokens::OpenTag(s.to_string())
}

fn close(s: &str) -> Tokens {
    Tokens::CloseTag(s.to_string())
}

fn self_close(s: &str) -> Tokens {
    Tokens::SelfCloseTag(s.to_string())
}

fn key(s: &str) -> Tokens {
    Tokens::AttributeKey(s.to_string())
}

fn value(s: &str) -> Tokens {
    Tokens::AttributeValue(s.to_string())
}

fn node(kind: &str, text: &str, children: Vec<HtmlElement>) -> HtmlElement {
    HtmlElement {
        node_type: kind.to_string(),
        text_content: text.to_string(),
        child_nodes: children,
        attributes: Attributes::new(),
    }
}

fn with(mut element: HtmlElement, name: &str, value: Option<&str>) -> HtmlElement {
    element.attributes.insert(name.to_string(), value.map(|v| v.to_string()));
    element
}

#[test]
fn parser_of_no_tokens_gives_no_nodes() {
    assert_eq!(parser(vec![]), vec![]);
}

#[test]
fn parser_makes_text_nodes_of_text_outside_elements() {
    assert_eq!(
        parser(vec![text("a"), text("b")]),
        vec![node("text", "a", vec![]), node("text", "b", vec![])]
    );
}

#[test]
fn parser_gives_text_to_the_open_element() {
    assert_eq!(
        parser(vec![open("p"), text("a"), close("p")]),
        vec![node("p", "a", vec![])]
    );
}

#[test]
fn parser_replaces_the_text_of_the_open_element() {
    assert_eq!(
        parser(vec![open("p"), text("a"), text("b"), close("p")]),
        vec![node("p", "b", vec![])]
    );
}

#[test]
fn parser_makes_a_text_node_of_text_that_comes_last() {
    assert_eq!(
        parser(vec![open("p"), text("x")]),
        vec![node("p", "", vec![]), node("text", "x", vec![])]
    );
    assert_eq!(
        parser(vec![open("p"), text("a"), text("b")]),
        vec![node("p", "a", vec![]), node("text", "b", vec![])]
    );
}

#[test]
fn parser_puts_what_follows_an_open_element_below_it() {
    assert_eq!(
        parser(vec![open("div"), open("p"), text("a"), close("p"), open("p"), close("p")]),
        vec![node("div", "", vec![node("p", "a", vec![]), node("p", "", vec![])])]
    );
}

#[test]
fn parser_ends_a_level_at_its_first_closing_tag() {
    assert_eq!(parser(vec![close("x"), open("a")]), vec![]);
    assert_eq!(
        parser(vec![open("a"), close("a"), open("b"), close("b")]),
        vec![node("a", "", vec![])]
    );
}

#[test]
fn parser_does_not_compare_the_names_of_tags() {
    assert_eq!(
        parser(vec![open("a"), text("x"), close("b")]),
        vec![node("a", "x", vec![])]
    );
}

#[test]
fn parser_never_opens_a_void_element() {
    assert_eq!(
        parser(vec![open("br"), text("t"), close("x")]),
        vec![node("br", "", vec![]), node("text", "t", vec![])]
    );
    assert_eq!(
        parser(vec![open("div"), open("br"), open("br"), close("div")]),
        vec![node("div", "", vec![node("br", "", vec![]), node("br", "", vec![])])]
    );
}

#[test]
fn parser_never_opens_a_self_closing_tag() {
    assert_eq!(
        parser(vec![self_close("div"), text("t"), close("x")]),
        vec![node("div", "", vec![]), node("text", "t", vec![])]
    );
}

#[test]
fn parser_lets_a_level_below_end_at_the_closing_tag_of_its_parent() {
    assert_eq!(
        parser(vec![
            open("form"),
            self_close("input"),
            text("t"),
            close("form"),
            text("u"),
            close("x"),
        ]),
        vec![node(
            "form",
            "u",
            vec![node("input", "", vec![]), node("text", "t", vec![])]
        )]
    );
}

#[test]
fn parser_reads_attributes_after_a_tag() {
    assert_eq!(
        parser(vec![self_close("input"), key("id"), value("teste")]),
        vec![with(node("input", "", vec![]), "id", Some("teste"))]
    );
    assert_eq!(
        parser(vec![open("a"), key("href"), value("x"), text("go"), close("a")]),
        vec![with(node("a", "go", vec![]), "href", Some("x"))]
    );
}

#[test]
fn parser_keeps_a_name_without_a_value() {
    assert_eq!(
        parser(vec![self_close("input"), key("disabled")]),
        vec![with(node("input", "", vec![]), "disabled", None)]
    );
    assert_eq!(
        parser(vec![open("input"), key("disabled"), key("id"), value("x"), key("hidden")]),
        vec![with(
            with(with(node("input", "", vec![]), "disabled", None), "id", Some("x")),
            "hidden",
            None
        )]
    );
}

#[test]
fn parser_keeps_the_later_of_two_values() {
    assert_eq!(
        parser(vec![open("a"), key("k"), value("1"), key("k"), value("2")]),
        vec![with(node("a", "", vec![]), "k", Some("2"))]
    );
    assert_eq!(
        parser(vec![open("a"), key("k"), value("1"), key("k")]),
        vec![with(node("a", "", vec![]), "k", None)]
    );
}

#[test]
fn parser_ignores_a_value_without_a_name() {
    assert_eq!(
        parser(vec![open("a"), value("v"), key("k"), value("1"), value("2")]),
        vec![with(node("a", "", vec![]), "k", Some("1"))]
    );
}

#[test]
fn parser_ignores_attributes_that_follow_no_tag() {
    assert_eq!(
        parser(vec![key("k"), value("v"), text("t"), key("k"), text("u")]),
        vec![node("text", "t", vec![]), node("text", "u", vec![])]
    );
    assert_eq!(
        parser(vec![open("p"), text("t"), key("k"), value("v"), close("p")]),
        vec![node("p", "t", vec![])]
    );
}

#[test]
fn parser_gives_attributes_to_elements_below() {
    assert_eq!(
        parser(vec![
            open("ul"),
            key("class"),
            value("menu"),
            open("li"),
            key("id"),
            value("first"),
            text("one"),
            close("li"),
            close("ul"),
        ]),
        vec![with(
            node("ul", "", vec![with(node("li", "one", vec![]), "id", Some("first"))]),
            "class",
            Some("menu")
        )]
    );
}

#[test]
fn scan_level_says_where_the_level_ended() {
    let tokens =
        vec![open("a"), text("x"), close("a"), open("b"), text("y"), close("b")];
    assert_eq!(scan_level(&tokens, 0), (vec![node("a", "x", vec![])], 3));
    assert_eq!(scan_level(&tokens, 3), (vec![node("b", "y", vec![])], 6));
    assert_eq!(scan_level(&tokens, 1), (vec![node("text", "x", vec![])], 3));
    assert_eq!(scan_level(&tokens, 2), (vec![], 3));
    assert_eq!(scan_level(&tokens, 4), (vec![node("text", "y", vec![])], 6));
}

#[test]
fn scan_level_reads_to_the_end_without_a_closing_tag() {
    let tokens = vec![open("a"), open("b"), text("x")];
    assert_eq!(
        scan_level(&tokens, 0),
        (vec![node("a", "", vec![node("b", "", vec![]), node("text", "x", vec![])])], 3)
    );
    assert_eq!(
        scan_level(&tokens, 1),
        (vec![node("b", "", vec![]), node("text", "x", vec![])], 3)
    );
}

#[test]
fn scan_level_past_the_end_reads_nothing() {
    let tokens = vec![open("a"), close("a")];
    assert_eq!(scan_level(&tokens, 2), (vec![], 2));
    assert_eq!(scan_level(&tokens, 7), (vec![], 7));
    assert_eq!(scan_level(&vec![], 0), (vec![], 0));
}

#[test]
fn scan_level_counts_the_attributes_it_read() {
    let tokens = vec![self_close("input"), key("id"), value("x"), close("form"), text("t")];
    assert_eq!(
        scan_level(&tokens, 0),
        (vec![with(node("input", "", vec![]), "id", Some("x"))], 4)
    );
}
