use rust_simple_parser::Attributes;
use rust_simple_parser::HtmlElement;

#[test]
fn new_attributes_are_empty() {
    let attributes = Attributes::new();
    assert_eq!(attributes.len(), 0);
    assert_eq!(attributes.get(&String::from("id")), None);
}

#[test]
fn insert_adds_a_name() {
    let mut attributes = Attributes::new();
    attributes.insert(String::from("id"), Some(String::from("teste")));
    assert_eq!(attributes.len(), 1);
    assert_eq!(attributes.get(&String::from("id")), Some(&Some(String::from("teste"))));
    assert_eq!(attributes.get(&String::from("ID")), None);
    assert_eq!(attributes.get(&String::from("")), None);
}

#[test]
fn insert_keeps_a_name_without_a_value() {
    let mut attributes = Attributes::new();
    attributes.insert(String::from("disabled"), None);
    assert_eq!(attributes.len(), 1);
    assert_eq!(attributes.get(&String::from("disabled")), Some(&None));
}

#[test]
fn insert_replaces_the_value_of_a_name() {
    let mut attributes = Attributes::new();
    attributes.insert(String::from("a"), Some(String::from("1")));
    attributes.insert(String::from("b"), Some(String::from("2")));
    attributes.insert(String::from("a"), Some(String::from("3")));
    assert_eq!(attributes.len(), 2);
    assert_eq!(attributes.get(&String::from("a")), Some(&Some(String::from("3"))));
    assert_eq!(attributes.get(&String::from("b")), Some(&Some(String::from("2"))));
    attributes.insert(String::from("b"), None);
    assert_eq!(attributes.len(), 2);
    assert_eq!(attributes.get(&String::from("b")), Some(&None));
}

#[test]
fn attributes_are_equal_in_any_order() {
    let mut left = Attributes::new();
    left.insert(String::from("a"), Some(String::from("1")));
    left.insert(String::from("b"), None);
    left.insert(String::from("c"), Some(String::from("3")));

    let mut right = Attributes::new();
    right.insert(String::from("c"), Some(String::from("3")));
    right.insert(String::from("a"), Some(String::from("0")));
    right.insert(String::from("b"), None);
    right.insert(String::from("a"), Some(String::from("1")));

    assert_eq!(left, right);
    assert_eq!(right, left);
}

#[test]
fn attributes_differ_by_a_name_or_a_value() {
    let mut one = Attributes::new();
    one.insert(String::from("a"), Some(String::from("1")));

    let mut other_value = Attributes::new();
    other_value.insert(String::from("a"), Some(String::from("2")));

    let mut no_value = Attributes::new();
    no_value.insert(String::from("a"), None);

    let mut other_name = Attributes::new();
    other_name.insert(String::from("b"), Some(String::from("1")));

    let mut more = Attributes::new();
    more.insert(String::from("a"), Some(String::from("1")));
    more.insert(String::from("b"), Some(String::from("1")));

    assert_ne!(one, other_value);
    assert_ne!(one, no_value);
    assert_ne!(one, other_name);
    assert_ne!(one, more);
    assert_ne!(more, one);
    assert_ne!(one, Attributes::new());
    assert_eq!(Attributes::new(), Attributes::new());
}

#[test]
fn new_element_holds_only_its_kind() {
    let element = HtmlElement::new(String::from("h1"));
    assert_eq!(element.node_type, "h1");
    assert_eq!(element.text_content, "");
    assert_eq!(element.child_nodes, vec![]);
    assert_eq!(element.attributes, Attributes::new());
    assert_eq!(
        element,
        HtmlElement {
            node_type: String::from("h1"),
            text_content: String::new(),
            child_nodes: Vec::new(),
            attributes: Attributes::new(),
        }
    );
}
