use rust_simple_parser::parse;
use rust_simple_parser::Attributes;
use rust_simple_parser::HtmlElement;

#[test]
fn parse_text() {
    let text_content = String::from("Olá Marcos");
    let lexer = parse(text_content.clone());

    let expected: Vec<HtmlElement> = vec![HtmlElement {
        node_type: String::from("text"),
        text_content: text_content,
        attributes: Attributes::new(),
        child_nodes: Vec::new(),
    }];

    assert_eq!(expected, lexer);
}

#[test]
fn parse_node() {
    let text_content = String::from("Olá Marcos");
    let html_h1 = String::from("<h1>") + &text_content + &String::from("</h1>");
    let lexer = parse(html_h1);

    let expected: Vec<HtmlElement> = vec![HtmlElement {
        node_type: String::from("h1"),
        text_content: text_content,
        attributes: Attributes::new(),
        child_nodes: Vec::new(),
    }];

    assert_eq!(expected, lexer);
}

#[test]
fn parse_node_with_child() {
    let text_content = String::from("Olá Marcos");
    let html_h1_b = String::from("<h1><b>") + &text_content + &String::from("</b></h1>");
    let lexer = parse(html_h1_b);

    let expected: Vec<HtmlElement> = vec![HtmlElement {
        node_type: String::from("h1"),
        text_content: String::new(),
        attributes: Attributes::new(),
        child_nodes: vec![HtmlElement {
            node_type: String::from("b"),
            text_content: text_content,
            attributes: Attributes::new(),
            child_nodes: Vec::new(),
        }],
    }];

    assert_eq!(expected, lexer);
}

#[test]
fn parse_node_with_child_and_text() {
    let text_content_h1 = String::from("Olá ");
    let text_content_b = String::from("Marcos");
    let html_b = String::from("<b>") + &text_content_b + &String::from("</b>");
    let html_h1_b = String::from("<h1>") + &text_content_h1 + &html_b + &String::from("</h1>");
    let lexer = parse(html_h1_b);

    let expected: Vec<HtmlElement> = vec![HtmlElement {
        node_type: String::from("h1"),
        text_content: text_content_h1,
        attributes: Attributes::new(),
        child_nodes: vec![HtmlElement {
            node_type: String::from("b"),
            text_content: text_content_b,
            attributes: Attributes::new(),
            child_nodes: Vec::new(),
        }],
    }];

    assert_eq!(expected, lexer);
}

#[test]
fn parse_self_close_nodes() {
    let html_form = String::from("<form><input /></form>");
    let lexer = parse(html_form);

    let expected: Vec<HtmlElement> = vec![HtmlElement {
        node_type: String::from("form"),
        text_content: String::new(),
        attributes: Attributes::new(),
        child_nodes: vec![HtmlElement {
            node_type: String::from("input"),
            text_content: String::new(),
            attributes: Attributes::new(),
            child_nodes: Vec::new(),
        }],
    }];

    assert_eq!(expected, lexer);
}

#[test]
fn parse_nodes_with_attributes() {
    let html_form = String::from("<input id=\"teste\" />");
    let lexer = parse(html_form);

    let mut attributes = Attributes::new();

    attributes.insert("id".to_string(), Some(String::from("teste")));

    let expected: Vec<HtmlElement> = vec![HtmlElement {
        node_type: String::from("input"),
        text_content: String::new(),
        attributes: attributes,
        child_nodes: vec![],
    }];

    assert_eq!(expected, lexer);
}

#[test]
fn parse_nodes_with_attributes_spaced() {
    let html_form = String::from("<input id=\"teste\" />");
    let lexer = parse(html_form);

    let mut attributes = Attributes::new();

    attributes.insert("id".to_string(), Some(String::from("teste")));

    let expected: Vec<HtmlElement> = vec![HtmlElement {
        node_type: String::from("input"),
        text_content: String::new(),
        attributes: attributes,
        child_nodes: vec![],
    }];

    assert_eq!(expected, lexer);
}

#[test]
fn parse_node_with_sinbling_and_child() {
    let text_content_h1 = String::from("Olá ");
    let text_content_b = String::from("Marcos");
    let text_content_h2 = String::from("Sou Frontend");
    let html_b = String::from("<b>") + &text_content_b + &String::from("</b>");
    let html_h1_b = String::from("<h1>") + &text_content_h1 + &html_b + &String::from("</h1>");
    let html_h1_b_h2 =
        html_h1_b + &String::from("<h2>") + &text_content_h2 + &String::from("</h2>");
    let html_header = String::from("<header>") + &html_h1_b_h2 + &String::from("</header>");
    let lexer = parse(html_header);

    let expected: Vec<HtmlElement> = vec![HtmlElement {
        node_type: String::from("header"),
        text_content: String::new(),
        attributes: Attributes::new(),
        child_nodes: vec![
            HtmlElement {
                node_type: String::from("h1"),
                text_content: text_content_h1,
                attributes: Attributes::new(),
                child_nodes: vec![HtmlElement {
                    node_type: String::from("b"),
                    text_content: text_content_b,
                    attributes: Attributes::new(),
                    child_nodes: Vec::new(),
                }],
            },
            HtmlElement {
                node_type: String::from("h2"),
                text_content: text_content_h2,
                attributes: Attributes::new(),
                child_nodes: Vec::new(),
            },
        ],
    }];

    assert_eq!(expected, lexer);
}
