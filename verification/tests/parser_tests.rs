use html::parser::{Node, ParseError, Parser};

#[test]
fn test_parse_single_element() {
    let input = "<html></html>";
    let parser = Parser::new(input);
    let nodes = parser.parse().expect("Parsing failed");

    assert_eq!(nodes.len(), 1);
    if let Node::Element {
        tag,
        attributes,
        children,
    } = &nodes[0]
    {
        assert_eq!(tag, "html");
        assert!(attributes.is_empty());
        assert!(children.is_empty());
    } else {
        panic!("Expected an Element node");
    }
}

#[test]
fn test_parse_element_with_text() {
    let input = "<h1>Hello, World!</h1>";
    let parser = Parser::new(input);
    let nodes = parser.parse().expect("Parsing failed");

    assert_eq!(nodes.len(), 1);
    if let Node::Element {
        tag,
        attributes,
        children,
    } = &nodes[0]
    {
        assert_eq!(tag, "h1");
        assert!(attributes.is_empty());
        assert_eq!(children.len(), 1);

        if let Node::Text(content) = &children[0] {
            assert_eq!(content, "Hello, World!");
        } else {
            panic!("Expected a Text node");
        }
    } else {
        panic!("Expected an Element node");
    }
}

#[test]
fn test_parse_nested_elements() {
    let input = "<div><p>Paragraph</p></div>";
    let parser = Parser::new(input);
    let nodes = parser.parse().expect("Parsing failed");

    assert_eq!(nodes.len(), 1);
    if let Node::Element { tag, children, .. } = &nodes[0] {
        assert_eq!(tag, "div");
        assert_eq!(children.len(), 1);

        if let Node::Element {
            tag: child_tag,
            children: child_children,
            ..
        } = &children[0]
        {
            assert_eq!(child_tag, "p");
            assert_eq!(child_children.len(), 1);

            if let Node::Text(content) = &child_children[0] {
                assert_eq!(content, "Paragraph");
            } else {
                panic!("Expected a Text node");
            }
        } else {
            panic!("Expected a nested Element node");
        }
    } else {
        panic!("Expected an Element node");
    }
}

#[test]
fn test_parse_element_with_attributes() {
    let input = r#"<img src="image.png" alt="An image"/>"#;
    let parser = Parser::new(input);
    let nodes = parser.parse().expect("Parsing failed");

    assert_eq!(nodes.len(), 1);
    if let Node::Element {
        tag,
        attributes,
        children,
    } = &nodes[0]
    {
        assert_eq!(tag, "img");
        assert_eq!(attributes.len(), 2);
        assert!(children.is_empty());

        assert_eq!(attributes[0], ("src".to_string(), "image.png".to_string()));
        assert_eq!(attributes[1], ("alt".to_string(), "An image".to_string()));
    } else {
        panic!("Expected an Element node");
    }
}

#[test]
fn test_parse_multiple_elements() {
    let input = "<html><body><h1>Title</h1><p>Paragraph</p></body></html>";
    let parser = Parser::new(input);
    let nodes = parser.parse().expect("Parsing failed");

    assert_eq!(nodes.len(), 1);
    if let Node::Element { tag, children, .. } = &nodes[0] {
        assert_eq!(tag, "html");
        assert_eq!(children.len(), 1);

        if let Node::Element {
            tag: body_tag,
            children: body_children,
            ..
        } = &children[0]
        {
            assert_eq!(body_tag, "body");
            assert_eq!(body_children.len(), 2);

            if let Node::Element {
                tag: h1_tag,
                children: h1_children,
                ..
            } = &body_children[0]
            {
                assert_eq!(h1_tag, "h1");
                assert_eq!(h1_children.len(), 1);

                if let Node::Text(content) = &h1_children[0] {
                    assert_eq!(content, "Title");
                } else {
                    panic!("Expected a Text node");
                }
            } else {
                panic!("Expected an h1 Element node");
            }

            if let Node::Element {
                tag: p_tag,
                children: p_children,
                ..
            } = &body_children[1]
            {
                assert_eq!(p_tag, "p");
                assert_eq!(p_children.len(), 1);

                if let Node::Text(content) = &p_children[0] {
                    assert_eq!(content, "Paragraph");
                } else {
                    panic!("Expected a Text node");
                }
            } else {
                panic!("Expected a p Element node");
            }
        } else {
            panic!("Expected a body Element node");
        }
    } else {
        panic!("Expected an html Element node");
    }
}

#[test]
fn test_self_closing_tag_takes_no_element_children() {
    // Markup after a self-closing tag becomes its sibling, never its child;
    // only the content right after it is attached, as a text leaf.
    let input = "<div><br>text<p>Para</p></div>";
    let parser = Parser::new(input);
    let nodes = parser.parse().expect("Parsing failed");

    assert_eq!(nodes.len(), 1);
    if let Node::Element { tag, children, .. } = &nodes[0] {
        assert_eq!(tag, "div");
        assert_eq!(children.len(), 2);

        if let Node::Element {
            tag: br_tag,
            children: br_children,
            ..
        } = &children[0]
        {
            assert_eq!(br_tag, "br");
            assert_eq!(br_children.len(), 1);
            assert!(matches!(&br_children[0], Node::Text(t) if t == "text"));
        } else {
            panic!("Expected a br Element node");
        }

        if let Node::Element {
            tag: p_tag,
            children: p_children,
            ..
        } = &children[1]
        {
            assert_eq!(p_tag, "p");
            assert!(matches!(&p_children[0], Node::Text(t) if t == "Para"));
        } else {
            panic!("Expected the p element as a sibling of br");
        }
    } else {
        panic!("Expected an Element node");
    }
}

#[test]
fn test_try_new_reports_lex_failure() {
    let r = Parser::try_new(r#"<img src="image.png"#);
    assert!(matches!(r, Err(ParseError::LexFailure)));
}

#[test]
fn test_try_new_reports_validation_failure() {
    let r = Parser::try_new("<html><body></html></body>");
    assert!(matches!(r, Err(ParseError::ValidationFailure)));
}

#[test]
fn test_try_new_accepts_valid_input() {
    let parser = Parser::try_new("<p>ok</p>").expect("Expected valid input");
    let nodes = parser.parse().expect("Parsing failed");
    assert_eq!(nodes.len(), 1);
}

#[test]
fn test_parse_skips_stray_top_level_tokens() {
    // Stray content and closing tags outside any element are skipped.
    let input = "stray</p><p>kept</p>";
    let parser = Parser::new(input);
    let nodes = parser.parse().expect("Parsing failed");

    assert_eq!(nodes.len(), 1);
    if let Node::Element { tag, children, .. } = &nodes[0] {
        assert_eq!(tag, "p");
        assert!(matches!(&children[0], Node::Text(t) if t == "kept"));
    } else {
        panic!("Expected an Element node");
    }
}
