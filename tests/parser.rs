use slabkit::lexer::{EToken, Token};
use slabkit::parser::{HtmlElement, Node, ParseError, Parser};

fn parse(text: &str) -> Result<Node, ParseError> {
    Parser::new(text.to_string()).parse()
}

#[test]
fn test_parser_utils() {
    let input = "<div>Hello</div>".to_string();
    let mut parser = Parser::new(input.clone());
    for token in parser.tokens.iter() {
        println!("{:?}", token);
    }

    match parser.expect_and_consume_token(EToken::GREATERTHAN) {
        Ok(_) => println!("Successfully consumed '>'"),
        Err(err) => println!("Error: {}", err.message()),
    }
    println!("Current token: {:?}", parser.current_token());
    println!("Current token: {:?}", parser.peek_token());
    assert_eq!(parser.current_token(), Some(&parser.tokens[0]));
    assert_eq!(parser.peek_token(), Some(&parser.tokens[1]));

    let node = parser.parse();
    println!("Result node after parsing: {:?}", node)
}

#[test]
fn parses_nested_elements() {
    let node = parse("<div class='box'><p>Hello World</p><br></br></div>").unwrap();
    match node {
        Node::Element(HtmlElement { tag, attributes, children }) => {
            assert_eq!(tag, "div");
            assert_eq!(attributes, vec![("class".to_string(), "box".to_string())]);
            assert_eq!(children.len(), 2);
            match &children[0] {
                Node::Element(p) => {
                    assert_eq!(p.tag, "p");
                    assert_eq!(p.children.len(), 2);
                    assert!(matches!(&p.children[0], Node::Text(t) if t == "Hello"));
                    assert!(matches!(&p.children[1], Node::Text(t) if t == "World"));
                },
                other => panic!("unexpected child {:?}", other),
            }
            assert!(matches!(&children[1], Node::Element(b) if b.tag == "br" && b.children.is_empty()));
        },
        other => panic!("unexpected node {:?}", other),
    }
}

#[test]
fn top_level_text_is_a_text_node() {
    assert!(matches!(parse("hello"), Ok(Node::Text(t)) if t == "hello"));
}

#[test]
fn attribute_fragments_are_joined_by_spaces() {
    match parse("<a title=\"hello big world\">x</a>").unwrap() {
        Node::Element(e) => {
            assert_eq!(e.attributes, vec![("title".to_string(), "hello big world".to_string())])
        },
        other => panic!("unexpected node {:?}", other),
    }
}

#[test]
fn duplicate_attribute_last_wins() {
    match parse("<a k='1' j='0' k='2'>x</a>").unwrap() {
        Node::Element(e) => assert_eq!(
            e.attributes,
            vec![("k".to_string(), "2".to_string()), ("j".to_string(), "0".to_string())]
        ),
        other => panic!("unexpected node {:?}", other),
    }
}

#[test]
fn unclosed_tag_is_reported() {
    let err = parse("<div>text").unwrap_err();
    assert!(matches!(&err, ParseError::UnclosedTag(tag) if tag == "div"));
    assert_eq!(err.message(), "Unclosed tag: <div>");
}

#[test]
fn mismatched_closing_tag_is_reported() {
    let err = parse("<div>x</span>").unwrap_err();
    match &err {
        ParseError::ExpectedToken(found, expected) => {
            assert_eq!(
                *found,
                Token { line: 1, column: 9, token: EToken::TEXT("span".to_string()) }
            );
            assert_eq!(*expected, EToken::TEXT("div".to_string()));
        },
        other => panic!("unexpected error {:?}", other),
    }
    assert_eq!(
        err.message(),
        "Unexpected token span at line 1, column 9, expected : div"
    );
}

#[test]
fn empty_input_is_an_unexpected_end() {
    let err = parse("").unwrap_err();
    assert!(matches!(err, ParseError::UnexpectedEnd));
    assert_eq!(err.message(), "Unexpected end of input");
}

#[test]
fn missing_tag_name_is_reported() {
    let err = parse("<>").unwrap_err();
    assert!(matches!(&err, ParseError::UnexpectedToken(t) if t.token == EToken::GREATERTHAN && t.column == 2));
    assert!(matches!(parse("<"), Err(ParseError::UnexpectedEnd)));
}

#[test]
fn missing_equals_is_reported() {
    let err = parse("<a b c>x</a>").unwrap_err();
    assert!(matches!(&err, ParseError::ExpectedToken(t, EToken::EQUAL_SYMBOL) if t.column == 6));
}

#[test]
fn missing_attribute_value_is_reported() {
    let err = parse("<a href=x>y</a>").unwrap_err();
    assert!(matches!(err, ParseError::MissingAttributeValue));
    assert_eq!(err.message(), "Expected an attribute value");
}

#[test]
fn unterminated_attribute_value_is_reported() {
    assert!(matches!(parse("<a href='x"), Err(ParseError::UnexpectedEnd)));
}

#[test]
fn stray_token_in_attributes_is_reported() {
    let err = parse("<a = 'x'>y</a>").unwrap_err();
    assert!(matches!(&err, ParseError::UnexpectedToken(t) if t.token == EToken::EQUAL_SYMBOL));
}

#[test]
fn cursor_moves_past_a_parsed_node() {
    let mut parser = Parser::new("<b>x</b> tail".to_string());
    assert!(parser.parse().is_ok());
    assert_eq!(parser.cursor, 7);
    assert!(matches!(parser.parse(), Ok(Node::Text(t)) if t == "tail"));
}

#[test]
fn deep_copy_keeps_the_tree() {
    let node = parse("<a k='v'><b>x</b>y</a>").unwrap();
    assert_eq!(node.duplicate(), node);
    assert_ne!(node, parse("<a k='w'><b>x</b>y</a>").unwrap());
}
