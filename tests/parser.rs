use bfc::parser::{is_balanced, parse, tokens, Node, Token};

#[test]
fn tokens_classify_each_char() {
    assert_eq!(
        tokens("+-.,<>[]x"),
        vec![
            Token::Plus,
            Token::Sub,
            Token::Print,
            Token::Read,
            Token::ShiftLeft,
            Token::ShiftRight,
            Token::BeginLoop,
            Token::EndLoop,
            Token::Ignored,
        ]
    );
    assert_eq!(tokens(""), vec![]);
    assert_eq!(tokens("é+"), vec![Token::Ignored, Token::Plus]);
}

#[test]
fn parse_maps_tokens() {
    let t = tokens("+- .,<>");
    assert_eq!(
        parse(&t),
        vec![
            Node::Add(1),
            Node::Add(255),
            Node::Print,
            Node::Read,
            Node::ShiftLeft(1),
            Node::ShiftRight(1),
        ]
    );
}

#[test]
fn parse_numbers_loops_in_order() {
    let t = tokens("[[]][]");
    assert_eq!(
        parse(&t),
        vec![
            Node::BeginLoop(0),
            Node::BeginLoop(1),
            Node::EndLoop(1),
            Node::EndLoop(0),
            Node::BeginLoop(2),
            Node::EndLoop(2),
        ]
    );
}

#[test]
fn balance_check() {
    assert!(is_balanced(&tokens("[[]][]")));
    assert!(is_balanced(&tokens("")));
    assert!(!is_balanced(&tokens("]")));
    assert!(!is_balanced(&tokens("[")));
    assert!(!is_balanced(&tokens("[]][")));
}
