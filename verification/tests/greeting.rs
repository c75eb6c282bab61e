use netconf_rs::greeting::list_capabilities;
use netconf_rs::greeting::tokenize;
use netconf_rs::greeting::Token;
use netconf_rs::greeting::TokenKind;

fn token(kind: TokenKind, text: &str) -> Token {
    Token { kind, text: String::from(text) }
}

#[test]
fn tokenize_gives_the_pieces_of_a_document() {
    assert_eq!(
        tokenize("<?xml version=\"1.0\"?><a:b x=\"1\">t&amp;u<c/><!-- n --></a:b>"),
        vec![
            token(TokenKind::Other, ""),
            token(TokenKind::Open, "b"),
            token(TokenKind::Text, "t"),
            token(TokenKind::Text, "&"),
            token(TokenKind::Text, "u"),
            token(TokenKind::Open, "c"),
            token(TokenKind::Close, "c"),
            token(TokenKind::Other, ""),
            token(TokenKind::Close, "b"),
            token(TokenKind::End, ""),
        ]
    );
}

#[test]
fn tokenize_of_empty_document_is_its_end() {
    assert_eq!(tokenize(""), vec![token(TokenKind::End, "")]);
}

#[test]
fn tokenize_stops_where_the_document_breaks() {
    assert_eq!(
        tokenize("<a></b><c/>"),
        vec![token(TokenKind::Open, "a"), token(TokenKind::Malformed, "")]
    );
}

#[test]
fn tokenize_marks_unknown_references() {
    let tokens = tokenize("<a>&nope;</a>");
    assert_eq!(tokens[0], token(TokenKind::Open, "a"));
    assert_eq!(tokens[1], token(TokenKind::Malformed, ""));
}

#[test]
fn tokenize_keeps_cdata_as_written() {
    assert_eq!(
        tokenize("<a><![CDATA[x &amp; <y>]]></a>"),
        vec![
            token(TokenKind::Open, "a"),
            token(TokenKind::Text, "x &amp; <y>"),
            token(TokenKind::Close, "a"),
            token(TokenKind::End, ""),
        ]
    );
}

#[test]
fn list_capabilities_walks_down_to_capability_elements() {
    let tokens = vec![
        token(TokenKind::Other, ""),
        token(TokenKind::Open, "hello"),
        token(TokenKind::Text, "\n  "),
        token(TokenKind::Open, "capabilities"),
        token(TokenKind::Open, "capability"),
        token(TokenKind::Text, "\n urn:a?x=1"),
        token(TokenKind::Text, "&"),
        token(TokenKind::Text, "y=2 \n"),
        token(TokenKind::Close, "capability"),
        token(TokenKind::Open, "capability"),
        token(TokenKind::Close, "capability"),
        token(TokenKind::Open, "capability"),
        token(TokenKind::Text, "urn:"),
        token(TokenKind::Open, "b"),
        token(TokenKind::Text, "inner"),
        token(TokenKind::Close, "b"),
        token(TokenKind::Text, "c"),
        token(TokenKind::Close, "capability"),
        token(TokenKind::Close, "capabilities"),
        token(TokenKind::Open, "session-id"),
        token(TokenKind::Text, "4"),
        token(TokenKind::Close, "session-id"),
        token(TokenKind::Close, "hello"),
        token(TokenKind::End, ""),
    ];
    assert_eq!(
        list_capabilities(&tokens),
        Some(vec![String::from("urn:a?x=1&y=2"), String::new(), String::from("urn:c")])
    );
}

#[test]
fn list_capabilities_passes_over_capabilities_elsewhere() {
    let tokens = vec![
        token(TokenKind::Open, "hello"),
        token(TokenKind::Open, "other"),
        token(TokenKind::Open, "capabilities"),
        token(TokenKind::Open, "capability"),
        token(TokenKind::Text, "deep"),
        token(TokenKind::Close, "capability"),
        token(TokenKind::Close, "capabilities"),
        token(TokenKind::Close, "other"),
        token(TokenKind::Open, "capability"),
        token(TokenKind::Text, "shallow"),
        token(TokenKind::Close, "capability"),
        token(TokenKind::Close, "hello"),
        token(TokenKind::Open, "capabilities"),
        token(TokenKind::Open, "capability"),
        token(TokenKind::Text, "outside"),
        token(TokenKind::Close, "capability"),
        token(TokenKind::Close, "capabilities"),
        token(TokenKind::End, ""),
    ];
    assert_eq!(list_capabilities(&tokens), Some(vec![]));
}

#[test]
fn list_capabilities_stops_at_the_end_of_the_document() {
    let tokens = vec![
        token(TokenKind::End, ""),
        token(TokenKind::Open, "hello"),
        token(TokenKind::Open, "capabilities"),
        token(TokenKind::Open, "capability"),
        token(TokenKind::Text, "late"),
        token(TokenKind::Close, "capability"),
    ];
    assert_eq!(list_capabilities(&tokens), Some(vec![]));
    assert_eq!(list_capabilities(&vec![]), Some(vec![]));
}

#[test]
fn list_capabilities_refuses_broken_documents() {
    assert_eq!(list_capabilities(&vec![token(TokenKind::Malformed, "")]), None);
    assert_eq!(list_capabilities(&vec![token(TokenKind::Close, "a")]), None);
    assert_eq!(
        list_capabilities(&vec![token(TokenKind::Open, "hello"), token(TokenKind::End, "")]),
        None
    );
    assert_eq!(
        list_capabilities(&vec![
            token(TokenKind::Open, "hello"),
            token(TokenKind::Malformed, ""),
            token(TokenKind::Close, "hello"),
            token(TokenKind::End, ""),
        ]),
        None
    );
}
