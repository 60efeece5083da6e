use dot_rust::graph::Graph;
use dot_rust::parser::{Parser, ParserState, SyntaxError};
use dot_rust::tokenizer::Token;
use dot_rust::{parse_text, parse_tokens};

fn names(v: &[&str]) -> Vec<String> {
    v.iter().map(|s| s.to_string()).collect()
}

fn ident(s: &str) -> Token {
    Token::Identifier(s.to_string())
}

#[test]
fn test_split_digraph() {
    let text = "digraph dir {\n    a -> b -> c;\n    b -> d;\n}\n";
    assert_eq!(
        parse_text(text),
        Ok(Graph {
            is_directed: true,
            nodes: names(&["a", "b", "c", "d"]),
            adjacency: vec![vec![1], vec![2, 3], vec![], vec![]],
        })
    );
}

#[test]
fn undirected_scenario() {
    let g = parse_text("graph g { a -- b -- c; b -- d; }").unwrap();
    assert!(!g.is_directed);
    assert_eq!(g.nodes, names(&["a", "b", "c", "d"]));
    assert_eq!(g.adjacency, vec![vec![1], vec![0, 2, 3], vec![1], vec![1]]);
}

#[test]
fn directed_scenario() {
    let g = parse_text("digraph g { a -> b -> c; }").unwrap();
    assert!(g.is_directed);
    assert_eq!(g.nodes, names(&["a", "b", "c"]));
    assert_eq!(g.adjacency, vec![vec![1], vec![2], vec![]]);
}

#[test]
fn lone_node_scenario() {
    let g = parse_text("graph g { x; }").unwrap();
    assert_eq!(g.nodes, names(&["x"]));
    assert_eq!(g.adjacency, vec![Vec::<usize>::new()]);
}

#[test]
fn empty_body_rejected() {
    assert_eq!(
        parse_text("digraph g { }"),
        Err(SyntaxError::UnexpectedToken {
            token: Token::RightBracket,
            state: ParserState::ExpectNodeName,
        })
    );
}

#[test]
fn trailing_token_rejected() {
    assert_eq!(
        parse_text("graph g { a; } extra"),
        Err(SyntaxError::TrailingToken { token: ident("extra") })
    );
    assert_eq!(
        parse_text("graph g { a; };"),
        Err(SyntaxError::TrailingToken { token: Token::Semicolon })
    );
}

#[test]
fn undirected_operator_in_digraph_rejected() {
    assert_eq!(
        parse_text("digraph g { a -- b; }"),
        Err(SyntaxError::UnexpectedToken {
            token: Token::UndirectedEdgeOp,
            state: ParserState::ExpectEdgeOrSemicolon,
        })
    );
}

#[test]
fn directed_operator_in_graph_rejected() {
    assert_eq!(
        parse_text("graph g { a -> b; }"),
        Err(SyntaxError::UnexpectedToken {
            token: Token::DirectedEdgeOp,
            state: ParserState::ExpectEdgeOrSemicolon,
        })
    );
}

#[test]
fn truncated_input_rejected() {
    assert_eq!(
        parse_text("graph g { a -- b;"),
        Err(SyntaxError::UnexpectedEnd { state: ParserState::ExpectNodeNameOrRBracket })
    );
    assert_eq!(
        parse_text(""),
        Err(SyntaxError::UnexpectedEnd { state: ParserState::Start })
    );
}

#[test]
fn bad_header_rejected() {
    assert_eq!(
        parse_text("strict graph g {}"),
        Err(SyntaxError::UnexpectedToken { token: ident("strict"), state: ParserState::Start })
    );
    assert_eq!(
        parse_text("graph { a; }"),
        Err(SyntaxError::UnexpectedToken {
            token: Token::LeftBracket,
            state: ParserState::ExpectGraphName,
        })
    );
    assert_eq!(
        parse_text("graph g a; }"),
        Err(SyntaxError::UnexpectedToken { token: ident("a"), state: ParserState::ExpectLBracket })
    );
}

#[test]
fn dangling_operator_rejected() {
    assert_eq!(
        parse_text("graph g { a -- ; }"),
        Err(SyntaxError::UnexpectedToken {
            token: Token::Semicolon,
            state: ParserState::ExpectNodeName,
        })
    );
    assert_eq!(
        parse_text("graph g { a }"),
        Err(SyntaxError::UnexpectedToken {
            token: Token::RightBracket,
            state: ParserState::ExpectEdgeOrSemicolon,
        })
    );
}

#[test]
fn repeated_names_share_an_index() {
    let g = parse_text("digraph g { a -> b; b -> a; a -> a; c; }").unwrap();
    assert_eq!(g.nodes, names(&["a", "b", "c"]));
    assert_eq!(g.adjacency, vec![vec![1, 0], vec![0], vec![]]);
}

#[test]
fn duplicate_edges_kept() {
    let g = parse_text("graph g { a -- b; a -- b; }").unwrap();
    assert_eq!(g.adjacency, vec![vec![1, 1], vec![0, 0]]);
}

#[test]
fn graph_name_is_not_a_node() {
    let g = parse_text("graph a { b; }").unwrap();
    assert_eq!(g.nodes, names(&["b"]));
}

#[test]
fn parser_on_tokens() {
    let tokens = vec![
        Token::Graph,
        ident("g"),
        Token::LeftBracket,
        ident("p"),
        Token::UndirectedEdgeOp,
        ident("q"),
        Token::Semicolon,
        Token::RightBracket,
    ];
    let mut parser = Parser::new();
    let g = parser.parse(tokens.clone()).unwrap();
    assert_eq!(g.nodes, names(&["p", "q"]));
    assert_eq!(g.adjacency, vec![vec![1], vec![0]]);
    assert_eq!(parse_tokens(tokens), Ok(g));
}

#[test]
fn wrong_operator_in_later_statement_rejected() {
    assert_eq!(
        parse_text("digraph g { a -> b; c -- d; }"),
        Err(SyntaxError::UnexpectedToken { token: Token::UndirectedEdgeOp, state: ParserState::ExpectEdgeOrSemicolon })
    );
    assert!(parse_text("graph g { a -- b; b -> c; }").is_err());
}
