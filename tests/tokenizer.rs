use dot_rust::tokenizer::{split_words, word_to_token, words_from_spans, words_to_tokens, Token};

#[test]
fn tokenizer_test_split() {
    let text = "This is an;example of text;to   split";
    assert_eq!(
        split_words(text),
        vec!["This", "is", "an", ";", "example", "of", "text", ";", "to", "split"]
    );
}

#[test]
fn tokenizer_test_split_graph() {
    let text = "graph graphname {\n    a -- b -- c;\n    b -- d;\n}";
    assert_eq!(
        split_words(text),
        vec!["graph", "graphname", "{", "a", "--", "b", "--", "c", ";", "b", "--", "d", ";", "}"]
    );
}

#[test]
fn lib_test_split() {
    let text = "This is an;example of text;to   split";
    assert_eq!(
        split_words(text),
        vec!["This", "is", "an", ";", "example", "of", "text", ";", "to", "split"]
    );
}

#[test]
fn lib_test_split_graph() {
    let text = "graph graphname {\n    a -- b -- c;\n    b -- d;\n}";
    assert_eq!(
        split_words(text),
        vec!["graph", "graphname", "{", "a", "--", "b", "--", "c", ";", "b", "--", "d", ";", "}"]
    );
}

#[test]
fn split_empty_text() {
    assert_eq!(split_words(""), Vec::<&str>::new());
    assert_eq!(split_words(" \n\t "), Vec::<&str>::new());
}

#[test]
fn split_glued_semicolons() {
    assert_eq!(split_words("a;b"), vec!["a", ";", "b"]);
    assert_eq!(split_words("c;;"), vec!["c", ";", ";"]);
    assert_eq!(split_words("  x  "), vec!["x"]);
}

#[test]
fn split_never_empty_and_keeps_text() {
    let text = " a;; b\t\n c ;d  ";
    let words = split_words(text);
    assert!(words.iter().all(|w| !w.is_empty()));
    let joined: String = words.concat();
    let expected: String = text.chars().filter(|c| !c.is_whitespace()).collect();
    assert_eq!(joined, expected);
    assert_eq!(words.iter().filter(|w| **w == ";").count(), 3);
}

#[test]
fn split_non_ascii_words() {
    assert_eq!(split_words("é -> ü;"), vec!["é", "->", "ü", ";"]);
}

#[test]
fn words_from_given_spans() {
    let text = "ab  c;d";
    let spans = vec![(2, 4), (5, 6)];
    assert_eq!(words_from_spans(text, &spans), vec!["ab", "c", ";", "d"]);
    assert_eq!(words_from_spans(text, &Vec::new()), vec!["ab  c;d"]);
    assert_eq!(words_from_spans("", &Vec::new()), Vec::<&str>::new());
}

#[test]
fn classify_each_keyword() {
    assert_eq!(word_to_token("graph"), Token::Graph);
    assert_eq!(word_to_token("digraph"), Token::Digraph);
    assert_eq!(word_to_token("{"), Token::LeftBracket);
    assert_eq!(word_to_token("}"), Token::RightBracket);
    assert_eq!(word_to_token(";"), Token::Semicolon);
    assert_eq!(word_to_token("->"), Token::DirectedEdgeOp);
    assert_eq!(word_to_token("--"), Token::UndirectedEdgeOp);
    assert_eq!(word_to_token("Graph"), Token::Identifier("Graph".to_string()));
    assert_eq!(word_to_token("a"), Token::Identifier("a".to_string()));
}

#[test]
fn classify_words_in_order() {
    let words = vec!["digraph", "g", "{"];
    assert_eq!(
        words_to_tokens(&words),
        vec![Token::Digraph, Token::Identifier("g".to_string()), Token::LeftBracket]
    );
}

#[test]
fn delimiter_spans_found() {
    let d = dot_rust::tokenizer::Delimiters::new().unwrap();
    assert_eq!(d.spans("a  b;c"), vec![(1, 3), (4, 5)]);
    assert_eq!(d.spans("abc"), Vec::<(usize, usize)>::new());
}
