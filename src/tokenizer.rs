//! Splitting text into words and classifying each word as a token.

use vstd::prelude::*;
use vstd::string::*;
use vstd::utf8::*;

verus! {

broadcast use vstd::utf8::group_utf8_lib;

/// Delimiters between words: runs of whitespace, and each semicolon.
pub const DELIMITER_PATTERN: &'static str = r"(\s+|;)";

#[verifier::external_type_specification]
#[verifier::external_body]
pub struct ExRegex(regex::Regex);

/// The delimiter matches that the regex engine finds in a text, given by its
/// bytes: the byte range of each match, in order.
pub uninterp spec fn delimiter_matches(b: Seq<u8>) -> Seq<(usize, usize)>;

/// The compiled delimiter pattern. Its field is private, so a value of this
/// type only ever holds `DELIMITER_PATTERN`.
pub struct Delimiters {
    re: regex::Regex,
}

impl Delimiters {
    /// Relies on `regex::Regex::new`, which fails only on a pattern that is
    /// invalid or too large; `DELIMITER_PATTERN` is neither.
    #[verifier::external_body]
    pub fn new() -> (r: Option<Delimiters>)
        ensures
            r is Some,
    {
        regex::Regex::new(DELIMITER_PATTERN).ok().map(|re| Delimiters { re })
    }

    /// Relies on `regex::Regex::find_iter` with `Match::start` and
    /// `Match::end`: successive non-overlapping matches, each a byte range of
    /// the haystack whose ends fall on character boundaries.
    #[verifier::external_body]
    pub fn spans(&self, text: &str) -> (r: Vec<(usize, usize)>)
        ensures
            spans_valid(text.spec_bytes(), r@),
            r@ == delimiter_matches(text.spec_bytes()),
    {
        self.re.find_iter(text).map(|m| (m.start(), m.end())).collect()
    }
}

/// The bytes of `s` between `start` and `end`, which must be character
/// boundaries.
fn slice<'a>(s: &'a str, start: usize, end: usize) -> (r: &'a str)
    requires
        start <= end <= s.spec_bytes().len(),
        is_char_boundary(s.spec_bytes(), start as int),
        is_char_boundary(s.spec_bytes(), end as int),
    ensures
        r.spec_bytes() == s.spec_bytes().subrange(start as int, end as int),
{
    let ghost b = s.spec_bytes();
    proof {
        encode_utf8_valid_utf8(s@);
        valid_utf8_split(b, end as int);
        let p = b.subrange(0, end as int);
        if start < end {
            assert(p[start as int] == b[start as int]);
            is_char_boundary_iff_not_is_continuation_byte(b, start as int);
            is_char_boundary_iff_not_is_continuation_byte(p, start as int);
        } else {
            is_char_boundary_start_end_of_seq(p);
        }
    }
    let (head, _) = s.split_at(end);
    let (_, r) = head.split_at(start);
    assert(r.spec_bytes() =~= b.subrange(start as int, end as int));
    r
}

/// What `str::trim` leaves of a string, given by its bytes.
pub uninterp spec fn trimmed(s: Seq<u8>) -> Seq<u8>;

/// Relies on `str::trim`: the slice of `s` without its leading and trailing
/// whitespace.
#[verifier::external_body]
fn trim(s: &str) -> (r: &str)
    ensures
        r.spec_bytes() == trimmed(s.spec_bytes()),
        r.spec_bytes().len() <= s.spec_bytes().len(),
{
    s.trim()
}

/// Relies on `str`'s `==`: equal exactly when the characters are.
#[verifier::external_body]
fn same_text(a: &str, b: &str) -> (r: bool)
    ensures
        r == (a@ == b@),
{
    a == b
}

/// Byte ranges of delimiter matches: each in bounds, on character boundaries,
/// in order and without overlap.
pub open spec fn spans_valid(b: Seq<u8>, spans: Seq<(usize, usize)>) -> bool {
    &&& forall|k: int|
        0 <= k < spans.len() ==> {
            &&& #[trigger] spans[k].0 <= spans[k].1 <= b.len()
            &&& is_char_boundary(b, spans[k].0 as int)
            &&& is_char_boundary(b, spans[k].1 as int)
        }
    &&& forall|k: int| 0 < k < spans.len() ==> spans[k - 1].1 <= #[trigger] spans[k].0
}

/// Where the text after the first `k` matches begins.
pub open spec fn end_of_match(spans: Seq<(usize, usize)>, k: int) -> int {
    if k <= 0 {
        0
    } else {
        spans[k - 1].1 as int
    }
}

/// The text between two matches, as a word when it is not empty.
pub open spec fn gap_word(b: Seq<u8>, from: int, to: int) -> Seq<Seq<u8>> {
    if from != to {
        seq![b.subrange(from, to)]
    } else {
        seq![]
    }
}

/// A match, as a word when something is left of it once trimmed.
pub open spec fn match_word(b: Seq<u8>, start: int, end: int) -> Seq<Seq<u8>> {
    if trimmed(b.subrange(start, end)).len() > 0 {
        seq![b.subrange(start, end)]
    } else {
        seq![]
    }
}

/// The words emitted up to the `n`-th match, that match included.
pub open spec fn words_upto(b: Seq<u8>, spans: Seq<(usize, usize)>, n: nat) -> Seq<Seq<u8>>
    decreases n,
{
    if n == 0 {
        seq![]
    } else {
        let k = n - 1;
        words_upto(b, spans, k as nat) + gap_word(b, end_of_match(spans, k), spans[k].0 as int)
            + match_word(b, spans[k].0 as int, spans[k].1 as int)
    }
}

/// All the words of a text, given by its bytes and its delimiter matches.
pub open spec fn split_spec(b: Seq<u8>, spans: Seq<(usize, usize)>) -> Seq<Seq<u8>> {
    words_upto(b, spans, spans.len()) + gap_word(b, end_of_match(spans, spans.len() as int), b.len() as int)
}

/// The bytes of each word.
pub open spec fn bytes_of(words: Seq<&str>) -> Seq<Seq<u8>> {
    words.map_values(|w: &str| w.spec_bytes())
}

/// Cuts `text` into words around the delimiter matches `spans`: the non-empty
/// text between two matches is a word, and so is a match that is not blank.
pub fn words_from_spans<'a>(text: &'a str, spans: &Vec<(usize, usize)>) -> (r: Vec<&'a str>)
    requires
        spans_valid(text.spec_bytes(), spans@),
    ensures
        bytes_of(r@) == split_spec(text.spec_bytes(), spans@),
        forall|i: int| 0 <= i < r@.len() ==> (#[trigger] r@[i]).spec_bytes().len() > 0,
{
    let ghost b = text.spec_bytes();
    proof {
        is_char_boundary_start_end_of_seq(b);
    }
    let mut words: Vec<&'a str> = Vec::new();
    let mut prev_end: usize = 0;
    let mut k: usize = 0;
    while k < spans.len()
        invariant
            b == text.spec_bytes(),
            is_char_boundary(b, 0),
            is_char_boundary(b, b.len() as int),
            spans_valid(b, spans@),
            k <= spans.len(),
            prev_end == end_of_match(spans@, k as int),
            prev_end <= b.len(),
            is_char_boundary(b, prev_end as int),
            bytes_of(words@) == words_upto(b, spans@, k as nat),
            forall|i: int| 0 <= i < words@.len() ==> (#[trigger] words@[i]).spec_bytes().len() > 0,
        decreases spans.len() - k,
    {
        let (start, end) = spans[k];
        assert(spans@[k as int] == (start, end));
        let ghost before = words@;
        if start != prev_end {
            let gap = slice(text, prev_end, start);
            words.push(gap);
        }
        let ghost mid = words@;
        assert(bytes_of(mid) =~= bytes_of(before) + gap_word(b, prev_end as int, start as int));
        let piece = slice(text, start, end);
        let kept = trim(piece);
        if kept.len() != 0 {
            words.push(piece);
        }
        assert(bytes_of(words@) =~= bytes_of(mid) + match_word(b, start as int, end as int));
        prev_end = end;
        k = k + 1;
    }
    let ghost before = words@;
    let n = text.as_bytes().len();
    if prev_end != n {
        let rest = slice(text, prev_end, n);
        words.push(rest);
    }
    assert(bytes_of(words@) =~= bytes_of(before) + gap_word(b, prev_end as int, b.len() as int));
    words
}

/// Splits `text` into words: runs of whitespace separate words and are
/// dropped, and each `;` is a word of its own.
pub fn split_words(text: &str) -> (r: Vec<&str>)
    ensures
        bytes_of(r@) == split_spec(text.spec_bytes(), delimiter_matches(text.spec_bytes())),
        forall|i: int| 0 <= i < r@.len() ==> (#[trigger] r@[i]).spec_bytes().len() > 0,
{
    let delimiters = Delimiters::new();
    match delimiters {
        Some(d) => {
            let spans = d.spans(text);
            words_from_spans(text, &spans)
        },
        None => {
            assert(false);
            Vec::new()
        },
    }
}

/// A lexical unit of the DOT subset.
#[derive(Debug, PartialEq, Eq)]
pub enum Token {
    Graph,
    Digraph,
    LeftBracket,
    RightBracket,
    Semicolon,
    DirectedEdgeOp,
    UndirectedEdgeOp,
    Identifier(String),
}

impl Clone for Token {
    fn clone(&self) -> (r: Self)
        ensures
            r == *self,
    {
        match self {
            Token::Graph => Token::Graph,
            Token::Digraph => Token::Digraph,
            Token::LeftBracket => Token::LeftBracket,
            Token::RightBracket => Token::RightBracket,
            Token::Semicolon => Token::Semicolon,
            Token::DirectedEdgeOp => Token::DirectedEdgeOp,
            Token::UndirectedEdgeOp => Token::UndirectedEdgeOp,
            Token::Identifier(name) => Token::Identifier(name.clone()),
        }
    }
}

/// `t` is the token that the word `w` stands for: one of the seven fixed
/// keywords and operators, or else an identifier holding the word.
pub open spec fn is_token_of(t: Token, w: Seq<char>) -> bool {
    if w == "graph"@ {
        t == Token::Graph
    } else if w == "digraph"@ {
        t == Token::Digraph
    } else if w == "{"@ {
        t == Token::LeftBracket
    } else if w == "}"@ {
        t == Token::RightBracket
    } else if w == ";"@ {
        t == Token::Semicolon
    } else if w == "->"@ {
        t == Token::DirectedEdgeOp
    } else if w == "--"@ {
        t == Token::UndirectedEdgeOp
    } else {
        t matches Token::Identifier(name) && name@ == w
    }
}

/// Classifies one word, without regard to where it stands.
pub fn word_to_token(word: &str) -> (r: Token)
    ensures
        is_token_of(r, word@),
{
    if same_text(word, "graph") {
        Token::Graph
    } else if same_text(word, "digraph") {
        Token::Digraph
    } else if same_text(word, "{") {
        Token::LeftBracket
    } else if same_text(word, "}") {
        Token::RightBracket
    } else if same_text(word, ";") {
        Token::Semicolon
    } else if same_text(word, "->") {
        Token::DirectedEdgeOp
    } else if same_text(word, "--") {
        Token::UndirectedEdgeOp
    } else {
        Token::Identifier(word.to_owned())
    }
}

/// Classifies each word in turn.
pub fn words_to_tokens(words: &Vec<&str>) -> (r: Vec<Token>)
    ensures
        r@.len() == words@.len(),
        forall|i: int| 0 <= i < r@.len() ==> is_token_of(#[trigger] r@[i], words@[i]@),
{
    let mut tokens: Vec<Token> = Vec::new();
    let mut i: usize = 0;
    while i < words.len()
        invariant
            i <= words@.len(),
            tokens@.len() == i,
            forall|j: int| 0 <= j < i ==> is_token_of(#[trigger] tokens@[j], words@[j]@),
        decreases words@.len() - i,
    {
        tokens.push(word_to_token(words[i]));
        i = i + 1;
    }
    tokens
}

} // verus!
