//! Properties of the tokenizer and the parser, stated over their models.

use vstd::prelude::*;

use crate::parser::{
    add_to_chain, flush, flush_upto, initial_model, link, model_wf, node_index, parse_spec, run, step, ParserModel,
    ParserState, SyntaxError,
};
use crate::tokenizer::{end_of_match, gap_word, match_word, spans_valid, split_spec, trimmed, words_upto, Token};
use vstd::seq_lib::lemma_flatten_concat;

verus! {

/// A match as a piece of the text; left out where `drop_blank` holds and
/// nothing remains of it once trimmed.
pub open spec fn match_piece(m: Seq<u8>, drop_blank: bool) -> Seq<Seq<u8>> {
    if drop_blank && trimmed(m).len() == 0 {
        seq![]
    } else {
        seq![m]
    }
}

/// The pieces that the first `n` matches cut a text into: the gap before
/// each match, then the match.
pub open spec fn pieces_upto(b: Seq<u8>, spans: Seq<(usize, usize)>, n: nat, drop_blank: bool) -> Seq<Seq<u8>>
    decreases n,
{
    if n == 0 {
        seq![]
    } else {
        let k = n - 1;
        pieces_upto(b, spans, k as nat, drop_blank) + seq![b.subrange(end_of_match(spans, k), spans[k].0 as int)]
            + match_piece(b.subrange(spans[k].0 as int, spans[k].1 as int), drop_blank)
    }
}

/// All the pieces of a text: gaps and matches in turn, then what follows
/// the last match.
pub open spec fn pieces(b: Seq<u8>, spans: Seq<(usize, usize)>, drop_blank: bool) -> Seq<Seq<u8>> {
    pieces_upto(b, spans, spans.len(), drop_blank) + seq![
        b.subrange(end_of_match(spans, spans.len() as int), b.len() as int),
    ]
}

proof fn lemma_pieces_upto(b: Seq<u8>, spans: Seq<(usize, usize)>, n: nat)
    requires
        spans_valid(b, spans),
        n <= spans.len(),
    ensures
        pieces_upto(b, spans, n, false).flatten() == b.subrange(0, end_of_match(spans, n as int)),
        words_upto(b, spans, n).flatten() == pieces_upto(b, spans, n, true).flatten(),
    decreases n,
{
    if n == 0 {
        assert(b.subrange(0, 0) =~= Seq::<u8>::empty());
    } else {
        let k = (n - 1) as int;
        lemma_pieces_upto(b, spans, (n - 1) as nat);
        let p = end_of_match(spans, k);
        let s = spans[k].0 as int;
        let e = spans[k].1 as int;
        assert(p <= s) by {
            if k > 0 {
                assert(spans[k - 1].1 <= spans[k].0);
            }
        }
        let gap = seq![b.subrange(p, s)];
        let m = b.subrange(s, e);
        let prev_all = pieces_upto(b, spans, (n - 1) as nat, false);
        let prev_kept = pieces_upto(b, spans, (n - 1) as nat, true);
        let prev_words = words_upto(b, spans, (n - 1) as nat);
        lemma_flatten_concat(prev_all + gap, match_piece(m, false));
        lemma_flatten_concat(prev_all, gap);
        gap.lemma_flatten_one_element();
        seq![m].lemma_flatten_one_element();
        assert(b.subrange(0, p) + b.subrange(p, s) + m =~= b.subrange(0, e));
        lemma_flatten_concat(prev_kept + gap, match_piece(m, true));
        lemma_flatten_concat(prev_kept, gap);
        lemma_flatten_concat(prev_words + gap_word(b, p, s), match_word(b, s, e));
        lemma_flatten_concat(prev_words, gap_word(b, p, s));
        if p == s {
            assert(gap_word(b, p, s).flatten() =~= gap.flatten());
        } else {
            gap_word(b, p, s).lemma_flatten_one_element();
        }
        assert(match_word(b, s, e) == match_piece(m, true));
    }
}

/// Splitting loses nothing: the gaps and matches, in turn, make up the whole
/// text, and the words make up the same text with only the blank matches
/// (runs of whitespace) left out.
pub proof fn lemma_split_reconstructs(b: Seq<u8>, spans: Seq<(usize, usize)>)
    requires
        spans_valid(b, spans),
    ensures
        pieces(b, spans, false).flatten() == b,
        split_spec(b, spans).flatten() == pieces(b, spans, true).flatten(),
{
    let n = spans.len();
    lemma_pieces_upto(b, spans, n);
    let p = end_of_match(spans, n as int);
    let tail = seq![b.subrange(p, b.len() as int)];
    assert(0 <= p <= b.len()) by {
        if n > 0 {
            assert(spans[n - 1].1 <= b.len());
        }
    }
    lemma_flatten_concat(pieces_upto(b, spans, n, false), tail);
    lemma_flatten_concat(pieces_upto(b, spans, n, true), tail);
    lemma_flatten_concat(words_upto(b, spans, n), gap_word(b, p, b.len() as int));
    tail.lemma_flatten_one_element();
    assert(b.subrange(0, p) + b.subrange(p, b.len() as int) =~= b);
    if p == b.len() {
        assert(gap_word(b, p, b.len() as int).flatten() =~= tail.flatten());
    } else {
        gap_word(b, p, b.len() as int).lemma_flatten_one_element();
    }
}

/// The successors that the first `n` consecutive pairs of `chain` give `x`:
/// the second node of each pair whose first node is `x`.
pub open spec fn successors_upto(chain: Seq<usize>, x: usize, n: nat) -> Seq<usize>
    decreases n,
{
    if n == 0 {
        seq![]
    } else {
        let k = n - 1;
        let prev = successors_upto(chain, x, k as nat);
        if chain[k] == x {
            prev.push(chain[k + 1])
        } else {
            prev
        }
    }
}

/// The neighbours that the first `n` consecutive pairs of `chain` give `x`
/// when edges have no direction: for each pair in turn, the other end where
/// `x` is its first node, then where `x` is its second.
pub open spec fn incident_upto(chain: Seq<usize>, x: usize, n: nat) -> Seq<usize>
    decreases n,
{
    if n == 0 {
        seq![]
    } else {
        let k = n - 1;
        let prev = incident_upto(chain, x, k as nat);
        let out = if chain[k] == x {
            prev.push(chain[k + 1])
        } else {
            prev
        };
        if chain[k + 1] == x {
            out.push(chain[k])
        } else {
            out
        }
    }
}

/// The number of consecutive pairs of a chain.
pub open spec fn pairs(chain: Seq<usize>) -> nat {
    if chain.len() <= 1 {
        0
    } else {
        (chain.len() - 1) as nat
    }
}

/// Every node of the chain has a neighbour list.
pub open spec fn chain_in_range(adj: Seq<Seq<usize>>, chain: Seq<usize>) -> bool {
    forall|i: int| 0 <= i < chain.len() ==> (#[trigger] chain[i]) < adj.len()
}

proof fn lemma_flush_upto(adj: Seq<Seq<usize>>, chain: Seq<usize>, directed: bool, n: nat)
    requires
        chain_in_range(adj, chain),
        n <= pairs(chain),
    ensures
        flush_upto(adj, chain, directed, n).len() == adj.len(),
        forall|x: usize|
            (x as int) < adj.len() ==> #[trigger] flush_upto(adj, chain, directed, n)[x as int] == adj[x as int]
                + if directed {
                successors_upto(chain, x, n)
            } else {
                incident_upto(chain, x, n)
            },
    decreases n,
{
    if n > 0 {
        let k = (n - 1) as int;
        lemma_flush_upto(adj, chain, directed, (n - 1) as nat);
        let prev = flush_upto(adj, chain, directed, (n - 1) as nat);
        let u = chain[k];
        let v = chain[k + 1];
        assert(u < adj.len() && v < adj.len());
        assert forall|x: usize| (x as int) < adj.len() implies #[trigger] flush_upto(adj, chain, directed, n)[x as int]
            == adj[x as int] + if directed {
            successors_upto(chain, x, n)
        } else {
            incident_upto(chain, x, n)
        } by {
            assert(prev[x as int] == adj[x as int] + if directed {
                successors_upto(chain, x, (n - 1) as nat)
            } else {
                incident_upto(chain, x, (n - 1) as nat)
            });
            assert(flush_upto(adj, chain, directed, n) == link(prev, u, v, directed));
            let s = successors_upto(chain, x, (n - 1) as nat);
            let c = incident_upto(chain, x, (n - 1) as nat);
            if directed {
                if u == x {
                    assert(adj[x as int] + s.push(v) =~= (adj[x as int] + s).push(v));
                }
            } else {
                let out = if u == x { c.push(v) } else { c };
                if u == x {
                    assert(adj[x as int] + c.push(v) =~= (adj[x as int] + c).push(v));
                }
                if v == x {
                    assert(adj[x as int] + out.push(u) =~= (adj[x as int] + out).push(u));
                }
            }
        }
    }
}

/// In a directed graph, a statement's chain adds to each node's list exactly
/// the nodes that directly follow it in the chain, in order, and nothing to
/// the nodes that precede it.
pub proof fn lemma_directed_chain_edges(adj: Seq<Seq<usize>>, chain: Seq<usize>, x: usize)
    requires
        chain_in_range(adj, chain),
        (x as int) < adj.len(),
    ensures
        flush(adj, chain, true).len() == adj.len(),
        flush(adj, chain, true)[x as int] == adj[x as int] + successors_upto(chain, x, pairs(chain)),
{
    lemma_flush_upto(adj, chain, true, pairs(chain));
}

/// In an undirected graph, a statement's chain records each consecutive pair
/// at both of its ends: each node's list gains the nodes next to it in the
/// chain on either side.
pub proof fn lemma_undirected_chain_edges(adj: Seq<Seq<usize>>, chain: Seq<usize>, x: usize)
    requires
        chain_in_range(adj, chain),
        (x as int) < adj.len(),
    ensures
        flush(adj, chain, false).len() == adj.len(),
        flush(adj, chain, false)[x as int] == adj[x as int] + incident_upto(chain, x, pairs(chain)),
{
    lemma_flush_upto(adj, chain, false, pairs(chain));
}

/// Whether the machine stands inside the graph's body.
pub open spec fn in_body(s: ParserState) -> bool {
    s == ParserState::ExpectNodeName || s == ParserState::ExpectEdgeOrSemicolon || s
        == ParserState::ExpectNodeNameOrRBracket
}

/// Inside the body of a directed graph the undirected operator `--` is
/// refused, and inside the body of an undirected graph the directed operator
/// `->`: the parse fails on that token and yields no graph.
pub proof fn lemma_wrong_operator_rejected(m: ParserModel, toks: Seq<Token>)
    requires
        in_body(m.state),
        toks.len() > 0,
        toks[0] == (if m.is_directed {
            Token::UndirectedEdgeOp
        } else {
            Token::DirectedEdgeOp
        }),
    ensures
        run(m, toks) == Err::<ParserModel, SyntaxError>(SyntaxError::UnexpectedToken { token: toks[0], state: m.state }),
{
}

/// The edge operator that a graph of the given kind refuses.
pub open spec fn wrong_operator(directed: bool) -> Token {
    if directed {
        Token::UndirectedEdgeOp
    } else {
        Token::DirectedEdgeOp
    }
}

proof fn lemma_wrong_operator_ahead(m: ParserModel, toks: Seq<Token>, i: int)
    requires
        m.state != ParserState::Start,
        0 <= i < toks.len(),
        toks[i] == wrong_operator(m.is_directed),
    ensures
        run(m, toks) is Err,
    decreases toks.len(),
{
    if m.state != ParserState::End && i > 0 {
        if let Ok(next) = step(m, toks[0]) {
            assert(toks.drop_first()[i - 1] == toks[i]);
            lemma_wrong_operator_ahead(next, toks.drop_first(), i - 1);
        }
    }
}

/// A `digraph` that holds the operator `--` anywhere after its keyword, or a
/// `graph` that holds `->`, is refused as a whole: no graph comes out.
pub proof fn lemma_wrong_operator_fails_parse(toks: Seq<Token>, i: int)
    requires
        toks.len() > 0,
        toks[0] == Token::Digraph || toks[0] == Token::Graph,
        0 < i < toks.len(),
        toks[i] == wrong_operator(toks[0] == Token::Digraph),
    ensures
        parse_spec(toks) is Err,
{
    let m1 = step(initial_model(), toks[0])->Ok_0;
    assert(run(initial_model(), toks) == run(m1, toks.drop_first()));
    assert(toks.drop_first()[i - 1] == toks[i]);
    lemma_wrong_operator_ahead(m1, toks.drop_first(), i - 1);
}

/// A token after the closing bracket makes the whole parse fail.
pub proof fn lemma_trailing_token_rejected(m: ParserModel, toks: Seq<Token>, extra: Seq<Token>)
    requires
        run(m, toks) is Ok,
        extra.len() > 0,
    ensures
        run(m, toks + extra) is Err,
    decreases toks.len(),
{
    if m.state == ParserState::End {
        assert(toks + extra =~= extra);
    } else {
        assert((toks + extra)[0] == toks[0]);
        assert((toks + extra).drop_first() =~= toks.drop_first() + extra);
        if let Ok(next) = step(m, toks[0]) {
            lemma_trailing_token_rejected(next, toks.drop_first(), extra);
        }
    }
}

/// The name that a token carries, if it is an identifier.
pub open spec fn token_names(t: Token) -> Set<Seq<char>> {
    match t {
        Token::Identifier(name) => set![name@],
        _ => Set::empty(),
    }
}

/// The names of the identifiers among `toks`.
pub open spec fn identifier_names(toks: Seq<Token>) -> Set<Seq<char>> {
    Set::new(|n: Seq<char>| exists|i: int| 0 <= i < toks.len() && token_names(toks[i]).contains(n))
}

proof fn lemma_identifier_names_first(toks: Seq<Token>)
    requires
        toks.len() > 0,
    ensures
        identifier_names(toks) == token_names(toks[0]).union(identifier_names(toks.drop_first())),
{
    let rest = toks.drop_first();
    assert forall|n: Seq<char>| identifier_names(toks).contains(n) implies token_names(toks[0]).union(
        identifier_names(rest),
    ).contains(n) by {
        let i = choose|i: int| 0 <= i < toks.len() && token_names(toks[i]).contains(n);
        if i > 0 {
            assert(rest[i - 1] == toks[i]);
        }
    }
    assert forall|n: Seq<char>| token_names(toks[0]).union(identifier_names(rest)).contains(n) implies identifier_names(
        toks,
    ).contains(n) by {
        if !token_names(toks[0]).contains(n) {
            let i = choose|i: int| 0 <= i < rest.len() && token_names(rest[i]).contains(n);
            assert(toks[i + 1] == rest[i]);
        }
    }
    assert(identifier_names(toks) =~= token_names(toks[0]).union(identifier_names(rest)));
}

proof fn lemma_add_to_chain(m: ParserModel, name: Seq<char>)
    requires
        model_wf(m),
    ensures
        model_wf(add_to_chain(m, name)),
        add_to_chain(m, name).nodes.to_set() == m.nodes.to_set().insert(name),
        add_to_chain(m, name).nodes[node_index(m.nodes, name)] == name,
{
    let r = add_to_chain(m, name);
    if m.nodes.contains(name) {
        let k = node_index(m.nodes, name);
        assert(0 <= k < m.nodes.len() && m.nodes[k] == name);
        assert(m.nodes.to_set().insert(name) =~= m.nodes.to_set());
        assert forall|i: int| 0 <= i < r.chain.len() implies (#[trigger] r.chain[i]) < r.nodes.len() by {
            if i < m.chain.len() {
                assert(r.chain[i] == m.chain[i]);
            }
        }
    } else {
        assert(r.nodes.no_duplicates()) by {
            assert forall|a: int, b: int|
                0 <= a < r.nodes.len() && 0 <= b < r.nodes.len() && a != b implies r.nodes[a] != r.nodes[b] by {
                if a < m.nodes.len() && b < m.nodes.len() {
                } else if a == m.nodes.len() {
                    assert(m.nodes.contains(m.nodes[b]));
                } else {
                    assert(m.nodes.contains(m.nodes[a]));
                }
            }
        }
        assert(r.nodes.to_set() =~= m.nodes.to_set().insert(name)) by {
            assert forall|n: Seq<char>| r.nodes.to_set().contains(n) implies m.nodes.to_set().insert(name).contains(n) by {
                let i = choose|i: int| 0 <= i < r.nodes.len() && r.nodes[i] == n;
                if i < m.nodes.len() {
                    assert(m.nodes.contains(n));
                }
            }
            assert forall|n: Seq<char>| m.nodes.to_set().insert(name).contains(n) implies r.nodes.to_set().contains(n) by {
                if n == name {
                    assert(r.nodes[m.nodes.len() as int] == name);
                } else {
                    let i = choose|i: int| 0 <= i < m.nodes.len() && m.nodes[i] == n;
                    assert(r.nodes[i] == n);
                }
            }
        }
        assert forall|i: int| 0 <= i < r.chain.len() implies (#[trigger] r.chain[i]) < r.nodes.len() by {
            if i < m.chain.len() {
                assert(r.chain[i] == m.chain[i]);
            }
        }
    }
}

proof fn lemma_step_nodes(m: ParserModel, t: Token)
    requires
        model_wf(m),
        step(m, t) is Ok,
    ensures
        model_wf(step(m, t)->Ok_0),
        step(m, t)->Ok_0.nodes.to_set() == if m.state == ParserState::ExpectGraphName {
            m.nodes.to_set()
        } else {
            m.nodes.to_set().union(token_names(t))
        },
        m.state != ParserState::Start && m.state != ParserState::ExpectGraphName ==> step(m, t)->Ok_0.state
            != ParserState::Start && step(m, t)->Ok_0.state != ParserState::ExpectGraphName,
{
    let next = step(m, t)->Ok_0;
    if let Token::Identifier(name) = t {
        if in_body(m.state) {
            lemma_add_to_chain(m, name@);
            assert(m.nodes.to_set().insert(name@) =~= m.nodes.to_set().union(token_names(t)));
        }
    } else {
        assert(m.nodes.to_set().union(token_names(t)) =~= m.nodes.to_set());
        if m.state == ParserState::ExpectEdgeOrSemicolon && t == Token::Semicolon {
            assert forall|i: int| 0 <= i < m.chain.len() implies (#[trigger] m.chain[i]) < m.adjacency.len() by {
                assert(m.chain[i] < m.nodes.len());
            }
            if m.chain.len() > 1 {
                lemma_flush_upto(m.adjacency, m.chain, m.is_directed, pairs(m.chain));
            }
        }
    }
}

proof fn lemma_run_nodes(m: ParserModel, toks: Seq<Token>)
    requires
        model_wf(m),
        m.state != ParserState::Start,
        m.state != ParserState::ExpectGraphName,
        run(m, toks) is Ok,
    ensures
        model_wf(run(m, toks)->Ok_0),
        run(m, toks)->Ok_0.nodes.to_set() == m.nodes.to_set().union(identifier_names(toks)),
    decreases toks.len(),
{
    if m.state == ParserState::End {
        assert(identifier_names(toks) =~= Set::empty());
        assert(m.nodes.to_set().union(Set::empty()) =~= m.nodes.to_set());
    } else {
        let next = step(m, toks[0])->Ok_0;
        lemma_step_nodes(m, toks[0]);
        lemma_run_nodes(next, toks.drop_first());
        lemma_identifier_names_first(toks);
        assert(m.nodes.to_set().union(token_names(toks[0])).union(identifier_names(toks.drop_first())) =~= m.nodes.to_set().union(
            identifier_names(toks),
        ));
    }
}

/// A parse gives each distinct identifier of the body one node, at the index
/// of its first appearance: every later occurrence resolves to that same
/// index, so the node names are distinct and there are as many nodes as
/// distinct names in the body (everything after the graph's name).
pub proof fn lemma_nodes_are_distinct_names(toks: Seq<Token>)
    requires
        run(initial_model(), toks) is Ok,
    ensures
        toks.len() >= 2,
        run(initial_model(), toks)->Ok_0.nodes.no_duplicates(),
        run(initial_model(), toks)->Ok_0.nodes.to_set() == identifier_names(toks.subrange(2, toks.len() as int)),
        run(initial_model(), toks)->Ok_0.nodes.len() == identifier_names(toks.subrange(2, toks.len() as int)).len(),
{
    let m0 = initial_model();
    assert(model_wf(m0));
    assert(toks.len() > 0);
    assert(step(m0, toks[0]) is Ok);
    let m1 = step(m0, toks[0])->Ok_0;
    let t1 = toks.drop_first();
    assert(run(m0, toks) == run(m1, t1));
    assert(m1.state == ParserState::ExpectGraphName);
    assert(t1.len() > 0);
    assert(step(m1, t1[0]) is Ok);
    let m2 = step(m1, t1[0])->Ok_0;
    assert(run(m1, t1) == run(m2, t1.drop_first()));
    assert(model_wf(m2)) by {
        assert(m2.nodes == m0.nodes && m2.adjacency == m0.adjacency && m2.chain == m0.chain);
    }
    lemma_run_nodes(m2, t1.drop_first());
    assert(t1.drop_first() =~= toks.subrange(2, toks.len() as int));
    assert(m2.nodes.to_set() =~= Set::empty());
    let m = run(m0, toks)->Ok_0;
    assert(Set::<Seq<char>>::empty().union(identifier_names(t1.drop_first())) =~= identifier_names(t1.drop_first()));
    m.nodes.unique_seq_to_set();
}

} // verus!
