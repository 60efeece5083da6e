//! The statement parser: a finite-state machine from tokens to a graph.

use vstd::prelude::*;

use crate::graph::{Graph, GraphModel};
use crate::tokenizer::Token;

verus! {

/// Where the parser stands in the grammar.
#[derive(Debug, Clone, Copy, PartialEq, Eq, Structural)]
pub enum ParserState {
    Start,
    ExpectGraphName,
    ExpectLBracket,
    ExpectNodeName,
    ExpectEdgeOrSemicolon,
    ExpectNodeNameOrRBracket,
    End,
}

/// Why a token stream is not a graph of the supported subset.
#[derive(Debug, PartialEq, Eq)]
pub enum SyntaxError {
    /// The token has no transition from the state.
    UnexpectedToken { token: Token, state: ParserState },
    /// The tokens ran out before the closing bracket.
    UnexpectedEnd { state: ParserState },
    /// A token follows the closing bracket.
    TrailingToken { token: Token },
}

/// What a parser holds, as mathematical values.
pub struct ParserModel {
    pub state: ParserState,
    pub is_directed: bool,
    pub graph_name: Seq<char>,
    pub nodes: Seq<Seq<char>>,
    pub adjacency: Seq<Seq<usize>>,
    pub chain: Seq<usize>,
}

/// The parser before its first token.
pub open spec fn initial_model() -> ParserModel {
    ParserModel {
        state: ParserState::Start,
        is_directed: false,
        graph_name: seq![],
        nodes: seq![],
        adjacency: seq![],
        chain: seq![],
    }
}

/// Names are distinct, each has a list of neighbours, and the chain holds
/// indices of known nodes; it is empty outside a statement.
pub open spec fn model_wf(m: ParserModel) -> bool {
    &&& m.adjacency.len() == m.nodes.len()
    &&& (m.state != ParserState::ExpectNodeName && m.state != ParserState::ExpectEdgeOrSemicolon ==> m.chain.len() == 0)
    &&& m.nodes.no_duplicates()
    &&& forall|i: int| 0 <= i < m.chain.len() ==> (#[trigger] m.chain[i]) < m.nodes.len()
}

/// The index of `name` among `nodes`; one past the end where it is absent.
pub open spec fn node_index(nodes: Seq<Seq<char>>, name: Seq<char>) -> int {
    if nodes.contains(name) {
        choose|i: int| 0 <= i < nodes.len() && nodes[i] == name
    } else {
        nodes.len() as int
    }
}

/// The node table after `name` is looked up: unchanged where the name is
/// known, else with the name appended and given an empty neighbour list.
pub open spec fn registered(m: ParserModel, name: Seq<char>) -> ParserModel {
    if m.nodes.contains(name) {
        m
    } else {
        ParserModel { nodes: m.nodes.push(name), adjacency: m.adjacency.push(seq![]), ..m }
    }
}

/// Resolves `name` to its index, registering it first where it is new, and
/// appends the index to the chain.
pub open spec fn add_to_chain(m: ParserModel, name: Seq<char>) -> ParserModel {
    let r = registered(m, name);
    ParserModel {
        chain: m.chain.push(node_index(m.nodes, name) as usize),
        state: ParserState::ExpectEdgeOrSemicolon,
        ..r
    }
}

/// Records the edge from `u` to `v`, and from `v` back to `u` when the
/// graph is undirected.
pub open spec fn link(adj: Seq<Seq<usize>>, u: usize, v: usize, directed: bool) -> Seq<Seq<usize>> {
    let a = adj.update(u as int, adj[u as int].push(v));
    if directed {
        a
    } else {
        a.update(v as int, a[v as int].push(u))
    }
}

/// The adjacency after the first `n` consecutive pairs of the chain.
pub open spec fn flush_upto(adj: Seq<Seq<usize>>, chain: Seq<usize>, directed: bool, n: nat) -> Seq<Seq<usize>>
    decreases n,
{
    if n == 0 {
        adj
    } else {
        link(flush_upto(adj, chain, directed, (n - 1) as nat), chain[n - 1], chain[n as int], directed)
    }
}

/// The adjacency after every consecutive pair of the chain.
pub open spec fn flush(adj: Seq<Seq<usize>>, chain: Seq<usize>, directed: bool) -> Seq<Seq<usize>> {
    if chain.len() <= 1 {
        adj
    } else {
        flush_upto(adj, chain, directed, (chain.len() - 1) as nat)
    }
}

/// One transition of the machine.
pub open spec fn step(m: ParserModel, t: Token) -> Result<ParserModel, SyntaxError> {
    let refused = Err(SyntaxError::UnexpectedToken { token: t, state: m.state });
    match m.state {
        ParserState::Start => match t {
            Token::Graph => Ok(ParserModel { state: ParserState::ExpectGraphName, is_directed: false, ..m }),
            Token::Digraph => Ok(ParserModel { state: ParserState::ExpectGraphName, is_directed: true, ..m }),
            _ => refused,
        },
        ParserState::ExpectGraphName => match t {
            Token::Identifier(name) => Ok(ParserModel { state: ParserState::ExpectLBracket, graph_name: name@, ..m }),
            _ => refused,
        },
        ParserState::ExpectLBracket => match t {
            Token::LeftBracket => Ok(ParserModel { state: ParserState::ExpectNodeName, ..m }),
            _ => refused,
        },
        ParserState::ExpectNodeName => match t {
            Token::Identifier(name) => Ok(add_to_chain(m, name@)),
            _ => refused,
        },
        ParserState::ExpectEdgeOrSemicolon => match t {
            Token::DirectedEdgeOp => if m.is_directed {
                Ok(ParserModel { state: ParserState::ExpectNodeName, ..m })
            } else {
                refused
            },
            Token::UndirectedEdgeOp => if !m.is_directed {
                Ok(ParserModel { state: ParserState::ExpectNodeName, ..m })
            } else {
                refused
            },
            Token::Semicolon => Ok(
                ParserModel {
                    state: ParserState::ExpectNodeNameOrRBracket,
                    adjacency: flush(m.adjacency, m.chain, m.is_directed),
                    chain: seq![],
                    ..m
                },
            ),
            _ => refused,
        },
        ParserState::ExpectNodeNameOrRBracket => match t {
            Token::Identifier(name) => Ok(add_to_chain(m, name@)),
            Token::RightBracket => Ok(ParserModel { state: ParserState::End, ..m }),
            _ => refused,
        },
        ParserState::End => refused,
    }
}

/// Runs the machine over `toks` until it ends; the tokens must run out exactly
/// there.
pub open spec fn run(m: ParserModel, toks: Seq<Token>) -> Result<ParserModel, SyntaxError>
    decreases toks.len(),
{
    if m.state == ParserState::End {
        if toks.len() == 0 {
            Ok(m)
        } else {
            Err(SyntaxError::TrailingToken { token: toks[0] })
        }
    } else if toks.len() == 0 {
        Err(SyntaxError::UnexpectedEnd { state: m.state })
    } else {
        match step(m, toks[0]) {
            Ok(next) => run(next, toks.drop_first()),
            Err(e) => Err(e),
        }
    }
}

/// The graph that a parser in model `m` has built.
pub open spec fn graph_of(m: ParserModel) -> GraphModel {
    GraphModel { is_directed: m.is_directed, nodes: m.nodes, adjacency: m.adjacency }
}

/// What a whole token stream decodes to.
pub open spec fn parse_spec(toks: Seq<Token>) -> Result<GraphModel, SyntaxError> {
    match run(initial_model(), toks) {
        Ok(m) => Ok(graph_of(m)),
        Err(e) => Err(e),
    }
}

/// `r` is the exec form of `expected`.
pub open spec fn decodes_as(r: Result<Graph, SyntaxError>, expected: Result<GraphModel, SyntaxError>) -> bool {
    match expected {
        Ok(g) => r matches Ok(x) && x@ == g,
        Err(e) => r == Err::<Graph, SyntaxError>(e),
    }
}

/// A parser for one graph: its state, the node table, the chain of the
/// statement being read, and the graph built so far.
pub struct Parser {
    state: ParserState,
    is_directed: bool,
    graph_name: String,
    nodes: Vec<String>,
    adjacency: Vec<Vec<usize>>,
    current_chain: Vec<usize>,
}

impl View for Parser {
    type V = ParserModel;

    closed spec fn view(&self) -> ParserModel {
        ParserModel {
            state: self.state,
            is_directed: self.is_directed,
            graph_name: self.graph_name@,
            nodes: self.nodes@.map_values(|s: String| s@),
            adjacency: self.adjacency@.map_values(|row: Vec<usize>| row@),
            chain: self.current_chain@,
        }
    }
}

impl Parser {
    /// The parser's model is well formed.
    pub open spec fn wf(&self) -> bool {
        model_wf(self@)
    }

    /// A parser in its initial state.
    pub fn new() -> (r: Self)
        ensures
            r@ == initial_model(),
            r.wf(),
    {
        let r = Parser {
            state: ParserState::Start,
            is_directed: false,
            graph_name: String::new(),
            nodes: Vec::new(),
            adjacency: Vec::new(),
            current_chain: Vec::new(),
        };
        assert(r@.nodes =~= seq![]);
        assert(r@.adjacency =~= seq![]);
        r
    }

    /// Looks `name` up in the node table, registering it where it is new.
    fn get_node_index(&mut self, name: String) -> (r: usize)
        requires
            old(self).wf(),
        ensures
            final(self)@ == registered(old(self)@, name@),
            r == node_index(old(self)@.nodes, name@),
            final(self).wf(),
            r < final(self)@.nodes.len(),
    {
        let ghost m = self@;
        let mut i: usize = 0;
        while i < self.nodes.len()
            invariant
                *self == *old(self),
                m == self@,
                model_wf(m),
                i <= m.nodes.len(),
                forall|j: int| 0 <= j < i ==> m.nodes[j] != name@,
            decreases m.nodes.len() - i,
        {
            if self.nodes[i] == name {
                proof {
                    assert(m.nodes[i as int] == name@);
                    assert(m.nodes.contains(name@));
                    let k = node_index(m.nodes, name@);
                    assert(m.nodes[k] == name@);
                    assert(k == i) by {
                        if k != i {
                            assert(m.nodes.no_duplicates());
                        }
                    }
                }
                return i;
            }
            i = i + 1;
        }
        proof {
            assert(!m.nodes.contains(name@)) by {
                if m.nodes.contains(name@) {
                    let j = choose|j: int| 0 <= j < m.nodes.len() && m.nodes[j] == name@;
                    assert(m.nodes[j] != name@);
                }
            }
        }
        let index = self.nodes.len();
        self.nodes.push(name);
        self.adjacency.push(Vec::new());
        proof {
            let r = registered(m, name@);
            assert(self@.nodes =~= r.nodes);
            assert(self@.adjacency =~= r.adjacency);
            assert(self@.nodes.no_duplicates()) by {
                assert forall|a: int, b: int|
                    0 <= a < self@.nodes.len() && 0 <= b < self@.nodes.len() && a != b implies
                    self@.nodes[a] != self@.nodes[b] by {
                    if a < m.nodes.len() && b < m.nodes.len() {
                    } else if a == m.nodes.len() {
                        assert(m.nodes.contains(m.nodes[b]));
                    } else {
                        assert(m.nodes.contains(m.nodes[a]));
                    }
                }
            }
        }
        index
    }

    /// Records the edge from `u` to `v`.
    fn add_directed_edge(&mut self, u: usize, v: usize)
        requires
            old(self).wf(),
            u < old(self)@.nodes.len(),
            v < old(self)@.nodes.len(),
        ensures
            final(self)@ == (ParserModel { adjacency: link(old(self)@.adjacency, u, v, true), ..old(self)@ }),
            final(self).wf(),
    {
        self.adjacency[u].push(v);
        assert(self@.adjacency =~= link(old(self)@.adjacency, u, v, true));
    }

    /// Records the edge between `u` and `v` at both of its ends.
    fn add_undirected_edge(&mut self, u: usize, v: usize)
        requires
            old(self).wf(),
            u < old(self)@.nodes.len(),
            v < old(self)@.nodes.len(),
        ensures
            final(self)@ == (ParserModel { adjacency: link(old(self)@.adjacency, u, v, false), ..old(self)@ }),
            final(self).wf(),
    {
        self.adjacency[u].push(v);
        self.adjacency[v].push(u);
        assert(self@.adjacency =~= link(old(self)@.adjacency, u, v, false));
    }

    /// Turns the chain of the statement just ended into edges between
    /// consecutive nodes, then empties it.
    fn persist_current_chain(&mut self)
        requires
            old(self).wf(),
        ensures
            final(self)@ == (ParserModel {
                adjacency: flush(old(self)@.adjacency, old(self)@.chain, old(self)@.is_directed),
                chain: seq![],
                ..old(self)@
            }),
            final(self).wf(),
    {
        let ghost m = self@;
        let n = self.current_chain.len();
        if n >= 2 {
            let mut i: usize = 0;
            while i + 1 < n
                invariant
                    self.wf(),
                    model_wf(m),
                    n == m.chain.len(),
                    i + 1 <= n,
                    self@ == (ParserModel { adjacency: flush_upto(m.adjacency, m.chain, m.is_directed, i as nat), ..m }),
                decreases n - i,
            {
                let u = self.current_chain[i];
                let v = self.current_chain[i + 1];
                assert(u == m.chain[i as int] && v == m.chain[i + 1]);
                assert(m.chain[i as int] < m.nodes.len() && m.chain[i + 1] < m.nodes.len());
                assert(self@.nodes == m.nodes);
                if self.is_directed {
                    self.add_directed_edge(u, v);
                } else {
                    self.add_undirected_edge(u, v);
                }
                i = i + 1;
            }
        }
        self.current_chain.clear();
        assert(self@.chain =~= seq![]);
    }

    /// Consumes one token: performs its transition, or reports the token and
    /// the state where none exists.
    fn parse_token(&mut self, token: Token) -> (r: Result<(), SyntaxError>)
        requires
            old(self).wf(),
        ensures
            match step(old(self)@, token) {
                Ok(m) => r is Ok && final(self)@ == m && final(self).wf(),
                Err(e) => r == Err::<(), SyntaxError>(e),
            },
    {
        let state = self.state;
        match state {
            ParserState::Start => match token {
                Token::Graph => {
                    self.is_directed = false;
                    self.state = ParserState::ExpectGraphName;
                },
                Token::Digraph => {
                    self.is_directed = true;
                    self.state = ParserState::ExpectGraphName;
                },
                other => {
                    return Err(SyntaxError::UnexpectedToken { token: other, state });
                },
            },
            ParserState::ExpectGraphName => match token {
                Token::Identifier(name) => {
                    self.graph_name = name;
                    self.state = ParserState::ExpectLBracket;
                },
                other => {
                    return Err(SyntaxError::UnexpectedToken { token: other, state });
                },
            },
            ParserState::ExpectLBracket => match token {
                Token::LeftBracket => {
                    self.state = ParserState::ExpectNodeName;
                },
                other => {
                    return Err(SyntaxError::UnexpectedToken { token: other, state });
                },
            },
            ParserState::ExpectNodeName | ParserState::ExpectNodeNameOrRBracket => match token {
                Token::Identifier(name) => {
                    let index = self.get_node_index(name);
                    self.current_chain.push(index);
                    self.state = ParserState::ExpectEdgeOrSemicolon;
                },
                Token::RightBracket if state == ParserState::ExpectNodeNameOrRBracket => {
                    self.state = ParserState::End;
                },
                other => {
                    return Err(SyntaxError::UnexpectedToken { token: other, state });
                },
            },
            ParserState::ExpectEdgeOrSemicolon => match token {
                Token::DirectedEdgeOp if self.is_directed => {
                    self.state = ParserState::ExpectNodeName;
                },
                Token::UndirectedEdgeOp if !self.is_directed => {
                    self.state = ParserState::ExpectNodeName;
                },
                Token::Semicolon => {
                    self.persist_current_chain();
                    self.state = ParserState::ExpectNodeNameOrRBracket;
                },
                other => {
                    return Err(SyntaxError::UnexpectedToken { token: other, state });
                },
            },
            ParserState::End => {
                return Err(SyntaxError::UnexpectedToken { token, state });
            },
        }
        Ok(())
    }

    /// Runs the machine over `tokens` to the closing bracket, and hands out
    /// the graph built. Fails on the first token without a transition, when
    /// the tokens run out first, or when any token follows the bracket.
    pub fn parse(&mut self, tokens: Vec<Token>) -> (r: Result<Graph, SyntaxError>)
        requires
            old(self).wf(),
        ensures
            decodes_as(
                r,
                match run(old(self)@, tokens@) {
                    Ok(m) => Ok(graph_of(m)),
                    Err(e) => Err(e),
                },
            ),
    {
        let mut i: usize = 0;
        assert(tokens@.subrange(0, tokens@.len() as int) =~= tokens@);
        while self.state != ParserState::End
            invariant
                self.wf(),
                i <= tokens@.len(),
                run(self@, tokens@.subrange(i as int, tokens@.len() as int)) == run(old(self)@, tokens@),
            decreases tokens@.len() - i,
        {
            let ghost rest = tokens@.subrange(i as int, tokens@.len() as int);
            if i >= tokens.len() {
                return Err(SyntaxError::UnexpectedEnd { state: self.state });
            }
            let token = tokens[i].clone();
            assert(token == rest[0]);
            match self.parse_token(token) {
                Ok(()) => {},
                Err(e) => {
                    return Err(e);
                },
            }
            assert(rest.drop_first() =~= tokens@.subrange(i + 1, tokens@.len() as int));
            i = i + 1;
        }
        if i < tokens.len() {
            return Err(SyntaxError::TrailingToken { token: tokens[i].clone() });
        }
        let mut nodes: Vec<String> = Vec::new();
        let mut adjacency: Vec<Vec<usize>> = Vec::new();
        std::mem::swap(&mut nodes, &mut self.nodes);
        std::mem::swap(&mut adjacency, &mut self.adjacency);
        Ok(Graph { is_directed: self.is_directed, nodes, adjacency })
    }
}

} // verus!
