//! The cubes that a search met as a graph: a node for each cube, with its
//! depth and parity, and an edge for each move from one cube to another.
//! The graph is written as text, a line for each node and then a line for
//! each edge.

use std::collections::HashMap;
use vstd::prelude::*;
use vstd::slice::slice_subrange;
use vstd::std_specs::hash::*;

use crate::action::{Action, Move};
use crate::cube::{moved, solved, spelled, Cube, Position};
use crate::cubelet::Rotation;
use crate::error::ErrorKind;
use crate::store::{code_of, lemma_state_code_injective, state_code, Store};

verus! {

broadcast use vstd::std_specs::hash::group_hash_axioms;

/// What is known of a cube.
#[derive(Clone, Copy, Debug, PartialEq, Eq, Structural)]
pub struct Info {
    pub depth: u8,
    pub parity: u8,
}

/// A line of the text of a graph.
pub enum Line {
    /// A cube, its depth and its parity
    Node(Cube<Position>, u8, u8),
    /// A cube, the cube that a move leads to from it, and the move
    Edge(Cube<Position>, Cube<Position>, Move),
}

/// The digit for a number below ten.
pub open spec fn digit(d: u8) -> u8 {
    (48 + d) as u8
}

/// A number in decimal digits, without zeros in front.
pub open spec fn decimal(n: u8) -> Seq<u8> {
    if n < 10 {
        seq![digit(n)]
    } else if n < 100 {
        seq![digit(n / 10), digit(n % 10)]
    } else {
        seq![digit(n / 100), digit(n / 10 % 10), digit(n % 10)]
    }
}

/// Whether a byte is a decimal digit.
pub open spec fn is_digit(b: u8) -> bool {
    48 <= b <= 57
}

/// A number in decimal has one to three digits, and nothing but digits.
pub proof fn lemma_decimal_shape(n: u8)
    ensures
        1 <= decimal(n).len() <= 3,
        forall|i: int| 0 <= i < decimal(n).len() ==> is_digit(#[trigger] decimal(n)[i]),
{
}

/// Writes a number in decimal digits.
pub fn write_decimal(n: u8) -> (text: Vec<u8>)
    ensures
        text@ == decimal(n),
{
    let text = if n < 10 {
        vec![48 + n]
    } else if n < 100 {
        vec![48 + n / 10, 48 + n % 10]
    } else {
        vec![48 + n / 100, 48 + n / 10 % 10, 48 + n % 10]
    };
    assert(text@ =~= decimal(n));
    text
}

/// Reads a number below 256 from its decimal digits. Text that is the
/// decimal of no such number, as text with a zero in front is none, is
/// refused.
pub fn read_decimal(text: &[u8]) -> (r: Option<u8>)
    ensures
        match r {
            Some(n) => decimal(n) == text@,
            None => forall|n: u8| decimal(n) != text@,
        },
{
    let len = text.len();
    if len == 0 || len > 3 {
        assert forall|n: u8| decimal(n) != text@ by {
            lemma_decimal_shape(n);
        }
        return None;
    }
    let mut i: usize = 0;
    while i < len
        invariant
            i <= len,
            len == text@.len(),
            forall|k: int| 0 <= k < i ==> is_digit(#[trigger] text@[k]),
        decreases len - i,
    {
        if text[i] < 48 || text[i] > 57 {
            assert forall|n: u8| decimal(n) != text@ by {
                lemma_decimal_shape(n);
                if decimal(n) == text@ {
                    assert(is_digit(decimal(n)[i as int]));
                }
            }
            return None;
        }
        i += 1;
    }
    if len == 1 {
        let n = text[0] - 48;
        assert(decimal(n) =~= text@);
        Some(n)
    } else if len == 2 {
        if text[0] == 48 {
            assert forall|n: u8| decimal(n) != text@ by {
                if decimal(n) == text@ {
                    assert(decimal(n)[0] == text@[0]);
                }
            }
            return None;
        }
        let n = (text[0] - 48) * 10 + (text[1] - 48);
        assert(decimal(n) =~= text@);
        Some(n)
    } else {
        let value: u16 = (text[0] - 48) as u16 * 100 + (text[1] - 48) as u16 * 10 + (text[2]
            - 48) as u16;
        if text[0] == 48 || value > 255 {
            assert forall|n: u8| decimal(n) != text@ by {
                if decimal(n) == text@ {
                    assert(decimal(n)[0] == text@[0]);
                    assert(decimal(n)[1] == text@[1]);
                    assert(decimal(n)[2] == text@[2]);
                }
            }
            return None;
        }
        let n = value as u8;
        assert(decimal(n) =~= text@);
        Some(n)
    }
}

impl Line {
    /// The text of a line: for a node, the letters of the cube, its depth
    /// and its parity; for an edge, the letters of the two cubes and the
    /// move; a blank between each two.
    pub open spec fn spelled(self) -> Seq<u8> {
        match self {
            Line::Node(cube, depth, parity) => spelled(cube@) + seq![32u8] + decimal(depth)
                + seq![32u8] + decimal(parity),
            Line::Edge(from, to, m) => spelled(from@) + seq![32u8] + spelled(to@) + seq![32u8]
                + m.spelled(),
        }
    }

    /// Whether the line is the line of a node with the given cube and
    /// what is known of it.
    pub open spec fn is_node(self, cube: Seq<Rotation>, info: Info) -> bool {
        match self {
            Line::Node(c, depth, parity) => c@ == cube && depth == info.depth && parity
                == info.parity,
            Line::Edge(_, _, _) => false,
        }
    }

    /// Whether the line is the line of an edge between the given cubes
    /// with the given move.
    pub open spec fn is_edge(self, from: Seq<Rotation>, to: Seq<Rotation>, m: Move) -> bool {
        match self {
            Line::Node(_, _, _) => false,
            Line::Edge(a, b, made) => a@ == from && b@ == to && made == m,
        }
    }

    /// Whether the line is the line of an edge one of whose cubes a graph
    /// lacks.
    pub open spec fn lacks_a_cube(self, graph: CubeGraph) -> bool {
        match self {
            Line::Node(_, _, _) => false,
            Line::Edge(from, to, _) => graph.node_of(from@) is None || graph.node_of(to@) is None,
        }
    }

    /// Whether a text is that of the line, with or without the end of
    /// line behind it.
    pub open spec fn is_spelled_by(self, text: Seq<u8>) -> bool {
        text == self.spelled() || text == self.spelled().push(10u8)
    }

    /// The text of the line.
    pub fn to_text(&self) -> (text: Vec<u8>)
        ensures
            text@ == self.spelled(),
    {
        match self {
            Line::Node(cube, depth, parity) => {
                let mut text = cube.to_text();
                text.push(32);
                let mut number = write_decimal(*depth);
                text.append(&mut number);
                text.push(32);
                let mut number = write_decimal(*parity);
                text.append(&mut number);
                assert(text@ =~= self.spelled());
                text
            },
            Line::Edge(from, to, m) => {
                let mut text = from.to_text();
                text.push(32);
                let mut letters = to.to_text();
                text.append(&mut letters);
                text.push(32);
                let mut letters = m.to_text();
                text.append(&mut letters);
                assert(text@ =~= self.spelled());
                text
            },
        }
    }

    /// How the text of a line is laid out.
    pub proof fn lemma_shape(self)
        ensures
            match self {
                Line::Node(cube, depth, parity) => {
                    let text = self.spelled();
                    let d = decimal(depth).len() as int;
                    &&& text.len() == 22 + d + decimal(parity).len()
                    &&& text.subrange(0, 20) == spelled(cube@)
                    &&& text[20] == 32
                    &&& text.subrange(21, 21 + d) == decimal(depth)
                    &&& text[21 + d] == 32
                    &&& text.subrange(22 + d, text.len() as int) == decimal(parity)
                },
                Line::Edge(from, to, m) => {
                    let text = self.spelled();
                    &&& text.len() == 45
                    &&& text.subrange(0, 20) == spelled(from@)
                    &&& text[20] == 32
                    &&& text.subrange(21, 41) == spelled(to@)
                    &&& text[41] == 32
                    &&& text.subrange(42, 45) == m.spelled()
                },
            },
            24 <= self.spelled().len() <= 45,
            is_digit(self.spelled().last()),
    {
        match self {
            Line::Node(cube, depth, parity) => {
                let text = self.spelled();
                let d = decimal(depth).len() as int;
                lemma_decimal_shape(depth);
                lemma_decimal_shape(parity);
                assert(text.subrange(0, 20) =~= spelled(cube@));
                assert(text.subrange(21, 21 + d) =~= decimal(depth));
                assert(text.subrange(22 + d, text.len() as int) =~= decimal(parity));
                assert(text.last() == decimal(parity).last());
            },
            Line::Edge(from, to, m) => {
                let text = self.spelled();
                assert(text.subrange(0, 20) =~= spelled(from@));
                assert(text.subrange(21, 41) =~= spelled(to@));
                assert(text.subrange(42, 45) =~= m.spelled());
                assert(text.last() == m.spelled()[2]);
            },
        }
    }

    /// Reads a line from its text without the end of line.
    fn parse_body(body: &[u8]) -> (r: Result<Line, ErrorKind>)
        ensures
            match r {
                Ok(line) => line.spelled() == body@,
                Err(e) => e == ErrorKind::InvalidEncoding && forall|line: Line|
                    #[trigger] line.spelled() != body@,
            },
    {
        let len = body.len();
        if len < 24 || len > 45 {
            assert forall|line: Line| #[trigger] line.spelled() != body@ by {
                line.lemma_shape();
            }
            return Err(ErrorKind::InvalidEncoding);
        }
        let first: Cube<Position> = match Cube::parse(slice_subrange(body, 0, 20)) {
            Ok(cube) => cube,
            Err(_) => {
                assert forall|line: Line| #[trigger] line.spelled() != body@ by {
                    line.lemma_shape();
                    if line.spelled() == body@ {
                        match line {
                            Line::Node(cube, _, _) => {
                                assert(spelled(cube@) == body@.subrange(0, 20));
                            },
                            Line::Edge(from, _, _) => {
                                assert(spelled(from@) == body@.subrange(0, 20));
                            },
                        }
                    }
                }
                return Err(ErrorKind::InvalidEncoding);
            },
        };
        if body[20] != 32 {
            assert forall|line: Line| #[trigger] line.spelled() != body@ by {
                line.lemma_shape();
            }
            return Err(ErrorKind::InvalidEncoding);
        }
        if len == 45 {
            let second: Cube<Position> = match Cube::parse(slice_subrange(body, 21, 41)) {
                Ok(cube) => cube,
                Err(_) => {
                    assert forall|line: Line| #[trigger] line.spelled() != body@ by {
                        line.lemma_shape();
                        if line.spelled() == body@ {
                            match line {
                                Line::Node(_, depth, parity) => {
                                    lemma_decimal_shape(depth);
                                    lemma_decimal_shape(parity);
                                },
                                Line::Edge(_, to, _) => {
                                    assert(spelled(to@) == body@.subrange(21, 41));
                                },
                            }
                        }
                    }
                    return Err(ErrorKind::InvalidEncoding);
                },
            };
            let m = match Move::parse(slice_subrange(body, 42, 45)) {
                Ok(m) => m,
                Err(_) => {
                    assert forall|line: Line| #[trigger] line.spelled() != body@ by {
                        line.lemma_shape();
                        if line.spelled() == body@ {
                            match line {
                                Line::Node(_, depth, parity) => {
                                    lemma_decimal_shape(depth);
                                    lemma_decimal_shape(parity);
                                },
                                Line::Edge(_, _, made) => {
                                    let reduced = Move(made.0, made.1 % 4, made.2 % 4);
                                    assert(reduced.is_reduced());
                                    assert(reduced.spelled() =~= made.spelled());
                                },
                            }
                        }
                    }
                    return Err(ErrorKind::InvalidEncoding);
                },
            };
            if body[41] != 32 {
                assert forall|line: Line| #[trigger] line.spelled() != body@ by {
                    line.lemma_shape();
                    if line.spelled() == body@ {
                        match line {
                            Line::Node(_, depth, parity) => {
                                lemma_decimal_shape(depth);
                                lemma_decimal_shape(parity);
                            },
                            Line::Edge(_, _, _) => {},
                        }
                    }
                }
                return Err(ErrorKind::InvalidEncoding);
            }
            let line = Line::Edge(first, second, m);
            proof {
                assert(line.spelled() =~= body@) by {
                    assert(body@.subrange(0, 20) + seq![32u8] + body@.subrange(21, 41) + seq![32u8]
                        + body@.subrange(42, 45) =~= body@);
                }
            }
            return Ok(line);
        }
        // a node: the depth ends at the first blank behind it
        let blank: usize = if body[22] == 32 {
            22
        } else if body[23] == 32 {
            23
        } else if len > 24 && body[24] == 32 {
            24
        } else {
            assert forall|line: Line| #[trigger] line.spelled() != body@ by {
                line.lemma_shape();
                if line.spelled() == body@ {
                    match line {
                        Line::Node(_, depth, parity) => {
                            lemma_decimal_shape(depth);
                            lemma_decimal_shape(parity);
                        },
                        Line::Edge(_, _, _) => {},
                    }
                }
            }
            return Err(ErrorKind::InvalidEncoding);
        };
        let depth = match read_decimal(slice_subrange(body, 21, blank)) {
            Some(depth) => depth,
            None => {
                assert forall|line: Line| #[trigger] line.spelled() != body@ by {
                    line.lemma_shape();
                    if line.spelled() == body@ {
                        match line {
                            Line::Node(_, depth, parity) => {
                                lemma_decimal_shape(depth);
                                lemma_decimal_shape(parity);
                                let d = decimal(depth).len() as int;
                                assert(forall|i: int|
                                    0 <= i < d ==> is_digit(#[trigger] decimal(depth)[i]));
                                assert(forall|i: int|
                                    21 <= i < 21 + d ==> body@[i] == decimal(depth)[i - 21]);
                                assert(21 + d == blank);
                            },
                            Line::Edge(_, _, _) => {},
                        }
                    }
                }
                return Err(ErrorKind::InvalidEncoding);
            },
        };
        let parity = match read_decimal(slice_subrange(body, blank + 1, len)) {
            Some(parity) => parity,
            None => {
                assert forall|line: Line| #[trigger] line.spelled() != body@ by {
                    line.lemma_shape();
                    if line.spelled() == body@ {
                        match line {
                            Line::Node(_, depth, parity) => {
                                lemma_decimal_shape(depth);
                                lemma_decimal_shape(parity);
                                let d = decimal(depth).len() as int;
                                assert(forall|i: int|
                                    0 <= i < d ==> is_digit(#[trigger] decimal(depth)[i]));
                                assert(forall|i: int|
                                    21 <= i < 21 + d ==> body@[i] == decimal(depth)[i - 21]);
                                assert(21 + d == blank);
                            },
                            Line::Edge(_, _, _) => {},
                        }
                    }
                }
                return Err(ErrorKind::InvalidEncoding);
            },
        };
        let line = Line::Node(first, depth, parity);
        proof {
            assert(line.spelled() =~= body@) by {
                assert(body@.subrange(0, 20) + seq![32u8] + body@.subrange(21, blank as int)
                    + seq![32u8] + body@.subrange(blank + 1, len as int) =~= body@);
            }
        }
        Ok(line)
    }

    /// Reads a line from its text, with or without the end of line behind
    /// it. Text that is the text of no line is refused.
    pub fn parse(text: &[u8]) -> (r: Result<Line, ErrorKind>)
        ensures
            match r {
                Ok(line) => line.is_spelled_by(text@),
                Err(e) => e == ErrorKind::InvalidEncoding && forall|line: Line|
                    !#[trigger] line.is_spelled_by(text@),
            },
    {
        let len = text.len();
        if len > 0 && text[len - 1] == 10 {
            let body = slice_subrange(text, 0, len - 1);
            assert(body@.push(10u8) =~= text@);
            match Line::parse_body(body) {
                Ok(line) => Ok(line),
                Err(e) => {
                    assert forall|line: Line| !#[trigger] line.is_spelled_by(text@) by {
                        line.lemma_shape();
                        if text@ == line.spelled().push(10u8) {
                            assert(line.spelled() =~= body@);
                        }
                        assert(line.spelled() != body@);
                    }
                    Err(e)
                },
            }
        } else {
            match Line::parse_body(text) {
                Ok(line) => Ok(line),
                Err(e) => {
                    assert forall|line: Line| !#[trigger] line.is_spelled_by(text@) by {
                        line.lemma_shape();
                        assert(line.spelled() != text@);
                        if text@ == line.spelled().push(10u8) {
                            assert(text@[len - 1] == 10);
                        }
                    }
                    Err(e)
                },
            }
        }
    }
}

/// The graph type of the `petgraph` crate: nothing of it is seen but what
/// the functions below say.
#[verifier::external_type_specification]
#[verifier::external_body]
#[verifier::reject_recursive_types(N)]
#[verifier::reject_recursive_types(E)]
#[verifier::reject_recursive_types(Ty)]
#[verifier::reject_recursive_types(Ix)]
pub struct ExGraph<N, E, Ty, Ix>(petgraph::Graph<N, E, Ty, Ix>);

/// The mark of a graph whose edges have a direction, `petgraph::Directed`.
#[verifier::external_type_specification]
#[verifier::external_body]
pub struct ExDirected(petgraph::Directed);

/// The weights of the nodes of a graph, in the order in which the nodes
/// were added.
pub uninterp spec fn graph_nodes(graph: petgraph::Graph<Info, Move, petgraph::Directed, u32>) -> Seq<
    Info,
>;

/// The edges of a graph, in the order in which they were added: the
/// number of the node at which an edge starts, the number of the node at
/// which it ends, and its weight.
pub uninterp spec fn graph_edges(graph: petgraph::Graph<Info, Move, petgraph::Directed, u32>) -> Seq<
    (int, int, Move),
>;

/// A graph without nodes. Calls `petgraph::Graph::new`.
#[verifier::external_body]
fn graph_new() -> (graph: petgraph::Graph<Info, Move, petgraph::Directed, u32>)
    ensures
        graph_nodes(graph) == Seq::<Info>::empty(),
        graph_edges(graph) == Seq::<(int, int, Move)>::empty(),
{
    petgraph::Graph::new()
}

/// Adds a node. Calls `petgraph::Graph::add_node`, which puts the node
/// behind the others and gives its number; it panics where the numbers
/// of 32 bits are used up, which the condition leaves out.
#[verifier::external_body]
fn graph_add_node(
    graph: &mut petgraph::Graph<Info, Move, petgraph::Directed, u32>,
    info: Info,
) -> (at: usize)
    requires
        graph_nodes(*old(graph)).len() < 0xffff_ffff,
    ensures
        at == graph_nodes(*old(graph)).len(),
        graph_nodes(*final(graph)) == graph_nodes(*old(graph)).push(info),
        graph_edges(*final(graph)) == graph_edges(*old(graph)),
{
    graph.add_node(info).index()
}

/// Adds an edge between two nodes. Calls `petgraph::Graph::add_edge`,
/// which puts the edge behind the others; it panics where a node is
/// missing or the numbers of 32 bits are used up, which the conditions
/// leave out.
#[verifier::external_body]
fn graph_add_edge(
    graph: &mut petgraph::Graph<Info, Move, petgraph::Directed, u32>,
    from: usize,
    to: usize,
    m: Move,
)
    requires
        from < graph_nodes(*old(graph)).len(),
        to < graph_nodes(*old(graph)).len(),
        graph_nodes(*old(graph)).len() <= 0xffff_ffff,
        graph_edges(*old(graph)).len() < 0xffff_ffff,
    ensures
        graph_nodes(*final(graph)) == graph_nodes(*old(graph)),
        graph_edges(*final(graph)) == graph_edges(*old(graph)).push((from as int, to as int, m)),
{
    graph.add_edge(
        petgraph::graph::NodeIndex::new(from),
        petgraph::graph::NodeIndex::new(to),
        m,
    );
}

/// The weight of a node. Calls `petgraph::Graph::node_weight`.
#[verifier::external_body]
fn graph_node(graph: &petgraph::Graph<Info, Move, petgraph::Directed, u32>, at: usize) -> (info:
    Option<Info>)
    requires
        at < graph_nodes(*graph).len(),
        graph_nodes(*graph).len() <= 0xffff_ffff,
    ensures
        info == Some(graph_nodes(*graph)[at as int]),
{
    graph.node_weight(petgraph::graph::NodeIndex::new(at)).copied()
}

/// Gives a node another weight. Calls `index_mut` of `petgraph::Graph`
/// with the number of the node, which hands out the weight of that node
/// and panics where the node is missing: the condition leaves that out.
#[verifier::external_body]
fn graph_set_node(
    graph: &mut petgraph::Graph<Info, Move, petgraph::Directed, u32>,
    at: usize,
    info: Info,
)
    requires
        at < graph_nodes(*old(graph)).len(),
        graph_nodes(*old(graph)).len() <= 0xffff_ffff,
    ensures
        graph_nodes(*final(graph)) == graph_nodes(*old(graph)).update(at as int, info),
        graph_edges(*final(graph)) == graph_edges(*old(graph)),
{
    graph[petgraph::graph::NodeIndex::new(at)] = info;
}

/// The number of edges. Calls `petgraph::Graph::edge_count`.
#[verifier::external_body]
fn graph_edge_count(graph: &petgraph::Graph<Info, Move, petgraph::Directed, u32>) -> (n: usize)
    ensures
        n == graph_edges(*graph).len(),
{
    graph.edge_count()
}

/// All edges, in the order in which they were added. Calls
/// `petgraph::Graph::raw_edges`.
#[verifier::external_body]
fn graph_edge_list(graph: &petgraph::Graph<Info, Move, petgraph::Directed, u32>) -> (edges: Vec<
    (usize, usize, Move),
>)
    ensures
        edges@.len() == graph_edges(*graph).len(),
        forall|i: int|
            0 <= i < edges@.len() ==> (#[trigger] edges@[i]).0 == graph_edges(*graph)[i].0
                && edges@[i].1 == graph_edges(*graph)[i].1 && edges@[i].2 == graph_edges(
                *graph,
            )[i].2,
{
    graph.raw_edges().iter().map(|e| (e.source().index(), e.target().index(), e.weight)).collect()
}

/// The cubes that a search met, what is known of each, and the moves
/// between them.
pub struct CubeGraph {
    graph: petgraph::Graph<Info, Move, petgraph::Directed, u32>,
    // the number of the node of each cube, under the number of the cube
    indices: HashMap<u128, usize>,
    // the cube of each node
    cubes: Vec<Cube<Position>>,
}

impl CubeGraph {
    /// What is known of each node.
    pub closed spec fn nodes(&self) -> Seq<Info> {
        graph_nodes(self.graph)
    }

    /// The cube of each node.
    pub closed spec fn cubes(&self) -> Seq<Cube<Position>> {
        self.cubes@
    }

    /// The edges: the numbers of two nodes, and the move that leads from
    /// the cube of the first to the cube of the second.
    pub closed spec fn edges(&self) -> Seq<(int, int, Move)> {
        graph_edges(self.graph)
    }

    /// The number of the node of each cube.
    pub closed spec fn numbers(&self) -> Map<u128, usize> {
        self.indices@
    }

    /// Whether every node has its cube, every cube is found by its
    /// number, and the numbers of 32 bits are not used up.
    pub open spec fn is_well_formed(&self) -> bool {
        &&& self.cubes().len() == self.nodes().len()
        &&& self.nodes().len() <= 0xffff_ffff
        &&& self.edges().len() <= 0xffff_ffff
        &&& forall|i: int|
            0 <= i < self.cubes().len() ==> self.numbers().contains_key(
                #[trigger] state_code(self.cubes()[i]@),
            )
        &&& forall|code: u128| #[trigger]
            self.numbers().contains_key(code) ==> self.numbers()[code] < self.cubes().len()
                && state_code(self.cubes()[self.numbers()[code] as int]@) == code
        &&& forall|i: int|
            0 <= i < self.edges().len() ==> 0 <= (#[trigger] self.edges()[i]).0 < self.nodes().len()
                && 0 <= self.edges()[i].1 < self.nodes().len()
    }

    /// The node of a state, if it has one.
    pub open spec fn node_of(&self, s: Seq<Rotation>) -> Option<int> {
        if self.numbers().contains_key(state_code(s)) {
            Some(self.numbers()[state_code(s)] as int)
        } else {
            None
        }
    }

    /// A state has no node other than the one at which it stands.
    pub proof fn lemma_node_of(&self, s: Seq<Rotation>)
        requires
            self.is_well_formed(),
            s.len() == 20,
            self.node_of(s) is Some,
        ensures
            0 <= self.node_of(s)->Some_0 < self.cubes().len(),
            self.cubes()[self.node_of(s)->Some_0]@ == s,
    {
        let at = self.node_of(s)->Some_0;
        assert(self.numbers().contains_key(state_code(s)));
        crate::cube::lemma_cube_len(self.cubes()[at]);
        lemma_state_code_injective(self.cubes()[at]@, s);
    }

    /// The graph of the solved cube alone, at depth 0 and parity 0.
    pub fn new() -> (g: CubeGraph)
        ensures
            g.is_well_formed(),
            g.nodes() == seq![(Info { depth: 0, parity: 0 })],
            g.cubes().len() == 1,
            g.cubes()[0]@ == solved(),
            g.edges().len() == 0,
    {
        let mut graph = graph_new();
        let at = graph_add_node(&mut graph, Info { depth: 0, parity: 0 });
        let home: Cube<Position> = Cube::default();
        let mut indices: HashMap<u128, usize> = HashMap::new();
        indices.insert(code_of(&home), at);
        let mut cubes: Vec<Cube<Position>> = Vec::new();
        cubes.push(home);
        let g = CubeGraph { graph, indices, cubes };
        assert(g.nodes() =~= seq![(Info { depth: 0, parity: 0 })]);
        assert(g.cubes()[0]@ == solved());
        g
    }

    /// The number of nodes.
    pub fn node_count(&self) -> (n: usize)
        requires
            self.is_well_formed(),
        ensures
            n == self.nodes().len(),
    {
        self.cubes.len()
    }

    /// The number of edges.
    pub fn edge_count(&self) -> (n: usize)
        ensures
            n == self.edges().len(),
    {
        graph_edge_count(&self.graph)
    }

    /// The node of a cube, if it has one.
    pub fn index_of(&self, cube: &Cube<Position>) -> (at: Option<usize>)
        requires
            self.is_well_formed(),
        ensures
            match at {
                Some(i) => self.node_of(cube@) == Some(i as int) && i < self.cubes().len()
                    && self.cubes()[i as int]@ == cube@,
                None => self.node_of(cube@) is None,
            },
    {
        let code = code_of(cube);
        match self.indices.get(&code) {
            Some(at) => {
                proof {
                    crate::cube::lemma_cube_len(*cube);
                    self.lemma_node_of(cube@);
                }
                Some(*at)
            },
            None => None,
        }
    }

    /// Whether a cube has a node.
    pub fn contains(&self, cube: &Cube<Position>) -> (held: bool)
        requires
            self.is_well_formed(),
        ensures
            held == self.node_of(cube@) is Some,
    {
        self.index_of(cube).is_some()
    }

    /// The cube of a node.
    pub fn cube_at(&self, at: usize) -> (cube: &Cube<Position>)
        requires
            at < self.cubes().len(),
        ensures
            *cube == self.cubes()[at as int],
    {
        &self.cubes[at]
    }

    /// What is known of a node.
    pub fn info_at(&self, at: usize) -> (info: Info)
        requires
            self.is_well_formed(),
            at < self.nodes().len(),
        ensures
            info == self.nodes()[at as int],
    {
        match graph_node(&self.graph, at) {
            Some(info) => info,
            None => Info { depth: 0, parity: 0 },
        }
    }

    /// All edges, in the order in which they were added.
    pub fn edge_list(&self) -> (edges: Vec<(usize, usize, Move)>)
        ensures
            edges@.len() == self.edges().len(),
            forall|i: int|
                0 <= i < edges@.len() ==> (#[trigger] edges@[i]).0 == self.edges()[i].0
                    && edges@[i].1 == self.edges()[i].1 && edges@[i].2 == self.edges()[i].2,
    {
        graph_edge_list(&self.graph)
    }

    /// Gives a cube a node, unless it has one, and gives the number of
    /// its node. Where the numbers of 32 bits are used up, the cube gets
    /// none.
    pub fn add_node(&mut self, cube: &Cube<Position>, info: Info) -> (at: Option<usize>)
        requires
            old(self).is_well_formed(),
        ensures
            final(self).is_well_formed(),
            final(self).edges() == old(self).edges(),
            old(self).numbers().submap_of(final(self).numbers()),
            match old(self).node_of(cube@) {
                Some(i) => at == Some(i as usize) && final(self).nodes() == old(self).nodes()
                    && final(self).cubes() == old(self).cubes(),
                None => if old(self).nodes().len() < 0xffff_ffff {
                    &&& at == Some(old(self).nodes().len() as usize)
                    &&& final(self).nodes() == old(self).nodes().push(info)
                    &&& final(self).cubes().len() == old(self).cubes().len() + 1
                    &&& final(self).cubes().last()@ == cube@
                    &&& forall|i: int|
                        0 <= i < old(self).cubes().len() ==> #[trigger] final(self).cubes()[i]
                            == old(self).cubes()[i]
                } else {
                    at is None && final(self).nodes() == old(self).nodes() && final(self).cubes()
                        == old(self).cubes()
                },
            },
    {
        match self.index_of(cube) {
            Some(at) => Some(at),
            None => {
                if self.cubes.len() >= 0xffff_ffff {
                    return None;
                }
                let code = code_of(cube);
                let at = graph_add_node(&mut self.graph, info);
                self.indices.insert(code, at);
                self.cubes.push(cube.clone());
                proof {
                    assert(self.cubes()[at as int]@ == cube@);
                    assert forall|i: int| 0 <= i < self.cubes().len() implies self.numbers().contains_key(
                        #[trigger] state_code(self.cubes()[i]@),
                    ) by {
                        if i < old(self).cubes().len() {
                            assert(self.cubes()[i] == old(self).cubes()[i]);
                            assert(old(self).numbers().contains_key(
                                state_code(old(self).cubes()[i]@),
                            ));
                        }
                    }
                    assert forall|k: u128| #[trigger] self.numbers().contains_key(k) implies self.numbers()[k]
                        < self.cubes().len() && state_code(self.cubes()[self.numbers()[k] as int]@)
                        == k by {
                        if k != code {
                            assert(old(self).numbers().contains_key(k));
                            assert(self.cubes()[old(self).numbers()[k] as int] == old(
                                self,
                            ).cubes()[old(self).numbers()[k] as int]);
                        }
                    }
                    assert forall|i: int| 0 <= i < self.edges().len() implies 0 <= (
                    #[trigger] self.edges()[i]).0 < self.nodes().len() && 0 <= self.edges()[i].1
                        < self.nodes().len() by {
                        assert(0 <= old(self).edges()[i].0 < old(self).nodes().len());
                    }
                }
                Some(at)
            },
        }
    }

    /// Adds the edge of a move between two nodes. Where the numbers of 32
    /// bits are used up, nothing is added.
    pub fn add_edge(&mut self, from: usize, to: usize, m: Move) -> (added: bool)
        requires
            old(self).is_well_formed(),
            from < old(self).nodes().len(),
            to < old(self).nodes().len(),
        ensures
            final(self).is_well_formed(),
            final(self).nodes() == old(self).nodes(),
            final(self).cubes() == old(self).cubes(),
            final(self).numbers() == old(self).numbers(),
            added == (old(self).edges().len() < 0xffff_ffff),
            final(self).edges() == if added {
                old(self).edges().push((from as int, to as int, m))
            } else {
                old(self).edges()
            },
    {
        if graph_edge_count(&self.graph) >= 0xffff_ffff {
            return false;
        }
        graph_add_edge(&mut self.graph, from, to, m);
        proof {
            assert(self.cubes() == old(self).cubes());
            assert(self.numbers() == old(self).numbers());
            assert(self.nodes() == old(self).nodes());
            assert forall|i: int| 0 <= i < self.edges().len() implies 0 <= (
            #[trigger] self.edges()[i]).0 < self.nodes().len() && 0 <= self.edges()[i].1
                < self.nodes().len() by {
                if i < old(self).edges().len() {
                    assert(self.edges()[i] == old(self).edges()[i]);
                    assert(0 <= old(self).edges()[i].0 < old(self).nodes().len());
                }
            }
            assert forall|i: int| 0 <= i < self.cubes().len() implies self.numbers().contains_key(
                #[trigger] state_code(self.cubes()[i]@),
            ) by {
                assert(old(self).numbers().contains_key(state_code(old(self).cubes()[i]@)));
            }
            assert forall|k: u128| #[trigger] self.numbers().contains_key(k) implies self.numbers()[k]
                < self.cubes().len() && state_code(self.cubes()[self.numbers()[k] as int]@) == k by {
                assert(old(self).numbers().contains_key(k));
            }
        }
        true
    }

    /// Adds a move from a cube of the graph to another cube. A cube that
    /// is new to the graph gets a node with what is known of it; of a
    /// cube that has a node, the depth is lowered to the one given where
    /// that is less. The cube from which the move leads must be in the
    /// graph. Where the numbers of 32 bits are used up, as much is added
    /// as there is room for.
    pub fn add_cube(&mut self, src: &Cube<Position>, dest: &Cube<Position>, info: Info, m: Move)
        requires
            old(self).is_well_formed(),
            old(self).node_of(src@) is Some,
        ensures
            final(self).is_well_formed(),
            match old(self).node_of(dest@) {
                Some(to) => {
                    &&& final(self).cubes() == old(self).cubes()
                    &&& final(self).nodes() == old(self).nodes().update(
                        to,
                        Info {
                            depth: if info.depth < old(self).nodes()[to].depth {
                                info.depth
                            } else {
                                old(self).nodes()[to].depth
                            },
                            parity: old(self).nodes()[to].parity,
                        },
                    )
                    &&& old(self).edges().len() < 0xffff_ffff ==> final(self).edges() == old(
                        self,
                    ).edges().push((old(self).node_of(src@)->Some_0, to, m))
                },
                None => old(self).nodes().len() < 0xffff_ffff ==> {
                    &&& final(self).nodes() == old(self).nodes().push(info)
                    &&& final(self).cubes().last()@ == dest@
                    &&& old(self).edges().len() < 0xffff_ffff ==> final(self).edges() == old(
                        self,
                    ).edges().push(
                        (old(self).node_of(src@)->Some_0, old(self).nodes().len() as int, m),
                    )
                },
            },
    {
        let from = match self.index_of(src) {
            Some(from) => from,
            None => {
                return ;
            },
        };
        match self.index_of(dest) {
            Some(to) => {
                let known = self.info_at(to);
                let depth = if info.depth < known.depth {
                    info.depth
                } else {
                    known.depth
                };
                graph_set_node(&mut self.graph, to, Info { depth, parity: known.parity });
                self.add_edge(from, to, m);
            },
            None => {
                match self.add_node(dest, info) {
                    Some(to) => {
                        self.add_edge(from, to, m);
                    },
                    None => {},
                }
            },
        }
    }

    /// The graph of the cubes of a store: a node for each cube, with its
    /// depth and parity, and an edge for every move of the vocabulary
    /// that leads from one of them to another.
    pub fn from_store(store: &Store<Move>) -> (g: CubeGraph)
        requires
            store.is_well_formed(),
        ensures
            g.is_well_formed(),
            forall|i: int|
                0 <= i < store.met().len() && g.nodes().len() < 0xffff_ffff ==> g.node_of(
                    (#[trigger] store.met()[i])@,
                ) is Some,
    {
        let mut g = CubeGraph::new();
        let mut i: usize = 0;
        while i < store.len()
            invariant
                i <= store.met().len(),
                store.is_well_formed(),
                g.is_well_formed(),
                forall|k: int|
                    0 <= k < i && g.nodes().len() < 0xffff_ffff ==> g.node_of(
                        (#[trigger] store.met()[k])@,
                    ) is Some,
            decreases store.met().len() - i,
        {
            let cube = store.cube_at(i);
            let depth = match store.get_depth(cube) {
                Some(depth) => depth,
                None => 255,
            };
            let ghost before = g;
            g.add_node(cube, Info { depth, parity: cube.parity() });
            proof {
                assert forall|k: int|
                    0 <= k < i + 1 && g.nodes().len() < 0xffff_ffff implies g.node_of(
                    (#[trigger] store.met()[k])@,
                ) is Some by {
                    if k < i {
                        g.lemma_kept_nodes(before, store.met()[k]@);
                    }
                }
            }
            i += 1;
        }
        let all = Move::all();
        let mut i: usize = 0;
        while i < store.len()
            invariant
                i <= store.met().len(),
                store.is_well_formed(),
                g.is_well_formed(),
                all@ == <Move as Action>::vocabulary(),
                forall|k: int|
                    0 <= k < store.met().len() && g.nodes().len() < 0xffff_ffff ==> g.node_of(
                        (#[trigger] store.met()[k])@,
                    ) is Some,
            decreases store.met().len() - i,
        {
            let src = store.cube_at(i);
            match g.index_of(src) {
                Some(from) => {
                    let mut j: usize = 0;
                    while j < all.len()
                        invariant
                            j <= all@.len(),
                            g.is_well_formed(),
                            from < g.nodes().len(),
                            forall|k: int|
                                0 <= k < store.met().len() && g.nodes().len() < 0xffff_ffff
                                    ==> g.node_of((#[trigger] store.met()[k])@) is Some,
                        decreases all@.len() - j,
                    {
                        let dest = src.clone().make_move(all[j]);
                        match g.index_of(&dest) {
                            Some(to) => {
                                g.add_edge(from, to, all[j]);
                            },
                            None => {},
                        }
                        j += 1;
                    }
                },
                None => {},
            }
            i += 1;
        }
        g
    }

    /// A state that had a node keeps it when a node is added.
    pub proof fn lemma_kept_nodes(&self, before: CubeGraph, s: Seq<Rotation>)
        requires
            before.is_well_formed(),
            self.is_well_formed(),
            before.node_of(s) is Some,
            before.numbers().submap_of(self.numbers()),
        ensures
            self.node_of(s) is Some,
    {
        assert(before.numbers().contains_key(state_code(s)));
        assert(self.numbers().contains_key(state_code(s)));
    }

    /// The lines of the nodes of the graph, in the order of the nodes.
    pub fn node_lines(&self) -> (lines: Vec<Line>)
        requires
            self.is_well_formed(),
        ensures
            lines@.len() == self.nodes().len(),
            forall|i: int|
                0 <= i < self.nodes().len() ==> (#[trigger] lines@[i]).is_node(
                    self.cubes()[i]@,
                    self.nodes()[i],
                ),
    {
        let mut lines: Vec<Line> = Vec::new();
        let n = self.cubes.len();
        let mut i: usize = 0;
        while i < n
            invariant
                i <= n,
                n == self.nodes().len(),
                self.is_well_formed(),
                lines@.len() == i,
                forall|k: int|
                    0 <= k < i ==> (#[trigger] lines@[k]).is_node(
                        self.cubes()[k]@,
                        self.nodes()[k],
                    ),
            decreases n - i,
        {
            let info = self.info_at(i);
            lines.push(Line::Node(self.cubes[i].clone(), info.depth, info.parity));
            i += 1;
        }
        lines
    }

    /// The lines of the edges of the graph, in the order in which the
    /// edges were added.
    pub fn edge_lines(&self) -> (lines: Vec<Line>)
        requires
            self.is_well_formed(),
        ensures
            lines@.len() == self.edges().len(),
            forall|i: int|
                0 <= i < self.edges().len() ==> (#[trigger] lines@[i]).is_edge(
                    self.cubes()[self.edges()[i].0]@,
                    self.cubes()[self.edges()[i].1]@,
                    self.edges()[i].2,
                ),
    {
        let mut lines: Vec<Line> = Vec::new();
        let edges = self.edge_list();
        let n = self.cubes.len();
        let mut j: usize = 0;
        while j < edges.len()
            invariant
                j <= edges@.len(),
                n == self.nodes().len(),
                self.is_well_formed(),
                edges@.len() == self.edges().len(),
                forall|k: int|
                    0 <= k < edges@.len() ==> (#[trigger] edges@[k]).0 == self.edges()[k].0
                        && edges@[k].1 == self.edges()[k].1 && edges@[k].2 == self.edges()[k].2,
                lines@.len() == j,
                forall|k: int|
                    0 <= k < j ==> (#[trigger] lines@[k]).is_edge(
                        self.cubes()[self.edges()[k].0]@,
                        self.cubes()[self.edges()[k].1]@,
                        self.edges()[k].2,
                    ),
            decreases edges@.len() - j,
        {
            let (from, to, m) = edges[j];
            assert(0 <= self.edges()[j as int].0 < self.nodes().len());
            lines.push(Line::Edge(self.cubes[from].clone(), self.cubes[to].clone(), m));
            j += 1;
        }
        lines
    }

    /// Takes in a line of the text of a graph. A node that the graph
    /// lacks is added; an edge is added between two cubes of the graph,
    /// and refused where one of them is missing.
    pub fn read_line(&mut self, line: &Line) -> (r: Result<(), ErrorKind>)
        requires
            old(self).is_well_formed(),
        ensures
            final(self).is_well_formed(),
            match r {
                Ok(()) => !line.lacks_a_cube(*old(self)),
                Err(e) => e == ErrorKind::InvalidEncoding && line.lacks_a_cube(*old(self)),
            },
    {
        match line {
            Line::Node(cube, depth, parity) => {
                self.add_node(cube, Info { depth: *depth, parity: *parity });
                Ok(())
            },
            Line::Edge(from, to, m) => {
                match (self.index_of(from), self.index_of(to)) {
                    (Some(a), Some(b)) => {
                        self.add_edge(a, b, *m);
                        Ok(())
                    },
                    _ => Err(ErrorKind::InvalidEncoding),
                }
            },
        }
    }

    /// The depth and the parity of every node, two bytes each.
    pub fn info_bytes(&self) -> (bytes: Vec<u8>)
        requires
            self.is_well_formed(),
        ensures
            bytes@.len() == 2 * self.nodes().len(),
            forall|i: int|
                0 <= i < self.nodes().len() ==> bytes@[2 * i] == (#[trigger] self.nodes()[i]).depth
                    && bytes@[2 * i + 1] == self.nodes()[i].parity,
    {
        let mut bytes: Vec<u8> = Vec::new();
        let n = self.cubes.len();
        let mut i: usize = 0;
        while i < n
            invariant
                i <= n,
                n == self.nodes().len(),
                self.is_well_formed(),
                bytes@.len() == 2 * i,
                forall|k: int|
                    0 <= k < i ==> bytes@[2 * k] == (#[trigger] self.nodes()[k]).depth && bytes@[2
                        * k + 1] == self.nodes()[k].parity,
            decreases n - i,
        {
            let info = self.info_at(i);
            bytes.push(info.depth);
            bytes.push(info.parity);
            i += 1;
        }
        bytes
    }
}

} // verus!
