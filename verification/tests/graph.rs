use rubiks::action::{Action, Move};
use rubiks::cube::{Cube, Position};
use rubiks::cubelet::Axis;
use rubiks::error::ErrorKind;
use rubiks::graph::{read_decimal, write_decimal, CubeGraph, Info, Line};
use rubiks::store::Store;
use rubiks::strategy::{Strategy, TreeSearch};

#[test]
fn numbers_in_decimal() {
    assert_eq!(write_decimal(0), b"0".to_vec());
    assert_eq!(write_decimal(9), b"9".to_vec());
    assert_eq!(write_decimal(10), b"10".to_vec());
    assert_eq!(write_decimal(99), b"99".to_vec());
    assert_eq!(write_decimal(100), b"100".to_vec());
    assert_eq!(write_decimal(255), b"255".to_vec());
    for n in 0..=255u8 {
        assert_eq!(read_decimal(&write_decimal(n)), Some(n));
    }
    assert_eq!(read_decimal(b""), None);
    assert_eq!(read_decimal(b"00"), None);
    assert_eq!(read_decimal(b"07"), None);
    assert_eq!(read_decimal(b"007"), None);
    assert_eq!(read_decimal(b"256"), None);
    assert_eq!(read_decimal(b"999"), None);
    assert_eq!(read_decimal(b"1000"), None);
    assert_eq!(read_decimal(b"1a"), None);
    assert_eq!(read_decimal(b"+1"), None);
    assert_eq!(read_decimal(b" 1"), None);
}

fn is_node(line: &Line, cube: &Cube<Position>, depth: u8, parity: u8) -> bool {
    matches!(line, Line::Node(c, d, p) if c == cube && *d == depth && *p == parity)
}

fn is_edge(line: &Line, from: &Cube<Position>, to: &Cube<Position>, m: Move) -> bool {
    matches!(line, Line::Edge(a, b, made) if a == from && b == to && *made == m)
}

#[test]
fn lines_of_nodes_and_edges() {
    let solved: Cube<Position> = Cube::default();
    let turned = solved.clone().make_move(Move(Axis::X, 1, 0));
    let node = Line::Node(turned.clone(), 12, 8);
    assert_eq!(node.to_text(), b"BBBBBBBBAAAAAAAAAAAA 12 8".to_vec());
    let edge = Line::Edge(solved.clone(), turned.clone(), Move(Axis::X, 1, 0));
    assert_eq!(edge.to_text(), b"AAAAAAAAAAAAAAAAAAAA BBBBBBBBAAAAAAAAAAAA X10".to_vec());

    assert!(is_node(&Line::parse(b"BBBBBBBBAAAAAAAAAAAA 12 8").unwrap(), &turned, 12, 8));
    assert!(is_node(&Line::parse(b"BBBBBBBBAAAAAAAAAAAA 12 8\n").unwrap(), &turned, 12, 8));
    assert!(is_node(&Line::parse(b"AAAAAAAAAAAAAAAAAAAA 0 0").unwrap(), &solved, 0, 0));
    assert!(is_node(&Line::parse(b"AAAAAAAAAAAAAAAAAAAA 255 100").unwrap(), &solved, 255, 100));
    assert!(is_edge(
        &Line::parse(b"AAAAAAAAAAAAAAAAAAAA BBBBBBBBAAAAAAAAAAAA X10\n").unwrap(),
        &solved,
        &turned,
        Move(Axis::X, 1, 0)
    ));
}

#[test]
fn text_that_is_no_line_is_refused() {
    for text in [
        &b""[..],
        b"\n",
        b"AAAAAAAAAAAAAAAAAAAA",
        b"AAAAAAAAAAAAAAAAAAAA 1",
        b"AAAAAAAAAAAAAAAAAAAA 1 ",
        b"AAAAAAAAAAAAAAAAAAAA  1 1",
        b"AAAAAAAAAAAAAAAAAAAA 1  1",
        b"AAAAAAAAAAAAAAAAAAAA 01 1",
        b"AAAAAAAAAAAAAAAAAAAA 1 256",
        b"AAAAAAAAAAAAAAAAAAAA 1 1 ",
        b"AAAAAAAAAAAAAAAAAAAA 1 1\n\n",
        b"AAAAAAAAAAAAAAAAAAAA 1 1\r\n",
        b"AAAAAAAAAAAAAAAAAAA 1 1",
        b"AAAAAAAAAAAAAAAAAAAY 1 1",
        b"AAAAAAAAAAAAAAAAAAAA-1-1",
        b"AAAAAAAAAAAAAAAAAAAA 1234 1",
        b"AAAAAAAAAAAAAAAAAAAA BBBBBBBBAAAAAAAAAAAA X14",
        b"AAAAAAAAAAAAAAAAAAAA BBBBBBBBAAAAAAAAAAAA W10",
        b"AAAAAAAAAAAAAAAAAAAA BBBBBBBBAAAAAAAAAAAA_X10",
        b"AAAAAAAAAAAAAAAAAAAA BBBBBBBBAAAAAAAAAAAY X10",
        b"AAAAAAAAAAAAAAAAAAAA BBBBBBBBAAAAAAAAAAAA X1",
        b"AAAAAAAAAAAAAAAAAAAA BBBBBBBBAAAAAAAAAAAA X100",
    ] {
        assert_eq!(Line::parse(text).err(), Some(ErrorKind::InvalidEncoding), "{:?}", text);
    }
}

#[test]
fn a_graph_of_cubes() {
    let solved: Cube<Position> = Cube::default();
    let mut graph = CubeGraph::new();
    assert_eq!(graph.node_count(), 1);
    assert_eq!(graph.edge_count(), 0);
    assert_eq!(graph.index_of(&solved), Some(0));
    assert!(graph.contains(&solved));
    assert_eq!(graph.info_at(0), Info { depth: 0, parity: 0 });

    let m = Move(Axis::X, 1, 0);
    let one = solved.clone().make_move(m);
    assert!(!graph.contains(&one));
    graph.add_cube(&solved, &one, Info { depth: 3, parity: one.parity() }, m);
    assert_eq!(graph.node_count(), 2);
    assert_eq!(graph.edge_count(), 1);
    assert_eq!(graph.index_of(&one), Some(1));
    assert_eq!(*graph.cube_at(1), one);
    assert_eq!(graph.info_at(1), Info { depth: 3, parity: 8 });
    assert_eq!(graph.edge_list(), vec![(0, 1, m)]);

    // a cube that is known keeps the lesser depth, and its parity
    graph.add_cube(&solved, &one, Info { depth: 1, parity: 99 }, m);
    assert_eq!(graph.node_count(), 2);
    assert_eq!(graph.info_at(1), Info { depth: 1, parity: 8 });
    graph.add_cube(&one, &solved, Info { depth: 7, parity: 0 }, Move::inverse(&m));
    assert_eq!(graph.info_at(0), Info { depth: 0, parity: 0 });
    assert_eq!(graph.edge_list(), vec![(0, 1, m), (0, 1, m), (1, 0, Move(Axis::X, 3, 0))]);
    assert_eq!(graph.info_bytes(), vec![0, 0, 1, 8]);

    assert_eq!(graph.add_node(&one, Info { depth: 9, parity: 9 }), Some(1));
    assert_eq!(graph.info_at(1), Info { depth: 1, parity: 8 });
    let two = one.clone().make_move(Move(Axis::Y, 1, 0));
    assert_eq!(graph.add_node(&two, Info { depth: 2, parity: two.parity() }), Some(2));
    assert!(graph.add_edge(1, 2, Move(Axis::Y, 1, 0)));
    assert_eq!(graph.edge_count(), 4);
}

#[test]
fn a_graph_is_written_and_read_line_by_line() {
    let mut store: Store<Move> = Store::new();
    let solved: Cube<Position> = Cube::default();
    TreeSearch { prev_move: None, current_depth: 0, search_depth: 1 }.explore(&mut store, &solved);
    let graph = CubeGraph::from_store(&store);
    assert_eq!(graph.node_count(), 46);
    // from the solved cube 45 moves lead to the others, from each of them
    // one leads back, and 14 lead on about the same axis
    assert_eq!(graph.edge_count(), 45 + 45 * 15);

    let nodes = graph.node_lines();
    let edges = graph.edge_lines();
    assert_eq!(nodes.len(), 46);
    assert_eq!(edges.len(), graph.edge_count());
    assert!(is_node(&nodes[0], &solved, 0, 0));

    let mut read = CubeGraph::new();
    for line in nodes.iter().chain(edges.iter()) {
        let text = line.to_text();
        let parsed = Line::parse(&text).unwrap();
        assert_eq!(parsed.to_text(), text);
        read.read_line(&parsed).unwrap();
    }
    assert_eq!(read.node_count(), graph.node_count());
    assert_eq!(read.edge_list(), graph.edge_list());
    assert_eq!(read.info_bytes(), graph.info_bytes());
    for m in Move::all() {
        let cube = solved.clone().make_move(m);
        assert_eq!(read.index_of(&cube), graph.index_of(&cube));
    }

    // an edge to a cube that the graph lacks is refused
    let far = solved.clone().make_move(Move(Axis::X, 1, 0)).make_move(Move(Axis::Y, 1, 0));
    let edge = Line::Edge(solved.clone(), far, Move(Axis::Z, 1, 0));
    assert_eq!(read.read_line(&edge), Err(ErrorKind::InvalidEncoding));
}
