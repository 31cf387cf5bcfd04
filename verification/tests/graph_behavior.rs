use graphs::errors::GraphError;
use graphs::graph::Graph;
use graphs::graph::Visited;
use graphs::tuple_reader::TupleReader;

/// A tuple source over a text snippet: whitespace-separated unsigned
/// integers, handed out two at a time.
struct TextSource {
    tokens: Vec<String>,
    pos: usize,
}

impl TextSource {
    fn from_text(text: &str) -> TextSource {
        TextSource {
            tokens: text.split_whitespace().map(|t| t.to_string()).collect(),
            pos: 0,
        }
    }

    fn next_int(&mut self) -> Result<u32, GraphError> {
        if self.pos >= self.tokens.len() {
            return Err(GraphError::ExhaustedInput);
        }
        let token = &self.tokens[self.pos];
        self.pos += 1;
        token.parse::<u32>().map_err(|_| GraphError::MalformedInput)
    }
}

impl TupleReader for TextSource {
    fn next_tuple(&mut self) -> Result<(u32, u32), GraphError> {
        let a = self.next_int()?;
        let b = self.next_int()?;
        Ok((a, b))
    }
}

fn load_text(text: &str, directed: bool) -> Result<Graph, GraphError> {
    let mut source = TextSource::from_text(text);
    Graph::load(&mut source, directed)
}

/// Components with each component sorted and the list of components sorted,
/// so that two results can be compared as collections of sets.
fn normalized(comps: Vec<Vec<u32>>) -> Vec<Vec<u32>> {
    let mut out: Vec<Vec<u32>> = comps;
    for c in out.iter_mut() {
        c.sort();
    }
    out.sort();
    out
}

#[test]
fn three_vertices_one_component() {
    let g = load_text("3 2\n1 2\n2 3\n", false).unwrap();
    assert_eq!(normalized(g.connected_components()), vec![vec![1, 2, 3]]);
    assert_eq!(g.is_reachable(1, 3), Ok(true));
}

#[test]
fn isolated_vertices_are_own_components() {
    let g = load_text("4 1\n1 2\n", false).unwrap();
    assert_eq!(
        normalized(g.connected_components()),
        vec![vec![1, 2], vec![3], vec![4]]
    );
    assert_eq!(g.is_reachable(3, 4), Ok(false));
}

#[test]
fn directed_edge_reaches_one_way() {
    let g = load_text("2 1\n1 2\n", true).unwrap();

    let mut visited = Visited::new(2);
    let mut component: Vec<u32> = Vec::new();
    g.explore(1, &mut visited, &mut component);
    component.sort();
    assert_eq!(component, vec![1, 2]);

    let mut visited2 = Visited::new(2);
    let mut component2: Vec<u32> = Vec::new();
    g.explore(2, &mut visited2, &mut component2);
    assert_eq!(component2, vec![2]);

    assert_eq!(g.is_reachable(1, 2), Ok(true));
    assert_eq!(g.is_reachable(2, 1), Ok(false));
}

#[test]
fn duplicate_edges_collapse() {
    let doubled = load_text("2 2\n1 2\n1 2\n", false).unwrap();
    let single = load_text("2 1\n1 2\n", false).unwrap();
    assert_eq!(
        normalized(doubled.connected_components()),
        normalized(single.connected_components())
    );
    assert_eq!(doubled.is_reachable(1, 2), single.is_reachable(1, 2));
    assert_eq!(doubled.is_reachable(2, 1), single.is_reachable(2, 1));
}

#[test]
fn empty_graph_has_no_components() {
    let g = load_text("0 0\n", false).unwrap();
    assert_eq!(g.connected_components(), Vec::<Vec<u32>>::new());
    assert_eq!(g.is_reachable(1, 1), Err(GraphError::UnknownVertex));
}

#[test]
fn every_vertex_reaches_itself() {
    let g = load_text("3 2\n1 2\n2 3\n", false).unwrap();
    for v in 1u32..=3u32 {
        assert_eq!(g.is_reachable(v, v), Ok(true));
    }
    let lonely = load_text("5 0\n", false).unwrap();
    for v in 1u32..=5u32 {
        assert_eq!(lonely.is_reachable(v, v), Ok(true));
    }
}

#[test]
fn undirected_reachability_is_symmetric() {
    let g = load_text("4 2\n1 2\n2 4\n", false).unwrap();
    for v in 1u32..=4u32 {
        for w in 1u32..=4u32 {
            assert_eq!(g.is_reachable(v, w), g.is_reachable(w, v));
        }
    }
}

#[test]
fn repeated_runs_agree() {
    let g = load_text("6 3\n1 2\n4 5\n5 6\n", false).unwrap();
    let first = normalized(g.connected_components());
    let second = normalized(g.connected_components());
    assert_eq!(first, second);
    assert_eq!(first, vec![vec![1, 2], vec![3], vec![4, 5, 6]]);
}

#[test]
fn components_partition_the_vertex_set() {
    let g = load_text("7 4\n1 2\n2 3\n5 6\n6 5\n", false).unwrap();
    let comps = g.connected_components();
    let mut seen: Vec<u32> = Vec::new();
    for c in comps.iter() {
        assert!(!c.is_empty());
        for v in c.iter() {
            seen.push(*v);
        }
    }
    seen.sort();
    assert_eq!(seen, vec![1, 2, 3, 4, 5, 6, 7]);
}

#[test]
fn directed_cycle_is_one_component() {
    let g = load_text("3 3\n1 2\n2 3\n3 1\n", true).unwrap();
    assert_eq!(normalized(g.connected_components()), vec![vec![1, 2, 3]]);
    assert_eq!(g.is_reachable(3, 2), Ok(true));
}

#[test]
fn out_of_range_endpoint_is_malformed() {
    assert_eq!(
        load_text("2 1\n1 5\n", false).unwrap_err(),
        GraphError::MalformedInput
    );
    assert_eq!(
        load_text("2 1\n0 1\n", false).unwrap_err(),
        GraphError::MalformedInput
    );
}

#[test]
fn non_numeric_token_is_malformed() {
    assert_eq!(
        load_text("2 1\nx y\n", false).unwrap_err(),
        GraphError::MalformedInput
    );
}

#[test]
fn short_stream_is_exhausted() {
    assert_eq!(
        load_text("3 2\n1 2\n", false).unwrap_err(),
        GraphError::ExhaustedInput
    );
    assert_eq!(load_text("", false).unwrap_err(), GraphError::ExhaustedInput);
}

#[test]
fn unknown_vertex_is_distinct_from_unreachable() {
    let g = load_text("3 1\n1 2\n", false).unwrap();
    assert_eq!(g.is_reachable(0, 1), Err(GraphError::UnknownVertex));
    assert_eq!(g.is_reachable(1, 9), Err(GraphError::UnknownVertex));
    assert_eq!(g.is_reachable(9, 9), Err(GraphError::UnknownVertex));
    assert_eq!(g.is_reachable(1, 3), Ok(false));
}

#[test]
fn construction_validates_endpoints() {
    assert_eq!(
        Graph::new(5, vec![(1, 6)], false).unwrap_err(),
        GraphError::MalformedInput
    );
    assert_eq!(
        Graph::new(u32::MAX, Vec::new(), false).unwrap_err(),
        GraphError::MalformedInput
    );
    let g = Graph::new(2, vec![(1, 2), (1, 2), (2, 1)], false).unwrap();
    assert_eq!(normalized(g.connected_components()), vec![vec![1, 2]]);
}

#[test]
fn traversal_respects_prior_marks() {
    let g = load_text("3 2\n1 2\n2 3\n", false).unwrap();
    let mut visited = Visited::new(3);
    let mut first: Vec<u32> = Vec::new();
    g.explore(2, &mut visited, &mut first);
    first.sort();
    assert_eq!(first, vec![1, 2, 3]);
    assert!(visited.is_marked(1) && visited.is_marked(2) && visited.is_marked(3));

    let mut second: Vec<u32> = Vec::new();
    g.explore(1, &mut visited, &mut second);
    assert_eq!(second, Vec::<u32>::new());
}
