use regex_nfa::graph::{Graph, Node};

#[test]
fn basic_addition() {
    let mut graph = Graph::new();
    graph.add_cost('a');
    graph.add_cost('b');
    let goal = Graph {
        arena: vec![
            Node { edges: vec![(1, Some('a'))], endlinked: false },
            Node { edges: vec![(2, Some('b'))], endlinked: false },
            Node { edges: vec![], endlinked: true },
        ],
        start: 0,
        active: 2,
    };

    assert_eq!(graph, goal)
}

#[test]
fn ripped_graph() {
    let mut graph = Graph::new();
    graph.add_cost('N');
    graph.add_cost('3');
    graph.add_junction(0);
    graph.add_cost('T');
    graph.add_cost('R');
    graph.add_cost('A');
    graph.add_junction(0);
    graph.add_cost('N');
    graph.add_cost('7');
    graph.close_junction(0);
    graph.one_or_more(0);

    let goal = Graph {
        arena: vec![
            Node { edges: vec![(1, Some('N')), (3, Some('T')), (6, Some('N'))], endlinked: false },
            Node { edges: vec![(2, Some('3'))], endlinked: false },
            Node { edges: vec![(8, None)], endlinked: false },
            Node { edges: vec![(4, Some('R'))], endlinked: false },
            Node { edges: vec![(5, Some('A'))], endlinked: false },
            Node { edges: vec![(8, None)], endlinked: false },
            Node { edges: vec![(7, Some('7'))], endlinked: false },
            Node { edges: vec![(8, None)], endlinked: false },
            Node { edges: vec![(0, None)], endlinked: true },
        ],
        start: 0,
        active: 8,
    };

    assert_eq!(goal, graph);
}

#[test]
fn concatenation_adds_one_node_per_label() {
    let mut graph = Graph::new();
    let labels = ['x', 'y', 'z', 'x'];
    for l in labels {
        graph.add_cost(l);
    }
    assert_eq!(graph.arena.len(), labels.len() + 1);
    for (k, l) in labels.iter().enumerate() {
        assert_eq!(graph.arena[k].edges, vec![(k + 1, Some(*l))]);
    }
    assert!(graph.arena[labels.len()].edges.is_empty());
    assert_eq!(graph.active, labels.len());
}

#[test]
fn close_junction_merges_each_branch_end_once() {
    let mut graph = Graph::new();
    graph.add_cost('a');
    graph.add_junction(0);
    graph.add_cost('b');
    graph.add_cost('c');
    graph.add_junction(0);
    graph.close_junction(0);
    // Ends: node 1 ("a"), node 3 ("bc") and node 0 (the empty last branch).
    assert_eq!(graph.arena.len(), 5);
    assert_eq!(graph.active, 4);
    let into_merge: Vec<usize> = (0..4)
        .filter(|i| graph.arena[*i].edges.contains(&(4, None)))
        .collect();
    assert_eq!(into_merge, vec![0, 1, 3]);
    assert!(graph.arena[4].endlinked);
    assert!(!graph.arena[0].endlinked && !graph.arena[1].endlinked && !graph.arena[3].endlinked);
}

#[test]
fn close_junction_without_open_ends_changes_nothing() {
    let mut graph = Graph::new();
    graph.add_cost('a');
    graph.add_cost('b');
    let mut done = graph.compile();
    let expected = Graph {
        arena: vec![
            Node { edges: vec![(1, Some('a'))], endlinked: false },
            Node { edges: vec![(2, Some('b'))], endlinked: false },
            Node { edges: vec![], endlinked: false },
        ],
        start: 0,
        active: 2,
    };
    assert_eq!(done, expected);
    done.close_junction(0);
    assert_eq!(done, expected);
}

#[test]
fn close_junction_ignores_ends_before_start() {
    let mut graph = Graph::new();
    graph.add_cost('a');
    graph.add_junction(0);
    graph.add_cost('b');
    // Node 1 ("a") is still open but lies before handle 2.
    graph.close_junction(2);
    assert_eq!(graph.arena.len(), 4);
    assert_eq!(graph.arena[2].edges, vec![(3, None)]);
    assert!(graph.arena[1].edges.is_empty());
    assert!(graph.arena[1].endlinked);
}

#[test]
fn quantifiers_build_expected_edges() {
    let mut opt = Graph::new();
    opt.add_cost('x');
    opt.zero_or_one(0);
    assert_eq!(opt.arena[0].edges, vec![(1, Some('x')), (2, None)]);
    assert_eq!(opt.arena[1].edges, vec![(2, None)]);
    assert_eq!(opt.active, 2);

    let mut rep = Graph::new();
    rep.add_cost('x');
    rep.one_or_more(0);
    assert_eq!(rep.arena[1].edges, vec![(0, None)]);
    assert_eq!(rep.active, 1);

    let mut star = Graph::new();
    star.add_cost('x');
    star.zero_or_more(0);
    assert_eq!(star.arena[1].edges, vec![(0, None)]);
    assert_eq!(star.active, 0);
    assert!(star.arena[0].endlinked);
}

#[test]
fn compile_clears_open_markers() {
    let mut graph = Graph::new();
    graph.add_cost('a');
    graph.add_junction(0);
    let done = graph.compile();
    assert!(done.arena.iter().all(|n| !n.endlinked));
    assert_eq!(done.arena[0].edges, vec![(1, Some('a'))]);
    assert_eq!(done.active, 0);
}
