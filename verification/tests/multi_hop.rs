use vera_core::multi_hop::{SymbolGraph, TraversalDirection};

fn owned(names: &[&str]) -> Vec<String> {
    names.iter().map(|n| n.to_string()).collect()
}

#[test]
fn test_multi_hop_traversal_outgoing() {
    let mut graph = SymbolGraph::new();
    // A -> B -> C -> D
    graph.add_edge("fn_A", "fn_B", "calls");
    graph.add_edge("fn_B", "fn_C", "calls");
    graph.add_edge("fn_C", "fn_D", "calls");

    // 1-hop outgoing from A
    let hops_1 = graph.traverse("fn_A", TraversalDirection::Outgoing, 1);
    assert_eq!(hops_1, vec![("fn_B".to_string(), 1)]);

    // 2-hops outgoing from A
    let hops_2 = graph.traverse("fn_A", TraversalDirection::Outgoing, 2);
    assert_eq!(
        hops_2,
        vec![("fn_B".to_string(), 1), ("fn_C".to_string(), 2)]
    );

    // 3-hops outgoing from A
    let hops_3 = graph.traverse("fn_A", TraversalDirection::Outgoing, 3);
    assert_eq!(
        hops_3,
        vec![
            ("fn_B".to_string(), 1),
            ("fn_C".to_string(), 2),
            ("fn_D".to_string(), 3)
        ]
    );
}

#[test]
fn test_multi_hop_traversal_incoming_and_cycles() {
    let mut graph = SymbolGraph::new();
    // Cycle: A -> B -> C -> A
    graph.add_edge("node_A", "node_B", "calls");
    graph.add_edge("node_B", "node_C", "calls");
    graph.add_edge("node_C", "node_A", "calls");

    // Traversal terminates safely despite cycle
    let visited = graph.traverse("node_A", TraversalDirection::Outgoing, 10);
    assert_eq!(visited.len(), 2); // only B and C are discovered as new nodes
}

#[test]
fn test_find_shortest_path() {
    let mut graph = SymbolGraph::new();
    graph.add_edge("main", "init_config", "calls");
    graph.add_edge("main", "start_server", "calls");
    graph.add_edge("start_server", "bind_socket", "calls");
    graph.add_edge("bind_socket", "listen", "calls");

    let path = graph.find_shortest_path("main", "listen").unwrap();
    assert_eq!(path, vec!["main", "start_server", "bind_socket", "listen"]);

    let unreachable = graph.find_shortest_path("init_config", "listen");
    assert!(unreachable.is_none());
}

#[test]
fn test_tarjan_scc_and_cycle_detection() {
    let mut graph = SymbolGraph::new();
    // A -> B -> C -> A (cycle)
    // D -> C (incoming into cycle)
    graph.add_edge("A", "B", "calls");
    graph.add_edge("B", "C", "calls");
    graph.add_edge("C", "A", "calls");
    graph.add_edge("D", "C", "calls");

    assert!(graph.has_cycle());

    let sccs = graph.strongly_connected_components();
    let cycle_scc = sccs
        .iter()
        .find(|c| c.len() > 1)
        .expect("expected cycle SCC");
    assert_eq!(cycle_scc.len(), 3);
    assert!(cycle_scc.contains(&"A".to_string()));
    assert!(cycle_scc.contains(&"B".to_string()));
    assert!(cycle_scc.contains(&"C".to_string()));

    // Acyclic graph
    let mut acyclic = SymbolGraph::new();
    acyclic.add_edge("X", "Y", "calls");
    acyclic.add_edge("Y", "Z", "calls");
    assert!(!acyclic.has_cycle());
}

#[test]
fn test_topological_sort_and_transitive_closure() {
    let mut graph = SymbolGraph::new();
    // Pipeline: parser -> typechecker -> optimizer -> codegen
    graph.add_edge("parser", "typechecker", "calls");
    graph.add_edge("typechecker", "optimizer", "calls");
    graph.add_edge("optimizer", "codegen", "calls");

    let topo = graph.topological_sort().expect("expected valid topo sort");
    let pos_parser = topo.iter().position(|x| x == "parser").unwrap();
    let pos_typecheck = topo.iter().position(|x| x == "typechecker").unwrap();
    let pos_opt = topo.iter().position(|x| x == "optimizer").unwrap();
    let pos_codegen = topo.iter().position(|x| x == "codegen").unwrap();

    assert!(pos_parser < pos_typecheck);
    assert!(pos_typecheck < pos_opt);
    assert!(pos_opt < pos_codegen);

    // Transitive closure from parser includes all 3 downstream
    let closure = graph.transitive_closure("parser");
    assert_eq!(closure.len(), 3);
    assert!(closure.contains("typechecker"));
    assert!(closure.contains("optimizer"));
    assert!(closure.contains("codegen"));

    // From optimizer, only codegen
    let opt_closure = graph.transitive_closure("optimizer");
    assert_eq!(opt_closure.len(), 1);
    assert!(opt_closure.contains("codegen"));
}

#[test]
fn empty_graph_has_nothing() {
    let graph = SymbolGraph::default();
    assert!(graph
        .traverse("a", TraversalDirection::Outgoing, 5)
        .is_empty());
    assert!(graph.strongly_connected_components().is_empty());
    assert!(!graph.has_cycle());
    assert_eq!(graph.topological_sort(), Some(vec![]));
    assert_eq!(graph.transitive_closure("a").len(), 0);
    assert!(graph.find_shortest_path("a", "b").is_none());
}

#[test]
fn path_from_a_symbol_to_itself_is_the_symbol() {
    let mut graph = SymbolGraph::new();
    graph.add_edge("a", "b", "calls");
    assert_eq!(graph.find_shortest_path("b", "b"), Some(owned(&["b"])));
    assert_eq!(
        graph.find_shortest_path("elsewhere", "elsewhere"),
        Some(owned(&["elsewhere"]))
    );
}

#[test]
fn depth_zero_lists_nothing() {
    let mut graph = SymbolGraph::new();
    graph.add_edge("a", "b", "calls");
    assert!(graph
        .traverse("a", TraversalDirection::Outgoing, 0)
        .is_empty());
}

#[test]
fn traversal_follows_edges_in_the_order_they_were_added() {
    let mut graph = SymbolGraph::new();
    graph.add_edge("root", "late", "uses");
    graph.add_edge("root", "early", "calls");
    graph.add_edge("root", "late", "calls");
    graph.add_edge("early", "shared", "calls");
    graph.add_edge("late", "shared", "calls");
    assert_eq!(
        graph.traverse("root", TraversalDirection::Outgoing, 9),
        vec![
            ("late".to_string(), 1),
            ("early".to_string(), 1),
            ("shared".to_string(), 2)
        ]
    );
    assert_eq!(
        graph.traverse("shared", TraversalDirection::Incoming, 1),
        vec![("early".to_string(), 1), ("late".to_string(), 1)]
    );
}

#[test]
fn deeper_traversal_extends_shallower_one() {
    let mut graph = SymbolGraph::new();
    graph.add_edge("a", "b", "calls");
    graph.add_edge("a", "c", "calls");
    graph.add_edge("b", "d", "calls");
    graph.add_edge("d", "e", "calls");
    let mut shorter = Vec::new();
    for depth in 0..5 {
        let longer = graph.traverse("a", TraversalDirection::Outgoing, depth);
        assert!(longer.starts_with(&shorter));
        shorter = longer;
    }
    assert_eq!(shorter.len(), 4);
}

#[test]
fn incoming_traversal_is_outgoing_of_turned_edges() {
    let edges = [("a", "b"), ("b", "c"), ("c", "a"), ("d", "b"), ("b", "b")];
    let mut graph = SymbolGraph::new();
    let mut turned = SymbolGraph::new();
    for (from, to) in edges {
        graph.add_edge(from, to, "calls");
        turned.add_edge(to, from, "calls");
    }
    for root in ["a", "b", "c", "d", "e"] {
        assert_eq!(
            graph.traverse(root, TraversalDirection::Incoming, 3),
            turned.traverse(root, TraversalDirection::Outgoing, 3)
        );
    }
}

#[test]
fn self_loop_is_a_cycle() {
    let mut graph = SymbolGraph::new();
    graph.add_edge("a", "b", "calls");
    assert!(!graph.has_cycle());
    assert_eq!(graph.topological_sort(), Some(owned(&["a", "b"])));
    graph.add_edge("b", "b", "calls");
    assert!(graph.has_cycle());
    assert!(graph.topological_sort().is_none());
    let sccs = graph.strongly_connected_components();
    assert_eq!(sccs.len(), 2);
    assert!(sccs.iter().all(|c| c.len() == 1));
    assert_eq!(graph.transitive_closure("b").len(), 1);
    assert!(graph.transitive_closure("b").contains("b"));
}

#[test]
fn parallel_edges_do_not_stop_the_sort() {
    let mut graph = SymbolGraph::new();
    graph.add_edge("a", "b", "calls");
    graph.add_edge("a", "b", "uses");
    graph.add_edge("b", "c", "calls");
    graph.add_edge("a", "c", "calls");
    assert_eq!(graph.topological_sort(), Some(owned(&["a", "b", "c"])));
    assert_eq!(
        graph.find_shortest_path("a", "c"),
        Some(owned(&["a", "c"]))
    );
}

#[test]
fn components_come_apart() {
    let mut graph = SymbolGraph::new();
    // Two cycles, one leading to the other, and a tail.
    graph.add_edge("a", "b", "calls");
    graph.add_edge("b", "a", "calls");
    graph.add_edge("b", "c", "calls");
    graph.add_edge("c", "d", "calls");
    graph.add_edge("d", "c", "calls");
    graph.add_edge("d", "e", "calls");
    let mut sccs = graph.strongly_connected_components();
    for component in sccs.iter_mut() {
        component.sort();
    }
    sccs.sort();
    assert_eq!(
        sccs,
        vec![owned(&["a", "b"]), owned(&["c", "d"]), owned(&["e"])]
    );
    let mut closure = Vec::new();
    for name in ["a", "b", "c", "d", "e"] {
        if graph.transitive_closure("a").contains(name) {
            closure.push(name);
        }
    }
    assert_eq!(closure, vec!["a", "b", "c", "d", "e"]);
}

#[test]
fn clone_is_independent() {
    let mut graph = SymbolGraph::new();
    graph.add_edge("a", "b", "calls");
    let copy = graph.clone();
    graph.add_edge("b", "a", "calls");
    assert!(graph.has_cycle());
    assert!(!copy.has_cycle());
    assert_eq!(copy.topological_sort(), Some(owned(&["a", "b"])));
}

#[test]
fn shortest_path_has_the_length_that_traversal_counts() {
    let mut graph = SymbolGraph::new();
    for i in 0..6 {
        graph.add_edge(&format!("n{}", i), &format!("n{}", i + 1), "calls");
    }
    graph.add_edge("n1", "n5", "calls");
    for (name, hops) in graph.traverse("n0", TraversalDirection::Outgoing, 10) {
        let path = graph.find_shortest_path("n0", &name).unwrap();
        assert_eq!(path.len(), hops + 1);
    }
    assert_eq!(
        graph.find_shortest_path("n0", "n6"),
        Some(owned(&["n0", "n1", "n5", "n6"]))
    );
}

#[test]
fn distance_is_the_same_from_either_end() {
    let mut graph = SymbolGraph::new();
    graph.add_edge("a", "b", "calls");
    graph.add_edge("b", "c", "calls");
    graph.add_edge("a", "d", "calls");
    graph.add_edge("d", "c", "calls");
    graph.add_edge("c", "a", "calls");
    for (name, hops) in graph.traverse("a", TraversalDirection::Outgoing, 9) {
        let callers = graph.traverse(&name, TraversalDirection::Incoming, 9);
        assert!(callers.contains(&("a".to_string(), hops)));
    }
}

#[test]
fn an_added_edge_keeps_paths_and_may_shorten_them() {
    let mut graph = SymbolGraph::new();
    graph.add_edge("a", "b", "calls");
    graph.add_edge("b", "c", "calls");
    graph.add_edge("c", "d", "calls");
    assert_eq!(graph.find_shortest_path("a", "d").unwrap().len(), 4);
    graph.add_edge("d", "x", "calls");
    assert_eq!(graph.find_shortest_path("a", "d").unwrap().len(), 4);
    graph.add_edge("a", "c", "calls");
    assert_eq!(
        graph.find_shortest_path("a", "d"),
        Some(owned(&["a", "c", "d"]))
    );
}

#[test]
fn paths_lead_to_what_the_closure_holds() {
    let mut graph = SymbolGraph::new();
    graph.add_edge("a", "b", "calls");
    graph.add_edge("b", "c", "calls");
    graph.add_edge("c", "b", "calls");
    graph.add_edge("e", "a", "calls");
    let names = ["a", "b", "c", "e", "elsewhere"];
    for from in names {
        for to in names {
            assert_eq!(
                graph.find_shortest_path(from, to).is_some(),
                from == to || graph.transitive_closure(from).contains(to)
            );
        }
    }
}

#[test]
fn cycles_show_in_the_components() {
    let mut graph = SymbolGraph::new();
    graph.add_edge("a", "b", "calls");
    graph.add_edge("b", "c", "calls");
    assert!(graph
        .strongly_connected_components()
        .iter()
        .all(|c| c.len() == 1));
    assert!(!graph.has_cycle());
    graph.add_edge("c", "b", "calls");
    assert!(graph
        .strongly_connected_components()
        .iter()
        .any(|c| c.len() == 2));
    assert!(graph.has_cycle());
    assert!(graph.topological_sort().is_none());
}

#[test]
fn an_added_edge_extends_reach_over_itself_only() {
    let names = ["a", "b", "c", "d", "e"];
    let edges = [("a", "b"), ("c", "d"), ("d", "c"), ("e", "a")];
    let build = |extra: bool| {
        let mut graph = SymbolGraph::new();
        for (from, to) in edges {
            graph.add_edge(from, to, "calls");
        }
        if extra {
            graph.add_edge("b", "c", "calls");
        }
        graph
    };
    let before = build(false);
    let after = build(true);
    let reach = |g: &SymbolGraph, from: &str, to: &str| g.find_shortest_path(from, to).is_some();
    for a in names {
        for c in names {
            assert_eq!(
                reach(&after, a, c),
                reach(&before, a, c) || (reach(&before, a, "b") && reach(&before, "c", c))
            );
        }
    }
}
