use tiergraph::graph::{BuildError, Builder, Graph};

fn expect_err<T: Clone>(result: Result<Graph<T>, BuildError>) -> BuildError {
    match result {
        Err(e) => e,
        Ok(_) => panic!("expected build to fail"),
    }
}

#[test]
fn simple_connection() {
    let mut builder = Builder::new();
    let n1 = builder.node("node1");
    let n2 = builder.node("node2");
    builder.connect(&n1, &n2);

    assert_eq!(n1, builder.inbound_of(&n2)[0]);
    assert_eq!(n2, builder.outbound_of(&n1)[0]);
}

#[test]
fn ids_are_sequential_from_zero() {
    let mut builder = Builder::new();
    let a = builder.node("a");
    let b = builder.node("b");
    let c = builder.node("c");
    assert_eq!(a.id(), 0);
    assert_eq!(b.id(), 1);
    assert_eq!(c.id(), 2);
    let d = builder.node("d");
    assert_eq!(d.id(), 3);
}

#[test]
fn fork_makes_two_tiers() {
    let mut builder = Builder::new();
    let a = builder.node("A");
    let b = builder.node("B");
    let c = builder.node("C");
    builder.connect(&a, &b);
    builder.connect(&a, &c);

    let graph = builder.build().unwrap();
    assert_eq!(graph.tiers(), &vec![vec!["A"], vec!["B", "C"]]);
    assert_eq!(graph.tier_ids(), &vec![vec![a.id()], vec![b.id(), c.id()]]);
    assert_eq!(graph.node_count(), 3);
}

#[test]
fn diamond_makes_three_tiers() {
    let mut builder = Builder::new();
    let a = builder.node("A");
    let b = builder.node("B");
    let c = builder.node("C");
    let d = builder.node("D");
    builder.connect(&a, &b);
    builder.connect(&a, &c);
    builder.connect(&b, &d);
    builder.connect(&c, &d);

    let graph = builder.build().unwrap();
    assert_eq!(graph.tiers(), &vec![vec!["A"], vec!["B", "C"], vec!["D"]]);
    assert_eq!(
        graph.tier_ids(),
        &vec![vec![a.id()], vec![b.id(), c.id()], vec![d.id()]]
    );
}

#[test]
fn chain_makes_singleton_tiers() {
    let mut builder = Builder::new();
    let mut handles = Vec::new();
    for i in 0u64..5 {
        handles.push(builder.node(i));
    }
    for i in 0..4 {
        builder.connect(&handles[i], &handles[i + 1]);
    }

    let graph = builder.build().unwrap();
    assert_eq!(
        graph.tiers(),
        &vec![vec![0], vec![1], vec![2], vec![3], vec![4]]
    );
    assert_eq!(graph.node_count(), 5);
}

#[test]
fn single_isolated_node() {
    let mut builder = Builder::new();
    let _a = builder.node("A");
    let graph = builder.build().unwrap();
    assert_eq!(graph.tiers(), &vec![vec!["A"]]);
    assert_eq!(graph.node_count(), 1);
}

#[test]
fn empty_builder_is_rejected() {
    let builder = Builder::<u64>::new();
    assert_eq!(expect_err(builder.build()), BuildError::EmptyGraph);
}

#[test]
fn all_nodes_with_predecessors_is_rejected() {
    // A two-node loop leaves no start node, which is reported before any
    // cycle hunt begins.
    let mut builder = Builder::new();
    let a = builder.node("A");
    let b = builder.node("B");
    builder.connect(&a, &b);
    builder.connect(&b, &a);
    assert_eq!(expect_err(builder.build()), BuildError::NoStartNodes);
}

#[test]
fn reachable_cycle_is_detected() {
    // S -> A -> B -> A: the search from S runs into the loop and names the
    // node that closes it.
    let mut builder = Builder::new();
    let s = builder.node("S");
    let a = builder.node("A");
    let b = builder.node("B");
    builder.connect(&s, &a);
    builder.connect(&a, &b);
    builder.connect(&b, &a);
    let err = expect_err(builder.build());
    assert!(
        matches!(err, BuildError::CycleDetected { node_id } if node_id == a.id() || node_id == b.id())
    );
}

#[test]
fn self_loop_is_detected() {
    let mut builder = Builder::new();
    let s = builder.node("S");
    let a = builder.node("A");
    builder.connect(&s, &a);
    builder.connect(&a, &a);
    let err = expect_err(builder.build());
    assert_eq!(err, BuildError::CycleDetected { node_id: a.id() });
}

#[test]
fn unreachable_cycle_is_not_swallowed() {
    // The isolated node is a start node, but the loop B -> C -> B has to be
    // reported rather than silently dropped from the schedule.
    let mut builder = Builder::new();
    let _a = builder.node("A");
    let b = builder.node("B");
    let c = builder.node("C");
    builder.connect(&b, &c);
    builder.connect(&c, &b);
    let err = expect_err(builder.build());
    assert!(
        matches!(err, BuildError::CycleDetected { node_id } if node_id == b.id() || node_id == c.id())
    );
}

#[test]
fn order_is_a_linearization() {
    let mut builder = Builder::new();
    let v0 = builder.node("vertex0");
    let v1 = builder.node("vertex1");
    let v2 = builder.node("vertex2");
    let v3 = builder.node("vertex3");
    let v4 = builder.node("vertex4");
    let v5 = builder.node("vertex5");
    let edges = [
        (v0, v2),
        (v1, v2),
        (v1, v3),
        (v2, v4),
        (v3, v4),
        (v5, v3),
    ];
    for (tail, head) in edges.iter() {
        builder.connect(tail, head);
    }

    let graph = builder.build().unwrap();
    let order = graph.order();
    assert_eq!(order.len(), 6);
    let position = |id: usize| order.iter().position(|&x| x == id).unwrap();
    for (tail, head) in edges.iter() {
        assert!(position(tail.id()) < position(head.id()));
    }
}

#[test]
fn tiers_respect_every_edge() {
    let mut builder = Builder::new();
    let v0 = builder.node(0u64);
    let v1 = builder.node(1u64);
    let v2 = builder.node(2u64);
    let v3 = builder.node(3u64);
    let v4 = builder.node(4u64);
    let edges = [(v0, v2), (v1, v2), (v2, v3), (v1, v3), (v0, v4)];
    for (tail, head) in edges.iter() {
        builder.connect(tail, head);
    }

    let graph = builder.build().unwrap();
    let tier_of = |id: usize| {
        graph
            .tier_ids()
            .iter()
            .position(|row| row.contains(&id))
            .unwrap()
    };
    for (tail, head) in edges.iter() {
        assert!(tier_of(tail.id()) < tier_of(head.id()));
    }
    // Longest-path layering: tier 0 holds exactly the nodes with no inbound
    // edge, and v3 sits above v2.
    assert_eq!(graph.tier_ids()[0], vec![v0.id(), v1.id()]);
    assert_eq!(graph.tier_ids()[1], vec![v2.id(), v4.id()]);
    assert_eq!(graph.tier_ids()[2], vec![v3.id()]);
}

#[test]
fn repeated_builds_are_identical() {
    let mut builder = Builder::new();
    let a = builder.node("A");
    let b = builder.node("B");
    let c = builder.node("C");
    builder.connect(&a, &b);
    builder.connect(&a, &c);
    builder.connect(&b, &c);

    let first = builder.build().unwrap();
    let second = builder.build().unwrap();
    assert_eq!(first.tiers(), second.tiers());
    assert_eq!(first.tier_ids(), second.tier_ids());
    assert_eq!(first.order(), second.order());
}

#[test]
fn duplicate_edges_are_preserved_and_harmless() {
    let mut builder = Builder::new();
    let a = builder.node("A");
    let b = builder.node("B");
    builder.connect(&a, &b);
    builder.connect(&a, &b);
    assert_eq!(builder.outbound_of(&a).len(), 2);
    assert_eq!(builder.inbound_of(&b).len(), 2);

    let graph = builder.build().unwrap();
    assert_eq!(graph.tiers(), &vec![vec!["A"], vec!["B"]]);
}

#[test]
fn build_then_grow_then_build_again() {
    let mut builder = Builder::new();
    let a = builder.node("A");
    let b = builder.node("B");
    builder.connect(&a, &b);
    let first = builder.build().unwrap();
    assert_eq!(first.node_count(), 2);

    let c = builder.node("C");
    builder.connect(&b, &c);
    let second = builder.build().unwrap();
    assert_eq!(second.node_count(), 3);
    assert_eq!(second.tiers(), &vec![vec!["A"], vec!["B"], vec!["C"]]);
}
