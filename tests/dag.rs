use rs_taskflow::dag::Dag;
use rs_taskflow::visit::GraphError;

#[derive(Hash, Clone, Eq, PartialEq, Debug)]
struct MockStruct {
    id: char,
}

impl MockStruct {
    fn new(id: char) -> MockStruct {
        MockStruct { id }
    }
}

#[test]
fn build_dag() {
    let mut dag = Dag::new();

    let a = dag.add_node(MockStruct::new('A'));
    let b = dag.add_node(MockStruct::new('a'));
    let c = dag.add_node(MockStruct::new('C'));
    let d = dag.add_node(MockStruct::new('D'));
    let e = dag.add_node(MockStruct::new('E'));
    let f = dag.add_node(MockStruct::new('F'));
    let g = dag.add_node(MockStruct::new('G'));
    let h = dag.add_node(MockStruct::new('H'));

    dag.connect(a, b);
    dag.connect(b, c);
    dag.connect(c, d);
    dag.connect(d, e);
    dag.connect(d, f);
    dag.connect(f, g);
    dag.connect(f, h);

    let bfs = dag.build_bfs();
    assert!(bfs.is_ok());
}

#[test]
fn build_dag_with_circular_dependency() {
    let mut dag = Dag::new();

    let a = dag.add_node(MockStruct::new('A'));
    let b = dag.add_node(MockStruct::new('a'));
    let c = dag.add_node(MockStruct::new('C'));
    let d = dag.add_node(MockStruct::new('D'));
    let e = dag.add_node(MockStruct::new('E'));
    let f = dag.add_node(MockStruct::new('F'));
    let g = dag.add_node(MockStruct::new('G'));
    let h = dag.add_node(MockStruct::new('H'));

    dag.connect(a, b);
    dag.connect(b, c);
    dag.connect(c, d);
    dag.connect(d, e);
    dag.connect(d, f);
    dag.connect(f, g);
    dag.connect(f, h);
    dag.connect(d, b); // causes circular dependency

    let bfs = dag.build_bfs();
    assert!(bfs.is_err());
}

#[test]
fn remove_nodes() {
    let mut dag = Dag::new();

    let a = dag.add_node(MockStruct::new('A'));
    let b = dag.add_node(MockStruct::new('B'));

    dag.connect(a, b);

    let mut bfs = dag.build_bfs().unwrap();

    assert!(
        !bfs.get_dependencies(b).is_empty(),
        "Node was not successfully removed"
    );

    bfs.visited_node(&*dag.get_node(a));

    assert!(
        bfs.get_dependencies(b).is_empty(),
        "Node was not successfully removed"
    );
}

fn chain_with_back_edge() -> Dag<MockStruct> {
    let mut dag = Dag::new();
    let a = dag.add_node(MockStruct::new('A'));
    let b = dag.add_node(MockStruct::new('B'));
    let c = dag.add_node(MockStruct::new('C'));
    dag.connect(a, b);
    dag.connect(b, c);
    dag.connect(c, b);
    dag
}

#[test]
fn cycle_reached_from_root_is_detected() {
    let dag = chain_with_back_edge();
    assert_eq!(dag.build_bfs().err(), Some(GraphError::CycleDetected));
}

#[test]
fn self_loop_reached_from_root_is_detected() {
    let mut dag = Dag::new();
    let a = dag.add_node(MockStruct::new('A'));
    let b = dag.add_node(MockStruct::new('B'));
    dag.connect(a, b);
    dag.connect(b, b);
    assert_eq!(dag.build_bfs().err(), Some(GraphError::CycleDetected));
}

#[test]
fn graph_without_roots_fails_with_no_roots() {
    let mut dag = Dag::new();
    let a = dag.add_node(MockStruct::new('A'));
    let b = dag.add_node(MockStruct::new('B'));
    dag.connect(a, b);
    dag.connect(b, a);
    assert_eq!(dag.build_bfs().err(), Some(GraphError::NoRoots));
}

#[test]
fn empty_graph_fails_with_no_roots() {
    let dag: Dag<MockStruct> = Dag::new();
    assert_eq!(dag.build_bfs().err(), Some(GraphError::NoRoots));
}

#[test]
fn cycle_apart_from_every_root_is_detected() {
    let mut dag = Dag::new();
    let _a = dag.add_node(MockStruct::new('A'));
    let b = dag.add_node(MockStruct::new('B'));
    let c = dag.add_node(MockStruct::new('C'));
    dag.connect(b, c);
    dag.connect(c, b);
    assert_eq!(dag.build_bfs().err(), Some(GraphError::CycleDetected));
}

#[test]
fn cycle_downstream_of_a_cycle_apart_from_roots_is_detected() {
    let mut dag = Dag::new();
    let a = dag.add_node(MockStruct::new('A'));
    let b = dag.add_node(MockStruct::new('B'));
    let c = dag.add_node(MockStruct::new('C'));
    let d = dag.add_node(MockStruct::new('D'));
    dag.connect(a, d);
    dag.connect(b, c);
    dag.connect(c, b);
    dag.connect(c, d);
    assert_eq!(dag.build_bfs().err(), Some(GraphError::CycleDetected));
}

#[test]
fn next_and_visited_node_visit_every_node_once() {
    let mut dag = Dag::new();
    let ids: Vec<usize> = "ABCDE".chars().map(|c| dag.add_node(MockStruct::new(c))).collect();
    let edges = [(0, 2), (1, 2), (2, 3), (1, 4), (4, 3)];
    for (f, t) in edges {
        dag.connect(ids[f], ids[t]);
    }
    let mut bfs = dag.build_bfs().unwrap();
    let mut order = Vec::new();
    while let Some(node) = bfs.next() {
        bfs.visited_node(node);
        order.push(node.get_id());
    }
    let mut seen = order.clone();
    seen.sort();
    assert_eq!(seen, ids);
    let pos = |n: usize| order.iter().position(|&x| x == n).unwrap();
    for (f, t) in edges {
        assert!(pos(f) < pos(t));
    }
}

#[test]
fn add_node_numbers_nodes_in_order() {
    let mut dag = Dag::new();
    assert_eq!(dag.add_node(MockStruct::new('A')), 0);
    assert_eq!(dag.add_node(MockStruct::new('B')), 1);
    assert_eq!(dag.add_node(MockStruct::new('C')), 2);
    assert_eq!(dag.get_num_nodes(), 3);
    assert_eq!(dag.get_node(1).get_id(), 1);
    assert_eq!(*dag.get_node(2).get_value(), MockStruct::new('C'));
}

#[test]
fn get_mut_node_changes_the_value() {
    let mut dag = Dag::new();
    let a = dag.add_node(MockStruct::new('A'));
    *dag.get_mut_node(a).get_mut_value() = MockStruct::new('Z');
    assert_eq!(*dag.get_node(a).get_value(), MockStruct::new('Z'));
}

#[test]
fn connect_twice_equals_connect_once() {
    let mut dag = Dag::new();
    let a = dag.add_node(MockStruct::new('A'));
    let b = dag.add_node(MockStruct::new('B'));
    dag.connect(a, b);
    let once = dag.get_dependencies(b).clone();
    dag.connect(a, b);
    assert_eq!(dag.get_dependencies(b), &once);
    assert_eq!(once, vec![a]);
}

#[test]
fn visit_all_visits_each_node_once_after_its_dependencies() {
    let mut dag = Dag::new();
    let ids: Vec<usize> = "ABCDEFGH".chars().map(|c| dag.add_node(MockStruct::new(c))).collect();
    let edges = [(0, 1), (1, 2), (2, 3), (3, 4), (3, 5), (5, 6), (5, 7), (0, 7)];
    for (f, t) in edges {
        dag.connect(ids[f], ids[t]);
    }
    let mut bfs = dag.build_bfs().unwrap();
    let order = bfs.visit_all();
    assert_eq!(order.len(), 8);
    let mut seen = order.clone();
    seen.sort();
    assert_eq!(seen, ids);
    let pos = |n: usize| order.iter().position(|&x| x == n).unwrap();
    for (f, t) in edges {
        assert!(pos(f) < pos(t));
    }
    assert!(bfs.get_next_root().is_none());
    assert!(bfs.next().is_none());
}

#[test]
fn frontier_admits_a_node_only_after_all_its_dependencies() {
    let mut dag = Dag::new();
    let a = dag.add_node(MockStruct::new('A'));
    let b = dag.add_node(MockStruct::new('B'));
    let c = dag.add_node(MockStruct::new('C'));
    dag.connect(a, c);
    dag.connect(b, c);
    let mut bfs = dag.build_bfs().unwrap();
    let mut roots = bfs.get_roots().clone();
    roots.sort();
    assert_eq!(roots, vec![a, b]);
    bfs.visited_node(&*dag.get_node(a));
    assert_eq!(bfs.get_roots(), &vec![b]);
    assert_eq!(bfs.get_dependencies(c), &vec![b]);
    bfs.visited_node(&*dag.get_node(b));
    assert_eq!(bfs.get_roots(), &vec![c]);
    assert_eq!(bfs.next().unwrap().get_id(), c);
    assert_eq!(bfs.get_dependants(a), &vec![c]);
}
