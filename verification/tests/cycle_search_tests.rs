use service_graph::cycles::{build_dependency_graph, find_cycles, DependencyGraph};
use service_graph::relationship::{Relationship, RelationshipType};
use vstd::hash_set::StringHashSet;

fn depends_on(id: &str, source: &str, target: &str) -> Relationship {
    Relationship {
        id: id.to_string(),
        source: source.to_string(),
        target: target.to_string(),
        relationship_type: RelationshipType::DependsOn,
        description: None,
        metadata: None,
    }
}

fn strings(items: &[&str]) -> Vec<String> {
    items.iter().map(|s| s.to_string()).collect()
}

fn search(graph: &DependencyGraph, start: &str) -> Vec<Vec<String>> {
    let mut visited = StringHashSet::new();
    let mut path = Vec::new();
    let mut cycles = Vec::new();
    find_cycles(graph, start, &mut visited, &mut path, &mut cycles, start);
    assert!(path.is_empty());
    assert!(visited.is_empty());
    cycles
}

#[test]
fn a_search_finds_every_way_back_in_the_order_of_the_relationships() {
    let rels = vec![
        depends_on("r1", "A", "C"),
        depends_on("r2", "A", "B"),
        depends_on("r3", "B", "A"),
        depends_on("r4", "C", "A"),
        depends_on("r5", "C", "B"),
    ];
    let graph = build_dependency_graph(&rels, &strings(&["A", "B", "C"]));
    assert_eq!(
        search(&graph, "A"),
        vec![
            strings(&["A", "C", "A"]),
            strings(&["A", "C", "B", "A"]),
            strings(&["A", "B", "A"]),
        ]
    );
    assert_eq!(
        search(&graph, "B"),
        vec![strings(&["B", "A", "C", "B"]), strings(&["B", "A", "B"])]
    );
}

#[test]
fn a_search_from_a_node_off_the_cycle_finds_nothing() {
    let rels = vec![
        depends_on("r1", "S", "A"),
        depends_on("r2", "A", "B"),
        depends_on("r3", "B", "A"),
    ];
    let graph = build_dependency_graph(&rels, &strings(&["S", "A", "B"]));
    assert!(search(&graph, "S").is_empty());
    assert_eq!(search(&graph, "A"), vec![strings(&["A", "B", "A"])]);
}

#[test]
fn a_search_appends_to_the_cycles_it_is_given() {
    let rels = vec![depends_on("r1", "A", "B"), depends_on("r2", "B", "A")];
    let graph = build_dependency_graph(&rels, &strings(&["A", "B"]));
    let mut visited = StringHashSet::new();
    let mut path = Vec::new();
    let mut cycles = vec![strings(&["kept"])];
    find_cycles(&graph, "A", &mut visited, &mut path, &mut cycles, "A");
    assert_eq!(cycles, vec![strings(&["kept"]), strings(&["A", "B", "A"])]);
}

#[test]
fn a_repeated_relationship_gives_the_cycle_twice_before_deduplication() {
    let rels = vec![
        depends_on("r1", "A", "B"),
        depends_on("r2", "A", "B"),
        depends_on("r3", "B", "A"),
    ];
    let graph = build_dependency_graph(&rels, &strings(&["A", "B"]));
    assert_eq!(
        search(&graph, "A"),
        vec![strings(&["A", "B", "A"]), strings(&["A", "B", "A"])]
    );
}

#[test]
fn a_graph_lists_the_dependencies_of_its_nodes() {
    let mut graph = DependencyGraph::new();
    graph.add_node("A");
    graph.add_node("B");
    graph.add_node("A");
    graph.add_dependency("A", "B");
    graph.add_dependency("A", "X");
    graph.add_dependency("X", "A");
    assert_eq!(graph.neighbors("A"), Some(&strings(&["B", "X"])));
    assert_eq!(graph.neighbors("B"), Some(&Vec::new()));
    assert_eq!(graph.neighbors("X"), None);
}
