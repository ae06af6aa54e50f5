use service_graph::error::AppError;
use service_graph::graph::{get_service_graph, GraphData};
use service_graph::relationship::{Relationship, RelationshipType};
use service_graph::service::{Service, ServiceStatus, ServiceType};
use service_graph::table::ServiceTable;

fn service(id: &str) -> Service {
    Service {
        id: id.to_string(),
        name: format!("Service {}", id),
        service_type: ServiceType::Api,
        status: ServiceStatus::Healthy,
        description: None,
        version: None,
        owner: None,
        team: None,
        tags: Vec::new(),
        metadata: Vec::new(),
    }
}

fn relationship(id: &str, source: &str, target: &str, kind: RelationshipType) -> Relationship {
    Relationship {
        id: id.to_string(),
        source: source.to_string(),
        target: target.to_string(),
        relationship_type: kind,
        description: None,
        metadata: None,
    }
}

fn depends_on(id: &str, source: &str, target: &str) -> Relationship {
    relationship(id, source, target, RelationshipType::DependsOn)
}

fn table(ids: &[&str]) -> ServiceTable {
    let services: Vec<Service> = ids.iter().map(|id| service(id)).collect();
    ServiceTable::from_services(&services)
}

fn connected_ids(graph: &GraphData) -> Vec<String> {
    let mut ids: Vec<String> = graph.connected_services.iter().map(|s| s.id.clone()).collect();
    ids.sort();
    ids
}

fn edge_ids(graph: &GraphData) -> Vec<String> {
    let mut ids: Vec<String> = graph.relationships.iter().map(|r| r.id.clone()).collect();
    ids.sort();
    ids
}

fn strings(items: &[&str]) -> Vec<String> {
    items.iter().map(|s| s.to_string()).collect()
}

fn chain() -> Vec<Relationship> {
    vec![depends_on("ab", "A", "B"), depends_on("bc", "B", "C")]
}

#[test]
fn depth_zero_is_the_center_alone() {
    let services = table(&["A", "B", "C"]);
    let graph = get_service_graph(&services, &chain(), "A", Some(0)).unwrap();
    assert_eq!(graph.center_service.id, "A");
    assert_eq!(graph.center_service.name, "Service A");
    assert!(graph.connected_services.is_empty());
    assert!(graph.relationships.is_empty());
}

#[test]
fn depth_zero_is_the_center_alone_however_many_relationships() {
    let services = table(&["A", "B", "C", "D"]);
    let mut rels = Vec::new();
    for (n, other) in ["B", "C", "D", "A"].iter().enumerate() {
        rels.push(depends_on(&format!("out{}", n), "A", other));
        rels.push(depends_on(&format!("in{}", n), other, "A"));
    }
    let graph = get_service_graph(&services, &rels, "A", Some(0)).unwrap();
    assert!(graph.connected_services.is_empty());
    assert!(graph.relationships.is_empty());
}

#[test]
fn depth_one_reaches_the_direct_neighbours() {
    let services = table(&["A", "B", "C"]);
    let graph = get_service_graph(&services, &chain(), "A", Some(1)).unwrap();
    assert_eq!(connected_ids(&graph), strings(&["B"]));
    assert_eq!(edge_ids(&graph), strings(&["ab"]));
    assert_eq!(graph.relationships[0].source, "A");
    assert_eq!(graph.relationships[0].target, "B");
}

#[test]
fn depth_two_reaches_the_neighbours_of_neighbours() {
    let services = table(&["A", "B", "C"]);
    let graph = get_service_graph(&services, &chain(), "A", Some(2)).unwrap();
    assert_eq!(connected_ids(&graph), strings(&["B", "C"]));
    assert_eq!(edge_ids(&graph), strings(&["ab", "bc"]));
}

#[test]
fn the_depth_is_one_where_none_is_given() {
    let services = table(&["A", "B", "C"]);
    let graph = get_service_graph(&services, &chain(), "A", None).unwrap();
    assert_eq!(connected_ids(&graph), strings(&["B"]));
    assert_eq!(edge_ids(&graph), strings(&["ab"]));
}

#[test]
fn relationships_are_followed_against_their_direction() {
    let services = table(&["A", "B", "C"]);
    let graph = get_service_graph(&services, &chain(), "C", Some(2)).unwrap();
    assert_eq!(graph.center_service.id, "C");
    assert_eq!(connected_ids(&graph), strings(&["A", "B"]));
    assert_eq!(edge_ids(&graph), strings(&["ab", "bc"]));
}

#[test]
fn a_center_in_the_middle_sees_both_sides() {
    let services = table(&["A", "B", "C"]);
    let graph = get_service_graph(&services, &chain(), "B", Some(1)).unwrap();
    assert_eq!(connected_ids(&graph), strings(&["A", "C"]));
    assert_eq!(edge_ids(&graph), strings(&["ab", "bc"]));
}

#[test]
fn an_unknown_center_is_an_error() {
    let services = table(&["A", "B"]);
    let result = get_service_graph(&services, &chain(), "nope", Some(1));
    match result {
        Err(AppError::ServiceNotFound(id)) => assert_eq!(id, "nope"),
        _ => panic!("expected ServiceNotFound"),
    }
}

#[test]
fn an_unknown_center_is_an_error_at_depth_zero_too() {
    let services = table(&[]);
    let result = get_service_graph(&services, &[], "A", Some(0));
    assert!(matches!(result, Err(AppError::ServiceNotFound(_))));
}

#[test]
fn a_relationship_to_an_unknown_service_is_left_out() {
    let services = table(&["A", "B"]);
    let rels = vec![depends_on("ab", "A", "B"), depends_on("ax", "A", "X")];
    let graph = get_service_graph(&services, &rels, "A", Some(1)).unwrap();
    assert_eq!(connected_ids(&graph), strings(&["B"]));
    assert_eq!(edge_ids(&graph), strings(&["ab"]));
}

#[test]
fn the_search_passes_through_an_unknown_service() {
    let services = table(&["A", "B"]);
    let rels = vec![depends_on("ax", "A", "X"), depends_on("xb", "X", "B")];
    let near = get_service_graph(&services, &rels, "A", Some(1)).unwrap();
    assert!(near.connected_services.is_empty());
    assert!(near.relationships.is_empty());
    let far = get_service_graph(&services, &rels, "A", Some(2)).unwrap();
    assert_eq!(connected_ids(&far), strings(&["B"]));
    assert!(far.relationships.is_empty());
}

#[test]
fn a_relationship_between_two_neighbours_needs_one_more_round() {
    let services = table(&["A", "B", "C"]);
    let rels = vec![
        depends_on("ab", "A", "B"),
        depends_on("ac", "A", "C"),
        depends_on("bc", "B", "C"),
    ];
    let near = get_service_graph(&services, &rels, "A", Some(1)).unwrap();
    assert_eq!(connected_ids(&near), strings(&["B", "C"]));
    assert_eq!(edge_ids(&near), strings(&["ab", "ac"]));
    let far = get_service_graph(&services, &rels, "A", Some(2)).unwrap();
    assert_eq!(connected_ids(&far), strings(&["B", "C"]));
    assert_eq!(edge_ids(&far), strings(&["ab", "ac", "bc"]));
}

#[test]
fn a_relationship_id_is_recorded_once() {
    let services = table(&["A", "B", "C"]);
    let rels = vec![
        depends_on("same", "A", "B"),
        depends_on("same", "A", "C"),
        depends_on("ba", "B", "A"),
    ];
    let graph = get_service_graph(&services, &rels, "A", Some(3)).unwrap();
    assert_eq!(connected_ids(&graph), strings(&["B", "C"]));
    assert_eq!(edge_ids(&graph), strings(&["ba", "same"]));
}

#[test]
fn a_cycle_does_not_trap_the_search() {
    let services = table(&["A", "B", "C"]);
    let rels = vec![
        depends_on("ab", "A", "B"),
        depends_on("bc", "B", "C"),
        depends_on("ca", "C", "A"),
    ];
    let graph = get_service_graph(&services, &rels, "A", Some(50)).unwrap();
    assert_eq!(connected_ids(&graph), strings(&["B", "C"]));
    assert_eq!(edge_ids(&graph), strings(&["ab", "bc", "ca"]));
}

#[test]
fn a_relationship_from_the_center_to_itself_is_recorded() {
    let services = table(&["A"]);
    let rels = vec![depends_on("aa", "A", "A")];
    let graph = get_service_graph(&services, &rels, "A", Some(1)).unwrap();
    assert!(graph.connected_services.is_empty());
    assert_eq!(edge_ids(&graph), strings(&["aa"]));
}

#[test]
fn relationships_of_every_type_are_followed() {
    let services = table(&["A", "B", "C"]);
    let rels = vec![
        relationship("ab", "A", "B", RelationshipType::Publishes),
        relationship("cb", "C", "B", RelationshipType::Custom("mirrors".to_string())),
    ];
    let graph = get_service_graph(&services, &rels, "A", Some(2)).unwrap();
    assert_eq!(connected_ids(&graph), strings(&["B", "C"]));
    assert_eq!(edge_ids(&graph), strings(&["ab", "cb"]));
}

#[test]
fn every_edge_has_both_ends_in_the_neighbourhood() {
    let services = table(&["A", "B", "C", "D", "E"]);
    let rels = vec![
        depends_on("ab", "A", "B"),
        depends_on("bc", "B", "C"),
        depends_on("cd", "C", "D"),
        depends_on("de", "D", "E"),
        depends_on("ea", "E", "A"),
        depends_on("bx", "B", "X"),
        depends_on("xd", "X", "D"),
    ];
    for depth in 0..5u32 {
        for center in ["A", "B", "C", "D", "E"].iter() {
            let graph = get_service_graph(&services, &rels, center, Some(depth)).unwrap();
            let mut nodes = connected_ids(&graph);
            nodes.push(graph.center_service.id.clone());
            for edge in graph.relationships.iter() {
                assert!(nodes.contains(&edge.source));
                assert!(nodes.contains(&edge.target));
            }
        }
    }
}

#[test]
fn the_connected_services_are_those_of_the_table() {
    let mut services = vec![service("A"), service("B")];
    services[1].description = Some("the second".to_string());
    services[1].tags = strings(&["x", "y"]);
    let table = ServiceTable::from_services(&services);
    let rels = vec![depends_on("ab", "A", "B")];
    let graph = get_service_graph(&table, &rels, "A", Some(1)).unwrap();
    assert_eq!(graph.connected_services.len(), 1);
    assert_eq!(graph.connected_services[0].id, "B");
    assert_eq!(graph.connected_services[0].description, Some("the second".to_string()));
    assert_eq!(graph.connected_services[0].tags, strings(&["x", "y"]));
    assert_eq!(graph.connected_services[0].status, ServiceStatus::Healthy);
}
