use service_graph::environments::{
    get_current_environment, list_environments, set_data_path, switch_environment,
};
use service_graph::error::AppError;
use service_graph::relationship::{Relationship, RelationshipType};
use service_graph::relationships::{
    delete_relationship, delete_relationships_for_service, get_all_relationships,
    get_relationships_for_service, relationships_loaded, relationships_stored, save_relationship,
};
use service_graph::service::{Service, ServiceStatus, ServiceType};
use service_graph::services::{
    delete_service, get_all_services, get_loaded_service, get_service_by_id, save_service,
    search_services, services_loaded, ServiceLookup,
};
use service_graph::state::AppState;
use service_graph::table::ServiceTable;

fn service(id: &str, name: &str) -> Service {
    Service {
        id: id.to_string(),
        name: name.to_string(),
        service_type: ServiceType::Backend,
        status: ServiceStatus::Unknown,
        description: None,
        version: None,
        owner: None,
        team: None,
        tags: Vec::new(),
        metadata: Vec::new(),
    }
}

fn relationship(id: &str, source: &str, target: &str, kind: RelationshipType) -> Relationship {
    Relationship {
        id: id.to_string(),
        source: source.to_string(),
        target: target.to_string(),
        relationship_type: kind,
        description: None,
        metadata: None,
    }
}

fn depends_on(id: &str, source: &str, target: &str) -> Relationship {
    relationship(id, source, target, RelationshipType::DependsOn)
}

fn strings(items: &[&str]) -> Vec<String> {
    items.iter().map(|s| s.to_string()).collect()
}

fn ids_of(services: &[Service]) -> Vec<String> {
    let mut ids: Vec<String> = services.iter().map(|s| s.id.clone()).collect();
    ids.sort();
    ids
}

fn rel_ids(relationships: &[Relationship]) -> Vec<String> {
    relationships.iter().map(|r| r.id.clone()).collect()
}

fn found(lookup: ServiceLookup) -> Service {
    match lookup {
        ServiceLookup::Found(service) => service,
        _ => panic!("expected the cache to have the service"),
    }
}

#[test]
fn a_new_state_is_on_dev_with_nothing_cached() {
    let state = AppState::new("/data".to_string());
    assert_eq!(state.current_environment, "dev");
    assert_eq!(state.data_path, "/data");
    assert_eq!(get_current_environment(&state), "dev");
    assert!(get_all_services(&state, "dev").is_none());
    assert!(get_all_relationships(&state, "dev").is_none());
    assert!(matches!(get_service_by_id(&state, "dev", "a"), ServiceLookup::NotLoaded));
}

#[test]
fn a_saved_service_is_read_back_from_the_cache() {
    let mut state = AppState::new("/data".to_string());
    let mut saved = service("api", "The API");
    saved.description = Some("front door".to_string());
    saved.status = ServiceStatus::Degraded;
    save_service(&mut state, "dev".to_string(), saved);
    let read = found(get_service_by_id(&state, "dev", "api"));
    assert_eq!(read.id, "api");
    assert_eq!(read.name, "The API");
    assert_eq!(read.description, Some("front door".to_string()));
    assert_eq!(read.status, ServiceStatus::Degraded);
    let all = get_all_services(&state, "dev").unwrap();
    assert_eq!(ids_of(&all), strings(&["api"]));
}

#[test]
fn saving_again_replaces_the_cached_service() {
    let mut state = AppState::new("/data".to_string());
    save_service(&mut state, "dev".to_string(), service("api", "old"));
    save_service(&mut state, "dev".to_string(), service("db", "store"));
    save_service(&mut state, "dev".to_string(), service("api", "new"));
    assert_eq!(found(get_service_by_id(&state, "dev", "api")).name, "new");
    assert_eq!(found(get_service_by_id(&state, "dev", "db")).name, "store");
    assert_eq!(get_all_services(&state, "dev").unwrap().len(), 2);
}

#[test]
fn environments_are_cached_apart() {
    let mut state = AppState::new("/data".to_string());
    save_service(&mut state, "dev".to_string(), service("api", "dev api"));
    assert!(matches!(get_service_by_id(&state, "prod", "api"), ServiceLookup::NotLoaded));
    save_service(&mut state, "prod".to_string(), service("api", "prod api"));
    assert_eq!(found(get_service_by_id(&state, "dev", "api")).name, "dev api");
    assert_eq!(found(get_service_by_id(&state, "prod", "api")).name, "prod api");
}

#[test]
fn a_cached_environment_without_the_service_says_absent() {
    let mut state = AppState::new("/data".to_string());
    save_service(&mut state, "dev".to_string(), service("api", "API"));
    assert!(matches!(get_service_by_id(&state, "dev", "db"), ServiceLookup::Absent));
    match get_loaded_service(&state, "dev", "db") {
        Err(AppError::ServiceNotFound(id)) => assert_eq!(id, "db"),
        _ => panic!("expected ServiceNotFound"),
    }
    assert_eq!(get_loaded_service(&state, "dev", "api").unwrap().name, "API");
}

#[test]
fn loaded_services_fill_the_cache() {
    let mut state = AppState::new("/data".to_string());
    let loaded = vec![service("a", "A"), service("b", "B")];
    let returned = services_loaded(&mut state, "dev".to_string(), loaded);
    assert_eq!(ids_of(&returned), strings(&["a", "b"]));
    assert_eq!(found(get_service_by_id(&state, "dev", "b")).name, "B");
    assert_eq!(ids_of(&get_all_services(&state, "dev").unwrap()), strings(&["a", "b"]));
}

#[test]
fn an_environment_loaded_empty_is_cached_as_empty() {
    let mut state = AppState::new("/data".to_string());
    services_loaded(&mut state, "dev".to_string(), Vec::new());
    assert_eq!(get_all_services(&state, "dev").unwrap().len(), 0);
    assert!(matches!(get_service_by_id(&state, "dev", "a"), ServiceLookup::Absent));
    relationships_loaded(&mut state, "dev".to_string(), Vec::new());
    assert_eq!(get_all_relationships(&state, "dev").unwrap().len(), 0);
}

#[test]
fn of_two_loaded_services_with_one_id_the_later_is_cached() {
    let mut state = AppState::new("/data".to_string());
    let loaded = vec![service("a", "first"), service("b", "B"), service("a", "second")];
    let returned = services_loaded(&mut state, "dev".to_string(), loaded);
    assert_eq!(returned.len(), 3);
    assert_eq!(found(get_service_by_id(&state, "dev", "a")).name, "second");
    assert_eq!(get_all_services(&state, "dev").unwrap().len(), 2);
}

#[test]
fn a_deleted_service_leaves_the_cache() {
    let mut state = AppState::new("/data".to_string());
    save_service(&mut state, "dev".to_string(), service("a", "A"));
    save_service(&mut state, "dev".to_string(), service("b", "B"));
    save_service(&mut state, "dev".to_string(), service("c", "C"));
    delete_service(&mut state, "dev", "a");
    assert!(matches!(get_service_by_id(&state, "dev", "a"), ServiceLookup::Absent));
    assert_eq!(found(get_service_by_id(&state, "dev", "b")).name, "B");
    assert_eq!(found(get_service_by_id(&state, "dev", "c")).name, "C");
    assert_eq!(ids_of(&get_all_services(&state, "dev").unwrap()), strings(&["b", "c"]));
    delete_service(&mut state, "dev", "c");
    delete_service(&mut state, "dev", "nope");
    assert_eq!(ids_of(&get_all_services(&state, "dev").unwrap()), strings(&["b"]));
}

#[test]
fn deleting_from_an_environment_that_is_not_cached_caches_nothing() {
    let mut state = AppState::new("/data".to_string());
    delete_service(&mut state, "dev", "a");
    assert!(get_all_services(&state, "dev").is_none());
}

#[test]
fn loaded_relationships_are_cached_in_order() {
    let mut state = AppState::new("/data".to_string());
    let loaded = vec![depends_on("r2", "b", "c"), depends_on("r1", "a", "b")];
    let returned = relationships_loaded(&mut state, "dev".to_string(), loaded);
    assert_eq!(rel_ids(&returned), strings(&["r2", "r1"]));
    let cached = get_all_relationships(&state, "dev").unwrap();
    assert_eq!(rel_ids(&cached), strings(&["r2", "r1"]));
    assert_eq!(cached[1].source, "a");
    assert!(get_all_relationships(&state, "prod").is_none());
}

#[test]
fn storing_relationships_drops_the_cached_list_but_not_the_services() {
    let mut state = AppState::new("/data".to_string());
    save_service(&mut state, "dev".to_string(), service("a", "A"));
    relationships_loaded(&mut state, "dev".to_string(), vec![depends_on("r1", "a", "b")]);
    relationships_loaded(&mut state, "prod".to_string(), vec![depends_on("p1", "a", "b")]);
    relationships_stored(&mut state, "dev");
    assert!(get_all_relationships(&state, "dev").is_none());
    assert_eq!(rel_ids(&get_all_relationships(&state, "prod").unwrap()), strings(&["p1"]));
    assert_eq!(found(get_service_by_id(&state, "dev", "a")).name, "A");
}

#[test]
fn clearing_the_cache_forgets_every_environment() {
    let mut state = AppState::new("/data".to_string());
    save_service(&mut state, "dev".to_string(), service("a", "A"));
    save_service(&mut state, "prod".to_string(), service("a", "A"));
    relationships_loaded(&mut state, "dev".to_string(), vec![depends_on("r1", "a", "b")]);
    state.clear_cache();
    assert!(get_all_services(&state, "dev").is_none());
    assert!(get_all_services(&state, "prod").is_none());
    assert!(get_all_relationships(&state, "dev").is_none());
    assert_eq!(state.current_environment, "dev");
    assert_eq!(state.data_path, "/data");
}

#[test]
fn clearing_one_environment_leaves_the_others() {
    let mut state = AppState::new("/data".to_string());
    save_service(&mut state, "dev".to_string(), service("a", "A"));
    save_service(&mut state, "prod".to_string(), service("p", "P"));
    relationships_loaded(&mut state, "dev".to_string(), vec![depends_on("r1", "a", "b")]);
    relationships_loaded(&mut state, "prod".to_string(), vec![depends_on("p1", "a", "b")]);
    state.clear_environment_cache("dev");
    assert!(get_all_services(&state, "dev").is_none());
    assert!(get_all_relationships(&state, "dev").is_none());
    assert_eq!(found(get_service_by_id(&state, "prod", "p")).name, "P");
    assert_eq!(get_all_relationships(&state, "prod").unwrap().len(), 1);
}

#[test]
fn a_new_data_path_clears_the_cache() {
    let mut state = AppState::new("/data".to_string());
    save_service(&mut state, "dev".to_string(), service("a", "A"));
    relationships_loaded(&mut state, "dev".to_string(), vec![depends_on("r1", "a", "b")]);
    switch_environment(&mut state, "staging".to_string());
    set_data_path(&mut state, "/elsewhere".to_string());
    assert_eq!(state.data_path, "/elsewhere");
    assert_eq!(get_current_environment(&state), "staging");
    assert!(get_all_services(&state, "dev").is_none());
    assert!(get_all_relationships(&state, "dev").is_none());
}

#[test]
fn the_same_data_path_clears_the_cache_too() {
    let mut state = AppState::new("/data".to_string());
    save_service(&mut state, "dev".to_string(), service("a", "A"));
    set_data_path(&mut state, "/data".to_string());
    assert!(get_all_services(&state, "dev").is_none());
}

#[test]
fn switching_the_environment_keeps_the_cache() {
    let mut state = AppState::new("/data".to_string());
    save_service(&mut state, "dev".to_string(), service("a", "A"));
    switch_environment(&mut state, "prod".to_string());
    assert_eq!(get_current_environment(&state), "prod");
    assert_eq!(found(get_service_by_id(&state, "dev", "a")).name, "A");
}

#[test]
fn a_table_keeps_the_later_of_two_services_with_one_id() {
    let services = vec![service("a", "first"), service("a", "second")];
    let mut table = ServiceTable::from_services(&services);
    assert_eq!(table.len(), 1);
    assert!(table.contains("a"));
    assert!(!table.contains("b"));
    assert_eq!(table.get("a").unwrap().name, "second");
    assert!(table.get("b").is_none());
    assert!(table.remove("a"));
    assert!(!table.remove("a"));
    assert_eq!(table.len(), 0);
    assert!(table.values().is_empty());
}

#[test]
fn a_table_survives_removals_in_any_place() {
    let services = vec![service("a", "A"), service("b", "B"), service("c", "C"), service("d", "D")];
    let mut table = ServiceTable::from_services(&services);
    assert!(table.remove("b"));
    assert_eq!(table.get("a").unwrap().name, "A");
    assert_eq!(table.get("c").unwrap().name, "C");
    assert_eq!(table.get("d").unwrap().name, "D");
    assert!(table.remove("d"));
    assert!(table.remove("a"));
    assert_eq!(table.len(), 1);
    assert_eq!(table.entry(0).id, "c");
    table.insert(service("a", "again"));
    assert_eq!(table.get("a").unwrap().name, "again");
    assert_eq!(ids_of(&table.values()), strings(&["a", "c"]));
}

#[test]
fn the_relationships_of_a_service_start_or_end_there() {
    let rels = vec![
        depends_on("r1", "a", "b"),
        depends_on("r2", "b", "c"),
        depends_on("r3", "c", "a"),
        depends_on("r4", "c", "d"),
        depends_on("r5", "a", "a"),
    ];
    assert_eq!(rel_ids(&get_relationships_for_service(&rels, "a")), strings(&["r1", "r3", "r5"]));
    assert_eq!(rel_ids(&get_relationships_for_service(&rels, "d")), strings(&["r4"]));
    assert!(get_relationships_for_service(&rels, "A").is_empty());
    assert!(get_relationships_for_service(&rels, "").is_empty());
}

#[test]
fn saving_a_relationship_with_a_known_id_updates_it_in_place() {
    let rels = vec![depends_on("r1", "a", "b"), depends_on("r2", "b", "c")];
    let changed = relationship("r1", "a", "z", RelationshipType::WritesTo);
    let saved = save_relationship(rels, changed).unwrap();
    assert_eq!(rel_ids(&saved), strings(&["r1", "r2"]));
    assert_eq!(saved[0].target, "z");
    assert_eq!(saved[0].relationship_type, RelationshipType::WritesTo);
    assert_eq!(saved[1].target, "c");
}

#[test]
fn an_update_may_repeat_the_edge_of_another_relationship() {
    let rels = vec![depends_on("r1", "a", "b"), depends_on("r2", "b", "c")];
    let saved = save_relationship(rels, depends_on("r2", "a", "b")).unwrap();
    assert_eq!(rel_ids(&saved), strings(&["r1", "r2"]));
    assert_eq!(saved[1].source, "a");
    assert_eq!(saved[1].target, "b");
}

#[test]
fn an_update_changes_the_first_relationship_with_the_id() {
    let rels = vec![depends_on("x", "a", "b"), depends_on("x", "c", "d")];
    let saved = save_relationship(rels, depends_on("x", "e", "f")).unwrap();
    assert_eq!(saved.len(), 2);
    assert_eq!(saved[0].source, "e");
    assert_eq!(saved[1].source, "c");
}

#[test]
fn saving_a_new_relationship_adds_it_at_the_end() {
    let rels = vec![depends_on("r1", "a", "b")];
    let saved = save_relationship(rels, depends_on("r2", "b", "a")).unwrap();
    assert_eq!(rel_ids(&saved), strings(&["r1", "r2"]));
    let first = save_relationship(Vec::new(), depends_on("r1", "a", "b")).unwrap();
    assert_eq!(rel_ids(&first), strings(&["r1"]));
}

#[test]
fn a_new_relationship_with_a_known_edge_is_a_conflict() {
    let rels = vec![depends_on("r1", "a", "b")];
    match save_relationship(rels, depends_on("r2", "a", "b")) {
        Err(AppError::DuplicateRelationship(source, target)) => {
            assert_eq!(source, "a");
            assert_eq!(target, "b");
        },
        _ => panic!("expected DuplicateRelationship"),
    }
}

#[test]
fn the_same_ends_with_another_type_are_no_conflict() {
    let rels = vec![
        depends_on("r1", "a", "b"),
        relationship("r2", "a", "b", RelationshipType::Custom("x".to_string())),
    ];
    let saved = save_relationship(rels, relationship("r3", "a", "b", RelationshipType::ReadsFrom))
        .unwrap();
    assert_eq!(saved.len(), 3);
    let again = save_relationship(
        saved,
        relationship("r4", "a", "b", RelationshipType::Custom("y".to_string())),
    )
    .unwrap();
    assert_eq!(again.len(), 4);
    let conflict = save_relationship(
        again,
        relationship("r5", "a", "b", RelationshipType::Custom("x".to_string())),
    );
    assert!(matches!(conflict, Err(AppError::DuplicateRelationship(_, _))));
}

#[test]
fn deleting_a_relationship_takes_it_out() {
    let rels = vec![depends_on("r1", "a", "b"), depends_on("r2", "b", "c"), depends_on("r3", "c", "a")];
    let left = delete_relationship(&rels, "r2").unwrap();
    assert_eq!(rel_ids(&left), strings(&["r1", "r3"]));
}

#[test]
fn deleting_an_unknown_relationship_is_an_error() {
    let rels = vec![depends_on("r1", "a", "b")];
    match delete_relationship(&rels, "r9") {
        Err(AppError::RelationshipNotFound(id)) => assert_eq!(id, "r9"),
        _ => panic!("expected RelationshipNotFound"),
    }
    assert!(matches!(delete_relationship(&[], "r1"), Err(AppError::RelationshipNotFound(_))));
}

#[test]
fn deleting_the_relationships_of_a_service_counts_them() {
    let rels = vec![
        depends_on("r1", "a", "b"),
        depends_on("r2", "b", "c"),
        depends_on("r3", "c", "a"),
        depends_on("r4", "c", "d"),
    ];
    let (left, deleted) = delete_relationships_for_service(&rels, "a");
    assert_eq!(rel_ids(&left), strings(&["r2", "r4"]));
    assert_eq!(deleted, 2);
    let (all, none) = delete_relationships_for_service(&rels, "zz");
    assert_eq!(all.len(), 4);
    assert_eq!(none, 0);
}

#[test]
fn environments_are_listed_by_stage_and_then_by_name() {
    let names = strings(&[
        "zeta", "prod", "staging", ".git", "dev", "alpha", "production", "stage", "development",
        "", ".hidden", "Dev",
    ]);
    assert_eq!(
        list_environments(&names),
        strings(&[
            "dev", "development", "stage", "staging", "prod", "production", "", "Dev", "alpha",
            "zeta",
        ])
    );
    assert!(list_environments(&[]).is_empty());
    assert!(list_environments(&strings(&[".a", ".b"])).is_empty());
}

#[test]
fn a_name_listed_twice_stays_twice() {
    let names = strings(&["b", "a", "b"]);
    assert_eq!(list_environments(&names), strings(&["a", "b", "b"]));
}

#[test]
fn search_keeps_the_matching_services_in_order() {
    let mut a = service("user-api", "User API Service");
    a.tags = strings(&["auth", "api"]);
    let mut b = service("orders", "Orders");
    b.owner = Some("Team-USER".to_string());
    let c = service("billing", "Billing");
    let services = vec![a, b, c];
    assert_eq!(ids_of(&search_services(&services, "user")), strings(&["orders", "user-api"]));
    assert_eq!(ids_of(&search_services(&services, "AUTH")), strings(&["user-api"]));
    assert!(search_services(&services, "nothing").is_empty());
    assert_eq!(search_services(&services, "").len(), 3);
}

#[test]
fn errors_have_their_texts() {
    assert_eq!(AppError::Io("disk".to_string()).message(), "IO error: disk");
    assert_eq!(AppError::Json("eof".to_string()).message(), "JSON parsing error: eof");
    assert_eq!(AppError::ServiceNotFound("a".to_string()).message(), "Service not found: a");
    assert_eq!(
        AppError::EnvironmentNotFound("qa".to_string()).message(),
        "Environment not found: qa"
    );
    assert_eq!(
        AppError::EnvironmentExists("qa".to_string()).message(),
        "Environment already exists: qa"
    );
    assert_eq!(AppError::InvalidPath("/x".to_string()).message(), "Invalid path: /x");
    assert_eq!(AppError::StateLock.message(), "State lock error");
    assert_eq!(
        AppError::RelationshipNotFound("r".to_string()).message(),
        "Relationship not found: r"
    );
    assert_eq!(
        AppError::DuplicateRelationship("a".to_string(), "b".to_string()).message(),
        "Duplicate relationship: a -> b"
    );
    assert_eq!(
        AppError::ValidationError("bad".to_string()).message(),
        "Validation error: bad"
    );
}
