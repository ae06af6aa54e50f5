use service_graph::cycles::{detect_circular_dependencies, normalize_cycle};
use service_graph::relationship::{Relationship, RelationshipType};
use service_graph::service::{Service, ServiceStatus, ServiceType};
use service_graph::validation::{
    check_required_fields, is_valid_relationship_type, validate_environment, IssueSeverity,
    IssueType, ValidationIssue, ValidationResult,
};

fn service(id: &str, name: &str) -> Service {
    Service {
        id: id.to_string(),
        name: name.to_string(),
        service_type: ServiceType::Backend,
        status: ServiceStatus::Unknown,
        description: None,
        version: None,
        owner: None,
        team: None,
        tags: Vec::new(),
        metadata: Vec::new(),
    }
}

fn relationship(id: &str, source: &str, target: &str, kind: RelationshipType) -> Relationship {
    Relationship {
        id: id.to_string(),
        source: source.to_string(),
        target: target.to_string(),
        relationship_type: kind,
        description: None,
        metadata: None,
    }
}

fn depends_on(id: &str, source: &str, target: &str) -> Relationship {
    relationship(id, source, target, RelationshipType::DependsOn)
}

fn strings(items: &[&str]) -> Vec<String> {
    items.iter().map(|s| s.to_string()).collect()
}

fn of_type(result: &ValidationResult, kind: IssueType) -> Vec<&ValidationIssue> {
    result.issues.iter().filter(|i| i.issue_type == kind).collect()
}

#[test]
fn normalize_cycle_rotates_to_least_node() {
    let cycle = strings(&["B", "C", "A", "B"]);
    assert_eq!(normalize_cycle(&cycle), strings(&["A", "B", "C"]));
}

#[test]
fn normalize_cycle_of_nothing_is_nothing() {
    assert_eq!(normalize_cycle(&[]), Vec::<String>::new());
    assert_eq!(normalize_cycle(&strings(&["A"])), Vec::<String>::new());
}

#[test]
fn normalize_cycle_orders_by_code_point_not_by_length() {
    let cycle = strings(&["b", "ab", "Z", "b"]);
    assert_eq!(normalize_cycle(&cycle), strings(&["Z", "b", "ab"]));
    let prefixed = strings(&["aa", "a", "aa"]);
    assert_eq!(normalize_cycle(&prefixed), strings(&["a", "aa"]));
}

#[test]
fn normalize_cycle_starts_at_the_first_of_equal_least_nodes() {
    let cycle = strings(&["B", "A", "C", "A", "B"]);
    assert_eq!(normalize_cycle(&cycle), strings(&["A", "C", "A", "B"]));
}

#[test]
fn three_cycle_is_reported_once_for_every_scan_order() {
    let rels = vec![
        depends_on("r1", "A", "B"),
        depends_on("r2", "B", "C"),
        depends_on("r3", "C", "A"),
    ];
    let orders = [
        ["A", "B", "C"],
        ["A", "C", "B"],
        ["B", "A", "C"],
        ["B", "C", "A"],
        ["C", "A", "B"],
        ["C", "B", "A"],
    ];
    for order in orders.iter() {
        let ids = strings(order);
        let cycles = detect_circular_dependencies(&rels, &ids);
        assert_eq!(cycles.len(), 1);
        let first = order[0];
        assert_eq!(cycles[0].len(), 4);
        assert_eq!(cycles[0][0], first);
        assert_eq!(cycles[0][3], first);
        assert_eq!(normalize_cycle(&cycles[0]), strings(&["A", "B", "C"]));
    }
}

#[test]
fn three_cycle_gives_one_issue_with_the_path_as_found() {
    let services = vec![service("A", "a"), service("B", "b"), service("C", "c")];
    let rels = vec![
        depends_on("r1", "A", "B"),
        depends_on("r2", "B", "C"),
        depends_on("r3", "C", "A"),
    ];
    let result = validate_environment(&services, &rels);
    let cycles = of_type(&result, IssueType::CircularDependency);
    assert_eq!(cycles.len(), 1);
    assert_eq!(cycles[0].severity, IssueSeverity::Warning);
    assert_eq!(cycles[0].message, "Circular dependency detected: A -> B -> C -> A");
    assert_eq!(cycles[0].affected_ids, strings(&["A", "B", "C", "A"]));
    assert_eq!(
        cycles[0].suggestion,
        Some("Consider breaking the circular dependency".to_string())
    );
    assert_eq!(result.issues.len(), 1);
    assert_eq!(result.warning_count, 1);
    assert_eq!(result.error_count, 0);
    assert_eq!(result.info_count, 0);
}

#[test]
fn a_service_that_depends_on_itself_is_no_cycle() {
    let rels = vec![depends_on("r1", "A", "A")];
    let cycles = detect_circular_dependencies(&rels, &strings(&["A"]));
    assert!(cycles.is_empty());
}

#[test]
fn two_services_that_depend_on_each_other_are_one_cycle() {
    let rels = vec![depends_on("r1", "A", "B"), depends_on("r2", "B", "A")];
    let cycles = detect_circular_dependencies(&rels, &strings(&["A", "B"]));
    assert_eq!(cycles, vec![strings(&["A", "B", "A"])]);
}

#[test]
fn only_depends_on_relationships_make_cycles() {
    let rels = vec![
        relationship("r1", "A", "B", RelationshipType::CommunicatesWith),
        relationship("r2", "B", "A", RelationshipType::ReadsFrom),
    ];
    let cycles = detect_circular_dependencies(&rels, &strings(&["A", "B"]));
    assert!(cycles.is_empty());
}

#[test]
fn a_cycle_through_an_unknown_service_is_not_found() {
    let rels = vec![depends_on("r1", "A", "X"), depends_on("r2", "X", "A")];
    let cycles = detect_circular_dependencies(&rels, &strings(&["A"]));
    assert!(cycles.is_empty());
}

#[test]
fn two_separate_cycles_are_both_reported_in_scan_order() {
    let rels = vec![
        depends_on("r1", "A", "B"),
        depends_on("r2", "B", "A"),
        depends_on("r3", "C", "D"),
        depends_on("r4", "D", "C"),
    ];
    let cycles = detect_circular_dependencies(&rels, &strings(&["D", "A", "B", "C"]));
    assert_eq!(cycles, vec![strings(&["D", "C", "D"]), strings(&["A", "B", "A"])]);
}

#[test]
fn two_cycles_that_share_a_node_are_both_reported() {
    let rels = vec![
        depends_on("r1", "A", "B"),
        depends_on("r2", "B", "A"),
        depends_on("r3", "A", "C"),
        depends_on("r4", "C", "A"),
    ];
    let cycles = detect_circular_dependencies(&rels, &strings(&["A", "B", "C"]));
    assert_eq!(cycles, vec![strings(&["A", "B", "A"]), strings(&["A", "C", "A"])]);
}

#[test]
fn duplicate_ids_give_one_issue_per_id() {
    let services = vec![
        service("A", "a1"),
        service("B", "b1"),
        service("A", "a2"),
        service("C", "c"),
        service("A", "a3"),
        service("B", "b2"),
    ];
    let rels = vec![
        depends_on("r1", "A", "B"),
        depends_on("r2", "B", "C"),
    ];
    let result = validate_environment(&services, &rels);
    let duplicates = of_type(&result, IssueType::DuplicateServiceId);
    assert_eq!(duplicates.len(), 2);
    assert_eq!(duplicates[0].message, "Duplicate service ID 'A' found 3 times");
    assert_eq!(duplicates[0].affected_ids, strings(&["A"]));
    assert_eq!(duplicates[0].severity, IssueSeverity::Error);
    assert_eq!(
        duplicates[0].suggestion,
        Some("Rename one of the duplicate services".to_string())
    );
    assert_eq!(duplicates[1].message, "Duplicate service ID 'B' found 2 times");
    assert_eq!(duplicates[1].affected_ids, strings(&["B"]));
    assert_eq!(result.error_count, 2);
}

#[test]
fn a_count_of_two_digits_is_written_in_full() {
    let mut services = Vec::new();
    for _ in 0..12 {
        services.push(service("same", "name"));
    }
    let rels = vec![depends_on("r1", "same", "same")];
    let result = validate_environment(&services, &rels);
    let duplicates = of_type(&result, IssueType::DuplicateServiceId);
    assert_eq!(duplicates.len(), 1);
    assert_eq!(duplicates[0].message, "Duplicate service ID 'same' found 12 times");
}

#[test]
fn a_count_of_three_digits_is_written_in_full() {
    let mut services = Vec::new();
    for _ in 0..105 {
        services.push(service("x", "name"));
    }
    let result = validate_environment(&services, &[]);
    let duplicates = of_type(&result, IssueType::DuplicateServiceId);
    assert_eq!(duplicates[0].message, "Duplicate service ID 'x' found 105 times");
}

#[test]
fn an_empty_id_is_a_missing_required_field() {
    let services = vec![service("", "Nameless")];
    let result = validate_environment(&services, &[]);
    let missing = of_type(&result, IssueType::MissingRequiredField);
    assert_eq!(missing.len(), 1);
    assert_eq!(missing[0].severity, IssueSeverity::Error);
    assert_eq!(missing[0].message, "Service '' is missing required fields: id");
    assert_eq!(missing[0].affected_ids, strings(&[""]));
    assert_eq!(missing[0].suggestion, Some("Add missing fields: id".to_string()));
}

#[test]
fn blank_id_and_name_are_listed_together() {
    let services = vec![service("  \t", " \n ")];
    let result = validate_environment(&services, &[]);
    let missing = of_type(&result, IssueType::MissingRequiredField);
    assert_eq!(missing.len(), 1);
    assert_eq!(missing[0].message, "Service '  \t' is missing required fields: id, name");
    assert_eq!(missing[0].suggestion, Some("Add missing fields: id, name".to_string()));
}

#[test]
fn check_required_fields_names_what_is_blank() {
    assert_eq!(check_required_fields(&service("a", "A")), Vec::<String>::new());
    assert_eq!(check_required_fields(&service("a", "")), strings(&["name"]));
    assert_eq!(check_required_fields(&service(" ", "A")), strings(&["id"]));
    assert_eq!(check_required_fields(&service("", "  ")), strings(&["id", "name"]));
    assert_eq!(check_required_fields(&service(" a ", " A ")), Vec::<String>::new());
}

#[test]
fn orphaned_source_is_an_error_naming_the_missing_service() {
    let services = vec![service("A", "Service A")];
    let rels = vec![depends_on("r1", "X", "A")];
    let result = validate_environment(&services, &rels);
    assert!(result.error_count >= 1);
    let orphans = of_type(&result, IssueType::OrphanedRelationship);
    assert_eq!(orphans.len(), 1);
    assert_eq!(orphans[0].severity, IssueSeverity::Error);
    assert!(orphans[0].affected_ids.contains(&"X".to_string()));
    assert_eq!(orphans[0].affected_ids, strings(&["r1", "X"]));
    assert_eq!(
        orphans[0].message,
        "Relationship 'r1' references non-existent source service 'X'"
    );
    assert_eq!(
        orphans[0].suggestion,
        Some("Create service 'X' or delete this relationship".to_string())
    );
}

#[test]
fn a_relationship_with_both_ends_missing_gives_two_issues() {
    let services = vec![service("A", "Service A")];
    let rels = vec![depends_on("r1", "X", "Y")];
    let result = validate_environment(&services, &rels);
    let orphans = of_type(&result, IssueType::OrphanedRelationship);
    assert_eq!(orphans.len(), 2);
    assert_eq!(
        orphans[0].message,
        "Relationship 'r1' references non-existent source service 'X'"
    );
    assert_eq!(orphans[0].affected_ids, strings(&["r1", "X"]));
    assert_eq!(
        orphans[1].message,
        "Relationship 'r1' references non-existent target service 'Y'"
    );
    assert_eq!(orphans[1].affected_ids, strings(&["r1", "Y"]));
    assert_eq!(
        orphans[1].suggestion,
        Some("Create service 'Y' or delete this relationship".to_string())
    );
}

#[test]
fn a_custom_relationship_type_is_a_warning() {
    let services = vec![service("A", "a"), service("B", "b")];
    let rels = vec![relationship(
        "r1",
        "A",
        "B",
        RelationshipType::Custom("mirrors".to_string()),
    )];
    let result = validate_environment(&services, &rels);
    let invalid = of_type(&result, IssueType::InvalidRelationshipType);
    assert_eq!(invalid.len(), 1);
    assert_eq!(invalid[0].severity, IssueSeverity::Warning);
    assert_eq!(
        invalid[0].message,
        "Relationship 'r1' has unknown type 'Custom(\"mirrors\")'"
    );
    assert_eq!(invalid[0].affected_ids, strings(&["r1"]));
    assert_eq!(
        invalid[0].suggestion,
        Some(
            "Use a standard relationship type: depends_on, communicates_with, authenticates_via, reads_from, writes_to, publishes, subscribes"
                .to_string()
        )
    );
    assert_eq!(result.warning_count, 1);
}

#[test]
fn a_custom_tag_is_shown_escaped() {
    let services = vec![service("A", "a"), service("B", "b")];
    let rels = vec![relationship(
        "r1",
        "A",
        "B",
        RelationshipType::Custom("a\"b\n".to_string()),
    )];
    let result = validate_environment(&services, &rels);
    let invalid = of_type(&result, IssueType::InvalidRelationshipType);
    assert_eq!(
        invalid[0].message,
        "Relationship 'r1' has unknown type 'Custom(\"a\\\"b\\n\")'"
    );
}

#[test]
fn a_custom_tag_that_spells_a_canonical_type_is_still_invalid() {
    assert!(!is_valid_relationship_type(&RelationshipType::Custom("depends_on".to_string())));
}

#[test]
fn the_seven_canonical_types_are_valid() {
    assert!(is_valid_relationship_type(&RelationshipType::DependsOn));
    assert!(is_valid_relationship_type(&RelationshipType::CommunicatesWith));
    assert!(is_valid_relationship_type(&RelationshipType::AuthenticatesVia));
    assert!(is_valid_relationship_type(&RelationshipType::ReadsFrom));
    assert!(is_valid_relationship_type(&RelationshipType::WritesTo));
    assert!(is_valid_relationship_type(&RelationshipType::Publishes));
    assert!(is_valid_relationship_type(&RelationshipType::Subscribes));
}

#[test]
fn a_service_without_relationships_is_unreachable() {
    let services = vec![service("A", "a"), service("B", "b"), service("C", "c")];
    let rels = vec![depends_on("r1", "A", "B")];
    let result = validate_environment(&services, &rels);
    let unreachable = of_type(&result, IssueType::UnreachableService);
    assert_eq!(unreachable.len(), 1);
    assert_eq!(unreachable[0].severity, IssueSeverity::Info);
    assert_eq!(unreachable[0].message, "Service 'C' has no relationships (isolated)");
    assert_eq!(unreachable[0].affected_ids, strings(&["C"]));
    assert_eq!(
        unreachable[0].suggestion,
        Some("Add relationships or consider if this service is needed".to_string())
    );
    assert_eq!(result.info_count, 1);
    assert_eq!(result.error_count, 0);
    assert_eq!(result.warning_count, 0);
}

#[test]
fn a_clean_environment_has_no_issues() {
    let services = vec![service("A", "a"), service("B", "b")];
    let rels = vec![depends_on("r1", "A", "B")];
    let result = validate_environment(&services, &rels);
    assert!(result.issues.is_empty());
    assert_eq!(result.error_count, 0);
    assert_eq!(result.warning_count, 0);
    assert_eq!(result.info_count, 0);
}

#[test]
fn an_empty_environment_has_no_issues() {
    let result = validate_environment(&[], &[]);
    assert!(result.issues.is_empty());
}

#[test]
fn issues_come_in_the_order_of_the_passes() {
    let services = vec![
        service("A", "a"),
        service("A", "again"),
        service("B", ""),
        service("C", "c"),
        service("D", "d"),
    ];
    let rels = vec![
        relationship("r1", "A", "B", RelationshipType::Custom("odd".to_string())),
        depends_on("r2", "A", "X"),
        depends_on("r3", "A", "B"),
        depends_on("r4", "B", "A"),
        relationship("r5", "Y", "C", RelationshipType::Custom("odder".to_string())),
    ];
    let result = validate_environment(&services, &rels);
    let kinds: Vec<IssueType> = result.issues.iter().map(|i| i.issue_type).collect();
    assert_eq!(
        kinds,
        vec![
            IssueType::DuplicateServiceId,
            IssueType::MissingRequiredField,
            IssueType::OrphanedRelationship,
            IssueType::OrphanedRelationship,
            IssueType::InvalidRelationshipType,
            IssueType::InvalidRelationshipType,
            IssueType::UnreachableService,
            IssueType::CircularDependency,
        ]
    );
    assert_eq!(result.issues[2].affected_ids, strings(&["r2", "X"]));
    assert_eq!(result.issues[3].affected_ids, strings(&["r5", "Y"]));
    assert_eq!(result.issues[4].affected_ids, strings(&["r1"]));
    assert_eq!(result.issues[5].affected_ids, strings(&["r5"]));
    assert_eq!(result.issues[6].affected_ids, strings(&["D"]));
    assert_eq!(result.issues[7].affected_ids, strings(&["A", "B", "A"]));
    assert_eq!(result.error_count, 4);
    assert_eq!(result.warning_count, 3);
    assert_eq!(result.info_count, 1);
}

#[test]
fn counts_are_those_of_the_issues() {
    let services = vec![service("", ""), service("B", "b")];
    let rels = vec![relationship("r1", "B", "Z", RelationshipType::Custom("t".to_string()))];
    let result = validate_environment(&services, &rels);
    let errors = result.issues.iter().filter(|i| i.severity == IssueSeverity::Error).count();
    let warnings = result.issues.iter().filter(|i| i.severity == IssueSeverity::Warning).count();
    let infos = result.issues.iter().filter(|i| i.severity == IssueSeverity::Info).count();
    assert_eq!(result.error_count, errors);
    assert_eq!(result.warning_count, warnings);
    assert_eq!(result.info_count, infos);
    assert_eq!(errors, 2);
    assert_eq!(warnings, 1);
    assert_eq!(infos, 1);
}
