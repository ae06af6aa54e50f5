//! Validation of an environment: six passes over its services and
//! relationships, each reporting one kind of structural defect.

use crate::cycles::{circular_dependencies, detect_circular_dependencies};
use crate::metadata::{clone_optional_string, clone_strings};
use crate::relationship::{Relationship, RelationshipType, RelationshipTypeView, RelationshipView};
use crate::service::{Service, ServiceView};
use crate::text::{debug_quoted, debug_string, decimal, decimal_string, join, joined, trim, trimmed};
use vstd::hash_map::StringHashMap;
use vstd::hash_set::StringHashSet;
use crate::views::{lemma_deep_view_concat, lemma_deep_view_push};
use vstd::prelude::*;
use vstd::string::StringExecFns;

verus! {

/// How grave an issue is.
#[derive(Debug, Clone, Copy, PartialEq, Eq, Structural)]
pub enum IssueSeverity {
    Error,
    Warning,
    Info,
}

/// The kind of defect that an issue reports.
#[derive(Debug, Clone, Copy, PartialEq, Eq, Structural)]
pub enum IssueType {
    OrphanedRelationship,
    DuplicateServiceId,
    MissingRequiredField,
    InvalidRelationshipType,
    CircularDependency,
    UnreachableService,
}

/// One defect found in an environment.
#[derive(Debug)]
pub struct ValidationIssue {
    pub severity: IssueSeverity,
    pub issue_type: IssueType,
    pub message: String,
    pub affected_ids: Vec<String>,
    pub suggestion: Option<String>,
}

/// The mathematical value of a [`ValidationIssue`].
pub struct ValidationIssueView {
    pub severity: IssueSeverity,
    pub issue_type: IssueType,
    pub message: Seq<char>,
    pub affected_ids: Seq<Seq<char>>,
    pub suggestion: Option<Seq<char>>,
}

impl DeepView for ValidationIssue {
    type V = ValidationIssueView;

    open spec fn deep_view(&self) -> ValidationIssueView {
        ValidationIssueView {
            severity: self.severity,
            issue_type: self.issue_type,
            message: self.message@,
            affected_ids: self.affected_ids.deep_view(),
            suggestion: self.suggestion.deep_view(),
        }
    }
}

impl Clone for ValidationIssue {
    fn clone(&self) -> (res: Self)
        ensures
            res.deep_view() == self.deep_view(),
    {
        ValidationIssue {
            severity: self.severity,
            issue_type: self.issue_type,
            message: self.message.clone(),
            affected_ids: clone_strings(&self.affected_ids),
            suggestion: clone_optional_string(&self.suggestion),
        }
    }
}

/// Whether a relationship type is one of the seven canonical types. A
/// custom tag never is, whatever it says.
pub fn is_valid_relationship_type(rel_type: &RelationshipType) -> (res: bool)
    ensures
        res == !(rel_type.deep_view() is Custom),
{
    match rel_type {
        RelationshipType::Custom(_) => false,
        _ => true,
    }
}

/// A text is blank when nothing is left of it once its leading and trailing
/// whitespace is removed.
pub open spec fn is_blank(text: Seq<char>) -> bool {
    trimmed(text).len() == 0
}

/// Whether a string is empty or holds whitespace only.
pub fn blank(text: &str) -> (res: bool)
    ensures
        res == is_blank(text@),
        text@.len() == 0 ==> res,
{
    trim(text).is_empty()
}

/// The names of the required fields that a service leaves blank: `id`,
/// then `name`.
pub open spec fn missing_fields(service: ServiceView) -> Seq<Seq<char>> {
    (if is_blank(service.id) {
        seq!["id"@]
    } else {
        Seq::empty()
    }) + (if is_blank(service.name) {
        seq!["name"@]
    } else {
        Seq::empty()
    })
}

/// Lists the required fields that a service leaves blank.
pub fn check_required_fields(service: &Service) -> (res: Vec<String>)
    ensures
        res.deep_view() == missing_fields(service.deep_view()),
{
    let mut missing: Vec<String> = Vec::new();
    if blank(service.id.as_str()) {
        missing.push(String::from_str("id"));
    }
    if blank(service.name.as_str()) {
        missing.push(String::from_str("name"));
    }
    assert(missing.deep_view() =~= missing_fields(service.deep_view()));
    missing
}

/// The ids of a list of services, in order.
pub open spec fn service_ids(services: Seq<ServiceView>) -> Seq<Seq<char>> {
    Seq::new(services.len(), |i: int| services[i].id)
}

/// Collects the ids of a list of services, in order.
pub fn collect_service_ids(services: &[Service]) -> (res: Vec<String>)
    ensures
        res.deep_view() == service_ids(services.deep_view()),
{
    let mut ids: Vec<String> = Vec::new();
    let mut i: usize = 0;
    while i < services.len()
        invariant
            i <= services.len(),
            ids.len() == i,
            forall|k: int| 0 <= k < i ==> ids[k]@ == services[k].id@,
        decreases services.len() - i,
    {
        ids.push(services[i].id.clone());
        i += 1;
    }
    assert(ids.deep_view() =~= service_ids(services.deep_view()));
    ids
}

/// How often `id` occurs in `ids`.
pub open spec fn occurrences(ids: Seq<Seq<char>>, id: Seq<char>) -> nat
    decreases ids.len(),
{
    if ids.len() == 0 {
        0
    } else {
        occurrences(ids.drop_last(), id) + if ids.last() == id {
            1nat
        } else {
            0nat
        }
    }
}

/// An id occurs in a list no more often than the list is long, and at
/// least once exactly when the list contains it.
pub proof fn lemma_occurrences(ids: Seq<Seq<char>>, id: Seq<char>)
    ensures
        occurrences(ids, id) <= ids.len(),
        occurrences(ids, id) > 0 <==> ids.contains(id),
    decreases ids.len(),
{
    if ids.len() > 0 {
        lemma_occurrences(ids.drop_last(), id);
        if ids.contains(id) {
            let p = choose|p: int| 0 <= p < ids.len() && ids[p] == id;
            if p < ids.len() - 1 {
                assert(ids.drop_last()[p] == id);
            }
        }
        if ids.drop_last().contains(id) {
            let p = choose|p: int| 0 <= p < ids.len() - 1 && ids.drop_last()[p] == id;
            assert(ids[p] == id);
        }
        if ids.last() == id {
            assert(ids[ids.len() - 1] == id);
        }
    }
}

/// The issue that reports an id borne by `count` services.
pub open spec fn duplicate_issue(id: Seq<char>, count: nat) -> ValidationIssueView {
    ValidationIssueView {
        severity: IssueSeverity::Error,
        issue_type: IssueType::DuplicateServiceId,
        message: "Duplicate service ID '"@ + id + "' found "@ + decimal(count) + " times"@,
        affected_ids: seq![id],
        suggestion: Some("Rename one of the duplicate services"@),
    }
}

/// The duplicate-id issues that the first `n` of `ids` give rise to: one for
/// each id that occurs more than once in the whole of `ids`, at the place
/// where the id occurs first.
pub open spec fn duplicate_issues_in(ids: Seq<Seq<char>>, n: int) -> Seq<ValidationIssueView>
    decreases n,
{
    if n <= 0 {
        Seq::empty()
    } else {
        let before = duplicate_issues_in(ids, n - 1);
        let id = ids[n - 1];
        if !ids.take(n - 1).contains(id) && occurrences(ids, id) > 1 {
            before.push(duplicate_issue(id, occurrences(ids, id)))
        } else {
            before
        }
    }
}

/// The duplicate-id issues of a list of service ids.
pub open spec fn duplicate_issues(ids: Seq<Seq<char>>) -> Seq<ValidationIssueView> {
    duplicate_issues_in(ids, ids.len() as int)
}

/// A list of ids contains what its first part contains and the id after it.
pub proof fn lemma_take_contains(ids: Seq<Seq<char>>, i: int, id: Seq<char>)
    requires
        0 <= i < ids.len(),
    ensures
        ids.take(i + 1).contains(id) <==> (ids.take(i).contains(id) || ids[i] == id),
{
    let next = ids.take(i + 1);
    let front = ids.take(i);
    if next.contains(id) {
        let p = choose|p: int| 0 <= p < next.len() && next[p] == id;
        if p < i {
            assert(front[p] == id);
        }
    }
    if front.contains(id) {
        let p = choose|p: int| 0 <= p < front.len() && front[p] == id;
        assert(next[p] == id);
    }
    if ids[i] == id {
        assert(next[i] == id);
    }
}

fn count_ids(ids: &Vec<String>) -> (counts: StringHashMap<usize>)
    ensures
        forall|k: Seq<char>| #[trigger] counts@.contains_key(k) <==> ids.deep_view().contains(k),
        forall|k: Seq<char>| #[trigger]
            counts@.contains_key(k) ==> counts@[k] == occurrences(ids.deep_view(), k),
{
    let ghost texts = ids.deep_view();
    let mut counts: StringHashMap<usize> = StringHashMap::new();
    let mut i: usize = 0;
    while i < ids.len()
        invariant
            i <= ids.len(),
            texts == ids.deep_view(),
            forall|k: Seq<char>| #[trigger]
                counts@.contains_key(k) <==> occurrences(texts.take(i as int), k) > 0,
            forall|k: Seq<char>| #[trigger]
                counts@.contains_key(k) ==> counts@[k] == occurrences(texts.take(i as int), k),
        decreases ids.len() - i,
    {
        let id = &ids[i];
        let seen: usize = match counts.get(id.as_str()) {
            Some(c) => *c,
            None => 0,
        };
        proof {
            lemma_occurrences(texts.take(i as int), id@);
            assert(texts.take(i + 1).drop_last() =~= texts.take(i as int));
            assert(texts.take(i + 1).last() == id@);
        }
        counts.insert(id.clone(), seen + 1);
        i += 1;
    }
    proof {
        assert(texts.take(i as int) =~= texts);
        assert forall|k: Seq<char>| #[trigger] counts@.contains_key(k) <==> texts.contains(k) by {
            lemma_occurrences(texts, k);
        }
    }
    counts
}

fn make_duplicate_issue(id: &String, count: usize) -> (res: ValidationIssue)
    ensures
        res.deep_view() == duplicate_issue(id@, count as nat),
{
    let mut message = String::from_str("Duplicate service ID '");
    message.append(id.as_str());
    message.append("' found ");
    let number = decimal_string(count);
    message.append(number.as_str());
    message.append(" times");
    let mut affected: Vec<String> = Vec::new();
    affected.push(id.clone());
    assert(affected.deep_view() =~= seq![id@]);
    ValidationIssue {
        severity: IssueSeverity::Error,
        issue_type: IssueType::DuplicateServiceId,
        message,
        affected_ids: affected,
        suggestion: Some(String::from_str("Rename one of the duplicate services")),
    }
}

/// Reports every id that more than one service bears: one issue per id,
/// with the number of services that bear it, in the order in which the ids
/// first occur.
pub fn duplicate_id_issues(ids: &Vec<String>) -> (res: Vec<ValidationIssue>)
    ensures
        res.deep_view() == duplicate_issues(ids.deep_view()),
{
    let ghost texts = ids.deep_view();
    let counts = count_ids(ids);
    let mut reported = StringHashSet::new();
    let mut out: Vec<ValidationIssue> = Vec::new();
    let mut i: usize = 0;
    assert(out.deep_view() =~= duplicate_issues_in(texts, 0));
    while i < ids.len()
        invariant
            i <= ids.len(),
            texts == ids.deep_view(),
            forall|k: Seq<char>| #[trigger] counts@.contains_key(k) <==> texts.contains(k),
            forall|k: Seq<char>| #[trigger]
                counts@.contains_key(k) ==> counts@[k] == occurrences(texts, k),
            forall|k: Seq<char>| #[trigger]
                reported@.contains(k) <==> texts.take(i as int).contains(k),
            out.deep_view() == duplicate_issues_in(texts, i as int),
        decreases ids.len() - i,
    {
        let id = &ids[i];
        proof {
            assert(texts[i as int] == id@);
            assert(texts.contains(id@));
            assert forall|k: Seq<char>| texts.take(i + 1).contains(k) <==> (texts.take(
                i as int,
            ).contains(k) || texts[i as int] == k) by {
                lemma_take_contains(texts, i as int, k);
            }
        }
        let first = !reported.contains(id.as_str());
        let count: usize = match counts.get(id.as_str()) {
            Some(c) => *c,
            None => 0,
        };
        if first && count > 1 {
            let issue = make_duplicate_issue(id, count);
            let ghost before = out@;
            out.push(issue);
            proof {
                lemma_deep_view_push(before, out, issue);
                assert(out.deep_view() =~= duplicate_issues_in(texts, i + 1));
            }
        }
        reported.insert(id.clone());
        i += 1;
    }
    out
}

/// The issue that reports a service with blank required fields.
pub open spec fn missing_field_issue(service: ServiceView) -> ValidationIssueView {
    ValidationIssueView {
        severity: IssueSeverity::Error,
        issue_type: IssueType::MissingRequiredField,
        message: "Service '"@ + service.id + "' is missing required fields: "@ + joined(
            missing_fields(service),
            ", "@,
        ),
        affected_ids: seq![service.id],
        suggestion: Some("Add missing fields: "@ + joined(missing_fields(service), ", "@)),
    }
}

/// The missing-field issues of a list of services: one for each service
/// that leaves a required field blank, naming every such field.
pub open spec fn missing_field_issues(services: Seq<ServiceView>) -> Seq<ValidationIssueView>
    decreases services.len(),
{
    if services.len() == 0 {
        Seq::empty()
    } else {
        let before = missing_field_issues(services.drop_last());
        if missing_fields(services.last()).len() > 0 {
            before.push(missing_field_issue(services.last()))
        } else {
            before
        }
    }
}

fn one_id(id: &String) -> (res: Vec<String>)
    ensures
        res.deep_view() == seq![id@],
{
    let mut ids: Vec<String> = Vec::new();
    ids.push(id.clone());
    assert(ids.deep_view() =~= seq![id@]);
    ids
}

fn two_ids(first: &String, second: &String) -> (res: Vec<String>)
    ensures
        res.deep_view() == seq![first@, second@],
{
    let mut ids: Vec<String> = Vec::new();
    ids.push(first.clone());
    ids.push(second.clone());
    assert(ids.deep_view() =~= seq![first@, second@]);
    ids
}

/// Reports every service that leaves `id` or `name` blank.
pub fn required_field_issues(services: &[Service]) -> (res: Vec<ValidationIssue>)
    ensures
        res.deep_view() == missing_field_issues(services.deep_view()),
{
    let ghost views = services.deep_view();
    let mut out: Vec<ValidationIssue> = Vec::new();
    let mut i: usize = 0;
    assert(views.take(0) =~= Seq::<ServiceView>::empty());
    assert(out.deep_view() =~= Seq::<ValidationIssueView>::empty());
    while i < services.len()
        invariant
            i <= services.len(),
            views == services.deep_view(),
            out.deep_view() == missing_field_issues(views.take(i as int)),
        decreases services.len() - i,
    {
        let service = &services[i];
        proof {
            assert(views.take(i + 1).drop_last() =~= views.take(i as int));
            assert(views.take(i + 1).last() == service.deep_view());
        }
        let missing = check_required_fields(service);
        if missing.len() > 0 {
            let names = join(&missing, ", ");
            let mut message = String::from_str("Service '");
            message.append(service.id.as_str());
            message.append("' is missing required fields: ");
            message.append(names.as_str());
            let mut suggestion = String::from_str("Add missing fields: ");
            suggestion.append(names.as_str());
            let issue = ValidationIssue {
                severity: IssueSeverity::Error,
                issue_type: IssueType::MissingRequiredField,
                message,
                affected_ids: one_id(&service.id),
                suggestion: Some(suggestion),
            };
            let ghost before = out@;
            out.push(issue);
            proof {
                lemma_deep_view_push(before, out, issue);
                assert(out.deep_view() =~= missing_field_issues(views.take(i + 1)));
            }
        }
        i += 1;
    }
    assert(views.take(i as int) =~= views);
    out
}

/// The issue that reports a relationship one end of which names no service.
/// `end` is the word for that end, and `missing` the id found there.
pub open spec fn orphan_issue(
    relationship: Seq<char>,
    end: Seq<char>,
    missing: Seq<char>,
) -> ValidationIssueView {
    ValidationIssueView {
        severity: IssueSeverity::Error,
        issue_type: IssueType::OrphanedRelationship,
        message: "Relationship '"@ + relationship + "' references non-existent "@ + end
            + " service '"@ + missing + "'"@,
        affected_ids: seq![relationship, missing],
        suggestion: Some("Create service '"@ + missing + "' or delete this relationship"@),
    }
}

/// The orphan issues of one relationship: one if its source is no service,
/// and one more if its target is none.
pub open spec fn orphan_issues_of(
    ids: Seq<Seq<char>>,
    relationship: RelationshipView,
) -> Seq<ValidationIssueView> {
    (if ids.contains(relationship.source) {
        Seq::empty()
    } else {
        seq![orphan_issue(relationship.id, "source"@, relationship.source)]
    }) + (if ids.contains(relationship.target) {
        Seq::empty()
    } else {
        seq![orphan_issue(relationship.id, "target"@, relationship.target)]
    })
}

/// The orphan issues of a list of relationships, against the ids of the
/// services.
pub open spec fn orphan_issues(
    ids: Seq<Seq<char>>,
    relationships: Seq<RelationshipView>,
) -> Seq<ValidationIssueView>
    decreases relationships.len(),
{
    if relationships.len() == 0 {
        Seq::empty()
    } else {
        orphan_issues(ids, relationships.drop_last()) + orphan_issues_of(
            ids,
            relationships.last(),
        )
    }
}

/// Collects a list of ids into a set.
pub fn id_set(ids: &Vec<String>) -> (res: StringHashSet)
    ensures
        forall|k: Seq<char>| #[trigger] res@.contains(k) <==> ids.deep_view().contains(k),
{
    let ghost texts = ids.deep_view();
    let mut set = StringHashSet::new();
    let mut i: usize = 0;
    while i < ids.len()
        invariant
            i <= ids.len(),
            texts == ids.deep_view(),
            forall|k: Seq<char>| #[trigger] set@.contains(k) <==> texts.take(i as int).contains(k),
        decreases ids.len() - i,
    {
        proof {
            assert(texts[i as int] == ids[i as int]@);
            assert forall|k: Seq<char>| texts.take(i + 1).contains(k) <==> (texts.take(
                i as int,
            ).contains(k) || texts[i as int] == k) by {
                lemma_take_contains(texts, i as int, k);
            }
        }
        set.insert(ids[i].clone());
        i += 1;
    }
    assert(texts.take(i as int) =~= texts);
    set
}

fn make_orphan_issue(relationship: &String, end: &str, missing: &String) -> (res: ValidationIssue)
    ensures
        res.deep_view() == orphan_issue(relationship@, end@, missing@),
{
    let mut message = String::from_str("Relationship '");
    message.append(relationship.as_str());
    message.append("' references non-existent ");
    message.append(end);
    message.append(" service '");
    message.append(missing.as_str());
    message.append("'");
    let mut suggestion = String::from_str("Create service '");
    suggestion.append(missing.as_str());
    suggestion.append("' or delete this relationship");
    ValidationIssue {
        severity: IssueSeverity::Error,
        issue_type: IssueType::OrphanedRelationship,
        message,
        affected_ids: two_ids(relationship, missing),
        suggestion: Some(suggestion),
    }
}

/// Reports every end of a relationship that names no service: a
/// relationship whose source and target are both unknown is reported twice.
pub fn orphaned_relationship_issues(
    ids: &Vec<String>,
    relationships: &[Relationship],
) -> (res: Vec<ValidationIssue>)
    ensures
        res.deep_view() == orphan_issues(ids.deep_view(), relationships.deep_view()),
{
    let ghost texts = ids.deep_view();
    let ghost views = relationships.deep_view();
    let known = id_set(ids);
    let mut out: Vec<ValidationIssue> = Vec::new();
    let mut i: usize = 0;
    assert(views.take(0) =~= Seq::<RelationshipView>::empty());
    assert(out.deep_view() =~= Seq::<ValidationIssueView>::empty());
    while i < relationships.len()
        invariant
            i <= relationships.len(),
            texts == ids.deep_view(),
            views == relationships.deep_view(),
            forall|k: Seq<char>| #[trigger] known@.contains(k) <==> texts.contains(k),
            out.deep_view() == orphan_issues(texts, views.take(i as int)),
        decreases relationships.len() - i,
    {
        let rel = &relationships[i];
        let ghost start = out.deep_view();
        proof {
            assert(views.take(i + 1).drop_last() =~= views.take(i as int));
            assert(views.take(i + 1).last() == rel.deep_view());
        }
        if !known.contains(rel.source.as_str()) {
            let issue = make_orphan_issue(&rel.id, "source", &rel.source);
            let ghost before = out@;
            out.push(issue);
            proof {
                lemma_deep_view_push(before, out, issue);
            }
        }
        let ghost middle = out.deep_view();
        if !known.contains(rel.target.as_str()) {
            let issue = make_orphan_issue(&rel.id, "target", &rel.target);
            let ghost before = out@;
            out.push(issue);
            proof {
                lemma_deep_view_push(before, out, issue);
            }
        }
        proof {
            assert(out.deep_view() =~= start + orphan_issues_of(texts, rel.deep_view()));
        }
        i += 1;
    }
    assert(views.take(i as int) =~= views);
    out
}

/// The issue that reports a relationship whose type is the custom tag
/// `tag`. The message shows the type as `Custom(..)` around the quoted tag.
pub open spec fn invalid_type_issue(relationship: Seq<char>, tag: Seq<char>) -> ValidationIssueView {
    ValidationIssueView {
        severity: IssueSeverity::Warning,
        issue_type: IssueType::InvalidRelationshipType,
        message: "Relationship '"@ + relationship + "' has unknown type 'Custom("@ + debug_quoted(
            tag,
        ) + ")'"@,
        affected_ids: seq![relationship],
        suggestion: Some(
            "Use a standard relationship type: depends_on, communicates_with, authenticates_via, reads_from, writes_to, publishes, subscribes"@,
        ),
    }
}

/// The invalid-type issues of a list of relationships: one for each
/// relationship whose type is a custom tag.
pub open spec fn invalid_type_issues(relationships: Seq<RelationshipView>) -> Seq<
    ValidationIssueView,
>
    decreases relationships.len(),
{
    if relationships.len() == 0 {
        Seq::empty()
    } else {
        let before = invalid_type_issues(relationships.drop_last());
        let last = relationships.last();
        match last.relationship_type {
            RelationshipTypeView::Custom(tag) => before.push(invalid_type_issue(last.id, tag)),
            _ => before,
        }
    }
}

/// Reports every relationship whose type is not one of the canonical types.
pub fn relationship_type_issues(relationships: &[Relationship]) -> (res: Vec<ValidationIssue>)
    ensures
        res.deep_view() == invalid_type_issues(relationships.deep_view()),
{
    let ghost views = relationships.deep_view();
    let mut out: Vec<ValidationIssue> = Vec::new();
    let mut i: usize = 0;
    assert(views.take(0) =~= Seq::<RelationshipView>::empty());
    assert(out.deep_view() =~= Seq::<ValidationIssueView>::empty());
    while i < relationships.len()
        invariant
            i <= relationships.len(),
            views == relationships.deep_view(),
            out.deep_view() == invalid_type_issues(views.take(i as int)),
        decreases relationships.len() - i,
    {
        let rel = &relationships[i];
        proof {
            assert(views.take(i + 1).drop_last() =~= views.take(i as int));
            assert(views.take(i + 1).last() == rel.deep_view());
        }
        if !is_valid_relationship_type(&rel.relationship_type) {
            match &rel.relationship_type {
                RelationshipType::Custom(tag) => {
                    let quoted = debug_string(tag.as_str());
                    let mut message = String::from_str("Relationship '");
                    message.append(rel.id.as_str());
                    message.append("' has unknown type 'Custom(");
                    message.append(quoted.as_str());
                    message.append(")'");
                    let issue = ValidationIssue {
                        severity: IssueSeverity::Warning,
                        issue_type: IssueType::InvalidRelationshipType,
                        message,
                        affected_ids: one_id(&rel.id),
                        suggestion: Some(
                            String::from_str(
                                "Use a standard relationship type: depends_on, communicates_with, authenticates_via, reads_from, writes_to, publishes, subscribes",
                            ),
                        ),
                    };
                    let ghost before = out@;
                    out.push(issue);
                    proof {
                        lemma_deep_view_push(before, out, issue);
                        assert(out.deep_view() =~= invalid_type_issues(views.take(i + 1)));
                    }
                },
                _ => {},
            }
        }
        i += 1;
    }
    assert(views.take(i as int) =~= views);
    out
}

/// A relationship starts or ends at `id`.
pub open spec fn is_connected(relationships: Seq<RelationshipView>, id: Seq<char>) -> bool {
    exists|i: int|
        0 <= i < relationships.len() && ((#[trigger] relationships[i]).source == id
            || relationships[i].target == id)
}

/// The issue that reports a service without relationships.
pub open spec fn unreachable_issue(id: Seq<char>) -> ValidationIssueView {
    ValidationIssueView {
        severity: IssueSeverity::Info,
        issue_type: IssueType::UnreachableService,
        message: "Service '"@ + id + "' has no relationships (isolated)"@,
        affected_ids: seq![id],
        suggestion: Some("Add relationships or consider if this service is needed"@),
    }
}

/// The unreachable-service issues of a list of service ids: one for each
/// service at which no relationship starts or ends.
pub open spec fn unreachable_issues(
    ids: Seq<Seq<char>>,
    relationships: Seq<RelationshipView>,
) -> Seq<ValidationIssueView>
    decreases ids.len(),
{
    if ids.len() == 0 {
        Seq::empty()
    } else {
        let before = unreachable_issues(ids.drop_last(), relationships);
        if is_connected(relationships, ids.last()) {
            before
        } else {
            before.push(unreachable_issue(ids.last()))
        }
    }
}

fn connected_ids(relationships: &[Relationship]) -> (res: StringHashSet)
    ensures
        forall|k: Seq<char>| #[trigger]
            res@.contains(k) <==> is_connected(relationships.deep_view(), k),
{
    let ghost views = relationships.deep_view();
    let mut set = StringHashSet::new();
    let mut i: usize = 0;
    while i < relationships.len()
        invariant
            i <= relationships.len(),
            views == relationships.deep_view(),
            forall|k: Seq<char>| #[trigger]
                set@.contains(k) <==> is_connected(views.take(i as int), k),
        decreases relationships.len() - i,
    {
        let rel = &relationships[i];
        let ghost front = views.take(i as int);
        let ghost next = views.take(i + 1);
        proof {
            assert(next[i as int] == rel.deep_view());
            assert forall|k: Seq<char>| is_connected(next, k) <==> (is_connected(front, k)
                || rel.source@ == k || rel.target@ == k) by {
                if is_connected(next, k) {
                    let p = choose|p: int|
                        0 <= p < next.len() && ((#[trigger] next[p]).source == k || next[p].target
                            == k);
                    if p < i {
                        assert(front[p] == next[p]);
                    }
                }
                if is_connected(front, k) {
                    let p = choose|p: int|
                        0 <= p < front.len() && ((#[trigger] front[p]).source == k
                            || front[p].target == k);
                    assert(next[p] == front[p]);
                }
            }
        }
        set.insert(rel.source.clone());
        set.insert(rel.target.clone());
        i += 1;
    }
    assert(views.take(i as int) =~= views);
    set
}

/// Reports every service at which no relationship starts or ends.
pub fn unreachable_service_issues(
    ids: &Vec<String>,
    relationships: &[Relationship],
) -> (res: Vec<ValidationIssue>)
    ensures
        res.deep_view() == unreachable_issues(ids.deep_view(), relationships.deep_view()),
{
    let ghost texts = ids.deep_view();
    let ghost views = relationships.deep_view();
    let connected = connected_ids(relationships);
    let mut out: Vec<ValidationIssue> = Vec::new();
    let mut i: usize = 0;
    assert(texts.take(0) =~= Seq::<Seq<char>>::empty());
    assert(out.deep_view() =~= Seq::<ValidationIssueView>::empty());
    while i < ids.len()
        invariant
            i <= ids.len(),
            texts == ids.deep_view(),
            views == relationships.deep_view(),
            forall|k: Seq<char>| #[trigger] connected@.contains(k) <==> is_connected(views, k),
            out.deep_view() == unreachable_issues(texts.take(i as int), views),
        decreases ids.len() - i,
    {
        let id = &ids[i];
        proof {
            assert(texts.take(i + 1).drop_last() =~= texts.take(i as int));
            assert(texts.take(i + 1).last() == id@);
        }
        if !connected.contains(id.as_str()) {
            let mut message = String::from_str("Service '");
            message.append(id.as_str());
            message.append("' has no relationships (isolated)");
            let issue = ValidationIssue {
                severity: IssueSeverity::Info,
                issue_type: IssueType::UnreachableService,
                message,
                affected_ids: one_id(id),
                suggestion: Some(
                    String::from_str("Add relationships or consider if this service is needed"),
                ),
            };
            let ghost before = out@;
            out.push(issue);
            proof {
                lemma_deep_view_push(before, out, issue);
                assert(out.deep_view() =~= unreachable_issues(texts.take(i + 1), views));
            }
        }
        i += 1;
    }
    assert(texts.take(i as int) =~= texts);
    out
}

/// The issue that reports a circular dependency, found as the closed path
/// `cycle`.
pub open spec fn cycle_issue(cycle: Seq<Seq<char>>) -> ValidationIssueView {
    ValidationIssueView {
        severity: IssueSeverity::Warning,
        issue_type: IssueType::CircularDependency,
        message: "Circular dependency detected: "@ + joined(cycle, " -> "@),
        affected_ids: cycle,
        suggestion: Some("Consider breaking the circular dependency"@),
    }
}

/// The issues of a list of cycles: one for each, in order.
pub open spec fn cycle_issues(cycles: Seq<Seq<Seq<char>>>) -> Seq<ValidationIssueView> {
    Seq::new(cycles.len(), |i: int| cycle_issue(cycles[i]))
}

/// Reports each of the given cycles.
pub fn circular_dependency_issues(cycles: &Vec<Vec<String>>) -> (res: Vec<ValidationIssue>)
    ensures
        res.deep_view() == cycle_issues(cycles.deep_view()),
{
    let mut out: Vec<ValidationIssue> = Vec::new();
    let mut i: usize = 0;
    while i < cycles.len()
        invariant
            i <= cycles.len(),
            out.len() == i,
            forall|k: int|
                0 <= k < i ==> #[trigger] out[k].deep_view() == cycle_issue(
                    cycles[k].deep_view(),
                ),
        decreases cycles.len() - i,
    {
        let cycle = &cycles[i];
        let names = join(cycle, " -> ");
        let mut message = String::from_str("Circular dependency detected: ");
        message.append(names.as_str());
        let issue = ValidationIssue {
            severity: IssueSeverity::Warning,
            issue_type: IssueType::CircularDependency,
            message,
            affected_ids: clone_strings(cycle),
            suggestion: Some(String::from_str("Consider breaking the circular dependency")),
        };
        out.push(issue);
        i += 1;
    }
    assert(out.deep_view() =~= cycle_issues(cycles.deep_view()));
    out
}

/// How many of `issues` have the given severity.
pub open spec fn severity_count(issues: Seq<ValidationIssueView>, severity: IssueSeverity) -> nat
    decreases issues.len(),
{
    if issues.len() == 0 {
        0
    } else {
        severity_count(issues.drop_last(), severity) + if issues.last().severity == severity {
            1nat
        } else {
            0nat
        }
    }
}

/// Counts the issues of a given severity.
pub fn count_severity(issues: &Vec<ValidationIssue>, severity: IssueSeverity) -> (res: usize)
    ensures
        res == severity_count(issues.deep_view(), severity),
{
    let ghost views = issues.deep_view();
    let mut count: usize = 0;
    let mut i: usize = 0;
    assert(views.take(0) =~= Seq::<ValidationIssueView>::empty());
    while i < issues.len()
        invariant
            i <= issues.len(),
            views == issues.deep_view(),
            count == severity_count(views.take(i as int), severity),
            count <= i,
        decreases issues.len() - i,
    {
        proof {
            assert(views.take(i + 1).drop_last() =~= views.take(i as int));
            assert(views.take(i + 1).last() == issues[i as int].deep_view());
        }
        if issues[i].severity == severity {
            count += 1;
        }
        i += 1;
    }
    assert(views.take(i as int) =~= views);
    count
}

/// The outcome of a validation: the issues found, and how many of them
/// have each severity.
#[derive(Debug)]
pub struct ValidationResult {
    pub issues: Vec<ValidationIssue>,
    pub error_count: usize,
    pub warning_count: usize,
    pub info_count: usize,
}

impl ValidationResult {
    /// The three counts are those of the issues held.
    pub open spec fn wf(&self) -> bool {
        &&& self.error_count == severity_count(self.issues.deep_view(), IssueSeverity::Error)
        &&& self.warning_count == severity_count(self.issues.deep_view(), IssueSeverity::Warning)
        &&& self.info_count == severity_count(self.issues.deep_view(), IssueSeverity::Info)
    }

    /// Wraps a list of issues, counting them by severity.
    pub fn from_issues(issues: Vec<ValidationIssue>) -> (res: Self)
        ensures
            res.wf(),
            res.issues == issues,
    {
        let error_count = count_severity(&issues, IssueSeverity::Error);
        let warning_count = count_severity(&issues, IssueSeverity::Warning);
        let info_count = count_severity(&issues, IssueSeverity::Info);
        ValidationResult { issues, error_count, warning_count, info_count }
    }
}

/// The issues of an environment: those of the six passes in a row, namely
/// duplicate ids, missing required fields, orphaned relationships, invalid
/// relationship types, unreachable services and circular dependencies.
pub open spec fn validation_issues(
    services: Seq<ServiceView>,
    relationships: Seq<RelationshipView>,
) -> Seq<ValidationIssueView> {
    let ids = service_ids(services);
    duplicate_issues(ids) + missing_field_issues(services) + orphan_issues(ids, relationships)
        + invalid_type_issues(relationships) + unreachable_issues(ids, relationships)
        + cycle_issues(circular_dependencies(ids, relationships))
}

fn append_issues(all: &mut Vec<ValidationIssue>, more: Vec<ValidationIssue>)
    ensures
        final(all).deep_view() == old(all).deep_view() + more.deep_view(),
{
    let ghost before = *all;
    let mut rest = more;
    all.append(&mut rest);
    proof {
        lemma_deep_view_concat(before, more, *all);
    }
}

/// Validates an environment, given all its services and relationships.
/// Defects are data: the result always holds the full list of issues, in
/// the order of the passes and, within a pass, of discovery.
pub fn validate_environment(services: &[Service], relationships: &[Relationship]) -> (res:
    ValidationResult)
    ensures
        res.wf(),
        res.issues.deep_view() == validation_issues(
            services.deep_view(),
            relationships.deep_view(),
        ),
{
    let ids = collect_service_ids(services);
    let mut issues = duplicate_id_issues(&ids);
    append_issues(&mut issues, required_field_issues(services));
    append_issues(&mut issues, orphaned_relationship_issues(&ids, relationships));
    append_issues(&mut issues, relationship_type_issues(relationships));
    append_issues(&mut issues, unreachable_service_issues(&ids, relationships));
    let cycles = detect_circular_dependencies(relationships, ids.as_slice());
    append_issues(&mut issues, circular_dependency_issues(&cycles));
    ValidationResult::from_issues(issues)
}

/// How many of `issues` name exactly the one id `id`.
pub open spec fn issues_naming(issues: Seq<ValidationIssueView>, id: Seq<char>) -> nat
    decreases issues.len(),
{
    if issues.len() == 0 {
        0
    } else {
        issues_naming(issues.drop_last(), id) + if issues.last().affected_ids == seq![id] {
            1nat
        } else {
            0nat
        }
    }
}

proof fn lemma_duplicate_issues_in(ids: Seq<Seq<char>>, n: int, id: Seq<char>)
    requires
        0 <= n <= ids.len(),
    ensures
        issues_naming(duplicate_issues_in(ids, n), id) == if occurrences(ids, id) >= 2
            && ids.take(n).contains(id) {
            1nat
        } else {
            0nat
        },
    decreases n,
{
    if n > 0 {
        lemma_duplicate_issues_in(ids, n - 1, id);
        lemma_take_contains(ids, n - 1, id);
        let before = duplicate_issues_in(ids, n - 1);
        let here = ids[n - 1];
        if !ids.take(n - 1).contains(here) && occurrences(ids, here) > 1 {
            let issue = duplicate_issue(here, occurrences(ids, here));
            let all = before.push(issue);
            assert(all.drop_last() =~= before);
            assert(all.last() == issue);
            assert(issue.affected_ids[0] == here);
            assert(seq![id][0] == id);
        }
    } else {
        assert(ids.take(0) =~= Seq::<Seq<char>>::empty());
    }
}

/// Duplicate-id detection reports an id once if two or more services bear
/// it, however many they are, and not at all otherwise.
pub proof fn lemma_one_issue_per_duplicate(ids: Seq<Seq<char>>, id: Seq<char>)
    ensures
        issues_naming(duplicate_issues(ids), id) == if occurrences(ids, id) >= 2 {
            1nat
        } else {
            0nat
        },
{
    lemma_duplicate_issues_in(ids, ids.len() as int, id);
    lemma_occurrences(ids, id);
    assert(ids.take(ids.len() as int) =~= ids);
}

/// A relationship whose source and target both name no service gives rise
/// to exactly two orphan issues: one for the source, then one for the
/// target.
pub proof fn lemma_orphan_both_missing(ids: Seq<Seq<char>>, relationship: RelationshipView)
    requires
        !ids.contains(relationship.source),
        !ids.contains(relationship.target),
    ensures
        orphan_issues_of(ids, relationship) == seq![
            orphan_issue(relationship.id, "source"@, relationship.source),
            orphan_issue(relationship.id, "target"@, relationship.target),
        ],
        orphan_issues_of(ids, relationship).len() == 2,
{
    assert(orphan_issues_of(ids, relationship) =~= seq![
        orphan_issue(relationship.id, "source"@, relationship.source),
        orphan_issue(relationship.id, "target"@, relationship.target),
    ]);
}

} // verus!
