//! Services: the nodes of the graph, with a case-insensitive search over
//! their descriptive fields.

use crate::metadata::{clone_metadata, clone_optional_string, clone_strings, MetadataEntry};
use crate::text::{contains_text, is_substring, lowercase, to_lowercase};
use vstd::prelude::*;
use vstd::std_specs::cmp::PartialEqSpecImpl;

verus! {

/// The category of a service. `Custom` carries any tag that is not one of
/// the eight named categories.
#[derive(Debug)]
pub enum ServiceType {
    Api,
    Database,
    Cache,
    Queue,
    Gateway,
    Frontend,
    Backend,
    External,
    Custom(String),
}

/// The mathematical value of a [`ServiceType`].
pub enum ServiceTypeView {
    Api,
    Database,
    Cache,
    Queue,
    Gateway,
    Frontend,
    Backend,
    External,
    Custom(Seq<char>),
}

impl DeepView for ServiceType {
    type V = ServiceTypeView;

    open spec fn deep_view(&self) -> ServiceTypeView {
        match self {
            ServiceType::Api => ServiceTypeView::Api,
            ServiceType::Database => ServiceTypeView::Database,
            ServiceType::Cache => ServiceTypeView::Cache,
            ServiceType::Queue => ServiceTypeView::Queue,
            ServiceType::Gateway => ServiceTypeView::Gateway,
            ServiceType::Frontend => ServiceTypeView::Frontend,
            ServiceType::Backend => ServiceTypeView::Backend,
            ServiceType::External => ServiceTypeView::External,
            ServiceType::Custom(tag) => ServiceTypeView::Custom(tag@),
        }
    }
}

impl Clone for ServiceType {
    fn clone(&self) -> (res: Self)
        ensures
            res.deep_view() == self.deep_view(),
    {
        match self {
            ServiceType::Api => ServiceType::Api,
            ServiceType::Database => ServiceType::Database,
            ServiceType::Cache => ServiceType::Cache,
            ServiceType::Queue => ServiceType::Queue,
            ServiceType::Gateway => ServiceType::Gateway,
            ServiceType::Frontend => ServiceType::Frontend,
            ServiceType::Backend => ServiceType::Backend,
            ServiceType::External => ServiceType::External,
            ServiceType::Custom(tag) => ServiceType::Custom(tag.clone()),
        }
    }
}

impl PartialEq for ServiceType {
    fn eq(&self, other: &Self) -> (res: bool) {
        match self {
            ServiceType::Api => match other {
                ServiceType::Api => true,
                _ => false,
            },
            ServiceType::Database => match other {
                ServiceType::Database => true,
                _ => false,
            },
            ServiceType::Cache => match other {
                ServiceType::Cache => true,
                _ => false,
            },
            ServiceType::Queue => match other {
                ServiceType::Queue => true,
                _ => false,
            },
            ServiceType::Gateway => match other {
                ServiceType::Gateway => true,
                _ => false,
            },
            ServiceType::Frontend => match other {
                ServiceType::Frontend => true,
                _ => false,
            },
            ServiceType::Backend => match other {
                ServiceType::Backend => true,
                _ => false,
            },
            ServiceType::External => match other {
                ServiceType::External => true,
                _ => false,
            },
            ServiceType::Custom(a) => match other {
                ServiceType::Custom(b) => *a == *b,
                _ => false,
            },
        }
    }
}

impl PartialEqSpecImpl for ServiceType {
    open spec fn obeys_eq_spec() -> bool {
        true
    }

    open spec fn eq_spec(&self, other: &Self) -> bool {
        self.deep_view() == other.deep_view()
    }
}

impl Eq for ServiceType {

}

impl Default for ServiceType {
    fn default() -> (res: Self)
        ensures
            res.deep_view() == ServiceTypeView::Backend,
    {
        ServiceType::Backend
    }
}

/// The operational state of a service.
#[derive(Debug, Clone, Copy, PartialEq, Eq, Structural)]
pub enum ServiceStatus {
    Healthy,
    Degraded,
    Unhealthy,
    Unknown,
    Deprecated,
}

impl Default for ServiceStatus {
    fn default() -> (res: Self)
        ensures
            res == ServiceStatus::Unknown,
    {
        ServiceStatus::Unknown
    }
}

/// A service. Its identity is `id`; `id` and `name` are the required fields.
#[derive(Debug)]
pub struct Service {
    pub id: String,
    pub name: String,
    pub service_type: ServiceType,
    pub status: ServiceStatus,
    pub description: Option<String>,
    pub version: Option<String>,
    pub owner: Option<String>,
    pub team: Option<String>,
    pub tags: Vec<String>,
    pub metadata: Vec<MetadataEntry>,
}

/// The mathematical value of a [`Service`].
pub struct ServiceView {
    pub id: Seq<char>,
    pub name: Seq<char>,
    pub service_type: ServiceTypeView,
    pub status: ServiceStatus,
    pub description: Option<Seq<char>>,
    pub version: Option<Seq<char>>,
    pub owner: Option<Seq<char>>,
    pub team: Option<Seq<char>>,
    pub tags: Seq<Seq<char>>,
    pub metadata: Seq<(Seq<char>, Seq<char>)>,
}

impl DeepView for Service {
    type V = ServiceView;

    open spec fn deep_view(&self) -> ServiceView {
        ServiceView {
            id: self.id@,
            name: self.name@,
            service_type: self.service_type.deep_view(),
            status: self.status,
            description: self.description.deep_view(),
            version: self.version.deep_view(),
            owner: self.owner.deep_view(),
            team: self.team.deep_view(),
            tags: self.tags.deep_view(),
            metadata: self.metadata.deep_view(),
        }
    }
}

impl Clone for Service {
    fn clone(&self) -> (res: Self)
        ensures
            res.deep_view() == self.deep_view(),
    {
        Service {
            id: self.id.clone(),
            name: self.name.clone(),
            service_type: self.service_type.clone(),
            status: self.status,
            description: clone_optional_string(&self.description),
            version: clone_optional_string(&self.version),
            owner: clone_optional_string(&self.owner),
            team: clone_optional_string(&self.team),
            tags: clone_strings(&self.tags),
            metadata: clone_metadata(&self.metadata),
        }
    }
}

/// A text holds the query, both taken in lowercase.
pub open spec fn text_matches(text: Seq<char>, query: Seq<char>) -> bool {
    is_substring(lowercase(query), lowercase(text))
}

/// An optional text is present and holds the query.
pub open spec fn optional_text_matches(text: Option<Seq<char>>, query: Seq<char>) -> bool {
    match text {
        Some(t) => text_matches(t, query),
        None => false,
    }
}

/// A service matches a query when the query occurs, without regard to case,
/// in its name, id, description, owner, team or any of its tags.
pub open spec fn service_matches(service: ServiceView, query: Seq<char>) -> bool {
    ||| text_matches(service.name, query)
    ||| text_matches(service.id, query)
    ||| optional_text_matches(service.description, query)
    ||| optional_text_matches(service.owner, query)
    ||| optional_text_matches(service.team, query)
    ||| exists|i: int| 0 <= i < service.tags.len() && text_matches(#[trigger] service.tags[i], query)
}

fn lowered_contains(text: &str, query_lower: &str) -> (res: bool)
    ensures
        res == is_substring(query_lower@, lowercase(text@)),
{
    let lowered = to_lowercase(text);
    contains_text(lowered.as_str(), query_lower)
}

fn optional_lowered_contains(text: &Option<String>, query_lower: &str) -> (res: bool)
    ensures
        res == match text.deep_view() {
            Some(t) => is_substring(query_lower@, lowercase(t)),
            None => false,
        },
{
    match text {
        Some(t) => lowered_contains(t.as_str(), query_lower),
        None => false,
    }
}

impl Service {
    /// Whether the query occurs, without regard to case, in one of the
    /// searchable fields.
    pub fn matches_search(&self, query: &str) -> (res: bool)
        ensures
            res == service_matches(self.deep_view(), query@),
    {
        let query_lower = to_lowercase(query);
        let q = query_lower.as_str();
        if lowered_contains(self.name.as_str(), q) || lowered_contains(self.id.as_str(), q)
            || optional_lowered_contains(&self.description, q) || optional_lowered_contains(
            &self.owner,
            q,
        ) || optional_lowered_contains(&self.team, q) {
            return true;
        }
        let mut i: usize = 0;
        while i < self.tags.len()
            invariant
                i <= self.tags.len(),
                q@ == lowercase(query@),
                forall|k: int| 0 <= k < i ==> !text_matches(#[trigger] self.tags[k]@, query@),
            decreases self.tags.len() - i,
        {
            if lowered_contains(self.tags[i].as_str(), q) {
                assert(text_matches(self.deep_view().tags[i as int], query@));
                return true;
            }
            i += 1;
        }
        assert(forall|k: int|
            0 <= k < self.deep_view().tags.len() ==> #[trigger] self.deep_view().tags[k]
                == self.tags[k]@);
        false
    }
}

} // verus!
