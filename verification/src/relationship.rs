//! Relationships: directed, typed edges from a source service to a target
//! service.

use crate::metadata::{clone_metadata, clone_optional_string, MetadataEntry};
use vstd::prelude::*;
use vstd::std_specs::cmp::PartialEqSpecImpl;

verus! {

/// The nature of a relationship. The seven named variants are the canonical
/// types; `Custom` carries any other tag.
#[derive(Debug)]
pub enum RelationshipType {
    DependsOn,
    CommunicatesWith,
    AuthenticatesVia,
    ReadsFrom,
    WritesTo,
    Publishes,
    Subscribes,
    Custom(String),
}

/// The mathematical value of a [`RelationshipType`].
pub enum RelationshipTypeView {
    DependsOn,
    CommunicatesWith,
    AuthenticatesVia,
    ReadsFrom,
    WritesTo,
    Publishes,
    Subscribes,
    Custom(Seq<char>),
}

impl DeepView for RelationshipType {
    type V = RelationshipTypeView;

    open spec fn deep_view(&self) -> RelationshipTypeView {
        match self {
            RelationshipType::DependsOn => RelationshipTypeView::DependsOn,
            RelationshipType::CommunicatesWith => RelationshipTypeView::CommunicatesWith,
            RelationshipType::AuthenticatesVia => RelationshipTypeView::AuthenticatesVia,
            RelationshipType::ReadsFrom => RelationshipTypeView::ReadsFrom,
            RelationshipType::WritesTo => RelationshipTypeView::WritesTo,
            RelationshipType::Publishes => RelationshipTypeView::Publishes,
            RelationshipType::Subscribes => RelationshipTypeView::Subscribes,
            RelationshipType::Custom(tag) => RelationshipTypeView::Custom(tag@),
        }
    }
}

impl Clone for RelationshipType {
    fn clone(&self) -> (res: Self)
        ensures
            res.deep_view() == self.deep_view(),
    {
        match self {
            RelationshipType::DependsOn => RelationshipType::DependsOn,
            RelationshipType::CommunicatesWith => RelationshipType::CommunicatesWith,
            RelationshipType::AuthenticatesVia => RelationshipType::AuthenticatesVia,
            RelationshipType::ReadsFrom => RelationshipType::ReadsFrom,
            RelationshipType::WritesTo => RelationshipType::WritesTo,
            RelationshipType::Publishes => RelationshipType::Publishes,
            RelationshipType::Subscribes => RelationshipType::Subscribes,
            RelationshipType::Custom(tag) => RelationshipType::Custom(tag.clone()),
        }
    }
}

impl PartialEq for RelationshipType {
    fn eq(&self, other: &Self) -> (res: bool) {
        match self {
            RelationshipType::DependsOn => match other {
                RelationshipType::DependsOn => true,
                _ => false,
            },
            RelationshipType::CommunicatesWith => match other {
                RelationshipType::CommunicatesWith => true,
                _ => false,
            },
            RelationshipType::AuthenticatesVia => match other {
                RelationshipType::AuthenticatesVia => true,
                _ => false,
            },
            RelationshipType::ReadsFrom => match other {
                RelationshipType::ReadsFrom => true,
                _ => false,
            },
            RelationshipType::WritesTo => match other {
                RelationshipType::WritesTo => true,
                _ => false,
            },
            RelationshipType::Publishes => match other {
                RelationshipType::Publishes => true,
                _ => false,
            },
            RelationshipType::Subscribes => match other {
                RelationshipType::Subscribes => true,
                _ => false,
            },
            RelationshipType::Custom(a) => match other {
                RelationshipType::Custom(b) => *a == *b,
                _ => false,
            },
        }
    }
}

impl PartialEqSpecImpl for RelationshipType {
    open spec fn obeys_eq_spec() -> bool {
        true
    }

    open spec fn eq_spec(&self, other: &Self) -> bool {
        self.deep_view() == other.deep_view()
    }
}

impl Eq for RelationshipType {

}

impl Default for RelationshipType {
    fn default() -> (res: Self)
        ensures
            res.deep_view() == RelationshipTypeView::DependsOn,
    {
        RelationshipType::DependsOn
    }
}

/// A directed edge `source -> target` between two service ids. Neither end is
/// required to name an existing service.
#[derive(Debug)]
pub struct Relationship {
    pub id: String,
    pub source: String,
    pub target: String,
    pub relationship_type: RelationshipType,
    pub description: Option<String>,
    pub metadata: Option<Vec<MetadataEntry>>,
}

/// The mathematical value of a [`Relationship`].
pub struct RelationshipView {
    pub id: Seq<char>,
    pub source: Seq<char>,
    pub target: Seq<char>,
    pub relationship_type: RelationshipTypeView,
    pub description: Option<Seq<char>>,
    pub metadata: Option<Seq<(Seq<char>, Seq<char>)>>,
}

impl DeepView for Relationship {
    type V = RelationshipView;

    open spec fn deep_view(&self) -> RelationshipView {
        RelationshipView {
            id: self.id@,
            source: self.source@,
            target: self.target@,
            relationship_type: self.relationship_type.deep_view(),
            description: self.description.deep_view(),
            metadata: self.metadata.deep_view(),
        }
    }
}

impl Clone for Relationship {
    fn clone(&self) -> (res: Self)
        ensures
            res.deep_view() == self.deep_view(),
    {
        let metadata = match &self.metadata {
            Some(entries) => Some(clone_metadata(entries)),
            None => None,
        };
        Relationship {
            id: self.id.clone(),
            source: self.source.clone(),
            target: self.target.clone(),
            relationship_type: self.relationship_type.clone(),
            description: clone_optional_string(&self.description),
            metadata,
        }
    }
}

} // verus!
