//! Operations on the relationships of an environment: reading through the
//! cache, and the changes to the list that is stored as a whole.
//!
//! Loading and storing are the caller's part. A change is worked out on the
//! list that was loaded; once the store has taken the new list, the cached
//! one is dropped, so that the next read loads again.

use crate::error::{AppError, AppErrorView};
use crate::graph::touches;
use crate::relationship::{Relationship, RelationshipView};
use crate::state::AppState;
use crate::text::same_text;
use crate::views::lemma_deep_view_push;
use vstd::prelude::*;

verus! {

/// Copies a list of relationships.
pub fn clone_relationships(relationships: &[Relationship]) -> (res: Vec<Relationship>)
    ensures
        res.deep_view() == relationships.deep_view(),
{
    let mut out: Vec<Relationship> = Vec::new();
    let mut i: usize = 0;
    while i < relationships.len()
        invariant
            i <= relationships.len(),
            out.len() == i,
            forall|k: int| 0 <= k < i ==> out[k].deep_view() == relationships[k].deep_view(),
        decreases relationships.len() - i,
    {
        out.push(relationships[i].clone());
        i += 1;
    }
    assert(out.deep_view() =~= relationships.deep_view());
    out
}

/// All the relationships of an environment, if they are cached; `None`
/// means that they have to be loaded.
pub fn get_all_relationships(state: &AppState, environment: &str) -> (res: Option<
    Vec<Relationship>,
>)
    requires
        state.wf(),
    ensures
        match res {
            Some(relationships) => state.cached_relationships().contains_key(environment@)
                && relationships.deep_view() == state.cached_relationships()[environment@],
            None => !state.cached_relationships().contains_key(environment@),
        },
{
    match state.relationships_cache.get(environment) {
        Some(relationships) => Some(clone_relationships(relationships.as_slice())),
        None => None,
    }
}

/// Takes the relationships that were loaded for an environment into the
/// cache, and hands them back.
pub fn relationships_loaded(
    state: &mut AppState,
    environment: String,
    relationships: Vec<Relationship>,
) -> (res: Vec<Relationship>)
    requires
        old(state).wf(),
    ensures
        final(state).wf(),
        res == relationships,
        final(state).cached_relationships() == old(state).cached_relationships().insert(
            environment@,
            relationships.deep_view(),
        ),
        final(state).cached_services() == old(state).cached_services(),
        final(state).current_environment == old(state).current_environment,
        final(state).data_path == old(state).data_path,
{
    let copy = clone_relationships(relationships.as_slice());
    state.relationships_cache.insert(environment, copy);
    assert(state.cached_relationships() =~= old(state).cached_relationships().insert(
        environment@,
        relationships.deep_view(),
    ));
    relationships
}

/// Drops the cached relationships of an environment, after its list was
/// stored anew.
pub fn relationships_stored(state: &mut AppState, environment: &str)
    requires
        old(state).wf(),
    ensures
        final(state).wf(),
        final(state).cached_relationships() == old(state).cached_relationships().remove(
            environment@,
        ),
        final(state).cached_services() == old(state).cached_services(),
        final(state).current_environment == old(state).current_environment,
        final(state).data_path == old(state).data_path,
{
    state.relationships_cache.remove(environment);
    assert(state.cached_relationships() =~= old(state).cached_relationships().remove(
        environment@,
    ));
}

/// The test by which the relationships of a service are picked.
pub open spec fn touching(service_id: Seq<char>) -> spec_fn(RelationshipView) -> bool {
    |relationship: RelationshipView| touches(relationship, service_id)
}

/// The test by which the relationships of a service are left out.
pub open spec fn not_touching(service_id: Seq<char>) -> spec_fn(RelationshipView) -> bool {
    |relationship: RelationshipView| !touches(relationship, service_id)
}

/// The test by which all relationships but those with one id are kept.
pub open spec fn other_than(id: Seq<char>) -> spec_fn(RelationshipView) -> bool {
    |relationship: RelationshipView| relationship.id != id
}

/// The relationships that start or end at a service, in the order given.
pub fn get_relationships_for_service(relationships: &[Relationship], service_id: &str) -> (res:
    Vec<Relationship>)
    ensures
        res.deep_view() == relationships.deep_view().filter(touching(service_id@)),
{
    let ghost views = relationships.deep_view();
    let mut out: Vec<Relationship> = Vec::new();
    let mut i: usize = 0;
    proof {
        reveal(Seq::filter);
        assert(views.take(0) =~= Seq::<RelationshipView>::empty());
        assert(out.deep_view() =~= views.take(0).filter(touching(service_id@)));
    }
    while i < relationships.len()
        invariant
            i <= relationships.len(),
            views == relationships.deep_view(),
            out.deep_view() == views.take(i as int).filter(touching(service_id@)),
        decreases relationships.len() - i,
    {
        let rel = &relationships[i];
        proof {
            reveal(Seq::filter);
            assert(views.take(i + 1).drop_last() =~= views.take(i as int));
            assert(views.take(i + 1).last() == rel.deep_view());
        }
        if same_text(rel.source.as_str(), service_id) || same_text(rel.target.as_str(), service_id) {
            let ghost before = out@;
            let copy = rel.clone();
            out.push(copy);
            proof {
                lemma_deep_view_push(before, out, copy);
            }
        }
        i += 1;
    }
    assert(views.take(i as int) =~= views);
    out
}

/// One of the relationships has this id.
pub open spec fn has_id(relationships: Seq<RelationshipView>, id: Seq<char>) -> bool {
    exists|i: int| 0 <= i < relationships.len() && (#[trigger] relationships[i]).id == id
}

/// The position of the first relationship with this id; the length of the
/// list if there is none.
pub open spec fn first_with_id(relationships: Seq<RelationshipView>, id: Seq<char>) -> int
    decreases relationships.len(),
{
    if relationships.len() == 0 {
        0
    } else if relationships[0].id == id {
        0
    } else {
        1 + first_with_id(relationships.drop_first(), id)
    }
}

/// One of the relationships joins the same source and target with the same
/// type as `relationship`.
pub open spec fn has_same_edge(
    relationships: Seq<RelationshipView>,
    relationship: RelationshipView,
) -> bool {
    exists|i: int|
        0 <= i < relationships.len() && (#[trigger] relationships[i]).source
            == relationship.source && relationships[i].target == relationship.target
            && relationships[i].relationship_type == relationship.relationship_type
}

/// The list after a relationship was saved. A relationship whose id the
/// list has takes the place of the first one with that id. A new one is
/// added at the end, unless the list has its edge already: that is a
/// conflict.
pub open spec fn saved_relationships(
    relationships: Seq<RelationshipView>,
    relationship: RelationshipView,
) -> Result<Seq<RelationshipView>, AppErrorView> {
    if has_id(relationships, relationship.id) {
        Ok(relationships.update(first_with_id(relationships, relationship.id), relationship))
    } else if has_same_edge(relationships, relationship) {
        Err(AppErrorView::DuplicateRelationship(relationship.source, relationship.target))
    } else {
        Ok(relationships.push(relationship))
    }
}

/// The first relationship with an id is where no earlier one has it.
pub proof fn lemma_first_with_id(relationships: Seq<RelationshipView>, id: Seq<char>, i: int)
    requires
        0 <= i <= relationships.len(),
        forall|k: int| 0 <= k < i ==> (#[trigger] relationships[k]).id != id,
        i < relationships.len() ==> relationships[i].id == id,
    ensures
        first_with_id(relationships, id) == i,
    decreases i,
{
    if i > 0 {
        let rest = relationships.drop_first();
        assert(relationships[0].id != id);
        assert forall|k: int| 0 <= k < i - 1 implies (#[trigger] rest[k]).id != id by {
            assert(rest[k] == relationships[k + 1]);
        }
        if i < relationships.len() {
            assert(rest[i - 1] == relationships[i]);
        }
        lemma_first_with_id(rest, id, i - 1);
    }
}

/// Works a relationship into the list that was loaded: an update if the
/// list has its id, else an addition, which is refused with a conflict if
/// the list has a relationship with the same source, target and type.
pub fn save_relationship(relationships: Vec<Relationship>, relationship: Relationship) -> (res:
    Result<Vec<Relationship>, AppError>)
    ensures
        match res {
            Ok(list) => saved_relationships(relationships.deep_view(), relationship.deep_view())
                == Ok::<Seq<RelationshipView>, AppErrorView>(list.deep_view()),
            Err(error) => saved_relationships(relationships.deep_view(), relationship.deep_view())
                == Err::<Seq<RelationshipView>, AppErrorView>(error.deep_view()),
        },
{
    let ghost views = relationships.deep_view();
    let ghost new = relationship.deep_view();
    let mut list = relationships;
    let mut i: usize = 0;
    while i < list.len()
        invariant
            i <= list.len(),
            list == relationships,
            views == relationships.deep_view(),
            new == relationship.deep_view(),
            forall|k: int| 0 <= k < i ==> (#[trigger] views[k]).id != new.id,
        decreases list.len() - i,
    {
        if list[i].id == relationship.id {
            proof {
                assert(views[i as int].id == new.id);
                lemma_first_with_id(views, new.id, i as int);
            }
            let ghost before = list@;
            list[i] = relationship;
            proof {
                assert(list.deep_view() =~= views.update(i as int, new));
            }
            return Ok(list);
        }
        i += 1;
    }
    let mut j: usize = 0;
    while j < list.len()
        invariant
            j <= list.len(),
            list == relationships,
            views == relationships.deep_view(),
            new == relationship.deep_view(),
            !has_id(views, new.id),
            forall|k: int|
                0 <= k < j ==> !((#[trigger] views[k]).source == new.source && views[k].target
                    == new.target && views[k].relationship_type == new.relationship_type),
        decreases list.len() - j,
    {
        let rel = &list[j];
        if rel.source == relationship.source && rel.target == relationship.target
            && rel.relationship_type == relationship.relationship_type {
            proof {
                assert(views[j as int] == rel.deep_view());
                assert(has_same_edge(views, new));
            }
            return Err(
                AppError::DuplicateRelationship(
                    relationship.source.clone(),
                    relationship.target.clone(),
                ),
            );
        }
        j += 1;
    }
    let ghost before = list@;
    list.push(relationship);
    proof {
        lemma_deep_view_push(before, list, relationship);
        assert(list.deep_view() =~= views.push(new));
    }
    Ok(list)
}

/// Takes the relationships with an id out of the list that was loaded. It
/// is an error if the list has none.
pub fn delete_relationship(relationships: &[Relationship], relationship_id: &str) -> (res: Result<
    Vec<Relationship>,
    AppError,
>)
    ensures
        match res {
            Ok(list) => has_id(relationships.deep_view(), relationship_id@) && list.deep_view()
                == relationships.deep_view().filter(other_than(relationship_id@)),
            Err(error) => !has_id(relationships.deep_view(), relationship_id@)
                && error.deep_view() == AppErrorView::RelationshipNotFound(relationship_id@),
        },
{
    let ghost views = relationships.deep_view();
    let mut out: Vec<Relationship> = Vec::new();
    let mut found = false;
    let mut i: usize = 0;
    proof {
        reveal(Seq::filter);
        assert(views.take(0) =~= Seq::<RelationshipView>::empty());
        assert(out.deep_view() =~= views.take(0).filter(other_than(relationship_id@)));
    }
    while i < relationships.len()
        invariant
            i <= relationships.len(),
            views == relationships.deep_view(),
            out.deep_view() == views.take(i as int).filter(other_than(relationship_id@)),
            found == has_id(views.take(i as int), relationship_id@),
        decreases relationships.len() - i,
    {
        let rel = &relationships[i];
        let ghost front = views.take(i as int);
        let ghost next = views.take(i + 1);
        proof {
            reveal(Seq::filter);
            assert(next.drop_last() =~= front);
            assert(next.last() == rel.deep_view());
            assert(next[i as int] == rel.deep_view());
            if has_id(front, relationship_id@) {
                let p = choose|p: int|
                    0 <= p < front.len() && (#[trigger] front[p]).id == relationship_id@;
                assert(next[p] == front[p]);
            }
            if has_id(next, relationship_id@) {
                let p = choose|p: int|
                    0 <= p < next.len() && (#[trigger] next[p]).id == relationship_id@;
                if p < i {
                    assert(front[p] == next[p]);
                }
            }
        }
        if same_text(rel.id.as_str(), relationship_id) {
            found = true;
        } else {
            let ghost before = out@;
            let copy = rel.clone();
            out.push(copy);
            proof {
                lemma_deep_view_push(before, out, copy);
            }
        }
        i += 1;
    }
    assert(views.take(i as int) =~= views);
    if found {
        Ok(out)
    } else {
        Err(AppError::RelationshipNotFound(relationship_id.to_owned()))
    }
}

/// Takes the relationships that start or end at a service out of the list
/// that was loaded, and says how many they were.
pub fn delete_relationships_for_service(relationships: &[Relationship], service_id: &str) -> (res: (
    Vec<Relationship>,
    usize,
))
    ensures
        res.0.deep_view() == relationships.deep_view().filter(not_touching(service_id@)),
        res.1 == relationships.len() - res.0.len(),
        res.1 == relationships.deep_view().filter(touching(service_id@)).len(),
{
    let ghost views = relationships.deep_view();
    let mut out: Vec<Relationship> = Vec::new();
    let mut deleted: usize = 0;
    let mut i: usize = 0;
    proof {
        reveal(Seq::filter);
        assert(views.take(0) =~= Seq::<RelationshipView>::empty());
        assert(out.deep_view() =~= views.take(0).filter(not_touching(service_id@)));
    }
    while i < relationships.len()
        invariant
            i <= relationships.len(),
            views == relationships.deep_view(),
            out.deep_view() == views.take(i as int).filter(not_touching(service_id@)),
            deleted == views.take(i as int).filter(touching(service_id@)).len(),
            deleted + out.len() == i,
        decreases relationships.len() - i,
    {
        let rel = &relationships[i];
        proof {
            reveal(Seq::filter);
            assert(views.take(i + 1).drop_last() =~= views.take(i as int));
            assert(views.take(i + 1).last() == rel.deep_view());
        }
        if same_text(rel.source.as_str(), service_id) || same_text(rel.target.as_str(), service_id) {
            deleted += 1;
        } else {
            let ghost before = out@;
            let copy = rel.clone();
            out.push(copy);
            proof {
                lemma_deep_view_push(before, out, copy);
            }
        }
        i += 1;
    }
    assert(views.take(i as int) =~= views);
    (out, deleted)
}

} // verus!
