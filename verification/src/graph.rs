//! The neighbourhood of a service: the services within a bounded number of
//! hops of it, following relationships in either direction, and the
//! relationships between them.

use crate::error::{AppError, AppErrorView};
use crate::relationship::{Relationship, RelationshipView};
use crate::service::{Service, ServiceView};
use crate::table::ServiceTable;
use crate::views::lemma_deep_view_push;
use vstd::hash_set::StringHashSet;
use vstd::prelude::*;

verus! {

/// A service with its neighbourhood: the services connected to it and the
/// relationships among them. Neither list has a guaranteed order.
#[derive(Debug)]
pub struct GraphData {
    pub center_service: Service,
    pub connected_services: Vec<Service>,
    pub relationships: Vec<Relationship>,
}

/// The mathematical value of a [`GraphData`].
pub struct GraphDataView {
    pub center_service: ServiceView,
    pub connected_services: Seq<ServiceView>,
    pub relationships: Seq<RelationshipView>,
}

impl DeepView for GraphData {
    type V = GraphDataView;

    open spec fn deep_view(&self) -> GraphDataView {
        GraphDataView {
            center_service: self.center_service.deep_view(),
            connected_services: self.connected_services.deep_view(),
            relationships: self.relationships.deep_view(),
        }
    }
}

/// A relationship starts or ends at `id`.
pub open spec fn touches(relationship: RelationshipView, id: Seq<char>) -> bool {
    relationship.source == id || relationship.target == id
}

/// The end of a relationship that one reaches from `id`: the target when
/// the relationship starts at `id`, else the source.
pub open spec fn other_end(relationship: RelationshipView, id: Seq<char>) -> Seq<char> {
    if relationship.source == id {
        relationship.target
    } else {
        relationship.source
    }
}

/// The relationship leads from a member of `inner` to `id`, in either
/// direction.
pub open spec fn extends(
    relationship: RelationshipView,
    inner: Set<Seq<char>>,
    id: Seq<char>,
) -> bool {
    (inner.contains(relationship.source) && relationship.target == id) || (inner.contains(
        relationship.target,
    ) && relationship.source == id)
}

/// The ids within `hops` hops of `center`, a hop being a relationship
/// followed in either direction. The ids need not be those of services.
pub open spec fn within(
    relationships: Seq<RelationshipView>,
    center: Seq<char>,
    hops: nat,
) -> Set<Seq<char>>
    decreases hops,
{
    if hops == 0 {
        set![center]
    } else {
        let inner = within(relationships, center, (hops - 1) as nat);
        Set::new(
            |id: Seq<char>|
                inner.contains(id) || exists|i: int|
                    0 <= i < relationships.len() && #[trigger] extends(
                        relationships[i],
                        inner,
                        id,
                    ),
        )
    }
}

/// The depth of a query: 1 where none is given.
pub open spec fn depth_or_default(depth: Option<u32>) -> nat {
    match depth {
        Some(d) => d as nat,
        None => 1,
    }
}

/// The relationships that a query to `depth` looks at: those that touch an
/// id within `depth - 1` hops of the center.
pub open spec fn in_scope(
    relationships: Seq<RelationshipView>,
    center: Seq<char>,
    depth: nat,
    relationship: RelationshipView,
) -> bool {
    depth > 0 && (within(relationships, center, (depth - 1) as nat).contains(relationship.source)
        || within(relationships, center, (depth - 1) as nat).contains(relationship.target))
}

/// `graph` is the neighbourhood of `center` to `depth` hops.
///
/// Its connected services are the services of the table, other than the
/// center, whose ids are within `depth` hops of the center, each once. Its
/// relationships are relationships in scope, both ends of which are
/// services; no two have the same relationship id, and every such
/// relationship has its id among them.
pub open spec fn is_neighborhood(
    graph: GraphDataView,
    table: Map<Seq<char>, ServiceView>,
    relationships: Seq<RelationshipView>,
    center: Seq<char>,
    depth: nat,
) -> bool {
    let reach = within(relationships, center, depth);
    let connected = graph.connected_services;
    let edges = graph.relationships;
    &&& table.contains_key(center)
    &&& graph.center_service == table[center]
    &&& forall|i: int|
        0 <= i < connected.len() ==> {
            &&& table.contains_key((#[trigger] connected[i]).id)
            &&& table[connected[i].id] == connected[i]
            &&& connected[i].id != center
            &&& reach.contains(connected[i].id)
        }
    &&& forall|i: int, j: int|
        0 <= i < j < connected.len() ==> (#[trigger] connected[i]).id != (#[trigger] connected[j]).id
    &&& forall|id: Seq<char>|
        #[trigger] reach.contains(id) && id != center && table.contains_key(id) ==> exists|i: int|
            0 <= i < connected.len() && (#[trigger] connected[i]).id == id
    &&& forall|k: int|
        0 <= k < edges.len() ==> {
            &&& relationships.contains(#[trigger] edges[k])
            &&& table.contains_key(edges[k].source)
            &&& table.contains_key(edges[k].target)
            &&& in_scope(relationships, center, depth, edges[k])
        }
    &&& forall|k: int, l: int|
        0 <= k < l < edges.len() ==> (#[trigger] edges[k]).id != (#[trigger] edges[l]).id
    &&& forall|j: int|
        0 <= j < relationships.len() && in_scope(
            relationships,
            center,
            depth,
            #[trigger] relationships[j],
        ) && table.contains_key(relationships[j].source) && table.contains_key(
            relationships[j].target,
        ) ==> exists|k: int| 0 <= k < edges.len() && (#[trigger] edges[k]).id == relationships[j].id
}

/// The id is that of the center or of one of the connected services.
pub open spec fn is_node_of(graph: GraphDataView, id: Seq<char>) -> bool {
    graph.center_service.id == id || exists|i: int|
        0 <= i < graph.connected_services.len() && (#[trigger] graph.connected_services[i]).id
            == id
}

/// A neighbourhood to depth 0 is the center alone: it has no connected
/// services and no relationships, whatever relationships there are.
pub proof fn lemma_depth_zero(
    graph: GraphDataView,
    table: Map<Seq<char>, ServiceView>,
    relationships: Seq<RelationshipView>,
    center: Seq<char>,
)
    requires
        is_neighborhood(graph, table, relationships, center, 0),
    ensures
        graph.connected_services.len() == 0,
        graph.relationships.len() == 0,
{
    if graph.connected_services.len() > 0 {
        assert(graph.connected_services[0].id != center);
        assert(within(relationships, center, 0).contains(graph.connected_services[0].id));
    }
    if graph.relationships.len() > 0 {
        assert(in_scope(relationships, center, 0, graph.relationships[0]));
    }
}

/// Every relationship of a neighbourhood has both its ends among the
/// center and the connected services: none dangles.
pub proof fn lemma_edges_closed(
    graph: GraphDataView,
    table: Map<Seq<char>, ServiceView>,
    relationships: Seq<RelationshipView>,
    center: Seq<char>,
    depth: nat,
)
    requires
        forall|k: Seq<char>| #[trigger] table.contains_key(k) ==> table[k].id == k,
        is_neighborhood(graph, table, relationships, center, depth),
    ensures
        forall|k: int|
            0 <= k < graph.relationships.len() ==> is_node_of(
                graph,
                (#[trigger] graph.relationships[k]).source,
            ) && is_node_of(graph, graph.relationships[k].target),
{
    let reach = within(relationships, center, depth);
    assert forall|k: int| 0 <= k < graph.relationships.len() implies is_node_of(
        graph,
        (#[trigger] graph.relationships[k]).source,
    ) && is_node_of(graph, graph.relationships[k].target) by {
        let edge = graph.relationships[k];
        assert(relationships.contains(edge));
        let j = choose|j: int| 0 <= j < relationships.len() && relationships[j] == edge;
        assert(in_scope(relationships, center, depth, edge));
        let inner = within(relationships, center, (depth - 1) as nat);
        if inner.contains(edge.source) {
            assert(extends(relationships[j], inner, edge.target));
        } else {
            assert(extends(relationships[j], inner, edge.source));
        }
        assert(reach.contains(edge.source));
        assert(reach.contains(edge.target));
        assert(table.contains_key(center));
        assert(graph.center_service.id == center);
    }
}

struct Traversal {
    visited: StringHashSet,
    connected: Vec<String>,
    edges: Vec<Relationship>,
    seen: StringHashSet,
}

/// The state of a search, as mathematical values: the ids entered, those of
/// them other than the center in the order of entering, the relationships
/// recorded, and their ids.
struct SearchView {
    visited: Set<Seq<char>>,
    connected: Seq<Seq<char>>,
    edges: Seq<RelationshipView>,
    seen: Set<Seq<char>>,
}

impl Traversal {
    spec fn state(&self) -> SearchView {
        SearchView {
            visited: self.visited@,
            connected: self.connected.deep_view(),
            edges: self.edges.deep_view(),
            seen: self.seen@,
        }
    }
}

/// Following the relationship from `from` records it.
spec fn records(
    before: SearchView,
    table: Map<Seq<char>, ServiceView>,
    rel: RelationshipView,
    from: Seq<char>,
) -> bool {
    touches(rel, from) && !before.seen.contains(rel.id) && table.contains_key(rel.source)
        && table.contains_key(rel.target)
}

/// Following the relationship from `from` enters its other end.
spec fn enters(before: SearchView, rel: RelationshipView, from: Seq<char>) -> bool {
    touches(rel, from) && !before.visited.contains(other_end(rel, from))
}

/// What following one relationship from one member of the frontier does to
/// the state of the search and to the next frontier.
spec fn stepped(
    before: SearchView,
    next_before: Seq<Seq<char>>,
    after: SearchView,
    next_after: Seq<Seq<char>>,
    table: Map<Seq<char>, ServiceView>,
    rel: RelationshipView,
    from: Seq<char>,
) -> bool {
    let other = other_end(rel, from);
    &&& after.visited == if enters(before, rel, from) {
        before.visited.insert(other)
    } else {
        before.visited
    }
    &&& after.connected == if enters(before, rel, from) {
        before.connected.push(other)
    } else {
        before.connected
    }
    &&& next_after == if enters(before, rel, from) {
        next_before.push(other)
    } else {
        next_before
    }
    &&& after.seen == if records(before, table, rel, from) {
        before.seen.insert(rel.id)
    } else {
        before.seen
    }
    &&& after.edges == if records(before, table, rel, from) {
        before.edges.push(rel)
    } else {
        before.edges
    }
}

/// Follows one relationship from one member of the frontier: records the
/// relationship if it is new and both its ends are services, and enters the
/// other end if the search has not been there.
fn visit_relationship(
    state: &mut Traversal,
    next: &mut Vec<String>,
    services: &ServiceTable,
    relationship: &Relationship,
    from: &String,
)
    requires
        services.wf(),
    ensures
        stepped(
            old(state).state(),
            old(next).deep_view(),
            final(state).state(),
            final(next).deep_view(),
            services@,
            relationship.deep_view(),
            from@,
        ),
{
    let other: &String = if relationship.source == *from {
        &relationship.target
    } else if relationship.target == *from {
        &relationship.source
    } else {
        return ;
    };
    if !state.seen.contains(relationship.id.as_str()) {
        if services.contains(relationship.source.as_str()) && services.contains(
            relationship.target.as_str(),
        ) {
            state.seen.insert(relationship.id.clone());
            let ghost before = state.edges@;
            let copy = relationship.clone();
            state.edges.push(copy);
            proof {
                lemma_deep_view_push(before, state.edges, copy);
            }
        }
    }
    if !state.visited.contains(other.as_str()) {
        let ghost next_before = next@;
        let entered = other.clone();
        next.push(entered);
        proof {
            lemma_deep_view_push(next_before, *next, entered);
        }
        state.visited.insert(other.clone());
        let ghost connected_before = state.connected@;
        let added = other.clone();
        state.connected.push(added);
        proof {
            lemma_deep_view_push(connected_before, state.connected, added);
        }
    }
}

/// The center is entered, and the connected ids are the ids entered other
/// than the center, each once.
spec fn core_inv(state: SearchView, center: Seq<char>) -> bool {
    &&& state.visited.contains(center)
    &&& forall|id: Seq<char>| #[trigger]
        state.connected.contains(id) <==> state.visited.contains(id) && id != center
    &&& forall|i: int, j: int|
        0 <= i < j < state.connected.len() ==> #[trigger] state.connected[i]
            != #[trigger] state.connected[j]
}

/// `base` together with the ids one hop away from a member of it.
spec fn grown(rels: Seq<RelationshipView>, base: Set<Seq<char>>) -> Set<Seq<char>> {
    Set::new(
        |id: Seq<char>|
            base.contains(id) || exists|i: int|
                0 <= i < rels.len() && #[trigger] extends(rels[i], base, id),
    )
}

/// The ids entered lie between `base` and what one hop adds to it.
spec fn sound_inv(state: SearchView, rels: Seq<RelationshipView>, base: Set<Seq<char>>) -> bool {
    &&& forall|id: Seq<char>| base.contains(id) ==> #[trigger] state.visited.contains(id)
    &&& forall|id: Seq<char>| #[trigger]
        state.visited.contains(id) ==> grown(rels, base).contains(id)
}

/// The relationships recorded are relationships of the environment that
/// touch `scope` and join two services; their ids are the ids seen, and no
/// two of them have the same id.
spec fn edges_inv(
    state: SearchView,
    table: Map<Seq<char>, ServiceView>,
    rels: Seq<RelationshipView>,
    scope: Set<Seq<char>>,
) -> bool {
    &&& forall|k: int|
        0 <= k < state.edges.len() ==> {
            &&& rels.contains(#[trigger] state.edges[k])
            &&& table.contains_key(state.edges[k].source)
            &&& table.contains_key(state.edges[k].target)
            &&& (scope.contains(state.edges[k].source) || scope.contains(state.edges[k].target))
        }
    &&& forall|id: Seq<char>| #[trigger]
        state.seen.contains(id) <==> exists|k: int|
            0 <= k < state.edges.len() && (#[trigger] state.edges[k]).id == id
    &&& forall|k: int, l: int|
        0 <= k < l < state.edges.len() ==> (#[trigger] state.edges[k]).id != (
        #[trigger] state.edges[l]).id
}

/// The next frontier holds the ids entered beyond `base`, and only ids
/// entered.
spec fn next_inv(state: SearchView, base: Set<Seq<char>>, next: Seq<Seq<char>>) -> bool {
    &&& forall|id: Seq<char>| #[trigger]
        state.visited.contains(id) ==> base.contains(id) || next.contains(id)
    &&& forall|id: Seq<char>| #[trigger] next.contains(id) ==> state.visited.contains(id)
}

/// The relationship has been followed from `from`.
spec fn handled(
    state: SearchView,
    table: Map<Seq<char>, ServiceView>,
    rel: RelationshipView,
    from: Seq<char>,
) -> bool {
    touches(rel, from) ==> state.visited.contains(other_end(rel, from)) && (table.contains_key(
        rel.source,
    ) && table.contains_key(rel.target) ==> state.seen.contains(rel.id))
}

/// Every relationship that touches `scope` and joins two services has been
/// seen.
spec fn complete(
    state: SearchView,
    table: Map<Seq<char>, ServiceView>,
    rels: Seq<RelationshipView>,
    scope: Set<Seq<char>>,
) -> bool {
    forall|j: int|
        0 <= j < rels.len() && (scope.contains((#[trigger] rels[j]).source) || scope.contains(
            rels[j].target,
        )) && table.contains_key(rels[j].source) && table.contains_key(rels[j].target)
            ==> state.seen.contains(rels[j].id)
}

/// One step keeps what holds of the search, and handles the relationship
/// it follows.
proof fn lemma_step(
    before: SearchView,
    next_before: Seq<Seq<char>>,
    after: SearchView,
    next_after: Seq<Seq<char>>,
    table: Map<Seq<char>, ServiceView>,
    rels: Seq<RelationshipView>,
    center: Seq<char>,
    base: Set<Seq<char>>,
    j: int,
    from: Seq<char>,
)
    requires
        0 <= j < rels.len(),
        base.contains(from),
        core_inv(before, center),
        sound_inv(before, rels, base),
        edges_inv(before, table, rels, base),
        next_inv(before, base, next_before),
        stepped(before, next_before, after, next_after, table, rels[j], from),
    ensures
        core_inv(after, center),
        sound_inv(after, rels, base),
        edges_inv(after, table, rels, base),
        next_inv(after, base, next_after),
        handled(after, table, rels[j], from),
        forall|id: Seq<char>| before.visited.contains(id) ==> after.visited.contains(id),
        forall|id: Seq<char>| before.seen.contains(id) ==> after.seen.contains(id),
{
    let rel = rels[j];
    let other = other_end(rel, from);
    if enters(before, rel, from) {
        assert(extends(rel, base, other));
        assert(grown(rels, base).contains(other));
        assert(!before.connected.contains(other));
        assert(other != center);
        assert forall|id: Seq<char>| #[trigger]
            after.connected.contains(id) <==> after.visited.contains(id) && id != center by {
            if after.connected.contains(id) {
                let p = choose|p: int| 0 <= p < after.connected.len() && after.connected[p] == id;
                if p < before.connected.len() {
                    assert(before.connected[p] == id);
                    assert(before.connected.contains(id));
                }
            }
            if after.visited.contains(id) && id != center {
                if id == other {
                    assert(after.connected[before.connected.len() as int] == id);
                } else {
                    assert(before.connected.contains(id));
                    let p = choose|p: int|
                        0 <= p < before.connected.len() && before.connected[p] == id;
                    assert(after.connected[p] == id);
                }
            }
        }
        assert forall|i: int, k: int| 0 <= i < k < after.connected.len() implies
            #[trigger] after.connected[i] != #[trigger] after.connected[k] by {
            if k == before.connected.len() {
                assert(before.connected[i] == after.connected[i]);
                assert(before.connected.contains(after.connected[i]));
            } else {
                assert(before.connected[i] == after.connected[i]);
                assert(before.connected[k] == after.connected[k]);
            }
        }
        assert forall|id: Seq<char>| #[trigger] after.visited.contains(id) implies base.contains(
            id,
        ) || next_after.contains(id) by {
            if id == other {
                assert(next_after[next_before.len() as int] == id);
            } else if !base.contains(id) {
                assert(next_before.contains(id));
                let p = choose|p: int| 0 <= p < next_before.len() && next_before[p] == id;
                assert(next_after[p] == id);
            }
        }
        assert forall|id: Seq<char>| #[trigger] next_after.contains(id) implies
            after.visited.contains(id) by {
            let p = choose|p: int| 0 <= p < next_after.len() && next_after[p] == id;
            if p < next_before.len() {
                assert(next_before[p] == id);
                assert(next_before.contains(id));
            }
        }
    }
    if records(before, table, rel, from) {
        assert(rels.contains(rel));
        assert forall|k: int| 0 <= k < after.edges.len() implies {
            &&& rels.contains(#[trigger] after.edges[k])
            &&& table.contains_key(after.edges[k].source)
            &&& table.contains_key(after.edges[k].target)
            &&& (base.contains(after.edges[k].source) || base.contains(after.edges[k].target))
        } by {
            if k < before.edges.len() {
                assert(after.edges[k] == before.edges[k]);
            }
        }
        assert forall|id: Seq<char>| #[trigger]
            after.seen.contains(id) <==> exists|k: int|
                0 <= k < after.edges.len() && (#[trigger] after.edges[k]).id == id by {
            if after.seen.contains(id) {
                if id == rel.id {
                    assert(after.edges[before.edges.len() as int].id == id);
                } else {
                    assert(before.seen.contains(id));
                    let k = choose|k: int|
                        0 <= k < before.edges.len() && (#[trigger] before.edges[k]).id == id;
                    assert(after.edges[k].id == id);
                }
            }
            if exists|k: int| 0 <= k < after.edges.len() && (#[trigger] after.edges[k]).id == id {
                let k = choose|k: int|
                    0 <= k < after.edges.len() && (#[trigger] after.edges[k]).id == id;
                if k < before.edges.len() {
                    assert(before.edges[k].id == id);
                    assert(before.seen.contains(id));
                }
            }
        }
        assert forall|k: int, l: int| 0 <= k < l < after.edges.len() implies (
        #[trigger] after.edges[k]).id != (#[trigger] after.edges[l]).id by {
            assert(after.edges[k] == before.edges[k]);
            if l < before.edges.len() {
                assert(after.edges[l] == before.edges[l]);
            } else {
                assert(before.seen.contains(before.edges[k].id));
            }
        }
    }
}

/// Runs one round of the search: follows every relationship from every
/// member of the frontier, and returns the next frontier.
fn expand(
    state: &mut Traversal,
    level: &Vec<String>,
    services: &ServiceTable,
    relationships: &[Relationship],
    Ghost(center): Ghost<Seq<char>>,
    Ghost(base): Ghost<Set<Seq<char>>>,
) -> (next: Vec<String>)
    requires
        services.wf(),
        core_inv(old(state).state(), center),
        sound_inv(old(state).state(), relationships.deep_view(), base),
        edges_inv(old(state).state(), services@, relationships.deep_view(), base),
        forall|id: Seq<char>| old(state).visited@.contains(id) ==> base.contains(id),
        forall|p: int| 0 <= p < level.len() ==> base.contains(#[trigger] level.deep_view()[p]),
    ensures
        core_inv(final(state).state(), center),
        sound_inv(final(state).state(), relationships.deep_view(), base),
        edges_inv(final(state).state(), services@, relationships.deep_view(), base),
        next_inv(final(state).state(), base, next.deep_view()),
        forall|p: int, j: int|
            0 <= p < level.len() && 0 <= j < relationships.len() ==> handled(
                final(state).state(),
                services@,
                #[trigger] relationships.deep_view()[j],
                #[trigger] level.deep_view()[p],
            ),
        forall|id: Seq<char>| old(state).seen@.contains(id) ==> final(state).seen@.contains(id),
{
    let ghost rels = relationships.deep_view();
    let ghost ids = level.deep_view();
    let ghost table = services@;
    let ghost seen0 = state.seen@;
    let mut next: Vec<String> = Vec::new();
    let mut p: usize = 0;
    assert(next.deep_view() =~= Seq::<Seq<char>>::empty());
    while p < level.len()
        invariant
            p <= level.len(),
            services.wf(),
            rels == relationships.deep_view(),
            ids == level.deep_view(),
            table == services@,
            core_inv(state.state(), center),
            sound_inv(state.state(), rels, base),
            edges_inv(state.state(), table, rels, base),
            next_inv(state.state(), base, next.deep_view()),
            forall|q: int| 0 <= q < level.len() ==> base.contains(#[trigger] ids[q]),
            forall|q: int, j: int|
                0 <= q < p && 0 <= j < rels.len() ==> handled(
                    state.state(),
                    table,
                    #[trigger] rels[j],
                    #[trigger] ids[q],
                ),
            forall|id: Seq<char>| seen0.contains(id) ==> state.seen@.contains(id),
        decreases level.len() - p,
    {
        let from = &level[p];
        assert(ids[p as int] == from@);
        let mut j: usize = 0;
        while j < relationships.len()
            invariant
                p < level.len(),
                j <= relationships.len(),
                services.wf(),
                rels == relationships.deep_view(),
                ids == level.deep_view(),
                table == services@,
                ids[p as int] == from@,
                base.contains(from@),
                core_inv(state.state(), center),
                sound_inv(state.state(), rels, base),
                edges_inv(state.state(), table, rels, base),
                next_inv(state.state(), base, next.deep_view()),
                forall|q: int, k: int|
                    0 <= q < p && 0 <= k < rels.len() ==> handled(
                        state.state(),
                        table,
                        #[trigger] rels[k],
                        #[trigger] ids[q],
                    ),
                forall|k: int|
                    0 <= k < j ==> handled(state.state(), table, #[trigger] rels[k], from@),
                forall|id: Seq<char>| seen0.contains(id) ==> state.seen@.contains(id),
            decreases relationships.len() - j,
        {
            let ghost before = state.state();
            let ghost next_before = next.deep_view();
            visit_relationship(state, &mut next, services, &relationships[j], from);
            proof {
                assert(rels[j as int] == relationships[j as int].deep_view());
                lemma_step(
                    before,
                    next_before,
                    state.state(),
                    next.deep_view(),
                    table,
                    rels,
                    center,
                    base,
                    j as int,
                    from@,
                );
                assert forall|q: int, k: int| 0 <= q < p && 0 <= k < rels.len() implies handled(
                    state.state(),
                    table,
                    #[trigger] rels[k],
                    #[trigger] ids[q],
                ) by {
                    assert(handled(before, table, rels[k], ids[q]));
                }
                assert forall|k: int| 0 <= k < j + 1 implies handled(
                    state.state(),
                    table,
                    #[trigger] rels[k],
                    from@,
                ) by {
                    if k < j {
                        assert(handled(before, table, rels[k], from@));
                    }
                }
            }
            j += 1;
        }
        p += 1;
    }
    next
}

/// After a round from a frontier that covers `base` beyond `inner`, the ids
/// entered are `base` grown by one hop, and every relationship that touches
/// `base` and joins two services has been seen.
proof fn lemma_round(
    before: SearchView,
    after: SearchView,
    level: Seq<Seq<char>>,
    table: Map<Seq<char>, ServiceView>,
    rels: Seq<RelationshipView>,
    base: Set<Seq<char>>,
    inner: Set<Seq<char>>,
)
    requires
        sound_inv(after, rels, base),
        forall|p: int, j: int|
            0 <= p < level.len() && 0 <= j < rels.len() ==> handled(
                after,
                table,
                #[trigger] rels[j],
                #[trigger] level[p],
            ),
        forall|id: Seq<char>| base.contains(id) ==> inner.contains(id) || level.contains(id),
        forall|i: int, id: Seq<char>|
            0 <= i < rels.len() && #[trigger] extends(rels[i], inner, id) ==> base.contains(id),
        complete(before, table, rels, inner),
        forall|id: Seq<char>| before.seen.contains(id) ==> after.seen.contains(id),
    ensures
        after.visited == grown(rels, base),
        complete(after, table, rels, base),
{
    assert forall|id: Seq<char>| grown(rels, base).contains(id) implies after.visited.contains(
        id,
    ) by {
        if !base.contains(id) {
            let i = choose|i: int| 0 <= i < rels.len() && #[trigger] extends(rels[i], base, id);
            let rel = rels[i];
            let a = if base.contains(rel.source) && rel.target == id {
                rel.source
            } else {
                rel.target
            };
            assert(base.contains(a));
            if inner.contains(a) {
                assert(extends(rel, inner, id));
            } else {
                let p = choose|p: int| 0 <= p < level.len() && level[p] == a;
                assert(handled(after, table, rels[i], level[p]));
                assert(touches(rel, a));
                if other_end(rel, a) != id {
                    assert(rel.source == a && rel.target == a);
                }
            }
        }
    }
    assert(after.visited =~= grown(rels, base));
    assert forall|j: int|
        0 <= j < rels.len() && (base.contains((#[trigger] rels[j]).source) || base.contains(
            rels[j].target,
        )) && table.contains_key(rels[j].source) && table.contains_key(
            rels[j].target,
        ) implies after.seen.contains(rels[j].id) by {
        let rel = rels[j];
        let a = if base.contains(rel.source) {
            rel.source
        } else {
            rel.target
        };
        if inner.contains(a) {
            assert(before.seen.contains(rel.id));
        } else {
            let p = choose|p: int| 0 <= p < level.len() && level[p] == a;
            assert(handled(after, table, rels[j], level[p]));
        }
    }
}

/// Looks up the services that the search has entered, dropping the ids
/// that name no service.
fn collect_connected(services: &ServiceTable, connected: &Vec<String>) -> (res: Vec<Service>)
    requires
        services.wf(),
        forall|i: int, j: int|
            0 <= i < j < connected.len() ==> #[trigger] connected.deep_view()[i]
                != #[trigger] connected.deep_view()[j],
    ensures
        forall|i: int|
            0 <= i < res.len() ==> {
                &&& services@.contains_key((#[trigger] res.deep_view()[i]).id)
                &&& services@[res.deep_view()[i].id] == res.deep_view()[i]
                &&& connected.deep_view().contains(res.deep_view()[i].id)
            },
        forall|i: int, j: int|
            0 <= i < j < res.len() ==> (#[trigger] res.deep_view()[i]).id != (
            #[trigger] res.deep_view()[j]).id,
        forall|id: Seq<char>|
            connected.deep_view().contains(id) && services@.contains_key(id) ==> exists|i: int|
                0 <= i < res.len() && (#[trigger] res.deep_view()[i]).id == id,
{
    let ghost ids = connected.deep_view();
    let mut out: Vec<Service> = Vec::new();
    let mut n: usize = 0;
    while n < connected.len()
        invariant
            n <= connected.len(),
            services.wf(),
            ids == connected.deep_view(),
            forall|i: int, j: int| 0 <= i < j < ids.len() ==> #[trigger] ids[i] != #[trigger] ids[j],
            forall|i: int|
                0 <= i < out.len() ==> {
                    &&& services@.contains_key((#[trigger] out.deep_view()[i]).id)
                    &&& services@[out.deep_view()[i].id] == out.deep_view()[i]
                    &&& exists|q: int| 0 <= q < n && ids[q] == out.deep_view()[i].id
                },
            forall|i: int, j: int|
                0 <= i < j < out.len() ==> (#[trigger] out.deep_view()[i]).id != (
                #[trigger] out.deep_view()[j]).id,
            forall|q: int|
                0 <= q < n && services@.contains_key(#[trigger] ids[q]) ==> exists|i: int|
                    0 <= i < out.len() && (#[trigger] out.deep_view()[i]).id == ids[q],
        decreases connected.len() - n,
    {
        let id = &connected[n];
        assert(ids[n as int] == id@);
        match services.get(id.as_str()) {
            Some(service) => {
                let ghost before = out;
                let copy = service.clone();
                out.push(copy);
                proof {
                    lemma_deep_view_push(before@, out, copy);
                    let old_views = before.deep_view();
                    let views = out.deep_view();
                    assert(views =~= old_views.push(copy.deep_view()));
                    assert forall|i: int| 0 <= i < out.len() implies {
                        &&& services@.contains_key((#[trigger] views[i]).id)
                        &&& services@[views[i].id] == views[i]
                        &&& exists|q: int| 0 <= q < n + 1 && ids[q] == views[i].id
                    } by {
                        if i < before.len() {
                            assert(views[i] == old_views[i]);
                            let q = choose|q: int| 0 <= q < n && ids[q] == old_views[i].id;
                            assert(ids[q] == views[i].id);
                        } else {
                            assert(ids[n as int] == views[i].id);
                        }
                    }
                    assert forall|i: int, j: int| 0 <= i < j < out.len() implies (
                    #[trigger] views[i]).id != (#[trigger] views[j]).id by {
                        assert(views[i] == old_views[i]);
                        if j < before.len() {
                            assert(views[j] == old_views[j]);
                        } else {
                            let q = choose|q: int| 0 <= q < n && ids[q] == old_views[i].id;
                            assert(ids[q] != ids[n as int]);
                        }
                    }
                    assert forall|q: int|
                        0 <= q < n + 1 && services@.contains_key(
                            #[trigger] ids[q],
                        ) implies exists|i: int|
                        0 <= i < out.len() && (#[trigger] views[i]).id == ids[q] by {
                        if q < n {
                            let i = choose|i: int|
                                0 <= i < before.len() && (#[trigger] old_views[i]).id == ids[q];
                            assert(views[i].id == ids[q]);
                        } else {
                            assert(views[before.len() as int].id == ids[q]);
                        }
                    }
                }
            },
            None => {},
        }
        n += 1;
    }
    proof {
        assert forall|id: Seq<char>|
            ids.contains(id) && services@.contains_key(id) implies exists|i: int|
            0 <= i < out.len() && (#[trigger] out.deep_view()[i]).id == id by {
            let q = choose|q: int| 0 <= q < ids.len() && ids[q] == id;
            assert(services@.contains_key(ids[q]));
        }
        assert forall|i: int| 0 <= i < out.len() implies ids.contains(
            (#[trigger] out.deep_view()[i]).id,
        ) by {
            let q = choose|q: int| 0 <= q < n && ids[q] == out.deep_view()[i].id;
            assert(ids[q] == out.deep_view()[i].id);
        }
    }
    out
}

/// Builds the neighbourhood of a service: a breadth-first search from the
/// center that follows relationships in both directions for `depth` rounds,
/// one round where no depth is given. Fails exactly when the table has no
/// service with the center's id.
pub fn get_service_graph(
    services: &ServiceTable,
    relationships: &[Relationship],
    center_service_id: &str,
    depth: Option<u32>,
) -> (res: Result<GraphData, AppError>)
    requires
        services.wf(),
    ensures
        match res {
            Ok(graph) => is_neighborhood(
                graph.deep_view(),
                services@,
                relationships.deep_view(),
                center_service_id@,
                depth_or_default(depth),
            ),
            Err(error) => !services@.contains_key(center_service_id@) && error.deep_view()
                == AppErrorView::ServiceNotFound(center_service_id@),
        },
        depth == Some(0u32) && services@.contains_key(center_service_id@) ==> res is Ok
            && res->Ok_0.connected_services.len() == 0 && res->Ok_0.relationships.len() == 0,
        res is Ok ==> forall|k: int|
            0 <= k < res->Ok_0.relationships.len() ==> is_node_of(
                res->Ok_0.deep_view(),
                (#[trigger] res->Ok_0.relationships.deep_view()[k]).source,
            ) && is_node_of(res->Ok_0.deep_view(), res->Ok_0.relationships.deep_view()[k].target),
{
    let rounds: u32 = match depth {
        Some(d) => d,
        None => 1,
    };
    let center_service = match services.get(center_service_id) {
        Some(service) => service.clone(),
        None => {
            return Err(AppError::ServiceNotFound(center_service_id.to_owned()));
        },
    };
    let ghost rels = relationships.deep_view();
    let ghost table = services@;
    let ghost center = center_service_id@;
    let mut state = Traversal {
        visited: StringHashSet::new(),
        connected: Vec::new(),
        edges: Vec::new(),
        seen: StringHashSet::new(),
    };
    state.visited.insert(center_service_id.to_owned());
    let mut level: Vec<String> = Vec::new();
    level.push(center_service_id.to_owned());
    let mut round: u32 = 0;
    let ghost mut base: Set<Seq<char>> = within(rels, center, 0);
    let ghost mut inner: Set<Seq<char>> = Set::empty();
    proof {
        assert(state.visited@ =~= base);
        assert(state.connected.deep_view() =~= Seq::<Seq<char>>::empty());
        assert(state.edges.deep_view() =~= Seq::<RelationshipView>::empty());
        assert(level.deep_view() =~= seq![center]);
        assert(level.deep_view()[0] == center);
    }
    while round < rounds
        invariant
            round <= rounds,
            services.wf(),
            rels == relationships.deep_view(),
            table == services@,
            base == within(rels, center, round as nat),
            round > 0 ==> inner == within(rels, center, (round - 1) as nat),
            round == 0 ==> inner == Set::<Seq<char>>::empty(),
            state.visited@ == base,
            core_inv(state.state(), center),
            edges_inv(state.state(), table, rels, inner),
            complete(state.state(), table, rels, inner),
            forall|id: Seq<char>| inner.contains(id) ==> base.contains(id),
            forall|p: int| 0 <= p < level.len() ==> base.contains(#[trigger] level.deep_view()[p]),
            forall|id: Seq<char>|
                base.contains(id) ==> inner.contains(id) || level.deep_view().contains(id),
            forall|i: int, id: Seq<char>|
                0 <= i < rels.len() && #[trigger] extends(rels[i], inner, id) ==> base.contains(
                    id,
                ),
        decreases rounds - round,
    {
        let ghost before = state.state();
        let next = expand(&mut state, &level, services, relationships, Ghost(center), Ghost(base));
        proof {
            lemma_round(before, state.state(), level.deep_view(), table, rels, base, inner);
            let bigger = grown(rels, base);
            assert(within(rels, center, (round + 1) as nat) =~= bigger);
            assert forall|p: int| 0 <= p < next.len() implies bigger.contains(
                #[trigger] next.deep_view()[p],
            ) by {
                assert(next.deep_view().contains(next.deep_view()[p]));
            }
            inner = base;
            base = bigger;
        }
        level = next;
        round += 1;
    }
    let ghost found = state.state();
    proof {
        assert(found.connected == state.connected.deep_view());
        assert(found.edges == state.edges.deep_view());
        assert forall|i: int, j: int| 0 <= i < j < state.connected.len() implies
            #[trigger] state.connected.deep_view()[i] != #[trigger] state.connected.deep_view()[j] by {
            assert(found.connected[i] != found.connected[j]);
        }
    }
    let connected_services = collect_connected(services, &state.connected);
    let graph = GraphData { center_service, connected_services, relationships: state.edges };
    proof {
        let view = graph.deep_view();
        let connected = view.connected_services;
        let edges = view.relationships;
        let reach = within(rels, center, rounds as nat);
        assert(edges == found.edges);
        assert(found.visited == reach);
        assert forall|i: int| 0 <= i < connected.len() implies {
            &&& table.contains_key((#[trigger] connected[i]).id)
            &&& table[connected[i].id] == connected[i]
            &&& connected[i].id != center
            &&& reach.contains(connected[i].id)
        } by {
            assert(found.connected.contains(connected[i].id));
        }
        assert forall|id: Seq<char>|
            #[trigger] reach.contains(id) && id != center && table.contains_key(
                id,
            ) implies exists|i: int|
            0 <= i < connected.len() && (#[trigger] connected[i]).id == id by {
            assert(found.connected.contains(id));
        }
        assert forall|k: int| 0 <= k < edges.len() implies {
            &&& rels.contains(#[trigger] edges[k])
            &&& table.contains_key(edges[k].source)
            &&& table.contains_key(edges[k].target)
            &&& in_scope(rels, center, rounds as nat, edges[k])
        } by {
            assert(inner.contains(found.edges[k].source) || inner.contains(found.edges[k].target));
        }
        assert forall|j: int|
            0 <= j < rels.len() && in_scope(rels, center, rounds as nat, #[trigger] rels[j])
                && table.contains_key(rels[j].source) && table.contains_key(
                rels[j].target,
            ) implies exists|k: int|
            0 <= k < edges.len() && (#[trigger] edges[k]).id == rels[j].id by {
            assert(found.seen.contains(rels[j].id));
        }
        services.lemma_entries();
        lemma_edges_closed(view, table, rels, center, rounds as nat);
        if rounds == 0 {
            lemma_depth_zero(view, table, rels, center);
        }
    }
    Ok(graph)
}

} // verus!
