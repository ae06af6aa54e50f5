//! Dependency cycles: a depth-first search over the `depends_on` edges, and
//! the canonical rotation by which cycles found from different starting
//! points are recognised as one.

use crate::text::{
    lemma_lex_less_asymmetric, lemma_lex_less_total, lemma_lex_less_transitive, less_than, lex_less,
};
use crate::views::{lemma_deep_view_drop_last, lemma_deep_view_push};
use crate::metadata::{clone_strings, same_strings};
use crate::relationship::{Relationship, RelationshipType, RelationshipTypeView, RelationshipView};
use crate::text::same_text;
use vstd::hash_map::StringHashMap;
use vstd::hash_set::StringHashSet;
use vstd::prelude::*;

verus! {

/// The position of the least element of `nodes` in lexicographic order; the
/// first such position where the least element occurs more than once, and 0
/// for an empty sequence.
pub open spec fn min_position(nodes: Seq<Seq<char>>) -> int
    decreases nodes.len(),
{
    if nodes.len() <= 1 {
        0
    } else {
        let p = min_position(nodes.drop_last());
        if lex_less(nodes.last(), nodes[p]) {
            nodes.len() - 1
        } else {
            p
        }
    }
}

/// `nodes` read cyclically from position `p`.
pub open spec fn rotated(nodes: Seq<Seq<char>>, p: int) -> Seq<Seq<char>> {
    nodes.subrange(p, nodes.len() as int) + nodes.subrange(0, p)
}

/// The canonical form of a closed path `n0, n1, .., n0`: the path without its
/// repeated last node, read cyclically from its least element.
pub open spec fn canonical_cycle(cycle: Seq<Seq<char>>) -> Seq<Seq<char>> {
    if cycle.len() <= 1 {
        Seq::empty()
    } else {
        let nodes = cycle.drop_last();
        rotated(nodes, min_position(nodes))
    }
}

/// Nothing in a sequence is less than the element at `min_position`.
pub proof fn lemma_min_position_is_least(nodes: Seq<Seq<char>>)
    requires
        nodes.len() > 0,
    ensures
        0 <= min_position(nodes) < nodes.len(),
        forall|j: int|
            0 <= j < nodes.len() ==> !lex_less(#[trigger] nodes[j], nodes[min_position(nodes)]),
    decreases nodes.len(),
{
    if nodes.len() > 1 {
        let front = nodes.drop_last();
        let p = min_position(front);
        lemma_min_position_is_least(front);
        assert(front[p] == nodes[p]);
        if lex_less(nodes.last(), nodes[p]) {
            assert forall|j: int| 0 <= j < nodes.len() implies !lex_less(
                #[trigger] nodes[j],
                nodes.last(),
            ) by {
                if j < nodes.len() - 1 {
                    assert(front[j] == nodes[j]);
                    if lex_less(nodes[j], nodes.last()) {
                        lemma_lex_less_transitive(nodes[j], nodes.last(), nodes[p]);
                    }
                } else {
                    lemma_lex_less_asymmetric(nodes.last(), nodes.last());
                }
            }
        } else {
            assert forall|j: int| 0 <= j < nodes.len() implies !lex_less(
                #[trigger] nodes[j],
                nodes[p],
            ) by {
                if j < nodes.len() - 1 {
                    assert(front[j] == nodes[j]);
                }
            }
        }
    } else {
        lemma_lex_less_asymmetric(nodes[0], nodes[0]);
    }
}

/// The position in `nodes` of the element that stands at `i` in
/// `rotated(nodes, k)`.
pub open spec fn rotated_from(len: int, k: int, i: int) -> int {
    if i + k < len {
        i + k
    } else {
        i + k - len
    }
}

/// A rotation holds the elements of the sequence, each moved by `k`.
pub proof fn lemma_rotated_index(nodes: Seq<Seq<char>>, k: int)
    requires
        0 <= k < nodes.len(),
    ensures
        rotated(nodes, k).len() == nodes.len(),
        forall|i: int|
            0 <= i < nodes.len() ==> #[trigger] rotated(nodes, k)[i] == nodes[rotated_from(
                nodes.len() as int,
                k,
                i,
            )],
{
}

/// The canonical form does not depend on where a cycle is entered: a closed
/// path through distinct nodes and the closed path through the same nodes
/// from the `k`-th of them on have the same canonical form.
pub proof fn lemma_canonical_cycle_rotation(nodes: Seq<Seq<char>>, k: int)
    requires
        nodes.no_duplicates(),
        0 <= k < nodes.len(),
    ensures
        canonical_cycle(rotated(nodes, k).push(nodes[k])) == canonical_cycle(
            nodes.push(nodes[0]),
        ),
{
    let n = nodes.len() as int;
    let turned = rotated(nodes, k);
    lemma_rotated_index(nodes, k);
    assert(nodes.push(nodes[0]).drop_last() =~= nodes);
    assert(turned.push(nodes[k]).drop_last() =~= turned);
    let m = min_position(nodes);
    let q = min_position(turned);
    lemma_min_position_is_least(nodes);
    lemma_min_position_is_least(turned);
    let t = rotated_from(n, k, q);
    assert(turned[q] == nodes[t]);
    assert(t == m) by {
        // Both positions hold a least element, and distinct nodes have one only.
        lemma_lex_less_total(nodes[t], nodes[m]);
        let back = if m >= k {
            m - k
        } else {
            m - k + n
        };
        assert(turned[back] == nodes[m]);
        assert(!lex_less(turned[back], turned[q]));
        assert(!lex_less(nodes[t], nodes[m]));
    }
    lemma_rotated_index(turned, q);
    lemma_rotated_index(nodes, m);
    assert forall|i: int| 0 <= i < n implies rotated(turned, q)[i] == rotated(nodes, m)[i] by {
        let a = rotated_from(n, q, i);
        assert(rotated(turned, q)[i] == turned[a]);
        assert(turned[a] == nodes[rotated_from(n, k, a)]);
        assert(rotated_from(n, k, a) == rotated_from(n, m, i));
    }
    assert(rotated(turned, q) =~= rotated(nodes, m));
}

/// Brings a closed path into its canonical form.
pub fn normalize_cycle(cycle: &[String]) -> (res: Vec<String>)
    ensures
        res.deep_view() == canonical_cycle(cycle.deep_view()),
{
    let ghost path = cycle.deep_view();
    if cycle.len() <= 1 {
        let out: Vec<String> = Vec::new();
        assert(out.deep_view() =~= Seq::<Seq<char>>::empty());
        return out;
    }
    let n: usize = cycle.len() - 1;
    let ghost nodes = path.drop_last();
    let mut min_pos: usize = 0;
    let mut i: usize = 1;
    assert(nodes.take(1).len() == 1);
    while i < n
        invariant
            1 <= i <= n,
            n == cycle.len() - 1,
            path == cycle.deep_view(),
            nodes == path.drop_last(),
            min_pos < i,
            min_pos == min_position(nodes.take(i as int)),
        decreases n - i,
    {
        proof {
            assert(nodes.take(i + 1).drop_last() =~= nodes.take(i as int));
            assert(nodes.take(i + 1).last() == cycle[i as int]@);
            assert(nodes.take(i + 1)[min_pos as int] == cycle[min_pos as int]@);
        }
        if less_than(cycle[i].as_str(), cycle[min_pos].as_str()) {
            min_pos = i;
        }
        i += 1;
    }
    assert(nodes.take(n as int) =~= nodes);
    let mut out: Vec<String> = Vec::new();
    let mut k: usize = min_pos;
    while k < n
        invariant
            min_pos <= k <= n,
            n == cycle.len() - 1,
            path == cycle.deep_view(),
            nodes == path.drop_last(),
            out.deep_view() == nodes.subrange(min_pos as int, k as int),
        decreases n - k,
    {
        let ghost before = out@;
        let item = cycle[k].clone();
        out.push(item);
        proof {
            lemma_deep_view_push(before, out, item);
            assert(out.deep_view() =~= nodes.subrange(min_pos as int, k + 1));
        }
        k += 1;
    }
    let mut j: usize = 0;
    while j < min_pos
        invariant
            j <= min_pos < n,
            n == cycle.len() - 1,
            path == cycle.deep_view(),
            nodes == path.drop_last(),
            out.deep_view() == nodes.subrange(min_pos as int, n as int) + nodes.subrange(
                0,
                j as int,
            ),
        decreases min_pos - j,
    {
        let ghost before = out@;
        let item = cycle[j].clone();
        out.push(item);
        proof {
            lemma_deep_view_push(before, out, item);
            assert(out.deep_view() =~= nodes.subrange(min_pos as int, n as int)
                + nodes.subrange(0, j + 1));
        }
        j += 1;
    }
    out
}

/// The number of nodes of the graph that a search has not entered yet.
pub open spec fn unvisited(graph: Map<Seq<char>, Seq<Seq<char>>>, visited: Set<Seq<char>>) -> nat {
    graph.dom().difference(visited).len()
}

/// The closed paths back to `start` that a depth-first search finds when it
/// goes on from the end of `path` into each of `neighbors` in turn, in the
/// order in which it finds them.
///
/// `visited` holds the nodes that the search is inside of. A neighbour that
/// is in `visited` ends the branch: it closes a cycle if it is `start` and
/// the path is longer than one node, so that a node that depends on itself
/// is not reported. A neighbour that is not in `visited` is entered, and
/// the search goes on through its own dependencies if the graph has it as a
/// node.
pub open spec fn cycles_through(
    graph: Map<Seq<char>, Seq<Seq<char>>>,
    neighbors: Seq<Seq<char>>,
    visited: Set<Seq<char>>,
    path: Seq<Seq<char>>,
    start: Seq<char>,
) -> Seq<Seq<Seq<char>>>
    decreases unvisited(graph, visited), neighbors.len(),
    when graph.dom().finite()
    via cycles_through_decreases
{
    if neighbors.len() == 0 {
        Seq::empty()
    } else {
        let current = neighbors[0];
        let found = if visited.contains(current) {
            if current == start && path.len() > 1 {
                seq![path.push(start)]
            } else {
                Seq::empty()
            }
        } else if graph.dom().contains(current) {
            cycles_through(
                graph,
                graph[current],
                visited.insert(current),
                path.push(current),
                start,
            )
        } else {
            Seq::empty()
        };
        found + cycles_through(graph, neighbors.drop_first(), visited, path, start)
    }
}

#[via_fn]
proof fn cycles_through_decreases(
    graph: Map<Seq<char>, Seq<Seq<char>>>,
    neighbors: Seq<Seq<char>>,
    visited: Set<Seq<char>>,
    path: Seq<Seq<char>>,
    start: Seq<char>,
) {
    if neighbors.len() != 0 {
        let current = neighbors[0];
        if !visited.contains(current) && graph.dom().contains(current) {
            lemma_entering_decreases(graph, visited, current);
        }
    }
}

/// Entering a node of the graph that the search was not inside of leaves
/// fewer nodes to enter.
pub proof fn lemma_entering_decreases(
    graph: Map<Seq<char>, Seq<Seq<char>>>,
    visited: Set<Seq<char>>,
    current: Seq<char>,
)
    requires
        graph.dom().finite(),
        graph.dom().contains(current),
        !visited.contains(current),
    ensures
        unvisited(graph, visited.insert(current)) < unvisited(graph, visited),
{
    let before = graph.dom().difference(visited);
    let after = graph.dom().difference(visited.insert(current));
    assert(before.finite());
    assert(before.contains(current));
    assert(after =~= before.remove(current));
}

/// The closed paths back to `start` that a depth-first search finds when it
/// arrives at `current` with `path` behind it.
pub open spec fn cycles_from(
    graph: Map<Seq<char>, Seq<Seq<char>>>,
    current: Seq<char>,
    visited: Set<Seq<char>>,
    path: Seq<Seq<char>>,
    start: Seq<char>,
) -> Seq<Seq<Seq<char>>> {
    cycles_through(graph, seq![current], visited, path, start)
}

/// The `depends_on` edges of an environment, as adjacency lists: each node
/// with the targets of its dependencies, in the order in which they were
/// added.
pub struct DependencyGraph {
    index: StringHashMap<usize>,
    targets: Vec<Vec<String>>,
}

impl View for DependencyGraph {
    type V = Map<Seq<char>, Seq<Seq<char>>>;

    closed spec fn view(&self) -> Map<Seq<char>, Seq<Seq<char>>> {
        Map::new(
            |k: Seq<char>| self.index@.contains_key(k),
            |k: Seq<char>| self.targets[self.index@[k] as int].deep_view(),
        )
    }
}

impl DependencyGraph {
    /// Every node has its adjacency list, and no two nodes share one.
    pub closed spec fn wf(&self) -> bool {
        &&& self.index@.dom().finite()
        &&& forall|k: Seq<char>| #[trigger]
            self.index@.contains_key(k) ==> self.index@[k] < self.targets.len()
        &&& forall|a: Seq<char>, b: Seq<char>|
            #[trigger] self.index@.contains_key(a) && #[trigger] self.index@.contains_key(b)
                && self.index@[a] == self.index@[b] ==> a == b
    }

    /// A well-formed graph has finitely many nodes.
    pub proof fn lemma_finite(&self)
        requires
            self.wf(),
        ensures
            self@.dom().finite(),
    {
        assert(self@.dom() =~= self.index@.dom());
    }

    /// A graph without nodes.
    pub fn new() -> (res: Self)
        ensures
            res.wf(),
            res@ == Map::<Seq<char>, Seq<Seq<char>>>::empty(),
    {
        let res = DependencyGraph { index: StringHashMap::new(), targets: Vec::new() };
        assert(res@ =~= Map::<Seq<char>, Seq<Seq<char>>>::empty());
        res
    }

    /// Adds a node without dependencies, unless the graph has it already.
    pub fn add_node(&mut self, id: &str)
        requires
            old(self).wf(),
        ensures
            final(self).wf(),
            final(self)@ == if old(self)@.contains_key(id@) {
                old(self)@
            } else {
                old(self)@.insert(id@, Seq::empty())
            },
    {
        if !self.index.contains_key(id) {
            let position = self.targets.len();
            self.index.insert(id.to_owned(), position);
            self.targets.push(Vec::new());
            proof {
                assert(self.targets[position as int].deep_view() =~= Seq::<Seq<char>>::empty());
                assert(self@ =~= old(self)@.insert(id@, Seq::empty()));
            }
        } else {
            assert(self@ =~= old(self)@);
        }
    }

    /// Records that `source` depends on `target`, if `source` is a node.
    pub fn add_dependency(&mut self, source: &str, target: &str)
        requires
            old(self).wf(),
        ensures
            final(self).wf(),
            final(self)@ == if old(self)@.contains_key(source@) {
                old(self)@.insert(source@, old(self)@[source@].push(target@))
            } else {
                old(self)@
            },
    {
        match self.index.get(source) {
            Some(found) => {
                let position = *found;
                let ghost before = self.targets[position as int]@;
                let item = target.to_owned();
                self.targets[position].push(item);
                proof {
                    lemma_deep_view_push(before, self.targets[position as int], item);
                    assert(self@ =~= old(self)@.insert(
                        source@,
                        old(self)@[source@].push(target@),
                    ));
                }
            },
            None => {
                assert(self@ =~= old(self)@);
            },
        }
    }

    /// The targets of a node's dependencies, or `None` if the graph has no
    /// such node.
    pub fn neighbors(&self, node: &str) -> (res: Option<&Vec<String>>)
        requires
            self.wf(),
        ensures
            match res {
                Some(list) => self@.contains_key(node@) && list.deep_view() == self@[node@],
                None => !self@.contains_key(node@),
            },
    {
        match self.index.get(node) {
            Some(found) => Some(&self.targets[*found]),
            None => None,
        }
    }
}

/// What a search finds on arriving at a node, case by case.
pub proof fn lemma_cycles_from_unfold(
    graph: Map<Seq<char>, Seq<Seq<char>>>,
    current: Seq<char>,
    visited: Set<Seq<char>>,
    path: Seq<Seq<char>>,
    start: Seq<char>,
)
    requires
        graph.dom().finite(),
    ensures
        cycles_from(graph, current, visited, path, start) == if visited.contains(current) {
            if current == start && path.len() > 1 {
                seq![path.push(start)]
            } else {
                Seq::empty()
            }
        } else if graph.dom().contains(current) {
            cycles_through(
                graph,
                graph[current],
                visited.insert(current),
                path.push(current),
                start,
            )
        } else {
            Seq::empty()
        },
{
    let one = seq![current];
    assert(one.drop_first() =~= Seq::<Seq<char>>::empty());
    assert(cycles_through(graph, one.drop_first(), visited, path, start)
        =~= Seq::<Seq<Seq<char>>>::empty());
    assert(one[0] == current);
    let found = if visited.contains(current) {
        if current == start && path.len() > 1 {
            seq![path.push(start)]
        } else {
            Seq::empty()
        }
    } else if graph.dom().contains(current) {
        cycles_through(graph, graph[current], visited.insert(current), path.push(current), start)
    } else {
        Seq::empty()
    };
    assert(cycles_through(graph, one, visited, path, start) == found + cycles_through(
        graph,
        one.drop_first(),
        visited,
        path,
        start,
    ));
    assert(found + Seq::<Seq<Seq<char>>>::empty() =~= found);
}

/// Going through a list of neighbours is arriving at the first of them and
/// then going through the rest.
pub proof fn lemma_cycles_through_step(
    graph: Map<Seq<char>, Seq<Seq<char>>>,
    neighbors: Seq<Seq<char>>,
    visited: Set<Seq<char>>,
    path: Seq<Seq<char>>,
    start: Seq<char>,
)
    requires
        graph.dom().finite(),
        neighbors.len() > 0,
    ensures
        cycles_through(graph, neighbors, visited, path, start) == cycles_from(
            graph,
            neighbors[0],
            visited,
            path,
            start,
        ) + cycles_through(graph, neighbors.drop_first(), visited, path, start),
{
    lemma_cycles_from_unfold(graph, neighbors[0], visited, path, start);
}

/// Searches depth-first from `current` for ways back to `start`, and appends
/// each closed path it finds to `cycles`. `visited` and `path` describe the
/// search so far and are left as they were.
pub fn find_cycles(
    graph: &DependencyGraph,
    current: &str,
    visited: &mut StringHashSet,
    path: &mut Vec<String>,
    cycles: &mut Vec<Vec<String>>,
    start: &str,
)
    requires
        graph.wf(),
    ensures
        final(visited)@ == old(visited)@,
        final(path).deep_view() == old(path).deep_view(),
        final(cycles).deep_view() == old(cycles).deep_view() + cycles_from(
            graph@,
            current@,
            old(visited)@,
            old(path).deep_view(),
            start@,
        ),
    decreases unvisited(graph@, old(visited)@),
{
    let ghost g = graph@;
    let ghost visited0 = visited@;
    let ghost path0 = path.deep_view();
    let ghost cycles0 = cycles.deep_view();
    proof {
        graph.lemma_finite();
        lemma_cycles_from_unfold(g, current@, visited0, path0, start@);
    }
    if visited.contains(current) {
        if same_text(current, start) && path.len() > 1 {
            let mut cycle = clone_strings(path);
            let ghost before = cycle@;
            let last = start.to_owned();
            cycle.push(last);
            proof {
                lemma_deep_view_push(before, cycle, last);
                assert(cycle.deep_view() =~= path0.push(start@));
            }
            let ghost cycles_before = cycles@;
            cycles.push(cycle);
            proof {
                lemma_deep_view_push(cycles_before, *cycles, cycle);
                assert(cycles.deep_view() =~= cycles0 + seq![path0.push(start@)]);
            }
        } else {
            assert(cycles.deep_view() =~= cycles0 + Seq::<Seq<Seq<char>>>::empty());
        }
        return ;
    }
    visited.insert(current.to_owned());
    let ghost path_before = path@;
    let entered = current.to_owned();
    path.push(entered);
    let ghost visited1 = visited0.insert(current@);
    let ghost path1 = path0.push(current@);
    proof {
        lemma_deep_view_push(path_before, *path, entered);
        assert(path.deep_view() =~= path1);
    }
    match graph.neighbors(current) {
        Some(list) => {
            let ghost nbrs = list.deep_view();
            proof {
                lemma_entering_decreases(g, visited0, current@);
                assert(nbrs.skip(0) =~= nbrs);
            }
            let mut i: usize = 0;
            while i < list.len()
                invariant
                    i <= list.len(),
                    graph.wf(),
                    g == graph@,
                    g.dom().finite(),
                    nbrs == list.deep_view(),
                    visited0 == old(visited)@,
                    visited@ == visited1,
                    path.deep_view() == path1,
                    unvisited(g, visited1) < unvisited(g, visited0),
                    cycles.deep_view() + cycles_through(g, nbrs.skip(i as int), visited1, path1, start@)
                        == cycles0 + cycles_through(g, nbrs, visited1, path1, start@),
                decreases list.len() - i,
            {
                let ghost cycles_now = cycles.deep_view();
                let ghost rest = nbrs.skip(i as int);
                proof {
                    lemma_cycles_through_step(g, rest, visited1, path1, start@);
                    assert(rest[0] == list[i as int]@);
                    assert(rest.drop_first() =~= nbrs.skip(i + 1));
                }
                find_cycles(graph, list[i].as_str(), visited, path, cycles, start);
                proof {
                    let found = cycles_from(g, rest[0], visited1, path1, start@);
                    let tail = cycles_through(g, nbrs.skip(i + 1), visited1, path1, start@);
                    assert((cycles_now + found) + tail =~= cycles_now + (found + tail));
                }
                i += 1;
            }
            proof {
                assert(nbrs.skip(i as int) =~= Seq::<Seq<char>>::empty());
                assert(cycles_through(g, nbrs.skip(i as int), visited1, path1, start@)
                    =~= Seq::<Seq<Seq<char>>>::empty());
                assert(cycles.deep_view() + Seq::<Seq<Seq<char>>>::empty()
                    =~= cycles.deep_view());
            }
        },
        None => {
            assert(cycles.deep_view() =~= cycles0 + Seq::<Seq<Seq<char>>>::empty());
        },
    }
    let ghost path_entered = *path;
    path.pop();
    visited.remove(current);
    proof {
        lemma_deep_view_drop_last(path_entered, *path);
        assert(visited@ =~= visited0);
        assert(path.deep_view() =~= path0);
    }
}

/// The targets of the `depends_on` relationships that leave `source`, in
/// the order of the relationships.
pub open spec fn dependency_targets(
    relationships: Seq<RelationshipView>,
    source: Seq<char>,
) -> Seq<Seq<char>>
    decreases relationships.len(),
{
    if relationships.len() == 0 {
        Seq::empty()
    } else {
        let rest = dependency_targets(relationships.drop_last(), source);
        let last = relationships.last();
        if last.relationship_type == RelationshipTypeView::DependsOn && last.source == source {
            rest.push(last.target)
        } else {
            rest
        }
    }
}

/// The dependency graph of an environment: its nodes are the service ids,
/// and each node has the targets of the `depends_on` relationships that
/// leave it. Relationships of any other type play no part, nor do those
/// whose source is not a service.
pub open spec fn dependency_graph(
    service_ids: Seq<Seq<char>>,
    relationships: Seq<RelationshipView>,
) -> Map<Seq<char>, Seq<Seq<char>>> {
    Map::new(
        |k: Seq<char>| service_ids.contains(k),
        |k: Seq<char>| dependency_targets(relationships, k),
    )
}

/// The closed paths that searches from each of `starts` in turn find, each
/// search looking for ways back to its own start.
pub open spec fn discovered_cycles(
    graph: Map<Seq<char>, Seq<Seq<char>>>,
    starts: Seq<Seq<char>>,
) -> Seq<Seq<Seq<char>>>
    decreases starts.len(),
{
    if starts.len() == 0 {
        Seq::empty()
    } else {
        discovered_cycles(graph, starts.drop_last()) + cycles_from(
            graph,
            starts.last(),
            Set::empty(),
            Seq::empty(),
            starts.last(),
        )
    }
}

/// One of `kept` has the canonical form of `cycle`.
pub open spec fn has_same_cycle(kept: Seq<Seq<Seq<char>>>, cycle: Seq<Seq<char>>) -> bool {
    exists|k: int|
        0 <= k < kept.len() && canonical_cycle(#[trigger] kept[k]) == canonical_cycle(cycle)
}

/// The closed paths of `cycles` without those whose canonical form an
/// earlier one has already: of each cycle the first path found stays.
pub open spec fn unique_cycles(cycles: Seq<Seq<Seq<char>>>) -> Seq<Seq<Seq<char>>>
    decreases cycles.len(),
{
    if cycles.len() == 0 {
        Seq::empty()
    } else {
        let kept = unique_cycles(cycles.drop_last());
        if has_same_cycle(kept, cycles.last()) {
            kept
        } else {
            kept.push(cycles.last())
        }
    }
}

/// Deduplication keeps one path of every cycle: no two of the paths kept
/// have the same canonical form, every path given has its canonical form
/// among those kept, and every path kept is one of those given.
pub proof fn lemma_unique_cycles(cycles: Seq<Seq<Seq<char>>>)
    ensures
        forall|i: int, j: int|
            0 <= i < j < unique_cycles(cycles).len() ==> canonical_cycle(
                #[trigger] unique_cycles(cycles)[i],
            ) != canonical_cycle(#[trigger] unique_cycles(cycles)[j]),
        forall|k: int|
            0 <= k < cycles.len() ==> has_same_cycle(unique_cycles(cycles), #[trigger] cycles[k]),
        forall|i: int|
            0 <= i < unique_cycles(cycles).len() ==> cycles.contains(
                #[trigger] unique_cycles(cycles)[i],
            ),
    decreases cycles.len(),
{
    if cycles.len() > 0 {
        let front = cycles.drop_last();
        let last = cycles.last();
        let kept = unique_cycles(front);
        let all = unique_cycles(cycles);
        lemma_unique_cycles(front);
        assert forall|k: int| 0 <= k < cycles.len() implies has_same_cycle(
            all,
            #[trigger] cycles[k],
        ) by {
            if k < front.len() {
                assert(cycles[k] == front[k]);
                let w = choose|w: int|
                    0 <= w < kept.len() && canonical_cycle(#[trigger] kept[w]) == canonical_cycle(
                        front[k],
                    );
                assert(all[w] == kept[w]);
            } else if has_same_cycle(kept, last) {
            } else {
                assert(all[kept.len() as int] == last);
            }
        }
        assert forall|i: int| 0 <= i < all.len() implies cycles.contains(#[trigger] all[i]) by {
            if i < kept.len() {
                assert(all[i] == kept[i]);
                let w = choose|w: int| 0 <= w < front.len() && front[w] == kept[i];
                assert(cycles[w] == all[i]);
            } else {
                assert(cycles[cycles.len() - 1] == all[i]);
            }
        }
        assert forall|i: int, j: int| 0 <= i < j < all.len() implies canonical_cycle(
            #[trigger] all[i],
        ) != canonical_cycle(#[trigger] all[j]) by {
            assert(all[i] == kept[i]);
            if j < kept.len() {
                assert(all[j] == kept[j]);
            }
        }
    }
}

/// The circular dependencies of an environment: what searches from every
/// service id find, in the order of `service_ids`, each cycle once.
pub open spec fn circular_dependencies(
    service_ids: Seq<Seq<char>>,
    relationships: Seq<RelationshipView>,
) -> Seq<Seq<Seq<char>>> {
    unique_cycles(
        discovered_cycles(dependency_graph(service_ids, relationships), service_ids),
    )
}

/// Builds the dependency graph of an environment.
pub fn build_dependency_graph(relationships: &[Relationship], service_ids: &[String]) -> (res:
    DependencyGraph)
    ensures
        res.wf(),
        res@ == dependency_graph(service_ids.deep_view(), relationships.deep_view()),
{
    let ghost ids = service_ids.deep_view();
    let ghost rels = relationships.deep_view();
    let mut graph = DependencyGraph::new();
    let mut i: usize = 0;
    assert(graph@ =~= dependency_graph(ids.take(0), Seq::empty()));
    while i < service_ids.len()
        invariant
            i <= service_ids.len(),
            ids == service_ids.deep_view(),
            graph.wf(),
            graph@ == dependency_graph(ids.take(i as int), Seq::empty()),
        decreases service_ids.len() - i,
    {
        graph.add_node(service_ids[i].as_str());
        proof {
            let next = ids.take(i + 1);
            assert(next.drop_last() =~= ids.take(i as int));
            assert(next.last() == service_ids[i as int]@);
            assert forall|k: Seq<char>| next.contains(k) <==> (ids.take(i as int).contains(k) || k
                == next.last()) by {
                if next.contains(k) {
                    let p = choose|p: int| 0 <= p < next.len() && next[p] == k;
                    if p < i {
                        assert(ids.take(i as int)[p] == k);
                    }
                }
                if ids.take(i as int).contains(k) {
                    let p = choose|p: int| 0 <= p < i && ids.take(i as int)[p] == k;
                    assert(next[p] == k);
                }
                if k == next.last() {
                    assert(next[i as int] == k);
                }
            }
            assert(graph@ =~= dependency_graph(next, Seq::empty()));
        }
        i += 1;
    }
    assert(ids.take(i as int) =~= ids);
    assert(rels.take(0) =~= Seq::<RelationshipView>::empty());
    let mut j: usize = 0;
    while j < relationships.len()
        invariant
            j <= relationships.len(),
            rels == relationships.deep_view(),
            graph.wf(),
            graph@ == dependency_graph(ids, rels.take(j as int)),
        decreases relationships.len() - j,
    {
        let rel = &relationships[j];
        proof {
            assert(rels.take(j + 1).drop_last() =~= rels.take(j as int));
            assert(rels.take(j + 1).last() == rel.deep_view());
        }
        match rel.relationship_type {
            RelationshipType::DependsOn => {
                graph.add_dependency(rel.source.as_str(), rel.target.as_str());
            },
            _ => {},
        }
        assert(graph@ =~= dependency_graph(ids, rels.take(j + 1)));
        j += 1;
    }
    assert(rels.take(j as int) =~= rels);
    graph
}

/// Finds the circular dependencies of an environment: a depth-first search
/// from every service id over the `depends_on` relationships, after which
/// each cycle is kept once, as the path by which it was first found.
pub fn detect_circular_dependencies(
    relationships: &[Relationship],
    service_ids: &[String],
) -> (res: Vec<Vec<String>>)
    ensures
        res.deep_view() == circular_dependencies(
            service_ids.deep_view(),
            relationships.deep_view(),
        ),
        forall|i: int, j: int|
            0 <= i < j < res.len() ==> canonical_cycle(#[trigger] res.deep_view()[i])
                != canonical_cycle(#[trigger] res.deep_view()[j]),
{
    let ghost ids = service_ids.deep_view();
    let graph = build_dependency_graph(relationships, service_ids);
    let ghost g = graph@;
    let mut cycles: Vec<Vec<String>> = Vec::new();
    let mut i: usize = 0;
    assert(cycles.deep_view() =~= discovered_cycles(g, ids.take(0)));
    while i < service_ids.len()
        invariant
            i <= service_ids.len(),
            ids == service_ids.deep_view(),
            graph.wf(),
            g == graph@,
            cycles.deep_view() == discovered_cycles(g, ids.take(i as int)),
        decreases service_ids.len() - i,
    {
        let start = service_ids[i].as_str();
        let mut visited = StringHashSet::new();
        let mut path: Vec<String> = Vec::new();
        proof {
            assert(ids.take(i + 1).drop_last() =~= ids.take(i as int));
            assert(ids.take(i + 1).last() == start@);
            assert(path.deep_view() =~= Seq::<Seq<char>>::empty());
        }
        find_cycles(&graph, start, &mut visited, &mut path, &mut cycles, start);
        i += 1;
    }
    assert(ids.take(i as int) =~= ids);
    let ghost found = cycles.deep_view();
    let mut unique: Vec<Vec<String>> = Vec::new();
    let mut forms: Vec<Vec<String>> = Vec::new();
    let mut n: usize = 0;
    assert(unique.deep_view() =~= unique_cycles(found.take(0)));
    while n < cycles.len()
        invariant
            n <= cycles.len(),
            found == cycles.deep_view(),
            unique.deep_view() == unique_cycles(found.take(n as int)),
            forms.len() == unique.len(),
            forall|k: int|
                0 <= k < forms.len() ==> #[trigger] forms[k].deep_view() == canonical_cycle(
                    unique[k].deep_view(),
                ),
        decreases cycles.len() - n,
    {
        let cycle = &cycles[n];
        let normalized = normalize_cycle(cycle.as_slice());
        let ghost kept = unique.deep_view();
        proof {
            assert(found.take(n + 1).drop_last() =~= found.take(n as int));
            assert(found.take(n + 1).last() == cycle.deep_view());
        }
        let mut seen = false;
        let mut k: usize = 0;
        while k < forms.len() && !seen
            invariant
                k <= forms.len(),
                forms.len() == unique.len(),
                kept == unique.deep_view(),
                normalized.deep_view() == canonical_cycle(cycle.deep_view()),
                forall|t: int|
                    0 <= t < forms.len() ==> #[trigger] forms[t].deep_view() == canonical_cycle(
                        unique[t].deep_view(),
                    ),
                seen ==> has_same_cycle(kept, cycle.deep_view()),
                !seen ==> forall|t: int|
                    0 <= t < k ==> canonical_cycle(#[trigger] kept[t]) != canonical_cycle(
                        cycle.deep_view(),
                    ),
            decreases forms.len() - k + (if seen { 0int } else { 1int }),
        {
            if same_strings(&forms[k], &normalized) {
                assert(canonical_cycle(kept[k as int]) == canonical_cycle(cycle.deep_view()));
                seen = true;
            } else {
                assert(kept[k as int] == unique[k as int].deep_view());
                k += 1;
            }
        }
        if !seen {
            let copy = clone_strings(cycle);
            let ghost unique_before = unique@;
            let ghost forms_before = forms@;
            unique.push(copy);
            forms.push(normalized);
            proof {
                lemma_deep_view_push(unique_before, unique, copy);
                assert(unique.deep_view() =~= kept.push(cycle.deep_view()));
            }
        }
        n += 1;
    }
    proof {
        assert(found.take(n as int) =~= found);
        lemma_unique_cycles(found);
    }
    unique
}

} // verus!
