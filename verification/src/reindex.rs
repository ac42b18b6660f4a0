use vstd::prelude::*;

use std::collections::{HashMap, HashSet};

use crate::creation::PlannedEdge;
use crate::plan::PlanNodeKind;

verus! {

broadcast use vstd::std_specs::hash::group_hash_axioms;

/// A node of the tournament plan.
pub struct PlanNode {
    pub uuid: u128,
    pub kind: PlanNodeKind,
}

/// A round with its position in the tournament.
#[derive(Clone, Copy, Debug, PartialEq, Eq, Structural)]
pub struct RoundIndex {
    pub uuid: u128,
    pub index: u64,
}

/// The index of the first node with the id, -1 where there is none.
pub open spec fn first_node(nodes: Seq<PlanNode>, u: u128) -> int
    decreases nodes.len(),
{
    if nodes.len() == 0 {
        -1
    } else {
        let rest = first_node(nodes.drop_last(), u);
        if rest >= 0 {
            rest
        } else if nodes.last().uuid == u {
            nodes.len() - 1
        } else {
            -1
        }
    }
}

/// Whether some edge leads to the node.
pub open spec fn has_parent(edges: Seq<PlannedEdge>, u: u128) -> bool {
    exists|i: int| 0 <= i < edges.len() && #[trigger] edges[i].target_id == u
}

/// The targets of the edges from the node, in the order of the edges.
pub open spec fn children(edges: Seq<PlannedEdge>, u: u128) -> Seq<u128>
    decreases edges.len(),
{
    if edges.len() == 0 {
        Seq::empty()
    } else {
        let rest = children(edges.drop_last(), u);
        if edges.last().source_id == u {
            rest.push(edges.last().target_id)
        } else {
            rest
        }
    }
}

/// The nodes without a parent, in the order of the nodes.
pub open spec fn roots(nodes: Seq<PlanNode>, edges: Seq<PlannedEdge>) -> Seq<u128>
    decreases nodes.len(),
{
    if nodes.len() == 0 {
        Seq::empty()
    } else {
        let rest = roots(nodes.drop_last(), edges);
        if has_parent(edges, nodes.last().uuid) {
            rest
        } else {
            rest.push(nodes.last().uuid)
        }
    }
}

/// The last listed round with the id.
pub open spec fn round_of(rounds: Seq<RoundIndex>, u: u128) -> RoundIndex
    decreases rounds.len(),
{
    if rounds.len() == 0 {
        RoundIndex { uuid: u, index: 0 }
    } else if rounds.last().uuid == u {
        rounds.last()
    } else {
        round_of(rounds.drop_last(), u)
    }
}

/// Whether the round is listed.
pub open spec fn round_listed(rounds: Seq<RoundIndex>, u: u128) -> bool {
    exists|i: int| 0 <= i < rounds.len() && #[trigger] rounds[i].uuid == u
}

/// The number of positions a node takes: for a round group, its number of
/// rounds or of rounds made, whichever is larger.
pub open spec fn labels_of(k: PlanNodeKind) -> nat {
    match k {
        PlanNodeKind::Round { num_rounds, rounds } => if num_rounds >= rounds@.len() {
            num_rounds as nat
        } else {
            rounds@.len()
        },
        PlanNodeKind::Break { .. } => 0,
    }
}

/// The rounds of a group starting at `start` whose index changes: the
/// `i`-th round gets `start + i` unless its index is `start` already.
pub open spec fn relabel(ids: Seq<u128>, rounds: Seq<RoundIndex>, start: int) -> Seq<RoundIndex>
    decreases ids.len(),
{
    if ids.len() == 0 {
        Seq::empty()
    } else {
        let rest = relabel(ids.drop_last(), rounds, start);
        let r = round_of(rounds, ids.last());
        if r.index != start {
            rest.push(RoundIndex { uuid: r.uuid, index: (start + ids.len() - 1) as u64 })
        } else {
            rest
        }
    }
}

/// The state of the walk over the plan: the nodes still to visit (the last
/// first), the nodes visited, the next free position, the changed rounds.
pub struct WalkState {
    pub stack: Seq<u128>,
    pub visited: Set<u128>,
    pub next: int,
    pub changed: Seq<RoundIndex>,
}

/// One step of the walk: take the last node to visit; unless it was visited,
/// number its rounds from the next free position and add its children.
pub open spec fn walk_step(nodes: Seq<PlanNode>, edges: Seq<PlannedEdge>, rounds: Seq<RoundIndex>, s: WalkState) -> WalkState {
    let x = s.stack.last();
    let rest = s.stack.drop_last();
    if s.visited.contains(x) {
        WalkState { stack: rest, ..s }
    } else {
        let k = nodes[first_node(nodes, x)].kind;
        let changed = match k {
            PlanNodeKind::Round { rounds: ids, .. } => s.changed + relabel(ids@, rounds, s.next),
            PlanNodeKind::Break { .. } => s.changed,
        };
        WalkState {
            stack: rest + children(edges, x),
            visited: s.visited.insert(x),
            next: s.next + labels_of(k),
            changed,
        }
    }
}

/// The walk after `n` steps, or once nothing is left to visit.
pub open spec fn walk_run(
    nodes: Seq<PlanNode>,
    edges: Seq<PlannedEdge>,
    rounds: Seq<RoundIndex>,
    s: WalkState,
    n: nat,
) -> WalkState
    decreases n,
{
    if n == 0 || s.stack.len() == 0 {
        s
    } else {
        walk_run(nodes, edges, rounds, walk_step(nodes, edges, rounds, s), (n - 1) as nat)
    }
}

/// The walk before its first step: the roots to visit, nothing visited.
pub open spec fn walk_start(nodes: Seq<PlanNode>, edges: Seq<PlannedEdge>) -> WalkState {
    WalkState { stack: roots(nodes, edges), visited: Set::empty(), next: 0, changed: Seq::empty() }
}

/// The sum of the positions of all nodes.
pub open spec fn total_labels(nodes: Seq<PlanNode>) -> nat
    decreases nodes.len(),
{
    if nodes.len() == 0 {
        0
    } else {
        total_labels(nodes.drop_last()) + labels_of(nodes.last().kind)
    }
}

/// Whether every edge leads to a node, and every round of a round group is listed.
pub open spec fn plan_is_closed(nodes: Seq<PlanNode>, edges: Seq<PlannedEdge>, rounds: Seq<RoundIndex>) -> bool {
    &&& forall|i: int| 0 <= i < edges.len() ==> first_node(nodes, #[trigger] edges[i].target_id) >= 0
    &&& forall|i: int, j: int| 0 <= i < nodes.len() && (#[trigger] nodes[i]).kind is Round && 0 <= j < nodes[i].kind->Round_rounds@.len()
        ==> round_listed(rounds, #[trigger] nodes[i].kind->Round_rounds@[j])
}

/// The positions taken by the visited nodes among the first `n`, each node
/// counted at its first occurrence.
pub open spec fn labels_in(nodes: Seq<PlanNode>, v: Set<u128>, n: int) -> nat
    decreases n,
{
    if n <= 0 {
        0
    } else {
        labels_in(nodes, v, n - 1) + if first_node(nodes, nodes[n - 1].uuid) == n - 1 && v.contains(nodes[n - 1].uuid) {
            labels_of(nodes[n - 1].kind)
        } else {
            0
        }
    }
}

proof fn lemma_first_node(nodes: Seq<PlanNode>, u: u128)
    ensures
        first_node(nodes, u) >= 0 ==> first_node(nodes, u) < nodes.len() && nodes[first_node(nodes, u)].uuid == u,
        first_node(nodes, u) < 0 ==> forall|i: int| 0 <= i < nodes.len() ==> #[trigger] nodes[i].uuid != u,
        first_node(nodes, u) >= -1,
    decreases nodes.len(),
{
    if nodes.len() > 0 {
        lemma_first_node(nodes.drop_last(), u);
        if first_node(nodes, u) < 0 {
            assert forall|i: int| 0 <= i < nodes.len() implies #[trigger] nodes[i].uuid != u by {
                if i < nodes.len() - 1 {
                    assert(nodes.drop_last()[i] == nodes[i]);
                }
            }
        }
    }
}

proof fn lemma_labels_in_insert(nodes: Seq<PlanNode>, v: Set<u128>, x: u128, n: int)
    requires
        !v.contains(x),
        0 <= n <= nodes.len(),
    ensures
        labels_in(nodes, v.insert(x), n) == labels_in(nodes, v, n) + if 0 <= first_node(nodes, x) < n {
            labels_of(nodes[first_node(nodes, x)].kind)
        } else {
            0
        },
    decreases n,
{
    lemma_first_node(nodes, x);
    if n > 0 {
        lemma_labels_in_insert(nodes, v, x, n - 1);
    }
}

proof fn lemma_labels_in_bound(nodes: Seq<PlanNode>, v: Set<u128>, n: int)
    requires
        0 <= n <= nodes.len(),
    ensures
        labels_in(nodes, v, n) <= total_labels(nodes.take(n)),
    decreases n,
{
    if n > 0 {
        lemma_labels_in_bound(nodes, v, n - 1);
        assert(nodes.take(n).drop_last() =~= nodes.take(n - 1));
    }
}

proof fn lemma_walk_run_step(
    nodes: Seq<PlanNode>,
    edges: Seq<PlannedEdge>,
    rounds: Seq<RoundIndex>,
    s: WalkState,
    n: nat,
)
    requires
        walk_run(nodes, edges, rounds, s, n).stack.len() > 0,
    ensures
        walk_run(nodes, edges, rounds, s, n + 1) == walk_step(nodes, edges, rounds, walk_run(nodes, edges, rounds, s, n)),
    decreases n,
{
    assert(s.stack.len() > 0);
    assert(walk_run(nodes, edges, rounds, s, n + 1) == walk_run(
        nodes,
        edges,
        rounds,
        walk_step(nodes, edges, rounds, s),
        n,
    ));
    if n > 0 {
        assert(walk_run(nodes, edges, rounds, s, n) == walk_run(
            nodes,
            edges,
            rounds,
            walk_step(nodes, edges, rounds, s),
            (n - 1) as nat,
        ));
        lemma_walk_run_step(nodes, edges, rounds, walk_step(nodes, edges, rounds, s), (n - 1) as nat);
    }
}

/// The index of the first node with the id.
fn find_first_node(nodes: &Vec<PlanNode>, u: u128) -> (r: Option<usize>)
    ensures
        r == (if first_node(nodes@, u) >= 0 { Some(first_node(nodes@, u) as usize) } else { None }),
{
    proof {
        lemma_first_node(nodes@, u);
    }
    let mut i: usize = 0;
    while i < nodes.len()
        invariant
            i <= nodes.len(),
            forall|k: int| 0 <= k < i ==> nodes@[k].uuid != u,
        decreases nodes.len() - i,
    {
        if nodes[i].uuid == u {
            proof {
                lemma_first_node_is_first(nodes@, u, i as int);
            }
            return Some(i);
        }
        i += 1;
    }
    None
}

proof fn lemma_first_node_is_first(nodes: Seq<PlanNode>, u: u128, i: int)
    requires
        0 <= i < nodes.len(),
        nodes[i].uuid == u,
        forall|k: int| 0 <= k < i ==> nodes[k].uuid != u,
    ensures
        first_node(nodes, u) == i,
    decreases nodes.len(),
{
    if i < nodes.len() - 1 {
        lemma_first_node_is_first(nodes.drop_last(), u, i);
    } else {
        lemma_first_node(nodes.drop_last(), u);
        if first_node(nodes.drop_last(), u) >= 0 {
            assert(nodes[first_node(nodes.drop_last(), u)].uuid == u);
        }
    }
}

/// The children of every node that has some.
fn collect_children(edges: &Vec<PlannedEdge>) -> (m: HashMap<u128, Vec<u128>>)
    ensures
        forall|u: u128| #[trigger] m@.contains_key(u) ==> m@[u]@ == children(edges@, u),
        forall|u: u128| !(#[trigger] m@.contains_key(u)) ==> children(edges@, u) == Seq::<u128>::empty(),
{
    let mut m: HashMap<u128, Vec<u128>> = HashMap::new();
    let mut i: usize = 0;
    while i < edges.len()
        invariant
            i <= edges.len(),
            forall|u: u128| #[trigger] m@.contains_key(u) ==> m@[u]@ == children(edges@.take(i as int), u),
            forall|u: u128| !(#[trigger] m@.contains_key(u)) ==> children(edges@.take(i as int), u) == Seq::<u128>::empty(),
        decreases edges.len() - i,
    {
        assert(edges@.take(i + 1).drop_last() =~= edges@.take(i as int));
        let e = edges[i];
        let mut list = match m.remove(&e.source_id) {
            Some(l) => l,
            None => Vec::new(),
        };
        list.push(e.target_id);
        m.insert(e.source_id, list);
        i += 1;
    }
    assert(edges@.take(edges.len() as int) =~= edges@);
    m
}

/// The targets of the edges.
fn collect_targets(edges: &Vec<PlannedEdge>) -> (s: HashSet<u128>)
    ensures
        forall|u: u128| #[trigger] s@.contains(u) <==> has_parent(edges@, u),
{
    let mut s: HashSet<u128> = HashSet::new();
    let mut i: usize = 0;
    while i < edges.len()
        invariant
            i <= edges.len(),
            forall|u: u128| #[trigger] s@.contains(u) <==> exists|k: int| 0 <= k < i && #[trigger] edges@[k].target_id == u,
        decreases edges.len() - i,
    {
        s.insert(edges[i].target_id);
        i += 1;
    }
    s
}

/// The nodes without a parent, in the order of the nodes.
fn collect_roots(nodes: &Vec<PlanNode>, targets: &HashSet<u128>, Ghost(edges): Ghost<Seq<PlannedEdge>>) -> (r: Vec<u128>)
    requires
        forall|u: u128| #[trigger] targets@.contains(u) <==> has_parent(edges, u),
    ensures
        r@ == roots(nodes@, edges),
{
    let mut r: Vec<u128> = Vec::new();
    let mut i: usize = 0;
    while i < nodes.len()
        invariant
            i <= nodes.len(),
            forall|u: u128| #[trigger] targets@.contains(u) <==> has_parent(edges, u),
            r@ == roots(nodes@.take(i as int), edges),
        decreases nodes.len() - i,
    {
        assert(nodes@.take(i + 1).drop_last() =~= nodes@.take(i as int));
        if !targets.contains(&nodes[i].uuid) {
            r.push(nodes[i].uuid);
        }
        i += 1;
    }
    assert(nodes@.take(nodes.len() as int) =~= nodes@);
    r
}

/// The last listed round of each id.
fn collect_rounds(rounds: &Vec<RoundIndex>) -> (m: HashMap<u128, RoundIndex>)
    ensures
        forall|u: u128| #[trigger] m@.contains_key(u) <==> round_listed(rounds@, u),
        forall|u: u128| #[trigger] m@.contains_key(u) ==> m@[u] == round_of(rounds@, u),
{
    let mut m: HashMap<u128, RoundIndex> = HashMap::new();
    let mut i: usize = 0;
    while i < rounds.len()
        invariant
            i <= rounds.len(),
            forall|u: u128| #[trigger] m@.contains_key(u) <==> round_listed(rounds@.take(i as int), u),
            forall|u: u128| #[trigger] m@.contains_key(u) ==> m@[u] == round_of(rounds@.take(i as int), u),
        decreases rounds.len() - i,
    {
        let r = rounds[i];
        let ghost pre = rounds@.take(i as int);
        let ghost cur = rounds@.take(i + 1);
        assert(cur.drop_last() =~= pre);
        assert(cur.last() == r);
        m.insert(r.uuid, r);
        proof {
            assert forall|u: u128| #[trigger] m@.contains_key(u) <==> round_listed(cur, u) by {
                if round_listed(cur, u) {
                    let k = choose|k: int| 0 <= k < cur.len() && #[trigger] cur[k].uuid == u;
                    if k < i {
                        assert(pre[k].uuid == u);
                    }
                }
                if round_listed(pre, u) {
                    let k = choose|k: int| 0 <= k < pre.len() && #[trigger] pre[k].uuid == u;
                    assert(cur[k].uuid == u);
                }
                if u == r.uuid {
                    assert(cur[i as int].uuid == u);
                }
            }
        }
        i += 1;
    }
    assert(rounds@.take(rounds.len() as int) =~= rounds@);
    m
}

/// The ids of the nodes.
pub open spec fn node_ids(nodes: Seq<PlanNode>) -> Set<u128> {
    Set::new(|u: u128| first_node(nodes, u) >= 0)
}

proof fn lemma_node_ids_finite(nodes: Seq<PlanNode>)
    ensures
        node_ids(nodes).finite(),
{
    let ids = nodes.map_values(|n: PlanNode| n.uuid);
    assert forall|u: u128| node_ids(nodes).contains(u) implies ids.to_set().contains(u) by {
        lemma_first_node(nodes, u);
        assert(ids[first_node(nodes, u)] == u);
    }
    vstd::seq_lib::seq_to_set_is_finite(ids);
    vstd::set_lib::lemma_len_subset(node_ids(nodes), ids.to_set());
}

proof fn lemma_roots_are_nodes(nodes: Seq<PlanNode>, edges: Seq<PlannedEdge>)
    ensures
        forall|i: int| 0 <= i < roots(nodes, edges).len() ==> first_node(nodes, #[trigger] roots(nodes, edges)[i]) >= 0,
    decreases nodes.len(),
{
    if nodes.len() > 0 {
        lemma_roots_are_nodes(nodes.drop_last(), edges);
        let r = roots(nodes, edges);
        let rest = roots(nodes.drop_last(), edges);
        assert forall|i: int| 0 <= i < r.len() implies first_node(nodes, #[trigger] r[i]) >= 0 by {
            if i < rest.len() {
                assert(r[i] == rest[i]);
                assert(first_node(nodes.drop_last(), rest[i]) >= 0);
            } else {
                lemma_first_node(nodes.drop_last(), nodes.last().uuid);
            }
        }
    }
}

proof fn lemma_children_are_targets(edges: Seq<PlannedEdge>, u: u128)
    ensures
        forall|i: int| 0 <= i < children(edges, u).len() ==> has_parent(edges, #[trigger] children(edges, u)[i]),
    decreases edges.len(),
{
    if edges.len() > 0 {
        lemma_children_are_targets(edges.drop_last(), u);
        let c = children(edges, u);
        let rest = children(edges.drop_last(), u);
        assert forall|i: int| 0 <= i < c.len() implies has_parent(edges, #[trigger] c[i]) by {
            if i < rest.len() {
                assert(c[i] == rest[i]);
                assert(has_parent(edges.drop_last(), rest[i]));
                let k = choose|k: int| 0 <= k < edges.drop_last().len() && #[trigger] edges.drop_last()[k].target_id == rest[i];
                assert(edges[k].target_id == c[i]);
            } else {
                assert(edges[edges.len() - 1].target_id == c[i]);
            }
        }
    }
}

proof fn lemma_labels_in_empty(nodes: Seq<PlanNode>, n: int)
    ensures
        labels_in(nodes, Set::empty(), n) == 0,
    decreases n,
{
    if n > 0 {
        lemma_labels_in_empty(nodes, n - 1);
    }
}

/// Numbers the rounds of the plan: walking the plan depth first from its
/// roots, each round group takes the next positions, as many as it has rounds
/// or is configured for, whichever is more; a round gets its group's start
/// plus its place in the group unless its index is the group's start
/// already. Returns the rounds whose index changes, in the order of the walk.
pub fn reindex_rounds(all_nodes: &Vec<PlanNode>, all_edges: &Vec<PlannedEdge>, all_rounds: &Vec<RoundIndex>) -> (changed: Vec<
    RoundIndex,
>)
    requires
        plan_is_closed(all_nodes@, all_edges@, all_rounds@),
        total_labels(all_nodes@) <= u64::MAX,
    ensures
        exists|n: nat| {
            let s = #[trigger] walk_run(all_nodes@, all_edges@, all_rounds@, walk_start(all_nodes@, all_edges@), n);
            &&& s.stack.len() == 0
            &&& changed@ == s.changed
        },
{
    let ghost nodes = all_nodes@;
    let ghost edges = all_edges@;
    let ghost rounds = all_rounds@;
    let round_map = collect_rounds(all_rounds);
    let targets = collect_targets(all_edges);
    let child_map = collect_children(all_edges);
    let mut stack = collect_roots(all_nodes, &targets, Ghost(edges));
    let mut visited: HashSet<u128> = HashSet::new();
    let mut curr: u64 = 0;
    let mut changed: Vec<RoundIndex> = Vec::new();
    let ghost mut steps: nat = 0;
    proof {
        lemma_roots_are_nodes(nodes, edges);
        lemma_node_ids_finite(nodes);
        assert(visited@ =~= Set::<u128>::empty());
        assert(changed@ =~= Seq::<RoundIndex>::empty());
        lemma_labels_in_empty(nodes, nodes.len() as int);
    }
    while stack.len() > 0
        invariant
            nodes == all_nodes@,
            edges == all_edges@,
            rounds == all_rounds@,
            plan_is_closed(nodes, edges, rounds),
            total_labels(nodes) <= u64::MAX,
            node_ids(nodes).finite(),
            forall|u: u128| #[trigger] round_map@.contains_key(u) <==> round_listed(rounds, u),
            forall|u: u128| #[trigger] round_map@.contains_key(u) ==> round_map@[u] == round_of(rounds, u),
            forall|u: u128| #[trigger] child_map@.contains_key(u) ==> child_map@[u]@ == children(edges, u),
            forall|u: u128| !(#[trigger] child_map@.contains_key(u)) ==> children(edges, u) == Seq::<u128>::empty(),
            forall|i: int| 0 <= i < stack.len() ==> first_node(nodes, #[trigger] stack@[i]) >= 0,
            visited@.subset_of(node_ids(nodes)),
            curr as int == labels_in(nodes, visited@, nodes.len() as int),
            walk_run(nodes, edges, rounds, walk_start(nodes, edges), steps) == (WalkState {
                stack: stack@,
                visited: visited@,
                next: curr as int,
                changed: changed@,
            }),
        decreases node_ids(nodes).difference(visited@).len(), stack.len(),
    {
        let ghost before = WalkState { stack: stack@, visited: visited@, next: curr as int, changed: changed@ };
        proof {
            lemma_walk_run_step(nodes, edges, rounds, walk_start(nodes, edges), steps);
            assert(first_node(nodes, stack@[stack.len() - 1]) >= 0);
        }
        let next = stack.pop().unwrap();
        if visited.contains(&next) {
            proof {
                steps = steps + 1;
                assert(stack@ =~= before.stack.drop_last());
                assert(walk_step(nodes, edges, rounds, before) == (WalkState {
                    stack: stack@,
                    visited: visited@,
                    next: curr as int,
                    changed: changed@,
                }));
            }
        } else {
            let ghost old_visited = visited@;
            let ghost old_curr = curr;
            proof {
                assert(next == before.stack.last());
                assert(first_node(nodes, next) >= 0);
                lemma_first_node(nodes, next);
                lemma_labels_in_insert(nodes, old_visited, next, nodes.len() as int);
                lemma_labels_in_bound(nodes, old_visited.insert(next), nodes.len() as int);
                assert(nodes.take(nodes.len() as int) =~= nodes);
            }
            visited.insert(next);
            let found = find_first_node(all_nodes, next);
            assert(0 <= first_node(nodes, next) < all_nodes.len());
            let idx = match found {
                Some(i) => i,
                None => 0,
            };
            assert(idx as int == first_node(nodes, next));
            let ghost labels = labels_of(nodes[idx as int].kind);
            assert(old_curr + labels <= u64::MAX);
            match &all_nodes[idx].kind {
                PlanNodeKind::Round { num_rounds, rounds: ids } => {
                    assert(labels == (if *num_rounds >= ids@.len() { *num_rounds as nat } else { ids@.len() }));
                    let start = curr;
                    let ghost base = changed@;
                    let mut local: usize = 0;
                    while local < ids.len()
                        invariant
                            local <= ids.len(),
                            start == old_curr,
                            ids.len() <= labels,
                            start + labels <= u64::MAX,
                            0 <= idx < nodes.len(),
                            nodes[idx as int].kind is Round,
                            ids@ == nodes[idx as int].kind->Round_rounds@,
                            plan_is_closed(nodes, edges, rounds),
                            forall|u: u128| #[trigger] round_map@.contains_key(u) <==> round_listed(rounds, u),
                            forall|u: u128| #[trigger] round_map@.contains_key(u) ==> round_map@[u] == round_of(rounds, u),
                            changed@ == base + relabel(ids@.take(local as int), rounds, start as int),
                        decreases ids.len() - local,
                    {
                        assert(ids@.take(local + 1).drop_last() =~= ids@.take(local as int));
                        assert(round_listed(rounds, ids@[local as int]));
                        let r = *round_map.get(&ids[local]).unwrap();
                        if r.index != start {
                            changed.push(RoundIndex { uuid: r.uuid, index: start + local as u64 });
                            assert(changed@ =~= base + relabel(ids@.take(local + 1), rounds, start as int));
                        } else {
                            assert(changed@ =~= base + relabel(ids@.take(local + 1), rounds, start as int));
                        }
                        local += 1;
                    }
                    assert(ids@.take(ids.len() as int) =~= ids@);
                    curr = if *num_rounds >= ids.len() as u64 { curr + *num_rounds } else { curr + ids.len() as u64 };
                },
                PlanNodeKind::Break { .. } => {},
            }
            match child_map.get(&next) {
                Some(c) => {
                    let mut k: usize = 0;
                    let ghost mid = stack@;
                    while k < c.len()
                        invariant
                            k <= c.len(),
                            stack@ == mid + c@.take(k as int),
                        decreases c.len() - k,
                    {
                        stack.push(c[k]);
                        k += 1;
                        assert(stack@ =~= mid + c@.take(k as int));
                    }
                    assert(c@.take(c.len() as int) =~= c@);
                },
                None => {
                    assert(stack@ =~= stack@ + children(edges, next));
                },
            }
            proof {
                steps = steps + 1;
                lemma_children_are_targets(edges, next);
                assert(stack@ =~= before.stack.drop_last() + children(edges, next));
                assert(curr as int == before.next + labels_of(nodes[first_node(nodes, next)].kind));
                assert(walk_step(nodes, edges, rounds, before) == (WalkState {
                    stack: stack@,
                    visited: visited@,
                    next: curr as int,
                    changed: changed@,
                }));
                assert forall|i: int| 0 <= i < stack.len() implies first_node(nodes, #[trigger] stack@[i]) >= 0 by {
                    if i >= before.stack.len() - 1 {
                        let c = children(edges, next);
                        assert(stack@[i] == c[i - (before.stack.len() - 1)]);
                        assert(has_parent(edges, c[i - (before.stack.len() - 1)]));
                        let k = choose|k: int| 0 <= k < edges.len() && #[trigger] edges[k].target_id == c[i - (before.stack.len() - 1)];
                        assert(first_node(nodes, edges[k].target_id) >= 0);
                    } else {
                        assert(stack@[i] == before.stack[i]);
                    }
                }
                assert(node_ids(nodes).contains(next));
                assert(node_ids(nodes).difference(visited@) =~= node_ids(nodes).difference(old_visited).remove(next));
            }
        }
    }
    proof {
        assert(walk_run(nodes, edges, rounds, walk_start(nodes, edges), steps).stack.len() == 0);
    }
    changed
}

} // verus!
