use vstd::prelude::*;

use crate::creation::{
    fold_round, new_node, node_shape, one_round, pow2_u32, two_to, NodeShape, PlannedBreak, PlannedEdge, PlannedNode,
    PlannedNodeType,
};
use crate::tab_draw::{FoldDrawConfig, TeamAssignmentRule, TeamFoldMethod};

verus! {

/// The configuration of a round group.
pub enum RoundGroupConfig {
    Preliminaries { num_roundtrips: i32 },
    FoldDraw { round_configs: Vec<FoldDrawConfig> },
}

/// A new configuration for a node of the plan.
pub enum PlanNodeConfig {
    RoundGroup { config: RoundGroupConfig },
    Break { config: PlannedBreak },
}

/// A change to a tournament's plan.
pub enum EditTreeActionType {
    AddPreliminaryRounds { parent: Option<u128> },
    AddMinorBreakRounds { parent: u128, draws: Vec<FoldDrawConfig> },
    AddTimBreakRounds { parent: u128 },
    AddKOStage { parent: u128, num_stages: u64 },
    UpdateNode { node: u128, config: PlanNodeConfig },
}

/// A change to the plan of a tournament.
pub struct EditTreeAction {
    pub tournament_id: u128,
    pub action: EditTreeActionType,
}

/// Why a change to the plan is refused.
#[derive(Clone, Copy, Debug, PartialEq, Eq, Structural)]
pub enum EditTreeActionError {
    ParentRoundDoesNotExist { uuid: u128 },
    InvalidNodeType,
}

impl EditTreeActionError {
    /// The text of the error.
    pub fn message(&self) -> (text: String)
        ensures
            text@ == match self {
                EditTreeActionError::ParentRoundDoesNotExist { .. } => "the parent round does not exist"@,
                EditTreeActionError::InvalidNodeType => "Invalid node type for update"@,
            },
    {
        match self {
            EditTreeActionError::ParentRoundDoesNotExist { .. } => "the parent round does not exist".to_string(),
            EditTreeActionError::InvalidNodeType => "Invalid node type for update".to_string(),
        }
    }
}

/// The nodes and edges that a change adds, and the edges it deletes.
pub struct PlanChanges {
    pub nodes: Vec<PlannedNode>,
    pub edges: Vec<PlannedEdge>,
    pub deleted_edges: Vec<PlannedEdge>,
}

/// One end of an added edge: an added node by its index, a node that was there
/// by its id, or an id drawn for a node that is not added.
pub enum EdgeEnd {
    Added(int),
    Existing(u128),
    Unlisted,
}

/// The index of the first occurrence of the id, -1 where there is none.
pub open spec fn first_index(ids: Seq<u128>, u: u128) -> int
    decreases ids.len(),
{
    if ids.len() == 0 {
        -1
    } else {
        let rest = first_index(ids.drop_last(), u);
        if rest >= 0 {
            rest
        } else if ids.last() == u {
            ids.len() - 1
        } else {
            -1
        }
    }
}

/// The ids of the nodes.
pub open spec fn node_uuids(nodes: Seq<PlannedNode>) -> Seq<u128> {
    nodes.map_values(|n: PlannedNode| n.uuid)
}

/// The sources of the edges.
pub open spec fn edge_sources(edges: Seq<PlannedEdge>) -> Seq<u128> {
    edges.map_values(|e: PlannedEdge| e.source_id)
}

/// Whether the two nodes agree in id, tournament and what they do.
pub open spec fn same_node(a: PlannedNode, b: PlannedNode) -> bool {
    &&& a.uuid == b.uuid
    &&& a.tournament_id == b.tournament_id
    &&& node_shape(a.node_type) == node_shape(b.node_type)
}

/// Whether the id at the end of an edge is the one the end names.
pub open spec fn end_fits(nodes: Seq<PlannedNode>, end: EdgeEnd, id: u128) -> bool {
    match end {
        EdgeEnd::Added(i) => 0 <= i < nodes.len() && nodes[i].uuid == id,
        EdgeEnd::Existing(u) => id == u,
        EdgeEnd::Unlisted => true,
    }
}

/// Whether the added nodes and edges have the given shapes and ends, every node
/// in the tournament.
pub open spec fn is_plan_addition(
    nodes: Seq<PlannedNode>,
    edges: Seq<PlannedEdge>,
    tournament_id: u128,
    shapes: Seq<NodeShape>,
    links: Seq<(EdgeEnd, EdgeEnd)>,
) -> bool {
    &&& nodes.len() == shapes.len()
    &&& edges.len() == links.len()
    &&& forall|i: int| 0 <= i < nodes.len() ==> (#[trigger] nodes[i]).tournament_id == tournament_id
        && node_shape(nodes[i].node_type) == shapes[i]
    &&& forall|j: int| 0 <= j < edges.len() ==> end_fits(nodes, (#[trigger] links[j]).0, edges[j].source_id) && end_fits(
        nodes,
        links[j].1,
        edges[j].target_id,
    )
}

/// The edge that a change deletes, by index, -1 where none: adding
/// preliminaries below a parent takes the first edge from the parent.
pub open spec fn removed_edge(edges: Seq<PlannedEdge>, action: EditTreeActionType) -> int {
    match action {
        EditTreeActionType::AddPreliminaryRounds { parent: Some(p) } => first_index(edge_sources(edges), p),
        _ => -1,
    }
}

/// The shapes of the nodes that a change adds.
pub open spec fn added_shapes(action: EditTreeActionType, ko_fold: FoldDrawConfig) -> Seq<NodeShape> {
    match action {
        EditTreeActionType::AddPreliminaryRounds { .. } => seq![NodeShape::Preliminaries(1)],
        EditTreeActionType::AddMinorBreakRounds { .. } => seq![NodeShape::Break(PlannedBreak::TwoThirdsBreak)],
        EditTreeActionType::AddTimBreakRounds { .. } => seq![
            NodeShape::Break(PlannedBreak::TwoThirdsBreak),
            fold_round(TeamFoldMethod::Random, TeamAssignmentRule::Random),
            NodeShape::Break(PlannedBreak::TimBreak),
            fold_round(TeamFoldMethod::PowerPaired, TeamAssignmentRule::Random),
        ],
        EditTreeActionType::AddKOStage { num_stages, .. } => ko_shapes(num_stages as nat, ko_fold),
        EditTreeActionType::UpdateNode { .. } => Seq::empty(),
    }
}

/// A knockout stage: per stage a break and a round of the knockout fold, the
/// first break by tab with a debate per two teams of the first stage.
pub open spec fn ko_shapes(num_stages: nat, ko_fold: FoldDrawConfig) -> Seq<NodeShape> {
    Seq::new(
        2 * num_stages,
        |i: int|
            if i % 2 == 1 {
                NodeShape::FoldDraw(seq![ko_fold])
            } else if i == 0 {
                NodeShape::Break(PlannedBreak::TabBreak { num_debates: two_to((num_stages - 1) as nat) as u32 })
            } else {
                NodeShape::Break(PlannedBreak::KnockoutBreak)
            },
    )
}

/// The edges of a knockout stage: each break follows the parent or the round
/// before it, each round its break.
pub open spec fn ko_links(num_stages: nat, parent: u128) -> Seq<(EdgeEnd, EdgeEnd)> {
    Seq::new(
        2 * num_stages,
        |j: int|
            if j % 2 == 1 {
                (EdgeEnd::Added(j - 1), EdgeEnd::Added(j))
            } else if j == 0 {
                (EdgeEnd::Existing(parent), EdgeEnd::Added(0))
            } else {
                (EdgeEnd::Added(j - 1), EdgeEnd::Added(j))
            },
    )
}

/// The ends of the edges that a change adds.
pub open spec fn added_links(edges: Seq<PlannedEdge>, action: EditTreeActionType) -> Seq<(EdgeEnd, EdgeEnd)> {
    match action {
        EditTreeActionType::AddPreliminaryRounds { parent } => match parent {
            None => Seq::empty(),
            Some(p) => {
                let k = first_index(edge_sources(edges), p);
                if k >= 0 {
                    seq![(EdgeEnd::Added(0), EdgeEnd::Existing(edges[k].target_id)), (EdgeEnd::Existing(p), EdgeEnd::Added(0))]
                } else {
                    seq![(EdgeEnd::Existing(p), EdgeEnd::Added(0))]
                }
            },
        },
        EditTreeActionType::AddMinorBreakRounds { parent, .. } => seq![
            (EdgeEnd::Existing(parent), EdgeEnd::Added(0)),
            (EdgeEnd::Added(0), EdgeEnd::Unlisted),
        ],
        EditTreeActionType::AddTimBreakRounds { parent } => seq![
            (EdgeEnd::Existing(parent), EdgeEnd::Added(0)),
            (EdgeEnd::Added(0), EdgeEnd::Added(1)),
            (EdgeEnd::Added(1), EdgeEnd::Added(2)),
            (EdgeEnd::Added(2), EdgeEnd::Added(3)),
        ],
        EditTreeActionType::AddKOStage { parent, num_stages } => ko_links(num_stages as nat, parent),
        EditTreeActionType::UpdateNode { .. } => Seq::empty(),
    }
}

/// What a node does after the update, none where the configuration does not
/// fit the node: a round group takes a round group's, a break a break's.
pub open spec fn updated_shape(t: PlannedNodeType, c: PlanNodeConfig) -> Option<NodeShape> {
    match c {
        PlanNodeConfig::Break { config } => if t is Break {
            Some(NodeShape::Break(config))
        } else {
            None
        },
        PlanNodeConfig::RoundGroup { config } => if t is Break {
            None
        } else {
            Some(
                match config {
                    RoundGroupConfig::Preliminaries { num_roundtrips } => NodeShape::Preliminaries(num_roundtrips as int),
                    RoundGroupConfig::FoldDraw { round_configs } => NodeShape::FoldDraw(round_configs@),
                },
            )
        },
    }
}

proof fn lemma_first_index(ids: Seq<u128>, u: u128)
    ensures
        first_index(ids, u) >= 0 ==> first_index(ids, u) < ids.len() && ids[first_index(ids, u)] == u,
        first_index(ids, u) < 0 ==> forall|i: int| 0 <= i < ids.len() ==> ids[i] != u,
        first_index(ids, u) >= -1,
    decreases ids.len(),
{
    if ids.len() > 0 {
        lemma_first_index(ids.drop_last(), u);
        if first_index(ids, u) < 0 {
            assert forall|i: int| 0 <= i < ids.len() implies ids[i] != u by {
                if i < ids.len() - 1 {
                    assert(ids.drop_last()[i] == ids[i]);
                }
            }
        }
    }
}

proof fn lemma_first_index_is_first(ids: Seq<u128>, u: u128, i: int)
    requires
        0 <= i < ids.len(),
        ids[i] == u,
        forall|k: int| 0 <= k < i ==> ids[k] != u,
    ensures
        first_index(ids, u) == i,
    decreases ids.len(),
{
    if i < ids.len() - 1 {
        lemma_first_index_is_first(ids.drop_last(), u, i);
    } else {
        lemma_first_index(ids.drop_last(), u);
        if first_index(ids.drop_last(), u) >= 0 {
            assert(ids[first_index(ids.drop_last(), u)] == u);
        }
    }
}

/// The index of the first node with the id.
fn find_node(nodes: &Vec<PlannedNode>, u: u128) -> (r: Option<usize>)
    ensures
        r is Some <==> first_index(node_uuids(nodes@), u) >= 0,
        r matches Some(k) ==> k as int == first_index(node_uuids(nodes@), u) && k < nodes.len() && nodes@[k as int].uuid == u,
{
    let ghost ids = node_uuids(nodes@);
    proof {
        lemma_first_index(ids, u);
    }
    let mut i: usize = 0;
    while i < nodes.len()
        invariant
            i <= nodes.len(),
            ids == node_uuids(nodes@),
            forall|k: int| 0 <= k < i ==> ids[k] != u,
        decreases nodes.len() - i,
    {
        if nodes[i].uuid == u {
            proof {
                lemma_first_index_is_first(ids, u, i as int);
            }
            return Some(i);
        }
        i += 1;
    }
    None
}

/// The index of the first edge from the node.
fn find_edge_from(edges: &Vec<PlannedEdge>, u: u128) -> (r: Option<usize>)
    ensures
        r is Some <==> first_index(edge_sources(edges@), u) >= 0,
        r matches Some(k) ==> k as int == first_index(edge_sources(edges@), u) && k < edges.len() && edges@[k as int].source_id == u,
{
    let ghost ids = edge_sources(edges@);
    proof {
        lemma_first_index(ids, u);
    }
    let mut i: usize = 0;
    while i < edges.len()
        invariant
            i <= edges.len(),
            ids == edge_sources(edges@),
            forall|k: int| 0 <= k < i ==> ids[k] != u,
        decreases edges.len() - i,
    {
        if edges[i].source_id == u {
            proof {
                lemma_first_index_is_first(ids, u, i as int);
            }
            return Some(i);
        }
        i += 1;
    }
    None
}

fn copy_configs(v: &Vec<FoldDrawConfig>) -> (r: Vec<FoldDrawConfig>)
    ensures
        r@ == v@,
{
    let mut r: Vec<FoldDrawConfig> = Vec::new();
    let mut i: usize = 0;
    while i < v.len()
        invariant
            i <= v.len(),
            r@ == v@.take(i as int),
        decreases v.len() - i,
    {
        r.push(v[i]);
        i += 1;
        assert(r@ =~= v@.take(i as int));
    }
    assert(v@.take(v.len() as int) =~= v@);
    r
}

fn copy_node(n: &PlannedNode) -> (r: PlannedNode)
    ensures
        same_node(r, *n),
{
    let node_type = match &n.node_type {
        PlannedNodeType::Preliminaries { num_roundtrips } => PlannedNodeType::Preliminaries { num_roundtrips: *num_roundtrips },
        PlannedNodeType::FoldDraw { round_configs } => PlannedNodeType::FoldDraw { round_configs: copy_configs(round_configs) },
        PlannedNodeType::Break { config } => PlannedNodeType::Break { config: *config },
    };
    PlannedNode { uuid: n.uuid, tournament_id: n.tournament_id, node_type }
}

/// Appends copies of the nodes.
fn append_nodes(all_nodes: &mut Vec<PlannedNode>, added: &Vec<PlannedNode>)
    ensures
        final(all_nodes).len() == old(all_nodes).len() + added.len(),
        forall|i: int| 0 <= i < old(all_nodes).len() ==> final(all_nodes)@[i] == old(all_nodes)@[i],
        forall|i: int| 0 <= i < added.len() ==> same_node(#[trigger] final(all_nodes)@[old(all_nodes).len() + i], added@[i]),
{
    let ghost start = all_nodes@;
    let mut i: usize = 0;
    while i < added.len()
        invariant
            i <= added.len(),
            all_nodes.len() == start.len() + i,
            forall|k: int| 0 <= k < start.len() ==> all_nodes@[k] == start[k],
            forall|k: int| 0 <= k < i ==> same_node(#[trigger] all_nodes@[start.len() + k], added@[k]),
        decreases added.len() - i,
    {
        let n = copy_node(&added[i]);
        all_nodes.push(n);
        i += 1;
    }
}

/// Appends the edges.
fn append_edges(all_edges: &mut Vec<PlannedEdge>, added: &Vec<PlannedEdge>)
    ensures
        final(all_edges)@ == old(all_edges)@ + added@,
{
    let ghost start = all_edges@;
    let mut i: usize = 0;
    while i < added.len()
        invariant
            i <= added.len(),
            all_edges@ == start + added@.take(i as int),
        decreases added.len() - i,
    {
        all_edges.push(added[i]);
        i += 1;
        assert(all_edges@ =~= start + added@.take(i as int));
    }
    assert(added@.take(added.len() as int) =~= added@);
}

/// Whether the nodes and edges after a change are those before it, less the
/// deleted edge, with the added nodes and edges at their end.
pub open spec fn applied_addition(
    old_nodes: Seq<PlannedNode>,
    old_edges: Seq<PlannedEdge>,
    new_nodes: Seq<PlannedNode>,
    new_edges: Seq<PlannedEdge>,
    ch: PlanChanges,
    tournament_id: u128,
    action: EditTreeActionType,
    ko_fold: FoldDrawConfig,
) -> bool {
    let k = removed_edge(old_edges, action);
    &&& is_plan_addition(ch.nodes@, ch.edges@, tournament_id, added_shapes(action, ko_fold), added_links(old_edges, action))
    &&& ch.deleted_edges@ == (if k >= 0 { seq![old_edges[k]] } else { Seq::empty() })
    &&& new_edges == (if k >= 0 { old_edges.remove(k) } else { old_edges }) + ch.edges@
    &&& new_nodes.len() == old_nodes.len() + ch.nodes@.len()
    &&& forall|i: int| 0 <= i < old_nodes.len() ==> new_nodes[i] == old_nodes[i]
    &&& forall|i: int| 0 <= i < ch.nodes@.len() ==> same_node(#[trigger] new_nodes[old_nodes.len() + i], ch.nodes@[i])
}

/// A round group of one round of the fold.
fn ko_round(ko_fold: FoldDrawConfig) -> (t: PlannedNodeType)
    ensures
        node_shape(t) == NodeShape::FoldDraw(seq![ko_fold]),
{
    let mut v: Vec<FoldDrawConfig> = Vec::new();
    v.push(ko_fold);
    assert(v@ =~= seq![ko_fold]);
    PlannedNodeType::FoldDraw { round_configs: v }
}

impl EditTreeAction {
    /// Applies the change to the nodes and edges of the tournament's plan and
    /// returns what it adds and deletes. Preliminaries go below the parent, if
    /// one is given, and take over the first edge from it; a minor break adds
    /// a two-thirds break whose round is left out of the plan; a Tim break adds
    /// two breaks with a round each; a knockout stage adds a break and a round
    /// of `ko_fold` per stage. An update replaces the configuration of the
    /// first node with the id, in place and once more at the end of the nodes,
    /// or is refused where the kinds differ.
    pub fn get_changes(
        self,
        ko_fold: FoldDrawConfig,
        all_nodes: &mut Vec<PlannedNode>,
        all_edges: &mut Vec<PlannedEdge>,
    ) -> (r: Result<PlanChanges, EditTreeActionError>)
        requires
            self.action matches EditTreeActionType::AddKOStage { num_stages, .. } ==> 1 <= num_stages <= 32,
            self.action matches EditTreeActionType::UpdateNode { node, .. } ==> first_index(
                node_uuids(old(all_nodes)@),
                node,
            ) >= 0,
        ensures
            match self.action {
                EditTreeActionType::UpdateNode { node, config } => {
                    let k = first_index(node_uuids(old(all_nodes)@), node);
                    let old_node = old(all_nodes)@[k];
                    match updated_shape(old_node.node_type, config) {
                        None => {
                            &&& r matches Err(e) && e == EditTreeActionError::InvalidNodeType
                            &&& final(all_nodes)@ == old(all_nodes)@
                            &&& final(all_edges)@ == old(all_edges)@
                        },
                        Some(shape) => {
                            &&& r matches Ok(ch) && {
                                &&& ch.nodes@.len() == 1
                                &&& ch.nodes@[0].uuid == old_node.uuid
                                &&& ch.nodes@[0].tournament_id == old_node.tournament_id
                                &&& node_shape(ch.nodes@[0].node_type) == shape
                                &&& ch.edges@.len() == 0
                                &&& ch.deleted_edges@.len() == 0
                                &&& final(all_nodes).len() == old(all_nodes).len() + 1
                                &&& forall|i: int| 0 <= i < old(all_nodes).len() && i != k ==> final(all_nodes)@[i] == old(all_nodes)@[i]
                                &&& same_node(final(all_nodes)@[k], ch.nodes@[0])
                                &&& same_node(final(all_nodes)@[old(all_nodes).len() as int], ch.nodes@[0])
                            }
                            &&& final(all_edges)@ == old(all_edges)@
                        },
                    }
                },
                _ => r matches Ok(ch) && applied_addition(
                    old(all_nodes)@,
                    old(all_edges)@,
                    final(all_nodes)@,
                    final(all_edges)@,
                    ch,
                    self.tournament_id,
                    self.action,
                    ko_fold,
                ),
            },
    {
        let tournament_id = self.tournament_id;
        let ghost action = self.action;
        let ghost old_edges = all_edges@;
        match self.action {
            EditTreeActionType::AddPreliminaryRounds { parent } => {
                let node = new_node(tournament_id, PlannedNodeType::Preliminaries { num_roundtrips: 1 });
                let node_id = node.uuid;
                let mut nodes: Vec<PlannedNode> = Vec::new();
                nodes.push(node);
                let mut edges: Vec<PlannedEdge> = Vec::new();
                let mut deleted: Vec<PlannedEdge> = Vec::new();
                match parent {
                    Some(p) => {
                        match find_edge_from(all_edges, p) {
                            Some(k) => {
                                let e = all_edges.remove(k);
                                deleted.push(e);
                                edges.push(PlannedEdge { source_id: node_id, target_id: e.target_id });
                            },
                            None => {},
                        }
                        edges.push(PlannedEdge { source_id: p, target_id: node_id });
                    },
                    None => {},
                }
                append_edges(all_edges, &edges);
                append_nodes(all_nodes, &nodes);
                let ch = PlanChanges { nodes, edges, deleted_edges: deleted };
                assert(is_plan_addition(ch.nodes@, ch.edges@, tournament_id, added_shapes(action, ko_fold), added_links(old_edges, action)));
                Ok(ch)
            },
            EditTreeActionType::AddMinorBreakRounds { parent, draws } => {
                let brk = new_node(tournament_id, PlannedNodeType::Break { config: PlannedBreak::TwoThirdsBreak });
                let brk_id = brk.uuid;
                let round = new_node(tournament_id, PlannedNodeType::FoldDraw { round_configs: draws });
                let mut nodes: Vec<PlannedNode> = Vec::new();
                nodes.push(brk);
                let mut edges: Vec<PlannedEdge> = Vec::new();
                edges.push(PlannedEdge { source_id: parent, target_id: brk_id });
                edges.push(PlannedEdge { source_id: brk_id, target_id: round.uuid });
                append_edges(all_edges, &edges);
                append_nodes(all_nodes, &nodes);
                let ch = PlanChanges { nodes, edges, deleted_edges: Vec::new() };
                assert(ch.deleted_edges@ =~= Seq::<PlannedEdge>::empty());
                assert(is_plan_addition(ch.nodes@, ch.edges@, tournament_id, added_shapes(action, ko_fold), added_links(old_edges, action)));
                Ok(ch)
            },
            EditTreeActionType::AddTimBreakRounds { parent } => {
                let first_break = new_node(tournament_id, PlannedNodeType::Break { config: PlannedBreak::TwoThirdsBreak });
                let first_round = new_node(tournament_id, one_round(TeamFoldMethod::Random, TeamAssignmentRule::Random));
                let second_break = new_node(tournament_id, PlannedNodeType::Break { config: PlannedBreak::TimBreak });
                let second_round = new_node(tournament_id, one_round(TeamFoldMethod::PowerPaired, TeamAssignmentRule::Random));
                let mut edges: Vec<PlannedEdge> = Vec::new();
                edges.push(PlannedEdge { source_id: parent, target_id: first_break.uuid });
                edges.push(PlannedEdge { source_id: first_break.uuid, target_id: first_round.uuid });
                edges.push(PlannedEdge { source_id: first_round.uuid, target_id: second_break.uuid });
                edges.push(PlannedEdge { source_id: second_break.uuid, target_id: second_round.uuid });
                let mut nodes: Vec<PlannedNode> = Vec::new();
                nodes.push(first_break);
                nodes.push(first_round);
                nodes.push(second_break);
                nodes.push(second_round);
                append_edges(all_edges, &edges);
                append_nodes(all_nodes, &nodes);
                let ch = PlanChanges { nodes, edges, deleted_edges: Vec::new() };
                assert(ch.deleted_edges@ =~= Seq::<PlannedEdge>::empty());
                assert(is_plan_addition(ch.nodes@, ch.edges@, tournament_id, added_shapes(action, ko_fold), added_links(old_edges, action)));
                Ok(ch)
            },
            EditTreeActionType::AddKOStage { parent, num_stages } => {
                let (nodes, edges) = ko_stage(tournament_id, parent, num_stages, ko_fold);
                append_edges(all_edges, &edges);
                append_nodes(all_nodes, &nodes);
                let ch = PlanChanges { nodes, edges, deleted_edges: Vec::new() };
                assert(ch.deleted_edges@ =~= Seq::<PlannedEdge>::empty());
                Ok(ch)
            },
            EditTreeActionType::UpdateNode { node, config } => {
                let k = find_node(all_nodes, node).unwrap();
                let is_break = match &all_nodes[k].node_type {
                    PlannedNodeType::Break { .. } => true,
                    _ => false,
                };
                let new_type = match config {
                    PlanNodeConfig::Break { config: c } => if is_break {
                        Some(PlannedNodeType::Break { config: c })
                    } else {
                        None
                    },
                    PlanNodeConfig::RoundGroup { config: c } => if is_break {
                        None
                    } else {
                        Some(
                            match c {
                                RoundGroupConfig::Preliminaries { num_roundtrips } => PlannedNodeType::Preliminaries {
                                    num_roundtrips,
                                },
                                RoundGroupConfig::FoldDraw { round_configs } => PlannedNodeType::FoldDraw { round_configs },
                            },
                        )
                    },
                };
                match new_type {
                    None => Err(EditTreeActionError::InvalidNodeType),
                    Some(t) => {
                        let updated = PlannedNode { uuid: all_nodes[k].uuid, tournament_id: all_nodes[k].tournament_id, node_type: t };
                        let at_end = copy_node(&updated);
                        let listed = copy_node(&updated);
                        all_nodes.set(k, updated);
                        all_nodes.push(at_end);
                        let mut nodes: Vec<PlannedNode> = Vec::new();
                        nodes.push(listed);
                        Ok(PlanChanges { nodes, edges: Vec::new(), deleted_edges: Vec::new() })
                    },
                }
            },
        }
    }
}

/// The nodes and edges of a knockout stage below the parent.
fn ko_stage(tournament_id: u128, parent: u128, num_stages: u64, ko_fold: FoldDrawConfig) -> (r: (Vec<PlannedNode>, Vec<PlannedEdge>))
    requires
        1 <= num_stages <= 32,
    ensures
        is_plan_addition(r.0@, r.1@, tournament_id, ko_shapes(num_stages as nat, ko_fold), ko_links(num_stages as nat, parent)),
{
    let ghost shapes = ko_shapes(num_stages as nat, ko_fold);
    let ghost links = ko_links(num_stages as nat, parent);
    let num_debates = pow2_u32((num_stages - 1) as u32);
    let first_break = new_node(tournament_id, PlannedNodeType::Break { config: PlannedBreak::TabBreak { num_debates } });
    let first_round = new_node(tournament_id, ko_round(ko_fold));
    let mut edges: Vec<PlannedEdge> = Vec::new();
    edges.push(PlannedEdge { source_id: parent, target_id: first_break.uuid });
    edges.push(PlannedEdge { source_id: first_break.uuid, target_id: first_round.uuid });
    let mut last_id = first_round.uuid;
    let mut nodes: Vec<PlannedNode> = Vec::new();
    nodes.push(first_break);
    nodes.push(first_round);
    assert(is_plan_addition(nodes@, edges@, tournament_id, shapes.take(2), links.take(2)));
    let mut stage: u64 = 1;
    while stage < num_stages
        invariant
            1 <= stage <= num_stages <= 32,
            shapes == ko_shapes(num_stages as nat, ko_fold),
            links == ko_links(num_stages as nat, parent),
            nodes.len() == 2 * stage,
            last_id == nodes@[2 * stage - 1].uuid,
            is_plan_addition(nodes@, edges@, tournament_id, shapes.take(2 * stage), links.take(2 * stage)),
        decreases num_stages - stage,
    {
        let brk = new_node(tournament_id, PlannedNodeType::Break { config: PlannedBreak::KnockoutBreak });
        let round = new_node(tournament_id, ko_round(ko_fold));
        edges.push(PlannedEdge { source_id: last_id, target_id: brk.uuid });
        edges.push(PlannedEdge { source_id: brk.uuid, target_id: round.uuid });
        last_id = round.uuid;
        nodes.push(brk);
        nodes.push(round);
        stage += 1;
        assert(is_plan_addition(nodes@, edges@, tournament_id, shapes.take(2 * stage), links.take(2 * stage)));
    }
    assert(shapes.take(2 * num_stages) =~= shapes);
    assert(links.take(2 * num_stages) =~= links);
    (nodes, edges)
}

} // verus!
