use vstd::prelude::*;

use crate::round_draw::new_random_id;
use crate::tab_draw::{FoldDrawConfig, NonAlignedFoldMethod, TeamAssignmentRule, TeamFoldMethod};

verus! {

/// What the user asks for when creating a tournament.
pub struct TournamentCreationConfig {
    pub name: String,
    pub num_preliminaries: u32,
    pub num_break_rounds: u32,
    pub use_default_feedback_system: bool,
}

/// The break of a node of a new tournament's plan.
#[derive(Clone, Copy, Debug, PartialEq, Eq, Structural)]
pub enum PlannedBreak {
    TwoThirdsBreak,
    TimBreak,
    TabBreak { num_debates: u32 },
    KnockoutBreak,
}

/// What a node of a new tournament's plan does.
pub enum PlannedNodeType {
    Preliminaries { num_roundtrips: i32 },
    FoldDraw { round_configs: Vec<FoldDrawConfig> },
    Break { config: PlannedBreak },
}

/// A node of a new tournament's plan.
pub struct PlannedNode {
    pub uuid: u128,
    pub tournament_id: u128,
    pub node_type: PlannedNodeType,
}

/// An edge of a tournament's plan, from a node to the node that follows it.
#[derive(Clone, Copy, Debug, PartialEq, Eq, Structural)]
pub struct PlannedEdge {
    pub source_id: u128,
    pub target_id: u128,
}

/// What a node does, as a mathematical value.
pub enum NodeShape {
    Preliminaries(int),
    FoldDraw(Seq<FoldDrawConfig>),
    Break(PlannedBreak),
}

pub open spec fn node_shape(t: PlannedNodeType) -> NodeShape {
    match t {
        PlannedNodeType::Preliminaries { num_roundtrips } => NodeShape::Preliminaries(num_roundtrips as int),
        PlannedNodeType::FoldDraw { round_configs } => NodeShape::FoldDraw(round_configs@),
        PlannedNodeType::Break { config } => NodeShape::Break(config),
    }
}

pub open spec fn fold_round(t: TeamFoldMethod, a: TeamAssignmentRule) -> NodeShape {
    NodeShape::FoldDraw(
        seq![FoldDrawConfig { team_fold_method: t, non_aligned_fold_method: NonAlignedFoldMethod::Random, team_assignment_rule: a }],
    )
}

/// 2 to the power `e`.
pub open spec fn two_to(e: nat) -> nat
    decreases e,
{
    if e == 0 {
        1
    } else {
        2 * two_to((e - 1) as nat)
    }
}

/// The nodes before the break rounds: the preliminaries, and for a count of
/// preliminaries not divisible by three a two-thirds break followed by one
/// random fold round, or by a half-random round, a Tim break and a balanced
/// round.
pub open spec fn head_shapes(num_preliminaries: u32) -> Seq<NodeShape> {
    let prelim = NodeShape::Preliminaries((num_preliminaries / 3) as int);
    if num_preliminaries % 3 == 0 {
        seq![prelim]
    } else if num_preliminaries % 3 == 1 {
        seq![
            prelim,
            NodeShape::Break(PlannedBreak::TwoThirdsBreak),
            fold_round(TeamFoldMethod::Random, TeamAssignmentRule::Random),
        ]
    } else {
        seq![
            prelim,
            NodeShape::Break(PlannedBreak::TwoThirdsBreak),
            fold_round(TeamFoldMethod::HalfRandom, TeamAssignmentRule::Random),
            fold_round(TeamFoldMethod::BalancedPowerPaired, TeamAssignmentRule::InvertPrevious),
            NodeShape::Break(PlannedBreak::TimBreak),
        ]
    }
}

/// The edges between the nodes before the break rounds, by node index.
pub open spec fn head_edges(num_preliminaries: u32) -> Seq<(int, int)> {
    if num_preliminaries % 3 == 0 {
        Seq::empty()
    } else if num_preliminaries % 3 == 1 {
        seq![(0int, 1int), (1int, 2int)]
    } else {
        seq![(0int, 1int), (1int, 2int), (2int, 4int), (4int, 3int)]
    }
}

/// The index of the last node before the break rounds.
pub open spec fn head_end(num_preliminaries: u32) -> int {
    if num_preliminaries % 3 == 0 {
        0
    } else if num_preliminaries % 3 == 1 {
        2
    } else {
        3
    }
}

/// The node shapes of the plan: the head, then per break round a break (by tab
/// for the first, with half as many debates per further round, else knockout)
/// and an inverse power-paired round.
pub open spec fn graph_shapes(num_preliminaries: u32, num_break_rounds: u32) -> Seq<NodeShape> {
    let h = head_shapes(num_preliminaries);
    Seq::new(
        (h.len() + 2 * num_break_rounds) as nat,
        |i: int|
            if i < h.len() {
                h[i]
            } else if (i - h.len()) % 2 == 0 {
                let k = (i - h.len()) / 2;
                if k == 0 {
                    NodeShape::Break(
                        PlannedBreak::TabBreak { num_debates: two_to((num_break_rounds - 1) as nat) as u32 },
                    )
                } else {
                    NodeShape::Break(PlannedBreak::KnockoutBreak)
                }
            } else {
                fold_round(TeamFoldMethod::InversePowerPaired, TeamAssignmentRule::Random)
            },
    )
}

/// The edges of the plan by node index: the head's, then per break round one
/// from the previous round to the break and one from the break to its round.
pub open spec fn graph_edges(num_preliminaries: u32, num_break_rounds: u32) -> Seq<(int, int)> {
    let he = head_edges(num_preliminaries);
    let hl = head_shapes(num_preliminaries).len() as int;
    Seq::new(
        (he.len() + 2 * num_break_rounds) as nat,
        |j: int|
            if j < he.len() {
                he[j]
            } else {
                let k = (j - he.len()) / 2;
                let brk = hl + 2 * k;
                if (j - he.len()) % 2 == 0 {
                    (if k == 0 { head_end(num_preliminaries) } else { brk - 1 }, brk)
                } else {
                    (brk, brk + 1)
                }
            },
    )
}

proof fn lemma_two_to_mono(e: nat, f: nat)
    requires
        e <= f,
    ensures
        1 <= two_to(e) <= two_to(f),
    decreases f,
{
    if e < f {
        lemma_two_to_mono(e, (f - 1) as nat);
    } else if e > 0 {
        lemma_two_to_mono((e - 1) as nat, (e - 1) as nat);
    }
}

proof fn lemma_two_to_bound(e: nat)
    requires
        e < 32,
    ensures
        1 <= two_to(e) <= 0x8000_0000,
{
    assert(two_to(31) == 0x8000_0000) by {
        reveal_with_fuel(two_to, 32);
    }
    lemma_two_to_mono(e, 31);
}

/// 2 to the power `e`.
pub(crate) fn pow2_u32(e: u32) -> (r: u32)
    requires
        e < 32,
    ensures
        r == two_to(e as nat),
{
    let mut r: u32 = 1;
    let mut i: u32 = 0;
    while i < e
        invariant
            i <= e,
            e < 32,
            r == two_to(i as nat),
        decreases e - i,
    {
        proof {
            lemma_two_to_bound(i as nat);
            lemma_two_to_bound((i + 1) as nat);
        }
        r = r * 2;
        i += 1;
    }
    r
}

pub(crate) fn new_node(tournament_id: u128, node_type: PlannedNodeType) -> (n: PlannedNode)
    ensures
        n.tournament_id == tournament_id,
        n.node_type == node_type,
{
    PlannedNode { uuid: new_random_id(), tournament_id, node_type }
}

pub(crate) fn one_round(t: TeamFoldMethod, a: TeamAssignmentRule) -> (n: PlannedNodeType)
    ensures
        node_shape(n) == fold_round(t, a),
{
    let mut v: Vec<FoldDrawConfig> = Vec::new();
    v.push(FoldDrawConfig { team_fold_method: t, non_aligned_fold_method: NonAlignedFoldMethod::Random, team_assignment_rule: a });
    assert(v@ =~= seq![FoldDrawConfig { team_fold_method: t, non_aligned_fold_method: NonAlignedFoldMethod::Random, team_assignment_rule: a }]);
    PlannedNodeType::FoldDraw { round_configs: v }
}

/// Whether the nodes and edges are a plan of the given shape, every node in the
/// tournament, every edge joining the nodes at its pair of indices.
pub open spec fn is_planned_graph(
    nodes: Seq<PlannedNode>,
    edges: Seq<PlannedEdge>,
    tournament_id: u128,
    shapes: Seq<NodeShape>,
    links: Seq<(int, int)>,
) -> bool {
    &&& nodes.len() == shapes.len()
    &&& edges.len() == links.len()
    &&& forall|i: int| 0 <= i < nodes.len() ==> (#[trigger] nodes[i]).tournament_id == tournament_id
        && node_shape(nodes[i].node_type) == shapes[i]
    &&& forall|j: int| 0 <= j < edges.len() ==> {
        let (a, b) = #[trigger] links[j];
        &&& 0 <= a < nodes.len()
        &&& 0 <= b < nodes.len()
        &&& edges[j] == PlannedEdge { source_id: nodes[a].uuid, target_id: nodes[b].uuid }
    }
}

impl TournamentCreationConfig {
    /// The plan of a new tournament: a preliminaries node, for a count of
    /// preliminaries not divisible by three the rounds that even it out, and one
    /// break and one round per break round. Each node gets a fresh id.
    pub fn get_tournament_graph(&self, tournament_id: u128) -> (r: (Vec<PlannedNode>, Vec<PlannedEdge>))
        requires
            self.num_break_rounds <= 32,
        ensures
            is_planned_graph(
                r.0@,
                r.1@,
                tournament_id,
                graph_shapes(self.num_preliminaries, self.num_break_rounds),
                graph_edges(self.num_preliminaries, self.num_break_rounds),
            ),
    {
        let mut nodes: Vec<PlannedNode> = Vec::new();
        let mut edges: Vec<PlannedEdge> = Vec::new();
        let np = self.num_preliminaries;
        let roundtrips = (np / 3) as i32;
        let prelim = new_node(tournament_id, PlannedNodeType::Preliminaries { num_roundtrips: roundtrips });
        let prelim_id = prelim.uuid;
        nodes.push(prelim);
        let final_id = if np % 3 != 0 {
            let minor_break = new_node(tournament_id, PlannedNodeType::Break { config: PlannedBreak::TwoThirdsBreak });
            let minor_break_id = minor_break.uuid;
            nodes.push(minor_break);
            edges.push(PlannedEdge { source_id: prelim_id, target_id: minor_break_id });
            if np % 3 == 1 {
                let round = new_node(tournament_id, one_round(TeamFoldMethod::Random, TeamAssignmentRule::Random));
                let round_id = round.uuid;
                nodes.push(round);
                edges.push(PlannedEdge { source_id: minor_break_id, target_id: round_id });
                round_id
            } else {
                let first = new_node(tournament_id, one_round(TeamFoldMethod::HalfRandom, TeamAssignmentRule::Random));
                let brk = new_node(tournament_id, PlannedNodeType::Break { config: PlannedBreak::TimBreak });
                let second = new_node(
                    tournament_id,
                    one_round(TeamFoldMethod::BalancedPowerPaired, TeamAssignmentRule::InvertPrevious),
                );
                let first_id = first.uuid;
                let second_id = second.uuid;
                let brk_id = brk.uuid;
                nodes.push(first);
                nodes.push(second);
                nodes.push(brk);
                edges.push(PlannedEdge { source_id: minor_break_id, target_id: first_id });
                edges.push(PlannedEdge { source_id: first_id, target_id: brk_id });
                edges.push(PlannedEdge { source_id: brk_id, target_id: second_id });
                second_id
            }
        } else {
            prelim_id
        };
        let ghost shapes = graph_shapes(np, self.num_break_rounds);
        let ghost links = graph_edges(np, self.num_break_rounds);
        let ghost hl = head_shapes(np).len() as int;
        let ghost he = head_edges(np).len() as int;
        assert(nodes.len() == hl);
        assert(edges.len() == he);
        assert(final_id == nodes@[head_end(np)].uuid);
        assert(is_planned_graph(nodes@, edges@, tournament_id, shapes.take(hl), links.take(he)));
        let nb = self.num_break_rounds;
        let mut prev_id = final_id;
        let mut k: u32 = 0;
        while k < nb
            invariant
                k <= nb,
                nb <= 32,
                shapes == graph_shapes(np, nb),
                links == graph_edges(np, nb),
                hl == head_shapes(np).len(),
                he == head_edges(np).len(),
                nodes.len() == hl + 2 * k,
                edges.len() == he + 2 * k,
                prev_id == nodes@[if k == 0 { head_end(np) } else { hl + 2 * k - 1 }].uuid,
                0 <= head_end(np) < hl,
                is_planned_graph(nodes@, edges@, tournament_id, shapes.take(nodes.len() as int), links.take(edges.len() as int)),
            decreases nb - k,
        {
            let config = if k == 0 {
                let n = pow2_u32(nb - k - 1);
                PlannedBreak::TabBreak { num_debates: n }
            } else {
                PlannedBreak::KnockoutBreak
            };
            let brk = new_node(tournament_id, PlannedNodeType::Break { config });
            let brk_id = brk.uuid;
            let round = new_node(tournament_id, one_round(TeamFoldMethod::InversePowerPaired, TeamAssignmentRule::Random));
            let round_id = round.uuid;
            edges.push(PlannedEdge { source_id: prev_id, target_id: brk_id });
            edges.push(PlannedEdge { source_id: brk_id, target_id: round_id });
            nodes.push(brk);
            nodes.push(round);
            prev_id = round_id;
            k += 1;
            assert(is_planned_graph(nodes@, edges@, tournament_id, shapes.take(nodes.len() as int), links.take(edges.len() as int)));
        }
        assert(shapes.take(nodes.len() as int) =~= shapes);
        assert(links.take(edges.len() as int) =~= links);
        (nodes, edges)
    }
}

} // verus!
