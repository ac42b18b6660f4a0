use vstd::prelude::*;

use mcmf::{Capacity, Cost, GraphBuilder, Vertex};

use crate::datastructures::{AdjudicatorInfo, DebateInfo, DebateView, RoundInfo, RoundView, debates_view, rounds_view};
use crate::evaluation::{DrawEvaluator, EvaluationView, apply_events, empty_evaluation};
use crate::issues::{IssueView, copy_ids, issues_view};

verus! {

broadcast use vstd::std_specs::hash::group_hash_axioms;

#[verifier::external_type_specification]
#[verifier::external_body]
#[verifier::reject_recursive_types(T)]
pub struct ExGraphBuilder<T: Clone + Ord>(GraphBuilder<T>);

/// The edges added to a flow graph, in order: where each starts (none for the
/// source), where it ends (none for the sink), its capacity and its cost.
pub uninterp spec fn flow_graph_edges(g: GraphBuilder<(u8, u128, u64)>) -> Seq<
    (Option<(u8, u128, u64)>, Option<(u8, u128, u64)>, i32, i32),
>;

/// The flows of the paths that `mcmf::GraphBuilder::mcmf` finds for the edges,
/// path by path: the node each flow leaves and enters (none for the source and
/// the sink) and its amount.
pub uninterp spec fn min_cost_flow_paths(
    edges: Seq<(Option<(u8, u128, u64)>, Option<(u8, u128, u64)>, i32, i32)>,
) -> Seq<(Option<(u8, u128, u64)>, Option<(u8, u128, u64)>, u32)>;

/// `mcmf::GraphBuilder::new`: a builder whose edge list is empty.
#[verifier::external_body]
fn new_flow_graph() -> (g: GraphBuilder<(u8, u128, u64)>)
    ensures
        flow_graph_edges(g) == Seq::<(Option<(u8, u128, u64)>, Option<(u8, u128, u64)>, i32, i32)>::empty(),
{
    GraphBuilder::new()
}

/// `mcmf::GraphBuilder::add_edge` from the node `a`, or the source, to the node
/// `b`, or the sink. The builder appends the edge to its list; it panics on a
/// negative capacity and on an edge from a node to itself.
#[verifier::external_body]
fn add_flow_edge(
    g: &mut GraphBuilder<(u8, u128, u64)>,
    a: Option<(u8, u128, u64)>,
    b: Option<(u8, u128, u64)>,
    capacity: i32,
    cost: i32,
)
    requires
        capacity >= 0,
        a is None || a != b,
    ensures
        flow_graph_edges(*final(g)) == flow_graph_edges(*old(g)).push((a, b, capacity, cost)),
{
    g.add_edge(a.map_or(Vertex::Source, Vertex::Node), b.map_or(Vertex::Sink, Vertex::Node), Capacity(capacity), Cost(cost));
}

/// Whether each flow runs along an edge of the list: from the start to the
/// end of one of its edges.
pub open spec fn flows_follow_edges(
    flows: Seq<(Option<(u8, u128, u64)>, Option<(u8, u128, u64)>, u32)>,
    edges: Seq<(Option<(u8, u128, u64)>, Option<(u8, u128, u64)>, i32, i32)>,
) -> bool {
    forall|k: int| 0 <= k < flows.len() ==> runs_along_edge(#[trigger] flows[k], edges)
}

/// Whether the flow runs from the start to the end of one of the edges.
pub open spec fn runs_along_edge(
    f: (Option<(u8, u128, u64)>, Option<(u8, u128, u64)>, u32),
    edges: Seq<(Option<(u8, u128, u64)>, Option<(u8, u128, u64)>, i32, i32)>,
) -> bool {
    exists|e: int| 0 <= e < edges.len() && (#[trigger] edges[e]).0 == f.0 && edges[e].1 == f.1
}

/// `mcmf::GraphBuilder::mcmf` on the builder's edges, its paths flattened into
/// their flows, each flow's ends as `Vertex::as_option` gives them. The result
/// depends on the edge list alone, which `min_cost_flow_paths` names; what the
/// network simplex of the outside crate chooses is not stated. Each flow is
/// one of the solved graph's edges carrying a positive amount, so it runs from
/// the start to the end of an edge of the list.
#[verifier::external_body]
fn solve_flow(g: &GraphBuilder<(u8, u128, u64)>) -> (flows: Vec<(Option<(u8, u128, u64)>, Option<(u8, u128, u64)>, u32)>)
    ensures
        flows@ == min_cost_flow_paths(flow_graph_edges(*g)),
        flows_follow_edges(flows@, flow_graph_edges(*g)),
{
    let (_, paths) = g.mcmf();
    paths.iter().flat_map(|p| p.flows.iter()).map(|f| (f.a.clone().as_option(), f.b.clone().as_option(), f.amount)).collect()
}

/// Where an adjudicator sits in a round.
#[derive(Clone, Copy, Debug, PartialEq, Eq, Structural)]
pub enum AdjudicatorPosition {
    Unassigned,
    Chair { debate_idx: usize },
    Wing { debate_idx: usize, position: usize },
    Unavailable,
}

/// The settings of the adjudicator allocation: an adjudicator is never placed
/// where one of its own issues is at least as severe as the threshold. Skills
/// enter the costs with weight one.
pub struct OptimizationOptions {
    pub hard_clash_threshold: i32,
}

impl Default for OptimizationOptions {
    fn default() -> (o: Self)
        ensures
            o.hard_clash_threshold == 75,
    {
        OptimizationOptions { hard_clash_threshold: 75 }
    }
}

/// The adjudicator allocation over some rounds: the rounds, the adjudicators,
/// where each adjudicator sits in each round, and the evaluator that finds the
/// issues of a debate.
pub struct OptimizationState<'a> {
    pub rounds: Vec<RoundInfo>,
    pub options: OptimizationOptions,
    pub adjudicators: Vec<AdjudicatorInfo>,
    pub assignments: Vec<Vec<AdjudicatorPosition>>,
    pub evaluator: &'a DrawEvaluator<'a>,
}

/// The part of the allocation that assigning changes: the rounds and the
/// positions, per adjudicator and round.
pub struct AllocationView {
    pub rounds: Seq<RoundView>,
    pub assignments: Seq<Seq<AdjudicatorPosition>>,
}

/// The positions as mathematical values.
pub open spec fn assignments_view(v: Seq<Vec<AdjudicatorPosition>>) -> Seq<Seq<AdjudicatorPosition>> {
    v.map_values(|a: Vec<AdjudicatorPosition>| a@)
}

/// The largest skill, in size, that the weighting of skills takes exactly.
pub open spec fn skill_limit() -> int {
    0x80_0000
}

/// The index of the first adjudicator with the id, -1 where there is none.
pub open spec fn adj_index(adjs: Seq<AdjudicatorInfo>, id: u128) -> int
    decreases adjs.len(),
{
    if adjs.len() == 0 {
        -1
    } else {
        let rest = adj_index(adjs.drop_last(), id);
        if rest >= 0 {
            rest
        } else if adjs.last().id == id {
            adjs.len() - 1
        } else {
            -1
        }
    }
}

/// Whether every chair and wing of the rounds is one of the adjudicators.
pub open spec fn adjudicators_known(rounds: Seq<RoundView>, adjs: Seq<AdjudicatorInfo>) -> bool {
    &&& forall|r: int, d: int| 0 <= r < rounds.len() && 0 <= d < rounds[r].debates.len() ==> ((
    #[trigger] rounds[r].debates[d]).chair matches Some(c) ==> adj_index(adjs, c) >= 0)
    &&& forall|r: int, d: int, w: int|
        0 <= r < rounds.len() && 0 <= d < rounds[r].debates.len() && 0 <= w < rounds[r].debates[d].wings.len()
            ==> adj_index(adjs, #[trigger] rounds[r].debates[d].wings[w]) >= 0
}

/// Whether the adjudicators have distinct ids and skills the weighting takes
/// exactly.
pub open spec fn adjudicators_valid(adjs: Seq<AdjudicatorInfo>) -> bool {
    &&& forall|i: int, j: int| 0 <= i < adjs.len() && 0 <= j < adjs.len() && i != j ==> adjs[i].id != adjs[j].id
    &&& forall|i: int| 0 <= i < adjs.len() ==> -skill_limit() <= (#[trigger] adjs[i]).feedback_skill <= skill_limit()
        && -skill_limit() <= adjs[i].moderation_skill <= skill_limit() && -skill_limit() <= adjs[i].discussion_skill
        <= skill_limit()
}

/// Whether the allocation has a position per adjudicator and round, and every
/// chair and wing is one of its adjudicators.
pub open spec fn allocation_valid(v: AllocationView, adjs: Seq<AdjudicatorInfo>) -> bool {
    &&& v.assignments.len() == adjs.len()
    &&& forall|a: int| 0 <= a < v.assignments.len() ==> (#[trigger] v.assignments[a]).len() == v.rounds.len()
    &&& adjudicators_known(v.rounds, adjs)
}

impl<'a> OptimizationState<'a> {
    /// The rounds and positions as mathematical values.
    pub open spec fn allocation(&self) -> AllocationView {
        AllocationView { rounds: rounds_view(self.rounds@), assignments: assignments_view(self.assignments@) }
    }

    /// Whether the state is well formed.
    pub open spec fn wf(&self) -> bool {
        &&& adjudicators_valid(self.adjudicators@)
        &&& allocation_valid(self.allocation(), self.adjudicators@)
    }
}

/// The issues recorded for the adjudicator.
pub open spec fn own_issues(v: EvaluationView, id: u128) -> Seq<IssueView> {
    if v.adjudicators.contains_key(id) {
        v.adjudicators[id]
    } else {
        Seq::empty()
    }
}

/// A hundred times the sum of the severities.
pub open spec fn severity_total(s: Seq<IssueView>) -> int
    decreases s.len(),
{
    if s.len() == 0 {
        0
    } else {
        severity_total(s.drop_last()) + 100 * s.last().severity
    }
}

/// The debate with the adjudicator added as its last wing.
pub open spec fn with_wing(d: DebateView, adj: u128) -> DebateView {
    DebateView { wings: d.wings.push(adj), ..d }
}

/// What the issues of the adjudicator in the debate cost: none where one of
/// them reaches the threshold, else a hundred times their severities.
pub open spec fn clash_cost(ev: &DrawEvaluator, threshold: i32, adj: u128, d: DebateView) -> Option<int> {
    let own = own_issues(apply_events(empty_evaluation(), ev.debate_events(with_wing(d, adj))), adj);
    if exists|i: int| 0 <= i < own.len() && (#[trigger] own[i]).severity >= threshold {
        None
    } else {
        Some(severity_total(own))
    }
}

/// What chairing the debate costs the adjudicator: its clash cost less its
/// moderation skill and, outside silent rounds, its feedback skill.
pub open spec fn chair_cost(ev: &DrawEvaluator, threshold: i32, info: AdjudicatorInfo, d: DebateView, silent: bool) -> Option<
    int,
> {
    match clash_cost(ev, threshold, info.id, d) {
        Some(c) => Some(c - (if silent { 0 } else { info.feedback_skill as int }) - info.moderation_skill),
        None => None,
    }
}

/// The sum of the discussion skills of the adjudicators with the ids.
pub open spec fn discussion_sum(adjs: Seq<AdjudicatorInfo>, ids: Seq<u128>) -> int
    decreases ids.len(),
{
    if ids.len() == 0 {
        0
    } else {
        discussion_sum(adjs, ids.drop_last()) + adjs[adj_index(adjs, ids.last())].discussion_skill
    }
}

/// Division rounded towards zero.
pub open spec fn div_toward_zero(a: int, b: int) -> int {
    if a >= 0 {
        a / b
    } else {
        -((-a) / b)
    }
}

/// The mean discussion skill of the wings, rounded towards zero, 0 where there
/// are none.
pub open spec fn mean_wing_skill(adjs: Seq<AdjudicatorInfo>, d: DebateView) -> int {
    if d.wings.len() > 0 {
        div_toward_zero(discussion_sum(adjs, d.wings), d.wings.len() as int)
    } else {
        0
    }
}

pub open spec fn abs_int(x: int) -> int {
    if x < 0 {
        -x
    } else {
        x
    }
}

/// What joining the debate as a wing costs the adjudicator: its clash cost,
/// less how much its moderation skill exceeds the chair's discussion skill,
/// less how far its discussion skill lies from the wings' mean.
pub open spec fn wing_cost(
    ev: &DrawEvaluator,
    threshold: i32,
    adjs: Seq<AdjudicatorInfo>,
    info: AdjudicatorInfo,
    d: DebateView,
) -> Option<int> {
    match clash_cost(ev, threshold, info.id, d) {
        Some(c) => Some(
            c - (match d.chair {
                Some(ch) => info.moderation_skill - adjs[adj_index(adjs, ch)].discussion_skill,
                None => 0,
            }) - abs_int(info.discussion_skill - mean_wing_skill(adjs, d)),
        ),
        None => None,
    }
}

proof fn lemma_severity_total_bounds(s: Seq<IssueView>)
    ensures
        0 <= severity_total(s) <= 6_553_500 * s.len(),
    decreases s.len(),
{
    if s.len() > 0 {
        lemma_severity_total_bounds(s.drop_last());
    }
}

pub(crate) proof fn lemma_adj_index(adjs: Seq<AdjudicatorInfo>, id: u128)
    ensures
        adj_index(adjs, id) >= 0 ==> adj_index(adjs, id) < adjs.len() && adjs[adj_index(adjs, id)].id == id,
        adj_index(adjs, id) < 0 ==> forall|i: int| 0 <= i < adjs.len() ==> adjs[i].id != id,
        adj_index(adjs, id) >= -1,
    decreases adjs.len(),
{
    if adjs.len() > 0 {
        lemma_adj_index(adjs.drop_last(), id);
        if adj_index(adjs, id) < 0 {
            assert forall|i: int| 0 <= i < adjs.len() implies adjs[i].id != id by {
                if i < adjs.len() - 1 {
                    assert(adjs.drop_last()[i] == adjs[i]);
                }
            }
        }
    }
}

proof fn lemma_adj_index_of(adjs: Seq<AdjudicatorInfo>, i: int)
    requires
        0 <= i < adjs.len(),
        forall|a: int, b: int| 0 <= a < adjs.len() && 0 <= b < adjs.len() && a != b ==> adjs[a].id != adjs[b].id,
    ensures
        adj_index(adjs, adjs[i].id) == i,
{
    lemma_adj_index(adjs, adjs[i].id);
}

proof fn lemma_discussion_sum_bounds(adjs: Seq<AdjudicatorInfo>, ids: Seq<u128>)
    requires
        adjudicators_valid(adjs),
        forall|w: int| 0 <= w < ids.len() ==> adj_index(adjs, #[trigger] ids[w]) >= 0,
    ensures
        -(0x80_0000 * ids.len()) <= discussion_sum(adjs, ids) <= 0x80_0000 * ids.len(),
    decreases ids.len(),
{
    if ids.len() > 0 {
        let rest = ids.drop_last();
        assert forall|w: int| 0 <= w < rest.len() implies adj_index(adjs, #[trigger] rest[w]) >= 0 by {
            assert(rest[w] == ids[w]);
        }
        lemma_discussion_sum_bounds(adjs, rest);
        assert(ids.last() == ids[ids.len() - 1]);
        lemma_adj_index(adjs, ids.last());
        let k = adj_index(adjs, ids.last());
        assert(-skill_limit() <= adjs[k].discussion_skill <= skill_limit());
    }
}

impl<'a> OptimizationState<'a> {
    /// The index of the adjudicator with the id.
    fn adjudicator_slot(&self, id: u128) -> (r: Option<usize>)
        ensures
            r is Some <==> adj_index(self.adjudicators@, id) >= 0,
            r matches Some(k) ==> k as int == adj_index(self.adjudicators@, id) && k < self.adjudicators.len(),
    {
        let ghost adjs = self.adjudicators@;
        proof {
            lemma_adj_index(adjs, id);
        }
        let mut i: usize = 0;
        while i < self.adjudicators.len()
            invariant
                i <= self.adjudicators.len(),
                adjs == self.adjudicators@,
                forall|k: int| 0 <= k < i ==> adjs[k].id != id,
            decreases self.adjudicators.len() - i,
        {
            if self.adjudicators[i].id == id {
                proof {
                    lemma_adj_index_first(adjs, id, i as int);
                }
                return Some(i);
            }
            i += 1;
        }
        None
    }

    /// What the issues of the adjudicator cost in the debate, with it added as
    /// a wing: none where one of its issues reaches the threshold.
    fn compute_clash_cost_in_debate(&self, adj_info: &AdjudicatorInfo, debate: &DebateInfo) -> (r: Option<i128>)
        ensures
            r matches Some(c) ==> clash_cost(self.evaluator, self.options.hard_clash_threshold, adj_info.id, debate@) == Some(
                c as int,
            ),
            r is None ==> clash_cost(self.evaluator, self.options.hard_clash_threshold, adj_info.id, debate@) is None,
            r matches Some(c) ==> 0 <= c <= 0x1_0000_0000_0000_0000_0000_0000,
    {
        let mut wings = copy_ids(&debate.wings);
        wings.push(adj_info.id);
        let extended = DebateInfo {
            id: debate.id,
            government: debate.government,
            opposition: debate.opposition,
            chair: debate.chair,
            wings,
            president: debate.president,
            non_aligned_speakers: copy_ids(&debate.non_aligned_speakers),
        };
        assert(extended@ == with_wing(debate@, adj_info.id));
        let scores = self.evaluator.find_issues_in_debate(&extended);
        let ghost own = own_issues(scores.view(), adj_info.id);
        let threshold = self.options.hard_clash_threshold;
        match scores.adjudicator_issues.get(&adj_info.id) {
            None => {
                assert(own =~= Seq::<IssueView>::empty());
                Some(0)
            },
            Some(issues) => {
                assert(own == issues_view(issues@));
                let mut total: i128 = 0;
                let mut i: usize = 0;
                while i < issues.len()
                    invariant
                        i <= issues.len(),
                        own == issues_view(issues@),
                        own == own_issues(
                            apply_events(empty_evaluation(), self.evaluator.debate_events(with_wing(debate@, adj_info.id))),
                            adj_info.id,
                        ),
                        threshold == self.options.hard_clash_threshold,
                        total as int == severity_total(own.take(i as int)),
                        forall|j: int| 0 <= j < i ==> (#[trigger] own[j]).severity < threshold,
                    decreases issues.len() - i,
                {
                    proof {
                        lemma_severity_total_bounds(own.take(i as int));
                        assert(own.take(i + 1).drop_last() =~= own.take(i as int));
                    }
                    if issues[i].severity as i32 >= threshold {
                        assert(own[i as int].severity >= threshold);
                        return None;
                    }
                    total = total + issues[i].severity as i128 * 100;
                    i += 1;
                }
                assert(own.take(issues.len() as int) =~= own);
                proof {
                    lemma_severity_total_bounds(own);
                }
                Some(total)
            },
        }
    }
}

proof fn lemma_adj_index_first(adjs: Seq<AdjudicatorInfo>, id: u128, i: int)
    requires
        0 <= i < adjs.len(),
        adjs[i].id == id,
        forall|k: int| 0 <= k < i ==> adjs[k].id != id,
    ensures
        adj_index(adjs, id) == i,
    decreases adjs.len(),
{
    if i < adjs.len() - 1 {
        lemma_adj_index_first(adjs.drop_last(), id, i);
    } else {
        lemma_adj_index(adjs.drop_last(), id);
        if adj_index(adjs.drop_last(), id) >= 0 {
            assert(adjs[adj_index(adjs.drop_last(), id)].id == id);
        }
    }
}

proof fn lemma_div_toward_zero_bound(a: int, n: int, l: int)
    requires
        n > 0,
        l >= 0,
        -(l * n) <= a <= l * n,
    ensures
        -l <= div_toward_zero(a, n) <= l,
{
    if a >= 0 {
        assert(a / n <= l) by (nonlinear_arith)
            requires
                n > 0,
                0 <= a <= l * n,
        ;
        assert(a / n >= 0) by (nonlinear_arith)
            requires
                n > 0,
                0 <= a,
        ;
    } else {
        assert((-a) / n <= l) by (nonlinear_arith)
            requires
                n > 0,
                0 <= -a <= l * n,
        ;
        assert((-a) / n >= 0) by (nonlinear_arith)
            requires
                n > 0,
                0 <= -a,
        ;
    }
}

impl<'a> OptimizationState<'a> {
    /// What chairing the debate costs the adjudicator, none where one of its
    /// issues there reaches the threshold.
    fn compute_adjudicator_chair_cost_in_debate(&self, adjudicator: u128, debate: &DebateInfo, is_silent_round: bool) -> (r:
        Option<i128>)
        requires
            self.wf(),
            adj_index(self.adjudicators@, adjudicator) >= 0,
        ensures
            ({
                let info = self.adjudicators@[adj_index(self.adjudicators@, adjudicator)];
                let expected = chair_cost(self.evaluator, self.options.hard_clash_threshold, info, debate@, is_silent_round);
                &&& r matches Some(c) ==> expected == Some(c as int)
                &&& r is None ==> expected is None
                &&& r matches Some(c) ==> -0x1_0000_0000 <= c <= 0x1_0000_0000_0000_0000_0000_0000 + 0x1_0000_0000
            }),
    {
        let k = self.adjudicator_slot(adjudicator).unwrap();
        let info = self.adjudicators[k];
        assert(-skill_limit() <= info.feedback_skill <= skill_limit());
        match self.compute_clash_cost_in_debate(&info, debate) {
            Some(c) => {
                let mut cost = c;
                if !is_silent_round {
                    cost = cost - info.feedback_skill as i128;
                }
                cost = cost - info.moderation_skill as i128;
                Some(cost)
            },
            None => None,
        }
    }

    /// The sum of the discussion skills of the wings.
    fn wing_skill_sum(&self, wings: &Vec<u128>) -> (sum: i128)
        requires
            self.wf(),
            forall|w: int| 0 <= w < wings.len() ==> adj_index(self.adjudicators@, #[trigger] wings@[w]) >= 0,
        ensures
            sum == discussion_sum(self.adjudicators@, wings@),
    {
        let ghost adjs = self.adjudicators@;
        let mut sum: i128 = 0;
        let mut i: usize = 0;
        while i < wings.len()
            invariant
                i <= wings.len(),
                adjs == self.adjudicators@,
                adjudicators_valid(adjs),
                forall|w: int| 0 <= w < wings.len() ==> adj_index(adjs, #[trigger] wings@[w]) >= 0,
                sum == discussion_sum(adjs, wings@.take(i as int)),
            decreases wings.len() - i,
        {
            let ghost prefix = wings@.take(i + 1);
            assert(prefix.drop_last() =~= wings@.take(i as int));
            assert forall|w: int| 0 <= w < prefix.len() implies adj_index(adjs, #[trigger] prefix[w]) >= 0 by {
                assert(prefix[w] == wings@[w]);
            }
            proof {
                lemma_discussion_sum_bounds(adjs, wings@.take(i as int));
            }
            let k = self.adjudicator_slot(wings[i]).unwrap();
            assert(-skill_limit() <= adjs[k as int].discussion_skill <= skill_limit());
            sum = sum + self.adjudicators[k].discussion_skill as i128;
            i += 1;
        }
        assert(wings@.take(wings.len() as int) =~= wings@);
        sum
    }

    /// What joining the debate as a wing costs the adjudicator, none where one
    /// of its issues there reaches the threshold.
    fn compute_wing_cost_in_debate(&self, adjudicator: u128, debate: &DebateInfo) -> (r: Option<i128>)
        requires
            self.wf(),
            adj_index(self.adjudicators@, adjudicator) >= 0,
            debate.chair matches Some(c) ==> adj_index(self.adjudicators@, c) >= 0,
            forall|w: int| 0 <= w < debate.wings.len() ==> adj_index(self.adjudicators@, #[trigger] debate.wings@[w]) >= 0,
        ensures
            ({
                let info = self.adjudicators@[adj_index(self.adjudicators@, adjudicator)];
                let expected = wing_cost(self.evaluator, self.options.hard_clash_threshold, self.adjudicators@, info, debate@);
                &&& r matches Some(c) ==> expected == Some(c as int)
                &&& r is None ==> expected is None
                &&& r matches Some(c) ==> -0x1_0000_0000 <= c <= 0x1_0000_0000_0000_0000_0000_0000 + 0x1_0000_0000
            }),
    {
        let ghost adjs = self.adjudicators@;
        let k = self.adjudicator_slot(adjudicator).unwrap();
        let info = self.adjudicators[k];
        assert(-skill_limit() <= info.discussion_skill <= skill_limit());
        match self.compute_clash_cost_in_debate(&info, debate) {
            Some(c) => {
                let mut cost = c;
                let n = debate.wings.len();
                let mean: i128 = if n > 0 {
                    let sum = self.wing_skill_sum(&debate.wings);
                    proof {
                        lemma_discussion_sum_bounds(adjs, debate.wings@);
                        lemma_div_toward_zero_bound(sum as int, n as int, skill_limit());
                    }
                    if sum >= 0 {
                        sum / (n as i128)
                    } else {
                        -((-sum) / (n as i128))
                    }
                } else {
                    0
                };
                assert(mean == mean_wing_skill(adjs, debate@));
                match debate.chair {
                    Some(ch) => {
                        let c_slot = self.adjudicator_slot(ch).unwrap();
                        assert(-skill_limit() <= adjs[c_slot as int].discussion_skill <= skill_limit());
                        cost = cost - (info.moderation_skill as i128 - self.adjudicators[c_slot].discussion_skill as i128);
                    },
                    None => {},
                }
                let diff = info.discussion_skill as i128 - mean;
                let distance = if diff < 0 {
                    -diff
                } else {
                    diff
                };
                cost = cost - distance;
                Some(cost)
            },
            None => None,
        }
    }
}

/// An edge of a flow graph: its start (none for the source), its end (none for
/// the sink), its capacity and its cost.
pub type FlowEdge = (Option<(u8, u128, u64)>, Option<(u8, u128, u64)>, i32, i32);

/// The node of an adjudicator.
pub open spec fn adjudicator_node(adj: u128) -> (u8, u128, u64) {
    (0u8, adj, 0u64)
}

/// The node through which an adjudicator takes its `i`-th chair.
pub open spec fn chair_frequency_node(adj: u128, i: int) -> (u8, u128, u64) {
    (1u8, adj, i as u64)
}

/// The node of an adjudicator's role in a round.
pub open spec fn round_role_node(adj: u128, r: int) -> (u8, u128, u64) {
    (2u8, adj, r as u64)
}

/// The node of a debate of a round.
pub open spec fn debate_node(r: int, d: int) -> (u8, u128, u64) {
    (3u8, r as u128, d as u64)
}

/// The edge lists one after another.
pub open spec fn concat_edges(s: Seq<Seq<FlowEdge>>) -> Seq<FlowEdge>
    decreases s.len(),
{
    if s.len() == 0 {
        Seq::empty()
    } else {
        concat_edges(s.drop_last()) + s.last()
    }
}

/// The edges through which an adjudicator takes chairs: the `i`-th chair comes
/// from the source at cost ten times `i`, one per round.
pub open spec fn frequency_edges(adj: u128, num_rounds: int) -> Seq<FlowEdge> {
    Seq::new(
        (2 * num_rounds) as nat,
        |j: int|
            if j % 2 == 0 {
                (None, Some(chair_frequency_node(adj, j / 2)), 1i32, (10 * (j / 2)) as i32)
            } else {
                (Some(chair_frequency_node(adj, j / 2)), Some(adjudicator_node(adj)), 1i32, 0i32)
            },
    )
}

/// The edges from the first `k` adjudicators that are unassigned in round `r`
/// to their role in it.
pub open spec fn free_role_edges(
    adjs: Seq<AdjudicatorInfo>,
    assignments: Seq<Seq<AdjudicatorPosition>>,
    r: int,
    k: int,
) -> Seq<FlowEdge>
    decreases k,
{
    if k <= 0 {
        Seq::empty()
    } else {
        free_role_edges(adjs, assignments, r, k - 1) + if assignments[k - 1][r] == AdjudicatorPosition::Unassigned {
            seq![(Some(adjudicator_node(adjs[k - 1].id)), Some(round_role_node(adjs[k - 1].id, r)), 1i32, 0i32)]
        } else {
            Seq::empty()
        }
    }
}

/// The debates of the first `k` debates of round `r` without a chair.
pub open spec fn unchaired_in(debates: Seq<DebateView>, r: int, k: int) -> Seq<(int, int)>
    decreases k,
{
    if k <= 0 {
        Seq::empty()
    } else {
        unchaired_in(debates, r, k - 1) + if debates[k - 1].chair is None {
            seq![(r, k - 1)]
        } else {
            Seq::empty()
        }
    }
}

/// The debates without a chair in the first `k` rounds, round by round.
pub open spec fn unchaired(rounds: Seq<RoundView>, k: int) -> Seq<(int, int)>
    decreases k,
{
    if k <= 0 {
        Seq::empty()
    } else {
        unchaired(rounds, k - 1) + unchaired_in(rounds[k - 1].debates, k - 1, rounds[k - 1].debates.len() as int)
    }
}

/// The edges from the roles of the first `k` adjudicators in round `r` to the
/// debate, for those that may chair it, at the cost of chairing it.
pub open spec fn chair_candidate_edges(
    ev: &DrawEvaluator,
    threshold: i32,
    adjs: Seq<AdjudicatorInfo>,
    round: RoundView,
    r: int,
    d: int,
    k: int,
) -> Seq<FlowEdge>
    decreases k,
{
    if k <= 0 {
        Seq::empty()
    } else {
        chair_candidate_edges(ev, threshold, adjs, round, r, d, k - 1) + match chair_cost(
            ev,
            threshold,
            adjs[k - 1],
            round.debates[d],
            round.is_silent,
        ) {
            Some(c) => seq![(Some(round_role_node(adjs[k - 1].id, r)), Some(debate_node(r, d)), 1i32, c as i32)],
            None => Seq::empty(),
        }
    }
}

/// The graph of the chair assignment: chair frequencies per adjudicator, the
/// roles of the unassigned adjudicators, the chair candidates of each debate
/// without a chair, and an edge from each such debate to the sink. Costs
/// outside `i32` are taken modulo 2^32.
pub open spec fn chair_graph(v: AllocationView, adjs: Seq<AdjudicatorInfo>, ev: &DrawEvaluator, threshold: i32) -> Seq<
    FlowEdge,
> {
    let open = unchaired(v.rounds, v.rounds.len() as int);
    concat_edges(Seq::new(adjs.len(), |a: int| frequency_edges(adjs[a].id, v.rounds.len() as int))) + concat_edges(
        Seq::new(v.rounds.len(), |r: int| free_role_edges(adjs, v.assignments, r, adjs.len() as int)),
    ) + concat_edges(
        Seq::new(
            open.len(),
            |t: int|
                chair_candidate_edges(
                    ev,
                    threshold,
                    adjs,
                    v.rounds[open[t].0],
                    open[t].0,
                    open[t].1,
                    adjs.len() as int,
                ),
        ),
    ) + Seq::new(open.len(), |t: int| (Some(debate_node(open[t].0, open[t].1)), None::<(u8, u128, u64)>, 1i32, 0i32))
}

/// One flow of the chair assignment applied: a positive flow from the role of
/// a known adjudicator in a round to a debate of that round makes it the
/// debate's chair.
pub open spec fn apply_chair_flow(
    v: AllocationView,
    adjs: Seq<AdjudicatorInfo>,
    f: (Option<(u8, u128, u64)>, Option<(u8, u128, u64)>, u32),
) -> AllocationView {
    match f {
        (Some(ka), Some(kb), amount) => {
            let k = adj_index(adjs, ka.1);
            let r = ka.2 as int;
            let d = kb.2 as int;
            if amount > 0 && ka.0 == 2 && kb.0 == 3 && k >= 0 && r < v.rounds.len() && d < v.rounds[r].debates.len() {
                AllocationView {
                    rounds: v.rounds.update(
                        r,
                        RoundView {
                            debates: v.rounds[r].debates.update(d, DebateView { chair: Some(ka.1), ..v.rounds[r].debates[d] }),
                            ..v.rounds[r]
                        },
                    ),
                    assignments: v.assignments.update(
                        k,
                        v.assignments[k].update(r, AdjudicatorPosition::Chair { debate_idx: d as usize }),
                    ),
                }
            } else {
                v
            }
        },
        _ => v,
    }
}

/// The flows of the chair assignment applied in order.
pub open spec fn apply_chair_flows(
    v: AllocationView,
    adjs: Seq<AdjudicatorInfo>,
    flows: Seq<(Option<(u8, u128, u64)>, Option<(u8, u128, u64)>, u32)>,
) -> AllocationView
    decreases flows.len(),
{
    if flows.len() == 0 {
        v
    } else {
        apply_chair_flow(apply_chair_flows(v, adjs, flows.drop_last()), adjs, flows.last())
    }
}

/// Whether every debate whose chair the flows change had none before, and
/// its chair is an adjudicator that may chair it: none of its issues there
/// reaches the threshold, as `chair_cost` has it in the allocation `v`
/// before the flows.
pub open spec fn new_chairs_may_chair(
    v: AllocationView,
    w: AllocationView,
    adjs: Seq<AdjudicatorInfo>,
    ev: &DrawEvaluator,
    threshold: i32,
) -> bool {
    forall|r: int, d: int|
        0 <= r < v.rounds.len() && 0 <= d < v.rounds[r].debates.len() && #[trigger] w.rounds[r].debates[d].chair
            != v.rounds[r].debates[d].chair ==> v.rounds[r].debates[d].chair is None && exists|k: int|
            0 <= k < adjs.len() && w.rounds[r].debates[d].chair == Some(adjs[k].id) && (#[trigger] chair_cost(
                ev,
                threshold,
                adjs[k],
                v.rounds[r].debates[d],
                v.rounds[r].is_silent,
            )) is Some
}

/// The debate with the given chair.
pub open spec fn with_chair(d: DebateView, chair: Option<u128>) -> DebateView {
    DebateView { chair: chair, ..d }
}

/// Whether `w` differs from `v` in the chairs of debates and in the
/// positions alone: the same rounds, debates, teams, wings and speakers.
pub open spec fn only_chairs_change(v: AllocationView, w: AllocationView) -> bool {
    &&& w.rounds.len() == v.rounds.len()
    &&& forall|r: int| 0 <= r < v.rounds.len() ==> (#[trigger] w.rounds[r]) == RoundView { debates: w.rounds[r].debates, ..v.rounds[r] }
    &&& forall|r: int| 0 <= r < v.rounds.len() ==> (#[trigger] w.rounds[r]).debates.len() == v.rounds[r].debates.len()
    &&& forall|r: int, d: int|
        0 <= r < v.rounds.len() && 0 <= d < v.rounds[r].debates.len() ==> #[trigger] w.rounds[r].debates[d] == with_chair(
            v.rounds[r].debates[d],
            w.rounds[r].debates[d].chair,
        )
}

proof fn lemma_chair_flows_keep_rest(
    v: AllocationView,
    adjs: Seq<AdjudicatorInfo>,
    flows: Seq<(Option<(u8, u128, u64)>, Option<(u8, u128, u64)>, u32)>,
)
    ensures
        only_chairs_change(v, apply_chair_flows(v, adjs, flows)),
    decreases flows.len(),
{
    if flows.len() > 0 {
        lemma_chair_flows_keep_rest(v, adjs, flows.drop_last());
        let w = apply_chair_flows(v, adjs, flows.drop_last());
        let w2 = apply_chair_flows(v, adjs, flows);
        assert forall|r: int| 0 <= r < v.rounds.len() implies (#[trigger] w2.rounds[r]) == RoundView {
            debates: w2.rounds[r].debates,
            ..v.rounds[r]
        } && w2.rounds[r].debates.len() == v.rounds[r].debates.len() by {
            assert(w.rounds[r] == RoundView { debates: w.rounds[r].debates, ..v.rounds[r] });
        }
        assert forall|r: int, d: int| 0 <= r < v.rounds.len() && 0 <= d < v.rounds[r].debates.len() implies #[trigger] w2.rounds[r].debates[d]
            == with_chair(v.rounds[r].debates[d], w2.rounds[r].debates[d].chair) by {
            assert(w.rounds[r].debates[d] == with_chair(v.rounds[r].debates[d], w.rounds[r].debates[d].chair));
        }
    }
}

proof fn lemma_concat_member(s: Seq<Seq<FlowEdge>>, e: int)
    requires
        0 <= e < concat_edges(s).len(),
    ensures
        exists|a: int, i: int| 0 <= a < s.len() && 0 <= i < s[a].len() && concat_edges(s)[e] == #[trigger] s[a][i],
    decreases s.len(),
{
    let rest = concat_edges(s.drop_last());
    if e < rest.len() {
        lemma_concat_member(s.drop_last(), e);
        let (a, i) = choose|a: int, i: int|
            0 <= a < s.drop_last().len() && 0 <= i < s.drop_last()[a].len() && rest[e] == #[trigger] s.drop_last()[a][i];
        assert(s[a][i] == s.drop_last()[a][i]);
    } else {
        assert(concat_edges(s)[e] == s[s.len() - 1][e - rest.len()]);
    }
}

proof fn lemma_free_role_edge_start(adjs: Seq<AdjudicatorInfo>, assignments: Seq<Seq<AdjudicatorPosition>>, r: int, k: int, i: int)
    requires
        0 <= i < free_role_edges(adjs, assignments, r, k).len(),
    ensures
        free_role_edges(adjs, assignments, r, k)[i].0 matches Some(x) && x.0 == 0,
    decreases k,
{
    if k > 0 {
        let rest = free_role_edges(adjs, assignments, r, k - 1);
        if i < rest.len() {
            lemma_free_role_edge_start(adjs, assignments, r, k - 1, i);
        }
    }
}

proof fn lemma_candidate_edge(
    ev: &DrawEvaluator,
    threshold: i32,
    adjs: Seq<AdjudicatorInfo>,
    round: RoundView,
    r: int,
    d: int,
    k: int,
    i: int,
)
    requires
        0 <= i < chair_candidate_edges(ev, threshold, adjs, round, r, d, k).len(),
        k <= adjs.len(),
    ensures
        exists|j: int|
            0 <= j < k && chair_candidate_edges(ev, threshold, adjs, round, r, d, k)[i].0 == Some(
                round_role_node(adjs[j].id, r),
            ) && chair_candidate_edges(ev, threshold, adjs, round, r, d, k)[i].1 == Some(debate_node(r, d)) && (#[trigger] chair_cost(
                ev,
                threshold,
                adjs[j],
                round.debates[d],
                round.is_silent,
            )) is Some,
    decreases k,
{
    if k > 0 {
        let rest = chair_candidate_edges(ev, threshold, adjs, round, r, d, k - 1);
        if i < rest.len() {
            lemma_candidate_edge(ev, threshold, adjs, round, r, d, k - 1, i);
        } else {
            assert(chair_cost(ev, threshold, adjs[k - 1], round.debates[d], round.is_silent) is Some);
        }
    }
}

/// An edge of the chair graph from an adjudicator's role in a round to a
/// debate is one of the debate's chair candidates.
proof fn lemma_chair_graph_role_edge(
    v: AllocationView,
    adjs: Seq<AdjudicatorInfo>,
    ev: &DrawEvaluator,
    threshold: i32,
    e: int,
)
    requires
        0 <= e < chair_graph(v, adjs, ev, threshold).len(),
        chair_graph(v, adjs, ev, threshold)[e].0 matches Some(x) && x.0 == 2,
        chair_graph(v, adjs, ev, threshold)[e].1 matches Some(y) && y.0 == 3,
        v.rounds.len() <= u64::MAX,
        forall|r: int| 0 <= r < v.rounds.len() ==> (#[trigger] v.rounds[r]).debates.len() <= u64::MAX,
    ensures
        ({
            let edge = chair_graph(v, adjs, ev, threshold)[e];
            exists|k: int, r: int, d: int|
                0 <= k < adjs.len() && 0 <= r < v.rounds.len() && 0 <= d < v.rounds[r].debates.len()
                    && v.rounds[r].debates[d].chair is None && edge.0 == Some(
                    round_role_node(adjs[k].id, r),
                ) && edge.1 == Some(debate_node(r, d)) && (#[trigger] chair_cost(
                    ev,
                    threshold,
                    adjs[k],
                    v.rounds[r].debates[d],
                    v.rounds[r].is_silent,
                )) is Some
        }),
{
    let nr = v.rounds.len() as int;
    let open = unchaired(v.rounds, nr);
    let fa = Seq::new(adjs.len(), |a: int| frequency_edges(adjs[a].id, nr));
    let fr = Seq::new(v.rounds.len(), |r: int| free_role_edges(adjs, v.assignments, r, adjs.len() as int));
    let fc = Seq::new(
        open.len(),
        |t: int| chair_candidate_edges(ev, threshold, adjs, v.rounds[open[t].0], open[t].0, open[t].1, adjs.len() as int),
    );
    let sinks = Seq::new(open.len(), |t: int| (Some(debate_node(open[t].0, open[t].1)), None::<(u8, u128, u64)>, 1i32, 0i32));
    let g = chair_graph(v, adjs, ev, threshold);
    let a_len = concat_edges(fa).len();
    let b_len = concat_edges(fr).len();
    let c_len = concat_edges(fc).len();
    assert(g == concat_edges(fa) + concat_edges(fr) + concat_edges(fc) + sinks);
    if e < a_len {
        lemma_concat_member(fa, e);
        let (a, i) = choose|a: int, i: int| 0 <= a < fa.len() && 0 <= i < fa[a].len() && concat_edges(fa)[e] == #[trigger] fa[a][i];
        assert(g[e] == fa[a][i]);
        assert(false);
    } else if e < a_len + b_len {
        lemma_concat_member(fr, e - a_len);
        let (a, i) = choose|a: int, i: int|
            0 <= a < fr.len() && 0 <= i < fr[a].len() && concat_edges(fr)[e - a_len] == #[trigger] fr[a][i];
        lemma_free_role_edge_start(adjs, v.assignments, a, adjs.len() as int, i);
        assert(g[e] == fr[a][i]);
        assert(false);
    } else if e < a_len + b_len + c_len {
        lemma_concat_member(fc, e - a_len - b_len);
        let (t, i) = choose|t: int, i: int|
            0 <= t < fc.len() && 0 <= i < fc[t].len() && concat_edges(fc)[e - a_len - b_len] == #[trigger] fc[t][i];
        assert(g[e] == fc[t][i]);
        lemma_unchaired_in_range(v.rounds, nr);
        let r = open[t].0;
        let d = open[t].1;
        assert(0 <= r < nr && 0 <= d < v.rounds[r].debates.len() && v.rounds[r].debates[d].chair is None);
        lemma_candidate_edge(ev, threshold, adjs, v.rounds[r], r, d, adjs.len() as int, i);
    } else {
        assert(g[e] == sinks[e - a_len - b_len - c_len]);
        assert(false);
    }
}

/// The chairs that flows along the edges of the chair graph set are chair
/// candidates of their debates.
proof fn lemma_chair_flows_follow_candidates(
    v: AllocationView,
    adjs: Seq<AdjudicatorInfo>,
    ev: &DrawEvaluator,
    threshold: i32,
    flows: Seq<(Option<(u8, u128, u64)>, Option<(u8, u128, u64)>, u32)>,
)
    requires
        flows_follow_edges(flows, chair_graph(v, adjs, ev, threshold)),
        v.rounds.len() <= u64::MAX,
        forall|r: int| 0 <= r < v.rounds.len() ==> (#[trigger] v.rounds[r]).debates.len() <= u64::MAX,
    ensures
        new_chairs_may_chair(v, apply_chair_flows(v, adjs, flows), adjs, ev, threshold),
        apply_chair_flows(v, adjs, flows).rounds.len() == v.rounds.len(),
        forall|r: int| 0 <= r < v.rounds.len() ==> (#[trigger] apply_chair_flows(v, adjs, flows).rounds[r]).debates.len()
            == v.rounds[r].debates.len(),
    decreases flows.len(),
{
    if flows.len() > 0 {
        let prefix = flows.drop_last();
        let g = chair_graph(v, adjs, ev, threshold);
        assert(flows_follow_edges(prefix, g)) by {
            assert forall|k: int| 0 <= k < prefix.len() implies runs_along_edge(#[trigger] prefix[k], g) by {
                assert(prefix[k] == flows[k]);
            }
        }
        lemma_chair_flows_follow_candidates(v, adjs, ev, threshold, prefix);
        let w = apply_chair_flows(v, adjs, prefix);
        let f = flows.last();
        let w2 = apply_chair_flows(v, adjs, flows);
        assert(w2 == apply_chair_flow(w, adjs, f));
        match f {
            (Some(ka), Some(kb), amount) => {
                let k = adj_index(adjs, ka.1);
                let r = ka.2 as int;
                let d = kb.2 as int;
                if amount > 0 && ka.0 == 2 && kb.0 == 3 && k >= 0 && r < w.rounds.len() && d < w.rounds[r].debates.len() {
                    assert(flows[flows.len() - 1] == f);
                    assert(runs_along_edge(flows[flows.len() - 1], g));
                    let e = choose|e: int| 0 <= e < g.len() && (#[trigger] g[e]).0 == f.0 && g[e].1 == f.1;
                    assert(flows[flows.len() - 1] == f);
                    lemma_chair_graph_role_edge(v, adjs, ev, threshold, e);
                    let (k2, r2, d2) = choose|k2: int, r2: int, d2: int|
                        0 <= k2 < adjs.len() && 0 <= r2 < v.rounds.len() && 0 <= d2 < v.rounds[r2].debates.len()
                            && v.rounds[r2].debates[d2].chair is None && g[e].0 == Some(
                            round_role_node(adjs[k2].id, r2),
                        ) && g[e].1 == Some(debate_node(r2, d2)) && (#[trigger] chair_cost(
                            ev,
                            threshold,
                            adjs[k2],
                            v.rounds[r2].debates[d2],
                            v.rounds[r2].is_silent,
                        )) is Some;
                    assert(r == r2);
                    assert(d == d2);
                    assert(ka.1 == adjs[k2].id);
                    assert forall|r3: int, d3: int|
                        0 <= r3 < v.rounds.len() && 0 <= d3 < v.rounds[r3].debates.len() && #[trigger] w2.rounds[r3].debates[d3].chair
                            != v.rounds[r3].debates[d3].chair implies v.rounds[r3].debates[d3].chair is None && exists|k3: int|
                        0 <= k3 < adjs.len() && w2.rounds[r3].debates[d3].chair == Some(adjs[k3].id) && (#[trigger] chair_cost(
                            ev,
                            threshold,
                            adjs[k3],
                            v.rounds[r3].debates[d3],
                            v.rounds[r3].is_silent,
                        )) is Some by {
                        if r3 == r && d3 == d {
                            assert(w2.rounds[r3].debates[d3].chair == Some(ka.1));
                        } else {
                            assert(w2.rounds[r3].debates[d3] == w.rounds[r3].debates[d3]);
                        }
                    }
                }
            },
            _ => {},
        }
    }
}

proof fn lemma_concat_step(s: Seq<Seq<FlowEdge>>, k: int)
    requires
        0 <= k < s.len(),
    ensures
        concat_edges(s.take(k + 1)) == concat_edges(s.take(k)) + s[k],
{
    assert(s.take(k + 1).drop_last() =~= s.take(k));
}

impl<'a> OptimizationState<'a> {
    /// Adds the chair frequency edges of every adjudicator.
    fn add_frequency_edges(&self, g: &mut GraphBuilder<(u8, u128, u64)>)
        requires
            self.wf(),
        ensures
            flow_graph_edges(*final(g)) == flow_graph_edges(*old(g)) + concat_edges(
                Seq::new(self.adjudicators@.len(), |a: int| frequency_edges(self.adjudicators@[a].id, self.rounds@.len() as int)),
            ),
    {
        let ghost start = flow_graph_edges(*g);
        let ghost nr = self.rounds@.len() as int;
        let ghost all = Seq::new(self.adjudicators@.len(), |a: int| frequency_edges(self.adjudicators@[a].id, nr));
        let mut a: usize = 0;
        while a < self.adjudicators.len()
            invariant
                a <= self.adjudicators.len(),
                nr == self.rounds@.len(),
                all == Seq::new(self.adjudicators@.len(), |a: int| frequency_edges(self.adjudicators@[a].id, nr)),
                flow_graph_edges(*g) == start + concat_edges(all.take(a as int)),
            decreases self.adjudicators.len() - a,
        {
            let id = self.adjudicators[a].id;
            let ghost row = frequency_edges(id, nr);
            let ghost before = flow_graph_edges(*g);
            let mut i: usize = 0;
            while i < self.rounds.len()
                invariant
                    i <= self.rounds.len(),
                    nr == self.rounds@.len(),
                    row == frequency_edges(id, nr),
                    flow_graph_edges(*g) == before + row.take(2 * i),
                decreases self.rounds.len() - i,
            {
                let node = (1u8, id, i as u64);
                let cost = #[verifier::truncate] ((i as i128 * 10) as i32);
                add_flow_edge(g, None, Some(node), 1, cost);
                add_flow_edge(g, Some(node), Some((0u8, id, 0u64)), 1, 0);
                assert((2 * i) / 2 == i && (2 * i) % 2 == 0 && (2 * i + 1) / 2 == i && (2 * i + 1) % 2 == 1);
                assert(row.take(2 * i + 2) =~= row.take(2 * i).push(row[2 * i]).push(row[2 * i + 1]));
                i += 1;
            }
            assert(row.take(2 * nr) =~= row);
            proof {
                lemma_concat_step(all, a as int);
            }
            a += 1;
        }
        assert(all.take(self.adjudicators@.len() as int) =~= all);
    }

    /// Adds, round by round, an edge from each unassigned adjudicator to its
    /// role in the round.
    fn add_role_edges(&self, g: &mut GraphBuilder<(u8, u128, u64)>)
        requires
            self.wf(),
        ensures
            flow_graph_edges(*final(g)) == flow_graph_edges(*old(g)) + concat_edges(
                Seq::new(
                    self.rounds@.len(),
                    |r: int| free_role_edges(self.adjudicators@, self.allocation().assignments, r, self.adjudicators@.len() as int),
                ),
            ),
    {
        let ghost start = flow_graph_edges(*g);
        let ghost adjs = self.adjudicators@;
        let ghost asg = self.allocation().assignments;
        let ghost all = Seq::new(self.rounds@.len(), |r: int| free_role_edges(adjs, asg, r, adjs.len() as int));
        let mut r: usize = 0;
        while r < self.rounds.len()
            invariant
                r <= self.rounds.len(),
                self.wf(),
                adjs == self.adjudicators@,
                asg == self.allocation().assignments,
                all == Seq::new(self.rounds@.len(), |r: int| free_role_edges(adjs, asg, r, adjs.len() as int)),
                flow_graph_edges(*g) == start + concat_edges(all.take(r as int)),
            decreases self.rounds.len() - r,
        {
            let ghost before = flow_graph_edges(*g);
            let mut a: usize = 0;
            while a < self.adjudicators.len()
                invariant
                    a <= self.adjudicators.len(),
                    r < self.rounds.len(),
                    self.wf(),
                    adjs == self.adjudicators@,
                    asg == self.allocation().assignments,
                    flow_graph_edges(*g) == before + free_role_edges(adjs, asg, r as int, a as int),
                decreases self.adjudicators.len() - a,
            {
                assert(asg[a as int].len() == self.rounds@.len());
                assert(asg[a as int][r as int] == self.assignments@[a as int]@[r as int]);
                if self.assignments[a][r] == AdjudicatorPosition::Unassigned {
                    let id = self.adjudicators[a].id;
                    add_flow_edge(g, Some((0u8, id, 0u64)), Some((2u8, id, r as u64)), 1, 0);
                }
                a += 1;
            }
            proof {
                lemma_concat_step(all, r as int);
            }
            r += 1;
        }
        assert(all.take(self.rounds@.len() as int) =~= all);
    }

    /// The debates without a chair, round by round.
    fn unchaired_debates(&self) -> (t: Vec<(usize, usize)>)
        ensures
            t@.len() == unchaired(self.allocation().rounds, self.rounds@.len() as int).len(),
            forall|i: int| 0 <= i < t@.len() ==> ((#[trigger] t@[i]).0 as int, t@[i].1 as int) == unchaired(
                self.allocation().rounds,
                self.rounds@.len() as int,
            )[i],
    {
        let ghost rv = self.allocation().rounds;
        let mut t: Vec<(usize, usize)> = Vec::new();
        let mut r: usize = 0;
        while r < self.rounds.len()
            invariant
                r <= self.rounds.len(),
                rv == self.allocation().rounds,
                t@.len() == unchaired(rv, r as int).len(),
                forall|i: int| 0 <= i < t@.len() ==> ((#[trigger] t@[i]).0 as int, t@[i].1 as int) == unchaired(rv, r as int)[i],
            decreases self.rounds.len() - r,
        {
            let debates = &self.rounds[r].debates;
            let ghost dv = rv[r as int].debates;
            let ghost base = unchaired(rv, r as int);
            assert(dv == debates_view(debates@));
            let mut d: usize = 0;
            while d < debates.len()
                invariant
                    d <= debates.len(),
                    dv == debates_view(debates@),
                    t@.len() == base.len() + unchaired_in(dv, r as int, d as int).len(),
                    forall|i: int| 0 <= i < t@.len() ==> ((#[trigger] t@[i]).0 as int, t@[i].1 as int) == (base + unchaired_in(
                        dv,
                        r as int,
                        d as int,
                    ))[i],
                decreases debates.len() - d,
            {
                if debates[d].chair.is_none() {
                    t.push((r, d));
                }
                d += 1;
            }
            r += 1;
        }
        t
    }
}

impl<'a> OptimizationState<'a> {
    /// Adds, for each listed debate, an edge from the role of every adjudicator
    /// that may chair it to the debate.
    #[verifier::spinoff_prover]
    fn add_candidate_edges(&self, g: &mut GraphBuilder<(u8, u128, u64)>, targets: &Vec<(usize, usize)>)
        requires
            self.wf(),
            forall|i: int| 0 <= i < targets@.len() ==> ((#[trigger] targets@[i]).0 as int, targets@[i].1 as int) == unchaired(
                self.allocation().rounds,
                self.rounds@.len() as int,
            )[i],
            targets@.len() == unchaired(self.allocation().rounds, self.rounds@.len() as int).len(),
        ensures
            ({
                let v = self.allocation();
                let open = unchaired(v.rounds, v.rounds.len() as int);
                flow_graph_edges(*final(g)) == flow_graph_edges(*old(g)) + concat_edges(
                    Seq::new(
                        open.len(),
                        |t: int|
                            chair_candidate_edges(
                                self.evaluator,
                                self.options.hard_clash_threshold,
                                self.adjudicators@,
                                v.rounds[open[t].0],
                                open[t].0,
                                open[t].1,
                                self.adjudicators@.len() as int,
                            ),
                    ),
                )
            }),
    {
        let ghost v = self.allocation();
        let ghost adjs = self.adjudicators@;
        let ghost open = unchaired(v.rounds, v.rounds.len() as int);
        let ghost th = self.options.hard_clash_threshold;
        let ghost all = Seq::new(
            open.len(),
            |t: int| chair_candidate_edges(self.evaluator, th, adjs, v.rounds[open[t].0], open[t].0, open[t].1, adjs.len() as int),
        );
        proof {
            lemma_unchaired_in_range(v.rounds, v.rounds.len() as int);
        }
        let ghost start = flow_graph_edges(*g);
        let mut t: usize = 0;
        while t < targets.len()
            invariant
                t <= targets.len(),
                self.wf(),
                v == self.allocation(),
                adjs == self.adjudicators@,
                th == self.options.hard_clash_threshold,
                open == unchaired(v.rounds, v.rounds.len() as int),
                targets@.len() == open.len(),
                forall|i: int| 0 <= i < targets@.len() ==> ((#[trigger] targets@[i]).0 as int, targets@[i].1 as int) == open[i],
                forall|i: int| 0 <= i < open.len() ==> 0 <= (#[trigger] open[i]).0 < v.rounds.len() && 0 <= open[i].1
                    < v.rounds[open[i].0].debates.len(),
                all == Seq::new(
                    open.len(),
                    |t: int| chair_candidate_edges(self.evaluator, th, adjs, v.rounds[open[t].0], open[t].0, open[t].1, adjs.len() as int),
                ),
                flow_graph_edges(*g) == start + concat_edges(all.take(t as int)),
            decreases targets.len() - t,
        {
            let (r, d) = targets[t];
            assert(open[t as int] == (r as int, d as int));
            self.add_debate_candidates(g, r, d);
            assert(all[t as int] == chair_candidate_edges(self.evaluator, th, adjs, v.rounds[r as int], r as int, d as int, adjs.len() as int));
            proof {
                lemma_concat_step(all, t as int);
            }
            t += 1;
        }
        assert(all.take(targets.len() as int) =~= all);
    }

    /// Adds an edge from each listed debate to the sink.
    fn add_sink_edges(&self, g: &mut GraphBuilder<(u8, u128, u64)>, targets: &Vec<(usize, usize)>)
        ensures
            flow_graph_edges(*final(g)) == flow_graph_edges(*old(g)) + Seq::new(
                targets@.len(),
                |t: int| (Some(debate_node(targets@[t].0 as int, targets@[t].1 as int)), None::<(u8, u128, u64)>, 1i32, 0i32),
            ),
    {
        let ghost start = flow_graph_edges(*g);
        let ghost all = Seq::new(
            targets@.len(),
            |t: int| (Some(debate_node(targets@[t].0 as int, targets@[t].1 as int)), None::<(u8, u128, u64)>, 1i32, 0i32),
        );
        let mut t: usize = 0;
        while t < targets.len()
            invariant
                t <= targets.len(),
                all == Seq::new(
                    targets@.len(),
                    |t: int| (Some(debate_node(targets@[t].0 as int, targets@[t].1 as int)), None::<(u8, u128, u64)>, 1i32, 0i32),
                ),
                flow_graph_edges(*g) == start + all.take(t as int),
            decreases targets.len() - t,
        {
            let (r, d) = targets[t];
            add_flow_edge(g, Some((3u8, r as u128, d as u64)), None, 1, 0);
            assert(all.take(t + 1) =~= all.take(t as int).push(all[t as int]));
            t += 1;
        }
        assert(all.take(targets.len() as int) =~= all);
    }
}

impl<'a> OptimizationState<'a> {
    /// Adds an edge from the role of every adjudicator that may chair the
    /// debate to it.
    fn add_debate_candidates(&self, g: &mut GraphBuilder<(u8, u128, u64)>, r: usize, d: usize)
        requires
            self.wf(),
            r < self.rounds.len(),
            d < self.rounds@[r as int].debates.len(),
        ensures
            flow_graph_edges(*final(g)) == flow_graph_edges(*old(g)) + chair_candidate_edges(
                self.evaluator,
                self.options.hard_clash_threshold,
                self.adjudicators@,
                self.allocation().rounds[r as int],
                r as int,
                d as int,
                self.adjudicators@.len() as int,
            ),
    {
        let round = &self.rounds[r];
        let debate = &round.debates[d];
        let ghost adjs = self.adjudicators@;
        let ghost th = self.options.hard_clash_threshold;
        let ghost rv = self.allocation().rounds[r as int];
        assert(rv == round@);
        assert(rv.debates[d as int] == debate@);
        let ghost before = flow_graph_edges(*g);
        let mut a: usize = 0;
        while a < self.adjudicators.len()
            invariant
                a <= self.adjudicators.len(),
                self.wf(),
                adjs == self.adjudicators@,
                th == self.options.hard_clash_threshold,
                rv == round@,
                d < rv.debates.len(),
                rv.debates[d as int] == debate@,
                flow_graph_edges(*g) == before + chair_candidate_edges(self.evaluator, th, adjs, rv, r as int, d as int, a as int),
            decreases self.adjudicators.len() - a,
        {
            let id = self.adjudicators[a].id;
            proof {
                lemma_adj_index_of(adjs, a as int);
            }
            match self.compute_adjudicator_chair_cost_in_debate(id, debate, round.is_silent) {
                Some(c) => {
                    let cost = #[verifier::truncate] (c as i32);
                    add_flow_edge(g, Some((2u8, id, r as u64)), Some((3u8, r as u128, d as u64)), 1, cost);
                },
                None => {},
            }
            a += 1;
        }
    }
}

proof fn lemma_unchaired_in_range(rounds: Seq<RoundView>, k: int)
    requires
        0 <= k <= rounds.len(),
    ensures
        forall|i: int| 0 <= i < unchaired(rounds, k).len() ==> 0 <= (#[trigger] unchaired(rounds, k)[i]).0 < k && 0
            <= unchaired(rounds, k)[i].1 < rounds[unchaired(rounds, k)[i].0].debates.len()
            && rounds[unchaired(rounds, k)[i].0].debates[unchaired(rounds, k)[i].1].chair is None,
    decreases k,
{
    if k > 0 {
        lemma_unchaired_in_range(rounds, k - 1);
        lemma_unchaired_in_in_range(rounds[k - 1].debates, k - 1, rounds[k - 1].debates.len() as int);
        let u = unchaired(rounds, k);
        let p = unchaired(rounds, k - 1);
        let q = unchaired_in(rounds[k - 1].debates, k - 1, rounds[k - 1].debates.len() as int);
        assert forall|i: int| 0 <= i < u.len() implies 0 <= (#[trigger] u[i]).0 < k && 0 <= u[i].1 < rounds[u[i].0].debates.len()
            && rounds[u[i].0].debates[u[i].1].chair is None by {
            if i < p.len() {
                assert(u[i] == p[i]);
            } else {
                assert(u[i] == q[i - p.len()]);
            }
        }
    }
}

proof fn lemma_unchaired_in_in_range(debates: Seq<DebateView>, r: int, k: int)
    requires
        0 <= k <= debates.len(),
    ensures
        forall|i: int| 0 <= i < unchaired_in(debates, r, k).len() ==> (#[trigger] unchaired_in(debates, r, k)[i]).0 == r
            && 0 <= unchaired_in(debates, r, k)[i].1 < k && debates[unchaired_in(debates, r, k)[i].1].chair is None,
    decreases k,
{
    if k > 0 {
        lemma_unchaired_in_in_range(debates, r, k - 1);
        let u = unchaired_in(debates, r, k);
        let p = unchaired_in(debates, r, k - 1);
        assert forall|i: int| 0 <= i < u.len() implies (#[trigger] u[i]).0 == r && 0 <= u[i].1 < k && debates[u[i].1].chair is None by {
            if i < p.len() {
                assert(u[i] == p[i]);
            }
        }
    }
}

impl<'a> OptimizationState<'a> {
    /// Makes the adjudicator the chair of the debate.
    fn set_chair(&mut self, k: usize, r: usize, d: usize, adj: u128)
        requires
            old(self).wf(),
            k < old(self).adjudicators.len(),
            r < old(self).rounds.len(),
            d < old(self).rounds@[r as int].debates.len(),
            adj == old(self).adjudicators@[k as int].id,
        ensures
            final(self).wf(),
            final(self).adjudicators@ == old(self).adjudicators@,
            final(self).options == old(self).options,
            final(self).evaluator == old(self).evaluator,
            final(self).rounds.len() == old(self).rounds.len(),
            ({
                let v = old(self).allocation();
                final(self).allocation() == AllocationView {
                    rounds: v.rounds.update(
                        r as int,
                        RoundView {
                            debates: v.rounds[r as int].debates.update(
                                d as int,
                                DebateView { chair: Some(adj), ..v.rounds[r as int].debates[d as int] },
                            ),
                            ..v.rounds[r as int]
                        },
                    ),
                    assignments: v.assignments.update(
                        k as int,
                        v.assignments[k as int].update(r as int, AdjudicatorPosition::Chair { debate_idx: d }),
                    ),
                }
            }),
    {
        let ghost v = self.allocation();
        assert(v.assignments[k as int].len() == self.rounds@.len());
        self.assignments[k][r] = AdjudicatorPosition::Chair { debate_idx: d };
        self.rounds[r].debates[d].chair = Some(adj);
        let ghost w = self.allocation();
        let ghost expected_round = RoundView {
            debates: v.rounds[r as int].debates.update(d as int, DebateView { chair: Some(adj), ..v.rounds[r as int].debates[d as int] }),
            ..v.rounds[r as int]
        };
        assert(w.rounds[r as int].debates =~= expected_round.debates);
        assert(w.rounds =~= v.rounds.update(r as int, expected_round));
        assert(w.assignments[k as int] =~= v.assignments[k as int].update(r as int, AdjudicatorPosition::Chair { debate_idx: d }));
        assert(w.assignments =~= v.assignments.update(
            k as int,
            v.assignments[k as int].update(r as int, AdjudicatorPosition::Chair { debate_idx: d }),
        ));
        proof {
            lemma_adj_index_of(self.adjudicators@, k as int);
            assert forall|rr: int, dd: int|
                0 <= rr < w.rounds.len() && 0 <= dd < w.rounds[rr].debates.len() implies ((
            #[trigger] w.rounds[rr].debates[dd]).chair matches Some(c) ==> adj_index(self.adjudicators@, c) >= 0) by {
                if rr != r || dd != d {
                    assert(w.rounds[rr].debates[dd] == v.rounds[rr].debates[dd]);
                }
            }
            assert forall|rr: int, dd: int, ww: int|
                0 <= rr < w.rounds.len() && 0 <= dd < w.rounds[rr].debates.len() && 0 <= ww < w.rounds[rr].debates[dd].wings.len()
                    implies adj_index(self.adjudicators@, #[trigger] w.rounds[rr].debates[dd].wings[ww]) >= 0 by {
                assert(w.rounds[rr].debates[dd].wings == v.rounds[rr].debates[dd].wings);
            }
        }
    }

    /// Applies the flows of the chair assignment in order.
    pub fn apply_chair_flows(&mut self, flows: &Vec<(Option<(u8, u128, u64)>, Option<(u8, u128, u64)>, u32)>)
        requires
            old(self).wf(),
        ensures
            final(self).wf(),
            final(self).adjudicators@ == old(self).adjudicators@,
            final(self).options == old(self).options,
            final(self).evaluator == old(self).evaluator,
            final(self).allocation() == apply_chair_flows(old(self).allocation(), old(self).adjudicators@, flows@),
            final(self).rounds.len() == old(self).rounds.len(),
    {
        let ghost start = self.allocation();
        let ghost adjs = self.adjudicators@;
        let ghost opts = self.options;
        let ghost ev = self.evaluator;
        let ghost nr = self.rounds.len();
        let mut f: usize = 0;
        while f < flows.len()
            invariant
                f <= flows.len(),
                self.rounds.len() == nr,
                self.wf(),
                self.adjudicators@ == adjs,
                self.options == opts,
                self.evaluator == ev,
                self.allocation() == apply_chair_flows(start, adjs, flows@.take(f as int)),
            decreases flows.len() - f,
        {
            assert(flows@.take(f + 1).drop_last() =~= flows@.take(f as int));
            let (a, b, amount) = flows[f];
            if amount > 0 {
                match (a, b) {
                    (Some(ka), Some(kb)) => {
                        if ka.0 == 2 && kb.0 == 3 {
                            match self.adjudicator_slot(ka.1) {
                                Some(k) => {
                                    proof {
                                        lemma_adj_index(self.adjudicators@, ka.1);
                                    }
                                    if ka.2 < self.rounds.len() as u64 {
                                        let r = ka.2 as usize;
                                        if kb.2 < self.rounds[r].debates.len() as u64 {
                                            let d = kb.2 as usize;
                                            self.set_chair(k, r, d, ka.1);
                                        }
                                    }
                                },
                                None => {},
                            }
                        }
                    },
                    _ => {},
                }
            }
            f += 1;
        }
        assert(flows@.take(flows.len() as int) =~= flows@);
    }

    /// Gives a chair to the debates without one. Each adjudicator's `i`-th
    /// chair over the rounds costs ten times `i`; an adjudicator can chair a
    /// debate in a round where it is unassigned, at the cost of chairing it,
    /// unless one of its issues there reaches the threshold. The flows that
    /// `mcmf` finds on that graph decide the chairs. Only chairs change, each
    /// in a debate that had none and to an adjudicator that may chair it
    /// (`new_chairs_may_chair`, `only_chairs_change`).
    pub fn update_state_by_assigning_chairs(&mut self)
        requires
            old(self).wf(),
        ensures
            final(self).wf(),
            final(self).rounds.len() == old(self).rounds.len(),
            final(self).adjudicators@ == old(self).adjudicators@,
            final(self).options == old(self).options,
            final(self).evaluator == old(self).evaluator,
            final(self).allocation() == apply_chair_flows(
                old(self).allocation(),
                old(self).adjudicators@,
                min_cost_flow_paths(
                    chair_graph(
                        old(self).allocation(),
                        old(self).adjudicators@,
                        old(self).evaluator,
                        old(self).options.hard_clash_threshold,
                    ),
                ),
            ),
            new_chairs_may_chair(
                old(self).allocation(),
                final(self).allocation(),
                old(self).adjudicators@,
                old(self).evaluator,
                old(self).options.hard_clash_threshold,
            ),
            only_chairs_change(old(self).allocation(), final(self).allocation()),
    {
        let targets = self.unchaired_debates();
        let mut g = new_flow_graph();
        self.add_frequency_edges(&mut g);
        self.add_role_edges(&mut g);
        self.add_candidate_edges(&mut g, &targets);
        self.add_sink_edges(&mut g, &targets);
        let ghost v = self.allocation();
        let ghost open = unchaired(v.rounds, v.rounds.len() as int);
        assert(Seq::new(
            targets@.len(),
            |t: int| (Some(debate_node(targets@[t].0 as int, targets@[t].1 as int)), None::<(u8, u128, u64)>, 1i32, 0i32),
        ) =~= Seq::new(open.len(), |t: int| (Some(debate_node(open[t].0, open[t].1)), None::<(u8, u128, u64)>, 1i32, 0i32)));
        assert(flow_graph_edges(g) =~= chair_graph(v, self.adjudicators@, self.evaluator, self.options.hard_clash_threshold));
        let flows = solve_flow(&g);
        proof {
            assert(v.rounds.len() == self.rounds.len());
            assert(self.rounds.len() <= usize::MAX);
            assert forall|r: int| 0 <= r < v.rounds.len() implies (#[trigger] v.rounds[r]).debates.len() <= u64::MAX by {
                assert(v.rounds[r].debates.len() == self.rounds@[r].debates.len());
            }
            lemma_chair_flows_follow_candidates(v, self.adjudicators@, self.evaluator, self.options.hard_clash_threshold, flows@);
            lemma_chair_flows_keep_rest(v, self.adjudicators@, flows@);
        }
        self.apply_chair_flows(&flows);
    }
}

/// The indices of the first `k` adjudicators that are unassigned in round `r`.
pub open spec fn unassigned_list(assignments: Seq<Seq<AdjudicatorPosition>>, r: int, k: int) -> Seq<int>
    decreases k,
{
    if k <= 0 {
        Seq::empty()
    } else {
        unassigned_list(assignments, r, k - 1) + if assignments[k - 1][r] == AdjudicatorPosition::Unassigned {
            seq![k - 1]
        } else {
            Seq::empty()
        }
    }
}

/// The fewest wings among the first `k` debates, for `k` at least one.
pub open spec fn fewest_wings(debates: Seq<DebateView>, k: int) -> int
    decreases k,
{
    if k <= 1 {
        debates[0].wings.len() as int
    } else {
        let m = fewest_wings(debates, k - 1);
        if debates[k - 1].wings.len() < m {
            debates[k - 1].wings.len() as int
        } else {
            m
        }
    }
}

/// The fewest wings of a debate of the round, 0 where it has no debates.
pub open spec fn min_wing_count(debates: Seq<DebateView>) -> int {
    if debates.len() == 0 {
        0
    } else {
        fewest_wings(debates, debates.len() as int)
    }
}

/// The indices of the first `k` debates that have `m` wings.
pub open spec fn wing_targets(debates: Seq<DebateView>, m: int, k: int) -> Seq<int>
    decreases k,
{
    if k <= 0 {
        Seq::empty()
    } else {
        wing_targets(debates, m, k - 1) + if debates[k - 1].wings.len() == m {
            seq![k - 1]
        } else {
            Seq::empty()
        }
    }
}

/// The debates of the round that a pass gives wings to: those with the fewest
/// wings.
pub open spec fn fewest_wing_debates(debates: Seq<DebateView>) -> Seq<int> {
    wing_targets(debates, min_wing_count(debates), debates.len() as int)
}

/// The edges from the adjudicator to the first `k` target debates of round
/// `r` it may join, at the cost of joining them.
pub open spec fn wing_candidate_edges(
    ev: &DrawEvaluator,
    threshold: i32,
    adjs: Seq<AdjudicatorInfo>,
    info: AdjudicatorInfo,
    debates: Seq<DebateView>,
    targets: Seq<int>,
    r: int,
    k: int,
) -> Seq<FlowEdge>
    decreases k,
{
    if k <= 0 {
        Seq::empty()
    } else {
        wing_candidate_edges(ev, threshold, adjs, info, debates, targets, r, k - 1) + match wing_cost(
            ev,
            threshold,
            adjs,
            info,
            debates[targets[k - 1]],
        ) {
            Some(c) => seq![(Some(adjudicator_node(info.id)), Some(debate_node(r, targets[k - 1])), 1i32, c as i32)],
            None => Seq::empty(),
        }
    }
}

/// The graph of one wing pass in round `r`: an edge from the source to each
/// unassigned adjudicator followed by its candidate edges, then an edge from
/// each debate with the fewest wings to the sink.
pub open spec fn wing_graph(v: AllocationView, adjs: Seq<AdjudicatorInfo>, ev: &DrawEvaluator, threshold: i32, r: int) -> Seq<
    FlowEdge,
> {
    let free = unassigned_list(v.assignments, r, adjs.len() as int);
    let debates = v.rounds[r].debates;
    let targets = fewest_wing_debates(debates);
    concat_edges(
        Seq::new(
            free.len(),
            |i: int|
                seq![(None::<(u8, u128, u64)>, Some(adjudicator_node(adjs[free[i]].id)), 1i32, 0i32)] + wing_candidate_edges(
                    ev,
                    threshold,
                    adjs,
                    adjs[free[i]],
                    debates,
                    targets,
                    r,
                    targets.len() as int,
                ),
        ),
    ) + Seq::new(targets.len(), |t: int| (Some(debate_node(r, targets[t])), None::<(u8, u128, u64)>, 1i32, 0i32))
}

/// One flow of a wing pass in round `r` applied: a positive flow from a known
/// adjudicator to a debate of the round adds it as the debate's last wing.
pub open spec fn apply_wing_flow(
    v: AllocationView,
    adjs: Seq<AdjudicatorInfo>,
    r: int,
    f: (Option<(u8, u128, u64)>, Option<(u8, u128, u64)>, u32),
) -> AllocationView {
    match f {
        (Some(ka), Some(kb), amount) => {
            let k = adj_index(adjs, ka.1);
            let d = kb.2 as int;
            if amount > 0 && ka.0 == 0 && kb.0 == 3 && k >= 0 && d < v.rounds[r].debates.len() {
                let debate = v.rounds[r].debates[d];
                AllocationView {
                    rounds: v.rounds.update(
                        r,
                        RoundView {
                            debates: v.rounds[r].debates.update(d, DebateView { wings: debate.wings.push(ka.1), ..debate }),
                            ..v.rounds[r]
                        },
                    ),
                    assignments: v.assignments.update(
                        k,
                        v.assignments[k].update(
                            r,
                            AdjudicatorPosition::Wing { debate_idx: d as usize, position: debate.wings.len() as usize },
                        ),
                    ),
                }
            } else {
                v
            }
        },
        _ => v,
    }
}

/// The flows of a wing pass applied in order.
pub open spec fn apply_wing_flows(
    v: AllocationView,
    adjs: Seq<AdjudicatorInfo>,
    r: int,
    flows: Seq<(Option<(u8, u128, u64)>, Option<(u8, u128, u64)>, u32)>,
) -> AllocationView
    decreases flows.len(),
{
    if flows.len() == 0 {
        v
    } else {
        apply_wing_flow(apply_wing_flows(v, adjs, r, flows.drop_last()), adjs, r, flows.last())
    }
}

/// The debate with the given wings.
pub open spec fn with_wings(d: DebateView, wings: Seq<u128>) -> DebateView {
    DebateView { wings: wings, ..d }
}

/// Whether `d2` is `d1` with wings added after its own.
pub open spec fn gains_wings(d1: DebateView, d2: DebateView) -> bool {
    &&& d2 == with_wings(d1, d2.wings)
    &&& d1.wings.len() <= d2.wings.len()
    &&& d2.wings.take(d1.wings.len() as int) == d1.wings
}

/// Whether the adjudicator may join the debate as a wing: none of its issues
/// there reaches the threshold, as `wing_cost` has it.
#[verifier::opaque]
pub open spec fn may_join(ev: &DrawEvaluator, threshold: i32, adjs: Seq<AdjudicatorInfo>, info: AdjudicatorInfo, d: DebateView) -> bool {
    wing_cost(ev, threshold, adjs, info, d) is Some
}

/// Whether the wing at position `p` of `d2` is an adjudicator that may join
/// the debate `d1` with the wings of `d2` before some position between the
/// end of `d1`'s wings and `p`.
pub open spec fn wing_may_have_joined(
    d1: DebateView,
    d2: DebateView,
    adjs: Seq<AdjudicatorInfo>,
    ev: &DrawEvaluator,
    threshold: i32,
    p: int,
) -> bool {
    exists|j: int, q: int|
        0 <= j < adjs.len() && d1.wings.len() <= q <= p && d2.wings[p] == adjs[j].id && #[trigger] may_join(
            ev,
            threshold,
            adjs,
            adjs[j],
            with_wings(d1, d2.wings.take(q)),
        )
}

/// Whether each wing that `d2` has beyond those of `d1` may have joined.
pub open spec fn joined_wings_may_join(
    d1: DebateView,
    d2: DebateView,
    adjs: Seq<AdjudicatorInfo>,
    ev: &DrawEvaluator,
    threshold: i32,
) -> bool {
    forall|p: int| d1.wings.len() <= p < d2.wings.len() ==> #[trigger] wing_may_have_joined(d1, d2, adjs, ev, threshold, p)
}

/// Whether `w` is `v` with wings added after those of its debates, and
/// nothing else of the rounds changed, each added wing an adjudicator that
/// may join the debate as it was when it joined.
pub open spec fn new_wings_may_join(
    v: AllocationView,
    w: AllocationView,
    adjs: Seq<AdjudicatorInfo>,
    ev: &DrawEvaluator,
    threshold: i32,
) -> bool {
    &&& w.rounds.len() == v.rounds.len()
    &&& forall|r: int| 0 <= r < v.rounds.len() ==> (#[trigger] w.rounds[r]) == RoundView { debates: w.rounds[r].debates, ..v.rounds[r] }
    &&& forall|r: int| 0 <= r < v.rounds.len() ==> (#[trigger] w.rounds[r]).debates.len() == v.rounds[r].debates.len()
    &&& forall|r: int, d: int|
        0 <= r < v.rounds.len() && 0 <= d < v.rounds[r].debates.len() ==> gains_wings(
            v.rounds[r].debates[d],
            #[trigger] w.rounds[r].debates[d],
        ) && joined_wings_may_join(v.rounds[r].debates[d], w.rounds[r].debates[d], adjs, ev, threshold)
}

proof fn lemma_new_wings_reflexive(v: AllocationView, adjs: Seq<AdjudicatorInfo>, ev: &DrawEvaluator, threshold: i32)
    ensures
        new_wings_may_join(v, v, adjs, ev, threshold),
{
    assert forall|r: int, d: int|
        0 <= r < v.rounds.len() && 0 <= d < v.rounds[r].debates.len() implies gains_wings(
        v.rounds[r].debates[d],
        #[trigger] v.rounds[r].debates[d],
    ) && joined_wings_may_join(v.rounds[r].debates[d], v.rounds[r].debates[d], adjs, ev, threshold) by {
        assert(v.rounds[r].debates[d].wings.take(v.rounds[r].debates[d].wings.len() as int) =~= v.rounds[r].debates[d].wings);
    }
}

proof fn lemma_joined_wings_transitive(
    da: DebateView,
    db: DebateView,
    dc: DebateView,
    adjs: Seq<AdjudicatorInfo>,
    ev: &DrawEvaluator,
    threshold: i32,
)
    requires
        gains_wings(da, db),
        gains_wings(db, dc),
        joined_wings_may_join(da, db, adjs, ev, threshold),
        joined_wings_may_join(db, dc, adjs, ev, threshold),
    ensures
        gains_wings(da, dc),
        joined_wings_may_join(da, dc, adjs, ev, threshold),
{
    assert(dc.wings.take(da.wings.len() as int) =~= db.wings.take(da.wings.len() as int));
    assert forall|p: int| da.wings.len() <= p < dc.wings.len() implies #[trigger] wing_may_have_joined(
        da,
        dc,
        adjs,
        ev,
        threshold,
        p,
    ) by {
        if p < db.wings.len() {
            assert(wing_may_have_joined(da, db, adjs, ev, threshold, p));
            let (j, q) = choose|j: int, q: int|
                0 <= j < adjs.len() && da.wings.len() <= q <= p && db.wings[p] == adjs[j].id && #[trigger] may_join(
                    ev,
                    threshold,
                    adjs,
                    adjs[j],
                    with_wings(da, db.wings.take(q)),
                );
            assert(dc.wings.take(db.wings.len() as int)[p] == dc.wings[p]);
            assert(dc.wings[p] == db.wings[p]);
            assert(dc.wings.take(q) =~= db.wings.take(q));
            assert(may_join(ev, threshold, adjs, adjs[j], with_wings(da, dc.wings.take(q))));
        } else {
            assert(wing_may_have_joined(db, dc, adjs, ev, threshold, p));
            let (j, q) = choose|j: int, q: int|
                0 <= j < adjs.len() && db.wings.len() <= q <= p && dc.wings[p] == adjs[j].id && #[trigger] may_join(
                    ev,
                    threshold,
                    adjs,
                    adjs[j],
                    with_wings(db, dc.wings.take(q)),
                );
            assert(with_wings(db, dc.wings.take(q)) == with_wings(da, dc.wings.take(q)));
            assert(may_join(ev, threshold, adjs, adjs[j], with_wings(da, dc.wings.take(q))));
        }
    }
}

proof fn lemma_new_wings_transitive(
    a: AllocationView,
    b: AllocationView,
    c: AllocationView,
    adjs: Seq<AdjudicatorInfo>,
    ev: &DrawEvaluator,
    threshold: i32,
)
    requires
        new_wings_may_join(a, b, adjs, ev, threshold),
        new_wings_may_join(b, c, adjs, ev, threshold),
    ensures
        new_wings_may_join(a, c, adjs, ev, threshold),
{
    assert forall|r: int| 0 <= r < a.rounds.len() implies (#[trigger] c.rounds[r]) == RoundView {
        debates: c.rounds[r].debates,
        ..a.rounds[r]
    } && c.rounds[r].debates.len() == a.rounds[r].debates.len() by {
        assert(b.rounds[r] == RoundView { debates: b.rounds[r].debates, ..a.rounds[r] });
        assert(c.rounds[r] == RoundView { debates: c.rounds[r].debates, ..b.rounds[r] });
    }
    assert forall|r: int, d: int|
        0 <= r < a.rounds.len() && 0 <= d < a.rounds[r].debates.len() implies gains_wings(
        a.rounds[r].debates[d],
        #[trigger] c.rounds[r].debates[d],
    ) && joined_wings_may_join(a.rounds[r].debates[d], c.rounds[r].debates[d], adjs, ev, threshold) by {
        assert(b.rounds[r].debates.len() == a.rounds[r].debates.len());
        assert(gains_wings(a.rounds[r].debates[d], b.rounds[r].debates[d]));
        assert(gains_wings(b.rounds[r].debates[d], c.rounds[r].debates[d]));
        lemma_joined_wings_transitive(a.rounds[r].debates[d], b.rounds[r].debates[d], c.rounds[r].debates[d], adjs, ev, threshold);
    }
}

proof fn lemma_wing_candidate_edge(
    ev: &DrawEvaluator,
    threshold: i32,
    adjs: Seq<AdjudicatorInfo>,
    info: AdjudicatorInfo,
    debates: Seq<DebateView>,
    targets: Seq<int>,
    r: int,
    k: int,
    i: int,
)
    requires
        0 <= i < wing_candidate_edges(ev, threshold, adjs, info, debates, targets, r, k).len(),
    ensures
        exists|t: int|
            0 <= t < k && wing_candidate_edges(ev, threshold, adjs, info, debates, targets, r, k)[i].0 == Some(
                adjudicator_node(info.id),
            ) && wing_candidate_edges(ev, threshold, adjs, info, debates, targets, r, k)[i].1 == Some(
                debate_node(r, targets[t]),
            ) && (#[trigger] wing_cost(ev, threshold, adjs, info, debates[targets[t]])) is Some,
    decreases k,
{
    if k > 0 {
        let rest = wing_candidate_edges(ev, threshold, adjs, info, debates, targets, r, k - 1);
        if i < rest.len() {
            lemma_wing_candidate_edge(ev, threshold, adjs, info, debates, targets, r, k - 1, i);
        } else {
            assert(wing_cost(ev, threshold, adjs, info, debates[targets[k - 1]]) is Some);
        }
    }
}

/// An edge of a wing pass's graph from an adjudicator to a debate is one of
/// the debate's wing candidates.
proof fn lemma_wing_graph_edge(
    v: AllocationView,
    adjs: Seq<AdjudicatorInfo>,
    ev: &DrawEvaluator,
    threshold: i32,
    r: int,
    e: int,
)
    requires
        0 <= r < v.rounds.len(),
        0 <= e < wing_graph(v, adjs, ev, threshold, r).len(),
        wing_graph(v, adjs, ev, threshold, r)[e].0 matches Some(x) && x.0 == 0,
        wing_graph(v, adjs, ev, threshold, r)[e].1 matches Some(y) && y.0 == 3,
    ensures
        ({
            let edge = wing_graph(v, adjs, ev, threshold, r)[e];
            exists|j: int, d: int|
                0 <= j < adjs.len() && 0 <= d < v.rounds[r].debates.len() && edge.0 == Some(adjudicator_node(adjs[j].id))
                    && edge.1 == Some(debate_node(r, d)) && (#[trigger] wing_cost(
                    ev,
                    threshold,
                    adjs,
                    adjs[j],
                    v.rounds[r].debates[d],
                )) is Some
        }),
{
    let free = unassigned_list(v.assignments, r, adjs.len() as int);
    let debates = v.rounds[r].debates;
    let targets = fewest_wing_debates(debates);
    let blocks = Seq::new(
        free.len(),
        |i: int|
            seq![(None::<(u8, u128, u64)>, Some(adjudicator_node(adjs[free[i]].id)), 1i32, 0i32)] + wing_candidate_edges(
                ev,
                threshold,
                adjs,
                adjs[free[i]],
                debates,
                targets,
                r,
                targets.len() as int,
            ),
    );
    let sinks = Seq::new(targets.len(), |t: int| (Some(debate_node(r, targets[t])), None::<(u8, u128, u64)>, 1i32, 0i32));
    let g = wing_graph(v, adjs, ev, threshold, r);
    assert(g == concat_edges(blocks) + sinks);
    let a_len = concat_edges(blocks).len();
    if e < a_len {
        lemma_concat_member(blocks, e);
        let (i, x) = choose|i: int, x: int| 0 <= i < blocks.len() && 0 <= x < blocks[i].len() && concat_edges(blocks)[e] == #[trigger] blocks[i][x];
        assert(g[e] == blocks[i][x]);
        lemma_unassigned_in_range(v.assignments, r, adjs.len() as int);
        lemma_wing_targets_range(debates, min_wing_count(debates), debates.len() as int);
        assert(free[i] < adjs.len());
        if x == 0 {
            assert(false);
        } else {
            let cand = wing_candidate_edges(ev, threshold, adjs, adjs[free[i]], debates, targets, r, targets.len() as int);
            assert(blocks[i][x] == cand[x - 1]);
            lemma_wing_candidate_edge(ev, threshold, adjs, adjs[free[i]], debates, targets, r, targets.len() as int, x - 1);
            let t = choose|t: int|
                0 <= t < targets.len() && cand[x - 1].0 == Some(adjudicator_node(adjs[free[i]].id)) && cand[x - 1].1 == Some(
                    debate_node(r, targets[t]),
                ) && (#[trigger] wing_cost(ev, threshold, adjs, adjs[free[i]], debates[targets[t]])) is Some;
            assert(0 <= targets[t] < debates.len());
            assert(wing_cost(ev, threshold, adjs, adjs[free[i] as int], v.rounds[r].debates[targets[t]]) is Some);
        }
    } else {
        assert(g[e] == sinks[e - a_len]);
        assert(false);
    }
}

/// The wings that flows along the edges of a wing pass's graph add are wing
/// candidates of their debates as they were before the pass.
proof fn lemma_wing_flows_may_join(
    v: AllocationView,
    adjs: Seq<AdjudicatorInfo>,
    ev: &DrawEvaluator,
    threshold: i32,
    r: int,
    flows: Seq<(Option<(u8, u128, u64)>, Option<(u8, u128, u64)>, u32)>,
)
    requires
        0 <= r < v.rounds.len(),
        v.rounds[r].debates.len() <= u64::MAX,
        flows_follow_edges(flows, wing_graph(v, adjs, ev, threshold, r)),
    ensures
        new_wings_may_join(v, apply_wing_flows(v, adjs, r, flows), adjs, ev, threshold),
    decreases flows.len(),
{
    if flows.len() == 0 {
        lemma_new_wings_reflexive(v, adjs, ev, threshold);
    } else {
        let prefix = flows.drop_last();
        let g = wing_graph(v, adjs, ev, threshold, r);
        assert(flows_follow_edges(prefix, g)) by {
            assert forall|k: int| 0 <= k < prefix.len() implies runs_along_edge(#[trigger] prefix[k], g) by {
                assert(prefix[k] == flows[k]);
            }
        }
        lemma_wing_flows_may_join(v, adjs, ev, threshold, r, prefix);
        let w = apply_wing_flows(v, adjs, r, prefix);
        let f = flows.last();
        let w2 = apply_wing_flows(v, adjs, r, flows);
        assert(w2 == apply_wing_flow(w, adjs, r, f));
        match f {
            (Some(ka), Some(kb), amount) => {
                let k = adj_index(adjs, ka.1);
                let d = kb.2 as int;
                if amount > 0 && ka.0 == 0 && kb.0 == 3 && k >= 0 && d < w.rounds[r].debates.len() {
                    assert(flows[flows.len() - 1] == f);
                    assert(runs_along_edge(flows[flows.len() - 1], g));
                    let e = choose|e: int| 0 <= e < g.len() && (#[trigger] g[e]).0 == f.0 && g[e].1 == f.1;
                    lemma_wing_graph_edge(v, adjs, ev, threshold, r, e);
                    let (j, d2) = choose|j: int, d2: int|
                        0 <= j < adjs.len() && 0 <= d2 < v.rounds[r].debates.len() && g[e].0 == Some(adjudicator_node(adjs[j].id))
                            && g[e].1 == Some(debate_node(r, d2)) && (#[trigger] wing_cost(
                            ev,
                            threshold,
                            adjs,
                            adjs[j],
                            v.rounds[r].debates[d2],
                        )) is Some;
                    assert(d == d2);
                    assert(ka.1 == adjs[j].id);
                    let old_d = w.rounds[r].debates[d];
                    let vd = v.rounds[r].debates[d];
                    let new_d = w2.rounds[r].debates[d];
                    assert(gains_wings(vd, old_d));
                    assert(new_d.wings == old_d.wings.push(ka.1));
                    assert(new_d.wings.take(vd.wings.len() as int) =~= old_d.wings.take(vd.wings.len() as int));
                    assert(new_d == with_wings(vd, new_d.wings));
                    assert(joined_wings_may_join(vd, old_d, adjs, ev, threshold));
                    assert forall|p: int| vd.wings.len() <= p < new_d.wings.len() implies #[trigger] wing_may_have_joined(
                        vd,
                        new_d,
                        adjs,
                        ev,
                        threshold,
                        p,
                    ) by {
                        if p < old_d.wings.len() {
                            assert(wing_may_have_joined(vd, old_d, adjs, ev, threshold, p));
                            let (j3, q) = choose|j3: int, q: int|
                                0 <= j3 < adjs.len() && vd.wings.len() <= q <= p && old_d.wings[p] == adjs[j3].id
                                    && #[trigger] may_join(ev, threshold, adjs, adjs[j3], with_wings(vd, old_d.wings.take(q)));
                            assert(new_d.wings[p] == old_d.wings[p]);
                            assert(new_d.wings.take(q) =~= old_d.wings.take(q));
                            assert(may_join(ev, threshold, adjs, adjs[j3], with_wings(vd, new_d.wings.take(q))));
                        } else {
                            assert(new_d.wings[p] == adjs[j].id);
                            assert(new_d.wings.take(vd.wings.len() as int) =~= vd.wings);
                            assert(with_wings(vd, new_d.wings.take(vd.wings.len() as int)) == vd);
                            reveal(may_join);
                            assert(may_join(ev, threshold, adjs, adjs[j], with_wings(vd, new_d.wings.take(vd.wings.len() as int))));
                        }
                    }
                    assert forall|r3: int| 0 <= r3 < v.rounds.len() implies (#[trigger] w2.rounds[r3]) == RoundView {
                        debates: w2.rounds[r3].debates,
                        ..v.rounds[r3]
                    } && w2.rounds[r3].debates.len() == v.rounds[r3].debates.len() by {
                        assert(w.rounds[r3] == RoundView { debates: w.rounds[r3].debates, ..v.rounds[r3] });
                    }
                    assert forall|r3: int, d3: int|
                        0 <= r3 < v.rounds.len() && 0 <= d3 < v.rounds[r3].debates.len() implies gains_wings(
                        v.rounds[r3].debates[d3],
                        #[trigger] w2.rounds[r3].debates[d3],
                    ) && joined_wings_may_join(v.rounds[r3].debates[d3], w2.rounds[r3].debates[d3], adjs, ev, threshold) by {
                        if r3 != r || d3 != d {
                            assert(w2.rounds[r3].debates[d3] == w.rounds[r3].debates[d3]);
                        }
                    }
                }
            },
            _ => {},
        }
    }
}

/// One wing pass in round `r`: the flows `mcmf` finds on its graph, applied.
pub open spec fn wing_pass(v: AllocationView, adjs: Seq<AdjudicatorInfo>, ev: &DrawEvaluator, threshold: i32, r: int) -> AllocationView {
    apply_wing_flows(v, adjs, r, min_cost_flow_paths(wing_graph(v, adjs, ev, threshold, r)))
}

/// Wing passes in round `r` while some adjudicator is unassigned and the
/// last pass placed one, `previous` being the count before the last pass.
pub open spec fn wing_loop(
    v: AllocationView,
    adjs: Seq<AdjudicatorInfo>,
    ev: &DrawEvaluator,
    threshold: i32,
    r: int,
    previous: nat,
) -> AllocationView
    decreases previous,
{
    let count = unassigned_list(v.assignments, r, adjs.len() as int).len();
    if count == 0 || count >= previous {
        v
    } else {
        wing_loop(wing_pass(v, adjs, ev, threshold, r), adjs, ev, threshold, r, count)
    }
}

/// The wing passes of the first `k` rounds, one round after the other.
pub open spec fn wing_rounds(v: AllocationView, adjs: Seq<AdjudicatorInfo>, ev: &DrawEvaluator, threshold: i32, k: int) -> AllocationView
    decreases k,
{
    if k <= 0 {
        v
    } else {
        let before = wing_rounds(v, adjs, ev, threshold, k - 1);
        wing_loop(before, adjs, ev, threshold, k - 1, (adjs.len() + 1) as nat)
    }
}

impl<'a> OptimizationState<'a> {
    /// The indices of the adjudicators that are unassigned in the round.
    fn unassigned_adjudicators(&self, r: usize) -> (free: Vec<usize>)
        requires
            self.wf(),
            r < self.rounds.len(),
        ensures
            free@.len() == unassigned_list(self.allocation().assignments, r as int, self.adjudicators@.len() as int).len(),
            forall|i: int| 0 <= i < free@.len() ==> (#[trigger] free@[i]) as int == unassigned_list(
                self.allocation().assignments,
                r as int,
                self.adjudicators@.len() as int,
            )[i],
    {
        let ghost asg = self.allocation().assignments;
        let mut free: Vec<usize> = Vec::new();
        let mut a: usize = 0;
        while a < self.adjudicators.len()
            invariant
                a <= self.adjudicators.len(),
                r < self.rounds.len(),
                self.wf(),
                asg == self.allocation().assignments,
                free@.len() == unassigned_list(asg, r as int, a as int).len(),
                forall|i: int| 0 <= i < free@.len() ==> (#[trigger] free@[i]) as int == unassigned_list(asg, r as int, a as int)[i],
            decreases self.adjudicators.len() - a,
        {
            assert(asg[a as int][r as int] == self.assignments@[a as int]@[r as int]);
            if self.assignments[a][r] == AdjudicatorPosition::Unassigned {
                free.push(a);
            }
            a += 1;
        }
        free
    }

    /// The indices of the round's debates with the fewest wings.
    fn debates_with_fewest_wings(&self, r: usize) -> (targets: Vec<usize>)
        requires
            r < self.rounds.len(),
        ensures
            targets@.len() == fewest_wing_debates(self.allocation().rounds[r as int].debates).len(),
            forall|i: int| 0 <= i < targets@.len() ==> (#[trigger] targets@[i]) as int == fewest_wing_debates(
                self.allocation().rounds[r as int].debates,
            )[i],
    {
        let debates = &self.rounds[r].debates;
        let ghost dv = self.allocation().rounds[r as int].debates;
        assert(dv == debates_view(debates@));
        let mut fewest: usize = 0;
        let mut i: usize = 0;
        while i < debates.len()
            invariant
                i <= debates.len(),
                dv == debates_view(debates@),
                i > 0 ==> fewest as int == fewest_wings(dv, i as int),
                i == 0 ==> fewest == 0,
            decreases debates.len() - i,
        {
            if i == 0 || debates[i].wings.len() < fewest {
                fewest = debates[i].wings.len();
            }
            i += 1;
        }
        assert(dv.len() == debates.len());
        assert(fewest as int == min_wing_count(dv));
        let mut targets: Vec<usize> = Vec::new();
        let mut d: usize = 0;
        while d < debates.len()
            invariant
                d <= debates.len(),
                dv == debates_view(debates@),
                fewest as int == min_wing_count(dv),
                targets@.len() == wing_targets(dv, fewest as int, d as int).len(),
                forall|i: int| 0 <= i < targets@.len() ==> (#[trigger] targets@[i]) as int == wing_targets(
                    dv,
                    fewest as int,
                    d as int,
                )[i],
            decreases debates.len() - d,
        {
            if debates[d].wings.len() == fewest {
                targets.push(d);
            }
            d += 1;
        }
        targets
    }

    /// Adds an edge from the source to the adjudicator and from it to each
    /// target debate it may join.
    fn add_wing_candidates(&self, g: &mut GraphBuilder<(u8, u128, u64)>, a: usize, r: usize, targets: &Vec<usize>)
        requires
            self.wf(),
            a < self.adjudicators.len(),
            r < self.rounds.len(),
            forall|t: int| 0 <= t < targets@.len() ==> (#[trigger] targets@[t]) < self.rounds@[r as int].debates.len(),
        ensures
            ({
                let adjs = self.adjudicators@;
                let debates = self.allocation().rounds[r as int].debates;
                flow_graph_edges(*final(g)) == flow_graph_edges(*old(g)) + (seq![
                    (None::<(u8, u128, u64)>, Some(adjudicator_node(adjs[a as int].id)), 1i32, 0i32),
                ] + wing_candidate_edges(
                    self.evaluator,
                    self.options.hard_clash_threshold,
                    adjs,
                    adjs[a as int],
                    debates,
                    targets@.map_values(|t: usize| t as int),
                    r as int,
                    targets@.len() as int,
                ))
            }),
    {
        let ghost adjs = self.adjudicators@;
        let ghost th = self.options.hard_clash_threshold;
        let ghost debates = self.allocation().rounds[r as int].debates;
        let ghost ts = targets@.map_values(|t: usize| t as int);
        let id = self.adjudicators[a].id;
        let ghost start = flow_graph_edges(*g);
        add_flow_edge(g, None, Some((0u8, id, 0u64)), 1, 0);
        let ghost first = flow_graph_edges(*g);
        proof {
            lemma_adj_index_of(adjs, a as int);
        }
        let round = &self.rounds[r];
        assert(debates == debates_view(round.debates@));
        let mut t: usize = 0;
        while t < targets.len()
            invariant
                t <= targets.len(),
                self.wf(),
                a < self.adjudicators.len(),
                r < self.rounds.len(),
                adjs == self.adjudicators@,
                th == self.options.hard_clash_threshold,
                id == adjs[a as int].id,
                adj_index(adjs, id) == a,
                round == &self.rounds@[r as int],
                debates == debates_view(round.debates@),
                ts == targets@.map_values(|t: usize| t as int),
                forall|t: int| 0 <= t < targets@.len() ==> (#[trigger] targets@[t]) < round.debates@.len(),
                flow_graph_edges(*g) == first + wing_candidate_edges(self.evaluator, th, adjs, adjs[a as int], debates, ts, r as int, t as int),
            decreases targets.len() - t,
        {
            let d = targets[t];
            let debate = &round.debates[d];
            proof {
                let rv = self.allocation().rounds;
                assert(rv[r as int] == round@);
                assert forall|w: int| 0 <= w < debate.wings.len() implies adj_index(adjs, #[trigger] debate.wings@[w]) >= 0 by {
                    assert(rv[r as int].debates[d as int].wings[w] == debate.wings@[w]);
                }
                assert(rv[r as int].debates[d as int].chair == debate.chair);
            }
            match self.compute_wing_cost_in_debate(id, debate) {
                Some(c) => {
                    let cost = #[verifier::truncate] (c as i32);
                    add_flow_edge(g, Some((0u8, id, 0u64)), Some((3u8, r as u128, d as u64)), 1, cost);
                },
                None => {},
            }
            t += 1;
        }
        assert(start + (seq![(None::<(u8, u128, u64)>, Some(adjudicator_node(adjs[a as int].id)), 1i32, 0i32)]
            + wing_candidate_edges(self.evaluator, th, adjs, adjs[a as int], debates, ts, r as int, targets@.len() as int))
            =~= first + wing_candidate_edges(self.evaluator, th, adjs, adjs[a as int], debates, ts, r as int, targets@.len() as int));
    }
}

proof fn lemma_unassigned_list_len(asg: Seq<Seq<AdjudicatorPosition>>, r: int, k: int)
    requires
        k >= 0,
    ensures
        unassigned_list(asg, r, k).len() <= k,
    decreases k,
{
    if k > 0 {
        lemma_unassigned_list_len(asg, r, k - 1);
    }
}

proof fn lemma_unassigned_list_update(asg: Seq<Seq<AdjudicatorPosition>>, a: int, r: int, p: AdjudicatorPosition, k: int)
    requires
        0 <= a < asg.len(),
        0 <= r < asg[a].len(),
        p != AdjudicatorPosition::Unassigned,
        0 <= k <= asg.len(),
    ensures
        unassigned_list(asg.update(a, asg[a].update(r, p)), r, k).len() <= unassigned_list(asg, r, k).len(),
    decreases k,
{
    if k > 0 {
        lemma_unassigned_list_update(asg, a, r, p, k - 1);
    }
}

proof fn lemma_wing_targets_range(debates: Seq<DebateView>, m: int, k: int)
    requires
        0 <= k <= debates.len(),
    ensures
        forall|i: int| 0 <= i < wing_targets(debates, m, k).len() ==> 0 <= #[trigger] wing_targets(debates, m, k)[i] < k,
    decreases k,
{
    if k > 0 {
        lemma_wing_targets_range(debates, m, k - 1);
        let u = wing_targets(debates, m, k);
        let p = wing_targets(debates, m, k - 1);
        assert forall|i: int| 0 <= i < u.len() implies 0 <= #[trigger] u[i] < k by {
            if i < p.len() {
                assert(u[i] == p[i]);
            }
        }
    }
}

impl<'a> OptimizationState<'a> {
    /// Adds the adjudicator as the last wing of the debate.
    fn add_wing(&mut self, k: usize, r: usize, d: usize, adj: u128)
        requires
            old(self).wf(),
            k < old(self).adjudicators.len(),
            r < old(self).rounds.len(),
            d < old(self).rounds@[r as int].debates.len(),
            adj == old(self).adjudicators@[k as int].id,
        ensures
            final(self).wf(),
            final(self).adjudicators@ == old(self).adjudicators@,
            final(self).options == old(self).options,
            final(self).evaluator == old(self).evaluator,
            final(self).rounds.len() == old(self).rounds.len(),
            ({
                let v = old(self).allocation();
                let debate = v.rounds[r as int].debates[d as int];
                final(self).allocation() == AllocationView {
                    rounds: v.rounds.update(
                        r as int,
                        RoundView {
                            debates: v.rounds[r as int].debates.update(d as int, DebateView { wings: debate.wings.push(adj), ..debate }),
                            ..v.rounds[r as int]
                        },
                    ),
                    assignments: v.assignments.update(
                        k as int,
                        v.assignments[k as int].update(
                            r as int,
                            AdjudicatorPosition::Wing { debate_idx: d, position: debate.wings.len() as usize },
                        ),
                    ),
                }
            }),
    {
        let ghost v = self.allocation();
        let ghost debate = v.rounds[r as int].debates[d as int];
        assert(v.assignments[k as int].len() == self.rounds@.len());
        let position = self.rounds[r].debates[d].wings.len();
        assert(position == debate.wings.len());
        self.assignments[k][r] = AdjudicatorPosition::Wing { debate_idx: d, position };
        self.rounds[r].debates[d].wings.push(adj);
        let ghost w = self.allocation();
        let ghost new_debate = DebateView { wings: debate.wings.push(adj), ..debate };
        let ghost expected_round = RoundView { debates: v.rounds[r as int].debates.update(d as int, new_debate), ..v.rounds[r as int] };
        assert(w.rounds[r as int].debates[d as int].wings =~= new_debate.wings);
        assert(w.rounds[r as int].debates =~= expected_round.debates);
        assert(w.rounds =~= v.rounds.update(r as int, expected_round));
        assert(w.assignments[k as int] =~= v.assignments[k as int].update(
            r as int,
            AdjudicatorPosition::Wing { debate_idx: d, position },
        ));
        assert(w.assignments =~= v.assignments.update(
            k as int,
            v.assignments[k as int].update(r as int, AdjudicatorPosition::Wing { debate_idx: d, position }),
        ));
        proof {
            lemma_adj_index_of(self.adjudicators@, k as int);
            assert forall|rr: int, dd: int|
                0 <= rr < w.rounds.len() && 0 <= dd < w.rounds[rr].debates.len() implies ((
            #[trigger] w.rounds[rr].debates[dd]).chair matches Some(c) ==> adj_index(self.adjudicators@, c) >= 0) by {
                assert(w.rounds[rr].debates[dd].chair == v.rounds[rr].debates[dd].chair);
            }
            assert forall|rr: int, dd: int, ww: int|
                0 <= rr < w.rounds.len() && 0 <= dd < w.rounds[rr].debates.len() && 0 <= ww < w.rounds[rr].debates[dd].wings.len()
                    implies adj_index(self.adjudicators@, #[trigger] w.rounds[rr].debates[dd].wings[ww]) >= 0 by {
                if rr != r || dd != d || ww < debate.wings.len() {
                    assert(w.rounds[rr].debates[dd].wings[ww] == v.rounds[rr].debates[dd].wings[ww]);
                }
            }
        }
    }

    /// Applies the flows of a wing pass in the round in order.
    pub fn apply_wing_flows(&mut self, r: usize, flows: &Vec<(Option<(u8, u128, u64)>, Option<(u8, u128, u64)>, u32)>)
        requires
            old(self).wf(),
            r < old(self).rounds.len(),
        ensures
            final(self).wf(),
            final(self).adjudicators@ == old(self).adjudicators@,
            final(self).options == old(self).options,
            final(self).evaluator == old(self).evaluator,
            final(self).rounds.len() == old(self).rounds.len(),
            final(self).allocation() == apply_wing_flows(old(self).allocation(), old(self).adjudicators@, r as int, flows@),
            unassigned_list(final(self).allocation().assignments, r as int, old(self).adjudicators@.len() as int).len()
                <= unassigned_list(old(self).allocation().assignments, r as int, old(self).adjudicators@.len() as int).len(),
    {
        let ghost start = self.allocation();
        let ghost adjs = self.adjudicators@;
        let ghost opts = self.options;
        let ghost ev = self.evaluator;
        let ghost nr = self.rounds.len();
        let mut f: usize = 0;
        while f < flows.len()
            invariant
                f <= flows.len(),
                self.wf(),
                self.adjudicators@ == adjs,
                self.options == opts,
                self.evaluator == ev,
                self.rounds.len() == nr,
                r < nr,
                self.allocation() == apply_wing_flows(start, adjs, r as int, flows@.take(f as int)),
                unassigned_list(self.allocation().assignments, r as int, adjs.len() as int).len() <= unassigned_list(
                    start.assignments,
                    r as int,
                    adjs.len() as int,
                ).len(),
            decreases flows.len() - f,
        {
            assert(flows@.take(f + 1).drop_last() =~= flows@.take(f as int));
            let (a, b, amount) = flows[f];
            if amount > 0 {
                match (a, b) {
                    (Some(ka), Some(kb)) => {
                        if ka.0 == 0 && kb.0 == 3 {
                            match self.adjudicator_slot(ka.1) {
                                Some(k) => {
                                    proof {
                                        lemma_adj_index(self.adjudicators@, ka.1);
                                    }
                                    if kb.2 < self.rounds[r].debates.len() as u64 {
                                        let d = kb.2 as usize;
                                        let ghost before = self.allocation().assignments;
                                        let ghost pos = self.allocation().rounds[r as int].debates[d as int].wings.len();
                                        self.add_wing(k, r, d, ka.1);
                                        proof {
                                            lemma_unassigned_list_update(
                                                before,
                                                k as int,
                                                r as int,
                                                AdjudicatorPosition::Wing { debate_idx: d, position: pos as usize },
                                                adjs.len() as int,
                                            );
                                        }
                                    }
                                },
                                None => {},
                            }
                        }
                    },
                    _ => {},
                }
            }
            f += 1;
        }
        assert(flows@.take(flows.len() as int) =~= flows@);
    }
}

impl<'a> OptimizationState<'a> {
    /// One wing pass in the round: the graph of the unassigned adjudicators and
    /// the debates with the fewest wings, solved by `mcmf`, its flows applied.
    fn run_wing_pass(&mut self, r: usize, free: &Vec<usize>)
        requires
            old(self).wf(),
            r < old(self).rounds.len(),
            free@.len() == unassigned_list(old(self).allocation().assignments, r as int, old(self).adjudicators@.len() as int).len(),
            forall|i: int| 0 <= i < free@.len() ==> (#[trigger] free@[i]) as int == unassigned_list(
                old(self).allocation().assignments,
                r as int,
                old(self).adjudicators@.len() as int,
            )[i],
        ensures
            final(self).wf(),
            final(self).adjudicators@ == old(self).adjudicators@,
            final(self).options == old(self).options,
            final(self).evaluator == old(self).evaluator,
            final(self).rounds.len() == old(self).rounds.len(),
            final(self).allocation() == wing_pass(
                old(self).allocation(),
                old(self).adjudicators@,
                old(self).evaluator,
                old(self).options.hard_clash_threshold,
                r as int,
            ),
            unassigned_list(final(self).allocation().assignments, r as int, old(self).adjudicators@.len() as int).len()
                <= unassigned_list(old(self).allocation().assignments, r as int, old(self).adjudicators@.len() as int).len(),
            new_wings_may_join(
                old(self).allocation(),
                final(self).allocation(),
                old(self).adjudicators@,
                old(self).evaluator,
                old(self).options.hard_clash_threshold,
            ),
    {
        let ghost v = self.allocation();
        let ghost adjs = self.adjudicators@;
        let ghost th = self.options.hard_clash_threshold;
        let ghost debates = v.rounds[r as int].debates;
        let ghost fl = unassigned_list(v.assignments, r as int, adjs.len() as int);
        let ghost ts = fewest_wing_debates(debates);
        let targets = self.debates_with_fewest_wings(r);
        assert(targets@.map_values(|t: usize| t as int) =~= ts);
        proof {
            lemma_wing_targets_range(debates, min_wing_count(debates), debates.len() as int);
            lemma_unassigned_in_range(v.assignments, r as int, adjs.len() as int);
        }
        assert forall|t: int| 0 <= t < targets@.len() implies (#[trigger] targets@[t]) < self.rounds@[r as int].debates.len() by {
            assert(targets@[t] as int == ts[t]);
        }
        let ghost all = Seq::new(
            fl.len(),
            |i: int|
                seq![(None::<(u8, u128, u64)>, Some(adjudicator_node(adjs[fl[i]].id)), 1i32, 0i32)] + wing_candidate_edges(
                    self.evaluator,
                    th,
                    adjs,
                    adjs[fl[i]],
                    debates,
                    ts,
                    r as int,
                    ts.len() as int,
                ),
        );
        let mut g = new_flow_graph();
        let mut i: usize = 0;
        while i < free.len()
            invariant
                i <= free.len(),
                self.wf(),
                r < self.rounds.len(),
                v == self.allocation(),
                adjs == self.adjudicators@,
                th == self.options.hard_clash_threshold,
                debates == v.rounds[r as int].debates,
                ts == targets@.map_values(|t: usize| t as int),
                fl == unassigned_list(v.assignments, r as int, adjs.len() as int),
                free@.len() == fl.len(),
                forall|j: int| 0 <= j < free@.len() ==> (#[trigger] free@[j]) as int == fl[j],
                forall|j: int| 0 <= j < fl.len() ==> 0 <= #[trigger] fl[j] < adjs.len(),
                forall|t: int| 0 <= t < targets@.len() ==> (#[trigger] targets@[t]) < self.rounds@[r as int].debates.len(),
                all == Seq::new(
                    fl.len(),
                    |i: int|
                        seq![(None::<(u8, u128, u64)>, Some(adjudicator_node(adjs[fl[i]].id)), 1i32, 0i32)] + wing_candidate_edges(
                            self.evaluator,
                            th,
                            adjs,
                            adjs[fl[i]],
                            debates,
                            ts,
                            r as int,
                            ts.len() as int,
                        ),
                ),
                flow_graph_edges(g) == concat_edges(all.take(i as int)),
            decreases free.len() - i,
        {
            let a = free[i];
            assert(a as int == fl[i as int]);
            self.add_wing_candidates(&mut g, a, r, &targets);
            assert(all[i as int] == seq![(None::<(u8, u128, u64)>, Some(adjudicator_node(adjs[a as int].id)), 1i32, 0i32)]
                + wing_candidate_edges(self.evaluator, th, adjs, adjs[a as int], debates, ts, r as int, ts.len() as int));
            proof {
                lemma_concat_step(all, i as int);
            }
            i += 1;
        }
        assert(all.take(free.len() as int) =~= all);
        let ghost mid = flow_graph_edges(g);
        let ghost sinks = Seq::new(ts.len(), |t: int| (Some(debate_node(r as int, ts[t])), None::<(u8, u128, u64)>, 1i32, 0i32));
        let mut t: usize = 0;
        while t < targets.len()
            invariant
                t <= targets.len(),
                ts == targets@.map_values(|t: usize| t as int),
                sinks == Seq::new(ts.len(), |t: int| (Some(debate_node(r as int, ts[t])), None::<(u8, u128, u64)>, 1i32, 0i32)),
                flow_graph_edges(g) == mid + sinks.take(t as int),
            decreases targets.len() - t,
        {
            add_flow_edge(&mut g, Some((3u8, r as u128, targets[t] as u64)), None, 1, 0);
            assert(sinks.take(t + 1) =~= sinks.take(t as int).push(sinks[t as int]));
            t += 1;
        }
        assert(sinks.take(targets.len() as int) =~= sinks);
        assert(flow_graph_edges(g) =~= wing_graph(v, adjs, self.evaluator, th, r as int));
        let flows = solve_flow(&g);
        proof {
            assert(v.rounds[r as int].debates.len() == self.rounds@[r as int].debates.len());
            lemma_wing_flows_may_join(v, adjs, self.evaluator, th, r as int, flows@);
        }
        self.apply_wing_flows(r, &flows);
    }

    /// Gives wings to the debates, round by round. While some adjudicator is
    /// unassigned in the round and the last pass placed one, a pass adds at
    /// most one wing to each debate with the fewest wings: an unassigned
    /// adjudicator can join such a debate at the cost of joining it, unless one
    /// of its issues there reaches the threshold, and the flows that `mcmf`
    /// finds on that graph decide who joins where. The debates keep their
    /// wings, gaining new ones after them, and nothing else of the rounds
    /// changes; each added wing is an adjudicator that may join the debate as
    /// it was when it joined (`new_wings_may_join`).
    pub fn update_state_by_assigning_wings(&mut self)
        requires
            old(self).wf(),
        ensures
            final(self).wf(),
            final(self).adjudicators@ == old(self).adjudicators@,
            final(self).options == old(self).options,
            final(self).evaluator == old(self).evaluator,
            final(self).allocation() == wing_rounds(
                old(self).allocation(),
                old(self).adjudicators@,
                old(self).evaluator,
                old(self).options.hard_clash_threshold,
                old(self).rounds@.len() as int,
            ),
            new_wings_may_join(
                old(self).allocation(),
                final(self).allocation(),
                old(self).adjudicators@,
                old(self).evaluator,
                old(self).options.hard_clash_threshold,
            ),
    {
        let ghost start = self.allocation();
        let ghost adjs = self.adjudicators@;
        let ghost opts = self.options;
        let ghost ev = self.evaluator;
        let ghost th = self.options.hard_clash_threshold;
        let ghost nr = self.rounds.len();
        proof {
            lemma_new_wings_reflexive(start, adjs, ev, th);
        }
        let mut r: usize = 0;
        while r < self.rounds.len()
            invariant
                r <= self.rounds.len(),
                self.wf(),
                self.adjudicators@ == adjs,
                self.options == opts,
                self.evaluator == ev,
                th == opts.hard_clash_threshold,
                self.rounds.len() == nr,
                self.allocation() == wing_rounds(start, adjs, ev, th, r as int),
                new_wings_may_join(start, self.allocation(), adjs, ev, th),
            decreases self.rounds.len() - r,
        {
            let ghost target = wing_loop(self.allocation(), adjs, ev, th, r as int, (adjs.len() + 1) as nat);
            proof {
                lemma_unassigned_list_len(self.allocation().assignments, r as int, adjs.len() as int);
            }
            let mut previous: u128 = self.adjudicators.len() as u128 + 1;
            loop
                invariant
                    r < self.rounds.len(),
                    self.wf(),
                    self.adjudicators@ == adjs,
                    self.options == opts,
                    self.evaluator == ev,
                    th == opts.hard_clash_threshold,
                    self.rounds.len() == nr,
                    wing_loop(self.allocation(), adjs, ev, th, r as int, previous as nat) == target,
                    unassigned_list(self.allocation().assignments, r as int, adjs.len() as int).len() <= previous,
                    new_wings_may_join(start, self.allocation(), adjs, ev, th),
                ensures
                    self.wf(),
                    self.adjudicators@ == adjs,
                    self.options == opts,
                    self.evaluator == ev,
                    self.rounds.len() == nr,
                    self.allocation() == target,
                    new_wings_may_join(start, self.allocation(), adjs, ev, th),
                decreases previous,
            {
                let free = self.unassigned_adjudicators(r);
                if free.len() == 0 || free.len() as u128 == previous {
                    break;
                }
                previous = free.len() as u128;
                let ghost before = self.allocation();
                self.run_wing_pass(r, &free);
                proof {
                    lemma_new_wings_transitive(start, before, self.allocation(), adjs, ev, th);
                }
            }
            r += 1;
        }
    }

    /// Assigns the chairs, then the wings.
    pub fn update_state_by_assigning_adjudicators(&mut self)
        requires
            old(self).wf(),
        ensures
            final(self).wf(),
            final(self).adjudicators@ == old(self).adjudicators@,
            final(self).options == old(self).options,
            final(self).evaluator == old(self).evaluator,
            final(self).allocation() == wing_rounds(
                apply_chair_flows(
                    old(self).allocation(),
                    old(self).adjudicators@,
                    min_cost_flow_paths(
                        chair_graph(
                            old(self).allocation(),
                            old(self).adjudicators@,
                            old(self).evaluator,
                            old(self).options.hard_clash_threshold,
                        ),
                    ),
                ),
                old(self).adjudicators@,
                old(self).evaluator,
                old(self).options.hard_clash_threshold,
                old(self).rounds@.len() as int,
            ),
    {
        self.update_state_by_assigning_chairs();
        self.update_state_by_assigning_wings();
    }
}

proof fn lemma_unassigned_in_range(asg: Seq<Seq<AdjudicatorPosition>>, r: int, k: int)
    requires
        k >= 0,
    ensures
        forall|i: int| 0 <= i < unassigned_list(asg, r, k).len() ==> 0 <= #[trigger] unassigned_list(asg, r, k)[i] < k,
    decreases k,
{
    if k > 0 {
        lemma_unassigned_in_range(asg, r, k - 1);
        let u = unassigned_list(asg, r, k);
        let p = unassigned_list(asg, r, k - 1);
        assert forall|i: int| 0 <= i < u.len() implies 0 <= #[trigger] u[i] < k by {
            if i < p.len() {
                assert(u[i] == p[i]);
            }
        }
    }
}

/// The index of the last wing with the id among the first `k`, -1 where none.
pub open spec fn last_wing_index(wings: Seq<u128>, id: u128, k: int) -> int
    decreases k,
{
    if k <= 0 {
        -1
    } else if wings[k - 1] == id {
        k - 1
    } else {
        last_wing_index(wings, id, k - 1)
    }
}

/// Where the adjudicator sits after the chair and the first `p` wings of the
/// debate are read, having sat at `prev` before.
pub open spec fn debate_position(prev: AdjudicatorPosition, debate: DebateView, id: u128, d: int, p: int) -> AdjudicatorPosition {
    let w = last_wing_index(debate.wings, id, p);
    if w >= 0 {
        AdjudicatorPosition::Wing { debate_idx: d as usize, position: w as usize }
    } else if debate.chair == Some(id) {
        AdjudicatorPosition::Chair { debate_idx: d as usize }
    } else {
        prev
    }
}

/// Where the adjudicator sits in a round after its first `k` debates are
/// read: its last place as a chair or wing, unassigned where it has none.
pub open spec fn position_in_round(debates: Seq<DebateView>, id: u128, k: int) -> AdjudicatorPosition
    decreases k,
{
    if k <= 0 {
        AdjudicatorPosition::Unassigned
    } else {
        debate_position(position_in_round(debates, id, k - 1), debates[k - 1], id, k - 1, debates[k - 1].wings.len() as int)
    }
}

/// The index of the last round with the id, -1 where none.
pub open spec fn last_round_index(rounds: Seq<RoundView>, id: u128) -> int
    decreases rounds.len(),
{
    if rounds.len() == 0 {
        -1
    } else if rounds.last().id == id {
        rounds.len() - 1
    } else {
        last_round_index(rounds.drop_last(), id)
    }
}

/// Whether one of the first `k` unavailable rounds is, by its last
/// occurrence, round `r`.
pub open spec fn marked_unavailable(rounds: Seq<RoundView>, unavailable: Seq<u128>, r: int, k: int) -> bool {
    exists|i: int| 0 <= i < k && last_round_index(rounds, #[trigger] unavailable[i]) == r
}

/// Where an adjudicator starts in round `r`: unavailable where it is
/// unavailable in the round (by the round's last occurrence), else as the
/// debates place it.
pub open spec fn initial_position(rounds: Seq<RoundView>, id: u128, unavailable: Seq<u128>, r: int) -> AdjudicatorPosition {
    if marked_unavailable(rounds, unavailable, r, unavailable.len() as int) {
        AdjudicatorPosition::Unavailable
    } else {
        position_in_round(rounds[r].debates, id, rounds[r].debates.len() as int)
    }
}

proof fn lemma_last_round_index(rounds: Seq<RoundView>, id: u128)
    ensures
        -1 <= last_round_index(rounds, id) < rounds.len(),
    decreases rounds.len(),
{
    if rounds.len() > 0 {
        lemma_last_round_index(rounds.drop_last(), id);
    }
}

/// The index of the last round with the id.
fn find_last_round(rounds: &Vec<RoundInfo>, id: u128) -> (r: Option<usize>)
    ensures
        r is Some <==> last_round_index(rounds_view(rounds@), id) >= 0,
        r matches Some(k) ==> k as int == last_round_index(rounds_view(rounds@), id),
{
    let ghost rv = rounds_view(rounds@);
    assert(rv.take(rounds.len() as int) =~= rv);
    let mut i: usize = rounds.len();
    while i > 0
        invariant
            i <= rounds.len(),
            rv == rounds_view(rounds@),
            last_round_index(rv, id) == last_round_index(rv.take(i as int), id),
        decreases i,
    {
        assert(rv.take(i as int).drop_last() =~= rv.take(i - 1));
        if rounds[i - 1].id == id {
            return Some(i - 1);
        }
        i -= 1;
    }
    None
}

/// Sets the position of the adjudicator in the round.
fn set_position(assignments: &mut Vec<Vec<AdjudicatorPosition>>, a: usize, r: usize, p: AdjudicatorPosition)
    requires
        a < old(assignments).len(),
        r < old(assignments)@[a as int].len(),
    ensures
        final(assignments).len() == old(assignments).len(),
        assignments_view(final(assignments)@) == assignments_view(old(assignments)@).update(
            a as int,
            old(assignments)@[a as int]@.update(r as int, p),
        ),
{
    let ghost before = assignments_view(assignments@);
    assignments[a][r] = p;
    assert(assignments_view(assignments@) =~= before.update(a as int, before[a as int].update(r as int, p)));
}

/// The index of the adjudicator with the id.
fn find_adjudicator(adjs: &Vec<AdjudicatorInfo>, id: u128) -> (r: Option<usize>)
    ensures
        r is Some <==> adj_index(adjs@, id) >= 0,
        r matches Some(k) ==> k as int == adj_index(adjs@, id) && k < adjs.len(),
{
    proof {
        lemma_adj_index(adjs@, id);
    }
    let mut i: usize = 0;
    while i < adjs.len()
        invariant
            i <= adjs.len(),
            forall|k: int| 0 <= k < i ==> adjs@[k].id != id,
        decreases adjs.len() - i,
    {
        if adjs[i].id == id {
            proof {
                lemma_adj_index_first(adjs@, id, i as int);
            }
            return Some(i);
        }
        i += 1;
    }
    None
}

/// A position table with every adjudicator unassigned in every round.
fn unassigned_table(num_adjudicators: usize, num_rounds: usize) -> (t: Vec<Vec<AdjudicatorPosition>>)
    ensures
        t.len() == num_adjudicators,
        forall|a: int| 0 <= a < num_adjudicators ==> (#[trigger] assignments_view(t@)[a]).len() == num_rounds,
        forall|a: int, r: int|
            0 <= a < num_adjudicators && 0 <= r < num_rounds ==> #[trigger] assignments_view(t@)[a][r]
                == AdjudicatorPosition::Unassigned,
{
    let mut t: Vec<Vec<AdjudicatorPosition>> = Vec::new();
    let mut a: usize = 0;
    while a < num_adjudicators
        invariant
            a <= num_adjudicators,
            t.len() == a,
            forall|x: int| 0 <= x < a ==> (#[trigger] assignments_view(t@)[x]).len() == num_rounds,
            forall|x: int, r: int|
                0 <= x < a && 0 <= r < num_rounds ==> #[trigger] assignments_view(t@)[x][r] == AdjudicatorPosition::Unassigned,
        decreases num_adjudicators - a,
    {
        let mut row: Vec<AdjudicatorPosition> = Vec::new();
        let mut r: usize = 0;
        while r < num_rounds
            invariant
                r <= num_rounds,
                row.len() == r,
                forall|x: int| 0 <= x < r ==> row@[x] == AdjudicatorPosition::Unassigned,
            decreases num_rounds - r,
        {
            row.push(AdjudicatorPosition::Unassigned);
            r += 1;
        }
        let ghost before = assignments_view(t@);
        let ghost row_view = row@;
        t.push(row);
        assert(assignments_view(t@) =~= before.push(row_view));
        a += 1;
    }
    t
}

/// The position table that the debates give: each adjudicator at its last
/// place in each round, unassigned where it has none.
fn placed_table(rounds: &Vec<RoundInfo>, adjudicators: &Vec<AdjudicatorInfo>) -> (t: Vec<Vec<AdjudicatorPosition>>)
    requires
        adjudicators_valid(adjudicators@),
        adjudicators_known(rounds_view(rounds@), adjudicators@),
    ensures
        t.len() == adjudicators.len(),
        forall|a: int| 0 <= a < adjudicators.len() ==> (#[trigger] assignments_view(t@)[a]).len() == rounds.len(),
        forall|a: int, r: int|
            0 <= a < adjudicators.len() && 0 <= r < rounds.len() ==> #[trigger] assignments_view(t@)[a][r] == position_in_round(
                rounds_view(rounds@)[r].debates,
                adjudicators@[a].id,
                rounds_view(rounds@)[r].debates.len() as int,
            ),
{
    let ghost rv = rounds_view(rounds@);
    let ghost adjs = adjudicators@;
    let na = adjudicators.len();
    let nr = rounds.len();
    let mut t = unassigned_table(na, nr);
    let mut r: usize = 0;
    while r < nr
        invariant
            r <= nr,
            nr == rounds.len(),
            na == adjudicators.len(),
            rv == rounds_view(rounds@),
            adjs == adjudicators@,
            adjudicators_valid(adjs),
            adjudicators_known(rv, adjs),
            t.len() == na,
            forall|a: int| 0 <= a < na ==> (#[trigger] assignments_view(t@)[a]).len() == nr,
            forall|a: int, x: int|
                0 <= a < na && 0 <= x < nr ==> #[trigger] assignments_view(t@)[a][x] == if x < r {
                    position_in_round(rv[x].debates, adjs[a].id, rv[x].debates.len() as int)
                } else {
                    AdjudicatorPosition::Unassigned
                },
        decreases nr - r,
    {
        let debates = &rounds[r].debates;
        let ghost dv = rv[r as int].debates;
        assert(dv == debates_view(debates@));
        let mut d: usize = 0;
        while d < debates.len()
            invariant
                d <= debates.len(),
                r < nr,
                nr == rounds.len(),
                na == adjudicators.len(),
                rv == rounds_view(rounds@),
                dv == rv[r as int].debates,
                dv == debates_view(debates@),
                adjs == adjudicators@,
                adjudicators_valid(adjs),
                adjudicators_known(rv, adjs),
                t.len() == na,
                forall|a: int| 0 <= a < na ==> (#[trigger] assignments_view(t@)[a]).len() == nr,
                forall|a: int, x: int|
                    0 <= a < na && 0 <= x < nr ==> #[trigger] assignments_view(t@)[a][x] == if x < r {
                        position_in_round(rv[x].debates, adjs[a].id, rv[x].debates.len() as int)
                    } else if x == r {
                        position_in_round(dv, adjs[a].id, d as int)
                    } else {
                        AdjudicatorPosition::Unassigned
                    },
            decreases debates.len() - d,
        {
            let debate = &debates[d];
            let ghost deb = dv[d as int];
            assert(deb == debate@);
            match debate.chair {
                Some(c) => {
                    assert(adj_index(adjs, c) >= 0);
                    let k = find_adjudicator(adjudicators, c).unwrap();
                    proof {
                        lemma_adj_index(adjs, c);
                    }
                    let ghost before = assignments_view(t@);
                    assert(before[k as int].len() == nr);
                    set_position(&mut t, k, r, AdjudicatorPosition::Chair { debate_idx: d });
                    proof {
                        assert forall|a: int, x: int| 0 <= a < na && 0 <= x < nr implies #[trigger] assignments_view(t@)[a][x] == if x < r {
                            position_in_round(rv[x].debates, adjs[a].id, rv[x].debates.len() as int)
                        } else if x == r {
                            debate_position(position_in_round(dv, adjs[a].id, d as int), deb, adjs[a].id, d as int, 0)
                        } else {
                            AdjudicatorPosition::Unassigned
                        } by {
                            if a == k && x == r {
                            } else {
                                assert(assignments_view(t@)[a][x] == before[a][x]);
                                if x == r {
                                    assert(adjs[a].id != c);
                                }
                            }
                        }
                    }
                },
                None => {},
            }
            let mut p: usize = 0;
            while p < debate.wings.len()
                invariant
                    p <= debate.wings.len(),
                    d < debates.len(),
                    r < nr,
                    nr == rounds.len(),
                    na == adjudicators.len(),
                    rv == rounds_view(rounds@),
                    dv == rv[r as int].debates,
                    dv == debates_view(debates@),
                    deb == dv[d as int],
                    deb == debate@,
                    adjs == adjudicators@,
                    adjudicators_valid(adjs),
                    adjudicators_known(rv, adjs),
                    t.len() == na,
                    forall|a: int| 0 <= a < na ==> (#[trigger] assignments_view(t@)[a]).len() == nr,
                    forall|a: int, x: int|
                        0 <= a < na && 0 <= x < nr ==> #[trigger] assignments_view(t@)[a][x] == if x < r {
                            position_in_round(rv[x].debates, adjs[a].id, rv[x].debates.len() as int)
                        } else if x == r {
                            debate_position(position_in_round(dv, adjs[a].id, d as int), deb, adjs[a].id, d as int, p as int)
                        } else {
                            AdjudicatorPosition::Unassigned
                        },
                decreases debate.wings.len() - p,
            {
                let w = debate.wings[p];
                assert(deb.wings == debate.wings@);
                assert(rv[r as int].debates[d as int] == deb);
                assert(w == rv[r as int].debates[d as int].wings[p as int]);
                assert(r < rv.len() && d < rv[r as int].debates.len() && p < rv[r as int].debates[d as int].wings.len());
                assert(adj_index(adjs, rv[r as int].debates[d as int].wings[p as int]) >= 0);
                let k = find_adjudicator(adjudicators, w).unwrap();
                proof {
                    lemma_adj_index(adjs, w);
                }
                let ghost before = assignments_view(t@);
                assert(before[k as int].len() == nr);
                set_position(&mut t, k, r, AdjudicatorPosition::Wing { debate_idx: d, position: p });
                proof {
                    assert forall|a: int, x: int| 0 <= a < na && 0 <= x < nr implies #[trigger] assignments_view(t@)[a][x] == if x < r {
                        position_in_round(rv[x].debates, adjs[a].id, rv[x].debates.len() as int)
                    } else if x == r {
                        debate_position(position_in_round(dv, adjs[a].id, d as int), deb, adjs[a].id, d as int, p + 1)
                    } else {
                        AdjudicatorPosition::Unassigned
                    } by {
                        if a == k && x == r {
                        } else {
                            assert(assignments_view(t@)[a][x] == before[a][x]);
                            if x == r {
                                assert(adjs[a].id != w);
                            }
                        }
                    }
                }
                p += 1;
            }
            d += 1;
        }
        r += 1;
    }
    t
}

impl<'a> OptimizationState<'a> {
    /// The allocation over the rounds: each adjudicator sits where the debates
    /// last place it in each round, unassigned where they do not, and is
    /// unavailable in the last round of each id it lists as unavailable.
    pub fn load_from_rounds(
        rounds: Vec<RoundInfo>,
        adjudicators: Vec<AdjudicatorInfo>,
        unavailable_rounds: Vec<Vec<u128>>,
        options: OptimizationOptions,
        evaluator: &'a DrawEvaluator<'a>,
    ) -> (s: Self)
        requires
            adjudicators_valid(adjudicators@),
            adjudicators_known(rounds_view(rounds@), adjudicators@),
            unavailable_rounds.len() == adjudicators.len(),
        ensures
            s.wf(),
            s.allocation().rounds == rounds_view(rounds@),
            s.adjudicators@ == adjudicators@,
            s.options == options,
            s.evaluator == evaluator,
            forall|a: int, r: int|
                0 <= a < adjudicators.len() && 0 <= r < rounds.len() ==> #[trigger] s.allocation().assignments[a][r]
                    == initial_position(rounds_view(rounds@), adjudicators@[a].id, unavailable_rounds@[a]@, r),
    {
        let ghost rv = rounds_view(rounds@);
        let ghost adjs = adjudicators@;
        let na = adjudicators.len();
        let nr = rounds.len();
        let mut t = placed_table(&rounds, &adjudicators);
        let mut a: usize = 0;
        while a < na
            invariant
                a <= na,
                na == adjudicators.len(),
                nr == rounds.len(),
                na == unavailable_rounds.len(),
                rv == rounds_view(rounds@),
                adjs == adjudicators@,
                t.len() == na,
                forall|x: int| 0 <= x < na ==> (#[trigger] assignments_view(t@)[x]).len() == nr,
                forall|b: int, x: int|
                    0 <= b < na && 0 <= x < nr ==> #[trigger] assignments_view(t@)[b][x] == if b < a {
                        initial_position(rv, adjs[b].id, unavailable_rounds@[b]@, x)
                    } else {
                        position_in_round(rv[x].debates, adjs[b].id, rv[x].debates.len() as int)
                    },
            decreases na - a,
        {
            let list = &unavailable_rounds[a];
            let mut i: usize = 0;
            while i < list.len()
                invariant
                    i <= list.len(),
                    a < na,
                    na == adjudicators.len(),
                    nr == rounds.len(),
                    na == unavailable_rounds.len(),
                    list == &unavailable_rounds@[a as int],
                    rv == rounds_view(rounds@),
                    adjs == adjudicators@,
                    t.len() == na,
                    forall|x: int| 0 <= x < na ==> (#[trigger] assignments_view(t@)[x]).len() == nr,
                    forall|b: int, x: int|
                        0 <= b < na && 0 <= x < nr ==> #[trigger] assignments_view(t@)[b][x] == if b < a {
                            initial_position(rv, adjs[b].id, unavailable_rounds@[b]@, x)
                        } else if b == a && marked_unavailable(rv, list@, x, i as int) {
                            AdjudicatorPosition::Unavailable
                        } else {
                            position_in_round(rv[x].debates, adjs[b].id, rv[x].debates.len() as int)
                        },
                decreases list.len() - i,
            {
                let u = list[i];
                let ghost before = assignments_view(t@);
                proof {
                    lemma_last_round_index(rv, u);
                }
                match find_last_round(&rounds, u) {
                    Some(idx) => {
                        assert(before[a as int].len() == nr);
                        set_position(&mut t, a, idx, AdjudicatorPosition::Unavailable);
                    },
                    None => {},
                }
                proof {
                    assert forall|b: int, x: int| 0 <= b < na && 0 <= x < nr implies #[trigger] assignments_view(t@)[b][x] == if b < a {
                        initial_position(rv, adjs[b].id, unavailable_rounds@[b]@, x)
                    } else if b == a && marked_unavailable(rv, list@, x, i + 1) {
                        AdjudicatorPosition::Unavailable
                    } else {
                        position_in_round(rv[x].debates, adjs[b].id, rv[x].debates.len() as int)
                    } by {
                        if b == a && last_round_index(rv, u) == x {
                            assert(list@[i as int] == u);
                        } else {
                            assert(assignments_view(t@)[b][x] == before[b][x]);
                            if b == a {
                                if marked_unavailable(rv, list@, x, i + 1) {
                                    let j = choose|j: int| 0 <= j < i + 1 && last_round_index(rv, #[trigger] list@[j]) == x;
                                    assert(j < i);
                                }
                            }
                        }
                    }
                }
                i += 1;
            }
            a += 1;
        }
        let s = OptimizationState { rounds, options, adjudicators, assignments: t, evaluator };
        assert(s.allocation().rounds == rv);
        s
    }
}

} // verus!
