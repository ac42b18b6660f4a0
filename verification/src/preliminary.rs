use vstd::prelude::*;

use crate::datastructures::{DebateView, DrawBallot, draw_ballot_debate, present_speakers, same_ballot};
use crate::clashes::{DrawEvaluationContext, HistoryEntry};
use crate::history::{history_view, record_draw_ballots};
use crate::evaluation::{DrawEvaluator, DrawEvaluatorConfig};
use crate::issues::copy_ids;
use crate::random::{is_index_permutation, seeded_draw_orders, seeded_orders};
use crate::optimization::{
    AssignmentError, auction_in_reach, candidate_severity, debate_severity, find_best_ballot_assignments,
    is_full_assignment, is_least_severe_pick, is_option_grid, lemma_least_pick_against_reorder, picks_one_per_option,
    grid_settles, severities_at_most, sum_of,
};
use crate::random::shuffle_ids;
use crate::optimization::lemma_sum_ext;
use crate::tab_draw::is_permutation_of;

verus! {

broadcast use vstd::seq_lib::group_to_multiset_ensures;

/// How the preliminary rounds are drawn.
#[derive(Clone, Copy, Debug, PartialEq, Eq, Structural)]
pub enum PreliminariesDrawMode {
    AvoidClashes,
}

/// Why the preliminary rounds could not be drawn.
pub enum PreliminaryDrawError {
    /// The number of teams is zero or not a multiple of three.
    IncorrectTeamCount(usize),
    /// The number of rounds is not a multiple of three.
    IncorrectRoundCount(usize),
    /// Anything else.
    Other { source: anyhow::Error },
}

/// A team of the preliminaries with its members.
pub struct DrawTeamInfo {
    pub uuid: u128,
    pub member_ids: Vec<u128>,
}

/// The teams, speakers and adjudicators the preliminaries are drawn from.
pub struct RoundGenerationContext {
    pub teams: Vec<DrawTeamInfo>,
    pub speakers: Vec<u128>,
    pub adjudicators: Vec<u128>,
}

/// Draws the preliminary rounds.
pub struct PreliminaryRoundGenerator {
    pub draw_mode: PreliminariesDrawMode,
}

/// Whether `f` sends the indices below `len` to distinct values below `n`.
pub open spec fn is_injection(f: Seq<usize>, len: nat, n: nat) -> bool {
    &&& f.len() == len
    &&& forall|j: int| 0 <= j < f.len() ==> #[trigger] f[j] < n
    &&& forall|i: int, j: int| 0 <= i < f.len() && 0 <= j < f.len() && i != j ==> #[trigger] f[i] != #[trigger] f[j]
}

/// The ids of the teams at the indices.
pub open spec fn team_ids_at(teams: Seq<DrawTeamInfo>, idx: Seq<usize>) -> Seq<u128> {
    idx.map_values(|i: usize| teams[i as int].uuid)
}

/// Whether the drawn ballots are the given ones with teams set: the
/// governments are the government teams in some order, each ballot has a
/// distinct team of the opposition bucket, and three non-aligned speakers
/// appended, the `k`-th a member of a team of the non-aligned bucket, no team
/// giving the `k`-th speaker of two ballots.
pub open spec fn is_team_assignment(
    ballots: Seq<DrawBallot>,
    out: Seq<DrawBallot>,
    teams: Seq<DrawTeamInfo>,
    gov: Seq<usize>,
    opp: Seq<usize>,
    na: Seq<usize>,
) -> bool {
    &&& out.len() == ballots.len()
    &&& forall|j: int| 0 <= j < out.len() ==> {
        &&& (#[trigger] out[j]).uuid == ballots[j].uuid
        &&& out[j].adjudicators@ == ballots[j].adjudicators@
        &&& out[j].president == ballots[j].president
        &&& out[j].non_aligned_speakers@.len() == ballots[j].non_aligned_speakers@.len() + 3
        &&& out[j].non_aligned_speakers@.take(ballots[j].non_aligned_speakers@.len() as int)
            == ballots[j].non_aligned_speakers@
    }
    &&& exists|perm: Seq<u128>| #[trigger] is_permutation_of(perm, team_ids_at(teams, gov)) && forall|j: int|
        0 <= j < out.len() ==> (#[trigger] out[j]).government == Some(perm[j])
    &&& exists|o: Seq<usize>| #[trigger] is_injection(o, out.len(), opp.len()) && forall|j: int| 0 <= j < out.len() ==> (#[trigger] out[j]).opposition
        == Some(teams[opp[o[j] as int] as int].uuid)
    &&& speaker_position_filled(ballots, out, teams, na, 0)
    &&& speaker_position_filled(ballots, out, teams, na, 1)
    &&& speaker_position_filled(ballots, out, teams, na, 2)
}

/// Whether the `k`-th appended non-aligned speaker of each ballot is a member
/// of a team of the non-aligned bucket, a distinct team for each ballot.
pub open spec fn speaker_position_filled(
    ballots: Seq<DrawBallot>,
    out: Seq<DrawBallot>,
    teams: Seq<DrawTeamInfo>,
    na: Seq<usize>,
    k: int,
) -> bool {
    exists|s: Seq<usize>| #[trigger] is_injection(s, out.len(), na.len()) && forall|j: int| 0 <= j < out.len() ==> {
        let slot = (#[trigger] out[j]).non_aligned_speakers@[ballots[j].non_aligned_speakers@.len() + k];
        &&& slot is Some
        &&& teams[na[s[j] as int] as int].member_ids@.contains(slot->Some_0)
    }
}


/// Whether the bucket's indices name teams.
pub open spec fn bucket_in_range(teams: Seq<DrawTeamInfo>, bucket: Seq<usize>) -> bool {
    forall|i: int| 0 <= i < bucket.len() ==> #[trigger] bucket[i] < teams.len()
}

/// Whether every team of the bucket has at least three members.
pub open spec fn bucket_has_three_members(teams: Seq<DrawTeamInfo>, bucket: Seq<usize>) -> bool {
    forall|i: int| 0 <= i < bucket.len() ==> teams[#[trigger] bucket[i] as int].member_ids.len() >= 3
}

/// For each team of the non-aligned bucket, in order, three of its members in
/// a random order: the first, second and third speaker positions.
fn position_buckets(teams: &Vec<DrawTeamInfo>, na: &Vec<usize>) -> (p: (Vec<u128>, Vec<u128>, Vec<u128>))
    requires
        bucket_in_range(teams@, na@),
        bucket_has_three_members(teams@, na@),
    ensures
        p.0.len() == na.len(),
        p.1.len() == na.len(),
        p.2.len() == na.len(),
        forall|i: int| 0 <= i < na.len() ==> teams@[na@[i] as int].member_ids@.contains(#[trigger] p.0@[i]),
        forall|i: int| 0 <= i < na.len() ==> teams@[na@[i] as int].member_ids@.contains(#[trigger] p.1@[i]),
        forall|i: int| 0 <= i < na.len() ==> teams@[na@[i] as int].member_ids@.contains(#[trigger] p.2@[i]),
{
    let mut first: Vec<u128> = Vec::new();
    let mut second: Vec<u128> = Vec::new();
    let mut third: Vec<u128> = Vec::new();
    let mut i: usize = 0;
    while i < na.len()
        invariant
            i <= na.len(),
            bucket_in_range(teams@, na@),
            bucket_has_three_members(teams@, na@),
            first.len() == i,
            second.len() == i,
            third.len() == i,
            forall|k: int| 0 <= k < i ==> teams@[na@[k] as int].member_ids@.contains(#[trigger] first@[k]),
            forall|k: int| 0 <= k < i ==> teams@[na@[k] as int].member_ids@.contains(#[trigger] second@[k]),
            forall|k: int| 0 <= k < i ==> teams@[na@[k] as int].member_ids@.contains(#[trigger] third@[k]),
        decreases na.len() - i,
    {
        let t = na[i];
        assert(t < teams.len());
        let ghost listed_members = teams@[t as int].member_ids@;
        let mut members = crate::issues::copy_ids(&teams[t].member_ids);
        shuffle_ids(&mut members);
        proof {
            assert forall|k: int| 0 <= k < 3 implies listed_members.contains(#[trigger] members@[k]) by {
                assert(members@.contains(members@[k]));
                assert(members@.to_multiset().count(members@[k]) > 0);
            }
        }
        first.push(members[0]);
        second.push(members[1]);
        third.push(members[2]);
        i += 1;
    }
    (first, second, third)
}

/// The ballots with the `j`-th government set to the `j`-th team of `govs`.
fn set_governments(ballots: &Vec<DrawBallot>, govs: &Vec<u128>) -> (out: Vec<DrawBallot>)
    requires
        govs.len() >= ballots.len(),
    ensures
        out.len() == ballots.len(),
        forall|j: int| 0 <= j < out.len() ==> {
            &&& (#[trigger] out@[j]).government == Some(govs@[j])
            &&& out@[j].uuid == ballots@[j].uuid
            &&& out@[j].opposition == ballots@[j].opposition
            &&& out@[j].adjudicators@ == ballots@[j].adjudicators@
            &&& out@[j].non_aligned_speakers@ == ballots@[j].non_aligned_speakers@
            &&& out@[j].president == ballots@[j].president
        },
{
    let mut out: Vec<DrawBallot> = Vec::new();
    let mut j: usize = 0;
    while j < ballots.len()
        invariant
            j <= ballots.len(),
            govs.len() >= ballots.len(),
            out.len() == j,
            forall|k: int| 0 <= k < j ==> {
                &&& (#[trigger] out@[k]).government == Some(govs@[k])
                &&& out@[k].uuid == ballots@[k].uuid
                &&& out@[k].opposition == ballots@[k].opposition
                &&& out@[k].adjudicators@ == ballots@[k].adjudicators@
                &&& out@[k].non_aligned_speakers@ == ballots@[k].non_aligned_speakers@
                &&& out@[k].president == ballots@[k].president
            },
        decreases ballots.len() - j,
    {
        let mut b = ballots[j].duplicate();
        b.government = Some(govs[j]);
        out.push(b);
        j += 1;
    }
    out
}

/// For each team of the bucket, the ballots with that team as opposition.
fn opposition_options(out: &Vec<DrawBallot>, teams: &Vec<DrawTeamInfo>, opp: &Vec<usize>) -> (c: Vec<Vec<DrawBallot>>)
    requires
        bucket_in_range(teams@, opp@),
    ensures
        c.len() == opp.len(),
        forall|o: int| 0 <= o < c.len() ==> (#[trigger] c@[o]).len() == out.len(),
        forall|o: int, j: int| 0 <= o < c.len() && 0 <= j < out.len() ==> {
            let b = #[trigger] c@[o]@[j];
            &&& b.opposition == Some(teams@[opp@[o] as int].uuid)
            &&& b.uuid == out@[j].uuid
            &&& b.government == out@[j].government
            &&& b.adjudicators@ == out@[j].adjudicators@
            &&& b.non_aligned_speakers@ == out@[j].non_aligned_speakers@
            &&& b.president == out@[j].president
        },
{
    let mut c: Vec<Vec<DrawBallot>> = Vec::new();
    let mut o: usize = 0;
    while o < opp.len()
        invariant
            o <= opp.len(),
            bucket_in_range(teams@, opp@),
            c.len() == o,
            forall|p: int| 0 <= p < c.len() ==> (#[trigger] c@[p]).len() == out.len(),
            forall|p: int, j: int| 0 <= p < c.len() && 0 <= j < out.len() ==> {
                let b = #[trigger] c@[p]@[j];
                &&& b.opposition == Some(teams@[opp@[p] as int].uuid)
                &&& b.uuid == out@[j].uuid
                &&& b.government == out@[j].government
                &&& b.adjudicators@ == out@[j].adjudicators@
                &&& b.non_aligned_speakers@ == out@[j].non_aligned_speakers@
                &&& b.president == out@[j].president
            },
        decreases opp.len() - o,
    {
        let team = teams[opp[o]].uuid;
        let mut row: Vec<DrawBallot> = Vec::new();
        let mut j: usize = 0;
        while j < out.len()
            invariant
                j <= out.len(),
                row.len() == j,
                forall|k: int| 0 <= k < j ==> {
                    let b = #[trigger] row@[k];
                    &&& b.opposition == Some(team)
                    &&& b.uuid == out@[k].uuid
                    &&& b.government == out@[k].government
                    &&& b.adjudicators@ == out@[k].adjudicators@
                    &&& b.non_aligned_speakers@ == out@[k].non_aligned_speakers@
                    &&& b.president == out@[k].president
                },
            decreases out.len() - j,
        {
            let mut b = out[j].duplicate();
            b.opposition = Some(team);
            row.push(b);
            j += 1;
        }
        c.push(row);
        o += 1;
    }
    c
}

/// For each speaker of the position, the ballots with that speaker appended as
/// non-aligned speaker.
fn speaker_options(out: &Vec<DrawBallot>, speakers: &Vec<u128>) -> (c: Vec<Vec<DrawBallot>>)
    ensures
        c.len() == speakers.len(),
        forall|s: int| 0 <= s < c.len() ==> (#[trigger] c@[s]).len() == out.len(),
        forall|s: int, j: int| 0 <= s < c.len() && 0 <= j < out.len() ==> {
            let b = #[trigger] c@[s]@[j];
            &&& b.non_aligned_speakers@ == out@[j].non_aligned_speakers@.push(Some(speakers@[s]))
            &&& b.uuid == out@[j].uuid
            &&& b.government == out@[j].government
            &&& b.opposition == out@[j].opposition
            &&& b.adjudicators@ == out@[j].adjudicators@
            &&& b.president == out@[j].president
        },
{
    let mut c: Vec<Vec<DrawBallot>> = Vec::new();
    let mut s: usize = 0;
    while s < speakers.len()
        invariant
            s <= speakers.len(),
            c.len() == s,
            forall|p: int| 0 <= p < c.len() ==> (#[trigger] c@[p]).len() == out.len(),
            forall|p: int, j: int| 0 <= p < c.len() && 0 <= j < out.len() ==> {
                let b = #[trigger] c@[p]@[j];
                &&& b.non_aligned_speakers@ == out@[j].non_aligned_speakers@.push(Some(speakers@[p]))
                &&& b.uuid == out@[j].uuid
                &&& b.government == out@[j].government
                &&& b.opposition == out@[j].opposition
                &&& b.adjudicators@ == out@[j].adjudicators@
                &&& b.president == out@[j].president
            },
        decreases speakers.len() - s,
    {
        let speaker = speakers[s];
        let mut row: Vec<DrawBallot> = Vec::new();
        let mut j: usize = 0;
        while j < out.len()
            invariant
                j <= out.len(),
                row.len() == j,
                forall|k: int| 0 <= k < j ==> {
                    let b = #[trigger] row@[k];
                    &&& b.non_aligned_speakers@ == out@[k].non_aligned_speakers@.push(Some(speaker))
                    &&& b.uuid == out@[k].uuid
                    &&& b.government == out@[k].government
                    &&& b.opposition == out@[k].opposition
                    &&& b.adjudicators@ == out@[k].adjudicators@
                    &&& b.president == out@[k].president
                },
            decreases out.len() - j,
        {
            let mut b = out[j].duplicate();
            b.non_aligned_speakers.push(Some(speaker));
            row.push(b);
            j += 1;
        }
        c.push(row);
        s += 1;
    }
    c
}

/// The ids of the teams at the indices.
fn bucket_team_ids(teams: &Vec<DrawTeamInfo>, bucket: &Vec<usize>) -> (ids: Vec<u128>)
    requires
        bucket_in_range(teams@, bucket@),
    ensures
        ids@ == team_ids_at(teams@, bucket@),
{
    let mut ids: Vec<u128> = Vec::new();
    let mut i: usize = 0;
    while i < bucket.len()
        invariant
            i <= bucket.len(),
            bucket_in_range(teams@, bucket@),
            ids@ =~= team_ids_at(teams@, bucket@.take(i as int)),
        decreases bucket.len() - i,
    {
        ids.push(teams[bucket[i]].uuid);
        i += 1;
    }
    assert(bucket@.take(bucket.len() as int) =~= bucket@);
    ids
}

/// Whether the non-aligned speaker is a member of a team of the bucket.
pub open spec fn is_bucket_member(x: Option<u128>, teams: Seq<DrawTeamInfo>, na: Seq<usize>) -> bool {
    x is Some && exists|t: int| 0 <= t < na.len() && (#[trigger] teams[na[t] as int]).member_ids@.contains(x->Some_0)
}

/// Whether `b` can stand among the candidates weighed while teams are put
/// into `base`: the slot, adjudicators and president of `base`, a team of the
/// government bucket as government, one of the opposition bucket as
/// opposition, and the non-aligned speakers of `base` followed by at most
/// three members of teams of the non-aligned bucket.
#[verifier::opaque]
pub open spec fn is_candidate_for(
    b: DrawBallot,
    base: DrawBallot,
    teams: Seq<DrawTeamInfo>,
    gov: Seq<usize>,
    opp: Seq<usize>,
    na: Seq<usize>,
) -> bool {
    let n0 = base.non_aligned_speakers@.len();
    &&& b.uuid == base.uuid
    &&& b.adjudicators@ == base.adjudicators@
    &&& b.president == base.president
    &&& b.government is Some
    &&& team_ids_at(teams, gov).contains(b.government->Some_0)
    &&& exists|o: int| 0 <= o < opp.len() && b.opposition == Some(#[trigger] teams[opp[o] as int].uuid)
    &&& n0 <= b.non_aligned_speakers@.len() <= n0 + 3
    &&& b.non_aligned_speakers@.take(n0 as int) == base.non_aligned_speakers@
    &&& forall|k: int| n0 <= k < b.non_aligned_speakers@.len() ==> is_bucket_member(#[trigger] b.non_aligned_speakers@[k], teams, na)
}

/// Whether no candidate for a ballot of the round has a total severity above
/// `s` under the evaluator.
pub open spec fn candidate_severities_at_most(
    e: DrawEvaluator,
    ballots: Seq<DrawBallot>,
    teams: Seq<DrawTeamInfo>,
    gov: Seq<usize>,
    opp: Seq<usize>,
    na: Seq<usize>,
    s: int,
) -> bool {
    forall|j: int, b: DrawBallot|
        0 <= j < ballots.len() && #[trigger] is_candidate_for(b, ballots[j], teams, gov, opp, na) ==> candidate_severity(e, b) <= s
}

/// Whether every candidate of the grid, at slot `j`, is a candidate for the
/// `j`-th ballot.
#[verifier::opaque]
pub open spec fn grid_of_candidates(
    grid: Seq<Vec<DrawBallot>>,
    ballots: Seq<DrawBallot>,
    teams: Seq<DrawTeamInfo>,
    gov: Seq<usize>,
    opp: Seq<usize>,
    na: Seq<usize>,
) -> bool {
    forall|o: int, j: int|
        0 <= o < grid.len() && 0 <= j < ballots.len() ==> is_candidate_for(#[trigger] grid[o]@[j], ballots[j], teams, gov, opp, na)
}

/// The debate of the `j`-th ballot at one stage of putting teams into it,
/// with the piece that the stage places taken from the `i`-th drawn ballot:
/// at stage `-1` the opposition, at stage `a` in `0..3` the `a`-th added
/// non-aligned speaker, after the pieces of the stages before it.
pub open spec fn stage_debate(base: Seq<DrawBallot>, out: Seq<DrawBallot>, a: int, j: int, i: int) -> DebateView {
    let n0 = base[j].non_aligned_speakers@.len();
    let m0 = base[i].non_aligned_speakers@.len();
    if a < 0 {
        DebateView {
            government: out[j].government,
            opposition: out[i].opposition,
            non_aligned_speakers: present_speakers(base[j].non_aligned_speakers@),
            ..draw_ballot_debate(base[j])
        }
    } else {
        DebateView {
            government: out[j].government,
            opposition: out[j].opposition,
            non_aligned_speakers: present_speakers(
                out[j].non_aligned_speakers@.take(n0 + a).push(out[i].non_aligned_speakers@[m0 + a]),
            ),
            ..draw_ballot_debate(base[j])
        }
    }
}

/// The total severity of a stage when ballot `j` gets the piece of drawn
/// ballot `pi[j]`.
pub open spec fn stage_severity(e: DrawEvaluator, base: Seq<DrawBallot>, out: Seq<DrawBallot>, a: int, pi: Seq<usize>) -> int {
    sum_of(|j: int| debate_severity(e, stage_debate(base, out, a, j, pi[j] as int)) as int, base.len() as int)
}

/// The order that leaves each ballot its own piece.
pub open spec fn identity_order(n: int) -> Seq<usize> {
    Seq::new(n as nat, |j: int| j as usize)
}

/// Whether at each stage of the draw no reordering of the pieces that the
/// stage placed among the ballots lowers the stage's total severity.
pub open spec fn is_stagewise_least_severe(e: DrawEvaluator, base: Seq<DrawBallot>, out: Seq<DrawBallot>) -> bool {
    forall|a: int, pi: Seq<usize>|
        #![trigger stage_severity(e, base, out, a, pi)]
        -1 <= a < 3 && is_full_assignment(pi, base.len() as int) ==> stage_severity(
            e,
            base,
            out,
            a,
            identity_order(base.len() as int),
        ) <= stage_severity(e, base, out, a, pi)
}

proof fn lemma_opposition_stage(
    e: DrawEvaluator,
    c: Seq<Vec<DrawBallot>>,
    sigma: Seq<usize>,
    base: Seq<DrawBallot>,
    out: Seq<DrawBallot>,
    teams: Seq<DrawTeamInfo>,
    opp: Seq<usize>,
    pi: Seq<usize>,
)
    requires
        is_option_grid(c),
        c.len() == c[0].len(),
        c.len() == base.len(),
        out.len() == base.len(),
        opp.len() == c.len(),
        is_full_assignment(sigma, c.len() as int),
        is_least_severe_pick(e, c, sigma),
        forall|o: int, j: int| 0 <= o < c.len() && 0 <= j < base.len() ==> {
            let b = #[trigger] c[o]@[j];
            &&& b.opposition == Some(teams[opp[o] as int].uuid)
            &&& b.uuid == base[j].uuid
            &&& b.government == out[j].government
            &&& b.adjudicators@ == base[j].adjudicators@
            &&& b.non_aligned_speakers@ == base[j].non_aligned_speakers@
            &&& b.president == base[j].president
        },
        forall|j: int| 0 <= j < out.len() ==> (#[trigger] out[j]).opposition == Some(teams[opp[sigma[j] as int] as int].uuid),
        is_full_assignment(pi, c.len() as int),
    ensures
        stage_severity(e, base, out, -1, identity_order(base.len() as int)) <= stage_severity(e, base, out, -1, pi),
{
    let n = base.len() as int;
    let view = |j: int, o: int|
        DebateView {
            government: out[j].government,
            opposition: Some(teams[opp[o] as int].uuid),
            non_aligned_speakers: present_speakers(base[j].non_aligned_speakers@),
            ..draw_ballot_debate(base[j])
        };
    assert forall|o: int, j: int| 0 <= o < n && 0 <= j < n implies draw_ballot_debate(#[trigger] c[o]@[j]) == view(j, o) by {
        let b = c[o]@[j];
        assert(b.adjudicators@ == base[j].adjudicators@);
        assert(draw_ballot_debate(b).wings =~= draw_ballot_debate(base[j]).wings);
    }
    lemma_least_pick_against_reorder(e, c, sigma, view, pi);
    let id = identity_order(n);
    lemma_sum_ext(
        |j: int| debate_severity(e, view(j, sigma[j] as int)) as int,
        |j: int| debate_severity(e, stage_debate(base, out, -1, j, id[j] as int)) as int,
        n,
    );
    assert forall|j: int| 0 <= j < n implies view(j, sigma[pi[j] as int] as int) == stage_debate(base, out, -1, j, pi[j] as int) by {
        assert(pi[j] < n);
        assert(out[pi[j] as int].opposition == Some(teams[opp[sigma[pi[j] as int] as int] as int].uuid));
    }
    lemma_sum_ext(
        |j: int| debate_severity(e, view(j, sigma[pi[j] as int] as int)) as int,
        |j: int| debate_severity(e, stage_debate(base, out, -1, j, pi[j] as int)) as int,
        n,
    );
}

proof fn lemma_speaker_stage(
    e: DrawEvaluator,
    c: Seq<Vec<DrawBallot>>,
    sigma: Seq<usize>,
    base: Seq<DrawBallot>,
    prev: Seq<DrawBallot>,
    out: Seq<DrawBallot>,
    speakers: Seq<u128>,
    a: int,
    pi: Seq<usize>,
)
    requires
        0 <= a,
        is_option_grid(c),
        c.len() == c[0].len(),
        c.len() == base.len(),
        prev.len() == base.len(),
        out.len() == base.len(),
        speakers.len() == c.len(),
        is_full_assignment(sigma, c.len() as int),
        is_least_severe_pick(e, c, sigma),
        forall|x: int, j: int| 0 <= x < c.len() && 0 <= j < prev.len() ==> {
            let b = #[trigger] c[x]@[j];
            &&& b.non_aligned_speakers@ == prev[j].non_aligned_speakers@.push(Some(speakers[x]))
            &&& b.uuid == prev[j].uuid
            &&& b.government == prev[j].government
            &&& b.opposition == prev[j].opposition
            &&& b.adjudicators@ == prev[j].adjudicators@
            &&& b.president == prev[j].president
        },
        forall|j: int| 0 <= j < prev.len() ==> {
            let p = #[trigger] prev[j];
            let n0 = base[j].non_aligned_speakers@.len();
            &&& p.uuid == base[j].uuid
            &&& p.adjudicators@ == base[j].adjudicators@
            &&& p.president == base[j].president
            &&& p.government == out[j].government
            &&& p.opposition == out[j].opposition
            &&& n0 + a < out[j].non_aligned_speakers@.len()
            &&& p.non_aligned_speakers@ == out[j].non_aligned_speakers@.take(n0 + a)
            &&& out[j].non_aligned_speakers@[n0 + a] == Some(speakers[sigma[j] as int])
        },
        is_full_assignment(pi, c.len() as int),
    ensures
        stage_severity(e, base, out, a, identity_order(base.len() as int)) <= stage_severity(e, base, out, a, pi),
{
    let n = base.len() as int;
    let view = |j: int, x: int|
        DebateView {
            government: out[j].government,
            opposition: out[j].opposition,
            non_aligned_speakers: present_speakers(
                out[j].non_aligned_speakers@.take(base[j].non_aligned_speakers@.len() + a).push(Some(speakers[x])),
            ),
            ..draw_ballot_debate(base[j])
        };
    assert forall|x: int, j: int| 0 <= x < n && 0 <= j < n implies draw_ballot_debate(#[trigger] c[x]@[j]) == view(j, x) by {
        let b = c[x]@[j];
        let p = prev[j];
        assert(b.adjudicators@ == base[j].adjudicators@);
        assert(draw_ballot_debate(b).wings =~= draw_ballot_debate(base[j]).wings);
        assert(b.non_aligned_speakers@ =~= out[j].non_aligned_speakers@.take(base[j].non_aligned_speakers@.len() + a).push(
            Some(speakers[x]),
        ));
    }
    lemma_least_pick_against_reorder(e, c, sigma, view, pi);
    let id = identity_order(n);
    assert forall|j: int| 0 <= j < n implies view(j, sigma[j] as int) == stage_debate(base, out, a, j, id[j] as int) by {
        assert(prev[j].non_aligned_speakers@ == out[j].non_aligned_speakers@.take(base[j].non_aligned_speakers@.len() + a));
    }
    lemma_sum_ext(
        |j: int| debate_severity(e, view(j, sigma[j] as int)) as int,
        |j: int| debate_severity(e, stage_debate(base, out, a, j, id[j] as int)) as int,
        n,
    );
    assert forall|j: int| 0 <= j < n implies view(j, sigma[pi[j] as int] as int) == stage_debate(base, out, a, j, pi[j] as int) by {
        let i = pi[j] as int;
        assert(pi[j] < n);
        assert(prev[i].non_aligned_speakers@ == out[i].non_aligned_speakers@.take(base[i].non_aligned_speakers@.len() + a));
    }
    lemma_sum_ext(
        |j: int| debate_severity(e, view(j, sigma[pi[j] as int] as int)) as int,
        |j: int| debate_severity(e, stage_debate(base, out, a, j, pi[j] as int)) as int,
        n,
    );
}

/// Whether some grid of candidates for the ballots, as many candidates per
/// option as ballots, is one on which the auction does not settle.
#[verifier::opaque]
pub open spec fn some_candidate_grid_stops(
    e: DrawEvaluator,
    ballots: Seq<DrawBallot>,
    teams: Seq<DrawTeamInfo>,
    gov: Seq<usize>,
    opp: Seq<usize>,
    na: Seq<usize>,
) -> bool {
    exists|g: Seq<Vec<DrawBallot>>|
        #[trigger] grid_of_candidates(g, ballots, teams, gov, opp, na) && is_option_grid(g) && g[0].len() == ballots.len()
            && !grid_settles(e, g)
}

proof fn lemma_grid_severities(
    e: DrawEvaluator,
    grid: Seq<Vec<DrawBallot>>,
    ballots: Seq<DrawBallot>,
    teams: Seq<DrawTeamInfo>,
    gov: Seq<usize>,
    opp: Seq<usize>,
    na: Seq<usize>,
    s: int,
)
    requires
        grid.len() > 0,
        grid[0].len() == ballots.len(),
        grid_of_candidates(grid, ballots, teams, gov, opp, na),
        candidate_severities_at_most(e, ballots, teams, gov, opp, na, s),
    ensures
        severities_at_most(e, grid, s),
{
    reveal(grid_of_candidates);
    assert forall|o: int, b: int| 0 <= o < grid.len() && 0 <= b < grid[0].len() implies candidate_severity(
        e,
        #[trigger] grid[o]@[b],
    ) <= s by {
        assert(is_candidate_for(grid[o]@[b], ballots[b], teams, gov, opp, na));
    }
}

proof fn lemma_permutation_contains(s: Seq<u128>, t: Seq<u128>, j: int)
    requires
        is_permutation_of(s, t),
        0 <= j < s.len(),
    ensures
        t.contains(s[j]),
{
    s.to_multiset_ensures();
    t.to_multiset_ensures();
    assert(s.contains(s[j]));
    assert(s.to_multiset().count(s[j]) > 0);
    assert(t.to_multiset().count(s[j]) > 0);
}

/// The ballots picked from a grid of candidates are candidates too.
proof fn lemma_picked_candidates(
    out: Seq<DrawBallot>,
    grid: Seq<Vec<DrawBallot>>,
    sigma: Seq<usize>,
    ballots: Seq<DrawBallot>,
    teams: Seq<DrawTeamInfo>,
    gov: Seq<usize>,
    opp: Seq<usize>,
    na: Seq<usize>,
    added: int,
)
    requires
        picks_one_per_option(out, grid, sigma),
        out.len() == ballots.len(),
        grid_of_candidates(grid, ballots, teams, gov, opp, na),
        forall|x: int, j: int|
            0 <= x < grid.len() && 0 <= j < out.len() ==> (#[trigger] grid[x]@[j]).non_aligned_speakers@.len()
                == ballots[j].non_aligned_speakers@.len() + added,
    ensures
        forall|j: int| 0 <= j < out.len() ==> is_candidate_for(#[trigger] out[j], ballots[j], teams, gov, opp, na),
        forall|j: int|
            0 <= j < out.len() ==> (#[trigger] out[j]).non_aligned_speakers@.len() == ballots[j].non_aligned_speakers@.len()
                + added,
{
    reveal(grid_of_candidates);
    reveal(is_candidate_for);
    assert forall|j: int| 0 <= j < out.len() implies is_candidate_for(#[trigger] out[j], ballots[j], teams, gov, opp, na) by {
        let c = grid[sigma[j] as int]@[j];
        assert(same_ballot(out[j], c));
        assert(is_candidate_for(c, ballots[j], teams, gov, opp, na));
        let n0 = ballots[j].non_aligned_speakers@.len();
        assert forall|k: int| n0 <= k < out[j].non_aligned_speakers@.len() implies is_bucket_member(
            #[trigger] out[j].non_aligned_speakers@[k],
            teams,
            na,
        ) by {
            assert(c.non_aligned_speakers@[k] == out[j].non_aligned_speakers@[k]);
        }
    }
    assert forall|j: int| 0 <= j < out.len() implies (#[trigger] out[j]).non_aligned_speakers@.len()
        == ballots[j].non_aligned_speakers@.len() + added by {
        assert(same_ballot(out[j], grid[sigma[j] as int]@[j]));
    }
}

/// Appending a member of a team of the non-aligned bucket to the speakers of
/// candidates with room for one more gives candidates.
proof fn lemma_speaker_grid(
    grid: Seq<Vec<DrawBallot>>,
    out: Seq<DrawBallot>,
    speakers: Seq<u128>,
    ballots: Seq<DrawBallot>,
    teams: Seq<DrawTeamInfo>,
    gov: Seq<usize>,
    opp: Seq<usize>,
    na: Seq<usize>,
    added: int,
)
    requires
        0 <= added < 3,
        grid.len() == speakers.len(),
        speakers.len() == na.len(),
        out.len() == ballots.len(),
        forall|i: int| 0 <= i < na.len() ==> teams[na[i] as int].member_ids@.contains(#[trigger] speakers[i]),
        forall|j: int| 0 <= j < out.len() ==> is_candidate_for(#[trigger] out[j], ballots[j], teams, gov, opp, na),
        forall|j: int|
            0 <= j < out.len() ==> (#[trigger] out[j]).non_aligned_speakers@.len() == ballots[j].non_aligned_speakers@.len()
                + added,
        forall|x: int, j: int| 0 <= x < grid.len() && 0 <= j < out.len() ==> {
            let b = #[trigger] grid[x]@[j];
            &&& b.non_aligned_speakers@ == out[j].non_aligned_speakers@.push(Some(speakers[x]))
            &&& b.uuid == out[j].uuid
            &&& b.government == out[j].government
            &&& b.opposition == out[j].opposition
            &&& b.adjudicators@ == out[j].adjudicators@
            &&& b.president == out[j].president
        },
    ensures
        grid_of_candidates(grid, ballots, teams, gov, opp, na),
        forall|x: int, j: int|
            0 <= x < grid.len() && 0 <= j < out.len() ==> (#[trigger] grid[x]@[j]).non_aligned_speakers@.len()
                == ballots[j].non_aligned_speakers@.len() + added + 1,
{
    reveal(grid_of_candidates);
    reveal(is_candidate_for);
    assert forall|x: int, j: int| 0 <= x < grid.len() && 0 <= j < ballots.len() implies is_candidate_for(
        #[trigger] grid[x]@[j],
        ballots[j],
        teams,
        gov,
        opp,
        na,
    ) by {
        let b = grid[x]@[j];
        let o = out[j];
        assert(is_candidate_for(o, ballots[j], teams, gov, opp, na));
        let n0 = ballots[j].non_aligned_speakers@.len();
        let last = o.non_aligned_speakers@.len();
        assert(b.non_aligned_speakers@.take(n0 as int) =~= o.non_aligned_speakers@.take(n0 as int));
        assert(teams[na[x] as int].member_ids@.contains(speakers[x]));
        assert forall|k: int| n0 <= k < b.non_aligned_speakers@.len() implies is_bucket_member(
            #[trigger] b.non_aligned_speakers@[k],
            teams,
            na,
        ) by {
            if k < last {
                assert(b.non_aligned_speakers@[k] == o.non_aligned_speakers@[k]);
            } else {
                assert(b.non_aligned_speakers@[k] == Some(speakers[x]));
            }
        }
    }
}

/// Setting the government to a team of the government bucket and the
/// opposition to a team of the opposition bucket gives candidates.
proof fn lemma_opposition_grid(
    grid: Seq<Vec<DrawBallot>>,
    out: Seq<DrawBallot>,
    govs: Seq<u128>,
    ballots: Seq<DrawBallot>,
    teams: Seq<DrawTeamInfo>,
    gov: Seq<usize>,
    opp: Seq<usize>,
    na: Seq<usize>,
)
    requires
        grid.len() == opp.len(),
        out.len() == ballots.len(),
        govs.len() >= ballots.len(),
        forall|j: int| 0 <= j < ballots.len() ==> team_ids_at(teams, gov).contains(#[trigger] govs[j]),
        forall|j: int| 0 <= j < out.len() ==> {
            &&& (#[trigger] out[j]).government == Some(govs[j])
            &&& out[j].uuid == ballots[j].uuid
            &&& out[j].adjudicators@ == ballots[j].adjudicators@
            &&& out[j].non_aligned_speakers@ == ballots[j].non_aligned_speakers@
            &&& out[j].president == ballots[j].president
        },
        forall|o: int, j: int| 0 <= o < grid.len() && 0 <= j < out.len() ==> {
            let b = #[trigger] grid[o]@[j];
            &&& b.opposition == Some(teams[opp[o] as int].uuid)
            &&& b.uuid == out[j].uuid
            &&& b.government == out[j].government
            &&& b.adjudicators@ == out[j].adjudicators@
            &&& b.non_aligned_speakers@ == out[j].non_aligned_speakers@
            &&& b.president == out[j].president
        },
    ensures
        grid_of_candidates(grid, ballots, teams, gov, opp, na),
        forall|o: int, j: int|
            0 <= o < grid.len() && 0 <= j < out.len() ==> (#[trigger] grid[o]@[j]).non_aligned_speakers@.len()
                == ballots[j].non_aligned_speakers@.len(),
{
    reveal(grid_of_candidates);
    reveal(is_candidate_for);
    assert forall|o: int, j: int| 0 <= o < grid.len() && 0 <= j < ballots.len() implies is_candidate_for(
        #[trigger] grid[o]@[j],
        ballots[j],
        teams,
        gov,
        opp,
        na,
    ) by {
        let b = grid[o]@[j];
        assert(out[j].government == Some(govs[j]));
        assert(team_ids_at(teams, gov).contains(govs[j]));
        assert(b.opposition == Some(teams[opp[o] as int].uuid));
        assert(b.non_aligned_speakers@.take(ballots[j].non_aligned_speakers@.len() as int) =~= ballots[j].non_aligned_speakers@);
    }
}

impl PreliminaryRoundGenerator {
    /// Puts teams into the ballots of a round: the government teams in a random
    /// order, then by auction on the clash severity the opposition teams, then
    /// the first, second and third non-aligned speaker, each from a distinct
    /// team of the non-aligned bucket. With opposition and non-aligned buckets
    /// of one team per ballot, and the total severity of every candidate for a
    /// ballot (`is_candidate_for`) bounded by an `s` for which
    /// `auction_in_reach` holds, each auction settles and the assignment is
    /// returned. With buckets of one team per ballot, each stage picks its
    /// pieces with the least total severity (`is_stagewise_least_severe`).
    /// It fails only where the auction on some grid of candidates for the
    /// ballots does not settle (`some_candidate_grid_stops`).
    #[verifier::spinoff_prover]
    fn assign_teams_to_ballots(
        &self,
        ballots: &Vec<DrawBallot>,
        teams: &Vec<DrawTeamInfo>,
        gov_bucket: &Vec<usize>,
        opp_bucket: &Vec<usize>,
        non_aligned_bucket: &Vec<usize>,
        evaluator: &DrawEvaluator,
    ) -> (r: Result<Vec<DrawBallot>, AssignmentError>)
        requires
            ballots.len() > 0,
            gov_bucket.len() >= ballots.len(),
            opp_bucket.len() > 0,
            non_aligned_bucket.len() > 0,
            opp_bucket.len() * ballots.len() <= usize::MAX,
            non_aligned_bucket.len() * ballots.len() <= usize::MAX,
            bucket_in_range(teams@, gov_bucket@),
            bucket_in_range(teams@, opp_bucket@),
            bucket_in_range(teams@, non_aligned_bucket@),
            bucket_has_three_members(teams@, non_aligned_bucket@),
        ensures
            r matches Ok(out) ==> is_team_assignment(
                ballots@,
                out@,
                teams@,
                gov_bucket@,
                opp_bucket@,
                non_aligned_bucket@,
            ),
            r matches Ok(out) ==> (opp_bucket.len() == ballots.len() && non_aligned_bucket.len() == ballots.len()
                ==> is_stagewise_least_severe(*evaluator, ballots@, out@)),
            r is Err ==> some_candidate_grid_stops(*evaluator, ballots@, teams@, gov_bucket@, opp_bucket@, non_aligned_bucket@),
            forall|s: int|
                #[trigger] candidate_severities_at_most(
                    *evaluator,
                    ballots@,
                    teams@,
                    gov_bucket@,
                    opp_bucket@,
                    non_aligned_bucket@,
                    s,
                ) && opp_bucket.len() == ballots.len() && non_aligned_bucket.len() == ballots.len() && auction_in_reach(
                    ballots.len() as int,
                    s,
                ) ==> r is Ok,
    {
        let (p0, p1, p2) = position_buckets(teams, non_aligned_bucket);
        let ghost all_govs = team_ids_at(teams@, gov_bucket@);
        let mut govs = bucket_team_ids(teams, gov_bucket);
        shuffle_ids(&mut govs);
        assert(is_permutation_of(govs@, all_govs));
        let out0 = set_governments(ballots, &govs);
        let n = ballots.len();
        match self.draw_mode {
            PreliminariesDrawMode::AvoidClashes => {
                let c1 = opposition_options(&out0, teams, opp_bucket);
                assert(is_option_grid(c1@)) by {
                    assert(c1@[0].len() == n);
                }
                proof {
                    assert forall|j: int| 0 <= j < n implies team_ids_at(teams@, gov_bucket@).contains(#[trigger] govs@[j]) by {
                        lemma_permutation_contains(govs@, all_govs, j);
                    }
                    lemma_opposition_grid(c1@, out0@, govs@, ballots@, teams@, gov_bucket@, opp_bucket@, non_aligned_bucket@);
                    assert forall|s: int|
                        #[trigger] candidate_severities_at_most(
                            *evaluator,
                            ballots@,
                            teams@,
                            gov_bucket@,
                            opp_bucket@,
                            non_aligned_bucket@,
                            s,
                        ) && opp_bucket.len() == n && non_aligned_bucket.len() == n && auction_in_reach(n as int, s) implies severities_at_most(
                            *evaluator,
                            c1@,
                            s,
                        ) && c1@.len() == c1@[0].len() by {
                        lemma_grid_severities(*evaluator, c1@, ballots@, teams@, gov_bucket@, opp_bucket@, non_aligned_bucket@, s);
                    }
                }
                proof {
                    assert(!grid_settles(*evaluator, c1@) ==> some_candidate_grid_stops(
                        *evaluator,
                        ballots@,
                        teams@,
                        gov_bucket@,
                        opp_bucket@,
                        non_aligned_bucket@,
                    )) by {
                        reveal(some_candidate_grid_stops);
                        assert(c1@[0].len() == n);
                    }
                }
                let out1 = find_best_ballot_assignments(&c1, evaluator)?;
                let ghost s1 = choose|sigma: Seq<usize>|
                    #[trigger] picks_one_per_option(out1@, c1@, sigma) && is_least_severe_pick(*evaluator, c1@, sigma);
                let c2 = speaker_options(&out1, &p0);
                assert(is_option_grid(c2@)) by {
                    assert(c2@[0].len() == n);
                }
                proof {
                    lemma_picked_candidates(out1@, c1@, s1, ballots@, teams@, gov_bucket@, opp_bucket@, non_aligned_bucket@, 0);
                    lemma_speaker_grid(c2@, out1@, p0@, ballots@, teams@, gov_bucket@, opp_bucket@, non_aligned_bucket@, 0);
                    assert forall|s: int|
                        #[trigger] candidate_severities_at_most(
                            *evaluator,
                            ballots@,
                            teams@,
                            gov_bucket@,
                            opp_bucket@,
                            non_aligned_bucket@,
                            s,
                        ) && opp_bucket.len() == n && non_aligned_bucket.len() == n && auction_in_reach(n as int, s) implies severities_at_most(
                            *evaluator,
                            c2@,
                            s,
                        ) && c2@.len() == c2@[0].len() by {
                        lemma_grid_severities(*evaluator, c2@, ballots@, teams@, gov_bucket@, opp_bucket@, non_aligned_bucket@, s);
                    }
                }
                proof {
                    assert(!grid_settles(*evaluator, c2@) ==> some_candidate_grid_stops(
                        *evaluator,
                        ballots@,
                        teams@,
                        gov_bucket@,
                        opp_bucket@,
                        non_aligned_bucket@,
                    )) by {
                        reveal(some_candidate_grid_stops);
                        assert(c2@[0].len() == n);
                    }
                }
                let out2 = find_best_ballot_assignments(&c2, evaluator)?;
                let ghost s2 = choose|sigma: Seq<usize>|
                    #[trigger] picks_one_per_option(out2@, c2@, sigma) && is_least_severe_pick(*evaluator, c2@, sigma);
                let c3 = speaker_options(&out2, &p1);
                assert(is_option_grid(c3@)) by {
                    assert(c3@[0].len() == n);
                }
                proof {
                    lemma_picked_candidates(out2@, c2@, s2, ballots@, teams@, gov_bucket@, opp_bucket@, non_aligned_bucket@, 1);
                    lemma_speaker_grid(c3@, out2@, p1@, ballots@, teams@, gov_bucket@, opp_bucket@, non_aligned_bucket@, 1);
                    assert forall|s: int|
                        #[trigger] candidate_severities_at_most(
                            *evaluator,
                            ballots@,
                            teams@,
                            gov_bucket@,
                            opp_bucket@,
                            non_aligned_bucket@,
                            s,
                        ) && opp_bucket.len() == n && non_aligned_bucket.len() == n && auction_in_reach(n as int, s) implies severities_at_most(
                            *evaluator,
                            c3@,
                            s,
                        ) && c3@.len() == c3@[0].len() by {
                        lemma_grid_severities(*evaluator, c3@, ballots@, teams@, gov_bucket@, opp_bucket@, non_aligned_bucket@, s);
                    }
                }
                proof {
                    assert(!grid_settles(*evaluator, c3@) ==> some_candidate_grid_stops(
                        *evaluator,
                        ballots@,
                        teams@,
                        gov_bucket@,
                        opp_bucket@,
                        non_aligned_bucket@,
                    )) by {
                        reveal(some_candidate_grid_stops);
                        assert(c3@[0].len() == n);
                    }
                }
                let out3 = find_best_ballot_assignments(&c3, evaluator)?;
                let ghost s3 = choose|sigma: Seq<usize>|
                    #[trigger] picks_one_per_option(out3@, c3@, sigma) && is_least_severe_pick(*evaluator, c3@, sigma);
                let c4 = speaker_options(&out3, &p2);
                assert(is_option_grid(c4@)) by {
                    assert(c4@[0].len() == n);
                }
                proof {
                    lemma_picked_candidates(out3@, c3@, s3, ballots@, teams@, gov_bucket@, opp_bucket@, non_aligned_bucket@, 2);
                    lemma_speaker_grid(c4@, out3@, p2@, ballots@, teams@, gov_bucket@, opp_bucket@, non_aligned_bucket@, 2);
                    assert forall|s: int|
                        #[trigger] candidate_severities_at_most(
                            *evaluator,
                            ballots@,
                            teams@,
                            gov_bucket@,
                            opp_bucket@,
                            non_aligned_bucket@,
                            s,
                        ) && opp_bucket.len() == n && non_aligned_bucket.len() == n && auction_in_reach(n as int, s) implies severities_at_most(
                            *evaluator,
                            c4@,
                            s,
                        ) && c4@.len() == c4@[0].len() by {
                        lemma_grid_severities(*evaluator, c4@, ballots@, teams@, gov_bucket@, opp_bucket@, non_aligned_bucket@, s);
                    }
                }
                proof {
                    assert(!grid_settles(*evaluator, c4@) ==> some_candidate_grid_stops(
                        *evaluator,
                        ballots@,
                        teams@,
                        gov_bucket@,
                        opp_bucket@,
                        non_aligned_bucket@,
                    )) by {
                        reveal(some_candidate_grid_stops);
                        assert(c4@[0].len() == n);
                    }
                }
                let out4 = find_best_ballot_assignments(&c4, evaluator)?;
                let ghost s4 = choose|sigma: Seq<usize>|
                    #[trigger] picks_one_per_option(out4@, c4@, sigma) && is_least_severe_pick(*evaluator, c4@, sigma);
                proof {
                    let b = ballots@;
                    assert forall|j: int| 0 <= j < n implies {
                        &&& (#[trigger] out4@[j]).uuid == b[j].uuid
                        &&& out4@[j].adjudicators@ == b[j].adjudicators@
                        &&& out4@[j].president == b[j].president
                        &&& out4@[j].government == Some(govs@[j])
                        &&& out4@[j].opposition == Some(teams@[opp_bucket@[s1[j] as int] as int].uuid)
                        &&& out4@[j].non_aligned_speakers@ == b[j].non_aligned_speakers@.push(Some(p0@[s2[j] as int])).push(
                            Some(p1@[s3[j] as int]),
                        ).push(Some(p2@[s4[j] as int]))
                    } by {
                        assert(same_ballot(out1@[j], c1@[s1[j] as int]@[j]));
                        assert(same_ballot(out2@[j], c2@[s2[j] as int]@[j]));
                        assert(same_ballot(out3@[j], c3@[s3[j] as int]@[j]));
                        assert(same_ballot(out4@[j], c4@[s4[j] as int]@[j]));
                    }
                    assert(exists|perm: Seq<u128>| #[trigger] is_permutation_of(perm, all_govs) && forall|j: int|
                        0 <= j < out4@.len() ==> (#[trigger] out4@[j]).government == Some(perm[j]));
                    assert(is_injection(s1, out4@.len(), opp_bucket@.len()));
                    assert(forall|j: int| 0 <= j < out4@.len() ==> (#[trigger] out4@[j]).opposition
                        == Some(teams@[opp_bucket@[s1[j] as int] as int].uuid));
                    assert forall|j: int| 0 <= j < n implies {
                        &&& (#[trigger] out4@[j]).non_aligned_speakers@.len() == b[j].non_aligned_speakers@.len() + 3
                        &&& out4@[j].non_aligned_speakers@.take(b[j].non_aligned_speakers@.len() as int)
                            == b[j].non_aligned_speakers@
                    } by {
                        assert(out4@[j].non_aligned_speakers@.take(b[j].non_aligned_speakers@.len() as int)
                            =~= b[j].non_aligned_speakers@);
                    }
                    assert(is_injection(s2, out4@.len(), non_aligned_bucket@.len()));
                    assert(is_injection(s3, out4@.len(), non_aligned_bucket@.len()));
                    assert(is_injection(s4, out4@.len(), non_aligned_bucket@.len()));
                    assert forall|j: int| 0 <= j < out4@.len() implies {
                        let slot = (#[trigger] out4@[j]).non_aligned_speakers@[b[j].non_aligned_speakers@.len() + 0int];
                        &&& slot is Some
                        &&& teams@[non_aligned_bucket@[s2[j] as int] as int].member_ids@.contains(slot->Some_0)
                    } by {
                        assert(teams@[non_aligned_bucket@[s2[j] as int] as int].member_ids@.contains(p0@[s2[j] as int]));
                    }
                    assert forall|j: int| 0 <= j < out4@.len() implies {
                        let slot = (#[trigger] out4@[j]).non_aligned_speakers@[b[j].non_aligned_speakers@.len() + 1int];
                        &&& slot is Some
                        &&& teams@[non_aligned_bucket@[s3[j] as int] as int].member_ids@.contains(slot->Some_0)
                    } by {
                        assert(teams@[non_aligned_bucket@[s3[j] as int] as int].member_ids@.contains(p1@[s3[j] as int]));
                    }
                    assert forall|j: int| 0 <= j < out4@.len() implies {
                        let slot = (#[trigger] out4@[j]).non_aligned_speakers@[b[j].non_aligned_speakers@.len() + 2int];
                        &&& slot is Some
                        &&& teams@[non_aligned_bucket@[s4[j] as int] as int].member_ids@.contains(slot->Some_0)
                    } by {
                        assert(teams@[non_aligned_bucket@[s4[j] as int] as int].member_ids@.contains(p2@[s4[j] as int]));
                    }
                }
                proof {
                    if opp_bucket.len() == n && non_aligned_bucket.len() == n {
                        assert(is_stagewise_least_severe(*evaluator, ballots@, out4@)) by {
                            let b = ballots@;
                            let nn = n as int;
                            assert forall|x: int| 0 <= x < nn implies #[trigger] s1[x] < nn by {}
                            assert forall|x: int| 0 <= x < nn implies #[trigger] s2[x] < nn by {}
                            assert forall|x: int| 0 <= x < nn implies #[trigger] s3[x] < nn by {}
                            assert forall|x: int| 0 <= x < nn implies #[trigger] s4[x] < nn by {}
                            assert(is_full_assignment(s1, nn));
                            assert(is_full_assignment(s2, nn));
                            assert(is_full_assignment(s3, nn));
                            assert(is_full_assignment(s4, nn));
                            assert forall|j: int| 0 <= j < nn implies {
                                let o4 = #[trigger] out4@[j];
                                let n0 = b[j].non_aligned_speakers@.len() as int;
                                &&& o4.non_aligned_speakers@[n0] == Some(p0@[s2[j] as int])
                                &&& o4.non_aligned_speakers@[n0 + 1] == Some(p1@[s3[j] as int])
                                &&& o4.non_aligned_speakers@[n0 + 2] == Some(p2@[s4[j] as int])
                                &&& o4.non_aligned_speakers@.take(n0 + 1) == b[j].non_aligned_speakers@.push(Some(p0@[s2[j] as int]))
                                &&& o4.non_aligned_speakers@.take(n0 + 2) == b[j].non_aligned_speakers@.push(Some(p0@[s2[j] as int])).push(
                                    Some(p1@[s3[j] as int]),
                                )
                            } by {
                                let n0 = b[j].non_aligned_speakers@.len() as int;
                                assert(out4@[j].non_aligned_speakers@.take(n0 + 1) =~= b[j].non_aligned_speakers@.push(
                                    Some(p0@[s2[j] as int]),
                                ));
                                assert(out4@[j].non_aligned_speakers@.take(n0 + 2) =~= b[j].non_aligned_speakers@.push(
                                    Some(p0@[s2[j] as int]),
                                ).push(Some(p1@[s3[j] as int])));
                            }
                            assert forall|j: int| 0 <= j < nn implies {
                                let p = #[trigger] out1@[j];
                                &&& p.uuid == b[j].uuid
                                &&& p.adjudicators@ == b[j].adjudicators@
                                &&& p.president == b[j].president
                                &&& p.government == out4@[j].government
                                &&& p.opposition == out4@[j].opposition
                                &&& p.non_aligned_speakers@ == b[j].non_aligned_speakers@
                            } by {
                                assert(same_ballot(out1@[j], c1@[s1[j] as int]@[j]));
                            }
                            assert forall|j: int| 0 <= j < nn implies {
                                let p = #[trigger] out2@[j];
                                &&& p.uuid == b[j].uuid
                                &&& p.adjudicators@ == b[j].adjudicators@
                                &&& p.president == b[j].president
                                &&& p.government == out4@[j].government
                                &&& p.opposition == out4@[j].opposition
                                &&& p.non_aligned_speakers@ == b[j].non_aligned_speakers@.push(Some(p0@[s2[j] as int]))
                            } by {
                                assert(same_ballot(out2@[j], c2@[s2[j] as int]@[j]));
                            }
                            assert forall|j: int| 0 <= j < nn implies {
                                let p = #[trigger] out3@[j];
                                &&& p.uuid == b[j].uuid
                                &&& p.adjudicators@ == b[j].adjudicators@
                                &&& p.president == b[j].president
                                &&& p.government == out4@[j].government
                                &&& p.opposition == out4@[j].opposition
                                &&& p.non_aligned_speakers@ == b[j].non_aligned_speakers@.push(Some(p0@[s2[j] as int])).push(
                                    Some(p1@[s3[j] as int]),
                                )
                            } by {
                                assert(same_ballot(out3@[j], c3@[s3[j] as int]@[j]));
                                assert(same_ballot(out2@[j], c2@[s2[j] as int]@[j]));
                            }
                            assert forall|a: int, pi: Seq<usize>|
                                -1 <= a < 3 && is_full_assignment(pi, b.len() as int) implies stage_severity(
                                *evaluator,
                                b,
                                out4@,
                                a,
                                identity_order(b.len() as int),
                            ) <= #[trigger] stage_severity(*evaluator, b, out4@, a, pi) by {
                                if a == -1 {
                                    assert forall|o: int, j: int| 0 <= o < nn && 0 <= j < nn implies {
                                        let x = #[trigger] c1@[o]@[j];
                                        &&& x.uuid == b[j].uuid
                                        &&& x.government == out4@[j].government
                                    } by {}
                                    lemma_opposition_stage(*evaluator, c1@, s1, b, out4@, teams@, opp_bucket@, pi);
                                } else if a == 0 {
                                    lemma_speaker_stage(*evaluator, c2@, s2, b, out1@, out4@, p0@, 0, pi);
                                } else if a == 1 {
                                    lemma_speaker_stage(*evaluator, c3@, s3, b, out2@, out4@, p1@, 1, pi);
                                } else {
                                    lemma_speaker_stage(*evaluator, c4@, s4, b, out3@, out4@, p2@, 2, pi);
                                }
                            }
                        }
                    }
                }
                Ok(out4)
            },
        }
    }
}

/// An `anyhow::Error` with the given message, from `anyhow::Error::msg`; what
/// the error holds beyond its message is not stated.
#[verifier::external_body]
fn error_with_message(message: String) -> anyhow::Error {
    anyhow::Error::msg(message)
}

impl Default for PreliminaryRoundGenerator {
    /// A generator that avoids clashes.
    fn default() -> (g: Self)
        ensures
            g.draw_mode == PreliminariesDrawMode::AvoidClashes,
    {
        PreliminaryRoundGenerator { draw_mode: PreliminariesDrawMode::AvoidClashes }
    }
}

/// Whether a ballot has no teams, speakers, adjudicators or president yet.
pub open spec fn is_blank(b: DrawBallot) -> bool {
    &&& b.uuid == 0
    &&& b.government is None
    &&& b.opposition is None
    &&& b.adjudicators@.len() == 0
    &&& b.non_aligned_speakers@.len() == 0
    &&& b.president is None
}

/// The `k`-th of three equal buckets of the order.
pub open spec fn bucket_of(order: Seq<usize>, m: int, k: int) -> Seq<usize> {
    order.subrange(k * m, (k + 1) * m)
}

proof fn lemma_bucket_bounds(order: Seq<usize>, m: int)
    ensures
        bucket_of(order, m, 0) == order.subrange(0, m),
        bucket_of(order, m, 1) == order.subrange(m, 2 * m),
        bucket_of(order, m, 2) == order.subrange(2 * m, 3 * m),
{
}

/// The bucket that has the role (0 government, 1 opposition, 2 non-aligned)
/// in round `r`: bucket `k` has the role at `(r + k) % 3` of the role order.
pub open spec fn bucket_with_role(roles: Seq<usize>, r: int, role: usize) -> int {
    if roles[r % 3] == role {
        0
    } else if roles[(r + 1) % 3] == role {
        1
    } else {
        2
    }
}

/// Whether the round's ballots are blank ballots with teams assigned from the
/// buckets that the order and the role order give the round.
pub open spec fn is_preliminary_round(
    out: Seq<DrawBallot>,
    teams: Seq<DrawTeamInfo>,
    order: Seq<usize>,
    roles: Seq<usize>,
    m: int,
    r: int,
) -> bool {
    exists|bs: Seq<DrawBallot>|
        bs.len() == m && (forall|i: int| 0 <= i < m ==> is_blank(#[trigger] bs[i])) && #[trigger] is_team_assignment(
            bs,
            out,
            teams,
            bucket_of(order, m, bucket_with_role(roles, r, 0)),
            bucket_of(order, m, bucket_with_role(roles, r, 1)),
            bucket_of(order, m, bucket_with_role(roles, r, 2)),
        )
}

fn blank_ballots(m: usize) -> (bs: Vec<DrawBallot>)
    ensures
        bs.len() == m,
        forall|i: int| 0 <= i < m ==> is_blank(#[trigger] bs@[i]),
{
    let mut bs: Vec<DrawBallot> = Vec::new();
    let mut i: usize = 0;
    while i < m
        invariant
            i <= m,
            bs.len() == i,
            forall|k: int| 0 <= k < i ==> is_blank(#[trigger] bs@[k]),
        decreases m - i,
    {
        bs.push(
            DrawBallot {
                uuid: 0,
                government: None,
                opposition: None,
                adjudicators: Vec::new(),
                non_aligned_speakers: Vec::new(),
                president: None,
            },
        );
        i += 1;
    }
    bs
}

fn index_range(v: &Vec<usize>, start: usize, end: usize) -> (out: Vec<usize>)
    requires
        start <= end <= v.len(),
    ensures
        out@ == v@.subrange(start as int, end as int),
{
    let mut out: Vec<usize> = Vec::new();
    let mut i: usize = start;
    while i < end
        invariant
            start <= i <= end <= v.len(),
            out@ =~= v@.subrange(start as int, i as int),
        decreases end - i,
    {
        out.push(v[i]);
        i += 1;
    }
    out
}

/// Whether the weights are those of `DrawEvaluatorConfig::default`.
pub open spec fn is_standard_config(c: DrawEvaluatorConfig) -> bool {
    &&& c.adj_adj_clash_factor == 300
    &&& c.adj_team_clash_factor == 1000
    &&& c.adj_speaker_clash_factor == 500
    &&& c.team_team_clash_factor == 200
    &&& c.team_speaker_clash_factor == 100
    &&& c.speaker_speaker_clash_factor == 100
    &&& c.adj_adj_repeat_clash_severity == 40
    &&& c.adj_team_repeat_clash_severity == 40
    &&& c.adj_non_aligned_speaker_repeat_clash_severity == 40
    &&& c.team_team_repeat_clash_severity == 10
    &&& c.team_speaker_repeat_clash_severity == 10
    &&& c.non_aligned_speakers_repeat_clash_severity == 10
}

/// Whether `e` is an evaluator that the preliminary draw of `rounds` builds
/// for one of them: the standard weights, the other rounds and the rounds
/// drawn before as relevant rounds, and the context `ctx` with whatever
/// history the rounds drawn before have left.
pub open spec fn is_round_evaluator(
    e: DrawEvaluator,
    ctx: DrawEvaluationContext,
    rounds: Seq<u128>,
    other_rounds: Seq<u128>,
) -> bool {
    &&& is_standard_config(e.config)
    &&& e.context.speaker_teams@ == ctx.speaker_teams@
    &&& e.context.participants_by_id@ == ctx.participants_by_id@
    &&& e.context.participant_declared_clashes@ == ctx.participant_declared_clashes@
    &&& e.context.team_members@ == ctx.team_members@
    &&& exists|k: int| 0 <= k < rounds.len() && e.relevant_rounds@ == other_rounds + #[trigger] rounds.take(k)
}

/// Whether the id is that of one of the teams.
pub open spec fn is_team_id(teams: Seq<DrawTeamInfo>, x: u128) -> bool {
    exists|t: int| 0 <= t < teams.len() && (#[trigger] teams[t]).uuid == x
}

/// Whether the non-aligned speaker is a member of one of the teams.
pub open spec fn is_team_member(teams: Seq<DrawTeamInfo>, x: Option<u128>) -> bool {
    x is Some && exists|t: int| 0 <= t < teams.len() && (#[trigger] teams[t]).member_ids@.contains(x->Some_0)
}

/// Whether the preliminary draw can weigh `b` for a ballot: no adjudicators
/// or president, two of the teams as government and opposition, and at most
/// three members of teams as non-aligned speakers.
pub open spec fn is_preliminary_candidate(b: DrawBallot, teams: Seq<DrawTeamInfo>) -> bool {
    &&& b.uuid == 0
    &&& b.adjudicators@.len() == 0
    &&& b.president is None
    &&& b.government is Some
    &&& is_team_id(teams, b.government->Some_0)
    &&& b.opposition is Some
    &&& is_team_id(teams, b.opposition->Some_0)
    &&& b.non_aligned_speakers@.len() <= 3
    &&& forall|k: int| 0 <= k < b.non_aligned_speakers@.len() ==> is_team_member(teams, #[trigger] b.non_aligned_speakers@[k])
}

/// Whether no ballot that the preliminary draw of `rounds` can weigh has a
/// total severity above `s` under any evaluator it can build.
pub open spec fn preliminary_severities_at_most(
    ctx: DrawEvaluationContext,
    teams: Seq<DrawTeamInfo>,
    rounds: Seq<u128>,
    other_rounds: Seq<u128>,
    s: int,
) -> bool {
    forall|e: DrawEvaluator, b: DrawBallot|
        is_round_evaluator(e, ctx, rounds, other_rounds) && is_preliminary_candidate(b, teams) ==> #[trigger] candidate_severity(
            e,
            b,
        ) <= s
}

/// The ballots of each round.
pub open spec fn rounds_view(v: Seq<Vec<DrawBallot>>) -> Seq<Seq<DrawBallot>> {
    v.map_values(|x: Vec<DrawBallot>| x@)
}

/// The history after recording the rounds of ballots in turn, the `k`-th as
/// round `round_ids[k]` with debate ids `ids[k]`.
pub open spec fn record_draw_rounds(
    h: Map<u128, Map<u128, HistoryEntry>>,
    rounds_ballots: Seq<Seq<DrawBallot>>,
    ids: Seq<Seq<u128>>,
    round_ids: Seq<u128>,
    tm: Map<u128, Vec<u128>>,
) -> Map<u128, Map<u128, HistoryEntry>>
    decreases rounds_ballots.len(),
{
    if rounds_ballots.len() == 0 {
        h
    } else {
        let k = rounds_ballots.len() - 1;
        record_draw_ballots(
            record_draw_rounds(h, rounds_ballots.drop_last(), ids, round_ids, tm),
            rounds_ballots[k],
            ids[k],
            round_ids[k],
            tm,
        )
    }
}

/// Whether `after` is `before` with the rounds of ballots recorded in turn,
/// under some debate ids.
pub open spec fn records_draw_rounds(
    before: Map<u128, Map<u128, HistoryEntry>>,
    after: Map<u128, Map<u128, HistoryEntry>>,
    rounds_ballots: Seq<Seq<DrawBallot>>,
    round_ids: Seq<u128>,
    tm: Map<u128, Vec<u128>>,
) -> bool {
    exists|ids: Seq<Seq<u128>>|
        ids.len() == rounds_ballots.len() && after == #[trigger] record_draw_rounds(before, rounds_ballots, ids, round_ids, tm)
}

/// Whether round `k` of the drawn rounds `v` is stagewise least severe under
/// an evaluator that the draw builds for it: the other rounds and the rounds
/// before `k` relevant, and in the context the history that recording those
/// rounds before `k` leaves.
pub open spec fn round_drawn_least_severe(
    ctx: DrawEvaluationContext,
    rounds: Seq<u128>,
    other_rounds: Seq<u128>,
    v: Seq<Seq<DrawBallot>>,
    k: int,
) -> bool {
    exists|e: DrawEvaluator, base: Seq<DrawBallot>|
        #[trigger] is_stagewise_least_severe(e, base, v[k]) && base.len() == v[k].len() && (forall|j: int|
            0 <= j < base.len() ==> is_blank(#[trigger] base[j])) && is_round_evaluator(e, ctx, rounds, other_rounds)
            && e.relevant_rounds@ == other_rounds + rounds.take(k) && records_draw_rounds(
            history_view(ctx.history.participant_debates),
            history_view(e.context.history.participant_debates),
            v.take(k),
            rounds,
            ctx.team_members@,
        )
}

/// Whether round `k` of the preliminary draw of `rounds` can stop: some grid
/// of candidates for its ballots, under an evaluator that the draw builds
/// for it (with the history of `k` rounds of ballots recorded), on which the
/// auction does not settle within its limit of bids.
pub open spec fn round_may_stop(
    ctx: DrawEvaluationContext,
    teams: Seq<DrawTeamInfo>,
    rounds: Seq<u128>,
    other_rounds: Seq<u128>,
    k: int,
) -> bool {
    let m = teams.len() / 3;
    let (order, roles) = seeded_draw_orders(teams.len() as nat);
    exists|e: DrawEvaluator, base: Seq<DrawBallot>, g: Seq<Vec<DrawBallot>>|
        #![trigger grid_of_candidates(
            g,
            base,
            teams,
            bucket_of(order, m as int, bucket_with_role(roles, k, 0)),
            bucket_of(order, m as int, bucket_with_role(roles, k, 1)),
            bucket_of(order, m as int, bucket_with_role(roles, k, 2)),
        ), grid_settles(e, g)]
        is_round_evaluator(e, ctx, rounds, other_rounds) && e.relevant_rounds@ == other_rounds + rounds.take(k)
            && (exists|rb: Seq<Seq<DrawBallot>>|
            rb.len() == k && #[trigger] records_draw_rounds(
                history_view(ctx.history.participant_debates),
                history_view(e.context.history.participant_debates),
                rb,
                rounds,
                ctx.team_members@,
            )) && base.len() == m && (forall|j: int| 0 <= j < base.len() ==> is_blank(#[trigger] base[j])) && grid_of_candidates(
            g,
            base,
            teams,
            bucket_of(order, m as int, bucket_with_role(roles, k, 0)),
            bucket_of(order, m as int, bucket_with_role(roles, k, 1)),
            bucket_of(order, m as int, bucket_with_role(roles, k, 2)),
        ) && is_option_grid(g) && g[0].len() == m && !grid_settles(e, g)
}

proof fn lemma_record_draw_rounds_ids(
    h: Map<u128, Map<u128, HistoryEntry>>,
    rb: Seq<Seq<DrawBallot>>,
    ids: Seq<Seq<u128>>,
    x: Seq<u128>,
    round_ids: Seq<u128>,
    tm: Map<u128, Vec<u128>>,
)
    requires
        rb.len() <= ids.len(),
    ensures
        record_draw_rounds(h, rb, ids.push(x), round_ids, tm) == record_draw_rounds(h, rb, ids, round_ids, tm),
    decreases rb.len(),
{
    if rb.len() > 0 {
        lemma_record_draw_rounds_ids(h, rb.drop_last(), ids, x, round_ids, tm);
    }
}

proof fn lemma_blank_candidate(
    b: DrawBallot,
    base: DrawBallot,
    teams: Seq<DrawTeamInfo>,
    gov: Seq<usize>,
    opp: Seq<usize>,
    na: Seq<usize>,
)
    requires
        is_blank(base),
        bucket_in_range(teams, gov),
        bucket_in_range(teams, opp),
        bucket_in_range(teams, na),
        is_candidate_for(b, base, teams, gov, opp, na),
    ensures
        is_preliminary_candidate(b, teams),
{
    reveal(is_candidate_for);
    let g = b.government->Some_0;
    let ids = team_ids_at(teams, gov);
    let i = choose|i: int| 0 <= i < ids.len() && ids[i] == g;
    assert(gov[i] < teams.len());
    assert(teams[gov[i] as int].uuid == g);
    let o = choose|o: int| 0 <= o < opp.len() && b.opposition == Some(#[trigger] teams[opp[o] as int].uuid);
    assert(opp[o] < teams.len());
    assert(teams[opp[o] as int].uuid == b.opposition->Some_0);
    assert forall|k: int| 0 <= k < b.non_aligned_speakers@.len() implies is_team_member(
        teams,
        #[trigger] b.non_aligned_speakers@[k],
    ) by {
        assert(is_bucket_member(b.non_aligned_speakers@[k], teams, na));
        let t = choose|t: int| 0 <= t < na.len() && (#[trigger] teams[na[t] as int]).member_ids@.contains(
            b.non_aligned_speakers@[k]->Some_0,
        );
        assert(na[t] < teams.len());
        assert(teams[na[t] as int].member_ids@.contains(b.non_aligned_speakers@[k]->Some_0));
    }
}

impl PreliminaryRoundGenerator {
    /// Draws the preliminary rounds. The teams are split into three buckets
    /// by an order that a generator with a fixed seed gives; in each round one
    /// bucket governs, one opposes and one gives the non-aligned speakers,
    /// the roles turning from round to round. Each round is drawn against the
    /// clashes of the other rounds and of the rounds drawn before it, and is
    /// then recorded in the history of the evaluation context. At each stage
    /// of a round (opposition, then each non-aligned speaker) no reordering of
    /// what the stage placed lowers its total severity. With round and team
    /// counts in multiples of three and every ballot that the draw can weigh
    /// bounded in severity by an `s` for which `auction_in_reach` holds at a
    /// third of the teams, the draw succeeds. In general it stops with an
    /// error only where in some round the auction on a grid of candidates for
    /// the round's ballots does not settle within its limit of bids
    /// (`round_may_stop`).
    #[verifier::spinoff_prover]
    pub fn generate_draw_for_rounds(
        &self,
        context: &RoundGenerationContext,
        rounds: &Vec<u128>,
        other_rounds: &Vec<u128>,
        evaluation_context: &mut DrawEvaluationContext,
    ) -> (r: Result<Vec<Vec<DrawBallot>>, PreliminaryDrawError>)
        requires
            rounds.len() > 0 && rounds.len() % 3 == 0 && context.teams.len() % 3 == 0 ==> forall|t: int|
                0 <= t < context.teams.len() ==> (#[trigger] context.teams@[t]).member_ids.len() >= 3,
            (context.teams.len() / 3) * (context.teams.len() / 3) <= usize::MAX,
        ensures
            rounds.len() % 3 != 0 ==> (r matches Err(PreliminaryDrawError::IncorrectRoundCount(l)) && l == rounds.len()),
            rounds.len() % 3 == 0 && (context.teams.len() % 3 != 0 || context.teams.len() == 0) ==> (r matches Err(
                PreliminaryDrawError::IncorrectTeamCount(l),
            ) && l == context.teams.len()),
            r matches Ok(v) ==> {
                let (order, roles) = seeded_draw_orders(context.teams.len() as nat);
                &&& v.len() == rounds.len()
                &&& forall|k: int| 0 <= k < v.len() ==> #[trigger] is_preliminary_round(
                    v@[k]@,
                    context.teams@,
                    order,
                    roles,
                    (context.teams.len() / 3) as int,
                    k,
                )
            },
            final(evaluation_context).speaker_teams@ == old(evaluation_context).speaker_teams@,
            final(evaluation_context).participants_by_id@ == old(evaluation_context).participants_by_id@,
            final(evaluation_context).participant_declared_clashes@ == old(evaluation_context).participant_declared_clashes@,
            final(evaluation_context).team_members@ == old(evaluation_context).team_members@,
            r matches Ok(v) ==> records_draw_rounds(
                history_view(old(evaluation_context).history.participant_debates),
                history_view(final(evaluation_context).history.participant_debates),
                rounds_view(v@),
                rounds@,
                old(evaluation_context).team_members@,
            ),
            r matches Ok(v) ==> forall|k: int|
                0 <= k < v.len() ==> #[trigger] round_drawn_least_severe(
                    *old(evaluation_context),
                    rounds@,
                    other_rounds@,
                    rounds_view(v@),
                    k,
                ),
            r matches Err(PreliminaryDrawError::Other { .. }) ==> exists|k: int|
                0 <= k < rounds.len() && #[trigger] round_may_stop(
                    *old(evaluation_context),
                    context.teams@,
                    rounds@,
                    other_rounds@,
                    k,
                ),
            forall|s: int|
                #[trigger] preliminary_severities_at_most(
                    *old(evaluation_context),
                    context.teams@,
                    rounds@,
                    other_rounds@,
                    s,
                ) && rounds.len() % 3 == 0 && context.teams.len() % 3 == 0 && context.teams.len() > 0 && auction_in_reach(
                    (context.teams.len() / 3) as int,
                    s,
                ) ==> r is Ok,
    {
        if rounds.len() % 3 != 0 {
            return Err(PreliminaryDrawError::IncorrectRoundCount(rounds.len()));
        }
        let n = context.teams.len();
        if n % 3 != 0 || n == 0 {
            return Err(PreliminaryDrawError::IncorrectTeamCount(n));
        }
        let m = n / 3;
        let (order, roles) = seeded_orders(n);
        let b0 = index_range(&order, 0, m);
        let b1 = index_range(&order, m, 2 * m);
        let b2 = index_range(&order, 2 * m, 3 * m);
        proof {
            lemma_bucket_bounds(order@, m as int);
            assert(b0@ == bucket_of(order@, m as int, 0));
            assert(b1@ == bucket_of(order@, m as int, 1));
            assert(b2@ == bucket_of(order@, m as int, 2));
            assert forall|i: int| 0 <= i < m implies #[trigger] b0@[i] < n by {
                assert(b0@[i] == order@[i]);
            }
            assert forall|i: int| 0 <= i < m implies #[trigger] b1@[i] < n by {
                assert(b1@[i] == order@[m + i]);
            }
            assert forall|i: int| 0 <= i < m implies #[trigger] b2@[i] < n by {
                assert(b2@[i] == order@[2 * m + i]);
            }
        }
        let mut relevant = copy_ids(other_rounds);
        let mut out: Vec<Vec<DrawBallot>> = Vec::new();
        let ghost mut ids: Seq<Seq<u128>> = Seq::empty();
        let mut r: usize = 0;
        proof {
            assert(rounds@.take(0) =~= Seq::<u128>::empty());
            assert(relevant@ =~= other_rounds@ + rounds@.take(0));
            assert(rounds_view(out@) =~= Seq::<Seq<DrawBallot>>::empty());
        }
        while r < rounds.len()
            invariant
                r <= rounds.len(),
                n == context.teams.len(),
                m == n / 3,
                m > 0,
                m * m <= usize::MAX,
                rounds.len() % 3 == 0,
                n % 3 == 0,
                n > 0,
                rounds.len() > 0 && rounds.len() % 3 == 0 && context.teams.len() % 3 == 0 ==> forall|t: int|
                    0 <= t < context.teams.len() ==> (#[trigger] context.teams@[t]).member_ids.len() >= 3,
                (order@, roles@) == seeded_draw_orders(n as nat),
                is_index_permutation(roles@, 3),
                b0@ == bucket_of(order@, m as int, 0),
                b1@ == bucket_of(order@, m as int, 1),
                b2@ == bucket_of(order@, m as int, 2),
                b0.len() == m && b1.len() == m && b2.len() == m,
                forall|i: int| 0 <= i < m ==> #[trigger] b0@[i] < n,
                forall|i: int| 0 <= i < m ==> #[trigger] b1@[i] < n,
                forall|i: int| 0 <= i < m ==> #[trigger] b2@[i] < n,
                out.len() == r,
                forall|k: int| 0 <= k < out.len() ==> #[trigger] is_preliminary_round(
                    out@[k]@,
                    context.teams@,
                    order@,
                    roles@,
                    m as int,
                    k,
                ),
                evaluation_context.speaker_teams@ == old(evaluation_context).speaker_teams@,
                evaluation_context.participants_by_id@ == old(evaluation_context).participants_by_id@,
                evaluation_context.participant_declared_clashes@ == old(evaluation_context).participant_declared_clashes@,
                evaluation_context.team_members@ == old(evaluation_context).team_members@,
                relevant@ == other_rounds@ + rounds@.take(r as int),
                ids.len() == r,
                forall|k: int|
                    0 <= k < out.len() ==> #[trigger] round_drawn_least_severe(
                        *old(evaluation_context),
                        rounds@,
                        other_rounds@,
                        rounds_view(out@),
                        k,
                    ),
                history_view(evaluation_context.history.participant_debates) == record_draw_rounds(
                    history_view(old(evaluation_context).history.participant_debates),
                    rounds_view(out@),
                    ids,
                    rounds@,
                    old(evaluation_context).team_members@,
                ),
                forall|s: int|
                    #[trigger] preliminary_severities_at_most(
                        *old(evaluation_context),
                        context.teams@,
                        rounds@,
                        other_rounds@,
                        s,
                    ) ==> forall|e: DrawEvaluator, b: DrawBallot|
                        is_round_evaluator(e, *old(evaluation_context), rounds@, other_rounds@) && is_preliminary_candidate(
                            b,
                            context.teams@,
                        ) ==> #[trigger] candidate_severity(e, b) <= s,
            decreases rounds.len() - r,
        {
            let ballots = blank_ballots(m);
            let r0 = roles[r % 3];
            let r1 = roles[(r + 1) % 3];
            let gov = if r0 == 0 { &b0 } else if r1 == 0 { &b1 } else { &b2 };
            let opp = if r0 == 1 { &b0 } else if r1 == 1 { &b1 } else { &b2 };
            let na = if r0 == 2 { &b0 } else if r1 == 2 { &b1 } else { &b2 };
            proof {
                let ri = r as int;
                assert(gov@ == bucket_of(order@, m as int, bucket_with_role(roles@, ri, 0)));
                assert(opp@ == bucket_of(order@, m as int, bucket_with_role(roles@, ri, 1)));
                assert(na@ == bucket_of(order@, m as int, bucket_with_role(roles@, ri, 2)));
                assert(bucket_in_range(context.teams@, gov@));
                assert(bucket_in_range(context.teams@, opp@));
                assert(bucket_in_range(context.teams@, na@));
                assert(bucket_has_three_members(context.teams@, na@)) by {
                    assert forall|i: int| 0 <= i < na@.len() implies context.teams@[#[trigger] na@[i] as int].member_ids.len()
                        >= 3 by {
                        assert(na@[i] < n);
                    }
                }
            }
            let assigned = {
                let evaluator = DrawEvaluator::new(
                    DrawEvaluatorConfig::default(),
                    copy_ids(&relevant),
                    &*evaluation_context,
                );
                proof {
                    assert(is_round_evaluator(evaluator, *old(evaluation_context), rounds@, other_rounds@)) by {
                        assert(evaluator.relevant_rounds@ == other_rounds@ + rounds@.take(r as int));
                    }
                    assert forall|s: int|
                        #[trigger] preliminary_severities_at_most(
                            *old(evaluation_context),
                            context.teams@,
                            rounds@,
                            other_rounds@,
                            s,
                        ) implies candidate_severities_at_most(
                        evaluator,
                        ballots@,
                        context.teams@,
                        gov@,
                        opp@,
                        na@,
                        s,
                    ) by {
                        assert forall|j: int, b: DrawBallot|
                            0 <= j < ballots.len() && #[trigger] is_candidate_for(
                                b,
                                ballots@[j],
                                context.teams@,
                                gov@,
                                opp@,
                                na@,
                            ) implies candidate_severity(evaluator, b) <= s by {
                            lemma_blank_candidate(b, ballots@[j], context.teams@, gov@, opp@, na@);
                        }
                    }
                }
                let res = self.assign_teams_to_ballots(&ballots, &context.teams, gov, opp, na, &evaluator);
                proof {
                    if res is Err {
                        reveal(some_candidate_grid_stops);
                        let g = choose|g: Seq<Vec<DrawBallot>>|
                            #[trigger] grid_of_candidates(g, ballots@, context.teams@, gov@, opp@, na@) && is_option_grid(g)
                                && g[0].len() == ballots.len() && !grid_settles(evaluator, g);
                        assert(evaluator.relevant_rounds@ == other_rounds@ + rounds@.take(r as int));
                        let mm = context.teams@.len() / 3;
                        let sd = seeded_draw_orders(context.teams@.len() as nat);
                        assert(order@ == sd.0 && roles@ == sd.1);
                        assert(mm == m);
                        let gb = bucket_of(sd.0, mm as int, bucket_with_role(sd.1, r as int, 0));
                        let ob = bucket_of(sd.0, mm as int, bucket_with_role(sd.1, r as int, 1));
                        let nb2 = bucket_of(sd.0, mm as int, bucket_with_role(sd.1, r as int, 2));
                        assert(gov@ == gb && opp@ == ob && na@ == nb2);
                        assert(grid_of_candidates(g, ballots@, context.teams@, gb, ob, nb2));
                        assert(is_round_evaluator(evaluator, *old(evaluation_context), rounds@, other_rounds@));
                        assert(rounds_view(out@).len() == ids.len());
                        assert(records_draw_rounds(
                            history_view(old(evaluation_context).history.participant_debates),
                            history_view(evaluator.context.history.participant_debates),
                            rounds_view(out@),
                            rounds@,
                            old(evaluation_context).team_members@,
                        ));
                        assert(grid_settles(evaluator, g) == grid_settles(evaluator, g));
                        assert(round_may_stop(*old(evaluation_context), context.teams@, rounds@, other_rounds@, r as int));
                    }
                    if res is Ok {
                        let bs = res->Ok_0;
                        let v2 = rounds_view(out@).push(bs@);
                        assert(v2[r as int] == bs@);
                        assert(v2.take(r as int) =~= rounds_view(out@));
                        assert(is_stagewise_least_severe(evaluator, ballots@, v2[r as int]));
                        assert(history_view(evaluator.context.history.participant_debates) == record_draw_rounds(
                            history_view(old(evaluation_context).history.participant_debates),
                            rounds_view(out@),
                            ids,
                            rounds@,
                            old(evaluation_context).team_members@,
                        ));
                        assert(rounds_view(out@).len() == ids.len());
                        assert(records_draw_rounds(
                            history_view(old(evaluation_context).history.participant_debates),
                            history_view(evaluator.context.history.participant_debates),
                            v2.take(r as int),
                            rounds@,
                            old(evaluation_context).team_members@,
                        ));
                        assert(evaluator.relevant_rounds@ == other_rounds@ + rounds@.take(r as int));
                        assert(round_drawn_least_severe(*old(evaluation_context), rounds@, other_rounds@, v2, r as int));
                    }
                }
                res
            };
            match assigned {
                Err(e) => {
                    return Err(PreliminaryDrawError::Other { source: error_with_message(e.message()) });
                },
                Ok(bs) => {
                    proof {
                        let ri = r as int;
                        assert(is_team_assignment(ballots@, bs@, context.teams@, gov@, opp@, na@));
                        assert(is_preliminary_round(bs@, context.teams@, order@, roles@, m as int, ri));
                        let perm = choose|perm: Seq<u128>| #[trigger] is_permutation_of(perm, team_ids_at(context.teams@, gov@))
                            && forall|j: int| 0 <= j < bs@.len() ==> (#[trigger] bs@[j]).government == Some(perm[j]);
                        let o = choose|o: Seq<usize>| #[trigger] is_injection(o, bs@.len(), opp@.len()) && forall|j: int|
                            0 <= j < bs@.len() ==> (#[trigger] bs@[j]).opposition == Some(context.teams@[opp@[o[j] as int] as int].uuid);
                        assert forall|i: int| 0 <= i < bs.len() implies (#[trigger] bs@[i]).government is Some
                            && bs@[i].opposition is Some by {
                            assert(bs@[i].government == Some(perm[i]));
                            assert(bs@[i].opposition == Some(context.teams@[opp@[o[i] as int] as int].uuid));
                        }
                    }
                    let ghost before = history_view(evaluation_context.history.participant_debates);
                    let ghost old_out = out@;
                    evaluation_context.add_round_ballots(rounds[r], &bs);
                    proof {
                        let round_ids = choose|x: Seq<u128>| x.len() == bs.len() && #[trigger] record_draw_ballots(
                            before,
                            bs@,
                            x,
                            rounds@[r as int],
                            old(evaluation_context).team_members@,
                        ) == history_view(evaluation_context.history.participant_debates);
                        lemma_record_draw_rounds_ids(
                            history_view(old(evaluation_context).history.participant_debates),
                            rounds_view(old_out),
                            ids,
                            round_ids,
                            rounds@,
                            old(evaluation_context).team_members@,
                        );
                        ids = ids.push(round_ids);
                    }
                    relevant.push(rounds[r]);
                    out.push(bs);
                    proof {
                        assert(rounds@.take(r + 1) =~= rounds@.take(r as int).push(rounds@[r as int]));
                        assert(relevant@ =~= other_rounds@ + rounds@.take(r + 1));
                        let rb = rounds_view(out@);
                        assert(rb.drop_last() =~= rounds_view(old_out));
                        assert(rb[r as int] == out@[r as int]@);
                        assert(rb =~= rounds_view(old_out).push(bs@));
                        assert forall|k: int| 0 <= k < out.len() implies #[trigger] round_drawn_least_severe(
                            *old(evaluation_context),
                            rounds@,
                            other_rounds@,
                            rb,
                            k,
                        ) by {
                            if k < r {
                                assert(rb[k] == rounds_view(old_out)[k]);
                                assert(rb.take(k) =~= rounds_view(old_out).take(k));
                                assert(round_drawn_least_severe(
                                    *old(evaluation_context),
                                    rounds@,
                                    other_rounds@,
                                    rounds_view(old_out),
                                    k,
                                ));
                            }
                        }
                    }
                },
            }
            r += 1;
        }
        proof {
            assert(records_draw_rounds(
                history_view(old(evaluation_context).history.participant_debates),
                history_view(evaluation_context.history.participant_debates),
                rounds_view(out@),
                rounds@,
                old(evaluation_context).team_members@,
            )) by {
                assert(rounds_view(out@).len() == ids.len());
            }
        }
        Ok(out)
    }
}

} // verus!
