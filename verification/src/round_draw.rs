use vstd::prelude::*;

use std::collections::HashMap;

use crate::datastructures::{Ballot, DrawBallot};
use crate::tab_draw::{
    FoldDrawConfig, NonAlignedFoldMethod, TeamFoldMethod, TeamPair, TeamRoundRole, assign_teams,
    groups_view, is_speaker_fold_of, is_team_fold_of, pair_speakers, pair_teams, swap_sides,
};

verus! {

broadcast use vstd::std_specs::hash::group_hash_axioms;

/// A fresh random id from `uuid::Uuid::new_v4`, as its 128-bit value. The
/// random bits are left to chance; the outside function masks in the version
/// (4, in bits 76 to 79) and the variant (binary 10, in bits 62 and 63), which
/// is all that is stated of the id.
#[verifier::external_body]
pub(crate) fn new_random_id() -> (id: u128)
    ensures
        (id >> 76u128) & 0xfu128 == 4u128,
        (id >> 62u128) & 0x3u128 == 2u128,
{
    uuid::Uuid::new_v4().as_u128()
}

/// An id with the version bits of a random id is not nil.
pub(crate) proof fn lemma_random_id_not_nil(id: u128)
    requires
        (id >> 76u128) & 0xfu128 == 4u128,
    ensures
        id != 0,
{
    assert((id >> 76u128) & 0xfu128 == 4u128 ==> id != 0) by (bit_vector);
}

/// Every speaker of the group in a filled slot.
pub open spec fn filled_slots(group: Seq<u128>) -> Seq<Option<u128>> {
    group.map_values(|s: u128| Some(s))
}

/// Whether the ballot is a new debate of the pair, with the speaker group as
/// its non-aligned speakers and no adjudicators or president yet.
pub open spec fn ballot_of_pair(b: DrawBallot, pair: TeamPair, group: Seq<u128>) -> bool {
    &&& b.government == Some(pair.government_id)
    &&& b.opposition == Some(pair.opposition_id)
    &&& b.non_aligned_speakers@ == filled_slots(group)
    &&& b.adjudicators@.len() == 0
    &&& b.president is None
}

/// Whether the ballots hold one debate per pair, in order, the `i`-th with the
/// `i`-th speaker group where there is one and no non-aligned speakers where
/// there is none.
pub open spec fn ballots_of_pairs(bs: Seq<DrawBallot>, pairs: Seq<TeamPair>, groups: Seq<Seq<u128>>) -> bool {
    &&& bs.len() == pairs.len()
    &&& forall|i: int| 0 <= i < bs.len() ==> #[trigger] ballot_of_pair(
        bs[i],
        pairs[i],
        group_at(groups, i),
    )
}

/// The `i`-th speaker group, none beyond the last.
pub open spec fn group_at(groups: Seq<Seq<u128>>, i: int) -> Seq<u128> {
    if i < groups.len() {
        groups[i]
    } else {
        Seq::empty()
    }
}

/// The slots of a speaker group.
fn slots_of(group: &Vec<u128>) -> (slots: Vec<Option<u128>>)
    ensures
        slots@ == filled_slots(group@),
{
    let mut slots: Vec<Option<u128>> = Vec::new();
    let mut i: usize = 0;
    while i < group.len()
        invariant
            i <= group.len(),
            slots@ == filled_slots(group@.take(i as int)),
        decreases group.len() - i,
    {
        slots.push(Some(group[i]));
        i += 1;
        assert(slots@ =~= filled_slots(group@.take(i as int)));
    }
    assert(group@.take(group.len() as int) =~= group@);
    slots
}

/// One new ballot per team pair, in order, each with a fresh id; the `i`-th
/// speaker group fills the non-aligned slots of the `i`-th ballot, and ballots
/// beyond the last group have none.
pub fn round_draw_from_team_and_speaker_pairs(
    team_pairs: Vec<TeamPair>,
    speaker_pairs: Vec<Vec<u128>>,
) -> (ballots: Vec<DrawBallot>)
    ensures
        ballots_of_pairs(ballots@, team_pairs@, groups_view(speaker_pairs@)),
{
    let mut ballots: Vec<DrawBallot> = Vec::new();
    let mut i: usize = 0;
    while i < team_pairs.len()
        invariant
            i <= team_pairs.len(),
            ballots.len() == i,
            forall|k: int| 0 <= k < i ==> #[trigger] ballot_of_pair(
                ballots@[k],
                team_pairs@[k],
                group_at(groups_view(speaker_pairs@), k),
            ),
        decreases team_pairs.len() - i,
    {
        let pair = team_pairs[i];
        let slots = if i < speaker_pairs.len() {
            slots_of(&speaker_pairs[i])
        } else {
            let empty: Vec<Option<u128>> = Vec::new();
            assert(empty@ =~= filled_slots(Seq::empty()));
            empty
        };
        let ballot = DrawBallot {
            uuid: new_random_id(),
            government: Some(pair.government_id),
            opposition: Some(pair.opposition_id),
            adjudicators: Vec::new(),
            non_aligned_speakers: slots,
            president: None,
        };
        ballots.push(ballot);
        i += 1;
    }
    ballots
}

/// Every team of the ballots with the role it had, government before
/// opposition, ballot by ballot.
pub open spec fn gov_opp_roles(ballots: Seq<Ballot>) -> Seq<(u128, TeamRoundRole)>
    decreases ballots.len(),
{
    if ballots.len() == 0 {
        Seq::empty()
    } else {
        let rest = gov_opp_roles(ballots.drop_last());
        let b = ballots.last();
        let a = match b.government {
            Some(g) => rest.push((g, TeamRoundRole::Government)),
            None => rest,
        };
        match b.opposition {
            Some(o) => a.push((o, TeamRoundRole::Opposition)),
            None => a,
        }
    }
}

/// The map of the pairs, a later pair of a key replacing an earlier one.
pub open spec fn map_of_roles(pairs: Seq<(u128, TeamRoundRole)>) -> Map<u128, TeamRoundRole>
    decreases pairs.len(),
{
    if pairs.len() == 0 {
        Map::empty()
    } else {
        map_of_roles(pairs.drop_last()).insert(pairs.last().0, pairs.last().1)
    }
}

/// The role each team had as government or opposition in the ballots; a team
/// that appears twice keeps its last role. Non-aligned speakers are ignored.
pub fn get_gov_opp_assignments_from_ballots(ballots: &Vec<Ballot>) -> (m: HashMap<u128, TeamRoundRole>)
    ensures
        m@ == map_of_roles(gov_opp_roles(ballots@)),
{
    let mut m: HashMap<u128, TeamRoundRole> = HashMap::new();
    let ghost mut pairs: Seq<(u128, TeamRoundRole)> = Seq::empty();
    let mut i: usize = 0;
    assert(m@ =~= map_of_roles(pairs));
    while i < ballots.len()
        invariant
            i <= ballots.len(),
            pairs == gov_opp_roles(ballots@.take(i as int)),
            m@ == map_of_roles(pairs),
        decreases ballots.len() - i,
    {
        assert(ballots@.take(i + 1).drop_last() =~= ballots@.take(i as int));
        assert(ballots@.take(i + 1).last() == ballots@[i as int]);
        match ballots[i].government {
            Some(g) => {
                m.insert(g, TeamRoundRole::Government);
                proof {
                    assert(pairs.push((g, TeamRoundRole::Government)).drop_last() =~= pairs);
                    let np = pairs.push((g, TeamRoundRole::Government));
                    assert(map_of_roles(np) == map_of_roles(pairs).insert(g, TeamRoundRole::Government));
                    assert(m@ =~= map_of_roles(np));
                    pairs = np;
                }
            },
            None => {},
        }
        match ballots[i].opposition {
            Some(o) => {
                m.insert(o, TeamRoundRole::Opposition);
                proof {
                    assert(pairs.push((o, TeamRoundRole::Opposition)).drop_last() =~= pairs);
                    let np = pairs.push((o, TeamRoundRole::Opposition));
                    assert(map_of_roles(np) == map_of_roles(pairs).insert(o, TeamRoundRole::Opposition));
                    assert(m@ =~= map_of_roles(np));
                    pairs = np;
                }
            },
            None => {},
        }
        i += 1;
    }
    assert(ballots@.take(ballots.len() as int) =~= ballots@);
    m
}

/// Whether the ballots are the debates of pairs, each kept or side-swapped from
/// a fold of the teams by the round's method, with the speaker groups of a fold
/// of the speakers by the round's method.
pub open spec fn is_fold_round(
    bs: Seq<DrawBallot>,
    teams: Seq<u128>,
    speakers: Seq<u128>,
    config: FoldDrawConfig,
) -> bool {
    exists|pairs: Seq<TeamPair>, sides: Seq<TeamPair>, groups: Seq<Seq<u128>>|
        #![trigger is_team_fold_of(pairs, teams, config.team_fold_method), ballots_of_pairs(bs, sides, groups)]
        {
            &&& is_team_fold_of(pairs, teams, config.team_fold_method)
            &&& is_speaker_fold_of(groups, speakers, config.non_aligned_fold_method)
            &&& sides.len() == pairs.len()
            &&& forall|i: int| 0 <= i < sides.len() ==> (#[trigger] sides[i] == pairs[i] || sides[i]
                == swap_sides(pairs[i]))
            &&& ballots_of_pairs(bs, sides, groups)
        }
}

/// Whether a team fold by the method can be made of `n` teams.
pub open spec fn fold_applies(n: nat, method: TeamFoldMethod) -> bool {
    n == 1 ==> (method != TeamFoldMethod::BalancedPowerPaired && method != TeamFoldMethod::HalfRandom)
}

/// Draws the rounds of a fold draw: per round, the teams are folded into pairs,
/// sides are decided, and the speakers are grouped in threes, each by the
/// round's configuration; the roles of each round are handed on to the next.
pub fn fold_draw_rounds(
    team_ids: &Vec<u128>,
    speaker_ids: &Vec<u128>,
    round_configs: &Vec<FoldDrawConfig>,
    preceding_round_gov_opp_assignments: Option<HashMap<u128, TeamRoundRole>>,
) -> (rounds: Vec<Vec<DrawBallot>>)
    requires
        forall|r: int| 0 <= r < round_configs.len() ==> #[trigger] fold_applies(
            team_ids.len() as nat,
            round_configs@[r].team_fold_method,
        ),
    ensures
        rounds.len() == round_configs.len(),
        forall|r: int| 0 <= r < rounds.len() ==> #[trigger] is_fold_round(
            rounds@[r]@,
            team_ids@,
            speaker_ids@,
            round_configs@[r],
        ),
{
    let mut all_pairs: Vec<Vec<TeamPair>> = Vec::new();
    let mut r: usize = 0;
    while r < round_configs.len()
        invariant
            r <= round_configs.len(),
            all_pairs.len() == r,
            forall|r: int| 0 <= r < round_configs.len() ==> #[trigger] fold_applies(
                team_ids.len() as nat,
                round_configs@[r].team_fold_method,
            ),
            forall|k: int| 0 <= k < r ==> #[trigger] is_team_fold_of(
                all_pairs@[k]@,
                team_ids@,
                round_configs@[k].team_fold_method,
            ),
        decreases round_configs.len() - r,
    {
        assert(fold_applies(team_ids.len() as nat, round_configs@[r as int].team_fold_method));
        let pairs = pair_teams(team_ids, &round_configs[r].team_fold_method);
        all_pairs.push(pairs);
        r += 1;
    }
    let mut previous = preceding_round_gov_opp_assignments;
    let mut rounds: Vec<Vec<DrawBallot>> = Vec::new();
    let mut r: usize = 0;
    while r < round_configs.len()
        invariant
            r <= round_configs.len(),
            all_pairs.len() == round_configs.len(),
            rounds.len() == r,
            forall|k: int| 0 <= k < round_configs.len() ==> #[trigger] is_team_fold_of(
                all_pairs@[k]@,
                team_ids@,
                round_configs@[k].team_fold_method,
            ),
            forall|k: int| 0 <= k < r ==> #[trigger] is_fold_round(
                rounds@[k]@,
                team_ids@,
                speaker_ids@,
                round_configs@[k],
            ),
        decreases round_configs.len() - r,
    {
        let config = &round_configs[r];
        let pairs = all_pairs[r].clone();
        assert(pairs@ == all_pairs@[r as int]@);
        let ghost folded = pairs@;
        let sides = assign_teams(pairs, config, previous.as_ref());
        let groups = pair_speakers(speaker_ids, &config.non_aligned_fold_method);
        let mut next: HashMap<u128, TeamRoundRole> = HashMap::new();
        let mut j: usize = 0;
        while j < sides.len()
            invariant
                j <= sides.len(),
            decreases sides.len() - j,
        {
            next.insert(sides[j].government_id, TeamRoundRole::Government);
            next.insert(sides[j].opposition_id, TeamRoundRole::Opposition);
            j += 1;
        }
        previous = Some(next);
        let ghost side_seq = sides@;
        let ghost group_seq = groups_view(groups@);
        let ballots = round_draw_from_team_and_speaker_pairs(sides, groups);
        assert(is_team_fold_of(folded, team_ids@, config.team_fold_method));
        assert(ballots_of_pairs(ballots@, side_seq, group_seq));
        assert(is_fold_round(ballots@, team_ids@, speaker_ids@, *config));
        rounds.push(ballots);
        r += 1;
    }
    rounds
}

} // verus!
