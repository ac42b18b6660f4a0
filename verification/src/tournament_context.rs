use vstd::prelude::*;

use std::collections::HashMap;

use crate::clashes::{u16_max, DrawEvaluationContext, HistoryEntry, ParticipantsDebateHistory};
use crate::datastructures::Ballot;
use crate::history::{ballot_presences, history_view, record_all};
use crate::participants::{Participant, ParticipantRole};
use crate::upload::NewClash;

verus! {

broadcast use vstd::std_specs::hash::group_hash_axioms;

/// The recorded debates of one round: each debate's id with its ballot.
pub struct RoundBallots {
    pub round_id: u128,
    pub debates: Vec<(u128, Ballot)>,
}

/// The history after recording the debates of a round, in order.
pub open spec fn record_debates(
    v: Map<u128, Map<u128, HistoryEntry>>,
    round: u128,
    debates: Seq<(u128, Ballot)>,
    tm: Map<u128, Vec<u128>>,
) -> Map<u128, Map<u128, HistoryEntry>>
    decreases debates.len(),
{
    if debates.len() == 0 {
        v
    } else {
        let d = debates.last();
        record_all(record_debates(v, round, debates.drop_last(), tm), ballot_presences(d.1, tm), round, d.0)
    }
}

/// The history after recording the rounds, in order.
pub open spec fn record_rounds(
    v: Map<u128, Map<u128, HistoryEntry>>,
    rounds: Seq<RoundBallots>,
    tm: Map<u128, Vec<u128>>,
) -> Map<u128, Map<u128, HistoryEntry>>
    decreases rounds.len(),
{
    if rounds.len() == 0 {
        v
    } else {
        let r = rounds.last();
        record_debates(record_rounds(v, rounds.drop_last(), tm), r.round_id, r.debates@, tm)
    }
}

impl ParticipantsDebateHistory {
    /// The history of a tournament: every debate of every round recorded from
    /// its ballot, in order.
    pub fn new_for_tournament(rounds: &Vec<RoundBallots>, team_members: &HashMap<u128, Vec<u128>>) -> (h: Self)
        ensures
            history_view(h.participant_debates) == record_rounds(Map::empty(), rounds@, team_members@),
    {
        let mut h = ParticipantsDebateHistory::new();
        let mut i: usize = 0;
        while i < rounds.len()
            invariant
                i <= rounds.len(),
                history_view(h.participant_debates) == record_rounds(Map::empty(), rounds@.take(i as int), team_members@),
            decreases rounds.len() - i,
        {
            let round = &rounds[i];
            assert(rounds@.take(i + 1).drop_last() =~= rounds@.take(i as int));
            let ghost start = history_view(h.participant_debates);
            let mut k: usize = 0;
            while k < round.debates.len()
                invariant
                    k <= round.debates.len(),
                    history_view(h.participant_debates) == record_debates(
                        start,
                        round.round_id,
                        round.debates@.take(k as int),
                        team_members@,
                    ),
                decreases round.debates.len() - k,
            {
                assert(round.debates@.take(k + 1).drop_last() =~= round.debates@.take(k as int));
                let (debate_id, ballot) = &round.debates[k];
                h.add_from_ballot(round.round_id, *debate_id, ballot, team_members);
                k += 1;
            }
            assert(round.debates@.take(round.debates.len() as int) =~= round.debates@);
            i += 1;
        }
        assert(rounds@.take(rounds.len() as int) =~= rounds@);
        h
    }
}

/// The team of each speaker that has one; a later participant with the same
/// id wins.
pub open spec fn speaker_team_map(ps: Seq<Participant>) -> Map<u128, u128>
    decreases ps.len(),
{
    if ps.len() == 0 {
        Map::empty()
    } else {
        let m = speaker_team_map(ps.drop_last());
        match ps.last().role {
            ParticipantRole::Speaker { team_id: Some(t) } => m.insert(ps.last().uuid, t),
            _ => m,
        }
    }
}

/// The participants by id; a later participant with the same id wins.
pub open spec fn participant_map(ps: Seq<Participant>) -> Map<u128, Participant>
    decreases ps.len(),
{
    if ps.len() == 0 {
        Map::empty()
    } else {
        participant_map(ps.drop_last()).insert(ps.last().uuid, ps.last())
    }
}

/// The members of each team, in the order of the participants.
pub open spec fn team_member_map(ps: Seq<Participant>) -> Map<u128, Seq<u128>>
    decreases ps.len(),
{
    if ps.len() == 0 {
        Map::empty()
    } else {
        let m = team_member_map(ps.drop_last());
        match ps.last().role {
            ParticipantRole::Speaker { team_id: Some(t) } => m.insert(
                t,
                (if m.contains_key(t) { m[t] } else { Seq::empty() }).push(ps.last().uuid),
            ),
            _ => m,
        }
    }
}

/// The severity of the strongest clash declared between the two
/// participants, in either direction; none where there is none.
pub open spec fn pair_severity(clashes: Seq<NewClash>, a: u128, b: u128) -> Option<u16>
    decreases clashes.len(),
{
    if clashes.len() == 0 {
        None
    } else {
        let rest = pair_severity(clashes.drop_last(), a, b);
        let c = clashes.last();
        if (c.declaring_participant_id == a && c.target_participant_id == b) || (c.declaring_participant_id == b
            && c.target_participant_id == a) {
            Some(
                match rest {
                    Some(s) => u16_max(s, c.clash_severity),
                    None => c.clash_severity,
                },
            )
        } else {
            rest
        }
    }
}

/// The severity table as a map of maps.
pub open spec fn table_view(t: HashMap<u128, HashMap<u128, u16>>) -> Map<u128, Map<u128, u16>> {
    Map::new(|a: u128| t@.contains_key(a), |a: u128| t@[a]@)
}

/// The entry of the table for the two participants, if any.
pub open spec fn table_lookup(t: Map<u128, Map<u128, u16>>, a: u128, b: u128) -> Option<u16> {
    if t.contains_key(a) && t[a].contains_key(b) {
        Some(t[a][b])
    } else {
        None
    }
}

proof fn lemma_pair_severity_symmetric(clashes: Seq<NewClash>, a: u128, b: u128)
    ensures
        pair_severity(clashes, a, b) == pair_severity(clashes, b, a),
    decreases clashes.len(),
{
    if clashes.len() > 0 {
        lemma_pair_severity_symmetric(clashes.drop_last(), a, b);
    }
}

/// Raises the entry of `a` for `b` to at least `s`.
fn raise_severity(t: &mut HashMap<u128, HashMap<u128, u16>>, a: u128, b: u128, s: u16)
    ensures
        forall|x: u128, y: u128|
            #[trigger] table_lookup(table_view(*final(t)), x, y) == if x == a && y == b {
                Some(
                    match table_lookup(table_view(*old(t)), a, b) {
                        Some(v) => u16_max(v, s),
                        None => s,
                    },
                )
            } else {
                table_lookup(table_view(*old(t)), x, y)
            },
{
    let ghost before = table_view(*t);
    let mut inner = match t.remove(&a) {
        Some(m) => m,
        None => HashMap::new(),
    };
    let raised = match inner.get(&b) {
        Some(v) => if *v >= s {
            *v
        } else {
            s
        },
        None => s,
    };
    inner.insert(b, raised);
    t.insert(a, inner);
    assert forall|x: u128, y: u128|
        #[trigger] table_lookup(table_view(*t), x, y) == if x == a && y == b {
            Some(
                match table_lookup(before, a, b) {
                    Some(v) => u16_max(v, s),
                    None => s,
                },
            )
        } else {
            table_lookup(before, x, y)
        } by {
        if x == a {
            assert(table_view(*t)[a] == inner@);
        }
    }
}

/// The declared clash table: for each two participants between whom a clash
/// is declared, in either direction, the severity of the strongest such
/// clash, under both orders of the two.
pub fn declared_clash_table(clashes: &Vec<NewClash>) -> (t: HashMap<u128, HashMap<u128, u16>>)
    ensures
        forall|a: u128, b: u128| #[trigger] table_lookup(table_view(t), a, b) == pair_severity(clashes@, a, b),
{
    let mut t: HashMap<u128, HashMap<u128, u16>> = HashMap::new();
    let mut i: usize = 0;
    proof {
        assert forall|a: u128, b: u128| #[trigger] table_lookup(table_view(t), a, b) == pair_severity(clashes@.take(0), a, b) by {
            assert(!table_view(t).contains_key(a));
        }
    }
    while i < clashes.len()
        invariant
            i <= clashes.len(),
            forall|a: u128, b: u128| #[trigger] table_lookup(table_view(t), a, b) == pair_severity(clashes@.take(i as int), a, b),
        decreases clashes.len() - i,
    {
        let c = clashes[i];
        let ghost prev = clashes@.take(i as int);
        assert(clashes@.take(i + 1).drop_last() =~= prev);
        raise_severity(&mut t, c.declaring_participant_id, c.target_participant_id, c.clash_severity);
        raise_severity(&mut t, c.target_participant_id, c.declaring_participant_id, c.clash_severity);
        i += 1;
        proof {
            let now = clashes@.take(i as int);
            assert forall|a: u128, b: u128| #[trigger] table_lookup(table_view(t), a, b) == pair_severity(now, a, b) by {
                lemma_pair_severity_symmetric(prev, a, b);
                assert(now.last() == c);
            }
        }
    }
    assert(clashes@.take(clashes.len() as int) =~= clashes@);
    t
}

/// The members of each team as a map of sequences.
pub open spec fn members_view(tm: HashMap<u128, Vec<u128>>) -> Map<u128, Seq<u128>> {
    Map::new(|t: u128| tm@.contains_key(t), |t: u128| tm@[t]@)
}

/// The participant information of a tournament: the team of each speaker,
/// the participants by id, and the members of each team in the order of the
/// participants.
pub struct ParticipantInfo {
    pub speaker_teams: HashMap<u128, u128>,
    pub participants_by_id: HashMap<u128, Participant>,
    pub team_members: HashMap<u128, Vec<u128>>,
}

impl ParticipantInfo {
    /// The information read from the participants.
    pub fn load(participants: Vec<Participant>) -> (info: Self)
        ensures
            info.speaker_teams@ == speaker_team_map(participants@),
            info.participants_by_id@ == participant_map(participants@),
            members_view(info.team_members) == team_member_map(participants@),
    {
            let ghost all = participants@;
            let mut participants = participants;
            let mut speaker_teams: HashMap<u128, u128> = HashMap::new();
            let mut participants_by_id: HashMap<u128, Participant> = HashMap::new();
            let mut team_members: HashMap<u128, Vec<u128>> = HashMap::new();
            let ghost mut j: int = 0;
            proof {
                assert(speaker_teams@ =~= speaker_team_map(all.take(0)));
                assert(participants_by_id@ =~= participant_map(all.take(0)));
                assert(members_view(team_members) =~= team_member_map(all.take(0)));
            }
            while participants.len() > 0
                invariant
                    0 <= j <= all.len(),
                    participants@ == all.subrange(j, all.len() as int),
                    speaker_teams@ == speaker_team_map(all.take(j)),
                    participants_by_id@ == participant_map(all.take(j)),
                    members_view(team_members) == team_member_map(all.take(j)),
                decreases participants.len(),
            {
                let p = participants.remove(0);
                proof {
                    assert(all.take(j + 1).drop_last() =~= all.take(j));
                    assert(all.take(j + 1).last() == p);
                }
                let ghost before = members_view(team_members);
                match p.role {
                    ParticipantRole::Speaker { team_id: Some(t) } => {
                        speaker_teams.insert(p.uuid, t);
                        let mut members = match team_members.remove(&t) {
                            Some(v) => v,
                            None => Vec::new(),
                        };
                        members.push(p.uuid);
                        team_members.insert(t, members);
                        assert(members_view(team_members) =~= before.insert(
                            t,
                            (if before.contains_key(t) { before[t] } else { Seq::empty() }).push(p.uuid),
                        ));
                    },
                    _ => {
                        assert(members_view(team_members) =~= before);
                    },
                }
                participants_by_id.insert(p.uuid, p);
                proof {
                    j = j + 1;
                }
                assert(participants@ =~= all.subrange(j, all.len() as int));
            }
            assert(all.take(j) =~= all);
        ParticipantInfo { speaker_teams, participants_by_id, team_members }
    }
}

impl DrawEvaluationContext {
    /// The clash evaluation context of a tournament, from its participants,
    /// the clashes they declared and the recorded debates of its rounds: the
    /// team of each speaker, the participants by id, the members of each team
    /// in the order of the participants, the declared clash table, and the
    /// history of the recorded debates.
    pub fn new_for_tournament(participants: Vec<Participant>, clashes: &Vec<NewClash>, rounds: &Vec<RoundBallots>) -> (c: Self)
        ensures
            c.speaker_teams@ == speaker_team_map(participants@),
            c.participants_by_id@ == participant_map(participants@),
            members_view(c.team_members) == team_member_map(participants@),
            forall|a: u128, b: u128|
                #[trigger] table_lookup(table_view(c.participant_declared_clashes), a, b) == pair_severity(clashes@, a, b),
            history_view(c.history.participant_debates) == record_rounds(Map::empty(), rounds@, c.team_members@),
    {
        let ParticipantInfo { speaker_teams, participants_by_id, team_members } = ParticipantInfo::load(participants);
        let participant_declared_clashes = declared_clash_table(clashes);
        let history = ParticipantsDebateHistory::new_for_tournament(rounds, &team_members);
        DrawEvaluationContext { speaker_teams, participants_by_id, participant_declared_clashes, team_members, history }
    }
}

} // verus!
