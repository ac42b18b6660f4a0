use vstd::prelude::*;

use std::collections::HashMap;

use crate::participants::{Participant, ParticipantInstitution};

verus! {

broadcast use vstd::std_specs::hash::group_hash_axioms;

/// Why two participants should not meet in a debate.
#[derive(Clone, Copy, Debug, PartialEq, Eq, Structural)]
pub enum ClashType {
    SpeakersHaveMetAsNonAligned { round: u128 },
    SpeakersHaveMetAsTeamAndNonAligned { round: u128 },
    SpeakersHaveMetAsTeam { round: u128 },
    JudgeHasSeenSpeaker { round: u128, judge_was_chair: bool, speaker_was_in_team: bool },
    JudgeHasSeenJudge { round: u128 },
    DeclaredClash { severity: u16 },
    InstitutionalClash { severity: u16, institution_id: u128 },
    SameTeamClash,
}

/// The role a participant had in a debate of an earlier round.
#[derive(Clone, Copy, Debug, PartialEq, Eq, Structural)]
pub enum HistoryRole {
    Chair,
    Wing,
    NonAligned,
    Team,
}

/// Where a participant was in one earlier round.
#[derive(Clone, Copy, Debug, PartialEq, Eq, Structural)]
pub struct HistoryEntry {
    pub role: HistoryRole,
    pub debate_id: u128,
}

/// For each participant, the debate and role it had in each earlier round,
/// keyed by participant and then by round.
pub struct ParticipantsDebateHistory {
    pub participant_debates: HashMap<u128, HashMap<u128, HistoryEntry>>,
}

/// What the clash evaluation reads of a tournament: the team of each speaker,
/// the participants, the clashes they declared, the members of each team and
/// the history of earlier rounds.
pub struct DrawEvaluationContext {
    pub speaker_teams: HashMap<u128, u128>,
    pub participants_by_id: HashMap<u128, Participant>,
    pub participant_declared_clashes: HashMap<u128, HashMap<u128, u16>>,
    pub team_members: HashMap<u128, Vec<u128>>,
    pub history: ParticipantsDebateHistory,
}

/// The position of a role in the order chair, wing, non-aligned, team.
pub open spec fn role_rank(r: HistoryRole) -> int {
    match r {
        HistoryRole::Chair => 0,
        HistoryRole::Wing => 1,
        HistoryRole::NonAligned => 2,
        HistoryRole::Team => 3,
    }
}

/// The clash between two participants that met in `round` in the roles `a`
/// and `b`, if that pair of roles makes one.
pub open spec fn role_pair_clash(round: u128, a: HistoryRole, b: HistoryRole) -> Option<ClashType> {
    let (lo, hi) = if role_rank(a) <= role_rank(b) { (a, b) } else { (b, a) };
    match (lo, hi) {
        (HistoryRole::Chair, HistoryRole::Wing) => Some(ClashType::JudgeHasSeenJudge { round }),
        (HistoryRole::Chair, HistoryRole::NonAligned) => Some(
            ClashType::JudgeHasSeenSpeaker { round, judge_was_chair: true, speaker_was_in_team: false },
        ),
        (HistoryRole::Chair, HistoryRole::Team) => Some(
            ClashType::JudgeHasSeenSpeaker { round, judge_was_chair: true, speaker_was_in_team: true },
        ),
        (HistoryRole::Wing, HistoryRole::Wing) => Some(ClashType::JudgeHasSeenJudge { round }),
        (HistoryRole::Wing, HistoryRole::NonAligned) => Some(
            ClashType::JudgeHasSeenSpeaker { round, judge_was_chair: false, speaker_was_in_team: false },
        ),
        (HistoryRole::Wing, HistoryRole::Team) => Some(
            ClashType::JudgeHasSeenSpeaker { round, judge_was_chair: false, speaker_was_in_team: true },
        ),
        (HistoryRole::NonAligned, HistoryRole::NonAligned) => Some(
            ClashType::SpeakersHaveMetAsNonAligned { round },
        ),
        (HistoryRole::NonAligned, HistoryRole::Team) => Some(
            ClashType::SpeakersHaveMetAsTeamAndNonAligned { round },
        ),
        (HistoryRole::Team, HistoryRole::Team) => Some(ClashType::SpeakersHaveMetAsTeam { round }),
        _ => None,
    }
}

pub open spec fn option_to_seq<T>(o: Option<T>) -> Seq<T> {
    match o {
        Some(x) => seq![x],
        None => Seq::empty(),
    }
}

/// The clash that round `r` of the two histories gives: one when both were in
/// the same debate of that round in roles that clash.
pub open spec fn round_clash(r: u128, h1: Map<u128, HistoryEntry>, h2: Map<u128, HistoryEntry>) -> Seq<ClashType> {
    if h1.contains_key(r) && h2.contains_key(r) && h1[r].debate_id == h2[r].debate_id {
        option_to_seq(role_pair_clash(r, h1[r].role, h2[r].role))
    } else {
        Seq::empty()
    }
}

/// The clashes from earlier meetings, round by round in the order of `rounds`.
pub open spec fn rounds_clashes(rounds: Seq<u128>, h1: Map<u128, HistoryEntry>, h2: Map<u128, HistoryEntry>) -> Seq<ClashType>
    decreases rounds.len(),
{
    if rounds.len() == 0 {
        Seq::empty()
    } else {
        rounds_clashes(rounds.drop_last(), h1, h2) + round_clash(rounds.last(), h1, h2)
    }
}

/// The severity of `p1`'s institution `u`, from the last entry with that id.
pub open spec fn institution_severity(insts: Seq<ParticipantInstitution>, u: u128) -> Option<u16>
    decreases insts.len(),
{
    if insts.len() == 0 {
        None
    } else if insts.last().uuid == u {
        Some(insts.last().clash_severity)
    } else {
        institution_severity(insts.drop_last(), u)
    }
}

/// One institutional clash for each institution of the second participant that
/// the first shares, in the second's order, with the halves of the two
/// severities added.
pub open spec fn institutional_clashes(i1: Seq<ParticipantInstitution>, i2: Seq<ParticipantInstitution>) -> Seq<ClashType>
    decreases i2.len(),
{
    if i2.len() == 0 {
        Seq::empty()
    } else {
        let rest = institutional_clashes(i1, i2.drop_last());
        match institution_severity(i1, i2.last().uuid) {
            Some(s1) => rest.push(
                ClashType::InstitutionalClash {
                    institution_id: i2.last().uuid,
                    severity: (s1 / 2 + i2.last().clash_severity / 2) as u16,
                },
            ),
            None => rest,
        }
    }
}

pub open spec fn u16_max(a: u16, b: u16) -> u16 {
    if a >= b { a } else { b }
}

impl DrawEvaluationContext {
    /// The severity of the clash that `a` declared against `b`, or 0.
    pub open spec fn declared_severity(&self, a: u128, b: u128) -> u16 {
        if self.participant_declared_clashes@.contains_key(a) && self.participant_declared_clashes@[a]@.contains_key(b) {
            self.participant_declared_clashes@[a]@[b]
        } else {
            0
        }
    }

    /// The clashes that do not depend on earlier rounds: a declared clash (the
    /// stronger of the two directions), being in one team, and shared
    /// institutions. None when either participant is unknown.
    pub open spec fn permanent_clashes(&self, p1: u128, p2: u128) -> Seq<ClashType> {
        let parts = self.participants_by_id@;
        if !(parts.contains_key(p1) && parts.contains_key(p2)) {
            Seq::empty()
        } else {
            let d = u16_max(self.declared_severity(p1, p2), self.declared_severity(p2, p1));
            let declared = if d > 0 { seq![ClashType::DeclaredClash { severity: d }] } else { Seq::empty() };
            let teams = self.speaker_teams@;
            let same_team = if teams.contains_key(p1) && teams.contains_key(p2) && teams[p1] == teams[p2] {
                seq![ClashType::SameTeamClash]
            } else {
                Seq::empty()
            };
            declared + same_team + institutional_clashes(parts[p1].institutions@, parts[p2].institutions@)
        }
    }

    /// The clashes from having met in one of `rounds`, in the order of the rounds.
    pub open spec fn dynamic_clashes(&self, rounds: Seq<u128>, p1: u128, p2: u128) -> Seq<ClashType> {
        let h = self.history.participant_debates@;
        if h.contains_key(p1) && h.contains_key(p2) {
            rounds_clashes(rounds, h[p1]@, h[p2]@)
        } else {
            Seq::empty()
        }
    }

    /// All clashes between two participants: the permanent ones, then those from
    /// earlier rounds.
    pub open spec fn all_clashes(&self, rounds: Seq<u128>, p1: u128, p2: u128) -> Seq<ClashType> {
        self.permanent_clashes(p1, p2) + self.dynamic_clashes(rounds, p1, p2)
    }

    fn declared_severity_exec(&self, a: u128, b: u128) -> (s: u16)
        ensures
            s == self.declared_severity(a, b),
    {
        match self.participant_declared_clashes.get(&a) {
            Some(m) => match m.get(&b) {
                Some(s) => *s,
                None => 0,
            },
            None => 0,
        }
    }

    /// The permanent clashes between `p1` and `p2`.
    pub fn permanent_clashes_between(&self, p1: u128, p2: u128) -> (clashes: Vec<ClashType>)
        ensures
            clashes@ == self.permanent_clashes(p1, p2),
    {
        let p1_info = self.participants_by_id.get(&p1);
        let p2_info = self.participants_by_id.get(&p2);
        match (p1_info, p2_info) {
            (Some(p1_info), Some(p2_info)) => {
                let mut all_clashes: Vec<ClashType> = Vec::new();
                let d1 = self.declared_severity_exec(p1, p2);
                let d2 = self.declared_severity_exec(p2, p1);
                let d = if d1 >= d2 { d1 } else { d2 };
                if d > 0 {
                    all_clashes.push(ClashType::DeclaredClash { severity: d });
                }
                match (self.speaker_teams.get(&p1), self.speaker_teams.get(&p2)) {
                    (Some(t1), Some(t2)) => {
                        if *t1 == *t2 {
                            all_clashes.push(ClashType::SameTeamClash);
                        }
                    },
                    _ => {},
                }
                let ghost prefix = all_clashes@;
                let inst = institutional_clashes_exec(&p1_info.institutions, &p2_info.institutions);
                let mut i: usize = 0;
                while i < inst.len()
                    invariant
                        i <= inst.len(),
                        all_clashes@ =~= prefix + inst@.take(i as int),
                    decreases inst.len() - i,
                {
                    all_clashes.push(inst[i]);
                    i += 1;
                }
                assert(inst@.take(inst.len() as int) =~= inst@);
                assert(all_clashes@ =~= self.permanent_clashes(p1, p2));
                all_clashes
            },
            _ => Vec::new(),
        }
    }

    /// The clashes between `p1` and `p2` from having met in one of `rounds`.
    pub fn dynamic_clashes_between(&self, rounds: &Vec<u128>, p1: u128, p2: u128) -> (clashes: Vec<ClashType>)
        ensures
            clashes@ == self.dynamic_clashes(rounds@, p1, p2),
    {
        let h1 = self.history.participant_debates.get(&p1);
        let h2 = self.history.participant_debates.get(&p2);
        match (h1, h2) {
            (Some(h1), Some(h2)) => {
                let mut out: Vec<ClashType> = Vec::new();
                let mut i: usize = 0;
                while i < rounds.len()
                    invariant
                        i <= rounds.len(),
                        out@ == rounds_clashes(rounds@.take(i as int), h1@, h2@),
                    decreases rounds.len() - i,
                {
                    let r = rounds[i];
                    proof {
                        assert(rounds@.take(i + 1).drop_last() =~= rounds@.take(i as int));
                    }
                    match (h1.get(&r), h2.get(&r)) {
                        (Some(e1), Some(e2)) => {
                            if e1.debate_id == e2.debate_id {
                                match role_pair_clash_exec(r, e1.role, e2.role) {
                                    Some(c) => {
                                        out.push(c);
                                    },
                                    None => {},
                                }
                            }
                        },
                        _ => {},
                    }
                    assert(out@ =~= rounds_clashes(rounds@.take(i + 1), h1@, h2@));
                    i += 1;
                }
                assert(rounds@.take(rounds.len() as int) =~= rounds@);
                out
            },
            _ => Vec::new(),
        }
    }

    /// All clashes between `p1` and `p2`: the permanent ones, then the ones from
    /// earlier rounds.
    pub fn all_clashes_between(&self, rounds: &Vec<u128>, p1: u128, p2: u128) -> (clashes: Vec<ClashType>)
        ensures
            clashes@ == self.all_clashes(rounds@, p1, p2),
    {
        let mut all_clashes = self.permanent_clashes_between(p1, p2);
        let dynamic = self.dynamic_clashes_between(rounds, p1, p2);
        let ghost prefix = all_clashes@;
        let mut i: usize = 0;
        while i < dynamic.len()
            invariant
                i <= dynamic.len(),
                all_clashes@ =~= prefix + dynamic@.take(i as int),
            decreases dynamic.len() - i,
        {
            all_clashes.push(dynamic[i]);
            i += 1;
        }
        assert(dynamic@.take(dynamic.len() as int) =~= dynamic@);
        all_clashes
    }
}

fn role_rank_exec(r: HistoryRole) -> (k: u8)
    ensures
        k == role_rank(r),
{
    match r {
        HistoryRole::Chair => 0,
        HistoryRole::Wing => 1,
        HistoryRole::NonAligned => 2,
        HistoryRole::Team => 3,
    }
}

fn role_pair_clash_exec(round: u128, a: HistoryRole, b: HistoryRole) -> (c: Option<ClashType>)
    ensures
        c == role_pair_clash(round, a, b),
{
    let (lo, hi) = if role_rank_exec(a) <= role_rank_exec(b) { (a, b) } else { (b, a) };
    match (lo, hi) {
        (HistoryRole::Chair, HistoryRole::Wing) => Some(ClashType::JudgeHasSeenJudge { round }),
        (HistoryRole::Chair, HistoryRole::NonAligned) => Some(
            ClashType::JudgeHasSeenSpeaker { round, judge_was_chair: true, speaker_was_in_team: false },
        ),
        (HistoryRole::Chair, HistoryRole::Team) => Some(
            ClashType::JudgeHasSeenSpeaker { round, judge_was_chair: true, speaker_was_in_team: true },
        ),
        (HistoryRole::Wing, HistoryRole::Wing) => Some(ClashType::JudgeHasSeenJudge { round }),
        (HistoryRole::Wing, HistoryRole::NonAligned) => Some(
            ClashType::JudgeHasSeenSpeaker { round, judge_was_chair: false, speaker_was_in_team: false },
        ),
        (HistoryRole::Wing, HistoryRole::Team) => Some(
            ClashType::JudgeHasSeenSpeaker { round, judge_was_chair: false, speaker_was_in_team: true },
        ),
        (HistoryRole::NonAligned, HistoryRole::NonAligned) => Some(
            ClashType::SpeakersHaveMetAsNonAligned { round },
        ),
        (HistoryRole::NonAligned, HistoryRole::Team) => Some(
            ClashType::SpeakersHaveMetAsTeamAndNonAligned { round },
        ),
        (HistoryRole::Team, HistoryRole::Team) => Some(ClashType::SpeakersHaveMetAsTeam { round }),
        _ => None,
    }
}

fn institution_severity_exec(insts: &Vec<ParticipantInstitution>, u: u128) -> (s: Option<u16>)
    ensures
        s == institution_severity(insts@, u),
{
    let mut i = insts.len();
    assert(insts@.take(i as int) =~= insts@);
    while i > 0
        invariant
            i <= insts.len(),
            institution_severity(insts@, u) == institution_severity(insts@.take(i as int), u),
        decreases i,
    {
        assert(insts@.take(i as int).drop_last() =~= insts@.take(i - 1));
        if insts[i - 1].uuid == u {
            return Some(insts[i - 1].clash_severity);
        }
        i -= 1;
    }
    None
}

fn institutional_clashes_exec(i1: &Vec<ParticipantInstitution>, i2: &Vec<ParticipantInstitution>) -> (out: Vec<ClashType>)
    ensures
        out@ == institutional_clashes(i1@, i2@),
{
    let mut out: Vec<ClashType> = Vec::new();
    let mut j: usize = 0;
    while j < i2.len()
        invariant
            j <= i2.len(),
            out@ == institutional_clashes(i1@, i2@.take(j as int)),
        decreases i2.len() - j,
    {
        assert(i2@.take(j + 1).drop_last() =~= i2@.take(j as int));
        let inst = i2[j];
        match institution_severity_exec(i1, inst.uuid) {
            Some(s1) => {
                out.push(ClashType::InstitutionalClash {
                    institution_id: inst.uuid,
                    severity: s1 / 2 + inst.clash_severity / 2,
                });
            },
            None => {},
        }
        j += 1;
    }
    assert(i2@.take(i2.len() as int) =~= i2@);
    out
}

} // verus!
