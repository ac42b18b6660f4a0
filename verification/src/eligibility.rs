use vstd::prelude::*;

use std::collections::HashSet;

use crate::participants::{
    ParticipantRole, Participant, is_member_of, is_speaker, is_adjudicator,
};

verus! {

broadcast use vstd::std_specs::hash::group_hash_axioms;

/// Which teams a break category admits.
#[derive(Clone, Copy, Debug, PartialEq, Eq, Structural)]
pub enum TeamEligibilityMode {
    DoNotRestrict,
    AnyEligible,
    MajorityEligible,
    AllEligible,
}

/// Which non-aligned speakers a break category admits.
#[derive(Clone, Copy, Debug, PartialEq, Eq, Structural)]
pub enum NonAlignedEligibilityMode {
    DoNotRestrict,
    AllEligible,
    AllInEligibleTeams,
    AllEligibleInEligibleTeams,
}

/// Which adjudicators a break category admits.
#[derive(Clone, Copy, Debug, PartialEq, Eq, Structural)]
pub enum AdjudicatorEligibilityMode {
    DoNotRestrict,
    AllEligible,
}

#[derive(Clone, Copy, Debug, PartialEq, Eq, Structural)]
pub struct EligibilityConfig {
    pub team_eligibility_mode: TeamEligibilityMode,
    pub non_aligned_eligibility_mode: NonAlignedEligibilityMode,
    pub adjudicator_eligibility_mode: AdjudicatorEligibilityMode,
}

/// A break category whose members may break, with its rules.
#[derive(Clone, Copy, Debug, PartialEq, Eq, Structural)]
pub struct TournamentEligibleBreakCategory {
    pub category_id: u128,
    pub config: EligibilityConfig,
}

/// The teams, speakers and adjudicators that may break.
pub struct EligibilityInfo {
    pub eligible_teams: HashSet<u128>,
    pub eligible_speakers: HashSet<u128>,
    pub eligible_adjudicators: HashSet<u128>,
}

/// The number of speakers of team `t` in `ps`.
pub open spec fn member_count(ps: Seq<Participant>, t: u128) -> nat
    decreases ps.len(),
{
    if ps.len() == 0 {
        0
    } else {
        member_count(ps.drop_last(), t) + if is_member_of(ps.last(), t) { 1nat } else { 0nat }
    }
}

/// The number of speakers of team `t` in `ps` that are in category `c`.
pub open spec fn qualified_member_count(ps: Seq<Participant>, t: u128, c: u128) -> nat
    decreases ps.len(),
{
    if ps.len() == 0 {
        0
    } else {
        qualified_member_count(ps.drop_last(), t, c) + if is_member_of(ps.last(), t)
            && ps.last().break_category_id == Some(c) {
            1nat
        } else {
            0nat
        }
    }
}

/// The ids of the teams that have a speaker among `ps`.
pub open spec fn team_ids(ps: Seq<Participant>) -> Set<u128> {
    Set::new(|t: u128| exists|i: int| 0 <= i < ps.len() && #[trigger] is_member_of(ps[i], t))
}

/// The ids of the speakers among `ps`.
pub open spec fn speaker_ids(ps: Seq<Participant>) -> Set<u128> {
    Set::new(|u: u128| exists|i: int| 0 <= i < ps.len() && is_speaker(ps[i]) && #[trigger] ps[i].uuid == u)
}

/// The ids of the adjudicators among `ps`.
pub open spec fn adjudicator_ids(ps: Seq<Participant>) -> Set<u128> {
    Set::new(|u: u128| exists|i: int| 0 <= i < ps.len() && is_adjudicator(ps[i]) && #[trigger] ps[i].uuid == u)
}

pub open spec fn restricts_teams(c: TournamentEligibleBreakCategory) -> bool {
    c.config.team_eligibility_mode != TeamEligibilityMode::DoNotRestrict
}

pub open spec fn restricts_speakers(c: TournamentEligibleBreakCategory) -> bool {
    c.config.non_aligned_eligibility_mode != NonAlignedEligibilityMode::DoNotRestrict
}

pub open spec fn restricts_adjudicators(c: TournamentEligibleBreakCategory) -> bool {
    c.config.adjudicator_eligibility_mode != AdjudicatorEligibilityMode::DoNotRestrict
}

/// Whether a team with `members` speakers, `qualified` of them in the category,
/// passes the team rule `mode`. A majority is at least half, rounded up.
pub open spec fn team_rule_holds(mode: TeamEligibilityMode, qualified: nat, members: nat) -> bool {
    match mode {
        TeamEligibilityMode::DoNotRestrict => true,
        TeamEligibilityMode::AnyEligible => qualified > 0,
        TeamEligibilityMode::MajorityEligible => qualified >= (members + 1) / 2,
        TeamEligibilityMode::AllEligible => qualified == members,
    }
}

pub open spec fn team_qualifies(ps: Seq<Participant>, t: u128, c: TournamentEligibleBreakCategory) -> bool {
    team_rule_holds(
        c.config.team_eligibility_mode,
        qualified_member_count(ps, t, c.category_id),
        member_count(ps, t),
    )
}

/// The teams that category `c` admits, when it restricts teams.
pub open spec fn category_teams(ps: Seq<Participant>, c: TournamentEligibleBreakCategory) -> Set<u128> {
    team_ids(ps).filter(|t: u128| team_qualifies(ps, t, c))
}

/// Whether speaker `p` is in a team that category `c` admits (any team, when the
/// category does not restrict teams).
pub open spec fn in_admitted_team(ps: Seq<Participant>, p: Participant, c: TournamentEligibleBreakCategory) -> bool {
    match p.role {
        ParticipantRole::Speaker { team_id: Some(t) } => restricts_teams(c) ==> category_teams(ps, c).contains(t),
        _ => false,
    }
}

pub open spec fn speaker_qualifies(ps: Seq<Participant>, p: Participant, c: TournamentEligibleBreakCategory) -> bool {
    let native = p.break_category_id == Some(c.category_id);
    is_speaker(p) && match c.config.non_aligned_eligibility_mode {
        NonAlignedEligibilityMode::DoNotRestrict => true,
        NonAlignedEligibilityMode::AllEligible => native,
        NonAlignedEligibilityMode::AllInEligibleTeams => in_admitted_team(ps, p, c),
        NonAlignedEligibilityMode::AllEligibleInEligibleTeams => native && in_admitted_team(ps, p, c),
    }
}

pub open spec fn adjudicator_qualifies(p: Participant, c: TournamentEligibleBreakCategory) -> bool {
    is_adjudicator(p) && p.break_category_id == Some(c.category_id)
}

/// The speakers that category `c` admits, when it restricts speakers.
pub open spec fn category_speakers(ps: Seq<Participant>, c: TournamentEligibleBreakCategory) -> Set<u128> {
    Set::new(|u: u128| exists|i: int| 0 <= i < ps.len() && speaker_qualifies(ps, ps[i], c) && #[trigger] ps[i].uuid == u)
}

/// The adjudicators that category `c` admits, when it restricts adjudicators.
pub open spec fn category_adjudicators(ps: Seq<Participant>, c: TournamentEligibleBreakCategory) -> Set<u128> {
    Set::new(|u: u128| exists|i: int| 0 <= i < ps.len() && adjudicator_qualifies(ps[i], c) && #[trigger] ps[i].uuid == u)
}

/// Whether category `k` is the last one in `cats` with its id; of several
/// entries with one id, the last one decides.
pub open spec fn is_last_of_id(cats: Seq<TournamentEligibleBreakCategory>, k: int) -> bool {
    forall|j: int| k < j < cats.len() ==> #[trigger] cats[j].category_id != cats[k].category_id
}

pub open spec fn team_restriction_upto(cats: Seq<TournamentEligibleBreakCategory>, n: int) -> bool {
    exists|k: int| 0 <= k < n && is_last_of_id(cats, k) && #[trigger] restricts_teams(cats[k])
}

pub open spec fn speaker_restriction_upto(cats: Seq<TournamentEligibleBreakCategory>, n: int) -> bool {
    exists|k: int| 0 <= k < n && is_last_of_id(cats, k) && #[trigger] restricts_speakers(cats[k])
}

pub open spec fn adjudicator_restriction_upto(cats: Seq<TournamentEligibleBreakCategory>, n: int) -> bool {
    exists|k: int| 0 <= k < n && is_last_of_id(cats, k) && #[trigger] restricts_adjudicators(cats[k])
}

pub open spec fn admitted_teams_upto(cats: Seq<TournamentEligibleBreakCategory>, ps: Seq<Participant>, n: int) -> Set<u128> {
    Set::new(|t: u128| exists|k: int| 0 <= k < n && is_last_of_id(cats, k) && #[trigger] restricts_teams(cats[k])
        && category_teams(ps, cats[k]).contains(t))
}

pub open spec fn admitted_speakers_upto(cats: Seq<TournamentEligibleBreakCategory>, ps: Seq<Participant>, n: int) -> Set<u128> {
    Set::new(|u: u128| exists|k: int| 0 <= k < n && is_last_of_id(cats, k) && #[trigger] restricts_speakers(cats[k])
        && category_speakers(ps, cats[k]).contains(u))
}

pub open spec fn admitted_adjudicators_upto(cats: Seq<TournamentEligibleBreakCategory>, ps: Seq<Participant>, n: int) -> Set<u128> {
    Set::new(|u: u128| exists|k: int| 0 <= k < n && is_last_of_id(cats, k) && #[trigger] restricts_adjudicators(cats[k])
        && category_adjudicators(ps, cats[k]).contains(u))
}

/// The teams that may break: the union of what the restricting categories admit,
/// or every team when no category restricts teams.
pub open spec fn eligible_teams_spec(cats: Seq<TournamentEligibleBreakCategory>, ps: Seq<Participant>) -> Set<u128> {
    if team_restriction_upto(cats, cats.len() as int) {
        admitted_teams_upto(cats, ps, cats.len() as int)
    } else {
        team_ids(ps)
    }
}

/// The speakers that may break, in the same way.
pub open spec fn eligible_speakers_spec(cats: Seq<TournamentEligibleBreakCategory>, ps: Seq<Participant>) -> Set<u128> {
    if speaker_restriction_upto(cats, cats.len() as int) {
        admitted_speakers_upto(cats, ps, cats.len() as int)
    } else {
        speaker_ids(ps)
    }
}

/// The adjudicators that may break, in the same way.
pub open spec fn eligible_adjudicators_spec(cats: Seq<TournamentEligibleBreakCategory>, ps: Seq<Participant>) -> Set<u128> {
    if adjudicator_restriction_upto(cats, cats.len() as int) {
        admitted_adjudicators_upto(cats, ps, cats.len() as int)
    } else {
        adjudicator_ids(ps)
    }
}

proof fn lemma_count_step(ps: Seq<Participant>, i: int, t: u128, c: u128)
    requires
        0 <= i < ps.len(),
    ensures
        member_count(ps.take(i + 1), t) == member_count(ps.take(i), t) + if is_member_of(ps[i], t) { 1nat } else { 0nat },
        qualified_member_count(ps.take(i + 1), t, c) == qualified_member_count(ps.take(i), t, c)
            + if is_member_of(ps[i], t) && ps[i].break_category_id == Some(c) { 1nat } else { 0nat },
{
    assert(ps.take(i + 1).drop_last() =~= ps.take(i));
}

/// Counts the speakers of team `t`, and those of them in category `c`.
fn count_team_members(ps: &Vec<Participant>, t: u128, c: u128) -> (r: (usize, usize))
    ensures
        r.0 == member_count(ps@, t),
        r.1 == qualified_member_count(ps@, t, c),
{
    let mut m: usize = 0;
    let mut q: usize = 0;
    let mut i: usize = 0;
    while i < ps.len()
        invariant
            i <= ps.len(),
            m <= i,
            q <= i,
            m == member_count(ps@.take(i as int), t),
            q == qualified_member_count(ps@.take(i as int), t, c),
        decreases ps.len() - i,
    {
        proof {
            lemma_count_step(ps@, i as int, t, c);
        }
        let p = &ps[i];
        match p.role {
            ParticipantRole::Speaker { team_id: Some(team) } => {
                if team == t {
                    m += 1;
                    match p.break_category_id {
                        Some(cat) => {
                            if cat == c {
                                q += 1;
                            }
                        },
                        None => {},
                    }
                }
            },
            _ => {},
        }
        i += 1;
    }
    assert(ps@.take(ps.len() as int) =~= ps@);
    (m, q)
}

fn team_qualifies_exec(ps: &Vec<Participant>, t: u128, c: &TournamentEligibleBreakCategory) -> (b: bool)
    ensures
        b == team_qualifies(ps@, t, *c),
{
    let (m, q) = count_team_members(ps, t, c.category_id);
    match c.config.team_eligibility_mode {
        TeamEligibilityMode::DoNotRestrict => true,
        TeamEligibilityMode::AnyEligible => q > 0,
        TeamEligibilityMode::MajorityEligible => q >= m / 2 + m % 2,
        TeamEligibilityMode::AllEligible => q == m,
    }
}

/// The ids of all teams with a speaker, each once.
fn collect_team_ids(ps: &Vec<Participant>) -> (teams: Vec<u128>)
    ensures
        forall|t: u128| teams@.contains(t) <==> team_ids(ps@).contains(t),
{
    let mut teams: Vec<u128> = Vec::new();
    let mut i: usize = 0;
    while i < ps.len()
        invariant
            i <= ps.len(),
            forall|t: u128| teams@.contains(t) <==> exists|j: int| 0 <= j < i && #[trigger] is_member_of(ps@[j], t),
        decreases ps.len() - i,
    {
        match ps[i].role {
            ParticipantRole::Speaker { team_id: Some(team) } => {
                let ghost before = teams@;
                teams.push(team);
                assert(is_member_of(ps@[i as int], team));
                assert forall|t: u128| teams@.contains(t) <==> exists|j: int| 0 <= j < i + 1 && #[trigger] is_member_of(ps@[j], t) by {
                    if t == team {
                        assert(teams@[teams@.len() - 1] == t);
                    } else {
                        if teams@.contains(t) {
                            let k = choose|k: int| 0 <= k < teams@.len() && teams@[k] == t;
                            assert(k < before.len());
                            assert(before[k] == t);
                            assert(before.contains(t));
                        }
                        if exists|j: int| 0 <= j < i + 1 && #[trigger] is_member_of(ps@[j], t) {
                            let j = choose|j: int| 0 <= j < i + 1 && #[trigger] is_member_of(ps@[j], t);
                            assert(j < i);
                            assert(before.contains(t));
                            let k = choose|k: int| 0 <= k < before.len() && before[k] == t;
                            assert(teams@[k] == t);
                        }
                    }
                }
            },
            _ => {
                assert forall|t: u128| teams@.contains(t) <==> exists|j: int| 0 <= j < i + 1 && #[trigger] is_member_of(ps@[j], t) by {
                    if exists|j: int| 0 <= j < i + 1 && #[trigger] is_member_of(ps@[j], t) {
                        let j = choose|j: int| 0 <= j < i + 1 && #[trigger] is_member_of(ps@[j], t);
                        assert(j != i);
                    }
                }
            },
        }
        i += 1;
    }
    teams
}

/// Whether the speaker at `i` passes the speaker rule of category `c`.
fn speaker_qualifies_exec(ps: &Vec<Participant>, i: usize, c: &TournamentEligibleBreakCategory) -> (b: bool)
    requires
        i < ps.len(),
    ensures
        b == speaker_qualifies(ps@, ps@[i as int], *c),
{
    let p = &ps[i];
    match p.role {
        ParticipantRole::Adjudicator => false,
        ParticipantRole::Speaker { team_id } => {
            let native = match p.break_category_id {
                Some(cat) => cat == c.category_id,
                None => false,
            };
            let in_team = match team_id {
                Some(t) => {
                    assert(is_member_of(ps@[i as int], t));
                    assert(team_ids(ps@).contains(t));
                    if c.config.team_eligibility_mode != TeamEligibilityMode::DoNotRestrict {
                        team_qualifies_exec(ps, t, c)
                    } else {
                        true
                    }
                },
                None => false,
            };
            match c.config.non_aligned_eligibility_mode {
                NonAlignedEligibilityMode::DoNotRestrict => true,
                NonAlignedEligibilityMode::AllEligible => native,
                NonAlignedEligibilityMode::AllInEligibleTeams => in_team,
                NonAlignedEligibilityMode::AllEligibleInEligibleTeams => native && in_team,
            }
        },
    }
}

fn is_last_of_id_exec(cats: &Vec<TournamentEligibleBreakCategory>, k: usize) -> (b: bool)
    requires
        k < cats.len(),
    ensures
        b == is_last_of_id(cats@, k as int),
{
    let mut j = k + 1;
    while j < cats.len()
        invariant
            k < j <= cats.len(),
            forall|jj: int| k < jj < j ==> #[trigger] cats@[jj].category_id != cats@[k as int].category_id,
        decreases cats.len() - j,
    {
        if cats[j].category_id == cats[k].category_id {
            return false;
        }
        j += 1;
    }
    true
}

/// Adds the teams of `team_list` that category `c` admits.
fn add_admitted_teams(
    out: &mut HashSet<u128>,
    ps: &Vec<Participant>,
    team_list: &Vec<u128>,
    c: &TournamentEligibleBreakCategory,
)
    requires
        forall|t: u128| team_list@.contains(t) <==> team_ids(ps@).contains(t),
    ensures
        final(out)@ == old(out)@.union(category_teams(ps@, *c)),
{
    let mut j: usize = 0;
    while j < team_list.len()
        invariant
            j <= team_list.len(),
            forall|t: u128| team_list@.contains(t) <==> team_ids(ps@).contains(t),
            forall|t: u128| #[trigger] out@.contains(t) <==> (old(out)@.contains(t) || (exists|jj: int|
                0 <= jj < j && team_list@[jj] == t && team_qualifies(ps@, t, *c))),
        decreases team_list.len() - j,
    {
        let t = team_list[j];
        if team_qualifies_exec(ps, t, c) {
            out.insert(t);
        }
        assert forall|u: u128| #[trigger] out@.contains(u) <==> (old(out)@.contains(u) || (exists|jj: int|
            0 <= jj < j + 1 && team_list@[jj] == u && team_qualifies(ps@, u, *c))) by {
            if u == t && team_qualifies(ps@, u, *c) {
                assert(team_list@[j as int] == u);
            }
        }
        j += 1;
    }
    assert forall|t: u128| #[trigger] out@.contains(t) <==> old(out)@.union(category_teams(ps@, *c)).contains(t) by {
        if category_teams(ps@, *c).contains(t) {
            assert(team_list@.contains(t));
            let jj = choose|jj: int| 0 <= jj < team_list@.len() && team_list@[jj] == t;
        }
        if out@.contains(t) && !old(out)@.contains(t) {
            let jj = choose|jj: int| 0 <= jj < team_list@.len() && team_list@[jj] == t && team_qualifies(ps@, t, *c);
            assert(team_list@.contains(t));
        }
    }
    assert(out@ =~= old(out)@.union(category_teams(ps@, *c)));
}

/// Adds the speakers that category `c` admits.
fn add_admitted_speakers(out: &mut HashSet<u128>, ps: &Vec<Participant>, c: &TournamentEligibleBreakCategory)
    ensures
        final(out)@ == old(out)@.union(category_speakers(ps@, *c)),
{
    let mut i: usize = 0;
    while i < ps.len()
        invariant
            i <= ps.len(),
            forall|u: u128| #[trigger] out@.contains(u) <==> (old(out)@.contains(u) || (exists|ii: int|
                0 <= ii < i && speaker_qualifies(ps@, ps@[ii], *c) && ps@[ii].uuid == u)),
        decreases ps.len() - i,
    {
        if speaker_qualifies_exec(ps, i, c) {
            out.insert(ps[i].uuid);
        }
        assert forall|u: u128| #[trigger] out@.contains(u) <==> (old(out)@.contains(u) || (exists|ii: int|
            0 <= ii < i + 1 && speaker_qualifies(ps@, ps@[ii], *c) && ps@[ii].uuid == u)) by {
            if exists|ii: int| 0 <= ii < i + 1 && speaker_qualifies(ps@, ps@[ii], *c) && ps@[ii].uuid == u {
                let ii = choose|ii: int| 0 <= ii < i + 1 && speaker_qualifies(ps@, ps@[ii], *c) && ps@[ii].uuid == u;
                if ii < i {
                    assert(exists|k: int| 0 <= k < i && speaker_qualifies(ps@, ps@[k], *c) && ps@[k].uuid == u);
                }
            }
        }
        i += 1;
    }
    assert(out@ =~= old(out)@.union(category_speakers(ps@, *c)));
}

/// Adds the adjudicators that category `c` admits.
fn add_admitted_adjudicators(out: &mut HashSet<u128>, ps: &Vec<Participant>, c: &TournamentEligibleBreakCategory)
    ensures
        final(out)@ == old(out)@.union(category_adjudicators(ps@, *c)),
{
    let mut i: usize = 0;
    while i < ps.len()
        invariant
            i <= ps.len(),
            forall|u: u128| #[trigger] out@.contains(u) <==> (old(out)@.contains(u) || (exists|ii: int|
                0 <= ii < i && adjudicator_qualifies(ps@[ii], *c) && ps@[ii].uuid == u)),
        decreases ps.len() - i,
    {
        let p = &ps[i];
        let q = match p.role {
            ParticipantRole::Adjudicator => match p.break_category_id {
                Some(cat) => cat == c.category_id,
                None => false,
            },
            _ => false,
        };
        if q {
            out.insert(p.uuid);
        }
        assert forall|u: u128| #[trigger] out@.contains(u) <==> (old(out)@.contains(u) || (exists|ii: int|
            0 <= ii < i + 1 && adjudicator_qualifies(ps@[ii], *c) && ps@[ii].uuid == u)) by {
            if exists|ii: int| 0 <= ii < i + 1 && adjudicator_qualifies(ps@[ii], *c) && ps@[ii].uuid == u {
                let ii = choose|ii: int| 0 <= ii < i + 1 && adjudicator_qualifies(ps@[ii], *c) && ps@[ii].uuid == u;
                if ii < i {
                    assert(exists|k: int| 0 <= k < i && adjudicator_qualifies(ps@[k], *c) && ps@[k].uuid == u);
                }
            }
        }
        i += 1;
    }
    assert(out@ =~= old(out)@.union(category_adjudicators(ps@, *c)));
}

/// The ids of all speakers and of all adjudicators.
fn collect_role_ids(ps: &Vec<Participant>) -> (r: (HashSet<u128>, HashSet<u128>))
    ensures
        r.0@ == speaker_ids(ps@),
        r.1@ == adjudicator_ids(ps@),
{
    let mut speakers: HashSet<u128> = HashSet::new();
    let mut adjudicators: HashSet<u128> = HashSet::new();
    let mut i: usize = 0;
    while i < ps.len()
        invariant
            i <= ps.len(),
            forall|u: u128| #[trigger] speakers@.contains(u) <==> exists|ii: int|
                0 <= ii < i && is_speaker(ps@[ii]) && ps@[ii].uuid == u,
            forall|u: u128| #[trigger] adjudicators@.contains(u) <==> exists|ii: int|
                0 <= ii < i && is_adjudicator(ps@[ii]) && ps@[ii].uuid == u,
        decreases ps.len() - i,
    {
        match ps[i].role {
            ParticipantRole::Speaker { .. } => {
                speakers.insert(ps[i].uuid);
            },
            ParticipantRole::Adjudicator => {
                adjudicators.insert(ps[i].uuid);
            },
        }
        assert forall|u: u128| #[trigger] speakers@.contains(u) <==> exists|ii: int|
            0 <= ii < i + 1 && is_speaker(ps@[ii]) && ps@[ii].uuid == u by {
            if exists|ii: int| 0 <= ii < i + 1 && is_speaker(ps@[ii]) && ps@[ii].uuid == u {
                let ii = choose|ii: int| 0 <= ii < i + 1 && is_speaker(ps@[ii]) && ps@[ii].uuid == u;
                if ii < i {
                    assert(exists|k: int| 0 <= k < i && is_speaker(ps@[k]) && ps@[k].uuid == u);
                }
            }
        }
        assert forall|u: u128| #[trigger] adjudicators@.contains(u) <==> exists|ii: int|
            0 <= ii < i + 1 && is_adjudicator(ps@[ii]) && ps@[ii].uuid == u by {
            if exists|ii: int| 0 <= ii < i + 1 && is_adjudicator(ps@[ii]) && ps@[ii].uuid == u {
                let ii = choose|ii: int| 0 <= ii < i + 1 && is_adjudicator(ps@[ii]) && ps@[ii].uuid == u;
                if ii < i {
                    assert(exists|k: int| 0 <= k < i && is_adjudicator(ps@[k]) && ps@[k].uuid == u);
                }
            }
        }
        i += 1;
    }
    assert(speakers@ =~= speaker_ids(ps@));
    assert(adjudicators@ =~= adjudicator_ids(ps@));
    (speakers, adjudicators)
}

fn set_from_ids(ids: &Vec<u128>) -> (s: HashSet<u128>)
    ensures
        forall|t: u128| s@.contains(t) <==> ids@.contains(t),
{
    let mut s: HashSet<u128> = HashSet::new();
    let mut i: usize = 0;
    while i < ids.len()
        invariant
            i <= ids.len(),
            forall|t: u128| #[trigger] s@.contains(t) <==> ids@.take(i as int).contains(t),
        decreases ids.len() - i,
    {
        s.insert(ids[i]);
        assert forall|t: u128| #[trigger] s@.contains(t) <==> ids@.take(i + 1).contains(t) by {
            if ids@.take(i + 1).contains(t) && t != ids@[i as int] {
                let k = choose|k: int| 0 <= k < i + 1 && #[trigger] ids@.take(i + 1)[k] == t;
                assert(ids@.take(i as int)[k] == t);
            }
            if ids@.take(i as int).contains(t) {
                let k = choose|k: int| 0 <= k < i && #[trigger] ids@.take(i as int)[k] == t;
                assert(ids@.take(i + 1)[k] == t);
            }
            if t == ids@[i as int] {
                assert(ids@.take(i + 1)[i as int] == t);
            }
        }
        i += 1;
    }
    assert(ids@.take(ids.len() as int) =~= ids@);
    s
}

proof fn lemma_teams_step(cats: Seq<TournamentEligibleBreakCategory>, ps: Seq<Participant>, k: int)
    requires
        0 <= k < cats.len(),
    ensures
        admitted_teams_upto(cats, ps, k + 1) == if is_last_of_id(cats, k) && restricts_teams(cats[k]) {
            admitted_teams_upto(cats, ps, k).union(category_teams(ps, cats[k]))
        } else {
            admitted_teams_upto(cats, ps, k)
        },
        team_restriction_upto(cats, k + 1) == (team_restriction_upto(cats, k) || (is_last_of_id(cats, k)
            && restricts_teams(cats[k]))),
{
    let next = if is_last_of_id(cats, k) && restricts_teams(cats[k]) {
        admitted_teams_upto(cats, ps, k).union(category_teams(ps, cats[k]))
    } else {
        admitted_teams_upto(cats, ps, k)
    };
    assert forall|t: u128| admitted_teams_upto(cats, ps, k + 1).contains(t) == next.contains(t) by {
        if admitted_teams_upto(cats, ps, k + 1).contains(t) {
            let j = choose|j: int| 0 <= j < k + 1 && is_last_of_id(cats, j) && #[trigger] restricts_teams(cats[j])
                && category_teams(ps, cats[j]).contains(t);
            if j < k {
                assert(admitted_teams_upto(cats, ps, k).contains(t));
            }
        }
        if admitted_teams_upto(cats, ps, k).contains(t) {
            let j = choose|j: int| 0 <= j < k && is_last_of_id(cats, j) && #[trigger] restricts_teams(cats[j])
                && category_teams(ps, cats[j]).contains(t);
            assert(0 <= j < k + 1);
        }
    }
    assert(admitted_teams_upto(cats, ps, k + 1) =~= next);
    if team_restriction_upto(cats, k + 1) {
        let j = choose|j: int| 0 <= j < k + 1 && is_last_of_id(cats, j) && #[trigger] restricts_teams(cats[j]);
        if j < k {
            assert(team_restriction_upto(cats, k));
        }
    }
    if team_restriction_upto(cats, k) {
        let j = choose|j: int| 0 <= j < k && is_last_of_id(cats, j) && #[trigger] restricts_teams(cats[j]);
        assert(team_restriction_upto(cats, k + 1));
    }
}

proof fn lemma_speakers_step(cats: Seq<TournamentEligibleBreakCategory>, ps: Seq<Participant>, k: int)
    requires
        0 <= k < cats.len(),
    ensures
        admitted_speakers_upto(cats, ps, k + 1) == if is_last_of_id(cats, k) && restricts_speakers(cats[k]) {
            admitted_speakers_upto(cats, ps, k).union(category_speakers(ps, cats[k]))
        } else {
            admitted_speakers_upto(cats, ps, k)
        },
        speaker_restriction_upto(cats, k + 1) == (speaker_restriction_upto(cats, k) || (is_last_of_id(cats, k)
            && restricts_speakers(cats[k]))),
{
    let next = if is_last_of_id(cats, k) && restricts_speakers(cats[k]) {
        admitted_speakers_upto(cats, ps, k).union(category_speakers(ps, cats[k]))
    } else {
        admitted_speakers_upto(cats, ps, k)
    };
    assert forall|t: u128| admitted_speakers_upto(cats, ps, k + 1).contains(t) == next.contains(t) by {
        if admitted_speakers_upto(cats, ps, k + 1).contains(t) {
            let j = choose|j: int| 0 <= j < k + 1 && is_last_of_id(cats, j) && #[trigger] restricts_speakers(cats[j])
                && category_speakers(ps, cats[j]).contains(t);
            if j < k {
                assert(admitted_speakers_upto(cats, ps, k).contains(t));
            }
        }
        if admitted_speakers_upto(cats, ps, k).contains(t) {
            let j = choose|j: int| 0 <= j < k && is_last_of_id(cats, j) && #[trigger] restricts_speakers(cats[j])
                && category_speakers(ps, cats[j]).contains(t);
            assert(0 <= j < k + 1);
        }
    }
    assert(admitted_speakers_upto(cats, ps, k + 1) =~= next);
    if speaker_restriction_upto(cats, k + 1) {
        let j = choose|j: int| 0 <= j < k + 1 && is_last_of_id(cats, j) && #[trigger] restricts_speakers(cats[j]);
        if j < k {
            assert(speaker_restriction_upto(cats, k));
        }
    }
    if speaker_restriction_upto(cats, k) {
        let j = choose|j: int| 0 <= j < k && is_last_of_id(cats, j) && #[trigger] restricts_speakers(cats[j]);
        assert(speaker_restriction_upto(cats, k + 1));
    }
}

proof fn lemma_adjudicators_step(cats: Seq<TournamentEligibleBreakCategory>, ps: Seq<Participant>, k: int)
    requires
        0 <= k < cats.len(),
    ensures
        admitted_adjudicators_upto(cats, ps, k + 1) == if is_last_of_id(cats, k) && restricts_adjudicators(cats[k]) {
            admitted_adjudicators_upto(cats, ps, k).union(category_adjudicators(ps, cats[k]))
        } else {
            admitted_adjudicators_upto(cats, ps, k)
        },
        adjudicator_restriction_upto(cats, k + 1) == (adjudicator_restriction_upto(cats, k) || (is_last_of_id(cats, k)
            && restricts_adjudicators(cats[k]))),
{
    let next = if is_last_of_id(cats, k) && restricts_adjudicators(cats[k]) {
        admitted_adjudicators_upto(cats, ps, k).union(category_adjudicators(ps, cats[k]))
    } else {
        admitted_adjudicators_upto(cats, ps, k)
    };
    assert forall|t: u128| admitted_adjudicators_upto(cats, ps, k + 1).contains(t) == next.contains(t) by {
        if admitted_adjudicators_upto(cats, ps, k + 1).contains(t) {
            let j = choose|j: int| 0 <= j < k + 1 && is_last_of_id(cats, j) && #[trigger] restricts_adjudicators(cats[j])
                && category_adjudicators(ps, cats[j]).contains(t);
            if j < k {
                assert(admitted_adjudicators_upto(cats, ps, k).contains(t));
            }
        }
        if admitted_adjudicators_upto(cats, ps, k).contains(t) {
            let j = choose|j: int| 0 <= j < k && is_last_of_id(cats, j) && #[trigger] restricts_adjudicators(cats[j])
                && category_adjudicators(ps, cats[j]).contains(t);
            assert(0 <= j < k + 1);
        }
    }
    assert(admitted_adjudicators_upto(cats, ps, k + 1) =~= next);
    if adjudicator_restriction_upto(cats, k + 1) {
        let j = choose|j: int| 0 <= j < k + 1 && is_last_of_id(cats, j) && #[trigger] restricts_adjudicators(cats[j]);
        if j < k {
            assert(adjudicator_restriction_upto(cats, k));
        }
    }
    if adjudicator_restriction_upto(cats, k) {
        let j = choose|j: int| 0 <= j < k && is_last_of_id(cats, j) && #[trigger] restricts_adjudicators(cats[j]);
        assert(adjudicator_restriction_upto(cats, k + 1));
    }
}

/// Decides which teams, speakers and adjudicators may break, given the break
/// categories of the break and all participants. Each kind is restricted to the
/// union of what the categories that restrict it admit; a kind that no category
/// restricts is not restricted at all, so with no category everyone may break.
pub fn get_eligiblity_info(
    eligible_categories: &Vec<TournamentEligibleBreakCategory>,
    participants: &Vec<Participant>,
) -> (info: EligibilityInfo)
    ensures
        info.eligible_teams@ == eligible_teams_spec(eligible_categories@, participants@),
        info.eligible_speakers@ == eligible_speakers_spec(eligible_categories@, participants@),
        info.eligible_adjudicators@ == eligible_adjudicators_spec(eligible_categories@, participants@),
{
    let cats = eligible_categories;
    let ps = participants;
    let team_list = collect_team_ids(ps);
    let mut teams: HashSet<u128> = HashSet::new();
    let mut speakers: HashSet<u128> = HashSet::new();
    let mut adjudicators: HashSet<u128> = HashSet::new();
    let mut did_restrict_teams = false;
    let mut did_restrict_speakers = false;
    let mut did_restrict_adjudicators = false;
    let mut k: usize = 0;
    while k < cats.len()
        invariant
            k <= cats.len(),
            forall|t: u128| team_list@.contains(t) <==> team_ids(ps@).contains(t),
            teams@ == admitted_teams_upto(cats@, ps@, k as int),
            speakers@ == admitted_speakers_upto(cats@, ps@, k as int),
            adjudicators@ == admitted_adjudicators_upto(cats@, ps@, k as int),
            did_restrict_teams == team_restriction_upto(cats@, k as int),
            did_restrict_speakers == speaker_restriction_upto(cats@, k as int),
            did_restrict_adjudicators == adjudicator_restriction_upto(cats@, k as int),
        decreases cats.len() - k,
    {
        let c = &cats[k];
        let last = is_last_of_id_exec(cats, k);
        let ghost kk = k as int;
        if last && c.config.team_eligibility_mode != TeamEligibilityMode::DoNotRestrict {
            add_admitted_teams(&mut teams, ps, &team_list, c);
            did_restrict_teams = true;
        }
        if last && c.config.non_aligned_eligibility_mode != NonAlignedEligibilityMode::DoNotRestrict {
            add_admitted_speakers(&mut speakers, ps, c);
            did_restrict_speakers = true;
        }
        if last && c.config.adjudicator_eligibility_mode != AdjudicatorEligibilityMode::DoNotRestrict {
            add_admitted_adjudicators(&mut adjudicators, ps, c);
            did_restrict_adjudicators = true;
        }
        proof {
            lemma_teams_step(cats@, ps@, kk);
            lemma_speakers_step(cats@, ps@, kk);
            lemma_adjudicators_step(cats@, ps@, kk);
        }
        k += 1;
    }
    let (all_speakers, all_adjudicators) = collect_role_ids(ps);
    if !did_restrict_teams {
        teams = set_from_ids(&team_list);
        assert(teams@ =~= team_ids(ps@));
    }
    if !did_restrict_speakers {
        speakers = all_speakers;
    }
    if !did_restrict_adjudicators {
        adjudicators = all_adjudicators;
    }
    EligibilityInfo { eligible_teams: teams, eligible_speakers: speakers, eligible_adjudicators: adjudicators }
}

} // verus!
