use vstd::prelude::*;

use std::collections::{HashMap, HashSet};

use crate::datastructures::SpeechRole;
use crate::eligibility::{
    TournamentEligibleBreakCategory, eligible_speakers_spec, eligible_teams_spec,
    get_eligiblity_info,
};
use crate::participants::Participant;
use crate::random::coin_flip;

verus! {

broadcast use vstd::std_specs::hash::group_hash_axioms;

/// How a break node chooses the teams and speakers that break.
#[derive(Clone, Copy, Debug, PartialEq, Eq, Structural)]
pub enum BreakConfig {
    TabBreak { num_teams: u32, num_non_aligned: u32 },
    TwoThirdsBreak,
    KnockoutBreak,
    TeamOnlyKnockoutBreak,
    BestSpeakerOnlyBreak,
    TimBreak,
    Manual,
}

/// Why a break could not be computed.
#[derive(Clone, Copy, Debug, PartialEq, Eq, Structural)]
pub enum MakeBreakError {
    /// A knockout break needs a round before it.
    KOBreakConditionNotMet,
    /// A debate of the round before a knockout break lacks scores, a team or a speaker.
    KORoundIncompleteRound,
    /// Fewer teams or speakers are eligible than the break takes.
    NotEnoughTeams,
    /// The break needs a positive number of teams divisible by three.
    InvalidTeamCount,
    /// A manual break is set by hand.
    IsManualBreak,
}

impl MakeBreakError {
    /// The message that describes the error.
    pub fn message(&self) -> (text: String)
        ensures
            text@ == match self {
                MakeBreakError::KOBreakConditionNotMet => "KO breaks require a single 'ko' round in dependency"@,
                MakeBreakError::KORoundIncompleteRound => "KO breaks require drawn and scored round"@,
                MakeBreakError::NotEnoughTeams => "Break require enough teams"@,
                MakeBreakError::InvalidTeamCount => "Invalid team count"@,
                MakeBreakError::IsManualBreak => "Manual breaks can not be automatically computed"@,
            },
    {
        match self {
            MakeBreakError::KOBreakConditionNotMet => "KO breaks require a single 'ko' round in dependency".to_string(),
            MakeBreakError::KORoundIncompleteRound => "KO breaks require drawn and scored round".to_string(),
            MakeBreakError::NotEnoughTeams => "Break require enough teams".to_string(),
            MakeBreakError::InvalidTeamCount => "Invalid team count".to_string(),
            MakeBreakError::IsManualBreak => "Manual breaks can not be automatically computed".to_string(),
        }
    }
}

/// The teams and speakers that break.
pub struct BreakResult {
    pub breaking_teams: Vec<u128>,
    pub breaking_speakers: Vec<u128>,
}

/// The members of team `t`, none where the map does not list it.
pub open spec fn members_of(tm: Map<u128, Vec<u128>>, t: u128) -> Seq<u128> {
    if tm.contains_key(t) {
        tm[t]@
    } else {
        Seq::empty()
    }
}

/// The members of the teams, team by team.
pub open spec fn members_of_teams(tm: Map<u128, Vec<u128>>, teams: Seq<u128>) -> Seq<u128>
    decreases teams.len(),
{
    if teams.len() == 0 {
        Seq::empty()
    } else {
        members_of_teams(tm, teams.drop_last()) + members_of(tm, teams.last())
    }
}

/// The elements of `s` that do not occur in `excl`, in their order.
pub open spec fn excluding(s: Seq<u128>, excl: Seq<u128>) -> Seq<u128>
    decreases s.len(),
{
    if s.len() == 0 {
        Seq::empty()
    } else {
        let rest = excluding(s.drop_last(), excl);
        if excl.contains(s.last()) {
            rest
        } else {
            rest.push(s.last())
        }
    }
}

/// The elements of `s` that are in `set`, in their order.
pub open spec fn keeping(s: Seq<u128>, set: Set<u128>) -> Seq<u128>
    decreases s.len(),
{
    if s.len() == 0 {
        Seq::empty()
    } else {
        let rest = keeping(s.drop_last(), set);
        if set.contains(s.last()) {
            rest.push(s.last())
        } else {
            rest
        }
    }
}

/// The first `n` elements of `s`, or all of them where there are fewer.
pub open spec fn first_n(s: Seq<u128>, n: int) -> Seq<u128> {
    if n < s.len() {
        s.take(n)
    } else {
        s
    }
}

/// Whether `x` occurs in `v`.
fn contains_id(v: &Vec<u128>, x: u128) -> (b: bool)
    ensures
        b == v@.contains(x),
{
    let mut i: usize = 0;
    while i < v.len()
        invariant
            i <= v.len(),
            forall|j: int| 0 <= j < i ==> v@[j] != x,
        decreases v.len() - i,
    {
        if v[i] == x {
            return true;
        }
        i += 1;
    }
    false
}

/// Appends the elements of `src` to `dst`.
fn append_ids(dst: &mut Vec<u128>, src: &Vec<u128>)
    ensures
        final(dst)@ == old(dst)@ + src@,
{
    let mut i: usize = 0;
    while i < src.len()
        invariant
            i <= src.len(),
            dst@ == old(dst)@ + src@.take(i as int),
        decreases src.len() - i,
    {
        dst.push(src[i]);
        i += 1;
        assert(dst@ =~= old(dst)@ + src@.take(i as int));
    }
    assert(src@.take(src.len() as int) =~= src@);
}

/// The members of the listed teams, team by team.
fn collect_members(teams: &Vec<u128>, team_members: &HashMap<u128, Vec<u128>>) -> (r: Vec<u128>)
    ensures
        r@ == members_of_teams(team_members@, teams@),
{
    let mut r: Vec<u128> = Vec::new();
    let mut i: usize = 0;
    while i < teams.len()
        invariant
            i <= teams.len(),
            r@ == members_of_teams(team_members@, teams@.take(i as int)),
        decreases teams.len() - i,
    {
        assert(teams@.take(i + 1).drop_last() =~= teams@.take(i as int));
        match team_members.get(&teams[i]) {
            Some(m) => append_ids(&mut r, m),
            None => {
                assert(r@ =~= r@ + Seq::<u128>::empty());
            },
        }
        i += 1;
    }
    assert(teams@.take(teams.len() as int) =~= teams@);
    r
}

/// The elements of `s` that do not occur in `excl`, in their order.
pub(crate) fn excluding_ids(s: &Vec<u128>, excl: &Vec<u128>) -> (r: Vec<u128>)
    ensures
        r@ == excluding(s@, excl@),
{
    let mut r: Vec<u128> = Vec::new();
    let mut i: usize = 0;
    while i < s.len()
        invariant
            i <= s.len(),
            r@ == excluding(s@.take(i as int), excl@),
        decreases s.len() - i,
    {
        assert(s@.take(i + 1).drop_last() =~= s@.take(i as int));
        if !contains_id(excl, s[i]) {
            r.push(s[i]);
        }
        i += 1;
    }
    assert(s@.take(s.len() as int) =~= s@);
    r
}

/// The elements of `s` that are in `set`, in their order.
fn keeping_ids(s: &Vec<u128>, set: &HashSet<u128>) -> (r: Vec<u128>)
    ensures
        r@ == keeping(s@, set@),
{
    let mut r: Vec<u128> = Vec::new();
    let mut i: usize = 0;
    while i < s.len()
        invariant
            i <= s.len(),
            r@ == keeping(s@.take(i as int), set@),
        decreases s.len() - i,
    {
        assert(s@.take(i + 1).drop_last() =~= s@.take(i as int));
        if set.contains(&s[i]) {
            r.push(s[i]);
        }
        i += 1;
    }
    assert(s@.take(s.len() as int) =~= s@);
    r
}

/// The first `n` elements of `s`, or all of them where there are fewer.
fn first_ids(s: &Vec<u128>, n: usize) -> (r: Vec<u128>)
    ensures
        r@ == first_n(s@, n as int),
{
    let mut r: Vec<u128> = Vec::new();
    let mut i: usize = 0;
    while i < s.len() && i < n
        invariant
            i <= s.len(),
            i <= n,
            r@ == s@.take(i as int),
        decreases s.len() - i,
    {
        r.push(s[i]);
        i += 1;
        assert(r@ =~= s@.take(i as int));
    }
    if n >= s.len() {
        assert(s@.take(s.len() as int) =~= s@);
    }
    r
}

/// The speakers of `speaker_ranking`, in its order, that are members of none of
/// the teams.
pub fn find_speakers_not_in_teams(
    teams: &Vec<u128>,
    speaker_ranking: &Vec<u128>,
    team_members: &HashMap<u128, Vec<u128>>,
) -> (r: Vec<u128>)
    ensures
        r@ == excluding(speaker_ranking@, members_of_teams(team_members@, teams@)),
{
    let members = collect_members(teams, team_members);
    excluding_ids(speaker_ranking, &members)
}

/// The break by tab: the best `num_teams` teams, which must all be there, and the
/// best `num_non_aligned` speakers outside them.
pub open spec fn tab_break_spec(
    tr: Seq<u128>,
    sr: Seq<u128>,
    tm: Map<u128, Vec<u128>>,
    num_teams: u32,
    num_non_aligned: u32,
) -> Result<(Seq<u128>, Seq<u128>), MakeBreakError> {
    let teams = first_n(tr, num_teams as int);
    if teams.len() < num_teams {
        Err(MakeBreakError::NotEnoughTeams)
    } else {
        Ok((teams, first_n(excluding(sr, members_of_teams(tm, teams)), num_non_aligned as int)))
    }
}

/// The break of the best two thirds of the teams, with every speaker outside them.
pub open spec fn two_thirds_break_spec(
    tr: Seq<u128>,
    sr: Seq<u128>,
    tm: Map<u128, Vec<u128>>,
) -> Result<(Seq<u128>, Seq<u128>), MakeBreakError> {
    if tr.len() < 3 || tr.len() % 3 != 0 {
        Err(MakeBreakError::InvalidTeamCount)
    } else {
        let teams = tr.take((tr.len() / 3 * 2) as int);
        Ok((teams, excluding(sr, members_of_teams(tm, teams))))
    }
}

/// The teams and speakers of a result, as sequences.
pub open spec fn result_view(r: Result<BreakResult, MakeBreakError>) -> Result<(Seq<u128>, Seq<u128>), MakeBreakError> {
    match r {
        Ok(b) => Ok((b.breaking_teams@, b.breaking_speakers@)),
        Err(e) => Err(e),
    }
}

/// Computes a break by tab.
pub fn tab_break(
    team_ranking: &Vec<u128>,
    speaker_ranking: &Vec<u128>,
    team_members: &HashMap<u128, Vec<u128>>,
    num_teams: u32,
    num_non_aligned: u32,
) -> (r: Result<BreakResult, MakeBreakError>)
    ensures
        result_view(r) == tab_break_spec(team_ranking@, speaker_ranking@, team_members@, num_teams, num_non_aligned),
{
    let teams = first_ids(team_ranking, num_teams as usize);
    if teams.len() < num_teams as usize {
        return Err(MakeBreakError::NotEnoughTeams);
    }
    let speakers = find_speakers_not_in_teams(&teams, speaker_ranking, team_members);
    let speakers = first_ids(&speakers, num_non_aligned as usize);
    Ok(BreakResult { breaking_teams: teams, breaking_speakers: speakers })
}

/// Computes the break of the best two thirds of the teams.
pub fn two_thirds_break(
    team_ranking: &Vec<u128>,
    speaker_ranking: &Vec<u128>,
    team_members: &HashMap<u128, Vec<u128>>,
) -> (r: Result<BreakResult, MakeBreakError>)
    ensures
        result_view(r) == two_thirds_break_spec(team_ranking@, speaker_ranking@, team_members@),
{
    if team_ranking.len() < 3 || team_ranking.len() % 3 != 0 {
        return Err(MakeBreakError::InvalidTeamCount);
    }
    let n = team_ranking.len() / 3 * 2;
    let teams = first_ids(team_ranking, n);
    let speakers = find_speakers_not_in_teams(&teams, speaker_ranking, team_members);
    Ok(BreakResult { breaking_teams: teams, breaking_speakers: speakers })
}

/// How the totals of the two teams of a debate compare.
#[derive(Clone, Copy, Debug, PartialEq, Eq, Structural)]
pub enum ScoreComparison {
    GovernmentAhead,
    OppositionAhead,
    Tied,
}

/// A speech of a debate before a knockout break: its role, its speaker, and
/// its place when the speeches of the debate are ordered by score, lowest first.
#[derive(Clone, Copy, Debug)]
pub struct KoSpeech {
    pub role: SpeechRole,
    pub speaker: Option<u128>,
    pub rank: u64,
}

/// A debate of the round before a knockout break.
pub struct KoDebate {
    pub government: Option<u128>,
    pub opposition: Option<u128>,
    /// How the team totals compare; none where a total is missing.
    pub scores: Option<ScoreComparison>,
    pub speeches: Vec<KoSpeech>,
}

/// Whether `w` is a winner that the scores allow: the team ahead, either team on
/// a tie, anything where the scores are missing.
pub open spec fn winner_fits(scores: Option<ScoreComparison>, w: SpeechRole) -> bool {
    match scores {
        Some(ScoreComparison::GovernmentAhead) => w == SpeechRole::Government,
        Some(ScoreComparison::OppositionAhead) => w == SpeechRole::Opposition,
        Some(ScoreComparison::Tied) => w == SpeechRole::Government || w == SpeechRole::Opposition,
        None => w == SpeechRole::Government,
    }
}

/// Whether `ws` holds one fitting winner per debate.
pub open spec fn winners_fit(ds: Seq<KoDebate>, ws: Seq<SpeechRole>) -> bool {
    &&& ws.len() == ds.len()
    &&& forall|i: int| 0 <= i < ds.len() ==> #[trigger] winner_fits(ds[i].scores, ws[i])
}

/// The highest ranked speech not held by the winning side; of equal ranks, the later.
pub open spec fn best_speech(s: Seq<KoSpeech>, w: SpeechRole) -> Option<KoSpeech>
    decreases s.len(),
{
    if s.len() == 0 {
        None
    } else {
        let b = best_speech(s.drop_last(), w);
        let x = s.last();
        if x.role != w && (b is None || x.rank >= b.unwrap().rank) {
            Some(x)
        } else {
            b
        }
    }
}

/// Goes through the debates with their winners: the winning teams, the best speaker
/// outside each winning side, and the members of the winning teams.
pub open spec fn ko_collect(
    ds: Seq<KoDebate>,
    ws: Seq<SpeechRole>,
    tm: Map<u128, Vec<u128>>,
) -> Result<(Seq<u128>, Seq<u128>, Seq<u128>), MakeBreakError>
    decreases ds.len(),
{
    if ds.len() == 0 {
        Ok((Seq::empty(), Seq::empty(), Seq::empty()))
    } else {
        match ko_collect(ds.drop_last(), ws, tm) {
            Err(e) => Err(e),
            Ok((teams, best, members)) => {
                let d = ds.last();
                let w = ws[ds.len() - 1];
                let team = if w == SpeechRole::Government { d.government } else { d.opposition };
                if d.scores is None {
                    Err(MakeBreakError::KORoundIncompleteRound)
                } else {
                    match (best_speech(d.speeches@, w), team) {
                        (Some(b), Some(t)) => match b.speaker {
                            Some(s) => Ok((teams.push(t), best.push(s), members + members_of(tm, t))),
                            None => Err(MakeBreakError::KORoundIncompleteRound),
                        },
                        _ => Err(MakeBreakError::KORoundIncompleteRound),
                    }
                }
            },
        }
    }
}

/// A knockout break, given the winner of each debate: the winning teams, and
/// the best half-debate-count speakers of `order` outside the winning teams and
/// the best speakers; for a team-only break no speakers, for a best-speaker
/// break no teams and the first best speaker.
pub open spec fn ko_break_spec(
    config: BreakConfig,
    ds: Seq<KoDebate>,
    ws: Seq<SpeechRole>,
    order: Seq<u128>,
    tm: Map<u128, Vec<u128>>,
) -> Result<(Seq<u128>, Seq<u128>), MakeBreakError> {
    match ko_collect(ds, ws, tm) {
        Err(e) => Err(e),
        Ok((teams, best, members)) => {
            let half = ds.len() / 2;
            let tab = first_n(excluding(excluding(order, best), members), half as int);
            if tab.len() < half {
                Err(MakeBreakError::NotEnoughTeams)
            } else {
                let bteams = if config is BestSpeakerOnlyBreak { Seq::empty() } else { teams };
                let bspeakers = if config is BestSpeakerOnlyBreak {
                    if best.len() > 0 { seq![best[0]] } else { Seq::empty() }
                } else if config is TeamOnlyKnockoutBreak {
                    Seq::empty()
                } else {
                    tab
                };
                Ok((bteams, bspeakers))
            }
        },
    }
}

/// The highest ranked speech not held by the winning side.
fn find_best_speech(s: &Vec<KoSpeech>, w: SpeechRole) -> (r: Option<KoSpeech>)
    ensures
        r == best_speech(s@, w),
{
    let mut best: Option<KoSpeech> = None;
    let mut i: usize = 0;
    while i < s.len()
        invariant
            i <= s.len(),
            best == best_speech(s@.take(i as int), w),
        decreases s.len() - i,
    {
        assert(s@.take(i + 1).drop_last() =~= s@.take(i as int));
        let x = s[i];
        let better = match best {
            None => true,
            Some(b) => x.rank >= b.rank,
        };
        if x.role != w && better {
            best = Some(x);
        }
        i += 1;
    }
    assert(s@.take(s.len() as int) =~= s@);
    best
}

/// The winner of each debate: the team ahead, a coin flip on a tie.
fn decide_winners(ds: &Vec<KoDebate>) -> (ws: Vec<SpeechRole>)
    ensures
        winners_fit(ds@, ws@),
{
    let mut ws: Vec<SpeechRole> = Vec::new();
    let mut i: usize = 0;
    while i < ds.len()
        invariant
            i <= ds.len(),
            ws.len() == i,
            forall|j: int| 0 <= j < i ==> #[trigger] winner_fits(ds@[j].scores, ws@[j]),
        decreases ds.len() - i,
    {
        let w = match ds[i].scores {
            Some(ScoreComparison::GovernmentAhead) => SpeechRole::Government,
            Some(ScoreComparison::OppositionAhead) => SpeechRole::Opposition,
            Some(ScoreComparison::Tied) => {
                if coin_flip() {
                    SpeechRole::Government
                } else {
                    SpeechRole::Opposition
                }
            },
            None => SpeechRole::Government,
        };
        ws.push(w);
        i += 1;
    }
    ws
}

proof fn lemma_ko_err_extends(ds: Seq<KoDebate>, ws: Seq<SpeechRole>, tm: Map<u128, Vec<u128>>, k: int)
    requires
        0 <= k <= ds.len(),
        ko_collect(ds.take(k), ws, tm) is Err,
    ensures
        ko_collect(ds, ws, tm) == ko_collect(ds.take(k), ws, tm),
    decreases ds.len(),
{
    if k == ds.len() {
        assert(ds.take(k) =~= ds);
    } else {
        assert(ds.drop_last().take(k) =~= ds.take(k));
        lemma_ko_err_extends(ds.drop_last(), ws, tm, k);
    }
}

/// Computes a knockout break from the debates of the round before it and the
/// winner of each.
pub fn knockout_break_with_winners(
    config: &BreakConfig,
    debates: &Vec<KoDebate>,
    winners: &Vec<SpeechRole>,
    speaker_order: &Vec<u128>,
    team_members: &HashMap<u128, Vec<u128>>,
) -> (r: Result<BreakResult, MakeBreakError>)
    requires
        winners.len() == debates.len(),
    ensures
        result_view(r) == ko_break_spec(*config, debates@, winners@, speaker_order@, team_members@),
{
    let mut teams: Vec<u128> = Vec::new();
    let mut best: Vec<u128> = Vec::new();
    let mut members: Vec<u128> = Vec::new();
    let mut i: usize = 0;
    while i < debates.len()
        invariant
            i <= debates.len(),
            winners.len() == debates.len(),
            ko_collect(debates@.take(i as int), winners@, team_members@) == Ok::<(Seq<u128>, Seq<u128>, Seq<u128>), MakeBreakError>((teams@, best@, members@)),
        decreases debates.len() - i,
    {
        assert(debates@.take(i + 1).drop_last() =~= debates@.take(i as int));
        assert(debates@.take(i + 1).last() == debates@[i as int]);
        let d = &debates[i];
        let w = winners[i];
        if d.scores.is_none() {
            proof { lemma_ko_err_extends(debates@, winners@, team_members@, i + 1); }
            return Err(MakeBreakError::KORoundIncompleteRound);
        }
        let b = find_best_speech(&d.speeches, w);
        let team = if w == SpeechRole::Government { d.government } else { d.opposition };
        match (b, team) {
            (Some(b), Some(t)) => match b.speaker {
                Some(s) => {
                    teams.push(t);
                    match team_members.get(&t) {
                        Some(m) => append_ids(&mut members, m),
                        None => {
                            assert(members@ =~= members@ + Seq::<u128>::empty());
                        },
                    }
                    best.push(s);
                },
                None => {
                    proof { lemma_ko_err_extends(debates@, winners@, team_members@, i + 1); }
                    return Err(MakeBreakError::KORoundIncompleteRound);
                },
            },
            _ => {
                proof { lemma_ko_err_extends(debates@, winners@, team_members@, i + 1); }
                return Err(MakeBreakError::KORoundIncompleteRound);
            },
        }
        i += 1;
    }
    assert(debates@.take(debates.len() as int) =~= debates@);
    let half = debates.len() / 2;
    let rest = excluding_ids(speaker_order, &best);
    let rest = excluding_ids(&rest, &members);
    let tab = first_ids(&rest, half);
    if tab.len() < half {
        return Err(MakeBreakError::NotEnoughTeams);
    }
    let bteams = match config {
        BreakConfig::BestSpeakerOnlyBreak => Vec::new(),
        _ => teams,
    };
    let bspeakers = match config {
        BreakConfig::BestSpeakerOnlyBreak => {
            let mut v: Vec<u128> = Vec::new();
            if best.len() > 0 {
                v.push(best[0]);
                assert(v@ =~= seq![best@[0]]);
            }
            v
        },
        BreakConfig::TeamOnlyKnockoutBreak => Vec::new(),
        _ => tab,
    };
    Ok(BreakResult { breaking_teams: bteams, breaking_speakers: bspeakers })
}

/// Computes a knockout break: each debate is won by the team ahead, a tie by the
/// toss of a coin.
pub fn knockout_break(
    config: &BreakConfig,
    debates: &Vec<KoDebate>,
    speaker_order: &Vec<u128>,
    team_members: &HashMap<u128, Vec<u128>>,
) -> (r: Result<BreakResult, MakeBreakError>)
    ensures
        exists|ws: Seq<SpeechRole>| #[trigger] winners_fit(debates@, ws)
            && result_view(r) == ko_break_spec(*config, debates@, ws, speaker_order@, team_members@),
{
    let winners = decide_winners(debates);
    let r = knockout_break_with_winners(config, debates, &winners, speaker_order, team_members);
    assert(winners_fit(debates@, winners@));
    r
}

/// The teams of the debates that are not among `first`, government before
/// opposition, debate by debate.
pub open spec fn tim_non_breaking(ds: Seq<KoDebate>, first: Seq<u128>) -> Seq<u128>
    decreases ds.len(),
{
    if ds.len() == 0 {
        Seq::empty()
    } else {
        let rest = tim_non_breaking(ds.drop_last(), first);
        let d = ds.last();
        let a = match d.government {
            Some(g) => if first.contains(g) { rest } else { rest.push(g) },
            None => rest,
        };
        match d.opposition {
            Some(o) => if first.contains(o) { a } else { a.push(o) },
            None => a,
        }
    }
}

/// The place of `t` in the ranking (its last place where it occurs twice), 0
/// where it does not occur.
pub open spec fn position_key(r: Seq<u128>, t: u128) -> nat
    decreases r.len(),
{
    if r.len() == 0 {
        0
    } else if r.last() == t {
        (r.len() - 1) as nat
    } else {
        position_key(r.drop_last(), t)
    }
}

/// Where `x` goes in `s`, sorted by place in `r`: after every team placed no later.
pub open spec fn key_insert_position(s: Seq<u128>, x: u128, r: Seq<u128>) -> nat
    decreases s.len(),
{
    if s.len() == 0 {
        0
    } else if position_key(r, s[0]) > position_key(r, x) {
        0
    } else {
        1 + key_insert_position(s.drop_first(), x, r)
    }
}

/// `s` sorted by place in `r`, keeping the order of teams with equal places.
pub open spec fn sort_by_position(s: Seq<u128>, r: Seq<u128>) -> Seq<u128>
    decreases s.len(),
{
    if s.len() == 0 {
        Seq::empty()
    } else {
        let sorted = sort_by_position(s.drop_last(), r);
        sorted.insert(key_insert_position(sorted, s.last(), r) as int, s.last())
    }
}

/// The break that keeps every team not beaten by a team outside the best third
/// in the round before: `all_teams` without the teams that met the best third
/// and are not in it, sorted by place in the ranking, with every speaker
/// outside them.
pub open spec fn tim_break_spec(
    tr: Seq<u128>,
    sr: Seq<u128>,
    tm: Map<u128, Vec<u128>>,
    all_teams: Seq<u128>,
    ko: Option<Seq<KoDebate>>,
) -> Result<(Seq<u128>, Seq<u128>), MakeBreakError> {
    if tr.len() < 3 || tr.len() % 3 != 0 {
        Err(MakeBreakError::InvalidTeamCount)
    } else {
        match ko {
            None => Err(MakeBreakError::KOBreakConditionNotMet),
            Some(ds) => {
                let first = tr.take((tr.len() / 3) as int);
                let breaking = excluding(all_teams, tim_non_breaking(ds, first));
                Ok((sort_by_position(breaking, tr), excluding(sr, members_of_teams(tm, breaking))))
            },
        }
    }
}

pub proof fn lemma_key_insert_position_bound(s: Seq<u128>, x: u128, r: Seq<u128>)
    ensures
        key_insert_position(s, x, r) <= s.len(),
    decreases s.len(),
{
    if s.len() > 0 {
        lemma_key_insert_position_bound(s.drop_first(), x, r);
    }
}

/// The place of `t` in the ranking.
fn find_position(r: &Vec<u128>, t: u128) -> (k: usize)
    ensures
        k == position_key(r@, t),
{
    let mut i: usize = r.len();
    assert(r@.take(r.len() as int) =~= r@);
    while i > 0
        invariant
            i <= r.len(),
            position_key(r@, t) == position_key(r@.take(i as int), t),
        decreases i,
    {
        assert(r@.take(i as int).drop_last() =~= r@.take(i - 1));
        if r[i - 1] == t {
            return i - 1;
        }
        i -= 1;
    }
    0
}

/// Sorts the teams by place in the ranking, keeping the order of equal places.
fn sort_teams_by_position(s: &Vec<u128>, ranking: &Vec<u128>) -> (sorted: Vec<u128>)
    ensures
        sorted@ == sort_by_position(s@, ranking@),
{
    assert(s@.take(0) =~= Seq::<u128>::empty());
    let mut sorted: Vec<u128> = Vec::new();
    let mut i: usize = 0;
    while i < s.len()
        invariant
            i <= s.len(),
            sorted@ == sort_by_position(s@.take(i as int), ranking@),
        decreases s.len() - i,
    {
        assert(s@.take(i + 1).drop_last() =~= s@.take(i as int));
        let x = s[i];
        let kx = find_position(ranking, x);
        let ghost sv = sorted@;
        let mut p: usize = 0;
        assert(sv.skip(0) =~= sv);
        while p < sorted.len() && find_position(ranking, sorted[p]) <= kx
            invariant
                p <= sorted.len(),
                sv == sorted@,
                kx == position_key(ranking@, x),
                key_insert_position(sv, x, ranking@) == p + key_insert_position(sv.skip(p as int), x, ranking@),
            decreases sorted.len() - p,
        {
            assert(sv.skip(p as int).drop_first() =~= sv.skip(p + 1));
            p += 1;
        }
        proof {
            if p < sorted.len() {
                assert(sv.skip(p as int)[0] == sorted@[p as int]);
            }
        }
        sorted.insert(p, x);
        i += 1;
    }
    assert(s@.take(s.len() as int) =~= s@);
    sorted
}

/// The teams of the debates that are not among `first`.
fn collect_non_breaking(ds: &Vec<KoDebate>, first: &Vec<u128>) -> (r: Vec<u128>)
    ensures
        r@ == tim_non_breaking(ds@, first@),
{
    let mut r: Vec<u128> = Vec::new();
    let mut i: usize = 0;
    while i < ds.len()
        invariant
            i <= ds.len(),
            r@ == tim_non_breaking(ds@.take(i as int), first@),
        decreases ds.len() - i,
    {
        assert(ds@.take(i + 1).drop_last() =~= ds@.take(i as int));
        assert(ds@.take(i + 1).last() == ds@[i as int]);
        match ds[i].government {
            Some(g) => {
                if !contains_id(first, g) {
                    r.push(g);
                }
            },
            None => {},
        }
        match ds[i].opposition {
            Some(o) => {
                if !contains_id(first, o) {
                    r.push(o);
                }
            },
            None => {},
        }
        i += 1;
    }
    assert(ds@.take(ds.len() as int) =~= ds@);
    r
}

/// Computes the break that keeps every team not beaten by a team outside the
/// best third in the round before.
pub fn tim_break(
    team_ranking: &Vec<u128>,
    speaker_ranking: &Vec<u128>,
    team_members: &HashMap<u128, Vec<u128>>,
    all_team_ids: &Vec<u128>,
    ko_round: &Option<Vec<KoDebate>>,
) -> (r: Result<BreakResult, MakeBreakError>)
    ensures
        result_view(r) == tim_break_spec(
            team_ranking@,
            speaker_ranking@,
            team_members@,
            all_team_ids@,
            match ko_round { Some(ds) => Some(ds@), None => None },
        ),
{
    if team_ranking.len() < 3 || team_ranking.len() % 3 != 0 {
        return Err(MakeBreakError::InvalidTeamCount);
    }
    let first = first_ids(team_ranking, team_ranking.len() / 3);
    match ko_round {
        None => Err(MakeBreakError::KOBreakConditionNotMet),
        Some(ds) => {
            let non_breaking = collect_non_breaking(ds, &first);
            let breaking = excluding_ids(all_team_ids, &non_breaking);
            let speakers = find_speakers_not_in_teams(&breaking, speaker_ranking, team_members);
            let teams = sort_teams_by_position(&breaking, team_ranking);
            Ok(BreakResult { breaking_teams: teams, breaking_speakers: speakers })
        },
    }
}

/// What a break node computes, given the eligible team and speaker rankings: the
/// rule of its configuration; for a knockout break, for some fitting winners of
/// the round before.
pub open spec fn break_outcome(
    config: BreakConfig,
    tr: Seq<u128>,
    sr: Seq<u128>,
    speaker_order: Seq<u128>,
    tm: Map<u128, Vec<u128>>,
    all_teams: Seq<u128>,
    ko: Option<Seq<KoDebate>>,
    r: Result<(Seq<u128>, Seq<u128>), MakeBreakError>,
) -> bool {
    match config {
        BreakConfig::TabBreak { num_teams, num_non_aligned } => r == tab_break_spec(tr, sr, tm, num_teams, num_non_aligned),
        BreakConfig::TwoThirdsBreak => r == two_thirds_break_spec(tr, sr, tm),
        BreakConfig::TimBreak => r == tim_break_spec(tr, sr, tm, all_teams, ko),
        BreakConfig::Manual => r == Err::<(Seq<u128>, Seq<u128>), MakeBreakError>(MakeBreakError::IsManualBreak),
        _ => match ko {
            None => r == Err::<(Seq<u128>, Seq<u128>), MakeBreakError>(MakeBreakError::KOBreakConditionNotMet),
            Some(ds) => exists|ws: Seq<SpeechRole>| #[trigger] winners_fit(ds, ws)
                && r == ko_break_spec(config, ds, ws, speaker_order, tm),
        },
    }
}

/// The debates of the round before, as sequences.
pub open spec fn ko_view(ko: Option<Vec<KoDebate>>) -> Option<Seq<KoDebate>> {
    match ko {
        Some(ds) => Some(ds@),
        None => None,
    }
}

/// Computes the teams and speakers of a break. The rankings are those of the
/// tab, best first, kept to the teams and speakers that the categories make
/// eligible; `ko_round` holds the debates of the round before the break, where
/// there is one.
pub fn compute_break(
    config: &BreakConfig,
    eligible_categories: &Vec<TournamentEligibleBreakCategory>,
    participants: &Vec<Participant>,
    team_tab_order: &Vec<u128>,
    speaker_tab_order: &Vec<u128>,
    team_members: &HashMap<u128, Vec<u128>>,
    all_team_ids: &Vec<u128>,
    ko_round: &Option<Vec<KoDebate>>,
) -> (r: Result<BreakResult, MakeBreakError>)
    ensures
        break_outcome(
            *config,
            keeping(team_tab_order@, eligible_teams_spec(eligible_categories@, participants@)),
            keeping(speaker_tab_order@, eligible_speakers_spec(eligible_categories@, participants@)),
            speaker_tab_order@,
            team_members@,
            all_team_ids@,
            ko_view(*ko_round),
            result_view(r),
        ),
{
    let info = get_eligiblity_info(eligible_categories, participants);
    let team_ranking = keeping_ids(team_tab_order, &info.eligible_teams);
    let speaker_ranking = keeping_ids(speaker_tab_order, &info.eligible_speakers);
    match config {
        BreakConfig::TabBreak { num_teams, num_non_aligned } => {
            tab_break(&team_ranking, &speaker_ranking, team_members, *num_teams, *num_non_aligned)
        },
        BreakConfig::TwoThirdsBreak => two_thirds_break(&team_ranking, &speaker_ranking, team_members),
        BreakConfig::TimBreak => tim_break(&team_ranking, &speaker_ranking, team_members, all_team_ids, ko_round),
        BreakConfig::Manual => Err(MakeBreakError::IsManualBreak),
        _ => match ko_round {
            None => Err(MakeBreakError::KOBreakConditionNotMet),
            Some(ds) => knockout_break(config, ds, speaker_tab_order, team_members),
        },
    }
}

/// Pairs the first of a number of items with the last, the second with the
/// one before the last, and so on, one pair per call of `next`.
pub struct FoldingPairIterator {
    pub num_items: u64,
    pub curr_item: u64,
}

impl FoldingPairIterator {
    /// A fold of the items that starts at the first.
    pub fn new(num_items: u64) -> (it: Self)
        ensures
            it.num_items == num_items,
            it.curr_item == 0,
    {
        FoldingPairIterator { num_items, curr_item: 0 }
    }

    /// The next pair: the current item and the item as far from the end, none
    /// once every item has been the first of a pair.
    pub fn next(&mut self) -> (r: Option<(u64, u64)>)
        ensures
            old(self).curr_item >= old(self).num_items ==> r is None && *final(self) == *old(self),
            old(self).curr_item < old(self).num_items ==> {
                &&& r == Some((old(self).curr_item, (old(self).num_items - old(self).curr_item - 1) as u64))
                &&& final(self).curr_item == old(self).curr_item + 1
                &&& final(self).num_items == old(self).num_items
            },
    {
        if self.curr_item >= self.num_items {
            return None;
        }
        let first = self.curr_item;
        let second = self.num_items - self.curr_item - 1;
        self.curr_item += 1;
        Some((first, second))
    }
}

} // verus!
