use vstd::prelude::*;

use std::collections::HashMap;

use crate::clashes::{ClashType, DrawEvaluationContext};
use crate::datastructures::{DebateInfo, DebateView, DrawBallot, draw_ballot_debate};
use crate::issues::{
    DrawIssue, DrawIssueTarget, IssueView, TargetView, issues_view, target_uuid, sort_issues,
    sort_issues_spec, coalesce_all, coalesce_issues_spec,
};

verus! {

broadcast use vstd::std_specs::hash::group_hash_axioms;

/// How strongly each kind of meeting weighs a clash, in thousandths of the
/// clash's base severity, and the base severity of repeated meetings.
#[derive(Clone, Copy, Debug)]
pub struct DrawEvaluatorConfig {
    pub adj_adj_clash_factor: u32,
    pub adj_team_clash_factor: u32,
    pub adj_speaker_clash_factor: u32,
    pub team_team_clash_factor: u32,
    pub team_speaker_clash_factor: u32,
    pub speaker_speaker_clash_factor: u32,
    pub adj_adj_repeat_clash_severity: u16,
    pub adj_team_repeat_clash_severity: u16,
    pub adj_non_aligned_speaker_repeat_clash_severity: u16,
    pub team_team_repeat_clash_severity: u16,
    pub team_speaker_repeat_clash_severity: u16,
    pub non_aligned_speakers_repeat_clash_severity: u16,
}

impl DrawEvaluatorConfig {
    /// The standard weights: adjudicator-adjudicator 0.3, adjudicator-team 1.0,
    /// adjudicator-speaker 0.5, team-team 0.2, team-speaker 0.1,
    /// speaker-speaker 0.1.
    pub fn default() -> (c: Self)
        ensures
            c.adj_adj_clash_factor == 300,
            c.adj_team_clash_factor == 1000,
            c.adj_speaker_clash_factor == 500,
            c.team_team_clash_factor == 200,
            c.team_speaker_clash_factor == 100,
            c.speaker_speaker_clash_factor == 100,
            c.adj_adj_repeat_clash_severity == 40,
            c.adj_team_repeat_clash_severity == 40,
            c.adj_non_aligned_speaker_repeat_clash_severity == 40,
            c.team_team_repeat_clash_severity == 10,
            c.team_speaker_repeat_clash_severity == 10,
            c.non_aligned_speakers_repeat_clash_severity == 10,
    {
        DrawEvaluatorConfig {
            adj_adj_clash_factor: 300,
            adj_team_clash_factor: 1000,
            adj_speaker_clash_factor: 500,
            team_team_clash_factor: 200,
            team_speaker_clash_factor: 100,
            speaker_speaker_clash_factor: 100,
            adj_adj_repeat_clash_severity: 40,
            adj_team_repeat_clash_severity: 40,
            adj_non_aligned_speaker_repeat_clash_severity: 40,
            team_team_repeat_clash_severity: 10,
            team_speaker_repeat_clash_severity: 10,
            non_aligned_speakers_repeat_clash_severity: 10,
        }
    }
}

/// The issues of a debate, by who has them.
pub struct BallotEvaluationResult {
    pub government_issues: Vec<DrawIssue>,
    pub opposition_issues: Vec<DrawIssue>,
    pub non_aligned_issues: HashMap<u128, Vec<DrawIssue>>,
    pub adjudicator_issues: HashMap<u128, Vec<DrawIssue>>,
}

/// The mathematical value of a [`BallotEvaluationResult`].
pub struct EvaluationView {
    pub government: Seq<IssueView>,
    pub opposition: Seq<IssueView>,
    pub non_aligned: Map<u128, Seq<IssueView>>,
    pub adjudicators: Map<u128, Seq<IssueView>>,
}

/// Who has an issue.
pub enum Holder {
    Government,
    Opposition,
    NonAligned(u128),
    Adjudicator(u128),
}

/// An issue together with who has it.
pub struct IssueEvent {
    pub holder: Holder,
    pub issue: IssueView,
}

pub open spec fn issue_lists_view(m: Map<u128, Vec<DrawIssue>>) -> Map<u128, Seq<IssueView>> {
    Map::new(|k: u128| m.contains_key(k), |k: u128| issues_view(m[k]@))
}

impl BallotEvaluationResult {
    pub open spec fn view(&self) -> EvaluationView {
        EvaluationView {
            government: issues_view(self.government_issues@),
            opposition: issues_view(self.opposition_issues@),
            non_aligned: issue_lists_view(self.non_aligned_issues@),
            adjudicators: issue_lists_view(self.adjudicator_issues@),
        }
    }

    /// A result without issues.
    pub fn new() -> (r: Self)
        ensures
            r.view() == empty_evaluation(),
    {
        let r = BallotEvaluationResult {
            government_issues: Vec::new(),
            opposition_issues: Vec::new(),
            non_aligned_issues: HashMap::new(),
            adjudicator_issues: HashMap::new(),
        };
        assert(r.view().government =~= Seq::<IssueView>::empty());
        assert(r.view().opposition =~= Seq::<IssueView>::empty());
        assert(r.view().non_aligned =~= Map::<u128, Seq<IssueView>>::empty());
        assert(r.view().adjudicators =~= Map::<u128, Seq<IssueView>>::empty());
        r
    }
}

pub open spec fn empty_evaluation() -> EvaluationView {
    EvaluationView {
        government: Seq::empty(),
        opposition: Seq::empty(),
        non_aligned: Map::empty(),
        adjudicators: Map::empty(),
    }
}

pub open spec fn append_to(m: Map<u128, Seq<IssueView>>, k: u128, x: IssueView) -> Map<u128, Seq<IssueView>> {
    if m.contains_key(k) {
        m.insert(k, m[k].push(x))
    } else {
        m.insert(k, seq![x])
    }
}

/// The result with one more issue for its holder, at the end of the holder's list.
pub open spec fn record(v: EvaluationView, e: IssueEvent) -> EvaluationView {
    match e.holder {
        Holder::Government => EvaluationView { government: v.government.push(e.issue), ..v },
        Holder::Opposition => EvaluationView { opposition: v.opposition.push(e.issue), ..v },
        Holder::NonAligned(k) => EvaluationView { non_aligned: append_to(v.non_aligned, k, e.issue), ..v },
        Holder::Adjudicator(k) => EvaluationView { adjudicators: append_to(v.adjudicators, k, e.issue), ..v },
    }
}

/// The result after recording each event in turn.
pub open spec fn apply_events(v: EvaluationView, es: Seq<IssueEvent>) -> EvaluationView
    decreases es.len(),
{
    if es.len() == 0 {
        v
    } else {
        record(apply_events(v, es.drop_last()), es.last())
    }
}

pub proof fn lemma_apply_concat(v: EvaluationView, a: Seq<IssueEvent>, b: Seq<IssueEvent>)
    ensures
        apply_events(v, a + b) == apply_events(apply_events(v, a), b),
    decreases b.len(),
{
    if b.len() == 0 {
        assert(a + b =~= a);
    } else {
        lemma_apply_concat(v, a, b.drop_last());
        assert((a + b).drop_last() =~= a + b.drop_last());
    }
}

fn push_to_list(m: &mut HashMap<u128, Vec<DrawIssue>>, k: u128, x: DrawIssue)
    ensures
        issue_lists_view(final(m)@) == append_to(issue_lists_view(old(m)@), k, x@),
{
    let ghost old_view = issue_lists_view(m@);
    let mut list = match m.remove(&k) {
        Some(l) => l,
        None => Vec::new(),
    };
    let ghost before = list@;
    list.push(x);
    m.insert(k, list);
    proof {
        if old_view.contains_key(k) {
            assert(issues_view(list@) =~= old_view[k].push(x@));
        } else {
            assert(issues_view(list@) =~= seq![x@]);
        }
        assert(issue_lists_view(m@) =~= append_to(old_view, k, x@));
    }
}

/// Who has an issue, as an executable value.
#[derive(Clone, Copy)]
pub enum IssueHolder {
    Government,
    Opposition,
    NonAligned(u128),
    Adjudicator(u128),
}

pub open spec fn holder_view(h: IssueHolder) -> Holder {
    match h {
        IssueHolder::Government => Holder::Government,
        IssueHolder::Opposition => Holder::Opposition,
        IssueHolder::NonAligned(k) => Holder::NonAligned(k),
        IssueHolder::Adjudicator(k) => Holder::Adjudicator(k),
    }
}

impl BallotEvaluationResult {
    fn add(&mut self, holder: IssueHolder, x: DrawIssue)
        ensures
            final(self).view() == record(old(self).view(), IssueEvent { holder: holder_view(holder), issue: x@ }),
    {
        match holder {
            IssueHolder::Government => {
                self.government_issues.push(x);
            },
            IssueHolder::Opposition => {
                self.opposition_issues.push(x);
            },
            IssueHolder::NonAligned(k) => {
                push_to_list(&mut self.non_aligned_issues, k, x);
            },
            IssueHolder::Adjudicator(k) => {
                push_to_list(&mut self.adjudicator_issues, k, x);
            },
        }
        assert(self.view().government =~= record(old(self).view(), IssueEvent { holder: holder_view(holder), issue: x@ }).government);
        assert(self.view().opposition =~= record(old(self).view(), IssueEvent { holder: holder_view(holder), issue: x@ }).opposition);
    }
}

pub proof fn lemma_apply_push(v: EvaluationView, es: Seq<IssueEvent>, e: IssueEvent)
    ensures
        apply_events(v, es.push(e)) == record(apply_events(v, es), e),
{
    assert(es.push(e).drop_last() =~= es);
}

pub open spec fn event(holder: Holder, issue: IssueView) -> IssueEvent {
    IssueEvent { holder, issue }
}

pub open spec fn retarget(x: IssueView, t: TargetView) -> IssueView {
    IssueView { target: t, ..x }
}

pub open spec fn team_target(u: u128, speaker: u128) -> TargetView {
    TargetView::Team { uuid: u, involved_speakers: seq![speaker] }
}

/// The coalesced list of the sorted issues.
pub open spec fn coalesced(l: Seq<IssueView>) -> Seq<IssueView> {
    coalesce_issues_spec(sort_issues_spec(l))
}

/// The government when the issue is about the government team (or about no
/// team id when the debate has no government), the opposition otherwise.
pub open spec fn side_of(x: IssueView, gov: u128) -> Holder {
    if target_uuid(x.target) == gov { Holder::Government } else { Holder::Opposition }
}

/// For each issue, an event for `first`, then one for the team it is about,
/// with the issue pointed at `t`.
pub open spec fn dual_events(l: Seq<IssueView>, first: Holder, gov: u128, t: TargetView) -> Seq<IssueEvent>
    decreases l.len(),
{
    if l.len() == 0 {
        Seq::empty()
    } else {
        dual_events(l.drop_last(), first, gov, t) + seq![
            event(first, l.last()),
            event(side_of(l.last(), gov), retarget(l.last(), t)),
        ]
    }
}

/// One event for `h` for each issue.
pub open spec fn tagged(l: Seq<IssueView>, h: Holder) -> Seq<IssueEvent>
    decreases l.len(),
{
    if l.len() == 0 {
        Seq::empty()
    } else {
        tagged(l.drop_last(), h).push(event(h, l.last()))
    }
}

/// For each issue, an event for the government and one for the opposition,
/// pointed at the government speaker `g`.
pub open spec fn government_events(l: Seq<IssueView>, g: u128, gov: u128) -> Seq<IssueEvent>
    decreases l.len(),
{
    if l.len() == 0 {
        Seq::empty()
    } else {
        government_events(l.drop_last(), g, gov) + seq![
            event(Holder::Government, l.last()),
            event(Holder::Opposition, retarget(l.last(), team_target(gov, g))),
        ]
    }
}

pub open spec fn id_or_nil(t: Option<u128>) -> u128 {
    match t {
        Some(u) => u,
        None => 0,
    }
}

pub open spec fn scaled_severity(base: u16, factor: u32) -> u16 {
    let v = base * factor / 1000;
    if v > 65535 { 65535 } else { v as u16 }
}

/// A clash evaluator: the weights, the rounds whose meetings count, and the
/// tournament it reads.
pub struct DrawEvaluator<'a> {
    pub config: DrawEvaluatorConfig,
    pub relevant_rounds: Vec<u128>,
    pub context: &'a DrawEvaluationContext,
}

impl<'a> DrawEvaluator<'a> {
    pub fn new(config: DrawEvaluatorConfig, relevant_rounds: Vec<u128>, context: &'a DrawEvaluationContext) -> (e: Self)
        ensures
            e.config == config,
            e.relevant_rounds == relevant_rounds,
            e.context == context,
    {
        DrawEvaluator { config, relevant_rounds, context }
    }

    /// The severity of a clash before weighting: adjudicators that have judged
    /// together count the configured repeat severity, declared and institutional
    /// clashes their own severity, being in one team 1000, and other meetings 10.
    pub open spec fn base_severity(&self, c: ClashType) -> u16 {
        match c {
            ClashType::JudgeHasSeenJudge { .. } => self.config.adj_adj_repeat_clash_severity,
            ClashType::DeclaredClash { severity } => severity,
            ClashType::InstitutionalClash { severity, .. } => severity,
            ClashType::SameTeamClash => 1000,
            _ => 10,
        }
    }

    pub open spec fn clashes(&self, p1: u128, p2: u128) -> Seq<ClashType> {
        self.context.all_clashes(self.relevant_rounds@, p1, p2)
    }

    pub open spec fn issue_of(&self, c: ClashType, factor: u32, t: TargetView) -> IssueView {
        IssueView { issue_type: c, severity: scaled_severity(self.base_severity(c), factor), target: t }
    }

    pub open spec fn issues_for(&self, cs: Seq<ClashType>, factor: u32, t: TargetView) -> Seq<IssueView>
        decreases cs.len(),
    {
        if cs.len() == 0 {
            Seq::empty()
        } else {
            self.issues_for(cs.drop_last(), factor, t).push(self.issue_of(cs.last(), factor, t))
        }
    }

    /// The members of a team, or none.
    pub open spec fn members_of(&self, team: Option<u128>) -> Seq<u128> {
        match team {
            Some(t) => if self.context.team_members@.contains_key(t) {
                self.context.team_members@[t]@
            } else {
                Seq::empty()
            },
            None => Seq::empty(),
        }
    }

    /// For each clash between two adjudicators, an issue for each of them.
    pub open spec fn adjudicator_pair_events(&self, cs: Seq<ClashType>, a: u128, b: u128) -> Seq<IssueEvent>
        decreases cs.len(),
    {
        if cs.len() == 0 {
            Seq::empty()
        } else {
            let f = self.config.adj_adj_clash_factor;
            self.adjudicator_pair_events(cs.drop_last(), a, b) + seq![
                event(Holder::Adjudicator(a), self.issue_of(cs.last(), f, TargetView::Adjudicator { uuid: b })),
                event(Holder::Adjudicator(b), self.issue_of(cs.last(), f, TargetView::Adjudicator { uuid: a })),
            ]
        }
    }

    /// The events of the pairs `(ids[i], ids[j'])` for `i < j' < j`.
    pub open spec fn adjudicator_row(&self, ids: Seq<u128>, i: int, j: int) -> Seq<IssueEvent>
        decreases j - i,
    {
        if j <= i + 1 {
            Seq::empty()
        } else {
            self.adjudicator_row(ids, i, j - 1) + self.adjudicator_pair_events(
                self.clashes(ids[i], ids[j - 1]),
                ids[i],
                ids[j - 1],
            )
        }
    }

    /// The events of all pairs of adjudicators whose first index is below `i`.
    pub open spec fn adjudicator_rows(&self, ids: Seq<u128>, i: int) -> Seq<IssueEvent>
        decreases i,
    {
        if i <= 0 {
            Seq::empty()
        } else {
            self.adjudicator_rows(ids, i - 1) + self.adjudicator_row(ids, i - 1, ids.len() as int)
        }
    }

    /// For each clash between an adjudicator and a non-aligned speaker, an issue
    /// for each of them.
    pub open spec fn adjudicator_speaker_events(&self, cs: Seq<ClashType>, a: u128, s: u128) -> Seq<IssueEvent>
        decreases cs.len(),
    {
        if cs.len() == 0 {
            Seq::empty()
        } else {
            let f = self.config.adj_speaker_clash_factor;
            self.adjudicator_speaker_events(cs.drop_last(), a, s) + seq![
                event(Holder::Adjudicator(a), self.issue_of(cs.last(), f, TargetView::Speaker { uuid: s })),
                event(Holder::NonAligned(s), self.issue_of(cs.last(), f, TargetView::Adjudicator { uuid: a })),
            ]
        }
    }

    pub open spec fn adjudicator_speaker_row(&self, a: u128, sps: Seq<u128>, j: int) -> Seq<IssueEvent>
        decreases j,
    {
        if j <= 0 {
            Seq::empty()
        } else {
            self.adjudicator_speaker_row(a, sps, j - 1) + self.adjudicator_speaker_events(
                self.clashes(a, sps[j - 1]),
                a,
                sps[j - 1],
            )
        }
    }

    pub open spec fn adjudicator_speaker_rows(&self, ids: Seq<u128>, sps: Seq<u128>, i: int) -> Seq<IssueEvent>
        decreases i,
    {
        if i <= 0 {
            Seq::empty()
        } else {
            self.adjudicator_speaker_rows(ids, sps, i - 1) + self.adjudicator_speaker_row(ids[i - 1], sps, sps.len() as int)
        }
    }

    /// The issues between `p` and each member of a team, each pointed at the
    /// team with that member, member by member.
    pub open spec fn team_issue_list(&self, p: u128, members: Seq<u128>, u: u128, factor: u32) -> Seq<IssueView>
        decreases members.len(),
    {
        if members.len() == 0 {
            Seq::empty()
        } else {
            self.team_issue_list(p, members.drop_last(), u, factor) + self.issues_for(
                self.clashes(p, members.last()),
                factor,
                team_target(u, members.last()),
            )
        }
    }

    /// The issues between `p` and the two teams, each team's sorted and coalesced.
    pub open spec fn both_teams_list(&self, d: DebateView, p: u128, factor: u32) -> Seq<IssueView> {
        coalesced(self.team_issue_list(p, self.members_of(d.government), id_or_nil(d.government), factor))
            + coalesced(self.team_issue_list(p, self.members_of(d.opposition), id_or_nil(d.opposition), factor))
    }

    pub open spec fn adjudicator_team_rows(&self, d: DebateView, ids: Seq<u128>, i: int) -> Seq<IssueEvent>
        decreases i,
    {
        if i <= 0 {
            Seq::empty()
        } else {
            let a = ids[i - 1];
            self.adjudicator_team_rows(d, ids, i - 1) + dual_events(
                self.both_teams_list(d, a, self.config.adj_team_clash_factor),
                Holder::Adjudicator(a),
                id_or_nil(d.government),
                TargetView::Adjudicator { uuid: a },
            )
        }
    }

    /// The issues of non-aligned speaker `s` with each other non-aligned
    /// speaker, per other speaker sorted and coalesced.
    pub open spec fn speaker_pair_events(&self, sps: Seq<u128>, s: u128, j: int) -> Seq<IssueEvent>
        decreases j,
    {
        if j <= 0 {
            Seq::empty()
        } else {
            let o = sps[j - 1];
            self.speaker_pair_events(sps, s, j - 1) + if o != s {
                tagged(
                    coalesced(self.issues_for(self.clashes(s, o), self.config.speaker_speaker_clash_factor, TargetView::Speaker { uuid: o })),
                    Holder::NonAligned(s),
                )
            } else {
                Seq::empty()
            }
        }
    }

    pub open spec fn speaker_rows(&self, d: DebateView, sps: Seq<u128>, i: int) -> Seq<IssueEvent>
        decreases i,
    {
        if i <= 0 {
            Seq::empty()
        } else {
            let s = sps[i - 1];
            self.speaker_rows(d, sps, i - 1) + dual_events(
                self.both_teams_list(d, s, self.config.team_speaker_clash_factor),
                Holder::NonAligned(s),
                id_or_nil(d.government),
                TargetView::Speaker { uuid: s },
            ) + self.speaker_pair_events(sps, s, sps.len() as int)
        }
    }

    pub open spec fn team_team_rows(&self, d: DebateView, gms: Seq<u128>, i: int) -> Seq<IssueEvent>
        decreases i,
    {
        if i <= 0 {
            Seq::empty()
        } else {
            let g = gms[i - 1];
            self.team_team_rows(d, gms, i - 1) + government_events(
                coalesced(
                    self.team_issue_list(g, self.members_of(d.opposition), id_or_nil(d.opposition), self.config.team_team_clash_factor),
                ),
                g,
                id_or_nil(d.government),
            )
        }
    }

    /// All issues of a debate in the order they are recorded: between pairs of
    /// adjudicators, between adjudicators and non-aligned speakers, between
    /// adjudicators and team members, between non-aligned speakers and team
    /// members and among non-aligned speakers, and between the members of the
    /// two teams.
    pub open spec fn debate_events(&self, d: DebateView) -> Seq<IssueEvent> {
        let ids = option_to_seq_u128(d.chair) + d.wings;
        let sps = d.non_aligned_speakers;
        let gms = self.members_of(d.government);
        self.adjudicator_rows(ids, ids.len() as int) + self.adjudicator_speaker_rows(ids, sps, ids.len() as int)
            + self.adjudicator_team_rows(d, ids, ids.len() as int) + self.speaker_rows(d, sps, sps.len() as int)
            + self.team_team_rows(d, gms, gms.len() as int)
    }
}

pub open spec fn option_to_seq_u128(o: Option<u128>) -> Seq<u128> {
    match o {
        Some(x) => seq![x],
        None => Seq::empty(),
    }
}

fn list_view_push(l: &mut Vec<DrawIssue>, x: DrawIssue)
    ensures
        issues_view(final(l)@) == issues_view(old(l)@).push(x@),
{
    l.push(x);
    assert(issues_view(l@) =~= issues_view(old(l)@).push(x@));
}

fn append_issues(l: &mut Vec<DrawIssue>, more: Vec<DrawIssue>)
    ensures
        issues_view(final(l)@) == issues_view(old(l)@) + issues_view(more@),
{
    let mut i: usize = 0;
    while i < more.len()
        invariant
            i <= more.len(),
            issues_view(l@) =~= issues_view(old(l)@) + issues_view(more@).take(i as int),
        decreases more.len() - i,
    {
        list_view_push(l, more[i].duplicate());
        i += 1;
    }
    assert(issues_view(more@).take(more.len() as int) =~= issues_view(more@));
}

impl<'a> DrawEvaluator<'a> {
    /// The severity of a clash before weighting.
    pub fn get_base_severity(&self, clash_type: &ClashType) -> (s: u16)
        ensures
            s == self.base_severity(*clash_type),
    {
        match clash_type {
            ClashType::JudgeHasSeenJudge { .. } => self.config.adj_adj_repeat_clash_severity,
            ClashType::DeclaredClash { severity } => *severity,
            ClashType::InstitutionalClash { severity, .. } => *severity,
            ClashType::SameTeamClash => 1000,
            _ => 10,
        }
    }

    fn severity_of(&self, c: &ClashType, factor: u32) -> (s: u16)
        ensures
            s == scaled_severity(self.base_severity(*c), factor),
    {
        let base = self.get_base_severity(c);
        let b: u64 = base as u64;
        let f: u64 = factor as u64;
        assert(b * f <= 65535 * 4294967295) by (nonlinear_arith)
            requires
                b <= 65535,
                f <= 4294967295,
        ;
        let v: u64 = b * f / 1000;
        if v > 65535 { 65535 } else { v as u16 }
    }

    /// The permanent clashes between two participants.
    pub fn get_permanent_clashes_between_participants(&self, p1: u128, p2: u128) -> (clashes: Vec<ClashType>)
        ensures
            clashes@ == self.context.permanent_clashes(p1, p2),
    {
        self.context.permanent_clashes_between(p1, p2)
    }

    /// The clashes between two participants from meetings in the relevant rounds.
    pub fn get_dynamic_clashes_between_participants(&self, p1: u128, p2: u128) -> (clashes: Vec<ClashType>)
        ensures
            clashes@ == self.context.dynamic_clashes(self.relevant_rounds@, p1, p2),
    {
        self.context.dynamic_clashes_between(&self.relevant_rounds, p1, p2)
    }

    /// All clashes between two participants, the permanent ones first.
    pub fn get_all_clashes_between_participants(&self, p1: u128, p2: u128) -> (clashes: Vec<ClashType>)
        ensures
            clashes@ == self.clashes(p1, p2),
    {
        self.context.all_clashes_between(&self.relevant_rounds, p1, p2)
    }

    fn issues_for_exec(&self, cs: &Vec<ClashType>, factor: u32, t: &DrawIssueTarget) -> (out: Vec<DrawIssue>)
        ensures
            issues_view(out@) == self.issues_for(cs@, factor, t@),
    {
        let mut out: Vec<DrawIssue> = Vec::new();
        let mut k: usize = 0;
        while k < cs.len()
            invariant
                k <= cs.len(),
                issues_view(out@) == self.issues_for(cs@.take(k as int), factor, t@),
            decreases cs.len() - k,
        {
            assert(cs@.take(k + 1).drop_last() =~= cs@.take(k as int));
            let c = cs[k];
            list_view_push(&mut out, DrawIssue { issue_type: c, severity: self.severity_of(&c, factor), target: t.duplicate() });
            k += 1;
        }
        assert(cs@.take(cs.len() as int) =~= cs@);
        out
    }

    fn record_adjudicator_pairs(&self, res: &mut BallotEvaluationResult, ids: &Vec<u128>)
        ensures
            final(res).view() == apply_events(old(res).view(), self.adjudicator_rows(ids@, ids.len() as int)),
    {
        let ghost v0 = res.view();
        let ghost mut acc: Seq<IssueEvent> = Seq::empty();
        let f = self.config.adj_adj_clash_factor;
        let mut i: usize = 0;
        while i < ids.len()
            invariant
                i <= ids.len(),
                f == self.config.adj_adj_clash_factor,
                acc == self.adjudicator_rows(ids@, i as int),
                res.view() == apply_events(v0, acc),
            decreases ids.len() - i,
        {
            let mut j: usize = i + 1;
            let ghost row_start = acc;
            while j < ids.len()
                invariant
                    i < j <= ids.len(),
                    f == self.config.adj_adj_clash_factor,
                    row_start == self.adjudicator_rows(ids@, i as int),
                    acc == row_start + self.adjudicator_row(ids@, i as int, j as int),
                    res.view() == apply_events(v0, acc),
                decreases ids.len() - j,
            {
                let a = ids[i];
                let b = ids[j];
                let cs = self.get_all_clashes_between_participants(a, b);
                let ghost before = acc;
                let mut k: usize = 0;
                while k < cs.len()
                    invariant
                        k <= cs.len(),
                        f == self.config.adj_adj_clash_factor,
                        acc == before + self.adjudicator_pair_events(cs@.take(k as int), a, b),
                        res.view() == apply_events(v0, acc),
                    decreases cs.len() - k,
                {
                    let c = cs[k];
                    let sev = self.severity_of(&c, f);
                    let x1 = DrawIssue { issue_type: c, severity: sev, target: DrawIssueTarget::Adjudicator { uuid: b } };
                    let x2 = DrawIssue { issue_type: c, severity: sev, target: DrawIssueTarget::Adjudicator { uuid: a } };
                    let ghost e1 = event(Holder::Adjudicator(a), x1@);
                    let ghost e2 = event(Holder::Adjudicator(b), x2@);
                    res.add(IssueHolder::Adjudicator(a), x1);
                    proof {
                        lemma_apply_push(v0, acc, e1);
                        acc = acc.push(e1);
                    }
                    res.add(IssueHolder::Adjudicator(b), x2);
                    proof {
                        lemma_apply_push(v0, acc, e2);
                        acc = acc.push(e2);
                        assert(cs@.take(k + 1).drop_last() =~= cs@.take(k as int));
                        assert(acc =~= before + self.adjudicator_pair_events(cs@.take(k + 1), a, b));
                    }
                    k += 1;
                }
                proof {
                    assert(cs@.take(cs.len() as int) =~= cs@);
                    assert(acc =~= row_start + self.adjudicator_row(ids@, i as int, j + 1));
                }
                j += 1;
            }
            proof {
                assert(acc =~= self.adjudicator_rows(ids@, i + 1));
            }
            i += 1;
        }
    }

    fn record_adjudicator_speakers(&self, res: &mut BallotEvaluationResult, ids: &Vec<u128>, sps: &Vec<u128>)
        ensures
            final(res).view() == apply_events(old(res).view(), self.adjudicator_speaker_rows(ids@, sps@, ids.len() as int)),
    {
        let ghost v0 = res.view();
        let ghost mut acc: Seq<IssueEvent> = Seq::empty();
        let f = self.config.adj_speaker_clash_factor;
        let mut i: usize = 0;
        while i < ids.len()
            invariant
                i <= ids.len(),
                f == self.config.adj_speaker_clash_factor,
                acc == self.adjudicator_speaker_rows(ids@, sps@, i as int),
                res.view() == apply_events(v0, acc),
            decreases ids.len() - i,
        {
            let a = ids[i];
            let mut j: usize = 0;
            let ghost row_start = acc;
            while j < sps.len()
                invariant
                    i < ids.len(),
                    a == ids@[i as int],
                    j <= sps.len(),
                    f == self.config.adj_speaker_clash_factor,
                    row_start == self.adjudicator_speaker_rows(ids@, sps@, i as int),
                    acc == row_start + self.adjudicator_speaker_row(a, sps@, j as int),
                    res.view() == apply_events(v0, acc),
                decreases sps.len() - j,
            {
                let sp = sps[j];
                let cs = self.get_all_clashes_between_participants(a, sp);
                let ghost before = acc;
                let mut k: usize = 0;
                while k < cs.len()
                    invariant
                        k <= cs.len(),
                        f == self.config.adj_speaker_clash_factor,
                        acc == before + self.adjudicator_speaker_events(cs@.take(k as int), a, sp),
                        res.view() == apply_events(v0, acc),
                    decreases cs.len() - k,
                {
                    let c = cs[k];
                    let sev = self.severity_of(&c, f);
                    let x1 = DrawIssue { issue_type: c, severity: sev, target: DrawIssueTarget::Speaker { uuid: sp } };
                    let x2 = DrawIssue { issue_type: c, severity: sev, target: DrawIssueTarget::Adjudicator { uuid: a } };
                    let ghost e1 = event(Holder::Adjudicator(a), x1@);
                    let ghost e2 = event(Holder::NonAligned(sp), x2@);
                    res.add(IssueHolder::Adjudicator(a), x1);
                    proof {
                        lemma_apply_push(v0, acc, e1);
                        acc = acc.push(e1);
                    }
                    res.add(IssueHolder::NonAligned(sp), x2);
                    proof {
                        lemma_apply_push(v0, acc, e2);
                        acc = acc.push(e2);
                        assert(cs@.take(k + 1).drop_last() =~= cs@.take(k as int));
                        assert(acc =~= before + self.adjudicator_speaker_events(cs@.take(k + 1), a, sp));
                    }
                    k += 1;
                }
                proof {
                    assert(cs@.take(cs.len() as int) =~= cs@);
                    assert(acc =~= row_start + self.adjudicator_speaker_row(a, sps@, j + 1));
                }
                j += 1;
            }
            proof {
                assert(acc =~= self.adjudicator_speaker_rows(ids@, sps@, i + 1));
            }
            i += 1;
        }
    }

    fn team_issue_list_exec(&self, p: u128, members: &Vec<u128>, u: u128, factor: u32) -> (out: Vec<DrawIssue>)
        ensures
            issues_view(out@) == self.team_issue_list(p, members@, u, factor),
    {
        let mut out: Vec<DrawIssue> = Vec::new();
        let mut j: usize = 0;
        while j < members.len()
            invariant
                j <= members.len(),
                issues_view(out@) == self.team_issue_list(p, members@.take(j as int), u, factor),
            decreases members.len() - j,
        {
            assert(members@.take(j + 1).drop_last() =~= members@.take(j as int));
            let m = members[j];
            let mut involved: Vec<u128> = Vec::new();
            involved.push(m);
            let t = DrawIssueTarget::Team { uuid: u, involved_speakers: involved };
            assert(t@ == team_target(u, m));
            let cs = self.get_all_clashes_between_participants(p, m);
            let more = self.issues_for_exec(&cs, factor, &t);
            append_issues(&mut out, more);
            j += 1;
        }
        assert(members@.take(members.len() as int) =~= members@);
        out
    }

    fn both_teams_list_exec(
        &self,
        d: &DebateInfo,
        gov_members: &Vec<u128>,
        opp_members: &Vec<u128>,
        p: u128,
        factor: u32,
    ) -> (out: Vec<DrawIssue>)
        requires
            gov_members@ == self.members_of(d.government),
            opp_members@ == self.members_of(d.opposition),
        ensures
            issues_view(out@) == self.both_teams_list(d@, p, factor),
    {
        let gov = match d.government { Some(t) => t, None => 0 };
        let opp = match d.opposition { Some(t) => t, None => 0 };
        let mut out = coalesce_all(sort_issues(self.team_issue_list_exec(p, gov_members, gov, factor)));
        let opp_list = coalesce_all(sort_issues(self.team_issue_list_exec(p, opp_members, opp, factor)));
        append_issues(&mut out, opp_list);
        out
    }

    fn record_dual(res: &mut BallotEvaluationResult, l: &Vec<DrawIssue>, first: IssueHolder, gov: u128, t: &DrawIssueTarget)
        ensures
            final(res).view() == apply_events(old(res).view(), dual_events(issues_view(l@), holder_view(first), gov, t@)),
    {
        let ghost v0 = res.view();
        let ghost lv = issues_view(l@);
        let ghost mut acc: Seq<IssueEvent> = Seq::empty();
        let mut k: usize = 0;
        while k < l.len()
            invariant
                k <= l.len(),
                lv == issues_view(l@),
                acc == dual_events(lv.take(k as int), holder_view(first), gov, t@),
                res.view() == apply_events(v0, acc),
            decreases l.len() - k,
        {
            let x = &l[k];
            let x1 = x.duplicate();
            let x2 = DrawIssue { issue_type: x.issue_type, severity: x.severity, target: t.duplicate() };
            let side = if x.target.uuid() == gov { IssueHolder::Government } else { IssueHolder::Opposition };
            let ghost e1 = event(holder_view(first), x1@);
            let ghost e2 = event(holder_view(side), x2@);
            res.add(first, x1);
            proof {
                lemma_apply_push(v0, acc, e1);
                acc = acc.push(e1);
            }
            res.add(side, x2);
            proof {
                lemma_apply_push(v0, acc, e2);
                acc = acc.push(e2);
                assert(lv.take(k + 1).drop_last() =~= lv.take(k as int));
                assert(lv.take(k + 1).last() == lv[k as int]);
                assert(acc =~= dual_events(lv.take(k + 1), holder_view(first), gov, t@));
            }
            k += 1;
        }
        assert(lv.take(l.len() as int) =~= lv);
    }

    fn record_tagged(res: &mut BallotEvaluationResult, l: &Vec<DrawIssue>, h: IssueHolder)
        ensures
            final(res).view() == apply_events(old(res).view(), tagged(issues_view(l@), holder_view(h))),
    {
        let ghost v0 = res.view();
        let ghost lv = issues_view(l@);
        let ghost mut acc: Seq<IssueEvent> = Seq::empty();
        let mut k: usize = 0;
        while k < l.len()
            invariant
                k <= l.len(),
                lv == issues_view(l@),
                acc == tagged(lv.take(k as int), holder_view(h)),
                res.view() == apply_events(v0, acc),
            decreases l.len() - k,
        {
            let x1 = l[k].duplicate();
            let ghost e1 = event(holder_view(h), x1@);
            res.add(h, x1);
            proof {
                lemma_apply_push(v0, acc, e1);
                acc = acc.push(e1);
                assert(lv.take(k + 1).drop_last() =~= lv.take(k as int));
                assert(acc =~= tagged(lv.take(k + 1), holder_view(h)));
            }
            k += 1;
        }
        assert(lv.take(l.len() as int) =~= lv);
    }

    fn record_government(res: &mut BallotEvaluationResult, l: &Vec<DrawIssue>, g: u128, gov: u128)
        ensures
            final(res).view() == apply_events(old(res).view(), government_events(issues_view(l@), g, gov)),
    {
        let ghost v0 = res.view();
        let ghost lv = issues_view(l@);
        let ghost mut acc: Seq<IssueEvent> = Seq::empty();
        let mut k: usize = 0;
        while k < l.len()
            invariant
                k <= l.len(),
                lv == issues_view(l@),
                acc == government_events(lv.take(k as int), g, gov),
                res.view() == apply_events(v0, acc),
            decreases l.len() - k,
        {
            let x = &l[k];
            let x1 = x.duplicate();
            let mut involved: Vec<u128> = Vec::new();
            involved.push(g);
            let x2 = DrawIssue {
                issue_type: x.issue_type,
                severity: x.severity,
                target: DrawIssueTarget::Team { uuid: gov, involved_speakers: involved },
            };
            assert(x2.target@ == team_target(gov, g));
            let ghost e1 = event(Holder::Government, x1@);
            let ghost e2 = event(Holder::Opposition, x2@);
            res.add(IssueHolder::Government, x1);
            proof {
                lemma_apply_push(v0, acc, e1);
                acc = acc.push(e1);
            }
            res.add(IssueHolder::Opposition, x2);
            proof {
                lemma_apply_push(v0, acc, e2);
                acc = acc.push(e2);
                assert(lv.take(k + 1).drop_last() =~= lv.take(k as int));
                assert(lv.take(k + 1).last() == lv[k as int]);
                assert(acc =~= government_events(lv.take(k + 1), g, gov));
            }
            k += 1;
        }
        assert(lv.take(l.len() as int) =~= lv);
    }


    fn members_of_exec(&self, team: Option<u128>) -> (m: Vec<u128>)
        ensures
            m@ == self.members_of(team),
    {
        match team {
            Some(t) => match self.context.team_members.get(&t) {
                Some(ms) => crate::issues::copy_ids(ms),
                None => Vec::new(),
            },
            None => Vec::new(),
        }
    }

    fn record_adjudicator_teams(
        &self,
        res: &mut BallotEvaluationResult,
        d: &DebateInfo,
        ids: &Vec<u128>,
        gov_members: &Vec<u128>,
        opp_members: &Vec<u128>,
    )
        requires
            gov_members@ == self.members_of(d.government),
            opp_members@ == self.members_of(d.opposition),
        ensures
            final(res).view() == apply_events(old(res).view(), self.adjudicator_team_rows(d@, ids@, ids.len() as int)),
    {
        let ghost v0 = res.view();
        let ghost mut acc: Seq<IssueEvent> = Seq::empty();
        let gov = match d.government { Some(t) => t, None => 0 };
        let mut i: usize = 0;
        while i < ids.len()
            invariant
                i <= ids.len(),
                gov == id_or_nil(d.government),
                gov_members@ == self.members_of(d.government),
                opp_members@ == self.members_of(d.opposition),
                acc == self.adjudicator_team_rows(d@, ids@, i as int),
                res.view() == apply_events(v0, acc),
            decreases ids.len() - i,
        {
            let a = ids[i];
            let l = self.both_teams_list_exec(d, gov_members, opp_members, a, self.config.adj_team_clash_factor);
            let t = DrawIssueTarget::Adjudicator { uuid: a };
            let ghost before = acc;
            Self::record_dual(res, &l, IssueHolder::Adjudicator(a), gov, &t);
            proof {
                let es = dual_events(issues_view(l@), Holder::Adjudicator(a), gov, t@);
                lemma_apply_concat(v0, before, es);
                acc = before + es;
                assert(acc =~= self.adjudicator_team_rows(d@, ids@, i + 1));
            }
            i += 1;
        }
    }

    fn record_speaker_pairs(&self, res: &mut BallotEvaluationResult, sps: &Vec<u128>, sp: u128)
        ensures
            final(res).view() == apply_events(old(res).view(), self.speaker_pair_events(sps@, sp, sps.len() as int)),
    {
        let ghost v0 = res.view();
        let ghost mut acc: Seq<IssueEvent> = Seq::empty();
        let mut j: usize = 0;
        while j < sps.len()
            invariant
                j <= sps.len(),
                acc == self.speaker_pair_events(sps@, sp, j as int),
                res.view() == apply_events(v0, acc),
            decreases sps.len() - j,
        {
            let o = sps[j];
            if o != sp {
                let cs = self.get_all_clashes_between_participants(sp, o);
                let t = DrawIssueTarget::Speaker { uuid: o };
                let l = coalesce_all(sort_issues(self.issues_for_exec(&cs, self.config.speaker_speaker_clash_factor, &t)));
                let ghost before = acc;
                Self::record_tagged(res, &l, IssueHolder::NonAligned(sp));
                proof {
                    let es = tagged(issues_view(l@), Holder::NonAligned(sp));
                    lemma_apply_concat(v0, before, es);
                    acc = before + es;
                }
            }
            proof {
                assert(acc =~= self.speaker_pair_events(sps@, sp, j + 1));
            }
            j += 1;
        }
    }

    fn record_speakers(
        &self,
        res: &mut BallotEvaluationResult,
        d: &DebateInfo,
        sps: &Vec<u128>,
        gov_members: &Vec<u128>,
        opp_members: &Vec<u128>,
    )
        requires
            gov_members@ == self.members_of(d.government),
            opp_members@ == self.members_of(d.opposition),
        ensures
            final(res).view() == apply_events(old(res).view(), self.speaker_rows(d@, sps@, sps.len() as int)),
    {
        let ghost v0 = res.view();
        let ghost mut acc: Seq<IssueEvent> = Seq::empty();
        let gov = match d.government { Some(t) => t, None => 0 };
        let mut i: usize = 0;
        while i < sps.len()
            invariant
                i <= sps.len(),
                gov == id_or_nil(d.government),
                gov_members@ == self.members_of(d.government),
                opp_members@ == self.members_of(d.opposition),
                acc == self.speaker_rows(d@, sps@, i as int),
                res.view() == apply_events(v0, acc),
            decreases sps.len() - i,
        {
            let sp = sps[i];
            let l = self.both_teams_list_exec(d, gov_members, opp_members, sp, self.config.team_speaker_clash_factor);
            let t = DrawIssueTarget::Speaker { uuid: sp };
            let ghost before = acc;
            Self::record_dual(res, &l, IssueHolder::NonAligned(sp), gov, &t);
            let ghost es1 = dual_events(issues_view(l@), Holder::NonAligned(sp), gov, t@);
            proof {
                lemma_apply_concat(v0, before, es1);
            }
            self.record_speaker_pairs(res, sps, sp);
            proof {
                let es2 = self.speaker_pair_events(sps@, sp, sps.len() as int);
                lemma_apply_concat(v0, before + es1, es2);
                acc = before + es1 + es2;
                assert(acc =~= self.speaker_rows(d@, sps@, i + 1));
            }
            i += 1;
        }
    }

    fn record_team_pairs(&self, res: &mut BallotEvaluationResult, d: &DebateInfo, gov_members: &Vec<u128>, opp_members: &Vec<u128>)
        requires
            gov_members@ == self.members_of(d.government),
            opp_members@ == self.members_of(d.opposition),
        ensures
            final(res).view() == apply_events(old(res).view(), self.team_team_rows(d@, gov_members@, gov_members.len() as int)),
    {
        let ghost v0 = res.view();
        let ghost mut acc: Seq<IssueEvent> = Seq::empty();
        let gov = match d.government { Some(t) => t, None => 0 };
        let opp = match d.opposition { Some(t) => t, None => 0 };
        let mut i: usize = 0;
        while i < gov_members.len()
            invariant
                i <= gov_members.len(),
                gov == id_or_nil(d.government),
                opp == id_or_nil(d.opposition),
                gov_members@ == self.members_of(d.government),
                opp_members@ == self.members_of(d.opposition),
                acc == self.team_team_rows(d@, gov_members@, i as int),
                res.view() == apply_events(v0, acc),
            decreases gov_members.len() - i,
        {
            let g = gov_members[i];
            let l = coalesce_all(sort_issues(self.team_issue_list_exec(g, opp_members, opp, self.config.team_team_clash_factor)));
            let ghost before = acc;
            Self::record_government(res, &l, g, gov);
            proof {
                let es = government_events(issues_view(l@), g, gov);
                lemma_apply_concat(v0, before, es);
                acc = before + es;
                assert(acc =~= self.team_team_rows(d@, gov_members@, i + 1));
            }
            i += 1;
        }
    }

    /// Finds the issues of a debate: the clashes between its adjudicators, between
    /// adjudicators and non-aligned speakers, between adjudicators and team
    /// members, between non-aligned speakers and team members, among non-aligned
    /// speakers, and between the members of the two teams, each weighted by the
    /// factor of its kind and recorded for everyone it concerns.
    pub fn find_issues_in_debate(&self, ballot: &DebateInfo) -> (issues: BallotEvaluationResult)
        ensures
            issues.view() == apply_events(empty_evaluation(), self.debate_events(ballot@)),
    {
        let gov_member_ids = self.members_of_exec(ballot.government);
        let opp_member_ids = self.members_of_exec(ballot.opposition);
        let mut adjudicator_ids: Vec<u128> = Vec::new();
        match ballot.chair {
            Some(c) => {
                adjudicator_ids.push(c);
            },
            None => {},
        }
        let ghost chair_part = adjudicator_ids@;
        append_ids_u128(&mut adjudicator_ids, &ballot.wings);
        assert(adjudicator_ids@ =~= option_to_seq_u128(ballot.chair) + ballot.wings@);
        let mut issues = BallotEvaluationResult::new();
        let ghost v0 = issues.view();
        let ghost ids = adjudicator_ids@;
        let ghost sps = ballot.non_aligned_speakers@;
        let ghost e1 = self.adjudicator_rows(ids, ids.len() as int);
        let ghost e2 = self.adjudicator_speaker_rows(ids, sps, ids.len() as int);
        let ghost e3 = self.adjudicator_team_rows(ballot@, ids, ids.len() as int);
        let ghost e4 = self.speaker_rows(ballot@, sps, sps.len() as int);
        let ghost e5 = self.team_team_rows(ballot@, gov_member_ids@, gov_member_ids.len() as int);
        self.record_adjudicator_pairs(&mut issues, &adjudicator_ids);
        self.record_adjudicator_speakers(&mut issues, &adjudicator_ids, &ballot.non_aligned_speakers);
        proof {
            lemma_apply_concat(v0, e1, e2);
        }
        self.record_adjudicator_teams(&mut issues, ballot, &adjudicator_ids, &gov_member_ids, &opp_member_ids);
        proof {
            lemma_apply_concat(v0, e1 + e2, e3);
        }
        self.record_speakers(&mut issues, ballot, &ballot.non_aligned_speakers, &gov_member_ids, &opp_member_ids);
        proof {
            lemma_apply_concat(v0, e1 + e2 + e3, e4);
        }
        self.record_team_pairs(&mut issues, ballot, &gov_member_ids, &opp_member_ids);
        proof {
            lemma_apply_concat(v0, e1 + e2 + e3 + e4, e5);
            assert(e1 + e2 + e3 + e4 + e5 =~= self.debate_events(ballot@));
        }
        issues
    }

    /// Finds the issues of a draw ballot, as those of its debate.
    pub fn find_issues_in_ballot(&self, ballot: &DrawBallot) -> (issues: BallotEvaluationResult)
        ensures
            issues.view() == apply_events(empty_evaluation(), self.debate_events(draw_ballot_debate(*ballot))),
    {
        let d = DebateInfo::from_draw_ballot(ballot);
        self.find_issues_in_debate(&d)
    }

}

fn append_ids_u128(a: &mut Vec<u128>, b: &Vec<u128>)
    ensures
        final(a)@ == old(a)@ + b@,
{
    let mut i: usize = 0;
    while i < b.len()
        invariant
            i <= b.len(),
            a@ =~= old(a)@ + b@.take(i as int),
        decreases b.len() - i,
    {
        a.push(b[i]);
        i += 1;
    }
    assert(b@.take(b.len() as int) =~= b@);
}

} // verus!
