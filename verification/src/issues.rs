use vstd::prelude::*;

use crate::clashes::ClashType;

verus! {

/// Who an issue is about, seen from the participant or team that has it.
#[derive(Debug)]
pub enum DrawIssueTarget {
    Adjudicator { uuid: u128 },
    Speaker { uuid: u128 },
    Team { uuid: u128, involved_speakers: Vec<u128> },
}

/// A clash found in a debate, with the severity it carries there.
#[derive(Debug)]
pub struct DrawIssue {
    pub issue_type: ClashType,
    pub severity: u16,
    pub target: DrawIssueTarget,
}

/// The mathematical value of a [`DrawIssueTarget`].
pub enum TargetView {
    Adjudicator { uuid: u128 },
    Speaker { uuid: u128 },
    Team { uuid: u128, involved_speakers: Seq<u128> },
}

/// The mathematical value of a [`DrawIssue`].
pub struct IssueView {
    pub issue_type: ClashType,
    pub severity: u16,
    pub target: TargetView,
}

impl View for DrawIssueTarget {
    type V = TargetView;

    open spec fn view(&self) -> TargetView {
        match self {
            DrawIssueTarget::Adjudicator { uuid } => TargetView::Adjudicator { uuid: *uuid },
            DrawIssueTarget::Speaker { uuid } => TargetView::Speaker { uuid: *uuid },
            DrawIssueTarget::Team { uuid, involved_speakers } => TargetView::Team {
                uuid: *uuid,
                involved_speakers: involved_speakers@,
            },
        }
    }
}

impl View for DrawIssue {
    type V = IssueView;

    open spec fn view(&self) -> IssueView {
        IssueView { issue_type: self.issue_type, severity: self.severity, target: self.target@ }
    }
}

pub open spec fn issues_view(s: Seq<DrawIssue>) -> Seq<IssueView> {
    s.map_values(|i: DrawIssue| i@)
}

impl DrawIssueTarget {
    /// The id of the participant or team the target names.
    pub fn uuid(&self) -> (u: u128)
        ensures
            u == target_uuid(self@),
    {
        match self {
            DrawIssueTarget::Adjudicator { uuid } => *uuid,
            DrawIssueTarget::Speaker { uuid } => *uuid,
            DrawIssueTarget::Team { uuid, .. } => *uuid,
        }
    }

    pub fn duplicate(&self) -> (t: Self)
        ensures
            t@ == self@,
    {
        match self {
            DrawIssueTarget::Adjudicator { uuid } => DrawIssueTarget::Adjudicator { uuid: *uuid },
            DrawIssueTarget::Speaker { uuid } => DrawIssueTarget::Speaker { uuid: *uuid },
            DrawIssueTarget::Team { uuid, involved_speakers } => DrawIssueTarget::Team {
                uuid: *uuid,
                involved_speakers: copy_ids(involved_speakers),
            },
        }
    }
}

impl DrawIssue {
    pub fn duplicate(&self) -> (i: Self)
        ensures
            i@ == self@,
    {
        DrawIssue { issue_type: self.issue_type, severity: self.severity, target: self.target.duplicate() }
    }
}

pub fn copy_ids(v: &Vec<u128>) -> (out: Vec<u128>)
    ensures
        out@ == v@,
{
    let mut out: Vec<u128> = Vec::new();
    let mut i: usize = 0;
    while i < v.len()
        invariant
            i <= v.len(),
            out@ =~= v@.take(i as int),
        decreases v.len() - i,
    {
        out.push(v[i]);
        i += 1;
    }
    assert(v@.take(v.len() as int) =~= v@);
    out
}

pub open spec fn target_uuid(t: TargetView) -> u128 {
    match t {
        TargetView::Adjudicator { uuid } => uuid,
        TargetView::Speaker { uuid } => uuid,
        TargetView::Team { uuid, .. } => uuid,
    }
}

/// -1, 0 or 1 as `a` is below, equal to or above `b`.
pub open spec fn compare_ints(a: int, b: int) -> int {
    if a < b { -1 } else if a == b { 0 } else { 1 }
}

pub open spec fn compare_bools(a: bool, b: bool) -> int {
    compare_ints(if a { 1 } else { 0 }, if b { 1 } else { 0 })
}

/// Lexicographic comparison of two id lists, a prefix coming first.
pub open spec fn compare_id_lists(a: Seq<u128>, b: Seq<u128>) -> int
    decreases a.len(),
{
    if a.len() == 0 {
        if b.len() == 0 { 0 } else { -1 }
    } else if b.len() == 0 {
        1
    } else if a[0] != b[0] {
        compare_ints(a[0] as int, b[0] as int)
    } else {
        compare_id_lists(a.drop_first(), b.drop_first())
    }
}

pub open spec fn clash_rank(c: ClashType) -> int {
    match c {
        ClashType::SpeakersHaveMetAsNonAligned { .. } => 0,
        ClashType::SpeakersHaveMetAsTeamAndNonAligned { .. } => 1,
        ClashType::SpeakersHaveMetAsTeam { .. } => 2,
        ClashType::JudgeHasSeenSpeaker { .. } => 3,
        ClashType::JudgeHasSeenJudge { .. } => 4,
        ClashType::DeclaredClash { .. } => 5,
        ClashType::InstitutionalClash { .. } => 6,
        ClashType::SameTeamClash => 7,
    }
}

/// The order of clash types: by variant in declaration order, then by fields
/// in declaration order.
pub open spec fn compare_clashes(a: ClashType, b: ClashType) -> int {
    if clash_rank(a) != clash_rank(b) {
        compare_ints(clash_rank(a), clash_rank(b))
    } else {
        match (a, b) {
            (ClashType::SpeakersHaveMetAsNonAligned { round: r1 }, ClashType::SpeakersHaveMetAsNonAligned { round: r2 }) =>
                compare_ints(r1 as int, r2 as int),
            (ClashType::SpeakersHaveMetAsTeamAndNonAligned { round: r1 }, ClashType::SpeakersHaveMetAsTeamAndNonAligned { round: r2 }) =>
                compare_ints(r1 as int, r2 as int),
            (ClashType::SpeakersHaveMetAsTeam { round: r1 }, ClashType::SpeakersHaveMetAsTeam { round: r2 }) =>
                compare_ints(r1 as int, r2 as int),
            (
                ClashType::JudgeHasSeenSpeaker { round: r1, judge_was_chair: c1, speaker_was_in_team: t1 },
                ClashType::JudgeHasSeenSpeaker { round: r2, judge_was_chair: c2, speaker_was_in_team: t2 },
            ) => if r1 != r2 {
                compare_ints(r1 as int, r2 as int)
            } else if c1 != c2 {
                compare_bools(c1, c2)
            } else {
                compare_bools(t1, t2)
            },
            (ClashType::JudgeHasSeenJudge { round: r1 }, ClashType::JudgeHasSeenJudge { round: r2 }) =>
                compare_ints(r1 as int, r2 as int),
            (ClashType::DeclaredClash { severity: s1 }, ClashType::DeclaredClash { severity: s2 }) =>
                compare_ints(s1 as int, s2 as int),
            (
                ClashType::InstitutionalClash { severity: s1, institution_id: i1 },
                ClashType::InstitutionalClash { severity: s2, institution_id: i2 },
            ) => if s1 != s2 {
                compare_ints(s1 as int, s2 as int)
            } else {
                compare_ints(i1 as int, i2 as int)
            },
            _ => 0,
        }
    }
}

pub open spec fn target_rank(t: TargetView) -> int {
    match t {
        TargetView::Adjudicator { .. } => 0,
        TargetView::Speaker { .. } => 1,
        TargetView::Team { .. } => 2,
    }
}

/// The order of targets: by variant, then by id, then by the involved speakers.
pub open spec fn compare_targets(a: TargetView, b: TargetView) -> int {
    if target_rank(a) != target_rank(b) {
        compare_ints(target_rank(a), target_rank(b))
    } else if target_uuid(a) != target_uuid(b) {
        compare_ints(target_uuid(a) as int, target_uuid(b) as int)
    } else {
        match (a, b) {
            (TargetView::Team { involved_speakers: s1, .. }, TargetView::Team { involved_speakers: s2, .. }) =>
                compare_id_lists(s1, s2),
            _ => 0,
        }
    }
}

/// The order of issues: by type, then severity, then target.
pub open spec fn compare_issues(a: IssueView, b: IssueView) -> int {
    if compare_clashes(a.issue_type, b.issue_type) != 0 {
        compare_clashes(a.issue_type, b.issue_type)
    } else if a.severity != b.severity {
        compare_ints(a.severity as int, b.severity as int)
    } else {
        compare_targets(a.target, b.target)
    }
}

fn compare_ints_exec(a: u128, b: u128) -> (r: i8)
    ensures
        r == compare_ints(a as int, b as int),
{
    if a < b { -1 } else if a == b { 0 } else { 1 }
}

fn bool_rank(b: bool) -> (r: u128)
    ensures
        r == if b { 1int } else { 0int },
{
    if b { 1 } else { 0 }
}

fn compare_id_lists_exec(a: &Vec<u128>, b: &Vec<u128>) -> (r: i8)
    ensures
        r == compare_id_lists(a@, b@),
{
    let mut i: usize = 0;
    assert(a@.skip(0) =~= a@);
    assert(b@.skip(0) =~= b@);
    while i < a.len() && i < b.len()
        invariant
            i <= a.len(),
            i <= b.len(),
            compare_id_lists(a@, b@) == compare_id_lists(a@.skip(i as int), b@.skip(i as int)),
        decreases a.len() - i,
    {
        assert(a@.skip(i as int).drop_first() =~= a@.skip(i + 1));
        assert(b@.skip(i as int).drop_first() =~= b@.skip(i + 1));
        if a[i] != b[i] {
            return compare_ints_exec(a[i], b[i]);
        }
        i += 1;
    }
    if i < a.len() { 1 } else if i < b.len() { -1 } else { 0 }
}

fn clash_rank_exec(c: &ClashType) -> (r: u128)
    ensures
        r == clash_rank(*c),
{
    match c {
        ClashType::SpeakersHaveMetAsNonAligned { .. } => 0,
        ClashType::SpeakersHaveMetAsTeamAndNonAligned { .. } => 1,
        ClashType::SpeakersHaveMetAsTeam { .. } => 2,
        ClashType::JudgeHasSeenSpeaker { .. } => 3,
        ClashType::JudgeHasSeenJudge { .. } => 4,
        ClashType::DeclaredClash { .. } => 5,
        ClashType::InstitutionalClash { .. } => 6,
        ClashType::SameTeamClash => 7,
    }
}

fn compare_clashes_exec(a: &ClashType, b: &ClashType) -> (r: i8)
    ensures
        r == compare_clashes(*a, *b),
{
    let ra = clash_rank_exec(a);
    let rb = clash_rank_exec(b);
    if ra != rb {
        return compare_ints_exec(ra, rb);
    }
    match (a, b) {
        (ClashType::SpeakersHaveMetAsNonAligned { round: r1 }, ClashType::SpeakersHaveMetAsNonAligned { round: r2 }) =>
            compare_ints_exec(*r1, *r2),
        (ClashType::SpeakersHaveMetAsTeamAndNonAligned { round: r1 }, ClashType::SpeakersHaveMetAsTeamAndNonAligned { round: r2 }) =>
            compare_ints_exec(*r1, *r2),
        (ClashType::SpeakersHaveMetAsTeam { round: r1 }, ClashType::SpeakersHaveMetAsTeam { round: r2 }) =>
            compare_ints_exec(*r1, *r2),
        (
            ClashType::JudgeHasSeenSpeaker { round: r1, judge_was_chair: c1, speaker_was_in_team: t1 },
            ClashType::JudgeHasSeenSpeaker { round: r2, judge_was_chair: c2, speaker_was_in_team: t2 },
        ) => if *r1 != *r2 {
            compare_ints_exec(*r1, *r2)
        } else if *c1 != *c2 {
            compare_ints_exec(bool_rank(*c1), bool_rank(*c2))
        } else {
            compare_ints_exec(bool_rank(*t1), bool_rank(*t2))
        },
        (ClashType::JudgeHasSeenJudge { round: r1 }, ClashType::JudgeHasSeenJudge { round: r2 }) =>
            compare_ints_exec(*r1, *r2),
        (ClashType::DeclaredClash { severity: s1 }, ClashType::DeclaredClash { severity: s2 }) =>
            compare_ints_exec(*s1 as u128, *s2 as u128),
        (
            ClashType::InstitutionalClash { severity: s1, institution_id: i1 },
            ClashType::InstitutionalClash { severity: s2, institution_id: i2 },
        ) => if *s1 != *s2 {
            compare_ints_exec(*s1 as u128, *s2 as u128)
        } else {
            compare_ints_exec(*i1, *i2)
        },
        _ => 0,
    }
}

fn target_rank_exec(t: &DrawIssueTarget) -> (r: u128)
    ensures
        r == target_rank(t@),
{
    match t {
        DrawIssueTarget::Adjudicator { .. } => 0,
        DrawIssueTarget::Speaker { .. } => 1,
        DrawIssueTarget::Team { .. } => 2,
    }
}

fn compare_targets_exec(a: &DrawIssueTarget, b: &DrawIssueTarget) -> (r: i8)
    ensures
        r == compare_targets(a@, b@),
{
    let ra = target_rank_exec(a);
    let rb = target_rank_exec(b);
    if ra != rb {
        return compare_ints_exec(ra, rb);
    }
    let ua = a.uuid();
    let ub = b.uuid();
    if ua != ub {
        return compare_ints_exec(ua, ub);
    }
    match (a, b) {
        (DrawIssueTarget::Team { involved_speakers: s1, .. }, DrawIssueTarget::Team { involved_speakers: s2, .. }) =>
            compare_id_lists_exec(s1, s2),
        _ => 0,
    }
}

/// Compares two issues in the order of [`compare_issues`].
pub fn compare_issues_exec(a: &DrawIssue, b: &DrawIssue) -> (r: i8)
    ensures
        r == compare_issues(a@, b@),
{
    let c = compare_clashes_exec(&a.issue_type, &b.issue_type);
    if c != 0 {
        c
    } else if a.severity != b.severity {
        compare_ints_exec(a.severity as u128, b.severity as u128)
    } else {
        compare_targets_exec(&a.target, &b.target)
    }
}

/// The position before the first element of `s` that `x` comes before.
pub open spec fn insert_position(s: Seq<IssueView>, x: IssueView) -> nat
    decreases s.len(),
{
    if s.len() == 0 {
        0
    } else if compare_issues(x, s[0]) < 0 {
        0
    } else {
        1 + insert_position(s.drop_first(), x)
    }
}

pub open spec fn insert_sorted(s: Seq<IssueView>, x: IssueView) -> Seq<IssueView> {
    s.insert(insert_position(s, x) as int, x)
}

/// `s` sorted by [`compare_issues`], by inserting each element in turn.
pub open spec fn sort_issues_spec(s: Seq<IssueView>) -> Seq<IssueView>
    decreases s.len(),
{
    if s.len() == 0 {
        Seq::empty()
    } else {
        insert_sorted(sort_issues_spec(s.drop_last()), s.last())
    }
}

proof fn lemma_insert_position_bound(s: Seq<IssueView>, x: IssueView)
    ensures
        insert_position(s, x) <= s.len(),
    decreases s.len(),
{
    if s.len() > 0 {
        lemma_insert_position_bound(s.drop_first(), x);
    }
}

proof fn lemma_sort_len(s: Seq<IssueView>)
    ensures
        sort_issues_spec(s).len() == s.len(),
    decreases s.len(),
{
    if s.len() > 0 {
        lemma_sort_len(s.drop_last());
        lemma_insert_position_bound(sort_issues_spec(s.drop_last()), s.last());
    }
}

/// The issues in reverse order, so that popping gives them in their order.
fn into_stack(v: Vec<DrawIssue>) -> (stack: Vec<DrawIssue>)
    ensures
        issues_view(stack@).reverse() == issues_view(v@),
        stack.len() == v.len(),
{
    let mut rest = v;
    let ghost all = issues_view(rest@);
    let mut pending: Vec<DrawIssue> = Vec::new();
    while rest.len() > 0
        invariant
            issues_view(rest@) + issues_view(pending@).reverse() == all,
            rest.len() + pending.len() == all.len(),
        decreases rest.len(),
    {
        let ghost before_rest = rest@;
        let ghost before_pending = pending@;
        let x = rest.pop().unwrap();
        pending.push(x);
        assert(issues_view(rest@) =~= issues_view(before_rest).drop_last());
        assert(issues_view(pending@).reverse() =~= seq![x@] + issues_view(before_pending).reverse());
        assert(issues_view(before_rest) =~= issues_view(rest@).push(x@));
    }
    assert(issues_view(rest@) =~= Seq::<IssueView>::empty());
    assert(issues_view(pending@).reverse() =~= all);
    pending
}

/// Sorts the issues by [`compare_issues`].
pub fn sort_issues(issues: Vec<DrawIssue>) -> (sorted: Vec<DrawIssue>)
    ensures
        issues_view(sorted@) == sort_issues_spec(issues_view(issues@)),
{
    let mut sorted: Vec<DrawIssue> = Vec::new();
    let rest = issues;
    let ghost all = issues_view(rest@);
    let mut taken: usize = 0;
    let n = rest.len();
    let mut pending = into_stack(rest);
    assert(all.take(0) =~= Seq::<IssueView>::empty());
    while pending.len() > 0
        invariant
            taken + pending.len() == all.len(),
            all.len() == n,
            issues_view(pending@).reverse() =~= all.skip(taken as int),
            issues_view(sorted@) == sort_issues_spec(all.take(taken as int)),
        decreases pending.len(),
    {
        let ghost before_pending = pending@;
        let x = pending.pop().unwrap();
        proof {
            assert(issues_view(before_pending).reverse()[0] == x@);
            assert(all.skip(taken as int)[0] == all[taken as int]);
            assert(all.take(taken + 1).drop_last() =~= all.take(taken as int));
            let bv = issues_view(before_pending);
            assert(issues_view(pending@) =~= bv.drop_last());
            assert(bv.drop_last().reverse() =~= bv.reverse().drop_first());
            assert(all.skip(taken as int).drop_first() =~= all.skip(taken + 1));
            assert(issues_view(pending@).reverse() =~= all.skip(taken + 1));
        }
        let ghost sv = issues_view(sorted@);
        let mut p: usize = 0;
        assert(sv.skip(0) =~= sv);
        while p < sorted.len() && compare_issues_exec(&x, &sorted[p]) >= 0
            invariant
                p <= sorted.len(),
                sv == issues_view(sorted@),
                insert_position(sv, x@) == p + insert_position(sv.skip(p as int), x@),
            decreases sorted.len() - p,
        {
            assert(sv.skip(p as int).drop_first() =~= sv.skip(p + 1));
            p += 1;
        }
        proof {
            if p < sorted.len() {
                assert(sv.skip(p as int)[0] == sorted@[p as int]@);
            }
            assert(insert_position(sv, x@) == p);
        }
        sorted.insert(p, x);
        assert(issues_view(sorted@) =~= sv.insert(p as int, x@));
        taken += 1;
    }
    assert(all.take(all.len() as int) =~= all);
    sorted
}

pub open spec fn wrapping_add_u16(a: u16, b: u16) -> u16 {
    ((a + b) % 65536) as u16
}

pub open spec fn u16_larger(a: u16, b: u16) -> u16 {
    if a >= b { a } else { b }
}

/// When two neighbouring issues are one issue with several speakers: repeated
/// judge-has-seen-speaker issues of one round about one team (when the first
/// was about a speaker in a team), with their severities added; and
/// institutional clashes through one institution about one team, with the
/// larger severities. The involved speakers are joined.
pub open spec fn merge_issues(prev: IssueView, next: IssueView) -> Option<IssueView> {
    match (prev.issue_type, next.issue_type) {
        (
            ClashType::JudgeHasSeenSpeaker { round: r1, speaker_was_in_team: t1, .. },
            ClashType::JudgeHasSeenSpeaker { round: r2, .. },
        ) if r1 == r2 && t1 => match (prev.target, next.target) {
            (TargetView::Team { uuid: u1, involved_speakers: s1 }, TargetView::Team { uuid: u2, involved_speakers: s2 }) =>
                if u1 == u2 {
                    Some(IssueView {
                        issue_type: prev.issue_type,
                        severity: wrapping_add_u16(prev.severity, next.severity),
                        target: TargetView::Team { uuid: u1, involved_speakers: s1 + s2 },
                    })
                } else {
                    None
                },
            _ => None,
        },
        (
            ClashType::InstitutionalClash { severity: c1, institution_id: i1 },
            ClashType::InstitutionalClash { severity: c2, institution_id: i2 },
        ) if i1 == i2 => match (prev.target, next.target) {
            (TargetView::Team { uuid: u1, involved_speakers: s1 }, TargetView::Team { uuid: u2, involved_speakers: s2 }) =>
                if u1 == u2 {
                    Some(IssueView {
                        issue_type: ClashType::InstitutionalClash { severity: u16_larger(c1, c2), institution_id: i1 },
                        severity: u16_larger(prev.severity, next.severity),
                        target: TargetView::Team { uuid: u1, involved_speakers: s1 + s2 },
                    })
                } else {
                    None
                },
            _ => None,
        },
        _ => None,
    }
}

/// Merges each issue into the one before it where [`merge_issues`] allows,
/// from left to right.
pub open spec fn coalesce_issues_spec(s: Seq<IssueView>) -> Seq<IssueView>
    decreases s.len(),
{
    if s.len() == 0 {
        Seq::empty()
    } else {
        let r = coalesce_issues_spec(s.drop_last());
        if r.len() > 0 && merge_issues(r.last(), s.last()) is Some {
            r.drop_last().push(merge_issues(r.last(), s.last())->0)
        } else {
            r.push(s.last())
        }
    }
}

fn append_ids(a: &mut Vec<u128>, b: Vec<u128>)
    ensures
        final(a)@ == old(a)@ + b@,
{
    let mut i: usize = 0;
    while i < b.len()
        invariant
            i <= b.len(),
            a@ =~= old(a)@ + b@.take(i as int),
        decreases b.len() - i,
    {
        a.push(b[i]);
        i += 1;
    }
    assert(b@.take(b.len() as int) =~= b@);
}

/// Merges two neighbouring issues where that makes one issue of them, or hands
/// both back unchanged.
pub fn coalesce_issues(prev: DrawIssue, next: DrawIssue) -> (r: Result<DrawIssue, (DrawIssue, DrawIssue)>)
    ensures
        match r {
            Ok(m) => merge_issues(prev@, next@) == Some(m@),
            Err((p, n)) => merge_issues(prev@, next@) is None && p@ == prev@ && n@ == next@,
        },
{
    let judge_case = match (&prev.issue_type, &next.issue_type) {
        (
            ClashType::JudgeHasSeenSpeaker { round: r1, speaker_was_in_team: t1, .. },
            ClashType::JudgeHasSeenSpeaker { round: r2, .. },
        ) => *r1 == *r2 && *t1,
        _ => false,
    };
    let inst_case = match (&prev.issue_type, &next.issue_type) {
        (
            ClashType::InstitutionalClash { institution_id: i1, .. },
            ClashType::InstitutionalClash { institution_id: i2, .. },
        ) => *i1 == *i2,
        _ => false,
    };
    if !judge_case && !inst_case {
        return Err((prev, next));
    }
    let same_team = match (&prev.target, &next.target) {
        (DrawIssueTarget::Team { uuid: u1, .. }, DrawIssueTarget::Team { uuid: u2, .. }) => *u1 == *u2,
        _ => false,
    };
    if !same_team {
        return Err((prev, next));
    }
    let DrawIssue { issue_type: prev_type, severity: prev_severity, target: prev_target } = prev;
    let DrawIssue { issue_type: next_type, severity: next_severity, target: next_target } = next;
    match (prev_target, next_target) {
        (DrawIssueTarget::Team { uuid, involved_speakers: s1 }, DrawIssueTarget::Team { involved_speakers: s2, .. }) => {
            let mut speakers = s1;
            append_ids(&mut speakers, s2);
            if judge_case {
                Ok(DrawIssue {
                    issue_type: prev_type,
                    severity: prev_severity.wrapping_add(next_severity),
                    target: DrawIssueTarget::Team { uuid, involved_speakers: speakers },
                })
            } else {
                let (c1, c2, inst) = match (prev_type, next_type) {
                    (
                        ClashType::InstitutionalClash { severity: c1, institution_id: i1 },
                        ClashType::InstitutionalClash { severity: c2, .. },
                    ) => (c1, c2, i1),
                    _ => (0, 0, 0),
                };
                Ok(DrawIssue {
                    issue_type: ClashType::InstitutionalClash {
                        severity: if c1 >= c2 { c1 } else { c2 },
                        institution_id: inst,
                    },
                    severity: if prev_severity >= next_severity { prev_severity } else { next_severity },
                    target: DrawIssueTarget::Team { uuid, involved_speakers: speakers },
                })
            }
        },
        _ => {
            // Both targets are teams, as checked above.
            Err((
                DrawIssue { issue_type: prev_type, severity: prev_severity, target: DrawIssueTarget::Speaker { uuid: 0 } },
                DrawIssue { issue_type: next_type, severity: next_severity, target: DrawIssueTarget::Speaker { uuid: 0 } },
            ))
        },
    }
}

/// Merges neighbouring issues with [`coalesce_issues`], from left to right.
pub fn coalesce_all(issues: Vec<DrawIssue>) -> (out: Vec<DrawIssue>)
    ensures
        issues_view(out@) == coalesce_issues_spec(issues_view(issues@)),
{
    let ghost all = issues_view(issues@);
    let n = issues.len();
    let mut pending = into_stack(issues);
    let mut out: Vec<DrawIssue> = Vec::new();
    let mut taken: usize = 0;
    assert(all.take(0) =~= Seq::<IssueView>::empty());
    while pending.len() > 0
        invariant
            taken + pending.len() == all.len(),
            all.len() == n,
            issues_view(pending@).reverse() =~= all.skip(taken as int),
            issues_view(out@) == coalesce_issues_spec(all.take(taken as int)),
        decreases pending.len(),
    {
        let ghost before_pending = pending@;
        let next = pending.pop().unwrap();
        proof {
            assert(issues_view(before_pending).reverse()[0] == next@);
            assert(all.skip(taken as int)[0] == all[taken as int]);
            assert(all.take(taken + 1).drop_last() =~= all.take(taken as int));
            let bv = issues_view(before_pending);
            assert(issues_view(pending@) =~= bv.drop_last());
            assert(bv.drop_last().reverse() =~= bv.reverse().drop_first());
            assert(all.skip(taken as int).drop_first() =~= all.skip(taken + 1));
        }
        let ghost ov = issues_view(out@);
        if out.len() > 0 {
            let last = out.pop().unwrap();
            assert(issues_view(out@) =~= ov.drop_last());
            match coalesce_issues(last, next) {
                Ok(m) => {
                    out.push(m);
                },
                Err((l, x)) => {
                    out.push(l);
                    out.push(x);
                },
            }
        } else {
            out.push(next);
        }
        assert(issues_view(out@) =~= coalesce_issues_spec(all.take(taken + 1)));
        taken += 1;
    }
    assert(all.take(all.len() as int) =~= all);
    out
}

} // verus!
