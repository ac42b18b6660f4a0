use vstd::prelude::*;

use crate::breaks::{
    BreakConfig, KoDebate, MakeBreakError, break_outcome, excluding, first_n, keeping, key_insert_position,
    ko_break_spec, ko_collect, members_of, members_of_teams, sort_by_position, tim_break_spec, winners_fit,
};
use crate::clashes::{
    ClashType, DrawEvaluationContext, HistoryEntry, HistoryRole, institution_severity, institutional_clashes,
    role_pair_clash, round_clash, rounds_clashes,
};
use crate::participants::ParticipantInstitution;
use crate::datastructures::SpeechRole;
use crate::history::record_all;
use crate::eligibility::{
    EligibilityConfig, TeamEligibilityMode, TournamentEligibleBreakCategory, adjudicator_ids, adjudicator_restriction_upto,
    category_teams, eligible_adjudicators_spec, eligible_speakers_spec, eligible_teams_spec, member_count,
    qualified_member_count, restricts_adjudicators, restricts_speakers, restricts_teams, speaker_ids,
    speaker_restriction_upto, team_ids, team_restriction_upto,
};
use crate::participants::{Participant, ParticipantRole, is_member_of};
use crate::upload::{DataView, NewClash, NewInstitution, NewParticipant, lookup_name, missing_names, saves_participants};
use crate::datastructures::{
    AdjudicatorInfo, DebateView, RoundView, Speech, after_first, ballot_speeches, chair_seq, non_aligned_speakers_of,
};
use crate::evaluation::{DrawEvaluator, scaled_severity};
use crate::issues::TargetView;
use crate::feedback::{FeedbackFormVisibility, no_visibility, union_spec};
use crate::flow_optimization::chair_cost;
use crate::flow_optimization::{
    AdjudicatorPosition, AllocationView, allocation_valid, apply_chair_flow, apply_chair_flows, apply_wing_flow,
    apply_wing_flows, chair_graph, debate_position, initial_position, last_wing_index, min_cost_flow_paths,
    position_in_round, wing_pass,
};
use crate::draw_updates::{left_panel, scores_kept};
use crate::tournament_context::pair_severity;
use crate::sync::{ConnectivityStatusKind, SyncAction, SyncEvent, SyncFailure, SyncState, sync_transition};
use crate::preliminary::{bucket_of, bucket_with_role};
use crate::random::is_index_permutation;
use crate::draw_updates::TournamentDebate;
use crate::observing::debate_changes;
use crate::tab_draw::{
    TeamFoldMethod, TeamPair, balanced_power_pairs_spec, center_pair_spec, half_random_pairs_spec,
    is_permutation_of, is_team_fold_of, make_pair, outer_half_len, power_pairs_spec, reverse_fold_spec,
};

verus! {

broadcast use vstd::seq_lib::group_to_multiset_ensures;

/// The teams of the pairs, government before opposition, pair by pair.
pub open spec fn pair_members(pairs: Seq<TeamPair>) -> Seq<u128>
    decreases pairs.len(),
{
    if pairs.len() == 0 {
        Seq::empty()
    } else {
        pair_members(pairs.drop_last()) + seq![pairs.last().government_id, pairs.last().opposition_id]
    }
}

proof fn lemma_pair_members_concat(a: Seq<TeamPair>, b: Seq<TeamPair>)
    ensures
        pair_members(a + b) == pair_members(a) + pair_members(b),
    decreases b.len(),
{
    if b.len() == 0 {
        assert(a + b =~= a);
        assert(pair_members(a) + pair_members(b) =~= pair_members(a));
    } else {
        lemma_pair_members_concat(a, b.drop_last());
        assert((a + b).drop_last() =~= a + b.drop_last());
        assert((a + b).last() == b.last());
        assert(pair_members(a + b) =~= pair_members(a) + pair_members(b));
    }
}

proof fn lemma_power_pairs_members(s: Seq<u128>)
    requires
        s.len() % 2 == 0,
    ensures
        pair_members(power_pairs_spec(s)) == s,
    decreases s.len(),
{
    if s.len() > 0 {
        let t = s.take(s.len() - 2);
        lemma_power_pairs_members(t);
        let p = power_pairs_spec(s);
        assert(p.drop_last() =~= power_pairs_spec(t));
        assert(p.last() == make_pair(s[s.len() - 2], s[s.len() - 1]));
        assert(s =~= t + seq![s[s.len() - 2], s[s.len() - 1]]);
    } else {
        assert(power_pairs_spec(s) =~= Seq::<TeamPair>::empty());
    }
}

proof fn lemma_reverse_fold_members(s: Seq<u128>)
    requires
        s.len() % 2 == 0,
    ensures
        pair_members(reverse_fold_spec(s)).to_multiset() == s.to_multiset(),
    decreases s.len(),
{
    if s.len() > 0 {
        let n = s.len() as int;
        let mid = s.subrange(1, n - 1);
        lemma_reverse_fold_members(mid);
        let first = seq![make_pair(s[0], s[n - 1])];
        assert(reverse_fold_spec(s) =~= first + reverse_fold_spec(mid));
        lemma_pair_members_concat(first, reverse_fold_spec(mid));
        assert(pair_members(first) =~= seq![s[0], s[n - 1]]) by {
            assert(first.drop_last() =~= Seq::<TeamPair>::empty());
            assert(pair_members(first.drop_last()) =~= Seq::<u128>::empty());
            assert(first.last() == make_pair(s[0], s[n - 1]));
        }
        assert(s =~= seq![s[0]] + mid + seq![s[n - 1]]);
        vstd::seq_lib::lemma_multiset_commutative(seq![s[0], s[n - 1]], pair_members(reverse_fold_spec(mid)));
        vstd::seq_lib::lemma_multiset_commutative(seq![s[0]] + mid, seq![s[n - 1]]);
        vstd::seq_lib::lemma_multiset_commutative(seq![s[0]], mid);
        vstd::seq_lib::lemma_multiset_commutative(seq![s[0]], seq![s[n - 1]]);
        assert(seq![s[0], s[n - 1]] =~= seq![s[0]] + seq![s[n - 1]]);
    } else {
        assert(reverse_fold_spec(s) =~= Seq::<TeamPair>::empty());
    }
}

proof fn lemma_split_three(s: Seq<u128>, h: int)
    requires
        0 <= h,
        2 * h <= s.len(),
    ensures
        s.to_multiset() == s.take(h).to_multiset().add(s.subrange(h, s.len() - h).to_multiset()).add(
            s.skip(s.len() - h).to_multiset(),
        ),
{
    let n = s.len() as int;
    assert(s =~= s.take(h) + s.subrange(h, n - h) + s.skip(n - h));
    vstd::seq_lib::lemma_multiset_commutative(s.take(h) + s.subrange(h, n - h), s.skip(n - h));
    vstd::seq_lib::lemma_multiset_commutative(s.take(h), s.subrange(h, n - h));
}

proof fn lemma_center_members(s: Seq<u128>)
    requires
        s.len() % 2 == 0,
    ensures
        pair_members(center_pair_spec(s)) == s.subrange(
            outer_half_len(s.len()) as int,
            s.len() - outer_half_len(s.len()),
        ),
{
    let h = outer_half_len(s.len()) as int;
    if s.len() % 4 != 0 {
        let c = center_pair_spec(s);
        assert(c.drop_last() =~= Seq::<TeamPair>::empty());
        assert(pair_members(c.drop_last()) =~= Seq::<u128>::empty());
        assert(s.len() % 4 == 2);
        assert(h == s.len() / 2 - 1);
        assert(c.last() == make_pair(s[h], s[h + 1]));
        assert(pair_members(c) =~= seq![s[h], s[h + 1]]);
        assert(pair_members(c) =~= s.subrange(h, s.len() - h));
    } else {
        assert(pair_members(center_pair_spec(s)) =~= s.subrange(h, s.len() - h));
    }
}

/// A fold of an even number of teams, by any method and with any outcome of
/// its random choices, puts every team into exactly one pair.
pub proof fn law_even_fold_uses_each_team_once(items: Seq<u128>, method: TeamFoldMethod, pairs: Seq<TeamPair>)
    requires
        items.len() % 2 == 0,
        is_team_fold_of(pairs, items, method),
    ensures
        pair_members(pairs).to_multiset() == items.to_multiset(),
{
    let n = items.len() as int;
    let h = outer_half_len(items.len()) as int;
    match method {
        TeamFoldMethod::PowerPaired => {
            lemma_power_pairs_members(items);
        },
        TeamFoldMethod::InversePowerPaired => {
            lemma_reverse_fold_members(items);
        },
        TeamFoldMethod::Random => {
            let order = choose|order: Seq<u128>| is_permutation_of(order, items) && pairs == #[trigger] power_pairs_spec(order);
            lemma_power_pairs_members(order);
        },
        TeamFoldMethod::BalancedPowerPaired => {
            let up = items.take(h);
            let low = items.skip(n - h);
            let center = center_pair_spec(items);
            lemma_reverse_fold_members(up);
            lemma_reverse_fold_members(low);
            lemma_center_members(items);
            lemma_pair_members_concat(reverse_fold_spec(up), center);
            lemma_pair_members_concat(reverse_fold_spec(up) + center, reverse_fold_spec(low));
            lemma_split_three(items, h);
            let a = pair_members(reverse_fold_spec(up));
            let b = pair_members(center);
            let c = pair_members(reverse_fold_spec(low));
            vstd::seq_lib::lemma_multiset_commutative(a + b, c);
            vstd::seq_lib::lemma_multiset_commutative(a, b);
        },
        TeamFoldMethod::HalfRandom => {
            let (upper, lower) = choose|upper: Seq<u128>, lower: Seq<u128>|
                is_permutation_of(upper, items.take(h)) && is_permutation_of(lower, items.skip(n - h)) && pairs
                    == #[trigger] half_random_pairs_spec(items, upper, lower);
            let center = center_pair_spec(items);
            lemma_power_pairs_members(upper);
            lemma_power_pairs_members(lower);
            lemma_center_members(items);
            lemma_pair_members_concat(power_pairs_spec(upper), center);
            lemma_pair_members_concat(power_pairs_spec(upper) + center, power_pairs_spec(lower));
            lemma_split_three(items, h);
            vstd::seq_lib::lemma_multiset_commutative(upper + pair_members(center), lower);
            vstd::seq_lib::lemma_multiset_commutative(upper, pair_members(center));
        },
    }
}

/// Whether none of the speakers is a member of one of the teams.
pub open spec fn outside_teams(speakers: Seq<u128>, tm: Map<u128, Vec<u128>>, teams: Seq<u128>) -> bool {
    forall|i: int| 0 <= i < speakers.len() ==> !members_of_teams(tm, teams).contains(#[trigger] speakers[i])
}

proof fn lemma_excluding(s: Seq<u128>, excl: Seq<u128>)
    ensures
        forall|i: int| 0 <= i < excluding(s, excl).len() ==> !excl.contains(#[trigger] excluding(s, excl)[i])
            && s.contains(excluding(s, excl)[i]),
    decreases s.len(),
{
    if s.len() > 0 {
        lemma_excluding(s.drop_last(), excl);
        let r = excluding(s, excl);
        let rest = excluding(s.drop_last(), excl);
        assert forall|i: int| 0 <= i < r.len() implies !excl.contains(#[trigger] r[i]) && s.contains(r[i]) by {
            if i < rest.len() {
                assert(r[i] == rest[i]);
                let j = choose|j: int| 0 <= j < s.drop_last().len() && s.drop_last()[j] == rest[i];
                assert(s[j] == rest[i]);
            } else {
                assert(r[i] == s.last());
                assert(s[s.len() - 1] == s.last());
            }
        }
    }
}

proof fn lemma_keeping(s: Seq<u128>, set: Set<u128>)
    ensures
        forall|i: int| 0 <= i < keeping(s, set).len() ==> set.contains(#[trigger] keeping(s, set)[i])
            && s.contains(keeping(s, set)[i]),
    decreases s.len(),
{
    if s.len() > 0 {
        lemma_keeping(s.drop_last(), set);
        let r = keeping(s, set);
        let rest = keeping(s.drop_last(), set);
        assert forall|i: int| 0 <= i < r.len() implies set.contains(#[trigger] r[i]) && s.contains(r[i]) by {
            if i < rest.len() {
                assert(r[i] == rest[i]);
                let j = choose|j: int| 0 <= j < s.drop_last().len() && s.drop_last()[j] == rest[i];
                assert(s[j] == rest[i]);
            } else {
                assert(r[i] == s.last());
                assert(s[s.len() - 1] == s.last());
            }
        }
    }
}

proof fn lemma_first_n(s: Seq<u128>, n: int)
    requires
        0 <= n,
    ensures
        first_n(s, n).len() <= s.len(),
        forall|i: int| 0 <= i < first_n(s, n).len() ==> #[trigger] first_n(s, n)[i] == s[i],
{
}

proof fn lemma_members_contains(tm: Map<u128, Vec<u128>>, teams: Seq<u128>, x: u128)
    ensures
        members_of_teams(tm, teams).contains(x) <==> exists|i: int| 0 <= i < teams.len() && #[trigger] members_of(tm, teams[i]).contains(x),
    decreases teams.len(),
{
    if teams.len() > 0 {
        let rest = teams.drop_last();
        lemma_members_contains(tm, rest, x);
        let a = members_of_teams(tm, rest);
        let b = members_of(tm, teams.last());
        if (a + b).contains(x) {
            let k = choose|k: int| 0 <= k < (a + b).len() && (a + b)[k] == x;
            if k < a.len() {
                assert(a[k] == x);
                let i = choose|i: int| 0 <= i < rest.len() && #[trigger] members_of(tm, rest[i]).contains(x);
                assert(teams[i] == rest[i]);
            } else {
                assert(b[k - a.len()] == x);
                assert(members_of(tm, teams[teams.len() - 1]).contains(x));
            }
        }
        if exists|i: int| 0 <= i < teams.len() && #[trigger] members_of(tm, teams[i]).contains(x) {
            let i = choose|i: int| 0 <= i < teams.len() && #[trigger] members_of(tm, teams[i]).contains(x);
            if i < rest.len() {
                assert(rest[i] == teams[i]);
                let k = choose|k: int| 0 <= k < a.len() && a[k] == x;
                assert((a + b)[k] == x);
            } else {
                let k = choose|k: int| 0 <= k < b.len() && b[k] == x;
                assert((a + b)[a.len() + k] == x);
            }
        }
    }
}

proof fn lemma_sort_contains(s: Seq<u128>, r: Seq<u128>)
    ensures
        forall|t: u128| #[trigger] sort_by_position(s, r).contains(t) <==> s.contains(t),
    decreases s.len(),
{
    if s.len() > 0 {
        let sorted = sort_by_position(s.drop_last(), r);
        lemma_sort_contains(s.drop_last(), r);
        lemma_key_insert_position_le(sorted, s.last(), r);
        let p = key_insert_position(sorted, s.last(), r) as int;
        let out = sorted.insert(p, s.last());
        assert forall|t: u128| #[trigger] out.contains(t) <==> s.contains(t) by {
            if out.contains(t) {
                let k = choose|k: int| 0 <= k < out.len() && out[k] == t;
                if k < p {
                    assert(sorted[k] == t);
                    assert(sorted.contains(t));
                    assert(s.drop_last().contains(t));
                    let j = choose|j: int| 0 <= j < s.drop_last().len() && s.drop_last()[j] == t;
                    assert(s[j] == t);
                } else if k == p {
                    assert(s[s.len() - 1] == t);
                } else {
                    assert(sorted[k - 1] == t);
                    assert(sorted.contains(t));
                    assert(s.drop_last().contains(t));
                    let j = choose|j: int| 0 <= j < s.drop_last().len() && s.drop_last()[j] == t;
                    assert(s[j] == t);
                }
            }
            if s.contains(t) {
                let j = choose|j: int| 0 <= j < s.len() && s[j] == t;
                if j == s.len() - 1 {
                    assert(out[p] == t);
                } else {
                    assert(s.drop_last()[j] == t);
                    assert(sorted.contains(t));
                    let k = choose|k: int| 0 <= k < sorted.len() && sorted[k] == t;
                    if k < p {
                        assert(out[k] == t);
                    } else {
                        assert(out[k + 1] == t);
                    }
                }
            }
        }
    }
}

proof fn lemma_key_insert_position_le(s: Seq<u128>, x: u128, r: Seq<u128>)
    ensures
        key_insert_position(s, x, r) <= s.len(),
    decreases s.len(),
{
    if s.len() > 0 {
        lemma_key_insert_position_le(s.drop_first(), x, r);
    }
}

proof fn lemma_ko_members(ds: Seq<KoDebate>, ws: Seq<SpeechRole>, tm: Map<u128, Vec<u128>>)
    ensures
        ko_collect(ds, ws, tm) matches Ok((teams, best, members)) ==> members == members_of_teams(tm, teams),
    decreases ds.len(),
{
    if ds.len() > 0 {
        lemma_ko_members(ds.drop_last(), ws, tm);
        if let Ok((teams, best, members)) = ko_collect(ds, ws, tm) {
            if let Ok((t0, b0, m0)) = ko_collect(ds.drop_last(), ws, tm) {
                assert(teams.drop_last() =~= t0);
            }
        }
    }
}

/// No speaker that breaks is a member of a team that breaks, whatever the
/// configuration and the winners of the round before.
pub proof fn law_breaking_speakers_are_not_in_breaking_teams(
    config: BreakConfig,
    tr: Seq<u128>,
    sr: Seq<u128>,
    speaker_order: Seq<u128>,
    tm: Map<u128, Vec<u128>>,
    all_teams: Seq<u128>,
    ko: Option<Seq<KoDebate>>,
    teams: Seq<u128>,
    speakers: Seq<u128>,
)
    requires
        break_outcome(config, tr, sr, speaker_order, tm, all_teams, ko, Ok((teams, speakers))),
    ensures
        outside_teams(speakers, tm, teams),
{
    match config {
        BreakConfig::TabBreak { num_teams, num_non_aligned } => {
            let ex = excluding(sr, members_of_teams(tm, teams));
            lemma_excluding(sr, members_of_teams(tm, teams));
            lemma_first_n(ex, num_non_aligned as int);
        },
        BreakConfig::TwoThirdsBreak => {
            lemma_excluding(sr, members_of_teams(tm, teams));
        },
        BreakConfig::TimBreak => {
            let ds = ko->Some_0;
            let first = tr.take((tr.len() / 3) as int);
            let breaking = excluding(all_teams, crate::breaks::tim_non_breaking(ds, first));
            lemma_excluding(sr, members_of_teams(tm, breaking));
            lemma_sort_contains(breaking, tr);
            assert forall|i: int| 0 <= i < speakers.len() implies !members_of_teams(tm, teams).contains(
                #[trigger] speakers[i],
            ) by {
                let x = speakers[i];
                lemma_members_contains(tm, teams, x);
                lemma_members_contains(tm, breaking, x);
                if members_of_teams(tm, teams).contains(x) {
                    let k = choose|k: int| 0 <= k < teams.len() && #[trigger] members_of(tm, teams[k]).contains(x);
                    assert(teams.contains(teams[k]));
                    assert(breaking.contains(teams[k]));
                    let j = choose|j: int| 0 <= j < breaking.len() && breaking[j] == teams[k];
                    assert(members_of(tm, breaking[j]).contains(x));
                }
            }
        },
        BreakConfig::Manual => {},
        _ => {
            let ds = ko->Some_0;
            let ws = choose|ws: Seq<SpeechRole>| #[trigger] winners_fit(ds, ws)
                && Ok::<(Seq<u128>, Seq<u128>), MakeBreakError>((teams, speakers)) == ko_break_spec(
                config,
                ds,
                ws,
                speaker_order,
                tm,
            );
            lemma_ko_members(ds, ws, tm);
            if let Ok((kteams, best, members)) = ko_collect(ds, ws, tm) {
                let rest = excluding(speaker_order, best);
                lemma_excluding(rest, members);
                lemma_first_n(excluding(rest, members), (ds.len() / 2) as int);
                if config is BestSpeakerOnlyBreak {
                    assert(teams =~= Seq::<u128>::empty());
                    assert(members_of_teams(tm, teams) =~= Seq::<u128>::empty());
                }
            }
        },
    }
}

/// The teams and speakers that break by tab or by two thirds are eligible
/// ones from the rankings.
pub proof fn law_tab_breaks_take_eligible(
    config: BreakConfig,
    team_order: Seq<u128>,
    speaker_order: Seq<u128>,
    eligible_teams: Set<u128>,
    eligible_speakers: Set<u128>,
    tm: Map<u128, Vec<u128>>,
    all_teams: Seq<u128>,
    ko: Option<Seq<KoDebate>>,
    teams: Seq<u128>,
    speakers: Seq<u128>,
)
    requires
        config is TabBreak || config is TwoThirdsBreak,
        break_outcome(
            config,
            keeping(team_order, eligible_teams),
            keeping(speaker_order, eligible_speakers),
            speaker_order,
            tm,
            all_teams,
            ko,
            Ok((teams, speakers)),
        ),
    ensures
        forall|i: int| 0 <= i < teams.len() ==> eligible_teams.contains(#[trigger] teams[i]),
        forall|i: int| 0 <= i < speakers.len() ==> eligible_speakers.contains(#[trigger] speakers[i]),
{
    let tr = keeping(team_order, eligible_teams);
    let sr = keeping(speaker_order, eligible_speakers);
    lemma_keeping(team_order, eligible_teams);
    lemma_keeping(speaker_order, eligible_speakers);
    lemma_excluding(sr, members_of_teams(tm, teams));
    let ex = excluding(sr, members_of_teams(tm, teams));
    assert forall|i: int| 0 <= i < speakers.len() implies eligible_speakers.contains(#[trigger] speakers[i]) by {
        if let BreakConfig::TabBreak { num_teams, num_non_aligned } = config {
            lemma_first_n(ex, num_non_aligned as int);
            assert(speakers[i] == ex[i]);
        }
        assert(ex.contains(speakers[i]) || speakers[i] == ex[i]);
        let x = speakers[i];
        let j = choose|j: int| 0 <= j < sr.len() && sr[j] == x;
        assert(sr.contains(x));
    }
    assert forall|i: int| 0 <= i < teams.len() implies eligible_teams.contains(#[trigger] teams[i]) by {
        if let BreakConfig::TabBreak { num_teams, num_non_aligned } = config {
            lemma_first_n(tr, num_teams as int);
        }
        assert(teams[i] == tr[i]);
    }
}

/// Where no category restricts teams, speakers or adjudicators, every team,
/// speaker or adjudicator is eligible.
pub proof fn law_unrestricted_categories_admit_everyone(cats: Seq<TournamentEligibleBreakCategory>, ps: Seq<Participant>)
    ensures
        (forall|k: int| 0 <= k < cats.len() ==> !#[trigger] restricts_teams(cats[k])) ==> eligible_teams_spec(cats, ps)
            == team_ids(ps),
        (forall|k: int| 0 <= k < cats.len() ==> !#[trigger] restricts_speakers(cats[k])) ==> eligible_speakers_spec(
            cats,
            ps,
        ) == speaker_ids(ps),
        (forall|k: int| 0 <= k < cats.len() ==> !#[trigger] restricts_adjudicators(cats[k]))
            ==> eligible_adjudicators_spec(cats, ps) == adjudicator_ids(ps),
{
}

/// Only teams with a speaker, speakers and adjudicators among the participants
/// are ever eligible.
pub proof fn law_eligible_are_participants(cats: Seq<TournamentEligibleBreakCategory>, ps: Seq<Participant>)
    ensures
        eligible_teams_spec(cats, ps).subset_of(team_ids(ps)),
        eligible_speakers_spec(cats, ps).subset_of(speaker_ids(ps)),
        eligible_adjudicators_spec(cats, ps).subset_of(adjudicator_ids(ps)),
{
    assert forall|u: u128| eligible_speakers_spec(cats, ps).contains(u) implies speaker_ids(ps).contains(u) by {
        if speaker_restriction_upto(cats, cats.len() as int) {
            let k = choose|k: int| 0 <= k < cats.len() && crate::eligibility::is_last_of_id(cats, k)
                && #[trigger] restricts_speakers(cats[k]) && crate::eligibility::category_speakers(ps, cats[k]).contains(u);
            let i = choose|i: int| 0 <= i < ps.len() && crate::eligibility::speaker_qualifies(ps, ps[i], cats[k])
                && #[trigger] ps[i].uuid == u;
            assert(crate::participants::is_speaker(ps[i]) && ps[i].uuid == u);
        }
    }
    assert forall|u: u128| eligible_adjudicators_spec(cats, ps).contains(u) implies adjudicator_ids(ps).contains(u) by {
        if adjudicator_restriction_upto(cats, cats.len() as int) {
            let k = choose|k: int| 0 <= k < cats.len() && crate::eligibility::is_last_of_id(cats, k)
                && #[trigger] restricts_adjudicators(cats[k]) && crate::eligibility::category_adjudicators(ps, cats[k]).contains(u);
            let i = choose|i: int| 0 <= i < ps.len() && crate::eligibility::adjudicator_qualifies(ps[i], cats[k])
                && #[trigger] ps[i].uuid == u;
            assert(crate::participants::is_adjudicator(ps[i]) && ps[i].uuid == u);
        }
    }
}

proof fn lemma_counts(ps: Seq<Participant>, t: u128, c: u128)
    ensures
        qualified_member_count(ps, t, c) <= member_count(ps, t),
        (exists|i: int| 0 <= i < ps.len() && #[trigger] is_member_of(ps[i], t)) ==> member_count(ps, t) >= 1,
    decreases ps.len(),
{
    if ps.len() > 0 {
        lemma_counts(ps.drop_last(), t, c);
        if exists|i: int| 0 <= i < ps.len() && #[trigger] is_member_of(ps[i], t) {
            let i = choose|i: int| 0 <= i < ps.len() && #[trigger] is_member_of(ps[i], t);
            if i < ps.len() - 1 {
                assert(is_member_of(ps.drop_last()[i], t));
            }
        }
    }
}

/// The same category with a team rule of all, majority or any eligible
/// members: every team that all rule admits the majority rule admits, and
/// every team that the majority rule admits the any rule admits.
pub proof fn law_team_rules_nest(ps: Seq<Participant>, category_id: u128, config: EligibilityConfig)
    ensures
        ({
            let all = TournamentEligibleBreakCategory {
                category_id,
                config: EligibilityConfig { team_eligibility_mode: TeamEligibilityMode::AllEligible, ..config },
            };
            let majority = TournamentEligibleBreakCategory {
                category_id,
                config: EligibilityConfig { team_eligibility_mode: TeamEligibilityMode::MajorityEligible, ..config },
            };
            let any = TournamentEligibleBreakCategory {
                category_id,
                config: EligibilityConfig { team_eligibility_mode: TeamEligibilityMode::AnyEligible, ..config },
            };
            &&& category_teams(ps, all).subset_of(category_teams(ps, majority))
            &&& category_teams(ps, majority).subset_of(category_teams(ps, any))
        }),
{
    assert forall|t: u128| team_ids(ps).contains(t) implies qualified_member_count(ps, t, category_id) <= member_count(
        ps,
        t,
    ) && member_count(ps, t) >= 1 by {
        lemma_counts(ps, t, category_id);
    }
}

/// Recording the participants of a debate puts every one of them into that
/// debate for the round, and leaves every other round as it was.
pub proof fn law_recorded_participants_are_in_the_debate(
    v: Map<u128, Map<u128, HistoryEntry>>,
    ps: Seq<(u128, HistoryRole)>,
    round: u128,
    debate: u128,
)
    ensures
        forall|i: int| 0 <= i < ps.len() ==> {
            let h = record_all(v, ps, round, debate);
            &&& h.contains_key(#[trigger] ps[i].0)
            &&& h[ps[i].0].contains_key(round)
            &&& h[ps[i].0][round].debate_id == debate
        },
        forall|p: u128, r: u128| r != round && #[trigger] v.contains_key(p) && #[trigger] v[p].contains_key(r) ==> {
            &&& record_all(v, ps, round, debate).contains_key(p)
            &&& record_all(v, ps, round, debate)[p].contains_key(r)
            &&& record_all(v, ps, round, debate)[p][r] == v[p][r]
        },
    decreases ps.len(),
{
    if ps.len() > 0 {
        law_recorded_participants_are_in_the_debate(v, ps.drop_last(), round, debate);
        let h = record_all(v, ps, round, debate);
        assert forall|i: int| 0 <= i < ps.len() implies {
            &&& h.contains_key(#[trigger] ps[i].0)
            &&& h[ps[i].0].contains_key(round)
            &&& h[ps[i].0][round].debate_id == debate
        } by {
            if i < ps.len() - 1 {
                assert(ps.drop_last()[i] == ps[i]);
            }
        }
    }
}

/// Two listed participants that name the same institution get the same
/// institution id.
pub proof fn law_same_institution_name_same_id(
    tournament_id: u128,
    lv: Seq<(DataView, ParticipantRole, u128)>,
    existing_institutions: Seq<(Seq<char>, u128)>,
    existing_participants: Seq<(Seq<char>, u128)>,
    institutions: Seq<NewInstitution>,
    participants: Seq<NewParticipant>,
    clashes: Seq<NewClash>,
    k1: int,
    l1: int,
    k2: int,
    l2: int,
)
    requires
        saves_participants(
            tournament_id,
            lv,
            existing_institutions,
            existing_participants,
            institutions,
            participants,
            clashes,
        ),
        0 <= k1 < lv.len(),
        0 <= k2 < lv.len(),
        0 <= l1 < lv[k1].0.institutions.len(),
        0 <= l2 < lv[k2].0.institutions.len(),
        lv[k1].0.institutions[l1] == lv[k2].0.institutions[l2],
    ensures
        participants[k1].institutions@[l1].uuid == participants[k2].institutions@[l2].uuid,
{
    let p1 = participants[k1];
    let p2 = participants[k2];
    assert(p1.institutions@[l1] == p1.institutions@[l1]);
    assert(p2.institutions@[l2] == p2.institutions@[l2]);
}

proof fn lemma_missing_names_new(known: Seq<(Seq<char>, u128)>, names: Seq<Seq<char>>)
    ensures
        forall|i: int| 0 <= i < missing_names(known, names).len() ==> lookup_name(known, #[trigger] missing_names(known, names)[i]) is None,
        forall|i: int, j: int|
            0 <= i < j < missing_names(known, names).len() ==> #[trigger] missing_names(known, names)[i] != #[trigger] missing_names(
                known,
                names,
            )[j],
    decreases names.len(),
{
    if names.len() > 0 {
        lemma_missing_names_new(known, names.drop_last());
        let acc = missing_names(known, names.drop_last());
        let m = missing_names(known, names);
        let x = names.last();
        if !(lookup_name(known, x) is Some || acc.contains(x)) {
            assert(m == acc.push(x));
            assert forall|i: int, j: int| 0 <= i < j < m.len() implies #[trigger] m[i] != #[trigger] m[j] by {
                if j == m.len() - 1 {
                    assert(m[i] == acc[i]);
                    assert(!acc.contains(x));
                } else {
                    assert(m[i] == acc[i] && m[j] == acc[j]);
                }
            }
            assert forall|i: int| 0 <= i < m.len() implies lookup_name(known, #[trigger] m[i]) is None by {
                if i < acc.len() {
                    assert(m[i] == acc[i]);
                }
            }
        }
    }
}

/// An upload creates institutions only for names that no existing
/// institution has, and never two for one name.
pub proof fn law_created_institutions_are_new(
    tournament_id: u128,
    lv: Seq<(DataView, ParticipantRole, u128)>,
    existing_institutions: Seq<(Seq<char>, u128)>,
    existing_participants: Seq<(Seq<char>, u128)>,
    institutions: Seq<NewInstitution>,
    participants: Seq<NewParticipant>,
    clashes: Seq<NewClash>,
)
    requires
        saves_participants(
            tournament_id,
            lv,
            existing_institutions,
            existing_participants,
            institutions,
            participants,
            clashes,
        ),
    ensures
        forall|i: int| 0 <= i < institutions.len() ==> lookup_name(existing_institutions, (#[trigger] institutions[i]).name@) is None,
        forall|i: int, j: int|
            0 <= i < j < institutions.len() ==> (#[trigger] institutions[i]).name@ != (#[trigger] institutions[j]).name@,
{
    let names = crate::upload::all_institution_names(lv);
    lemma_missing_names_new(existing_institutions, names);
    let m = missing_names(existing_institutions, names);
    assert forall|i: int| 0 <= i < institutions.len() implies lookup_name(
        existing_institutions,
        (#[trigger] institutions[i]).name@,
    ) is None by {
        assert(institutions[i].name@ == m[i]);
    }
    assert forall|i: int, j: int| 0 <= i < j < institutions.len() implies (#[trigger] institutions[i]).name@
        != (#[trigger] institutions[j]).name@ by {
        assert(institutions[i].name@ == m[i]);
        assert(institutions[j].name@ == m[j]);
    }
}

proof fn lemma_last_wing_index(wings: Seq<u128>, id: u128, k: int)
    requires
        0 <= k <= wings.len(),
    ensures
        -1 <= last_wing_index(wings, id, k) < k,
        last_wing_index(wings, id, k) >= 0 ==> wings[last_wing_index(wings, id, k)] == id,
    decreases k,
{
    if k > 0 {
        lemma_last_wing_index(wings, id, k - 1);
    }
}

proof fn lemma_position_in_round_agrees(debates: Seq<DebateView>, id: u128, k: int)
    requires
        0 <= k <= debates.len(),
        debates.len() <= usize::MAX,
        forall|d: int| 0 <= d < debates.len() ==> (#[trigger] debates[d]).wings.len() <= usize::MAX,
    ensures
        position_in_round(debates, id, k) matches AdjudicatorPosition::Chair { debate_idx } ==> debate_idx < k
            && debates[debate_idx as int].chair == Some(id),
        position_in_round(debates, id, k) matches AdjudicatorPosition::Wing { debate_idx, position } ==> debate_idx < k
            && position < debates[debate_idx as int].wings.len() && debates[debate_idx as int].wings[position as int] == id,
        position_in_round(debates, id, k) != AdjudicatorPosition::Unavailable,
    decreases k,
{
    if k > 0 {
        lemma_position_in_round_agrees(debates, id, k - 1);
        let d = debates[k - 1];
        lemma_last_wing_index(d.wings, id, d.wings.len() as int);
    }
}

/// Where loading places an adjudicator agrees with the debates of the round:
/// as the chair of a debate it is that debate's chair, as a wing at a
/// position it is the wing there.
pub proof fn law_loaded_positions_agree_with_debates(rounds: Seq<RoundView>, id: u128, unavailable: Seq<u128>, r: int)
    requires
        0 <= r < rounds.len(),
        rounds[r].debates.len() <= usize::MAX,
        forall|d: int| 0 <= d < rounds[r].debates.len() ==> (#[trigger] rounds[r].debates[d]).wings.len() <= usize::MAX,
    ensures
        initial_position(rounds, id, unavailable, r) matches AdjudicatorPosition::Chair { debate_idx } ==> debate_idx
            < rounds[r].debates.len() && rounds[r].debates[debate_idx as int].chair == Some(id),
        initial_position(rounds, id, unavailable, r) matches AdjudicatorPosition::Wing { debate_idx, position } ==> debate_idx
            < rounds[r].debates.len() && position < rounds[r].debates[debate_idx as int].wings.len()
            && rounds[r].debates[debate_idx as int].wings[position as int] == id,
{
    lemma_position_in_round_agrees(rounds[r].debates, id, rounds[r].debates.len() as int);
}

/// Whether the allocation has the same shape as another: as many rounds and
/// adjudicators, and a position per adjudicator and round.
pub open spec fn same_shape(v: AllocationView, w: AllocationView) -> bool {
    &&& w.rounds.len() == v.rounds.len()
    &&& w.assignments.len() == v.assignments.len()
    &&& forall|a: int| 0 <= a < w.assignments.len() ==> (#[trigger] w.assignments[a]).len() == v.assignments[a].len()
}

/// Whether every adjudicator that sits somewhere in `v` sits somewhere in `w`.
pub open spec fn keeps_places(v: AllocationView, w: AllocationView) -> bool {
    forall|a: int, x: int|
        0 <= a < v.assignments.len() && 0 <= x < v.assignments[a].len() && v.assignments[a][x]
            != AdjudicatorPosition::Unassigned ==> #[trigger] w.assignments[a][x] != AdjudicatorPosition::Unassigned
}

proof fn lemma_wing_flows_keep_places(
    v: AllocationView,
    adjs: Seq<AdjudicatorInfo>,
    r: int,
    flows: Seq<(Option<(u8, u128, u64)>, Option<(u8, u128, u64)>, u32)>,
)
    requires
        allocation_valid(v, adjs),
        0 <= r < v.rounds.len(),
    ensures
        same_shape(v, apply_wing_flows(v, adjs, r, flows)),
        keeps_places(v, apply_wing_flows(v, adjs, r, flows)),
    decreases flows.len(),
{
    if flows.len() > 0 {
        lemma_wing_flows_keep_places(v, adjs, r, flows.drop_last());
        let w = apply_wing_flows(v, adjs, r, flows.drop_last());
        let f = flows.last();
        let u = apply_wing_flow(w, adjs, r, f);
        if u != w {
            let ka = f.0.unwrap();
            let k = crate::flow_optimization::adj_index(adjs, ka.1);
            crate::flow_optimization::lemma_adj_index(adjs, ka.1);
            assert(0 <= k < w.assignments.len());
            assert(w.assignments[k].len() == v.rounds.len());
            assert forall|a: int, x: int|
                0 <= a < v.assignments.len() && 0 <= x < v.assignments[a].len() && v.assignments[a][x]
                    != AdjudicatorPosition::Unassigned implies #[trigger] u.assignments[a][x] != AdjudicatorPosition::Unassigned by {
                assert(w.assignments[a][x] != AdjudicatorPosition::Unassigned);
            }
        }
    }
}

proof fn lemma_chair_flows_keep_places(
    v: AllocationView,
    adjs: Seq<AdjudicatorInfo>,
    flows: Seq<(Option<(u8, u128, u64)>, Option<(u8, u128, u64)>, u32)>,
)
    requires
        allocation_valid(v, adjs),
    ensures
        same_shape(v, apply_chair_flows(v, adjs, flows)),
        keeps_places(v, apply_chair_flows(v, adjs, flows)),
    decreases flows.len(),
{
    if flows.len() > 0 {
        lemma_chair_flows_keep_places(v, adjs, flows.drop_last());
        let w = apply_chair_flows(v, adjs, flows.drop_last());
        let f = flows.last();
        let u = apply_chair_flow(w, adjs, f);
        if u != w {
            let ka = f.0.unwrap();
            let k = crate::flow_optimization::adj_index(adjs, ka.1);
            crate::flow_optimization::lemma_adj_index(adjs, ka.1);
            assert(0 <= k < w.assignments.len());
            assert(w.assignments[k].len() == v.rounds.len());
            assert forall|a: int, x: int|
                0 <= a < v.assignments.len() && 0 <= x < v.assignments[a].len() && v.assignments[a][x]
                    != AdjudicatorPosition::Unassigned implies #[trigger] u.assignments[a][x] != AdjudicatorPosition::Unassigned by {
                assert(w.assignments[a][x] != AdjudicatorPosition::Unassigned);
            }
        }
    }
}

/// A wing pass never frees an adjudicator: whoever sits somewhere in some
/// round keeps a place there, whatever flows the pass applies.
pub proof fn law_wing_pass_keeps_places(
    v: AllocationView,
    adjs: Seq<AdjudicatorInfo>,
    ev: &DrawEvaluator,
    threshold: i32,
    r: int,
)
    requires
        allocation_valid(v, adjs),
        0 <= r < v.rounds.len(),
    ensures
        keeps_places(v, wing_pass(v, adjs, ev, threshold, r)),
{
    lemma_wing_flows_keep_places(v, adjs, r, min_cost_flow_paths(crate::flow_optimization::wing_graph(v, adjs, ev, threshold, r)));
}

/// The chair assignment never frees an adjudicator: whoever sits somewhere in
/// some round keeps a place there, whatever flows it applies.
pub proof fn law_chair_assignment_keeps_places(v: AllocationView, adjs: Seq<AdjudicatorInfo>, ev: &DrawEvaluator, threshold: i32)
    requires
        allocation_valid(v, adjs),
    ensures
        keeps_places(v, apply_chair_flows(v, adjs, min_cost_flow_paths(chair_graph(v, adjs, ev, threshold)))),
{
    lemma_chair_flows_keep_places(v, adjs, min_cost_flow_paths(chair_graph(v, adjs, ev, threshold)));
}

proof fn lemma_no_speakers(s: Seq<Speech>)
    requires
        forall|i: int| 0 <= i < s.len() ==> (#[trigger] s[i]).speaker is None,
    ensures
        non_aligned_speakers_of(s) == Seq::<u128>::empty(),
    decreases s.len(),
{
    if s.len() > 0 {
        assert(s.last() == s[s.len() - 1]);
        lemma_no_speakers(s.drop_last());
    }
}

proof fn lemma_ballot_speakers(na: Seq<u128>)
    ensures
        non_aligned_speakers_of(ballot_speeches(na)) == na,
    decreases na.len(),
{
    let b = ballot_speeches(na);
    if na.len() == 0 {
        assert forall|i: int| 0 <= i < b.len() implies (#[trigger] b[i]).speaker is None by {}
        lemma_no_speakers(b);
    } else {
        lemma_ballot_speakers(na.drop_last());
        assert(b.drop_last() =~= ballot_speeches(na.drop_last()));
        assert(b.last().speaker == Some(na.last()) && b.last().role == crate::datastructures::SpeechRole::NonAligned);
        assert(non_aligned_speakers_of(b) =~= na);
    }
}

/// Turning a debate into a ballot and reading the debate back from the ballot
/// gives the same teams, chair, wings and non-aligned speakers, as long as the
/// debate has a chair or no wings.
pub proof fn law_ballot_round_trip(d: DebateView)
    requires
        d.chair is Some || d.wings.len() == 0,
    ensures
        non_aligned_speakers_of(ballot_speeches(d.non_aligned_speakers)) == d.non_aligned_speakers,
        (if (chair_seq(d.chair) + d.wings).len() > 0 {
            Some((chair_seq(d.chair) + d.wings)[0])
        } else {
            None
        }) == d.chair,
        after_first(chair_seq(d.chair) + d.wings) == d.wings,
{
    lemma_ballot_speakers(d.non_aligned_speakers);
    let a = chair_seq(d.chair) + d.wings;
    match d.chair {
        Some(c) => {
            assert(a[0] == c);
            assert(a.skip(1) =~= d.wings);
        },
        None => {
            assert(a.len() == 0);
            assert(after_first(a) =~= d.wings);
        },
    }
}

/// A declared clash counts in both directions: the table entry of two
/// participants is the same under both orders of the two.
pub proof fn law_declared_clashes_hold_both_ways(clashes: Seq<NewClash>, a: u128, b: u128)
    ensures
        pair_severity(clashes, a, b) == pair_severity(clashes, b, a),
    decreases clashes.len(),
{
    if clashes.len() > 0 {
        law_declared_clashes_hold_both_ways(clashes.drop_last(), a, b);
    }
}

/// When the panel of a ballot changes, the scores of the adjudicators who left
/// it are gone and every other score stays, in order: a score is kept exactly
/// when its adjudicator did not leave.
pub proof fn law_scores_follow_the_panel<X>(scores: Seq<(u128, X)>, old_panel: Seq<u128>, new_panel: Seq<u128>)
    ensures
        forall|i: int|
            0 <= i < scores_kept(scores, old_panel, new_panel).len() ==> !left_panel(
                old_panel,
                new_panel,
                #[trigger] scores_kept(scores, old_panel, new_panel)[i].0,
            ),
        scores_kept(scores, old_panel, new_panel) == scores.filter(|e: (u128, X)| !left_panel(old_panel, new_panel, e.0)),
    decreases scores.len(),
{
    reveal(Seq::filter);
    if scores.len() > 0 {
        law_scores_follow_the_panel(scores.drop_last(), old_panel, new_panel);
        let rest = scores_kept(scores.drop_last(), old_panel, new_panel);
        let kept = scores_kept(scores, old_panel, new_panel);
        assert forall|i: int| 0 <= i < kept.len() implies !left_panel(old_panel, new_panel, #[trigger] kept[i].0) by {
            if i < rest.len() {
                assert(kept[i] == rest[i]);
            }
        }
    }
}

/// The synchronisation stops only where the tournament has no remote.
pub proof fn law_sync_stops_only_without_remote(state: SyncState, event: SyncEvent)
    ensures
        sync_transition(state, event).1.contains(SyncAction::Stop) ==> state == SyncState::LoadingRemote && event
            == (SyncEvent::RemoteLoaded { created: None }),
{
    let actions = sync_transition(state, event).1;
    if actions.contains(SyncAction::Stop) {
        let i = choose|i: int| 0 <= i < actions.len() && actions[i] == SyncAction::Stop;
        assert(actions[i] == SyncAction::Stop);
    }
}

/// A failed pull or push ends the round: the synchronisation waits for the
/// next round, and where the remote refused the key it asks for the password.
pub proof fn law_sync_failures_end_the_round(state: SyncState, event: SyncEvent, f: SyncFailure)
    requires
        (state == SyncState::Pulling && event == (SyncEvent::Pulled { failure: Some(f) })) || (state == SyncState::Pushing
            && event == (SyncEvent::Pushed { failure: Some(f) })),
    ensures
        sync_transition(state, event).0 == SyncState::Waiting,
        sync_transition(state, event).1.last() == SyncAction::WaitForNextRound,
        f == SyncFailure::NotAuthorized ==> sync_transition(state, event).1 == seq![
            SyncAction::Report { status: ConnectivityStatusKind::PasswordRequired },
            SyncAction::WaitForNextRound,
        ],
{
}

/// A round that pushed its changes reports that the connection is alive.
pub proof fn law_sync_reports_alive_after_push(state: SyncState, event: SyncEvent)
    requires
        sync_transition(state, event).1.contains(SyncAction::Report { status: ConnectivityStatusKind::Alive }),
    ensures
        state == SyncState::Pushing,
        event == (SyncEvent::Pushed { failure: None }),
{
    let actions = sync_transition(state, event).1;
    let i = choose|i: int| 0 <= i < actions.len() && actions[i] == (SyncAction::Report { status: ConnectivityStatusKind::Alive });
    assert(actions[i] == (SyncAction::Report { status: ConnectivityStatusKind::Alive }));
}

/// In the preliminaries, a round gives each of the three buckets a different
/// role, and over any three consecutive rounds each bucket has each role once.
pub proof fn law_preliminary_roles_rotate(roles: Seq<usize>, r: int, role: usize)
    requires
        is_index_permutation(roles, 3),
        r >= 0,
        role < 3,
    ensures
        bucket_with_role(roles, r, role) != bucket_with_role(roles, r + 1, role),
        bucket_with_role(roles, r, role) != bucket_with_role(roles, r + 2, role),
        bucket_with_role(roles, r + 1, role) != bucket_with_role(roles, r + 2, role),
        forall|other: usize| other < 3 && other != role ==> bucket_with_role(roles, r, role) != bucket_with_role(roles, r, other),
{
    let j = if roles[0] == role {
        0int
    } else if roles[1] == role {
        1int
    } else {
        2int
    };
    assert(roles[j] == role) by {
        if roles[0] != role && roles[1] != role && roles[2] != role {
            assert(roles[0] != roles[1] && roles[0] != roles[2] && roles[1] != roles[2]);
            assert(roles[0] < 3 && roles[1] < 3 && roles[2] < 3);
        }
    }
    assert forall|k: int| 0 <= k < 3 && k != j implies roles[k] != role by {
        assert(roles[k] != roles[j]);
    }
    assert(r % 3 == 0 || r % 3 == 1 || r % 3 == 2);
    assert((r + 1) % 3 == (r % 3 + 1) % 3);
    assert((r + 2) % 3 == (r % 3 + 2) % 3);
    assert((r + 3) % 3 == r % 3);
    assert((r + 4) % 3 == (r % 3 + 1) % 3);
    assert forall|other: usize| other < 3 && other != role implies bucket_with_role(roles, r, role) != bucket_with_role(
        roles,
        r,
        other,
    ) by {
        assert forall|k: int| 0 <= k < 3 implies (roles[k] == other ==> roles[k] != role) by {}
        let jo = if roles[0] == other {
            0int
        } else if roles[1] == other {
            1int
        } else {
            2int
        };
        assert(roles[jo] == other) by {
            if roles[0] != other && roles[1] != other && roles[2] != other {
                assert(roles[0] != roles[1] && roles[0] != roles[2] && roles[1] != roles[2]);
                assert(roles[0] < 3 && roles[1] < 3 && roles[2] < 3);
            }
        }
    }
}

/// In the preliminaries, the three buckets split the teams: where the order
/// lists each team index once, each index is in exactly one bucket.
pub proof fn law_preliminary_buckets_split_the_teams(order: Seq<usize>, m: int, t: usize)
    requires
        m >= 0,
        is_index_permutation(order, (3 * m) as nat),
        t < 3 * m,
    ensures
        bucket_of(order, m, 0).contains(t) || bucket_of(order, m, 1).contains(t) || bucket_of(order, m, 2).contains(t),
        !(bucket_of(order, m, 0).contains(t) && bucket_of(order, m, 1).contains(t)),
        !(bucket_of(order, m, 0).contains(t) && bucket_of(order, m, 2).contains(t)),
        !(bucket_of(order, m, 1).contains(t) && bucket_of(order, m, 2).contains(t)),
{
    crate::random::lemma_index_permutation_covers(order, (3 * m) as nat, t);
    let i = choose|i: int| 0 <= i < order.len() && order[i] == t;
    let b0 = bucket_of(order, m, 0);
    let b1 = bucket_of(order, m, 1);
    let b2 = bucket_of(order, m, 2);
    assert(b0 == order.subrange(0, m) && b1 == order.subrange(m, 2 * m) && b2 == order.subrange(2 * m, 3 * m));
    if i < m {
        assert(b0[i] == t);
    } else if i < 2 * m {
        assert(b1[i - m] == t);
    } else {
        assert(b2[i - 2 * m] == t);
    }
    assert forall|a: int| 0 <= a < m && b0[a] == t implies a == i by {
        assert(b0[a] == order[a]);
    }
    assert forall|a: int| 0 <= a < m && b1[a] == t implies a + m == i by {
        assert(b1[a] == order[a + m]);
    }
    assert forall|a: int| 0 <= a < m && b2[a] == t implies a + 2 * m == i by {
        assert(b2[a] == order[a + 2 * m]);
    }
}

proof fn lemma_changed_ballots_count(
    rounds: Map<u128, u128>,
    active: Map<u128, u128>,
    changed: Seq<TournamentDebate>,
    ids: Seq<u128>,
)
    requires
        forall|i: int, j: int| 0 <= i < j < changed.len() ==> changed[i].uuid != changed[j].uuid,
    ensures
        forall|k: int|
            0 <= k < changed.len() ==> debate_changes(rounds, active, changed, ids).1.contains_key(#[trigger] changed[k].uuid)
                && debate_changes(rounds, active, changed, ids).1[changed[k].uuid] == changed[k].ballot_id,
    decreases changed.len(),
{
    if changed.len() > 0 {
        lemma_changed_ballots_count(rounds, active, changed.drop_last(), ids);
        assert forall|k: int| 0 <= k < changed.len() implies debate_changes(rounds, active, changed, ids).1.contains_key(
            #[trigger] changed[k].uuid,
        ) && debate_changes(rounds, active, changed, ids).1[changed[k].uuid] == changed[k].ballot_id by {
            if k < changed.len() - 1 {
                assert(changed.drop_last()[k] == changed[k]);
                assert(changed[k].uuid != changed.last().uuid);
            }
        }
    }
}

proof fn lemma_settled_changes(
    rounds: Map<u128, u128>,
    active: Map<u128, u128>,
    changed: Seq<TournamentDebate>,
    ids: Seq<u128>,
)
    requires
        forall|k: int| 0 <= k < changed.len() ==> active.contains_key(#[trigger] changed[k].uuid) && active[changed[k].uuid]
            == changed[k].ballot_id,
    ensures
        debate_changes(rounds, active, changed, ids).1 == active,
        debate_changes(rounds, active, changed, ids).2 == Seq::<(u128, u128)>::empty(),
        debate_changes(rounds, active, changed, ids).3 == Seq::<u128>::empty(),
    decreases changed.len(),
{
    if changed.len() > 0 {
        assert forall|k: int| 0 <= k < changed.drop_last().len() implies active.contains_key(
            #[trigger] changed.drop_last()[k].uuid,
        ) && active[changed.drop_last()[k].uuid] == changed.drop_last()[k].ballot_id by {
            assert(changed.drop_last()[k] == changed[k]);
        }
        lemma_settled_changes(rounds, active, changed.drop_last(), ids);
        assert(active.contains_key(changed[changed.len() - 1].uuid));
    }
}

/// Following the same debate changes a second time, where no debate is
/// listed twice, makes no ballot count that did not count already, marks no
/// debate for its ballot to be recorded anew and lists no ballot to load.
pub proof fn law_following_debate_changes_again_settles(
    rounds: Map<u128, u128>,
    active: Map<u128, u128>,
    changed: Seq<TournamentDebate>,
    ids: Seq<u128>,
)
    requires
        forall|i: int, j: int| 0 <= i < j < changed.len() ==> changed[i].uuid != changed[j].uuid,
    ensures
        ({
            let (r1, a1, _, _) = debate_changes(rounds, active, changed, ids);
            let (_, a2, re2, tl2) = debate_changes(r1, a1, changed, ids);
            &&& a2 == a1
            &&& re2 == Seq::<(u128, u128)>::empty()
            &&& tl2 == Seq::<u128>::empty()
        }),
{
    lemma_changed_ballots_count(rounds, active, changed, ids);
    let (r1, a1, _, _) = debate_changes(rounds, active, changed, ids);
    lemma_settled_changes(r1, a1, changed, ids);
}

/// The clash that a meeting in one round gives does not depend on which of
/// the two participants is named first.
proof fn lemma_role_pair_clash_symmetric(r: u128, a: HistoryRole, b: HistoryRole)
    ensures
        role_pair_clash(r, a, b) == role_pair_clash(r, b, a),
{
}

/// The clashes that two participants have from meeting in earlier rounds are
/// the same whichever of them is named first, and there is at most one for
/// each relevant round.
pub proof fn law_dynamic_clashes_symmetric(ctx: DrawEvaluationContext, rounds: Seq<u128>, p1: u128, p2: u128)
    ensures
        ctx.dynamic_clashes(rounds, p1, p2) == ctx.dynamic_clashes(rounds, p2, p1),
        ctx.dynamic_clashes(rounds, p1, p2).len() <= rounds.len(),
{
    let h = ctx.history.participant_debates@;
    if h.contains_key(p1) && h.contains_key(p2) {
        lemma_rounds_clashes_symmetric(rounds, h[p1]@, h[p2]@);
    }
}

proof fn lemma_rounds_clashes_symmetric(rounds: Seq<u128>, h1: Map<u128, HistoryEntry>, h2: Map<u128, HistoryEntry>)
    ensures
        rounds_clashes(rounds, h1, h2) == rounds_clashes(rounds, h2, h1),
        rounds_clashes(rounds, h1, h2).len() <= rounds.len(),
    decreases rounds.len(),
{
    if rounds.len() > 0 {
        lemma_rounds_clashes_symmetric(rounds.drop_last(), h1, h2);
        let r = rounds.last();
        if h1.contains_key(r) && h2.contains_key(r) && h1[r].debate_id == h2[r].debate_id {
            lemma_role_pair_clash_symmetric(r, h1[r].role, h2[r].role);
        }
        assert(round_clash(r, h1, h2) == round_clash(r, h2, h1));
        assert(round_clash(r, h1, h2).len() <= 1);
    }
}

/// Breaking on two lists of categories at once, with no category id twice
/// and every category restricting teams, admits exactly the teams that either
/// list admits on its own.
pub proof fn law_eligible_teams_of_joined_categories(
    a: Seq<TournamentEligibleBreakCategory>,
    b: Seq<TournamentEligibleBreakCategory>,
    ps: Seq<Participant>,
)
    requires
        a.len() > 0,
        b.len() > 0,
        forall|i: int, j: int| 0 <= i < j < (a + b).len() ==> #[trigger] (a + b)[i].category_id != #[trigger] (a + b)[j].category_id,
        forall|k: int| 0 <= k < (a + b).len() ==> #[trigger] restricts_teams((a + b)[k]),
    ensures
        eligible_teams_spec(a + b, ps) == eligible_teams_spec(a, ps).union(eligible_teams_spec(b, ps)),
{
    let c = a + b;
    assert forall|k: int| 0 <= k < c.len() implies #[trigger] crate::eligibility::is_last_of_id(c, k) by {
        assert forall|j: int| k < j < c.len() implies #[trigger] c[j].category_id != c[k].category_id by {}
    }
    assert forall|k: int| 0 <= k < a.len() implies #[trigger] crate::eligibility::is_last_of_id(a, k) && restricts_teams(a[k]) by {
        assert(c[k] == a[k]);
        assert forall|j: int| k < j < a.len() implies #[trigger] a[j].category_id != a[k].category_id by {
            assert(c[j] == a[j]);
        }
    }
    assert forall|k: int| 0 <= k < b.len() implies #[trigger] crate::eligibility::is_last_of_id(b, k) && restricts_teams(b[k]) by {
        assert(c[a.len() + k] == b[k]);
        assert forall|j: int| k < j < b.len() implies #[trigger] b[j].category_id != b[k].category_id by {
            assert(c[a.len() + j] == b[j]);
        }
    }
    assert(crate::eligibility::team_restriction_upto(a, a.len() as int)) by {
        assert(crate::eligibility::is_last_of_id(a, 0) && restricts_teams(a[0]));
    }
    assert(crate::eligibility::team_restriction_upto(b, b.len() as int)) by {
        assert(crate::eligibility::is_last_of_id(b, 0) && restricts_teams(b[0]));
    }
    assert(crate::eligibility::team_restriction_upto(c, c.len() as int)) by {
        assert(restricts_teams(c[0]));
    }
    let lhs = eligible_teams_spec(c, ps);
    let rhs = eligible_teams_spec(a, ps).union(eligible_teams_spec(b, ps));
    assert forall|t: u128| lhs.contains(t) <==> rhs.contains(t) by {
        if lhs.contains(t) {
            let k = choose|k: int| 0 <= k < c.len() && crate::eligibility::is_last_of_id(c, k) && #[trigger] restricts_teams(c[k])
                && crate::eligibility::category_teams(ps, c[k]).contains(t);
            if k < a.len() {
                assert(c[k] == a[k]);
                assert(restricts_teams(a[k]));
            } else {
                assert(c[k] == b[k - a.len()]);
                assert(restricts_teams(b[k - a.len()]));
            }
        }
        if eligible_teams_spec(a, ps).contains(t) {
            let k = choose|k: int| 0 <= k < a.len() && crate::eligibility::is_last_of_id(a, k) && #[trigger] restricts_teams(a[k])
                && crate::eligibility::category_teams(ps, a[k]).contains(t);
            assert(c[k] == a[k]);
            assert(restricts_teams(c[k]));
        }
        if eligible_teams_spec(b, ps).contains(t) {
            let k = choose|k: int| 0 <= k < b.len() && crate::eligibility::is_last_of_id(b, k) && #[trigger] restricts_teams(b[k])
                && crate::eligibility::category_teams(ps, b[k]).contains(t);
            assert(c[a.len() + k] == b[k]);
            assert(restricts_teams(c[a.len() + k]));
        }
    }
    assert(lhs =~= rhs);
}

/// Whether no institution is listed twice.
pub open spec fn distinct_institutions(insts: Seq<ParticipantInstitution>) -> bool {
    forall|i: int, j: int| 0 <= i < j < insts.len() ==> #[trigger] insts[i].uuid != #[trigger] insts[j].uuid
}

/// Whether `x` is the institutional clash that two participants with these
/// institutions have over an institution that both list.
pub open spec fn is_shared_institution_clash(
    x: ClashType,
    i1: Seq<ParticipantInstitution>,
    i2: Seq<ParticipantInstitution>,
) -> bool {
    match x {
        ClashType::InstitutionalClash { severity, institution_id } => {
            &&& institution_severity(i1, institution_id) is Some
            &&& institution_severity(i2, institution_id) is Some
            &&& severity == (institution_severity(i1, institution_id)->Some_0 / 2 + institution_severity(
                i2,
                institution_id,
            )->Some_0 / 2) as u16
        },
        _ => false,
    }
}

proof fn lemma_institution_severity_listed(insts: Seq<ParticipantInstitution>, u: u128)
    ensures
        institution_severity(insts, u) is Some <==> exists|k: int| 0 <= k < insts.len() && #[trigger] insts[k].uuid == u,
    decreases insts.len(),
{
    if insts.len() > 0 {
        lemma_institution_severity_listed(insts.drop_last(), u);
        if institution_severity(insts.drop_last(), u) is Some {
            let k = choose|k: int| 0 <= k < insts.drop_last().len() && #[trigger] insts.drop_last()[k].uuid == u;
            assert(insts[k].uuid == u);
        }
        if exists|k: int| 0 <= k < insts.len() && #[trigger] insts[k].uuid == u {
            let k = choose|k: int| 0 <= k < insts.len() && #[trigger] insts[k].uuid == u;
            if k < insts.len() - 1 {
                assert(insts.drop_last()[k].uuid == u);
            }
        }
    }
}

proof fn lemma_institutional_clash_count(i1: Seq<ParticipantInstitution>, i2: Seq<ParticipantInstitution>, x: ClashType)
    requires
        distinct_institutions(i2),
    ensures
        institutional_clashes(i1, i2).to_multiset().count(x) == if is_shared_institution_clash(x, i1, i2) {
            1nat
        } else {
            0nat
        },
    decreases i2.len(),
{
    broadcast use vstd::seq_lib::group_to_multiset_ensures;

    if i2.len() == 0 {
        assert(institutional_clashes(i1, i2) =~= Seq::<ClashType>::empty());
        if let ClashType::InstitutionalClash { severity, institution_id } = x {
            assert(institution_severity(i2, institution_id) is None);
        }
    } else {
        let rest = i2.drop_last();
        let e = i2.last();
        assert(distinct_institutions(rest)) by {
            assert forall|i: int, j: int| 0 <= i < j < rest.len() implies #[trigger] rest[i].uuid != #[trigger] rest[j].uuid by {
                assert(rest[i] == i2[i] && rest[j] == i2[j]);
            }
        }
        lemma_institutional_clash_count(i1, rest, x);
        lemma_institution_severity_listed(rest, e.uuid);
        assert(institution_severity(rest, e.uuid) is None) by {
            if institution_severity(rest, e.uuid) is Some {
                let k = choose|k: int| 0 <= k < rest.len() && #[trigger] rest[k].uuid == e.uuid;
                assert(i2[k].uuid == i2[i2.len() - 1].uuid);
            }
        }
    }
}

/// The permanent clashes between two participants are the same, counted with
/// their multiplicity, whichever of them is named first, provided neither
/// lists an institution twice.
pub proof fn law_permanent_clashes_symmetric(ctx: DrawEvaluationContext, p1: u128, p2: u128)
    requires
        ctx.participants_by_id@.contains_key(p1) ==> distinct_institutions(ctx.participants_by_id@[p1].institutions@),
        ctx.participants_by_id@.contains_key(p2) ==> distinct_institutions(ctx.participants_by_id@[p2].institutions@),
    ensures
        ctx.permanent_clashes(p1, p2).to_multiset() == ctx.permanent_clashes(p2, p1).to_multiset(),
{
    let parts = ctx.participants_by_id@;
    if parts.contains_key(p1) && parts.contains_key(p2) {
        let i1 = parts[p1].institutions@;
        let i2 = parts[p2].institutions@;
        let d12 = crate::clashes::u16_max(ctx.declared_severity(p1, p2), ctx.declared_severity(p2, p1));
        let d21 = crate::clashes::u16_max(ctx.declared_severity(p2, p1), ctx.declared_severity(p1, p2));
        assert(d12 == d21);
        assert forall|x: ClashType| institutional_clashes(i1, i2).to_multiset().count(x) == institutional_clashes(
            i2,
            i1,
        ).to_multiset().count(x) by {
            lemma_institutional_clash_count(i1, i2, x);
            lemma_institutional_clash_count(i2, i1, x);
        }
        assert(institutional_clashes(i1, i2).to_multiset() =~= institutional_clashes(i2, i1).to_multiset());
        let a = ctx.permanent_clashes(p1, p2);
        let b = ctx.permanent_clashes(p2, p1);
        let k = a.len() - institutional_clashes(i1, i2).len();
        assert(a =~= a.take(k) + institutional_clashes(i1, i2));
        assert(b =~= a.take(k) + institutional_clashes(i2, i1));
        vstd::seq_lib::lemma_multiset_commutative(a.take(k), institutional_clashes(i1, i2));
        vstd::seq_lib::lemma_multiset_commutative(a.take(k), institutional_clashes(i2, i1));
    }
}

/// The round that a clash from an earlier meeting names.
pub open spec fn clash_round(x: ClashType) -> Option<u128> {
    match x {
        ClashType::SpeakersHaveMetAsNonAligned { round } => Some(round),
        ClashType::SpeakersHaveMetAsTeamAndNonAligned { round } => Some(round),
        ClashType::SpeakersHaveMetAsTeam { round } => Some(round),
        ClashType::JudgeHasSeenSpeaker { round, .. } => Some(round),
        ClashType::JudgeHasSeenJudge { round } => Some(round),
        _ => None,
    }
}

/// Whether both histories hold round `r`, in the same debate.
pub open spec fn met_in_round(h1: Map<u128, HistoryEntry>, h2: Map<u128, HistoryEntry>, r: u128) -> bool {
    h1.contains_key(r) && h2.contains_key(r) && h1[r].debate_id == h2[r].debate_id
}

proof fn lemma_rounds_clashes_name_meetings(rounds: Seq<u128>, h1: Map<u128, HistoryEntry>, h2: Map<u128, HistoryEntry>)
    ensures
        forall|i: int| 0 <= i < rounds_clashes(rounds, h1, h2).len() ==> exists|k: int|
            0 <= k < rounds.len() && clash_round(#[trigger] rounds_clashes(rounds, h1, h2)[i]) == Some(rounds[k])
                && met_in_round(h1, h2, rounds[k]),
        rounds.no_duplicates() ==> forall|i: int, j: int|
            0 <= i < j < rounds_clashes(rounds, h1, h2).len() ==> clash_round(#[trigger] rounds_clashes(rounds, h1, h2)[i])
                != clash_round(#[trigger] rounds_clashes(rounds, h1, h2)[j]),
    decreases rounds.len(),
{
    if rounds.len() > 0 {
        let pre = rounds.drop_last();
        lemma_rounds_clashes_name_meetings(pre, h1, h2);
        let rest = rounds_clashes(pre, h1, h2);
        let r = rounds.last();
        let last = round_clash(r, h1, h2);
        let all = rounds_clashes(rounds, h1, h2);
        assert(all == rest + last);
        assert(last.len() <= 1);
        assert(last.len() == 1 ==> clash_round(last[0]) == Some(r) && met_in_round(h1, h2, r));
        assert forall|i: int| 0 <= i < all.len() implies exists|k: int|
            0 <= k < rounds.len() && clash_round(#[trigger] all[i]) == Some(rounds[k]) && met_in_round(h1, h2, rounds[k]) by {
            if i < rest.len() {
                assert(all[i] == rest[i]);
                let k = choose|k: int| 0 <= k < pre.len() && clash_round(rest[i]) == Some(pre[k]) && met_in_round(h1, h2, pre[k]);
                assert(rounds[k] == pre[k]);
            } else {
                assert(all[i] == last[0]);
                assert(rounds[rounds.len() - 1] == r);
            }
        }
        if rounds.no_duplicates() {
            assert(pre.no_duplicates());
            assert forall|i: int, j: int| 0 <= i < j < all.len() implies clash_round(#[trigger] all[i]) != clash_round(
                #[trigger] all[j],
            ) by {
                if j < rest.len() {
                    assert(all[i] == rest[i] && all[j] == rest[j]);
                } else {
                    assert(all[i] == rest[i]);
                    assert(all[j] == last[0]);
                    let k = choose|k: int| 0 <= k < pre.len() && clash_round(rest[i]) == Some(pre[k]) && met_in_round(h1, h2, pre[k]);
                    assert(rounds[k] == pre[k]);
                    assert(rounds[k] != rounds[rounds.len() - 1]);
                }
            }
        }
    }
}

/// Each clash between two participants from earlier meetings names a
/// relevant round in which both were in the same debate, no two of them the
/// same round where no round is listed twice, and there are none where
/// either participant has no history.
pub proof fn law_dynamic_clashes_name_shared_debates(ctx: DrawEvaluationContext, rounds: Seq<u128>, p1: u128, p2: u128)
    ensures
        !(ctx.history.participant_debates@.contains_key(p1) && ctx.history.participant_debates@.contains_key(p2))
            ==> ctx.dynamic_clashes(rounds, p1, p2).len() == 0,
        forall|i: int| 0 <= i < ctx.dynamic_clashes(rounds, p1, p2).len() ==> exists|k: int|
            0 <= k < rounds.len() && clash_round(#[trigger] ctx.dynamic_clashes(rounds, p1, p2)[i]) == Some(rounds[k])
                && met_in_round(
                ctx.history.participant_debates@[p1]@,
                ctx.history.participant_debates@[p2]@,
                rounds[k],
            ),
        rounds.no_duplicates() ==> forall|i: int, j: int|
            0 <= i < j < ctx.dynamic_clashes(rounds, p1, p2).len() ==> clash_round(
                #[trigger] ctx.dynamic_clashes(rounds, p1, p2)[i],
            ) != clash_round(#[trigger] ctx.dynamic_clashes(rounds, p1, p2)[j]),
{
    let h = ctx.history.participant_debates@;
    if h.contains_key(p1) && h.contains_key(p2) {
        lemma_rounds_clashes_name_meetings(rounds, h[p1]@, h[p2]@);
    }
}

/// The states of a synchronisation run from `start`: the state before each
/// event, then the state after the last.
pub open spec fn sync_states(start: SyncState, events: Seq<SyncEvent>) -> Seq<SyncState>
    decreases events.len(),
{
    if events.len() == 0 {
        seq![start]
    } else {
        let prev = sync_states(start, events.drop_last());
        prev.push(sync_transition(prev.last(), events.last()).0)
    }
}

proof fn lemma_sync_states(start: SyncState, events: Seq<SyncEvent>)
    ensures
        sync_states(start, events).len() == events.len() + 1,
        sync_states(start, events)[0] == start,
        forall|i: int|
            0 <= i < events.len() ==> #[trigger] sync_states(start, events)[i + 1] == sync_transition(
                sync_states(start, events)[i],
                events[i],
            ).0,
    decreases events.len(),
{
    if events.len() > 0 {
        let pre = events.drop_last();
        lemma_sync_states(start, pre);
        let prev = sync_states(start, pre);
        let all = sync_states(start, events);
        assert forall|i: int| 0 <= i < events.len() implies #[trigger] all[i + 1] == sync_transition(all[i], events[i]).0 by {
            if i < pre.len() {
                assert(all[i + 1] == prev[i + 1]);
                assert(all[i] == prev[i]);
                assert(events[i] == pre[i]);
            }
        }
    }
}

/// Whether the state lies between a successful pull and the push of a round.
pub open spec fn after_pull(s: SyncState) -> bool {
    s == SyncState::ReloadingRemote || s == SyncState::Pushing
}

proof fn lemma_sync_after_pull(start: SyncState, events: Seq<SyncEvent>, i: int)
    requires
        start == SyncState::Waiting,
        0 <= i <= events.len(),
        after_pull(sync_states(start, events)[i]),
    ensures
        exists|j: int|
            0 <= j < i && sync_states(start, events)[j] == SyncState::Pulling && #[trigger] events[j] == (SyncEvent::Pulled {
                failure: None,
            }) && forall|t: int| j < t <= i ==> after_pull(#[trigger] sync_states(start, events)[t]),
    decreases i,
{
    lemma_sync_states(start, events);
    let st = sync_states(start, events);
    assert(i > 0);
    let p = st[i - 1];
    assert(st[(i - 1) + 1] == sync_transition(p, events[i - 1]).0);
    if after_pull(p) {
        lemma_sync_after_pull(start, events, i - 1);
        let j = choose|j: int|
            0 <= j < i - 1 && st[j] == SyncState::Pulling && #[trigger] events[j] == (SyncEvent::Pulled { failure: None })
                && forall|t: int| j < t <= i - 1 ==> after_pull(#[trigger] st[t]);
        assert forall|t: int| j < t <= i implies after_pull(#[trigger] st[t]) by {}
    } else {
        assert(p == SyncState::Pulling && events[i - 1] == (SyncEvent::Pulled { failure: None }));
        assert forall|t: int| i - 1 < t <= i implies after_pull(#[trigger] st[t]) by {}
    }
}

/// In a synchronisation run from waiting, a step reports that the connection
/// is alive only when it is a successful push, after a successful pull of
/// the same round: no return to waiting in between.
pub proof fn law_sync_alive_only_after_pull_and_push(events: Seq<SyncEvent>, i: int)
    requires
        0 <= i < events.len(),
        sync_transition(sync_states(SyncState::Waiting, events)[i], events[i]).1.contains(
            SyncAction::Report { status: ConnectivityStatusKind::Alive },
        ),
    ensures
        events[i] == (SyncEvent::Pushed { failure: None }),
        exists|j: int|
            0 <= j < i && sync_states(SyncState::Waiting, events)[j] == SyncState::Pulling && #[trigger] events[j]
                == (SyncEvent::Pulled { failure: None }) && forall|t: int|
                j < t <= i ==> #[trigger] sync_states(SyncState::Waiting, events)[t] != SyncState::Waiting,
{
    let st = sync_states(SyncState::Waiting, events);
    lemma_sync_states(SyncState::Waiting, events);
    law_sync_reports_alive_after_push(st[i], events[i]);
    lemma_sync_after_pull(SyncState::Waiting, events, i);
    let j = choose|j: int|
        0 <= j < i && st[j] == SyncState::Pulling && #[trigger] events[j] == (SyncEvent::Pulled { failure: None }) && forall|
            t: int,
        | j < t <= i ==> after_pull(#[trigger] st[t]);
    assert forall|t: int| j < t <= i implies #[trigger] st[t] != SyncState::Waiting by {
        assert(after_pull(st[t]));
    }
}

/// A failed pull is reported: as a request for the password where the remote
/// refused the key, else as an error.
pub proof fn law_sync_pull_failures_reported(f: SyncFailure)
    ensures
        f == SyncFailure::NotAuthorized ==> sync_transition(SyncState::Pulling, SyncEvent::Pulled { failure: Some(f) }).1.contains(
            SyncAction::Report { status: ConnectivityStatusKind::PasswordRequired },
        ),
        f != SyncFailure::NotAuthorized ==> sync_transition(SyncState::Pulling, SyncEvent::Pulled { failure: Some(f) }).1.contains(
            SyncAction::Report { status: ConnectivityStatusKind::Error },
        ),
{
    let a = sync_transition(SyncState::Pulling, SyncEvent::Pulled { failure: Some(f) }).1;
    if f == SyncFailure::NotAuthorized {
        assert(a[0] == SyncAction::Report { status: ConnectivityStatusKind::PasswordRequired });
    } else {
        assert(a[a.len() - 2] == SyncAction::Report { status: ConnectivityStatusKind::Error });
    }
}

/// Without a remote the synchronisation reports a disconnect and stops, and
/// once stopped it does nothing more, whatever happens.
pub proof fn law_sync_without_remote_stops(events: Seq<SyncEvent>, i: int)
    requires
        0 <= i < events.len(),
        sync_states(SyncState::Waiting, events)[i] == SyncState::LoadingRemote,
        events[i] == (SyncEvent::RemoteLoaded { created: None }),
    ensures
        sync_transition(SyncState::LoadingRemote, events[i]).1 == seq![
            SyncAction::Report { status: ConnectivityStatusKind::Disconnect },
            SyncAction::Stop,
        ],
        forall|t: int| i < t <= events.len() ==> #[trigger] sync_states(SyncState::Waiting, events)[t] == SyncState::Stopped,
        forall|t: int| i < t < events.len() ==> #[trigger] sync_transition(sync_states(SyncState::Waiting, events)[t], events[t]).1.len() == 0,
{
    let st = sync_states(SyncState::Waiting, events);
    lemma_sync_states(SyncState::Waiting, events);
    assert(st[i + 1] == SyncState::Stopped);
    lemma_sync_stays_stopped(events, i + 1);
}

proof fn lemma_sync_stays_stopped(events: Seq<SyncEvent>, k: int)
    requires
        0 <= k <= events.len(),
        sync_states(SyncState::Waiting, events)[k] == SyncState::Stopped,
    ensures
        forall|t: int| k <= t <= events.len() ==> #[trigger] sync_states(SyncState::Waiting, events)[t] == SyncState::Stopped,
        forall|t: int| k <= t < events.len() ==> #[trigger] sync_transition(sync_states(SyncState::Waiting, events)[t], events[t]).1.len() == 0,
    decreases events.len() - k,
{
    let st = sync_states(SyncState::Waiting, events);
    lemma_sync_states(SyncState::Waiting, events);
    if k < events.len() {
        assert(st[k + 1] == sync_transition(st[k], events[k]).0);
        lemma_sync_stays_stopped(events, k + 1);
        assert forall|t: int| k <= t <= events.len() implies #[trigger] st[t] == SyncState::Stopped by {}
        assert forall|t: int| k <= t < events.len() implies #[trigger] sync_transition(st[t], events[t]).1.len() == 0 by {
            assert(st[t] == SyncState::Stopped);
        }
    }
}

/// A declared or institutional clash weighs what it was declared with: its
/// issue's severity is that severity times the factor in thousandths, capped
/// at 65535, whatever the evaluator and the target.
pub proof fn law_declared_clashes_weigh_their_severity(e: DrawEvaluator, s: u16, u: u128, factor: u32, t: TargetView)
    ensures
        e.base_severity(ClashType::DeclaredClash { severity: s }) == s,
        e.base_severity(ClashType::InstitutionalClash { severity: s, institution_id: u }) == s,
        e.issue_of(ClashType::DeclaredClash { severity: s }, factor, t).severity as int == if s * factor / 1000 > 65535 {
            65535
        } else {
            s * factor / 1000
        },
        s > 0 && factor == 1000 ==> e.issue_of(ClashType::DeclaredClash { severity: s }, factor, t).severity == s,
{
    assert(s * 1000 / 1000 == s) by (nonlinear_arith);
}

/// Clashes without a declared severity weigh fixed amounts: being in one
/// team 1000, adjudicators that judged together the configured repeat
/// severity, every other earlier meeting 10.
pub proof fn law_fixed_clash_severities(e: DrawEvaluator, round: u128, chair: bool, team: bool)
    ensures
        e.base_severity(ClashType::SameTeamClash) == 1000,
        e.base_severity(ClashType::JudgeHasSeenJudge { round }) == e.config.adj_adj_repeat_clash_severity,
        e.base_severity(ClashType::SpeakersHaveMetAsNonAligned { round }) == 10,
        e.base_severity(ClashType::SpeakersHaveMetAsTeamAndNonAligned { round }) == 10,
        e.base_severity(ClashType::SpeakersHaveMetAsTeam { round }) == 10,
        e.base_severity(ClashType::JudgeHasSeenSpeaker { round, judge_was_chair: chair, speaker_was_in_team: team }) == 10,
{
}

/// A declared clash weighs more the more severe it was declared: of two
/// declared clashes, the more severe never gives the lighter issue.
pub proof fn law_declared_clash_severity_monotone(e: DrawEvaluator, s1: u16, s2: u16, factor: u32, t: TargetView)
    requires
        s1 <= s2,
    ensures
        e.issue_of(ClashType::DeclaredClash { severity: s1 }, factor, t).severity <= e.issue_of(
            ClashType::DeclaredClash { severity: s2 },
            factor,
            t,
        ).severity,
{
    assert(s1 * factor <= s2 * factor) by (nonlinear_arith)
        requires
            s1 <= s2,
    ;
    assert(s1 * factor / 1000 <= s2 * factor / 1000) by (nonlinear_arith)
        requires
            s1 * factor <= s2 * factor,
    ;
}

/// Of two adjudicators with the same clashes (the same id) in a debate, the
/// one at least as skilled in moderation and feedback never costs more to
/// chair it, and costs strictly less where it moderates better; both may
/// chair it or neither may.
pub proof fn law_chair_cost_falls_with_skill(
    ev: &DrawEvaluator,
    threshold: i32,
    a: AdjudicatorInfo,
    b: AdjudicatorInfo,
    d: DebateView,
    silent: bool,
)
    requires
        a.id == b.id,
        a.feedback_skill >= b.feedback_skill,
        a.moderation_skill >= b.moderation_skill,
    ensures
        chair_cost(ev, threshold, a, d, silent) is Some <==> chair_cost(ev, threshold, b, d, silent) is Some,
        chair_cost(ev, threshold, a, d, silent) is Some ==> chair_cost(ev, threshold, a, d, silent)->Some_0 <= chair_cost(
            ev,
            threshold,
            b,
            d,
            silent,
        )->Some_0,
        chair_cost(ev, threshold, a, d, silent) is Some && a.moderation_skill > b.moderation_skill ==> chair_cost(
            ev,
            threshold,
            a,
            d,
            silent,
        )->Some_0 < chair_cost(ev, threshold, b, d, silent)->Some_0,
        chair_cost(ev, threshold, a, d, silent) is Some && !silent && a.feedback_skill > b.feedback_skill ==> chair_cost(
            ev,
            threshold,
            a,
            d,
            silent,
        )->Some_0 < chair_cost(ev, threshold, b, d, silent)->Some_0,
{
}

/// Whether the visibility shows its form for slot `k`, the slots numbered in
/// the order of the visibility's flags.
pub open spec fn shows_slot(v: FeedbackFormVisibility, k: int) -> bool {
    if k == 0 {
        v.show_chairs_for_wings
    } else if k == 1 {
        v.show_wings_for_chairs
    } else if k == 2 {
        v.show_wings_for_presidents
    } else if k == 3 {
        v.show_wings_for_wings
    } else if k == 4 {
        v.show_presidents_for_chairs
    } else if k == 5 {
        v.show_presidents_for_wings
    } else if k == 6 {
        v.show_teams_for_chairs
    } else if k == 7 {
        v.show_teams_for_presidents
    } else if k == 8 {
        v.show_teams_for_wings
    } else if k == 9 {
        v.show_non_aligned_for_chairs
    } else if k == 10 {
        v.show_non_aligned_for_presidents
    } else if k == 11 {
        v.show_non_aligned_for_wings
    } else {
        false
    }
}

/// The union of two visibilities shows its form for exactly the slots for
/// which either shows it.
pub proof fn law_visibility_union_shows_either(a: FeedbackFormVisibility, b: FeedbackFormVisibility, k: int)
    ensures
        shows_slot(union_spec(a, b), k) <==> shows_slot(a, k) || shows_slot(b, k),
        !shows_slot(no_visibility(), k),
{
}

/// The union of visibilities does not depend on their order, and adding the
/// visibility that shows nothing, or a visibility to itself, changes nothing.
pub proof fn law_visibility_union_order_free(a: FeedbackFormVisibility, b: FeedbackFormVisibility)
    ensures
        union_spec(a, b) == union_spec(b, a),
        union_spec(a, no_visibility()) == a,
        union_spec(a, a) == a,
{
}

/// Whether the team plays in one of the debates.
pub open spec fn plays_in(ds: Seq<KoDebate>, t: u128) -> bool {
    exists|k: int| 0 <= k < ds.len() && ((#[trigger] ds[k]).government == Some(t) || ds[k].opposition == Some(t))
}

proof fn lemma_contains_split(s: Seq<u128>, t: u128)
    requires
        s.len() > 0,
    ensures
        s.contains(t) <==> s.drop_last().contains(t) || s.last() == t,
{
    if s.contains(t) {
        let i = choose|i: int| 0 <= i < s.len() && s[i] == t;
        if i < s.len() - 1 {
            assert(s.drop_last()[i] == t);
        }
    }
    if s.drop_last().contains(t) {
        let i = choose|i: int| 0 <= i < s.drop_last().len() && s.drop_last()[i] == t;
        assert(s[i] == t);
    }
    if s.last() == t {
        assert(s[s.len() - 1] == t);
    }
}

proof fn lemma_contains_push(s: Seq<u128>, x: u128, t: u128)
    ensures
        s.push(x).contains(t) <==> s.contains(t) || x == t,
{
    lemma_contains_split(s.push(x), t);
    assert(s.push(x).drop_last() =~= s);
}

proof fn lemma_excluding_contains(s: Seq<u128>, excl: Seq<u128>, t: u128)
    ensures
        excluding(s, excl).contains(t) <==> s.contains(t) && !excl.contains(t),
    decreases s.len(),
{
    if s.len() > 0 {
        lemma_excluding_contains(s.drop_last(), excl, t);
        let rest = excluding(s.drop_last(), excl);
        lemma_contains_split(s, t);
        lemma_contains_push(rest, s.last(), t);
    }
}

proof fn lemma_sort_by_position_contains(s: Seq<u128>, r: Seq<u128>, t: u128)
    ensures
        sort_by_position(s, r).contains(t) <==> s.contains(t),
    decreases s.len(),
{
    if s.len() > 0 {
        lemma_sort_by_position_contains(s.drop_last(), r, t);
        let sorted = sort_by_position(s.drop_last(), r);
        crate::breaks::lemma_key_insert_position_bound(sorted, s.last(), r);
        let pos = key_insert_position(sorted, s.last(), r) as int;
        let out = sorted.insert(pos, s.last());
        assert(out == sort_by_position(s, r));
        if out.contains(t) {
            let i = choose|i: int| 0 <= i < out.len() && out[i] == t;
            if i < pos {
                assert(sorted[i] == t);
            } else if i > pos {
                assert(sorted[i - 1] == t);
            } else {
                assert(s[s.len() - 1] == t);
            }
            if t != s.last() {
                let j = choose|j: int| 0 <= j < s.drop_last().len() && s.drop_last()[j] == t;
                assert(s[j] == t);
            }
        }
        if s.contains(t) {
            let i = choose|i: int| 0 <= i < s.len() && s[i] == t;
            if i < s.len() - 1 {
                assert(s.drop_last()[i] == t);
                let j = choose|j: int| 0 <= j < sorted.len() && sorted[j] == t;
                if j < pos {
                    assert(out[j] == t);
                } else {
                    assert(out[j + 1] == t);
                }
            } else {
                assert(out[pos] == t);
            }
        }
    }
}

proof fn lemma_tim_non_breaking_contains(ds: Seq<KoDebate>, first: Seq<u128>, t: u128)
    ensures
        crate::breaks::tim_non_breaking(ds, first).contains(t) <==> !first.contains(t) && plays_in(ds, t),
    decreases ds.len(),
{
    if ds.len() > 0 {
        let pre = ds.drop_last();
        lemma_tim_non_breaking_contains(pre, first, t);
        let d = ds.last();
        let rest = crate::breaks::tim_non_breaking(pre, first);
        let a = match d.government {
            Some(g) => if first.contains(g) { rest } else { rest.push(g) },
            None => rest,
        };
        let all = crate::breaks::tim_non_breaking(ds, first);
        assert(all == match d.opposition {
            Some(o) => if first.contains(o) { a } else { a.push(o) },
            None => a,
        });
        // what `a` and `all` hold, from what `rest` holds
        assert(a.contains(t) <==> rest.contains(t) || (d.government == Some(t) && !first.contains(t))) by {
            if a.contains(t) && !rest.contains(t) {
                let i = choose|i: int| 0 <= i < a.len() && a[i] == t;
                assert(a != rest);
                assert(i == a.len() - 1);
            }
            if rest.contains(t) {
                let i = choose|i: int| 0 <= i < rest.len() && rest[i] == t;
                assert(a[i] == t);
            }
            if d.government == Some(t) && !first.contains(t) {
                assert(a[a.len() - 1] == t);
            }
        }
        assert(all.contains(t) <==> a.contains(t) || (d.opposition == Some(t) && !first.contains(t))) by {
            if all.contains(t) && !a.contains(t) {
                let i = choose|i: int| 0 <= i < all.len() && all[i] == t;
                assert(all != a);
                assert(i == all.len() - 1);
            }
            if a.contains(t) {
                let i = choose|i: int| 0 <= i < a.len() && a[i] == t;
                assert(all[i] == t);
            }
            if d.opposition == Some(t) && !first.contains(t) {
                assert(all[all.len() - 1] == t);
            }
        }
        assert(plays_in(ds, t) <==> plays_in(pre, t) || d.government == Some(t) || d.opposition == Some(t)) by {
            if plays_in(ds, t) {
                let k = choose|k: int| 0 <= k < ds.len() && ((#[trigger] ds[k]).government == Some(t) || ds[k].opposition == Some(t));
                if k < pre.len() {
                    assert(pre[k] == ds[k]);
                }
            }
            if plays_in(pre, t) {
                let k = choose|k: int| 0 <= k < pre.len() && ((#[trigger] pre[k]).government == Some(t) || pre[k].opposition == Some(t));
                assert(ds[k] == pre[k]);
            }
            if d.government == Some(t) || d.opposition == Some(t) {
                assert(ds[ds.len() - 1] == d);
            }
        }
    }
}

/// In a TIM break, a team breaks exactly when it is one of the teams and
/// either is in the best third of the ranking or played in none of the
/// debates of the round before: every team of those debates, government or
/// opposition, that is not in the best third drops out.
pub proof fn law_tim_break_drops_teams_that_met_the_best(
    tr: Seq<u128>,
    sr: Seq<u128>,
    tm: Map<u128, Vec<u128>>,
    all_teams: Seq<u128>,
    ds: Seq<KoDebate>,
    t: u128,
)
    requires
        tr.len() >= 3,
        tr.len() % 3 == 0,
    ensures
        tim_break_spec(tr, sr, tm, all_teams, Some(ds)) is Ok,
        tim_break_spec(tr, sr, tm, all_teams, Some(ds))->Ok_0.0.contains(t) <==> all_teams.contains(t) && (tr.take(
            (tr.len() / 3) as int,
        ).contains(t) || !plays_in(ds, t)),
{
    let first = tr.take((tr.len() / 3) as int);
    let nb = crate::breaks::tim_non_breaking(ds, first);
    let breaking = excluding(all_teams, nb);
    lemma_tim_non_breaking_contains(ds, first, t);
    lemma_excluding_contains(all_teams, nb, t);
    lemma_sort_by_position_contains(breaking, tr, t);
}

} // verus!
