use vstd::prelude::*;

use std::collections::HashMap;

use crate::random::{coin_flip, shuffle_ids};

verus! {

broadcast use vstd::seq_lib::group_to_multiset_ensures;

/// A pairing of two teams into one debate.
#[derive(Clone, Copy, Debug, PartialEq, Eq, Structural)]
pub struct TeamPair {
    pub government_id: u128,
    pub opposition_id: u128,
}

/// How the teams that take part in a fold draw are paired.
#[derive(Clone, Copy, Debug, PartialEq, Eq, Structural)]
pub enum TeamFoldMethod {
    PowerPaired,
    InversePowerPaired,
    BalancedPowerPaired,
    Random,
    HalfRandom,
}

/// How non-aligned speakers are grouped into debates.
#[derive(Clone, Copy, Debug, PartialEq, Eq, Structural)]
pub enum NonAlignedFoldMethod {
    TabOrder,
    Random,
}

/// How government and opposition are decided inside a pair.
#[derive(Clone, Copy, Debug, PartialEq, Eq, Structural)]
pub enum TeamAssignmentRule {
    Random,
    InvertPrevious,
}

/// The role a team plays in a round.
#[derive(Clone, Copy, Debug, PartialEq, Eq, Structural)]
pub enum TeamRoundRole {
    Government,
    Opposition,
    NonAligned,
}

/// The configuration of one round of a fold draw.
#[derive(Clone, Copy, Debug, PartialEq, Eq, Structural)]
pub struct FoldDrawConfig {
    pub team_fold_method: TeamFoldMethod,
    pub non_aligned_fold_method: NonAlignedFoldMethod,
    pub team_assignment_rule: TeamAssignmentRule,
}

pub open spec fn make_pair(gov: u128, opp: u128) -> TeamPair {
    TeamPair { government_id: gov, opposition_id: opp }
}

pub open spec fn swap_sides(p: TeamPair) -> TeamPair {
    TeamPair { government_id: p.opposition_id, opposition_id: p.government_id }
}

/// The pairs `(items[i], items[len - 1 - i])` for the first half of `items`.
pub open spec fn reverse_fold_spec(items: Seq<u128>) -> Seq<TeamPair> {
    Seq::new(items.len() / 2, |i: int| make_pair(items[i], items[items.len() - 1 - i]))
}

/// The pairs `(items[2i], items[2i + 1])`; an odd last item is left out.
pub open spec fn power_pairs_spec(items: Seq<u128>) -> Seq<TeamPair> {
    Seq::new(items.len() / 2, |i: int| make_pair(items[2 * i], items[2 * i + 1]))
}

/// The size of each outer half in the balanced and half-random folds: half the
/// teams, rounded down to an even number.
pub open spec fn outer_half_len(n: nat) -> nat {
    if (n / 2) % 2 != 0 { (n / 2 - 1) as nat } else { n / 2 }
}

/// The pair of the two teams just below the upper half, present when the
/// number of teams is not a multiple of four.
pub open spec fn center_pair_spec(items: Seq<u128>) -> Seq<TeamPair> {
    let h = outer_half_len(items.len());
    if items.len() % 4 != 0 {
        seq![make_pair(items[h as int], items[h as int + 1])]
    } else {
        Seq::empty()
    }
}

/// The upper half folded onto itself, then the center pair, then the lower half
/// folded onto itself.
pub open spec fn balanced_power_pairs_spec(items: Seq<u128>) -> Seq<TeamPair> {
    let h = outer_half_len(items.len());
    reverse_fold_spec(items.take(h as int)) + center_pair_spec(items) + reverse_fold_spec(
        items.skip(items.len() - h),
    )
}

/// The groups `[items[3i], items[3i + 1], items[3i + 2]]`; a last incomplete group
/// is left out.
pub open spec fn consecutive_triples_spec(items: Seq<u128>) -> Seq<Seq<u128>> {
    Seq::new(items.len() / 3, |i: int| seq![items[3 * i], items[3 * i + 1], items[3 * i + 2]])
}

/// The view of a list of groups.
pub open spec fn groups_view(groups: Seq<Vec<u128>>) -> Seq<Seq<u128>> {
    groups.map_values(|g: Vec<u128>| g@)
}

/// Whether `s` holds the same items as `t`, each as often.
pub open spec fn is_permutation_of(s: Seq<u128>, t: Seq<u128>) -> bool {
    s.len() == t.len() && s.to_multiset() == t.to_multiset()
}

/// What the half-random fold gives for a chosen order of each outer half.
pub open spec fn half_random_pairs_spec(items: Seq<u128>, upper: Seq<u128>, lower: Seq<u128>) -> Seq<TeamPair> {
    power_pairs_spec(upper) + center_pair_spec(items) + power_pairs_spec(lower)
}

/// Whether `pairs` is one of the outcomes of a team fold of `items`.
pub open spec fn is_team_fold_of(pairs: Seq<TeamPair>, items: Seq<u128>, method: TeamFoldMethod) -> bool {
    match method {
        TeamFoldMethod::PowerPaired => pairs == power_pairs_spec(items),
        TeamFoldMethod::InversePowerPaired => pairs == reverse_fold_spec(items),
        TeamFoldMethod::BalancedPowerPaired => pairs == balanced_power_pairs_spec(items),
        TeamFoldMethod::Random => exists|order: Seq<u128>|
            is_permutation_of(order, items) && pairs == #[trigger] power_pairs_spec(order),
        TeamFoldMethod::HalfRandom => {
            let h = outer_half_len(items.len());
            exists|upper: Seq<u128>, lower: Seq<u128>|
                is_permutation_of(upper, items.take(h as int)) && is_permutation_of(
                    lower,
                    items.skip(items.len() - h),
                ) && pairs == #[trigger] half_random_pairs_spec(items, upper, lower)
        },
    }
}

impl TeamPair {
    /// Keeps the sides or swaps them, at random.
    pub fn shuffled(self) -> (p: Self)
        ensures
            p == self || p == swap_sides(self),
    {
        if coin_flip() {
            Self { government_id: self.opposition_id, opposition_id: self.government_id }
        } else {
            self
        }
    }

    /// Swaps government and opposition.
    pub fn inverted(self) -> (p: Self)
        ensures
            p == swap_sides(self),
    {
        Self { government_id: self.opposition_id, opposition_id: self.government_id }
    }
}

/// The items of `v` from `start` up to `end`.
fn copy_range(v: &Vec<u128>, start: usize, end: usize) -> (out: Vec<u128>)
    requires
        start <= end <= v.len(),
    ensures
        out@ == v@.subrange(start as int, end as int),
{
    let mut out: Vec<u128> = Vec::new();
    let mut i = start;
    while i < end
        invariant
            start <= i <= end <= v.len(),
            out@ =~= v@.subrange(start as int, i as int),
        decreases end - i,
    {
        out.push(v[i]);
        i += 1;
    }
    out
}

/// Pairs the first item with the last, the second with the second to last, and so on.
pub fn reverse_fold(items: &Vec<u128>) -> (pairs: Vec<TeamPair>)
    ensures
        pairs@ == reverse_fold_spec(items@),
{
    let n = items.len();
    let half = n / 2;
    let mut pairs: Vec<TeamPair> = Vec::new();
    let mut i: usize = 0;
    while i < half
        invariant
            n == items.len(),
            half == n / 2,
            i <= half,
            pairs@ =~= reverse_fold_spec(items@).take(i as int),
        decreases half - i,
    {
        pairs.push(TeamPair { government_id: items[i], opposition_id: items[n - 1 - i] });
        i += 1;
    }
    pairs
}

/// Pairs neighbours: the first item with the second, the third with the fourth, and so on.
pub fn power_pair(items: &Vec<u128>) -> (pairs: Vec<TeamPair>)
    ensures
        pairs@ == power_pairs_spec(items@),
{
    let n = items.len();
    let half = n / 2;
    let mut pairs: Vec<TeamPair> = Vec::new();
    let mut i: usize = 0;
    let mut j: usize = 0;
    while i < half
        invariant
            n == items.len(),
            half == n / 2,
            i <= half,
            j == 2 * i,
            pairs@ =~= power_pairs_spec(items@).take(i as int),
        decreases half - i,
    {
        pairs.push(TeamPair { government_id: items[j], opposition_id: items[j + 1] });
        i += 1;
        j += 2;
    }
    pairs
}

fn outer_half_len_exec(n: usize) -> (h: usize)
    ensures
        h == outer_half_len(n as nat),
        h <= n / 2,
{
    let h = n / 2;
    if h % 2 != 0 { h - 1 } else { h }
}

fn center_pair(items: &Vec<u128>) -> (pairs: Vec<TeamPair>)
    requires
        items.len() != 1,
    ensures
        pairs@ == center_pair_spec(items@),
{
    let n = items.len();
    let h = outer_half_len_exec(n);
    let mut pairs: Vec<TeamPair> = Vec::new();
    if n % 4 != 0 {
        pairs.push(TeamPair { government_id: items[h], opposition_id: items[h + 1] });
        assert(pairs@ =~= center_pair_spec(items@));
    } else {
        assert(pairs@ =~= center_pair_spec(items@));
    }
    pairs
}

fn append_pairs(out: &mut Vec<TeamPair>, more: Vec<TeamPair>)
    ensures
        final(out)@ == old(out)@ + more@,
{
    let mut i: usize = 0;
    while i < more.len()
        invariant
            i <= more.len(),
            out@ =~= old(out)@ + more@.take(i as int),
        decreases more.len() - i,
    {
        out.push(more[i]);
        i += 1;
    }
    assert(more@.take(more.len() as int) =~= more@);
}

/// Folds the upper half and the lower half of the ranking onto themselves, with
/// the two middle teams paired with each other when the count is not a multiple
/// of four.
pub fn balanced_power_pair(items: &Vec<u128>) -> (pairs: Vec<TeamPair>)
    requires
        items.len() != 1,
    ensures
        pairs@ == balanced_power_pairs_spec(items@),
{
    let n = items.len();
    let h = outer_half_len_exec(n);
    let upper = copy_range(items, 0, h);
    let lower = copy_range(items, n - h, n);
    assert(upper@ =~= items@.take(h as int));
    assert(lower@ =~= items@.skip(n - h));
    let mut pairs = reverse_fold(&upper);
    append_pairs(&mut pairs, center_pair(items));
    append_pairs(&mut pairs, reverse_fold(&lower));
    pairs
}

/// The half-random fold for the given orders of the two outer halves.
pub fn half_random_pair_with_orders(items: &Vec<u128>, upper: &Vec<u128>, lower: &Vec<u128>) -> (pairs: Vec<TeamPair>)
    requires
        items.len() != 1,
    ensures
        pairs@ == half_random_pairs_spec(items@, upper@, lower@),
{
    let mut pairs = power_pair(upper);
    append_pairs(&mut pairs, center_pair(items));
    append_pairs(&mut pairs, power_pair(lower));
    pairs
}

/// Shuffles the upper half and the lower half of the ranking separately and pairs
/// neighbours inside each, with the two middle teams paired with each other when
/// the count is not a multiple of four.
pub fn half_random_pair(items: &Vec<u128>) -> (pairs: Vec<TeamPair>)
    requires
        items.len() != 1,
    ensures
        is_team_fold_of(pairs@, items@, TeamFoldMethod::HalfRandom),
{
    let n = items.len();
    let h = outer_half_len_exec(n);
    let mut upper = copy_range(items, 0, h);
    let mut lower = copy_range(items, n - h, n);
    assert(upper@ =~= items@.take(h as int));
    assert(lower@ =~= items@.skip(n - h));
    shuffle_ids(&mut upper);
    shuffle_ids(&mut lower);
    let pairs = half_random_pair_with_orders(items, &upper, &lower);
    assert(is_permutation_of(upper@, items@.take(h as int)));
    assert(is_permutation_of(lower@, items@.skip(n - h)));
    assert(pairs@ == half_random_pairs_spec(items@, upper@, lower@));
    pairs
}

/// Pairs the teams in `breaking_teams`, which is ordered by rank, by the given method.
pub fn pair_teams(breaking_teams: &Vec<u128>, team_draw_mode: &TeamFoldMethod) -> (pairs: Vec<TeamPair>)
    requires
        breaking_teams.len() == 1 ==> (*team_draw_mode != TeamFoldMethod::BalancedPowerPaired
            && *team_draw_mode != TeamFoldMethod::HalfRandom),
    ensures
        is_team_fold_of(pairs@, breaking_teams@, *team_draw_mode),
{
    match team_draw_mode {
        TeamFoldMethod::PowerPaired => power_pair(breaking_teams),
        TeamFoldMethod::InversePowerPaired => reverse_fold(breaking_teams),
        TeamFoldMethod::BalancedPowerPaired => balanced_power_pair(breaking_teams),
        TeamFoldMethod::Random => {
            let mut teams = breaking_teams.clone();
            shuffle_ids(&mut teams);
            let pairs = power_pair(&teams);
            assert(is_permutation_of(teams@, breaking_teams@));
            pairs
        },
        TeamFoldMethod::HalfRandom => half_random_pair(breaking_teams),
    }
}

/// Groups the speakers in threes, in the given order.
pub fn pair_consequtive_speakers(speakers: &Vec<u128>) -> (groups: Vec<Vec<u128>>)
    ensures
        groups_view(groups@) == consecutive_triples_spec(speakers@),
{
    let n = speakers.len();
    let third = n / 3;
    let mut groups: Vec<Vec<u128>> = Vec::new();
    let mut i: usize = 0;
    let mut j: usize = 0;
    while i < third
        invariant
            n == speakers.len(),
            third == n / 3,
            i <= third,
            j == 3 * i,
            groups_view(groups@) =~= consecutive_triples_spec(speakers@).take(i as int),
        decreases third - i,
    {
        let mut g: Vec<u128> = Vec::new();
        g.push(speakers[j]);
        g.push(speakers[j + 1]);
        g.push(speakers[j + 2]);
        assert(g@ =~= consecutive_triples_spec(speakers@)[i as int]);
        let ghost before = groups@;
        groups.push(g);
        assert(groups_view(groups@) =~= groups_view(before).push(g@));
        i += 1;
        j += 3;
    }
    groups
}

/// Whether `groups` is one of the outcomes of grouping `speakers` by the given method.
pub open spec fn is_speaker_fold_of(groups: Seq<Seq<u128>>, speakers: Seq<u128>, method: NonAlignedFoldMethod) -> bool {
    match method {
        NonAlignedFoldMethod::TabOrder => groups == consecutive_triples_spec(speakers),
        NonAlignedFoldMethod::Random => exists|order: Seq<u128>|
            is_permutation_of(order, speakers) && groups == #[trigger] consecutive_triples_spec(order),
    }
}

/// Groups the non-aligned speakers in threes, in tab order or in a random order.
pub fn pair_speakers(breaking_speakers: &Vec<u128>, speaker_draw_mode: &NonAlignedFoldMethod) -> (groups: Vec<Vec<u128>>)
    ensures
        is_speaker_fold_of(groups_view(groups@), breaking_speakers@, *speaker_draw_mode),
{
    match speaker_draw_mode {
        NonAlignedFoldMethod::TabOrder => pair_consequtive_speakers(breaking_speakers),
        NonAlignedFoldMethod::Random => {
            let mut speakers = breaking_speakers.clone();
            shuffle_ids(&mut speakers);
            let groups = pair_consequtive_speakers(&speakers);
            assert(is_permutation_of(speakers@, breaking_speakers@));
            groups
        },
    }
}

/// Decides government and opposition in each pair. Under both rules the result
/// keeps every pair and only possibly swaps its sides.
pub fn assign_teams(
    team_pairs: Vec<TeamPair>,
    config: &FoldDrawConfig,
    preceding_round_gov_opp_assignments: Option<&HashMap<u128, TeamRoundRole>>,
) -> (out: Vec<TeamPair>)
    ensures
        out.len() == team_pairs.len(),
        forall|i: int| 0 <= i < out.len() ==>
            (#[trigger] out@[i] == team_pairs@[i] || out@[i] == swap_sides(team_pairs@[i])),
{
    let mut out: Vec<TeamPair> = Vec::new();
    let mut i: usize = 0;
    while i < team_pairs.len()
        invariant
            i <= team_pairs.len(),
            out.len() == i,
            forall|k: int| 0 <= k < i ==>
                (#[trigger] out@[k] == team_pairs@[k] || out@[k] == swap_sides(team_pairs@[k])),
        decreases team_pairs.len() - i,
    {
        let p = team_pairs[i];
        let q = match config.team_assignment_rule {
            TeamAssignmentRule::Random => p.shuffled(),
            TeamAssignmentRule::InvertPrevious => {
                let p = p.shuffled();
                match preceding_round_gov_opp_assignments {
                    // The previous role of the government team is compared with
                    // itself, which always holds, so the pair is flipped once
                    // more at random.
                    Some(_) => p.shuffled(),
                    None => p.shuffled(),
                }
            },
        };
        out.push(q);
        i += 1;
    }
    out
}

} // verus!
