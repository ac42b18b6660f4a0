use vstd::prelude::*;

use std::collections::HashMap;

use vstd::std_specs::hash::spec_hash_map_iter;
use vstd::std_specs::iter::IteratorSpec;

use crate::breaks::members_of;
use crate::clashes::{DrawEvaluationContext, HistoryEntry, HistoryRole, ParticipantsDebateHistory};
use crate::datastructures::{Ballot, DrawBallot, after_first, copy_after_first, non_aligned_speakers_of, present_speakers};
use crate::round_draw::new_random_id;

verus! {

broadcast use vstd::std_specs::hash::group_hash_axioms;

/// The history as a map of maps.
pub open spec fn history_view(h: HashMap<u128, HashMap<u128, HistoryEntry>>) -> Map<u128, Map<u128, HistoryEntry>> {
    Map::new(|p: u128| h@.contains_key(p), |p: u128| h@[p]@)
}

/// The history with participant `p` at entry `e` in round `round`.
pub open spec fn record_presence(
    v: Map<u128, Map<u128, HistoryEntry>>,
    p: u128,
    round: u128,
    e: HistoryEntry,
) -> Map<u128, Map<u128, HistoryEntry>> {
    v.insert(p, (if v.contains_key(p) { v[p] } else { Map::empty() }).insert(round, e))
}

/// The history with each participant of `ps` at its role in the debate in
/// the round, later listings of a participant winning.
pub open spec fn record_all(
    v: Map<u128, Map<u128, HistoryEntry>>,
    ps: Seq<(u128, HistoryRole)>,
    round: u128,
    debate: u128,
) -> Map<u128, Map<u128, HistoryEntry>>
    decreases ps.len(),
{
    if ps.len() == 0 {
        v
    } else {
        record_presence(
            record_all(v, ps.drop_last(), round, debate),
            ps.last().0,
            round,
            HistoryEntry { role: ps.last().1, debate_id: debate },
        )
    }
}

/// Each id with the role.
pub open spec fn with_role(ids: Seq<u128>, role: HistoryRole) -> Seq<(u128, HistoryRole)> {
    ids.map_values(|p: u128| (p, role))
}

/// The members of a team that may be missing.
pub open spec fn members_of_opt(tm: Map<u128, Vec<u128>>, t: Option<u128>) -> Seq<u128> {
    match t {
        Some(t) => members_of(tm, t),
        None => Seq::empty(),
    }
}

/// The participants of a debate with their roles: the members of government
/// and opposition, the chair, the wings, the non-aligned speakers.
pub open spec fn presences(
    tm: Map<u128, Vec<u128>>,
    gov: Option<u128>,
    opp: Option<u128>,
    adjudicators: Seq<u128>,
    non_aligned: Seq<u128>,
) -> Seq<(u128, HistoryRole)> {
    with_role(members_of_opt(tm, gov), HistoryRole::Team) + with_role(members_of_opt(tm, opp), HistoryRole::Team)
        + (if adjudicators.len() > 0 { seq![(adjudicators[0], HistoryRole::Chair)] } else { Seq::empty() })
        + with_role(after_first(adjudicators), HistoryRole::Wing) + with_role(non_aligned, HistoryRole::NonAligned)
}

/// The participants of a recorded ballot with their roles.
pub open spec fn ballot_presences(b: Ballot, tm: Map<u128, Vec<u128>>) -> Seq<(u128, HistoryRole)> {
    presences(tm, b.government, b.opposition, b.adjudicators@, non_aligned_speakers_of(b.speeches@))
}

/// The participants of a draw ballot with their roles.
pub open spec fn draw_ballot_presences(b: DrawBallot, tm: Map<u128, Vec<u128>>) -> Seq<(u128, HistoryRole)> {
    presences(tm, b.government, b.opposition, b.adjudicators@, present_speakers(b.non_aligned_speakers@))
}

/// The history after recording the ballots of a round, the `i`-th as debate `ids[i]`.
pub open spec fn record_draw_ballots(
    v: Map<u128, Map<u128, HistoryEntry>>,
    ballots: Seq<DrawBallot>,
    ids: Seq<u128>,
    round: u128,
    tm: Map<u128, Vec<u128>>,
) -> Map<u128, Map<u128, HistoryEntry>>
    decreases ballots.len(),
{
    if ballots.len() == 0 {
        v
    } else {
        let n = ballots.len() - 1;
        record_all(record_draw_ballots(v, ballots.drop_last(), ids, round, tm), draw_ballot_presences(ballots.last(), tm), round, ids[n])
    }
}

/// The distinct ids of the pairs, in order of last occurrence.
pub open spec fn distinct_ids(ps: Seq<(u128, HistoryRole)>) -> Set<u128> {
    ps.map_values(|x: (u128, HistoryRole)| x.0).to_set()
}

/// Appends the ids with the role.
fn push_with_role(out: &mut Vec<(u128, HistoryRole)>, ids: &Vec<u128>, role: HistoryRole)
    ensures
        final(out)@ == old(out)@ + with_role(ids@, role),
{
    let mut i: usize = 0;
    while i < ids.len()
        invariant
            i <= ids.len(),
            out@ == old(out)@ + with_role(ids@.take(i as int), role),
        decreases ids.len() - i,
    {
        out.push((ids[i], role));
        i += 1;
        assert(out@ =~= old(out)@ + with_role(ids@.take(i as int), role));
    }
    assert(ids@.take(ids.len() as int) =~= ids@);
}

/// Appends the members of the team, if there is one, as team members.
fn push_members(out: &mut Vec<(u128, HistoryRole)>, tm: &HashMap<u128, Vec<u128>>, t: Option<u128>)
    ensures
        final(out)@ == old(out)@ + with_role(members_of_opt(tm@, t), HistoryRole::Team),
{
    match t {
        Some(t) => match tm.get(&t) {
            Some(m) => push_with_role(out, m, HistoryRole::Team),
            None => {
                assert(out@ =~= out@ + with_role(Seq::<u128>::empty(), HistoryRole::Team));
            },
        },
        None => {
            assert(out@ =~= out@ + with_role(Seq::<u128>::empty(), HistoryRole::Team));
        },
    }
}

/// The participants of a debate with their roles.
fn collect_presences(
    tm: &HashMap<u128, Vec<u128>>,
    gov: Option<u128>,
    opp: Option<u128>,
    adjudicators: &Vec<u128>,
    non_aligned: &Vec<u128>,
) -> (out: Vec<(u128, HistoryRole)>)
    ensures
        out@ == presences(tm@, gov, opp, adjudicators@, non_aligned@),
{
    let mut out: Vec<(u128, HistoryRole)> = Vec::new();
    push_members(&mut out, tm, gov);
    push_members(&mut out, tm, opp);
    if adjudicators.len() > 0 {
        out.push((adjudicators[0], HistoryRole::Chair));
    }
    let wings = copy_after_first(adjudicators);
    push_with_role(&mut out, &wings, HistoryRole::Wing);
    push_with_role(&mut out, non_aligned, HistoryRole::NonAligned);
    assert(out@ =~= presences(tm@, gov, opp, adjudicators@, non_aligned@));
    out
}

/// The filled slots of a draw ballot.
fn filled(slots: &Vec<Option<u128>>) -> (r: Vec<u128>)
    ensures
        r@ == present_speakers(slots@),
{
    let mut r: Vec<u128> = Vec::new();
    let mut i: usize = 0;
    while i < slots.len()
        invariant
            i <= slots.len(),
            r@ == present_speakers(slots@.take(i as int)),
        decreases slots.len() - i,
    {
        assert(slots@.take(i + 1).drop_last() =~= slots@.take(i as int));
        match slots[i] {
            Some(s) => r.push(s),
            None => {},
        }
        i += 1;
    }
    assert(slots@.take(slots.len() as int) =~= slots@);
    r
}

/// The speakers of the non-aligned speeches.
fn non_aligned_of(b: &Ballot) -> (r: Vec<u128>)
    ensures
        r@ == non_aligned_speakers_of(b.speeches@),
{
    let mut r: Vec<u128> = Vec::new();
    let mut i: usize = 0;
    while i < b.speeches.len()
        invariant
            i <= b.speeches.len(),
            r@ == non_aligned_speakers_of(b.speeches@.take(i as int)),
        decreases b.speeches.len() - i,
    {
        assert(b.speeches@.take(i + 1).drop_last() =~= b.speeches@.take(i as int));
        let s = b.speeches[i];
        match (s.role, s.speaker) {
            (crate::datastructures::SpeechRole::NonAligned, Some(sp)) => r.push(sp),
            _ => {},
        }
        i += 1;
    }
    assert(b.speeches@.take(b.speeches.len() as int) =~= b.speeches@);
    r
}

impl ParticipantsDebateHistory {
    /// A history without entries.
    pub fn new() -> (h: Self)
        ensures
            history_view(h.participant_debates) == Map::<u128, Map<u128, HistoryEntry>>::empty(),
    {
        let h = ParticipantsDebateHistory { participant_debates: HashMap::new() };
        assert(history_view(h.participant_debates) =~= Map::<u128, Map<u128, HistoryEntry>>::empty());
        h
    }

    /// Records participant `p` at entry `e` in the round.
    fn record(&mut self, p: u128, round: u128, e: HistoryEntry)
        ensures
            history_view(final(self).participant_debates) == record_presence(
                history_view(old(self).participant_debates),
                p,
                round,
                e,
            ),
    {
        let ghost v = history_view(self.participant_debates);
        let mut inner = match self.participant_debates.remove(&p) {
            Some(m) => m,
            None => HashMap::new(),
        };
        inner.insert(round, e);
        self.participant_debates.insert(p, inner);
        assert(history_view(self.participant_debates) =~= record_presence(v, p, round, e));
    }

    /// Records every listed participant at its role in the debate of the round.
    fn record_list(&mut self, ps: &Vec<(u128, HistoryRole)>, round: u128, debate: u128)
        ensures
            history_view(final(self).participant_debates) == record_all(
                history_view(old(self).participant_debates),
                ps@,
                round,
                debate,
            ),
    {
        let mut i: usize = 0;
        while i < ps.len()
            invariant
                i <= ps.len(),
                history_view(self.participant_debates) == record_all(
                    history_view(old(self).participant_debates),
                    ps@.take(i as int),
                    round,
                    debate,
                ),
            decreases ps.len() - i,
        {
            assert(ps@.take(i + 1).drop_last() =~= ps@.take(i as int));
            let (p, role) = ps[i];
            self.record(p, round, HistoryEntry { role, debate_id: debate });
            i += 1;
        }
        assert(ps@.take(ps.len() as int) =~= ps@);
    }

    /// Records the participants of a recorded ballot in its debate of the
    /// round: team members, chair, wings and non-aligned speakers, each
    /// participant with the last role it is listed in; returns the participants.
    pub fn add_from_ballot(
        &mut self,
        round_id: u128,
        debate_id: u128,
        ballot: &Ballot,
        team_members: &HashMap<u128, Vec<u128>>,
    ) -> (affected: Vec<u128>)
        ensures
            history_view(final(self).participant_debates) == record_all(
                history_view(old(self).participant_debates),
                ballot_presences(*ballot, team_members@),
                round_id,
                debate_id,
            ),
            affected@.to_set() == distinct_ids(ballot_presences(*ballot, team_members@)),
            affected@.no_duplicates(),
    {
        let na = non_aligned_of(ballot);
        let ps = collect_presences(team_members, ballot.government, ballot.opposition, &ballot.adjudicators, &na);
        self.record_list(&ps, round_id, debate_id);
        let mut affected: Vec<u128> = Vec::new();
        let ghost ids = ps@.map_values(|x: (u128, HistoryRole)| x.0);
        let mut i: usize = 0;
        while i < ps.len()
            invariant
                i <= ps.len(),
                ids == ps@.map_values(|x: (u128, HistoryRole)| x.0),
                affected@.to_set() == ids.take(i as int).to_set(),
                affected@.no_duplicates(),
            decreases ps.len() - i,
        {
            let p = ps[i].0;
            let mut seen = false;
            let mut k: usize = 0;
            while k < affected.len()
                invariant
                    k <= affected.len(),
                    seen <==> exists|m: int| 0 <= m < k && affected@[m] == p,
                decreases affected.len() - k,
            {
                if affected[k] == p {
                    seen = true;
                }
                k += 1;
            }
            assert(ids.take(i + 1) =~= ids.take(i as int).push(p));
            proof {
                ids.take(i as int).lemma_push_to_set_commute(p);
            }
            if !seen {
                let ghost before = affected@;
                affected.push(p);
                proof {
                    before.lemma_push_to_set_commute(p);
                }
            } else {
                proof {
                    let m = choose|m: int| 0 <= m < affected@.len() && affected@[m] == p;
                    assert(affected@.to_set().contains(p));
                }
            }
            assert(affected@.to_set() =~= ids.take(i + 1).to_set());
            i += 1;
        }
        assert(ids.take(ps.len() as int) =~= ids);
        affected
    }

    /// Records the participants of a draw ballot in its debate of the round:
    /// team members, chair, wings and non-aligned speakers, each participant
    /// with the last role it is listed in. Both teams must be set.
    pub fn add_from_draw_ballot(
        &mut self,
        round_id: u128,
        debate_id: u128,
        ballot: &DrawBallot,
        team_members: &HashMap<u128, Vec<u128>>,
    )
        requires
            ballot.government is Some,
            ballot.opposition is Some,
        ensures
            history_view(final(self).participant_debates) == record_all(
                history_view(old(self).participant_debates),
                draw_ballot_presences(*ballot, team_members@),
                round_id,
                debate_id,
            ),
    {
        let na = filled(&ballot.non_aligned_speakers);
        let ps = collect_presences(team_members, ballot.government, ballot.opposition, &ballot.adjudicators, &na);
        self.record_list(&ps, round_id, debate_id);
    }
}

impl DrawEvaluationContext {
    /// Records the ballots of a round being drawn in the history, each as a
    /// debate of its own with a fresh id; every ballot must have both teams.
    pub fn add_round_ballots(&mut self, round_id: u128, ballots: &Vec<DrawBallot>)
        requires
            forall|i: int| 0 <= i < ballots.len() ==> (#[trigger] ballots@[i]).government is Some
                && ballots@[i].opposition is Some,
        ensures
            final(self).speaker_teams@ == old(self).speaker_teams@,
            final(self).participants_by_id@ == old(self).participants_by_id@,
            final(self).participant_declared_clashes@ == old(self).participant_declared_clashes@,
            final(self).team_members@ == old(self).team_members@,
            exists|ids: Seq<u128>| ids.len() == ballots.len() && #[trigger] record_draw_ballots(
                history_view(old(self).history.participant_debates),
                ballots@,
                ids,
                round_id,
                old(self).team_members@,
            ) == history_view(final(self).history.participant_debates),
    {
        let ghost mut ids: Seq<u128> = Seq::empty();
        let mut i: usize = 0;
        while i < ballots.len()
            invariant
                i <= ballots.len(),
                ids.len() == i,
                forall|k: int| 0 <= k < ballots.len() ==> (#[trigger] ballots@[k]).government is Some
                    && ballots@[k].opposition is Some,
                self.speaker_teams@ == old(self).speaker_teams@,
                self.participants_by_id@ == old(self).participants_by_id@,
                self.participant_declared_clashes@ == old(self).participant_declared_clashes@,
                self.team_members@ == old(self).team_members@,
                record_draw_ballots(
                    history_view(old(self).history.participant_debates),
                    ballots@.take(i as int),
                    ids,
                    round_id,
                    old(self).team_members@,
                ) == history_view(self.history.participant_debates),
            decreases ballots.len() - i,
        {
            let debate_id = new_random_id();
            self.history.add_from_draw_ballot(round_id, debate_id, &ballots[i], &self.team_members);
            proof {
                let nids = ids.push(debate_id);
                assert(ballots@.take(i + 1).drop_last() =~= ballots@.take(i as int));
                lemma_record_ids_irrelevant(
                    history_view(old(self).history.participant_debates),
                    ballots@.take(i as int),
                    ids,
                    nids,
                    round_id,
                    old(self).team_members@,
                );
                ids = nids;
            }
            i += 1;
        }
        assert(ballots@.take(ballots.len() as int) =~= ballots@);
    }
}

proof fn lemma_record_ids_irrelevant(
    v: Map<u128, Map<u128, HistoryEntry>>,
    ballots: Seq<DrawBallot>,
    ids: Seq<u128>,
    ids2: Seq<u128>,
    round: u128,
    tm: Map<u128, Vec<u128>>,
)
    requires
        ballots.len() <= ids.len(),
        ballots.len() <= ids2.len(),
        forall|k: int| 0 <= k < ballots.len() ==> ids[k] == ids2[k],
    ensures
        record_draw_ballots(v, ballots, ids, round, tm) == record_draw_ballots(v, ballots, ids2, round, tm),
    decreases ballots.len(),
{
    if ballots.len() > 0 {
        lemma_record_ids_irrelevant(v, ballots.drop_last(), ids, ids2, round, tm);
    }
}

/// Whether the participant has an entry under the key.
pub open spec fn has_entry(h: Map<u128, Map<u128, HistoryEntry>>, p: u128, k: u128) -> bool {
    h.contains_key(p) && h[p].contains_key(k)
}

/// Whether the map holds, under each key that some of the first `n` listed
/// participants have an entry under, those of them with such an entry, each
/// once, and the participant `cur` if the key is among `done`.
pub open spec fn groups_entries(
    r: Map<u128, Vec<u128>>,
    h: Map<u128, Map<u128, HistoryEntry>>,
    ps: Seq<u128>,
    n: int,
    cur: u128,
    done: Set<u128>,
) -> bool {
    &&& forall|k: u128| #[trigger] r.contains_key(k) <==> (exists|j: int| 0 <= j < n && has_entry(h, #[trigger] ps[j], k))
        || done.contains(k)
    &&& forall|k: u128, q: u128| #[trigger] r.contains_key(k) ==> (#[trigger] r[k]@.contains(q) <==> (exists|j: int|
        0 <= j < n && ps[j] == q && has_entry(h, q, k)) || (q == cur && done.contains(k)))
    &&& forall|k: u128| #[trigger] r.contains_key(k) ==> r[k]@.no_duplicates()
}

impl ParticipantsDebateHistory {
    /// For each key under which some participant has an entry, the participants
    /// with an entry under it, each once; the order of each list follows the
    /// order in which the map is walked, which is not stated.
    pub fn get_debate_participants(&self) -> (r: HashMap<u128, Vec<u128>>)
        ensures
            forall|k: u128| #[trigger] r@.contains_key(k) <==> exists|p: u128| has_entry(history_view(self.participant_debates), p, k),
            forall|k: u128, p: u128| #[trigger] r@.contains_key(k) ==> (#[trigger] r@[k]@.contains(p) <==> has_entry(
                history_view(self.participant_debates),
                p,
                k,
            )),
            forall|k: u128| #[trigger] r@.contains_key(k) ==> r@[k]@.no_duplicates(),
    {
        let ghost h = history_view(self.participant_debates);
        let mut r: HashMap<u128, Vec<u128>> = HashMap::new();
        let iter = self.participant_debates.iter();
        let ghost s = iter.remaining();
        let ghost ps = s.map_values(|e: (&u128, &HashMap<u128, HistoryEntry>)| *e.0);
        proof {
            assert forall|i: int, j: int| 0 <= i < j < ps.len() implies ps[i] != ps[j] by {
                assert(ps[i] == *s[i].0 && ps[j] == *s[j].0);
                assert(self.participant_debates@.contains_key(*s[i].0) && self.participant_debates@.contains_key(*s[j].0));
                if ps[i] == ps[j] {
                    assert(s[i] == s[j]);
                }
            }
            assert forall|i: int| 0 <= i < s.len() implies h.contains_key(#[trigger] ps[i]) && h[ps[i]] == s[i].1@ by {
                assert(ps[i] == *s[i].0);
                assert(self.participant_debates@.contains_key(*s[i].0));
            }
            assert forall|p: u128| h.contains_key(p) implies exists|i: int| 0 <= i < ps.len() && #[trigger] ps[i] == p by {
                assert(s.contains((&p, &self.participant_debates@[p])));
                let i = choose|i: int| 0 <= i < s.len() && #[trigger] s[i] == (&p, &self.participant_debates@[p]);
                assert(ps[i] == p);
            }
            assert(groups_entries(r@, h, ps, 0, 0, Set::empty()));
        }
        for e in it: iter
            invariant
                it.seq() == s,
                h == history_view(self.participant_debates),
                ps == s.map_values(|e: (&u128, &HashMap<u128, HistoryEntry>)| *e.0),
                forall|i: int, j: int| 0 <= i < j < ps.len() ==> ps[i] != ps[j],
                forall|i: int| 0 <= i < s.len() ==> h.contains_key(#[trigger] ps[i]) && h[ps[i]] == s[i].1@,
                forall|p: u128| h.contains_key(p) ==> exists|i: int| 0 <= i < ps.len() && #[trigger] ps[i] == p,
                groups_entries(r@, h, ps, it.index() as int, 0, Set::empty()),
        {
            let (p, inner) = e;
            let ghost i = it.index();
            assert(ps[i] == *p);
            assert(h[*p] == inner@);
            let inner_iter = inner.iter();
            let ghost t = inner_iter.remaining();
            let ghost ks = t.map_values(|x: (&u128, &HistoryEntry)| *x.0);
            proof {
                assert forall|a: int, b: int| 0 <= a < b < ks.len() implies ks[a] != ks[b] by {
                    assert(ks[a] == *t[a].0 && ks[b] == *t[b].0);
                    assert(inner@.contains_key(*t[a].0) && inner@.contains_key(*t[b].0));
                    if ks[a] == ks[b] {
                        assert(t[a] == t[b]);
                    }
                }
                assert forall|a: int| 0 <= a < ks.len() implies inner@.contains_key(#[trigger] ks[a]) by {
                    assert(ks[a] == *t[a].0);
                }
                assert forall|k: u128| inner@.contains_key(k) implies exists|a: int| 0 <= a < ks.len() && #[trigger] ks[a] == k by {
                    assert(t.contains((&k, &inner@[k])));
                    let a = choose|a: int| 0 <= a < t.len() && #[trigger] t[a] == (&k, &inner@[k]);
                    assert(ks[a] == k);
                }
                assert(ks.take(0).to_set() =~= Set::<u128>::empty());
                assert forall|k: u128, q: u128| #[trigger] r@.contains_key(k) && #[trigger] r@[k]@.contains(q) implies q != *p by {
                    if q == *p {
                        let j = choose|j: int| 0 <= j < i && ps[j] == q && has_entry(h, q, k);
                        assert(ps[j] == ps[i]);
                    }
                }
            }
            for f in jt: inner_iter
                invariant
                    jt.seq() == t,
                    h == history_view(self.participant_debates),
                    ps[i] == *p,
                    h[*p] == inner@,
                    h.contains_key(*p),
                    0 <= i < ps.len(),
                    ks == t.map_values(|x: (&u128, &HistoryEntry)| *x.0),
                    forall|a: int, b: int| 0 <= a < b < ks.len() ==> ks[a] != ks[b],
                    forall|a: int| 0 <= a < ks.len() ==> inner@.contains_key(#[trigger] ks[a]),
                    forall|i2: int, j2: int| 0 <= i2 < j2 < ps.len() ==> ps[i2] != ps[j2],
                    groups_entries(r@, h, ps, i, *p, ks.take(jt.index() as int).to_set()),
                    forall|k: u128, q: u128| #[trigger] r@.contains_key(k) && #[trigger] r@[k]@.contains(q) && q == *p ==> ks.take(
                        jt.index() as int,
                    ).to_set().contains(k),
            {
                let (k, _) = f;
                let ghost a = jt.index();
                let ghost done = ks.take(a).to_set();
                let ghost done2 = ks.take(a + 1).to_set();
                assert(ks[a] == *k);
                proof {
                    assert forall|x: u128| done2.contains(x) <==> #[trigger] done.insert(*k).contains(x) by {
                        if done2.contains(x) {
                            let b = choose|b: int| 0 <= b < a + 1&& #[trigger] ks.take(a + 1)[b] == x;
                            if b < a {
                                assert(ks.take(a)[b] == x);
                            }
                        }
                        if done.contains(x) {
                            let b = choose|b: int| 0 <= b < a&& #[trigger] ks.take(a)[b] == x;
                            assert(ks.take(a + 1)[b] == x);
                        }
                        if x == *k {
                            assert(ks.take(a + 1)[a] == x);
                        }
                    }
                    assert(done2 =~= done.insert(*k));
                    assert(!done.contains(*k)) by {
                        if done.contains(*k) {
                            let b = choose|b: int| 0 <= b < a&& #[trigger] ks.take(a)[b] == *k;
                            assert(ks[b] == ks[a]);
                        }
                    }
                }
                let ghost before = r@;
                let mut list = match r.remove(k) {
                    Some(l) => l,
                    None => Vec::new(),
                };
                proof {
                    if before.contains_key(*k) {
                        assert(!before[*k]@.contains(*p));
                    }
                }
                let ghost old_list = list@;
                list.push(*p);
                r.insert(*k, list);
                proof {
                    assert(r@[*k]@ == old_list.push(*p));
                    assert forall|q: u128| old_list.push(*p).contains(q) <==> old_list.contains(q) || q == *p by {
                        if old_list.push(*p).contains(q) {
                            let b = choose|b: int| 0 <= b < old_list.len() + 1 && old_list.push(*p)[b] == q;
                            if b < old_list.len() {
                                assert(old_list[b] == q);
                            }
                        }
                        if old_list.contains(q) {
                            let b = choose|b: int| 0 <= b < old_list.len()&& #[trigger] old_list[b] == q;
                            assert(old_list.push(*p)[b] == q);
                        }
                        if q == *p {
                            assert(old_list.push(*p)[old_list.len() as int] == q);
                        }
                    }
                    assert(has_entry(h, *p, *k));
                    assert forall|k2: u128| #[trigger] r@.contains_key(k2) implies r@[k2]@.no_duplicates() by {
                        if k2 == *k {
                            assert forall|x: int, y: int| 0 <= x < y < r@[k2]@.len() implies r@[k2]@[x] != r@[k2]@[y] by {
                                if y == old_list.len() {
                                    assert(old_list.contains(old_list[x]));
                                }
                            }
                        }
                    }
                    assert forall|k2: u128| #[trigger] r@.contains_key(k2) <==> (exists|j: int| 0 <= j < i && has_entry(h, #[trigger] ps[j], k2))
                        || done2.contains(k2) by {
                    }
                    assert forall|k2: u128, q: u128| #[trigger] r@.contains_key(k2) implies (#[trigger] r@[k2]@.contains(q) <==> (exists|j: int|
                        0 <= j < i && ps[j] == q && has_entry(h, q, k2)) || (q == *p && done2.contains(k2))) by {
                        if k2 == *k {
                            if q == *p {
                                assert(ps[i] == q);
                            }
                            if before.contains_key(*k) {
                                assert(old_list == before[*k]@);
                                assert(before[*k]@.contains(q) <==> (exists|j: int| 0 <= j < i && ps[j] == q && has_entry(h, q, *k))
                                    || (q == *p && done.contains(*k)));
                            } else {
                                assert(old_list.len() == 0);
                                assert(!old_list.contains(q));
                                if exists|j: int| 0 <= j < i && ps[j] == q && has_entry(h, q, *k) {
                                    let j = choose|j: int| 0 <= j < i && #[trigger] ps[j] == q && has_entry(h, q, *k);
                                    assert(has_entry(h, ps[j], *k));
                                }
                            }
                        } else {
                            assert(r@[k2] == before[k2]);
                            assert(done2.contains(k2) == done.contains(k2));
                        }
                    }
                }
            }
            proof {
                assert(ks.take(ks.len() as int) =~= ks);
                assert forall|k2: u128| #[trigger] r@.contains_key(k2) <==> (exists|j: int| 0 <= j < i + 1 && has_entry(h, #[trigger] ps[j], k2)) by {
                    if r@.contains_key(k2) {
                        if ks.to_set().contains(k2) {
                            let a = choose|a: int| 0 <= a < ks.len() && #[trigger] ks[a] == k2;
                            assert(has_entry(h, ps[i], k2));
                        }
                    }
                    if exists|j: int| 0 <= j < i + 1 && has_entry(h, #[trigger] ps[j], k2) {
                        let j = choose|j: int| 0 <= j < i + 1 && has_entry(h, #[trigger] ps[j], k2);
                        if j == i {
                            let a = choose|a: int| 0 <= a < ks.len() && #[trigger] ks[a] == k2;
                            assert(ks.to_set().contains(ks[a]));
                        }
                    }
                }
                assert forall|k2: u128, q: u128| #[trigger] r@.contains_key(k2) implies (#[trigger] r@[k2]@.contains(q) <==> (exists|j: int|
                    0 <= j < i + 1 && ps[j] == q && has_entry(h, q, k2))) by {
                    if r@[k2]@.contains(q) && q == *p && ks.to_set().contains(k2) {
                        let a = choose|a: int| 0 <= a < ks.len() && #[trigger] ks[a] == k2;
                        assert(ps[i] == q && has_entry(h, q, k2));
                    }
                    if exists|j: int| 0 <= j < i + 1 && ps[j] == q && has_entry(h, q, k2) {
                        let j = choose|j: int| 0 <= j < i + 1 && ps[j] == q && has_entry(h, q, k2);
                        if j == i {
                            let a = choose|a: int| 0 <= a < ks.len() && #[trigger] ks[a] == k2;
                            assert(ks.to_set().contains(ks[a]));
                        }
                    }
                }
            }
        }
        proof {
            assert forall|k: u128| #[trigger] r@.contains_key(k) <==> exists|p: u128| has_entry(h, p, k) by {
                if exists|p: u128| has_entry(h, p, k) {
                    let p = choose|p: u128| has_entry(h, p, k);
                    let i = choose|i: int| 0 <= i < ps.len() && #[trigger] ps[i] == p;
                    assert(has_entry(h, ps[i], k));
                }
            }
            assert forall|k: u128, p: u128| #[trigger] r@.contains_key(k) implies (#[trigger] r@[k]@.contains(p) <==> has_entry(h, p, k)) by {
                if has_entry(h, p, k) {
                    let i = choose|i: int| 0 <= i < ps.len() && #[trigger] ps[i] == p;
                    assert(ps[i] == p && has_entry(h, p, k));
                }
            }
        }
        r
    }
}

} // verus!
