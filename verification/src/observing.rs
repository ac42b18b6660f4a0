use vstd::prelude::*;

use std::collections::HashMap;

use crate::clashes::{DrawEvaluationContext, HistoryEntry, ParticipantsDebateHistory};
use crate::datastructures::Ballot;
use crate::draw_updates::TournamentDebate;
use crate::history::{ballot_presences, distinct_ids, has_entry, history_view, record_all};
use crate::participants::Participant;
use crate::tournament_context::{
    declared_clash_table, ParticipantInfo, RoundBallots, members_view, pair_severity, participant_map, speaker_team_map, table_lookup, table_view,
    team_member_map,
};
use crate::upload::NewClash;
use vstd::std_specs::iter::IteratorSpec;

verus! {

broadcast use vstd::std_specs::hash::group_hash_axioms;

/// The keys of the map, each once, in the order the map is walked.
fn key_list<V>(m: &HashMap<u128, V>) -> (ks: Vec<u128>)
    ensures
        ks@.to_set() == m@.dom(),
        ks@.no_duplicates(),
{
    let mut ks: Vec<u128> = Vec::new();
    let keys = m.keys();
    let ghost s = keys.remaining();
    proof {
        assert(s.unref().to_set() == m@.dom());
    }
    for k in it: keys
        invariant
            it.seq() == s,
            s.unref().to_set() == m@.dom(),
            s.no_duplicates(),
            ks@ == s.unref().take(it.index() as int),
    {
        ks.push(*k);
        assert(ks@ =~= s.unref().take(it.index() + 1));
    }
    assert(s.unref().take(s.len() as int) =~= s.unref());
    proof {
        assert forall|i: int, j: int| 0 <= i < ks@.len() && 0 <= j < ks@.len() && i != j implies ks@[i] != ks@[j] by {
            assert(ks@[i] == *s[i] && ks@[j] == *s[j]);
        }
    }
    ks
}

/// The entries of a participant without those in the debate.
pub open spec fn entries_without(m: Map<u128, HistoryEntry>, debate: u128) -> Map<u128, HistoryEntry> {
    Map::new(|k: u128| m.contains_key(k) && m[k].debate_id != debate, |k: u128| m[k])
}

/// The history without the entries in the debate; every participant stays.
pub open spec fn without_debate(v: Map<u128, Map<u128, HistoryEntry>>, debate: u128) -> Map<u128, Map<u128, HistoryEntry>> {
    Map::new(|p: u128| v.contains_key(p), |p: u128| entries_without(v[p], debate))
}

fn drop_debate_entries(entries: &mut HashMap<u128, HistoryEntry>, debate: u128)
    ensures
        final(entries)@ == entries_without(old(entries)@, debate),
{
    let ghost before = entries@;
    let rounds = key_list(entries);
    let mut i: usize = 0;
    while i < rounds.len()
        invariant
            i <= rounds.len(),
            rounds@.to_set() == before.dom(),
            rounds@.no_duplicates(),
            forall|k: u128|
                #[trigger] entries@.contains_key(k) <==> before.contains_key(k) && !(rounds@.take(i as int).contains(k)
                    && before[k].debate_id == debate),
            forall|k: u128| #[trigger] entries@.contains_key(k) ==> entries@[k] == before[k],
        decreases rounds.len() - i,
    {
        let r = rounds[i];
        assert(rounds@.to_set().contains(r));
        assert(rounds@.take(i + 1) =~= rounds@.take(i as int).push(r));
        assert(!rounds@.take(i as int).contains(r)) by {
            if rounds@.take(i as int).contains(r) {
                let j = choose|j: int| 0 <= j < i && rounds@.take(i as int)[j] == r;
                assert(rounds@[j] == rounds@[i as int]);
            }
        }
        let drop = match entries.get(&r) {
            Some(e) => e.debate_id == debate,
            None => false,
        };
        if drop {
            entries.remove(&r);
        }
        proof {
            let next = rounds@.take(i + 1);
            assert forall|k: u128| next.contains(k) <==> rounds@.take(i as int).contains(k) || k == r by {
                if next.contains(k) {
                    let j = choose|j: int| 0 <= j < next.len() && next[j] == k;
                    if j < i {
                        assert(rounds@.take(i as int)[j] == k);
                    }
                }
                if rounds@.take(i as int).contains(k) {
                    let j = choose|j: int| 0 <= j < i && rounds@.take(i as int)[j] == k;
                    assert(next[j] == k);
                }
                if k == r {
                    assert(next[i as int] == k);
                }
            }
        }
        i += 1;
    }
    assert(rounds@.take(rounds.len() as int) =~= rounds@);
    assert forall|k: u128| rounds@.contains(k) <==> before.contains_key(k) by {
        assert(rounds@.to_set().contains(k) <==> rounds@.contains(k));
    }
    assert(entries@ =~= entries_without(before, debate));
}

impl ParticipantsDebateHistory {
    /// Forgets the entries in the debate; every participant stays.
    pub fn remove_debate_entries(&mut self, debate_id: u128)
        ensures
            history_view(final(self).participant_debates) == without_debate(
                history_view(old(self).participant_debates),
                debate_id,
            ),
    {
        let ghost before = history_view(self.participant_debates);
        let ps = key_list(&self.participant_debates);
        let mut i: usize = 0;
        while i < ps.len()
            invariant
                i <= ps.len(),
                ps@.to_set() == before.dom(),
                ps@.no_duplicates(),
                history_view(self.participant_debates).dom() == before.dom(),
                forall|p: u128|
                    #[trigger] history_view(self.participant_debates).contains_key(p) ==> history_view(
                        self.participant_debates,
                    )[p] == if ps@.take(i as int).contains(p) {
                        entries_without(before[p], debate_id)
                    } else {
                        before[p]
                    },
            decreases ps.len() - i,
        {
            let p = ps[i];
            assert(ps@.to_set().contains(p));
            assert(ps@.take(i + 1) =~= ps@.take(i as int).push(p));
            assert(!ps@.take(i as int).contains(p)) by {
                if ps@.take(i as int).contains(p) {
                    let j = choose|j: int| 0 <= j < i && ps@.take(i as int)[j] == p;
                    assert(ps@[j] == ps@[i as int]);
                }
            }
            let ghost mid = history_view(self.participant_debates);
            match self.participant_debates.remove(&p) {
                Some(mut entries) => {
                    assert(entries@ == before[p]);
                    drop_debate_entries(&mut entries, debate_id);
                    self.participant_debates.insert(p, entries);
                    assert(history_view(self.participant_debates) =~= mid.insert(p, entries_without(before[p], debate_id)));
                },
                None => {
                    assert(false);
                },
            }
            proof {
                let next = ps@.take(i + 1);
                assert forall|q: u128| next.contains(q) <==> ps@.take(i as int).contains(q) || q == p by {
                    if next.contains(q) {
                        let j = choose|j: int| 0 <= j < next.len() && next[j] == q;
                        if j < i {
                            assert(ps@.take(i as int)[j] == q);
                        }
                    }
                    if ps@.take(i as int).contains(q) {
                        let j = choose|j: int| 0 <= j < i && ps@.take(i as int)[j] == q;
                        assert(next[j] == q);
                    }
                    if q == p {
                        assert(next[i as int] == q);
                    }
                }
            }
            i += 1;
        }
        assert(ps@.take(ps.len() as int) =~= ps@);
        assert forall|p: u128| before.contains_key(p) implies ps@.contains(p) by {
            assert(ps@.to_set().contains(p));
        }
        assert(history_view(self.participant_debates) =~= without_debate(before, debate_id));
    }
}

/// The map that inserting the pairs in order gives; a later pair with the
/// same key wins.
pub open spec fn inserted_pairs(s: Seq<(u128, u128)>) -> Map<u128, u128>
    decreases s.len(),
{
    if s.len() == 0 {
        Map::empty()
    } else {
        inserted_pairs(s.drop_last()).insert(s.last().0, s.last().1)
    }
}

/// Each recorded debate of the rounds, in order, with its round and the id
/// of its ballot.
pub open spec fn recorded_debates(rounds: Seq<RoundBallots>) -> Seq<(u128, u128, u128)>
    decreases rounds.len(),
{
    if rounds.len() == 0 {
        Seq::empty()
    } else {
        let r = rounds.last();
        recorded_debates(rounds.drop_last()) + r.debates@.map_values(|d: (u128, Ballot)| (d.0, r.round_id, d.1.uuid))
    }
}

/// The clashes as the participants they are between, by clash id; a later
/// clash with the same id wins.
pub open spec fn clash_pair_map(clashes: Seq<NewClash>) -> Map<u128, (u128, u128)>
    decreases clashes.len(),
{
    if clashes.len() == 0 {
        Map::empty()
    } else {
        let c = clashes.last();
        clash_pair_map(clashes.drop_last()).insert(c.uuid, (c.declaring_participant_id, c.target_participant_id))
    }
}

/// A tournament's clash evaluation context that follows the changes made to
/// the tournament: besides the context, the participants of each debate, the
/// ballot that counts for each debate, the participants each clash is
/// between, and the round of each debate.
pub struct TournamentObservingDrawEvaluationContext {
    pub tournament_id: u128,
    pub context: DrawEvaluationContext,
    pub debate_participants: HashMap<u128, Vec<u128>>,
    pub debate_active_ballots: HashMap<u128, u128>,
    pub clash_participants: HashMap<u128, (u128, u128)>,
    pub debate_rounds: HashMap<u128, u128>,
}

fn insert_debate_maps(
    rounds: &Vec<RoundBallots>,
    debate_rounds: &mut HashMap<u128, u128>,
    debate_active_ballots: &mut HashMap<u128, u128>,
)
    requires
        old(debate_rounds)@ == Map::<u128, u128>::empty(),
        old(debate_active_ballots)@ == Map::<u128, u128>::empty(),
    ensures
        final(debate_rounds)@ == inserted_pairs(recorded_debates(rounds@).map_values(|t: (u128, u128, u128)| (t.0, t.1))),
        final(debate_active_ballots)@ == inserted_pairs(recorded_debates(rounds@).map_values(|t: (u128, u128, u128)| (t.0, t.2))),
{
    let mut i: usize = 0;
    while i < rounds.len()
        invariant
            i <= rounds.len(),
            debate_rounds@ == inserted_pairs(recorded_debates(rounds@.take(i as int)).map_values(|t: (u128, u128, u128)| (t.0, t.1))),
            debate_active_ballots@ == inserted_pairs(recorded_debates(rounds@.take(i as int)).map_values(|t: (u128, u128, u128)| (t.0, t.2))),
        decreases rounds.len() - i,
    {
        let round = &rounds[i];
        let ghost done = recorded_debates(rounds@.take(i as int));
        assert(rounds@.take(i + 1).drop_last() =~= rounds@.take(i as int));
        let mut k: usize = 0;
        while k < round.debates.len()
            invariant
                k <= round.debates.len(),
                done == recorded_debates(rounds@.take(i as int)),
                debate_rounds@ == inserted_pairs(
                    (done + round.debates@.take(k as int).map_values(|d: (u128, Ballot)| (d.0, round.round_id, d.1.uuid))).map_values(
                        |t: (u128, u128, u128)| (t.0, t.1),
                    ),
                ),
                debate_active_ballots@ == inserted_pairs(
                    (done + round.debates@.take(k as int).map_values(|d: (u128, Ballot)| (d.0, round.round_id, d.1.uuid))).map_values(
                        |t: (u128, u128, u128)| (t.0, t.2),
                    ),
                ),
            decreases round.debates.len() - k,
        {
            let ghost before = done + round.debates@.take(k as int).map_values(|d: (u128, Ballot)| (d.0, round.round_id, d.1.uuid));
            let ghost after = done + round.debates@.take(k + 1).map_values(|d: (u128, Ballot)| (d.0, round.round_id, d.1.uuid));
            let debate_id = round.debates[k].0;
            let ballot_id = round.debates[k].1.uuid;
            debate_rounds.insert(debate_id, round.round_id);
            debate_active_ballots.insert(debate_id, ballot_id);
            proof {
                assert(after =~= before.push((debate_id, round.round_id, ballot_id)));
                assert(after.map_values(|t: (u128, u128, u128)| (t.0, t.1)).drop_last() =~= before.map_values(
                    |t: (u128, u128, u128)| (t.0, t.1),
                ));
                assert(after.map_values(|t: (u128, u128, u128)| (t.0, t.2)).drop_last() =~= before.map_values(
                    |t: (u128, u128, u128)| (t.0, t.2),
                ));
            }
            k += 1;
        }
        assert(round.debates@.take(round.debates.len() as int) =~= round.debates@);
        i += 1;
    }
    assert(rounds@.take(rounds.len() as int) =~= rounds@);
}

fn clash_pairs_of(clashes: &Vec<NewClash>) -> (m: HashMap<u128, (u128, u128)>)
    ensures
        m@ == clash_pair_map(clashes@),
{
    let mut m: HashMap<u128, (u128, u128)> = HashMap::new();
    let mut i: usize = 0;
    while i < clashes.len()
        invariant
            i <= clashes.len(),
            m@ == clash_pair_map(clashes@.take(i as int)),
        decreases clashes.len() - i,
    {
        assert(clashes@.take(i + 1).drop_last() =~= clashes@.take(i as int));
        let c = clashes[i];
        m.insert(c.uuid, (c.declaring_participant_id, c.target_participant_id));
        i += 1;
    }
    assert(clashes@.take(clashes.len() as int) =~= clashes@);
    m
}

impl TournamentObservingDrawEvaluationContext {
    /// The observing context of a tournament, from its participants, the
    /// clashes they declared and the recorded debates of its rounds: the
    /// evaluation context that these give, the participants of each recorded
    /// debate, the round and ballot of each debate, and the participants of
    /// each clash.
    pub fn new_from_tournament(
        tournament_id: u128,
        participants: Vec<Participant>,
        clashes: &Vec<NewClash>,
        rounds: &Vec<RoundBallots>,
    ) -> (c: Self)
        ensures
            c.tournament_id == tournament_id,
            c.context.speaker_teams@ == crate::tournament_context::speaker_team_map(participants@),
            c.context.participants_by_id@ == crate::tournament_context::participant_map(participants@),
            crate::tournament_context::members_view(c.context.team_members) == crate::tournament_context::team_member_map(
                participants@,
            ),
            forall|a: u128, b: u128|
                #[trigger] crate::tournament_context::table_lookup(
                    crate::tournament_context::table_view(c.context.participant_declared_clashes),
                    a,
                    b,
                ) == crate::tournament_context::pair_severity(clashes@, a, b),
            history_view(c.context.history.participant_debates) == crate::tournament_context::record_rounds(
                Map::empty(),
                rounds@,
                c.context.team_members@,
            ),
            forall|k: u128| #[trigger] c.debate_participants@.contains_key(k) <==> exists|p: u128|
                has_entry(history_view(c.context.history.participant_debates), p, k),
            forall|k: u128, p: u128| #[trigger] c.debate_participants@.contains_key(k) ==> (
            #[trigger] c.debate_participants@[k]@.contains(p) <==> has_entry(
                history_view(c.context.history.participant_debates),
                p,
                k,
            )),
            c.debate_rounds@ == inserted_pairs(recorded_debates(rounds@).map_values(|t: (u128, u128, u128)| (t.0, t.1))),
            c.debate_active_ballots@ == inserted_pairs(recorded_debates(rounds@).map_values(|t: (u128, u128, u128)| (t.0, t.2))),
            c.clash_participants@ == clash_pair_map(clashes@),
    {
        let context = DrawEvaluationContext::new_for_tournament(participants, clashes, rounds);
        let debate_participants = context.history.get_debate_participants();
        let mut debate_rounds: HashMap<u128, u128> = HashMap::new();
        let mut debate_active_ballots: HashMap<u128, u128> = HashMap::new();
        insert_debate_maps(rounds, &mut debate_rounds, &mut debate_active_ballots);
        let clash_participants = clash_pairs_of(clashes);
        TournamentObservingDrawEvaluationContext {
            tournament_id,
            context,
            debate_participants,
            debate_active_ballots,
            clash_participants,
            debate_rounds,
        }
    }
}

/// The history without the entries in any of the debates, forgotten in order.
pub open spec fn without_debates(v: Map<u128, Map<u128, HistoryEntry>>, debates: Seq<u128>) -> Map<u128, Map<u128, HistoryEntry>>
    decreases debates.len(),
{
    if debates.len() == 0 {
        v
    } else {
        without_debate(without_debates(v, debates.drop_last()), debates.last())
    }
}

/// The sequence with the element added at the end unless it is in it already.
pub open spec fn push_once<T>(s: Seq<T>, x: T) -> Seq<T> {
    if s.contains(x) {
        s
    } else {
        s.push(x)
    }
}

/// How the changed debates, in order, change the round of each debate, the
/// ballot that counts for it, the debates whose ballot is to be recorded
/// anew (with that ballot, each pair once) and the ballots to load (those
/// not among the changed ballots): a debate whose ballot is not the one that
/// counts already gets it recorded anew.
pub open spec fn debate_changes(
    rounds: Map<u128, u128>,
    active: Map<u128, u128>,
    changed: Seq<TournamentDebate>,
    changed_ballots: Seq<u128>,
) -> (Map<u128, u128>, Map<u128, u128>, Seq<(u128, u128)>, Seq<u128>)
    decreases changed.len(),
{
    if changed.len() == 0 {
        (rounds, active, Seq::empty(), Seq::empty())
    } else {
        let (r, a, re, tl) = debate_changes(rounds, active, changed.drop_last(), changed_ballots);
        let d = changed.last();
        let r2 = r.insert(d.uuid, d.round_id);
        if a.contains_key(d.uuid) && a[d.uuid] == d.ballot_id {
            (r2, a, re, tl)
        } else {
            (
                r2,
                a.insert(d.uuid, d.ballot_id),
                push_once(re, (d.uuid, d.ballot_id)),
                if changed_ballots.contains(d.ballot_id) {
                    tl
                } else {
                    tl.push(d.ballot_id)
                },
            )
        }
    }
}

/// What changed in the tournament, as the observing context follows it.
pub struct ObservedChanges {
    pub deleted_debates: Vec<u128>,
    pub changed_debates: Vec<TournamentDebate>,
    pub changed_ballots: Vec<Ballot>,
    pub participants_changed: bool,
    pub deleted_participants: Vec<u128>,
    pub deleted_clashes: Vec<u128>,
    pub added_clashes: Vec<NewClash>,
}

/// The debates whose ballot is to be recorded anew, each with that ballot,
/// and the ballots to load for that.
pub struct PendingBallots {
    pub reevaluate: Vec<(u128, u128)>,
    pub to_load: Vec<u128>,
}

/// The ids of the ballots.
pub open spec fn ballot_ids(ballots: Seq<Ballot>) -> Seq<u128> {
    ballots.map_values(|b: Ballot| b.uuid)
}

fn contains_u128(v: &Vec<u128>, x: u128) -> (b: bool)
    ensures
        b == v@.contains(x),
{
    let mut i: usize = 0;
    while i < v.len()
        invariant
            i <= v.len(),
            forall|j: int| 0 <= j < i ==> v@[j] != x,
        decreases v.len() - i,
    {
        if v[i] == x {
            return true;
        }
        i += 1;
    }
    false
}

fn contains_pair(v: &Vec<(u128, u128)>, x: (u128, u128)) -> (b: bool)
    ensures
        b == v@.contains(x),
{
    let mut i: usize = 0;
    while i < v.len()
        invariant
            i <= v.len(),
            forall|j: int| 0 <= j < i ==> v@[j] != x,
        decreases v.len() - i,
    {
        if v[i].0 == x.0 && v[i].1 == x.1 {
            return true;
        }
        i += 1;
    }
    false
}

fn push_pair_once(v: &mut Vec<(u128, u128)>, x: (u128, u128))
    ensures
        final(v)@ == push_once(old(v)@, x),
{
    if !contains_pair(v, x) {
        v.push(x);
    }
}

fn ids_of_ballots(ballots: &Vec<Ballot>) -> (r: Vec<u128>)
    ensures
        r@ == ballot_ids(ballots@),
{
    let mut r: Vec<u128> = Vec::new();
    let mut i: usize = 0;
    while i < ballots.len()
        invariant
            i <= ballots.len(),
            r@ == ballot_ids(ballots@.take(i as int)),
        decreases ballots.len() - i,
    {
        r.push(ballots[i].uuid);
        i += 1;
        assert(r@ =~= ballot_ids(ballots@.take(i as int)));
    }
    assert(ballots@.take(ballots.len() as int) =~= ballots@);
    r
}

impl TournamentObservingDrawEvaluationContext {
    fn forget_debates(&mut self, debates: &Vec<u128>)
        ensures
            history_view(final(self).context.history.participant_debates) == without_debates(
                history_view(old(self).context.history.participant_debates),
                debates@,
            ),
            final(self).context.speaker_teams == old(self).context.speaker_teams,
            final(self).context.participants_by_id == old(self).context.participants_by_id,
            final(self).context.participant_declared_clashes == old(self).context.participant_declared_clashes,
            final(self).context.team_members == old(self).context.team_members,
            final(self).tournament_id == old(self).tournament_id,
            final(self).debate_participants == old(self).debate_participants,
            final(self).debate_active_ballots == old(self).debate_active_ballots,
            final(self).clash_participants == old(self).clash_participants,
            final(self).debate_rounds == old(self).debate_rounds,
    {
        let mut i: usize = 0;
        while i < debates.len()
            invariant
                i <= debates.len(),
                history_view(self.context.history.participant_debates) == without_debates(
                    history_view(old(self).context.history.participant_debates),
                    debates@.take(i as int),
                ),
                self.context.speaker_teams == old(self).context.speaker_teams,
                self.context.participants_by_id == old(self).context.participants_by_id,
                self.context.participant_declared_clashes == old(self).context.participant_declared_clashes,
                self.context.team_members == old(self).context.team_members,
                self.tournament_id == old(self).tournament_id,
                self.debate_participants == old(self).debate_participants,
                self.debate_active_ballots == old(self).debate_active_ballots,
                self.clash_participants == old(self).clash_participants,
                self.debate_rounds == old(self).debate_rounds,
            decreases debates.len() - i,
        {
            assert(debates@.take(i + 1).drop_last() =~= debates@.take(i as int));
            self.context.history.remove_debate_entries(debates[i]);
            i += 1;
        }
        assert(debates@.take(debates.len() as int) =~= debates@);
    }
}

/// Whether some debate counts the ballot.
pub open spec fn counted_ballot(active: Map<u128, u128>, ballot: u128) -> bool {
    exists|d: u128| active.contains_key(d) && active[d] == ballot
}

/// For each ballot that counts for some debate, one such debate.
fn debates_of_ballots(active: &HashMap<u128, u128>) -> (r: HashMap<u128, u128>)
    ensures
        forall|b: u128| #[trigger] r@.contains_key(b) <==> counted_ballot(active@, b),
        forall|b: u128| #[trigger] r@.contains_key(b) ==> active@.contains_key(r@[b]) && active@[r@[b]] == b,
{
    let ds = key_list(active);
    let mut r: HashMap<u128, u128> = HashMap::new();
    let mut i: usize = 0;
    while i < ds.len()
        invariant
            i <= ds.len(),
            ds@.to_set() == active@.dom(),
            forall|b: u128| #[trigger] r@.contains_key(b) <==> exists|j: int| 0 <= j < i && active@[ds@[j]] == b,
            forall|b: u128| #[trigger] r@.contains_key(b) ==> active@.contains_key(r@[b]) && active@[r@[b]] == b,
        decreases ds.len() - i,
    {
        let d = ds[i];
        assert(ds@.to_set().contains(d));
        let b = *active.get(&d).unwrap();
        r.insert(b, d);
        i += 1;
        proof {
            assert forall|x: u128| #[trigger] r@.contains_key(x) <==> exists|j: int| 0 <= j < i && active@[ds@[j]] == x by {
                if x == b {
                    assert(active@[ds@[i - 1]] == x);
                }
            }
        }
    }
    proof {
        assert forall|b: u128| counted_ballot(active@, b) implies #[trigger] r@.contains_key(b) by {
            let d = choose|d: u128| active@.contains_key(d) && active@[d] == b;
            assert(ds@.to_set().contains(d));
            let j = choose|j: int| 0 <= j < ds@.len() && ds@[j] == d;
            assert(active@[ds@[j]] == b);
        }
        assert forall|b: u128| #[trigger] r@.contains_key(b) implies counted_ballot(active@, b) by {
            let j = choose|j: int| 0 <= j < ds@.len() && active@[ds@[j]] == b;
            assert(ds@.to_set().contains(ds@[j]));
        }
    }
    r
}

impl TournamentObservingDrawEvaluationContext {
    /// The first part of following a change of the tournament: forgets the
    /// entries of the deleted debates; records the round of each changed
    /// debate and, where its ballot is not the one that counts, makes it the
    /// one, marks the debate for its ballot to be recorded anew and lists the
    /// ballot to load unless it is among the changed ballots; then marks, for
    /// each changed ballot that counts for some debate, one such debate. Each
    /// debate and ballot is marked once.
    pub fn begin_update(&mut self, changes: &ObservedChanges) -> (pending: PendingBallots)
        ensures
            history_view(final(self).context.history.participant_debates) == without_debates(
                history_view(old(self).context.history.participant_debates),
                changes.deleted_debates@,
            ),
            ({
                let (r, a, re, tl) = debate_changes(
                    old(self).debate_rounds@,
                    old(self).debate_active_ballots@,
                    changes.changed_debates@,
                    ballot_ids(changes.changed_ballots@),
                );
                &&& final(self).debate_rounds@ == r
                &&& final(self).debate_active_ballots@ == a
                &&& pending.to_load@ == tl
                &&& pending.reevaluate@.no_duplicates()
                &&& re.len() <= pending.reevaluate@.len()
                &&& pending.reevaluate@.take(re.len() as int) == re
                &&& forall|k: int|
                    re.len() <= k < pending.reevaluate@.len() ==> {
                        let x = #[trigger] pending.reevaluate@[k];
                        &&& ballot_ids(changes.changed_ballots@).contains(x.1)
                        &&& a.contains_key(x.0)
                        &&& a[x.0] == x.1
                    }
                &&& forall|j: int|
                    0 <= j < changes.changed_ballots@.len() && counted_ballot(a, #[trigger] changes.changed_ballots@[j].uuid)
                        ==> exists|x: (u128, u128)|
                        #![trigger pending.reevaluate@.contains(x)]
                        pending.reevaluate@.contains(x) && x.1 == changes.changed_ballots@[j].uuid && a.contains_key(x.0)
                            && a[x.0] == x.1
            }),
            final(self).context.speaker_teams == old(self).context.speaker_teams,
            final(self).context.participants_by_id == old(self).context.participants_by_id,
            final(self).context.participant_declared_clashes == old(self).context.participant_declared_clashes,
            final(self).context.team_members == old(self).context.team_members,
            final(self).tournament_id == old(self).tournament_id,
            final(self).debate_participants == old(self).debate_participants,
            final(self).clash_participants == old(self).clash_participants,
    {
        self.forget_debates(&changes.deleted_debates);
        let changed_ids = ids_of_ballots(&changes.changed_ballots);
        let ghost r0 = self.debate_rounds@;
        let ghost a0 = self.debate_active_ballots@;
        let ghost cds = changes.changed_debates@;
        let mut reevaluate: Vec<(u128, u128)> = Vec::new();
        let mut to_load: Vec<u128> = Vec::new();
        let mut i: usize = 0;
        while i < changes.changed_debates.len()
            invariant
                i <= changes.changed_debates.len(),
                cds == changes.changed_debates@,
                changed_ids@ == ballot_ids(changes.changed_ballots@),
                (self.debate_rounds@, self.debate_active_ballots@, reevaluate@, to_load@) == debate_changes(
                    r0,
                    a0,
                    cds.take(i as int),
                    changed_ids@,
                ),
                reevaluate@.no_duplicates(),
                self.context.speaker_teams == old(self).context.speaker_teams,
                self.context.participants_by_id == old(self).context.participants_by_id,
                self.context.participant_declared_clashes == old(self).context.participant_declared_clashes,
                self.context.team_members == old(self).context.team_members,
                self.tournament_id == old(self).tournament_id,
                self.debate_participants == old(self).debate_participants,
                self.clash_participants == old(self).clash_participants,
                history_view(self.context.history.participant_debates) == without_debates(
                    history_view(old(self).context.history.participant_debates),
                    changes.deleted_debates@,
                ),
            decreases changes.changed_debates.len() - i,
        {
            assert(cds.take(i + 1).drop_last() =~= cds.take(i as int));
            let d = changes.changed_debates[i];
            self.debate_rounds.insert(d.uuid, d.round_id);
            let same = match self.debate_active_ballots.get(&d.uuid) {
                Some(b) => *b == d.ballot_id,
                None => false,
            };
            if !same {
                let ghost before = reevaluate@;
                push_pair_once(&mut reevaluate, (d.uuid, d.ballot_id));
                proof {
                    if !before.contains((d.uuid, d.ballot_id)) {
                        assert forall|x: int, y: int| 0 <= x < y < reevaluate@.len() implies reevaluate@[x] != reevaluate@[y] by {
                            if y == before.len() {
                                assert(before.contains(before[x]));
                            }
                        }
                    }
                }
                if !contains_u128(&changed_ids, d.ballot_id) {
                    to_load.push(d.ballot_id);
                }
                self.debate_active_ballots.insert(d.uuid, d.ballot_id);
            }
            i += 1;
        }
        assert(cds.take(cds.len() as int) =~= cds);
        let ghost re = reevaluate@;
        let ghost a = self.debate_active_ballots@;
        let ballot_debates = debates_of_ballots(&self.debate_active_ballots);
        let mut k: usize = 0;
        while k < changes.changed_ballots.len()
            invariant
                k <= changes.changed_ballots.len(),
                a == self.debate_active_ballots@,
                changed_ids@ == ballot_ids(changes.changed_ballots@),
                forall|b: u128| #[trigger] ballot_debates@.contains_key(b) <==> counted_ballot(a, b),
                forall|b: u128| #[trigger] ballot_debates@.contains_key(b) ==> a.contains_key(ballot_debates@[b]) && a[ballot_debates@[b]] == b,
                reevaluate@.no_duplicates(),
                re.len() <= reevaluate@.len(),
                reevaluate@.take(re.len() as int) == re,
                forall|m: int|
                    re.len() <= m < reevaluate@.len() ==> {
                        let x = #[trigger] reevaluate@[m];
                        &&& ballot_ids(changes.changed_ballots@).contains(x.1)
                        &&& a.contains_key(x.0)
                        &&& a[x.0] == x.1
                    },
                forall|j: int|
                    0 <= j < k && counted_ballot(a, #[trigger] changes.changed_ballots@[j].uuid) ==> exists|x: (u128, u128)|
                        #![trigger reevaluate@.contains(x)]
                        reevaluate@.contains(x) && x.1 == changes.changed_ballots@[j].uuid && a.contains_key(x.0) && a[x.0] == x.1,
            decreases changes.changed_ballots.len() - k,
        {
            let b = changes.changed_ballots[k].uuid;
            assert(changed_ids@[k as int] == b);
            let ghost before = reevaluate@;
            match ballot_debates.get(&b) {
                Some(d) => {
                    let x = (*d, b);
                    push_pair_once(&mut reevaluate, x);
                    proof {
                        assert(reevaluate@.contains(x)) by {
                            if before.contains(x) {
                                let m = choose|m: int| 0 <= m < before.len() && before[m] == x;
                                assert(reevaluate@[m] == x);
                            } else {
                                assert(reevaluate@[before.len() as int] == x);
                            }
                        }
                        assert(reevaluate@.take(re.len() as int) =~= re) by {
                            assert(reevaluate@.take(re.len() as int) =~= before.take(re.len() as int));
                        }
                        if !before.contains(x) {
                            assert forall|p: int, q: int| 0 <= p < q < reevaluate@.len() implies reevaluate@[p] != reevaluate@[q] by {
                                if q == before.len() {
                                    assert(before.contains(before[p]));
                                }
                            }
                        }
                        assert(ballot_ids(changes.changed_ballots@)[k as int] == b);
                        assert forall|j: int|
                            0 <= j < k + 1 && counted_ballot(a, #[trigger] changes.changed_ballots@[j].uuid) implies exists|y: (u128, u128)|
                            #![trigger reevaluate@.contains(y)]
                            reevaluate@.contains(y) && y.1 == changes.changed_ballots@[j].uuid && a.contains_key(y.0) && a[y.0] == y.1 by {
                            if j < k {
                                let y = choose|y: (u128, u128)|
                                    #![trigger before.contains(y)]
                                    before.contains(y) && y.1 == changes.changed_ballots@[j].uuid && a.contains_key(y.0) && a[y.0] == y.1;
                                let m = choose|m: int| 0 <= m < before.len() && before[m] == y;
                                assert(reevaluate@[m] == y);
                                assert(reevaluate@.contains(y));
                            } else {
                                assert(reevaluate@.contains(x));
                            }
                        }
                    }
                },
                None => {
                    proof {
                        assert forall|j: int|
                            0 <= j < k + 1 && counted_ballot(a, #[trigger] changes.changed_ballots@[j].uuid) implies exists|y: (u128, u128)|
                            #![trigger reevaluate@.contains(y)]
                            reevaluate@.contains(y) && y.1 == changes.changed_ballots@[j].uuid && a.contains_key(y.0) && a[y.0] == y.1 by {
                            if j == k {
                                assert(!counted_ballot(a, b));
                            }
                        }
                    }
                },
            }
            k += 1;
        }
        PendingBallots { reevaluate, to_load }
    }
}

/// The last ballot with the id.
pub open spec fn ballot_lookup(ballots: Seq<Ballot>, id: u128) -> Option<Ballot>
    decreases ballots.len(),
{
    if ballots.len() == 0 {
        None
    } else if ballots.last().uuid == id {
        Some(ballots.last())
    } else {
        ballot_lookup(ballots.drop_last(), id)
    }
}

/// The round of the debate, 0 where it has none.
pub open spec fn round_of(rounds: Map<u128, u128>, debate: u128) -> u128 {
    if rounds.contains_key(debate) {
        rounds[debate]
    } else {
        0
    }
}

/// The history after recording each pending debate, in order, from its
/// ballot, in the round of the debate.
pub open spec fn record_pending(
    v: Map<u128, Map<u128, HistoryEntry>>,
    pending: Seq<(u128, u128)>,
    ballots: Seq<Ballot>,
    rounds: Map<u128, u128>,
    tm: Map<u128, Vec<u128>>,
) -> Map<u128, Map<u128, HistoryEntry>>
    decreases pending.len(),
{
    if pending.len() == 0 {
        v
    } else {
        let x = pending.last();
        record_all(
            record_pending(v, pending.drop_last(), ballots, rounds, tm),
            ballot_presences(ballot_lookup(ballots, x.1).unwrap(), tm),
            round_of(rounds, x.0),
            x.0,
        )
    }
}

/// The participants of the ballots of the pending debates.
pub open spec fn pending_participants(pending: Seq<(u128, u128)>, ballots: Seq<Ballot>, tm: Map<u128, Vec<u128>>) -> Set<u128>
    decreases pending.len(),
{
    if pending.len() == 0 {
        Set::empty()
    } else {
        pending_participants(pending.drop_last(), ballots, tm).union(
            distinct_ids(ballot_presences(ballot_lookup(ballots, pending.last().1).unwrap(), tm)),
        )
    }
}

/// The debates in which the history has one of the participants.
pub open spec fn debates_of(h: Map<u128, Map<u128, HistoryEntry>>, ps: Set<u128>) -> Set<u128> {
    Set::new(|d: u128| exists|p: u128, k: u128| ps.contains(p) && has_entry(h, p, k) && h[p][k].debate_id == d)
}

fn extend_ids(out: &mut Vec<u128>, xs: &Vec<u128>)
    ensures
        final(out)@ == old(out)@ + xs@,
{
    let mut k: usize = 0;
    while k < xs.len()
        invariant
            k <= xs.len(),
            out@ == old(out)@ + xs@.take(k as int),
        decreases xs.len() - k,
    {
        out.push(xs[k]);
        k += 1;
        assert(out@ =~= old(out)@ + xs@.take(k as int));
    }
    assert(xs@.take(xs.len() as int) =~= xs@);
}

fn find_ballot(ballots: &Vec<Ballot>, id: u128) -> (r: Option<&Ballot>)
    ensures
        match r {
            Some(b) => ballot_lookup(ballots@, id) == Some(*b),
            None => ballot_lookup(ballots@, id) is None,
        },
{
    let mut i: usize = ballots.len();
    assert(ballots@.take(ballots.len() as int) =~= ballots@);
    while i > 0
        invariant
            i <= ballots.len(),
            ballot_lookup(ballots@, id) == ballot_lookup(ballots@.take(i as int), id),
        decreases i,
    {
        assert(ballots@.take(i as int).drop_last() =~= ballots@.take(i - 1));
        if ballots[i - 1].uuid == id {
            return Some(&ballots[i - 1]);
        }
        i -= 1;
    }
    None
}

/// Whether the participant has an entry in the debate.
pub open spec fn debate_of_participant(h: Map<u128, Map<u128, HistoryEntry>>, p: u128, d: u128) -> bool {
    exists|k: u128| has_entry(h, p, k) && h[p][k].debate_id == d
}

/// Whether one of the first `i` listed rounds has an entry in the debate.
pub open spec fn debate_seen(entries: Map<u128, HistoryEntry>, rounds: Seq<u128>, i: int, d: u128) -> bool {
    exists|j: int| 0 <= j < i && entries[rounds[j]].debate_id == d
}

/// Whether one of the first `j` listed participants has an entry in the debate.
pub open spec fn participant_debate_seen(h: Map<u128, Map<u128, HistoryEntry>>, ps: Seq<u128>, j: int, d: u128) -> bool {
    exists|m: int| 0 <= m < j && debate_of_participant(h, ps[m], d)
}

/// Appends the debates of the participant's entries.
fn push_debates_of(out: &mut Vec<u128>, h: &ParticipantsDebateHistory, p: u128)
    ensures
        final(out)@.to_set() == old(out)@.to_set().union(
            Set::new(|d: u128| debate_of_participant(history_view(h.participant_debates), p, d)),
        ),
{
    let ghost hv = history_view(h.participant_debates);
    let ghost start = out@;
    let ghost target = Set::new(|d: u128| debate_of_participant(hv, p, d));
    match h.participant_debates.get(&p) {
        Some(entries) => {
            assert(entries@ == hv[p]);
            let rounds = key_list(entries);
            let mut i: usize = 0;
            while i < rounds.len()
                invariant
                    i <= rounds.len(),
                    rounds@.to_set() == entries@.dom(),
                    entries@ == hv[p],
                    hv.contains_key(p),
                    out@.to_set() == start.to_set().union(Set::new(|d: u128| debate_seen(entries@, rounds@, i as int, d))),
                decreases rounds.len() - i,
            {
                let r = rounds[i];
                assert(rounds@.to_set().contains(r));
                let d = entries.get(&r).unwrap().debate_id;
                let ghost prev = out@;
                out.push(d);
                i += 1;
                proof {
                    prev.lemma_push_to_set_commute(d);
                    assert forall|e: u128| #[trigger] debate_seen(entries@, rounds@, i as int, e) <==> debate_seen(
                        entries@,
                        rounds@,
                        i - 1,
                        e,
                    ) || e == d by {
                        if e == d {
                            assert(entries@[rounds@[i - 1]].debate_id == e);
                        }
                        if debate_seen(entries@, rounds@, i as int, e) {
                            let j = choose|j: int| 0 <= j < i && entries@[rounds@[j]].debate_id == e;
                            if j < i - 1 {
                                assert(debate_seen(entries@, rounds@, i - 1, e));
                            }
                        }
                    }
                    assert(prev.to_set() == start.to_set().union(Set::new(|e: u128| debate_seen(entries@, rounds@, i - 1, e))));
                    assert(out@.to_set() =~= start.to_set().union(Set::new(|e: u128| debate_seen(entries@, rounds@, i as int, e))));
                }
            }
            proof {
                assert forall|e: u128| #[trigger] debate_seen(entries@, rounds@, rounds@.len() as int, e) <==> target.contains(e) by {
                    if debate_seen(entries@, rounds@, rounds@.len() as int, e) {
                        let j = choose|j: int| 0 <= j < rounds@.len() && entries@[rounds@[j]].debate_id == e;
                        assert(rounds@.to_set().contains(rounds@[j]));
                        assert(has_entry(hv, p, rounds@[j]));
                    }
                    if target.contains(e) {
                        let k = choose|k: u128| has_entry(hv, p, k) && hv[p][k].debate_id == e;
                        assert(rounds@.to_set().contains(k));
                        let j = choose|j: int| 0 <= j < rounds@.len() && rounds@[j] == k;
                        assert(entries@[rounds@[j]].debate_id == e);
                    }
                }
                assert(out@.to_set() =~= start.to_set().union(target));
            }
        },
        None => {
            assert(target =~= Set::empty());
            assert(out@.to_set() =~= start.to_set().union(target));
        },
    }
}

impl TournamentObservingDrawEvaluationContext {
    /// The second part of following a change: records each pending debate,
    /// in order, from its ballot (the last with its id among the changed
    /// ballots followed by the loaded ones), in the round of the debate (0
    /// where it has none). Returns the debates affected: the pending ones and
    /// every debate, in the history so recorded, of a participant of those
    /// ballots.
    pub fn record_pending_ballots(&mut self, pending: &PendingBallots, ballots: &Vec<Ballot>) -> (affected: Vec<u128>)
        requires
            forall|k: int| 0 <= k < pending.reevaluate@.len() ==> ballot_lookup(ballots@, #[trigger] pending.reevaluate@[k].1) is Some,
        ensures
            history_view(final(self).context.history.participant_debates) == record_pending(
                history_view(old(self).context.history.participant_debates),
                pending.reevaluate@,
                ballots@,
                old(self).debate_rounds@,
                old(self).context.team_members@,
            ),
            affected@.to_set() == pending.reevaluate@.map_values(|x: (u128, u128)| x.0).to_set().union(
                debates_of(
                    history_view(final(self).context.history.participant_debates),
                    pending_participants(pending.reevaluate@, ballots@, old(self).context.team_members@),
                ),
            ),
            final(self).context.speaker_teams == old(self).context.speaker_teams,
            final(self).context.participants_by_id == old(self).context.participants_by_id,
            final(self).context.participant_declared_clashes == old(self).context.participant_declared_clashes,
            final(self).context.team_members == old(self).context.team_members,
            final(self).tournament_id == old(self).tournament_id,
            final(self).debate_participants == old(self).debate_participants,
            final(self).debate_active_ballots == old(self).debate_active_ballots,
            final(self).clash_participants == old(self).clash_participants,
            final(self).debate_rounds == old(self).debate_rounds,
    {
        let ghost tm = self.context.team_members@;
        let ghost rounds = self.debate_rounds@;
        let ghost pv = pending.reevaluate@;
        let mut participants: Vec<u128> = Vec::new();
        let mut affected: Vec<u128> = Vec::new();
        let mut i: usize = 0;
        while i < pending.reevaluate.len()
            invariant
                i <= pending.reevaluate.len(),
                pv == pending.reevaluate@,
                forall|k: int| 0 <= k < pv.len() ==> ballot_lookup(ballots@, #[trigger] pv[k].1) is Some,
                tm == self.context.team_members@,
                rounds == self.debate_rounds@,
                history_view(self.context.history.participant_debates) == record_pending(
                    history_view(old(self).context.history.participant_debates),
                    pv.take(i as int),
                    ballots@,
                    rounds,
                    tm,
                ),
                participants@.to_set() == pending_participants(pv.take(i as int), ballots@, tm),
                affected@ == pv.take(i as int).map_values(|x: (u128, u128)| x.0),
                self.context.speaker_teams == old(self).context.speaker_teams,
                self.context.participants_by_id == old(self).context.participants_by_id,
                self.context.participant_declared_clashes == old(self).context.participant_declared_clashes,
                self.context.team_members == old(self).context.team_members,
                self.tournament_id == old(self).tournament_id,
                self.debate_participants == old(self).debate_participants,
                self.debate_active_ballots == old(self).debate_active_ballots,
                self.clash_participants == old(self).clash_participants,
                self.debate_rounds == old(self).debate_rounds,
            decreases pending.reevaluate.len() - i,
        {
            let (debate, ballot_id) = pending.reevaluate[i];
            assert(pv.take(i + 1).drop_last() =~= pv.take(i as int));
            assert(pv.take(i + 1).last() == (debate, ballot_id));
            let ballot = match find_ballot(ballots, ballot_id) {
                Some(b) => b,
                None => {
                    assert(false);
                    return Vec::new();
                },
            };
            let round = match self.debate_rounds.get(&debate) {
                Some(r) => *r,
                None => 0,
            };
            let ps = self.context.history.add_from_ballot(round, debate, ballot, &self.context.team_members);
            let ghost prev = participants@;
            extend_ids(&mut participants, &ps);
            proof {
                vstd::seq_lib::seq_to_set_distributes_over_add(prev, ps@);
            }
            affected.push(debate);
            i += 1;
            assert(affected@ =~= pv.take(i as int).map_values(|x: (u128, u128)| x.0));
        }
        assert(pv.take(pv.len() as int) =~= pv);
        let ghost hv = history_view(self.context.history.participant_debates);
        let ghost base = affected@;
        let mut j: usize = 0;
        while j < participants.len()
            invariant
                j <= participants.len(),
                hv == history_view(self.context.history.participant_debates),
                affected@.to_set() == base.to_set().union(
                    Set::new(|d: u128| participant_debate_seen(hv, participants@, j as int, d)),
                ),
            decreases participants.len() - j,
        {
            push_debates_of(&mut affected, &self.context.history, participants[j]);
            j += 1;
            proof {
                let p = participants@[j - 1];
                assert forall|d: u128| #[trigger] participant_debate_seen(hv, participants@, j as int, d) <==> participant_debate_seen(
                    hv,
                    participants@,
                    j - 1,
                    d,
                ) || debate_of_participant(hv, p, d) by {
                    if participant_debate_seen(hv, participants@, j as int, d) {
                        let m = choose|m: int| 0 <= m < j && debate_of_participant(hv, participants@[m], d);
                        if m < j - 1 {
                            assert(participant_debate_seen(hv, participants@, j - 1, d));
                        }
                    }
                    if debate_of_participant(hv, p, d) {
                        assert(debate_of_participant(hv, participants@[j - 1], d));
                    }
                }
                assert(affected@.to_set() =~= base.to_set().union(
                    Set::new(|d: u128| participant_debate_seen(hv, participants@, j as int, d)),
                ));
            }
        }
        proof {
            let ps = pending_participants(pv, ballots@, tm);
            assert forall|d: u128| #[trigger] participant_debate_seen(hv, participants@, participants@.len() as int, d)
                <==> debates_of(hv, ps).contains(d) by {
                if participant_debate_seen(hv, participants@, participants@.len() as int, d) {
                    let m = choose|m: int| 0 <= m < participants@.len() && debate_of_participant(hv, participants@[m], d);
                    assert(participants@.to_set().contains(participants@[m]));
                    let k = choose|k: u128| has_entry(hv, participants@[m], k) && hv[participants@[m]][k].debate_id == d;
                    assert(ps.contains(participants@[m]) && has_entry(hv, participants@[m], k) && hv[participants@[m]][k].debate_id == d);
                }
                if debates_of(hv, ps).contains(d) {
                    let (p, k) = choose|p: u128, k: u128| ps.contains(p) && has_entry(hv, p, k) && hv[p][k].debate_id == d;
                    assert(participants@.to_set().contains(p));
                    let m = choose|m: int| 0 <= m < participants@.len() && participants@[m] == p;
                    assert(debate_of_participant(hv, participants@[m], d));
                }
            }
            assert(affected@.to_set() =~= pv.map_values(|x: (u128, u128)| x.0).to_set().union(debates_of(hv, ps)));
        }
        affected
    }
}

impl TournamentObservingDrawEvaluationContext {
    /// The third part of following a change, where participants, teams or
    /// institutions changed: takes the reloaded participant information;
    /// every debate with a ballot that counts is affected.
    pub fn reload_participants(&mut self, participants: Vec<Participant>) -> (affected: Vec<u128>)
        ensures
            final(self).context.speaker_teams@ == speaker_team_map(participants@),
            final(self).context.participants_by_id@ == participant_map(participants@),
            members_view(final(self).context.team_members) == team_member_map(participants@),
            affected@.to_set() == old(self).debate_active_ballots@.dom(),
            final(self).context.history == old(self).context.history,
            final(self).context.participant_declared_clashes == old(self).context.participant_declared_clashes,
            final(self).tournament_id == old(self).tournament_id,
            final(self).debate_participants == old(self).debate_participants,
            final(self).debate_active_ballots == old(self).debate_active_ballots,
            final(self).clash_participants == old(self).clash_participants,
            final(self).debate_rounds == old(self).debate_rounds,
    {
        let ParticipantInfo { speaker_teams, participants_by_id, team_members } = ParticipantInfo::load(participants);
        self.context.speaker_teams = speaker_teams;
        self.context.participants_by_id = participants_by_id;
        self.context.team_members = team_members;
        key_list(&self.debate_active_ballots)
    }
}

/// The clash participants after the deleted clashes are forgotten, in order,
/// and the participants of those that were known.
pub open spec fn forget_clashes(m: Map<u128, (u128, u128)>, deleted: Seq<u128>) -> (Map<u128, (u128, u128)>, Set<u128>)
    decreases deleted.len(),
{
    if deleted.len() == 0 {
        (m, Set::empty())
    } else {
        let (m2, r) = forget_clashes(m, deleted.drop_last());
        let c = deleted.last();
        if m2.contains_key(c) {
            (m2.remove(c), r.insert(m2[c].0).insert(m2[c].1))
        } else {
            (m2, r)
        }
    }
}

/// The clash participants after the added clashes are recorded, in order,
/// and the participants of those clashes.
pub open spec fn add_clashes(m: Map<u128, (u128, u128)>, added: Seq<NewClash>) -> (Map<u128, (u128, u128)>, Set<u128>)
    decreases added.len(),
{
    if added.len() == 0 {
        (m, Set::empty())
    } else {
        let (m2, r) = add_clashes(m, added.drop_last());
        let c = added.last();
        (
            m2.insert(c.uuid, (c.declaring_participant_id, c.target_participant_id)),
            r.insert(c.declaring_participant_id).insert(c.target_participant_id),
        )
    }
}

/// The participants whose declared clashes are to be reloaded, and the
/// debates they took part in.
pub struct ClashReload {
    pub reload: Vec<u128>,
    pub affected: Vec<u128>,
}

/// Takes the participant out of every row of the table and removes its row.
fn forget_participant(t: &mut HashMap<u128, HashMap<u128, u16>>, p: u128)
    ensures
        forall|a: u128, b: u128| #[trigger] table_lookup(table_view(*final(t)), a, b) == if a == p || b == p {
            None
        } else {
            table_lookup(table_view(*old(t)), a, b)
        },
{
    let ghost before = table_view(*t);
    t.remove(&p);
    let rows = key_list(t);
    let ghost mid = table_view(*t);
    let mut i: usize = 0;
    while i < rows.len()
        invariant
            i <= rows.len(),
            rows@.to_set() == mid.dom(),
            rows@.no_duplicates(),
            table_view(*t).dom() == mid.dom(),
            forall|a: u128, b: u128| #[trigger] table_lookup(table_view(*t), a, b) == if b == p && rows@.take(i as int).contains(a) {
                None
            } else {
                table_lookup(mid, a, b)
            },
        decreases rows.len() - i,
    {
        let q = rows[i];
        assert(rows@.to_set().contains(q));
        assert(!rows@.take(i as int).contains(q)) by {
            if rows@.take(i as int).contains(q) {
                let j = choose|j: int| 0 <= j < i && rows@.take(i as int)[j] == q;
                assert(rows@[j] == rows@[i as int]);
            }
        }
        let ghost cur = table_view(*t);
        assert(forall|a: u128, b: u128| #[trigger] table_lookup(cur, a, b) == if b == p && rows@.take(i as int).contains(a) {
            None
        } else {
            table_lookup(mid, a, b)
        });
        match t.remove(&q) {
            Some(mut row) => {
                row.remove(&p);
                t.insert(q, row);
            },
            None => {
                assert(false);
            },
        }
        proof {
            let next = rows@.take(i + 1);
            assert forall|x: u128| next.contains(x) <==> rows@.take(i as int).contains(x) || x == q by {
                if next.contains(x) {
                    let j = choose|j: int| 0 <= j < next.len() && next[j] == x;
                    if j < i {
                        assert(rows@.take(i as int)[j] == x);
                    }
                }
                if rows@.take(i as int).contains(x) {
                    let j = choose|j: int| 0 <= j < i && rows@.take(i as int)[j] == x;
                    assert(next[j] == x);
                }
                if x == q {
                    assert(next[i as int] == x);
                }
            }
            assert forall|a: u128, b: u128| #[trigger] table_lookup(table_view(*t), a, b) == if b == p && next.contains(a) {
                None
            } else {
                table_lookup(mid, a, b)
            } by {
                assert(table_lookup(cur, a, b) == if b == p && rows@.take(i as int).contains(a) {
                    None
                } else {
                    table_lookup(mid, a, b)
                });
                if a == q {
                    assert(table_view(*t)[q] == cur[q].remove(p));
                } else {
                    assert(table_view(*t).contains_key(a) == cur.contains_key(a));
                    if cur.contains_key(a) {
                        assert(table_view(*t)[a] == cur[a]);
                    }
                }
            }
        }
        i += 1;
    }
    assert(rows@.take(rows.len() as int) =~= rows@);
    assert forall|a: u128, b: u128| #[trigger] table_lookup(table_view(*t), a, b) == if a == p || b == p {
        None
    } else {
        table_lookup(before, a, b)
    } by {
        if b == p && mid.contains_key(a) {
            assert(rows@.to_set().contains(a));
        }
        if a != p {
            assert(mid.contains_key(a) == before.contains_key(a));
            if mid.contains_key(a) {
                assert(mid[a] == before[a]);
            }
        }
    }
}

/// Adds the id to the list unless it is in it already.
fn push_id_once(v: &mut Vec<u128>, x: u128)
    ensures
        final(v)@.to_set() == old(v)@.to_set().insert(x),
        old(v)@.no_duplicates() ==> final(v)@.no_duplicates(),
{
    if !contains_u128(v, x) {
        let ghost prev = v@;
        v.push(x);
        proof {
            prev.lemma_push_to_set_commute(x);
            assert forall|i: int, j: int| 0 <= i < j < v@.len() && prev.no_duplicates() implies v@[i] != v@[j] by {
                if j == prev.len() {
                    assert(prev.contains(prev[i]));
                }
            }
        }
    } else {
        assert(v@.to_set() =~= v@.to_set().insert(x));
    }
}

impl TournamentObservingDrawEvaluationContext {
    /// The fourth part of following a change: each deleted participant leaves
    /// the declared clash table; each deleted clash that is known is
    /// forgotten and its two participants are marked, each added clash is
    /// recorded and its two participants are marked; each marked
    /// participant's row of the table goes, to be reloaded. Returns the
    /// marked participants, each once, and the debates they took part in.
    pub fn update_clash_participants(&mut self, changes: &ObservedChanges) -> (r: ClashReload)
        ensures
            ({
                let (after_deleted, from_deleted) = forget_clashes(old(self).clash_participants@, changes.deleted_clashes@);
                let (after_added, from_added) = add_clashes(after_deleted, changes.added_clashes@);
                let marked = from_deleted.union(from_added);
                &&& final(self).clash_participants@ == after_added
                &&& r.reload@.to_set() == marked
                &&& r.reload@.no_duplicates()
                &&& forall|a: u128, b: u128|
                    #[trigger] table_lookup(table_view(final(self).context.participant_declared_clashes), a, b) == if changes.deleted_participants@.contains(a)
                        || changes.deleted_participants@.contains(b) || marked.contains(a) {
                        None
                    } else {
                        table_lookup(table_view(old(self).context.participant_declared_clashes), a, b)
                    }
                &&& r.affected@.to_set() == Set::new(
                    |d: u128| exists|p: u128| marked.contains(p) && debate_of_participant(
                        history_view(old(self).context.history.participant_debates),
                        p,
                        d,
                    ),
                )
            }),
            final(self).context.history == old(self).context.history,
            final(self).context.speaker_teams == old(self).context.speaker_teams,
            final(self).context.participants_by_id == old(self).context.participants_by_id,
            final(self).context.team_members == old(self).context.team_members,
            final(self).tournament_id == old(self).tournament_id,
            final(self).debate_participants == old(self).debate_participants,
            final(self).debate_active_ballots == old(self).debate_active_ballots,
            final(self).debate_rounds == old(self).debate_rounds,
    {
        let ghost t0 = table_view(self.context.participant_declared_clashes);
        let dps = &changes.deleted_participants;
        let mut i: usize = 0;
        while i < dps.len()
            invariant
                i <= dps.len(),
                forall|a: u128, b: u128| #[trigger] table_lookup(table_view(self.context.participant_declared_clashes), a, b) == if dps@.take(
                    i as int,
                ).contains(a) || dps@.take(i as int).contains(b) {
                    None
                } else {
                    table_lookup(t0, a, b)
                },
                self.context.history == old(self).context.history,
                self.context.speaker_teams == old(self).context.speaker_teams,
                self.context.participants_by_id == old(self).context.participants_by_id,
                self.context.team_members == old(self).context.team_members,
                self.tournament_id == old(self).tournament_id,
                self.debate_participants == old(self).debate_participants,
                self.debate_active_ballots == old(self).debate_active_ballots,
                self.debate_rounds == old(self).debate_rounds,
                self.clash_participants == old(self).clash_participants,
            decreases dps.len() - i,
        {
            let p = dps[i];
            forget_participant(&mut self.context.participant_declared_clashes, p);
            proof {
                let next = dps@.take(i + 1);
                assert forall|x: u128| next.contains(x) <==> dps@.take(i as int).contains(x) || x == p by {
                    if next.contains(x) {
                        let j = choose|j: int| 0 <= j < next.len() && next[j] == x;
                        if j < i {
                            assert(dps@.take(i as int)[j] == x);
                        }
                    }
                    if dps@.take(i as int).contains(x) {
                        let j = choose|j: int| 0 <= j < i && dps@.take(i as int)[j] == x;
                        assert(next[j] == x);
                    }
                    if x == p {
                        assert(next[i as int] == x);
                    }
                }
            }
            i += 1;
        }
        assert(dps@.take(dps.len() as int) =~= dps@);
        let ghost t1 = table_view(self.context.participant_declared_clashes);
        let ghost m0 = self.clash_participants@;
        let mut reload: Vec<u128> = Vec::new();
        let dcs = &changes.deleted_clashes;
        let mut k: usize = 0;
        while k < dcs.len()
            invariant
                k <= dcs.len(),
                (self.clash_participants@, reload@.to_set()) == forget_clashes(m0, dcs@.take(k as int)),
                reload@.no_duplicates(),
                table_view(self.context.participant_declared_clashes) == t1,
                self.context.history == old(self).context.history,
                self.context.speaker_teams == old(self).context.speaker_teams,
                self.context.participants_by_id == old(self).context.participants_by_id,
                self.context.team_members == old(self).context.team_members,
                self.tournament_id == old(self).tournament_id,
                self.debate_participants == old(self).debate_participants,
                self.debate_active_ballots == old(self).debate_active_ballots,
                self.debate_rounds == old(self).debate_rounds,
            decreases dcs.len() - k,
        {
            assert(dcs@.take(k + 1).drop_last() =~= dcs@.take(k as int));
            let c = dcs[k];
            match self.clash_participants.remove(&c) {
                Some(pair) => {
                    push_id_once(&mut reload, pair.0);
                    push_id_once(&mut reload, pair.1);
                },
                None => {},
            }
            k += 1;
        }
        assert(dcs@.take(dcs.len() as int) =~= dcs@);
        let ghost (m1, from_deleted) = forget_clashes(m0, dcs@);
        let acs = &changes.added_clashes;
        let ghost base = reload@.to_set();
        let mut k: usize = 0;
        while k < acs.len()
            invariant
                k <= acs.len(),
                base == from_deleted,
                (self.clash_participants@, reload@.to_set()) == (add_clashes(m1, acs@.take(k as int)).0, base.union(
                    add_clashes(m1, acs@.take(k as int)).1,
                )),
                reload@.no_duplicates(),
                table_view(self.context.participant_declared_clashes) == t1,
                self.context.history == old(self).context.history,
                self.context.speaker_teams == old(self).context.speaker_teams,
                self.context.participants_by_id == old(self).context.participants_by_id,
                self.context.team_members == old(self).context.team_members,
                self.tournament_id == old(self).tournament_id,
                self.debate_participants == old(self).debate_participants,
                self.debate_active_ballots == old(self).debate_active_ballots,
                self.debate_rounds == old(self).debate_rounds,
            decreases acs.len() - k,
        {
            assert(acs@.take(k + 1).drop_last() =~= acs@.take(k as int));
            let c = acs[k];
            self.clash_participants.insert(c.uuid, (c.declaring_participant_id, c.target_participant_id));
            push_id_once(&mut reload, c.declaring_participant_id);
            push_id_once(&mut reload, c.target_participant_id);
            k += 1;
            assert(reload@.to_set() =~= base.union(add_clashes(m1, acs@.take(k as int)).1));
        }
        assert(acs@.take(acs.len() as int) =~= acs@);
        let ghost marked = reload@.to_set();
        let ghost hv = history_view(self.context.history.participant_debates);
        let mut affected: Vec<u128> = Vec::new();
        let mut j: usize = 0;
        while j < reload.len()
            invariant
                j <= reload.len(),
                marked == reload@.to_set(),
                hv == history_view(self.context.history.participant_debates),
                forall|a: u128, b: u128| #[trigger] table_lookup(table_view(self.context.participant_declared_clashes), a, b) == if reload@.take(
                    j as int,
                ).contains(a) {
                    None
                } else {
                    table_lookup(t1, a, b)
                },
                affected@.to_set() == Set::new(|d: u128| participant_debate_seen(hv, reload@, j as int, d)),
                self.context.history == old(self).context.history,
                self.context.speaker_teams == old(self).context.speaker_teams,
                self.context.participants_by_id == old(self).context.participants_by_id,
                self.context.team_members == old(self).context.team_members,
                self.tournament_id == old(self).tournament_id,
                self.debate_participants == old(self).debate_participants,
                self.debate_active_ballots == old(self).debate_active_ballots,
                self.debate_rounds == old(self).debate_rounds,
                self.clash_participants@ == add_clashes(m1, acs@).0,
            decreases reload.len() - j,
        {
            let q = reload[j];
            let ghost cur = table_view(self.context.participant_declared_clashes);
            assert(forall|a: u128, b: u128| #[trigger] table_lookup(cur, a, b) == if reload@.take(j as int).contains(a) {
                None
            } else {
                table_lookup(t1, a, b)
            });
            self.context.participant_declared_clashes.remove(&q);
            let ghost prev_affected = affected@;
            push_debates_of(&mut affected, &self.context.history, q);
            proof {
                let next = reload@.take(j + 1);
                assert forall|x: u128| next.contains(x) <==> reload@.take(j as int).contains(x) || x == q by {
                    if next.contains(x) {
                        let m = choose|m: int| 0 <= m < next.len() && next[m] == x;
                        if m < j {
                            assert(reload@.take(j as int)[m] == x);
                        }
                    }
                    if reload@.take(j as int).contains(x) {
                        let m = choose|m: int| 0 <= m < j && reload@.take(j as int)[m] == x;
                        assert(next[m] == x);
                    }
                    if x == q {
                        assert(next[j as int] == x);
                    }
                }
                assert forall|a: u128, b: u128| #[trigger] table_lookup(table_view(self.context.participant_declared_clashes), a, b) == if next.contains(a) {
                    None
                } else {
                    table_lookup(t1, a, b)
                } by {
                    assert(table_lookup(cur, a, b) == if reload@.take(j as int).contains(a) {
                        None
                    } else {
                        table_lookup(t1, a, b)
                    });
                    if a != q {
                        assert(table_view(self.context.participant_declared_clashes).contains_key(a) == cur.contains_key(a));
                        if cur.contains_key(a) {
                            assert(table_view(self.context.participant_declared_clashes)[a] == cur[a]);
                        }
                    }
                }
                assert forall|d: u128| #[trigger] participant_debate_seen(hv, reload@, j + 1, d) <==> participant_debate_seen(
                    hv,
                    reload@,
                    j as int,
                    d,
                ) || debate_of_participant(hv, q, d) by {
                    if participant_debate_seen(hv, reload@, j + 1, d) {
                        let m = choose|m: int| 0 <= m < j + 1 && debate_of_participant(hv, reload@[m], d);
                        if m < j {
                            assert(participant_debate_seen(hv, reload@, j as int, d));
                        }
                    }
                    if debate_of_participant(hv, q, d) {
                        assert(debate_of_participant(hv, reload@[j as int], d));
                    }
                }
                assert(affected@.to_set() =~= Set::new(|d: u128| participant_debate_seen(hv, reload@, j + 1, d)));
            }
            j += 1;
        }
        assert(reload@.take(reload.len() as int) =~= reload@);
        proof {
            assert forall|d: u128| #[trigger] participant_debate_seen(hv, reload@, reload@.len() as int, d) <==> exists|p: u128|
                marked.contains(p) && debate_of_participant(hv, p, d) by {
                if participant_debate_seen(hv, reload@, reload@.len() as int, d) {
                    let m = choose|m: int| 0 <= m < reload@.len() && debate_of_participant(hv, reload@[m], d);
                    assert(marked.contains(reload@[m]));
                }
                if exists|p: u128| marked.contains(p) && debate_of_participant(hv, p, d) {
                    let p = choose|p: u128| marked.contains(p) && debate_of_participant(hv, p, d);
                    let m = choose|m: int| 0 <= m < reload@.len() && reload@[m] == p;
                    assert(debate_of_participant(hv, reload@[m], d));
                }
            }
            assert(affected@.to_set() =~= Set::new(
                |d: u128| exists|p: u128| marked.contains(p) && debate_of_participant(hv, p, d),
            ));
            assert forall|a: u128| reload@.contains(a) <==> marked.contains(a) by {}
        }
        ClashReload { reload, affected }
    }
}

/// Sets the entries of the row to those of the given row, keeping the others.
fn merge_row(t: &mut HashMap<u128, HashMap<u128, u16>>, a: u128, row: &HashMap<u128, u16>)
    ensures
        forall|x: u128, y: u128| #[trigger] table_lookup(table_view(*final(t)), x, y) == if x == a && row@.contains_key(y) {
            Some(row@[y])
        } else {
            table_lookup(table_view(*old(t)), x, y)
        },
{
    let ghost before = table_view(*t);
    let cols = key_list(row);
    let mut target = match t.remove(&a) {
        Some(r) => r,
        None => HashMap::new(),
    };
    let ghost start = target@;
    assert(start == if before.contains_key(a) { before[a] } else { Map::<u128, u16>::empty() });
    let mut k: usize = 0;
    while k < cols.len()
        invariant
            k <= cols.len(),
            cols@.to_set() == row@.dom(),
            forall|y: u128| #[trigger] target@.contains_key(y) <==> start.contains_key(y) || cols@.take(k as int).contains(y),
            forall|y: u128| #[trigger] target@.contains_key(y) ==> target@[y] == if cols@.take(k as int).contains(y) {
                row@[y]
            } else {
                start[y]
            },
        decreases cols.len() - k,
    {
        let y = cols[k];
        assert(cols@.to_set().contains(y));
        let v = *row.get(&y).unwrap();
        target.insert(y, v);
        proof {
            let next = cols@.take(k + 1);
            assert forall|z: u128| next.contains(z) <==> cols@.take(k as int).contains(z) || z == y by {
                if next.contains(z) {
                    let j = choose|j: int| 0 <= j < next.len() && next[j] == z;
                    if j < k {
                        assert(cols@.take(k as int)[j] == z);
                    }
                }
                if cols@.take(k as int).contains(z) {
                    let j = choose|j: int| 0 <= j < k && cols@.take(k as int)[j] == z;
                    assert(next[j] == z);
                }
                if z == y {
                    assert(next[k as int] == z);
                }
            }
        }
        k += 1;
    }
    assert(cols@.take(cols.len() as int) =~= cols@);
    t.insert(a, target);
    assert forall|x: u128, y: u128| #[trigger] table_lookup(table_view(*t), x, y) == if x == a && row@.contains_key(y) {
        Some(row@[y])
    } else {
        table_lookup(before, x, y)
    } by {
        if x == a {
            assert(table_view(*t)[a] == target@);
            assert(cols@.contains(y) <==> row@.contains_key(y)) by {
                assert(cols@.to_set().contains(y) <==> cols@.contains(y));
            }
        } else {
            assert(table_view(*t).contains_key(x) == before.contains_key(x));
            if before.contains_key(x) {
                assert(table_view(*t)[x] == before[x]);
            }
        }
    }
}

impl TournamentObservingDrawEvaluationContext {
    /// The last part of following a change: takes the reloaded clashes of the
    /// marked participants into the declared clash table; for two
    /// participants between whom a reloaded clash is declared, in either
    /// direction, the entry becomes the severity of the strongest such
    /// clash, under both orders; other entries stay.
    pub fn apply_reloaded_clashes(&mut self, reloaded: &Vec<NewClash>)
        ensures
            forall|a: u128, b: u128|
                #[trigger] table_lookup(table_view(final(self).context.participant_declared_clashes), a, b) == match pair_severity(
                    reloaded@,
                    a,
                    b,
                ) {
                    Some(s) => Some(s),
                    None => table_lookup(table_view(old(self).context.participant_declared_clashes), a, b),
                },
            final(self).context.history == old(self).context.history,
            final(self).context.speaker_teams == old(self).context.speaker_teams,
            final(self).context.participants_by_id == old(self).context.participants_by_id,
            final(self).context.team_members == old(self).context.team_members,
            final(self).tournament_id == old(self).tournament_id,
            final(self).debate_participants == old(self).debate_participants,
            final(self).debate_active_ballots == old(self).debate_active_ballots,
            final(self).clash_participants == old(self).clash_participants,
            final(self).debate_rounds == old(self).debate_rounds,
    {
        let ghost before = table_view(self.context.participant_declared_clashes);
        let fresh = declared_clash_table(reloaded);
        let ghost tf = table_view(fresh);
        let rows = key_list(&fresh);
        let mut i: usize = 0;
        while i < rows.len()
            invariant
                i <= rows.len(),
                rows@.to_set() == fresh@.dom(),
                tf == table_view(fresh),
                forall|a: u128, b: u128| #[trigger] table_lookup(tf, a, b) == pair_severity(reloaded@, a, b),
                forall|a: u128, b: u128|
                    #[trigger] table_lookup(table_view(self.context.participant_declared_clashes), a, b) == if rows@.take(
                        i as int,
                    ).contains(a) && table_lookup(tf, a, b) is Some {
                        table_lookup(tf, a, b)
                    } else {
                        table_lookup(before, a, b)
                    },
                self.context.history == old(self).context.history,
                self.context.speaker_teams == old(self).context.speaker_teams,
                self.context.participants_by_id == old(self).context.participants_by_id,
                self.context.team_members == old(self).context.team_members,
                self.tournament_id == old(self).tournament_id,
                self.debate_participants == old(self).debate_participants,
                self.debate_active_ballots == old(self).debate_active_ballots,
                self.clash_participants == old(self).clash_participants,
                self.debate_rounds == old(self).debate_rounds,
            decreases rows.len() - i,
        {
            let a = rows[i];
            assert(rows@.to_set().contains(a));
            let ghost cur = table_view(self.context.participant_declared_clashes);
            assert(forall|x: u128, y: u128| #[trigger] table_lookup(cur, x, y) == if rows@.take(i as int).contains(x) && table_lookup(
                tf,
                x,
                y,
            ) is Some {
                table_lookup(tf, x, y)
            } else {
                table_lookup(before, x, y)
            });
            let row = fresh.get(&a).unwrap();
            assert(row@ == tf[a]);
            merge_row(&mut self.context.participant_declared_clashes, a, row);
            proof {
                let next = rows@.take(i + 1);
                assert forall|z: u128| next.contains(z) <==> rows@.take(i as int).contains(z) || z == a by {
                    if next.contains(z) {
                        let j = choose|j: int| 0 <= j < next.len() && next[j] == z;
                        if j < i {
                            assert(rows@.take(i as int)[j] == z);
                        }
                    }
                    if rows@.take(i as int).contains(z) {
                        let j = choose|j: int| 0 <= j < i && rows@.take(i as int)[j] == z;
                        assert(next[j] == z);
                    }
                    if z == a {
                        assert(next[i as int] == z);
                    }
                }
                assert forall|x: u128, y: u128|
                    #[trigger] table_lookup(table_view(self.context.participant_declared_clashes), x, y) == if next.contains(x)
                        && table_lookup(tf, x, y) is Some {
                        table_lookup(tf, x, y)
                    } else {
                        table_lookup(before, x, y)
                    } by {
                    assert(table_lookup(cur, x, y) == if rows@.take(i as int).contains(x) && table_lookup(tf, x, y) is Some {
                        table_lookup(tf, x, y)
                    } else {
                        table_lookup(before, x, y)
                    });
                }
            }
            i += 1;
        }
        assert(rows@.take(rows.len() as int) =~= rows@);
        assert forall|a: u128, b: u128|
            #[trigger] table_lookup(table_view(self.context.participant_declared_clashes), a, b) == match pair_severity(reloaded@, a, b) {
                Some(s) => Some(s),
                None => table_lookup(before, a, b),
            } by {
            assert(table_lookup(tf, a, b) == pair_severity(reloaded@, a, b));
            if table_lookup(tf, a, b) is Some {
                assert(rows@.to_set().contains(a));
                assert(rows@.contains(a));
            }
        }
    }
}

/// Adds the debates to the affected ones, each once.
pub fn add_affected(affected: &mut Vec<u128>, more: &Vec<u128>)
    ensures
        final(affected)@.to_set() == old(affected)@.to_set().union(more@.to_set()),
        old(affected)@.no_duplicates() ==> final(affected)@.no_duplicates(),
{
    let ghost start = affected@;
    let mut i: usize = 0;
    while i < more.len()
        invariant
            i <= more.len(),
            affected@.to_set() == start.to_set().union(more@.take(i as int).to_set()),
            start.no_duplicates() ==> affected@.no_duplicates(),
        decreases more.len() - i,
    {
        push_id_once(affected, more[i]);
        proof {
            more@.take(i as int).lemma_push_to_set_commute(more@[i as int]);
            assert(more@.take(i + 1) =~= more@.take(i as int).push(more@[i as int]));
        }
        i += 1;
        assert(affected@.to_set() =~= start.to_set().union(more@.take(i as int).to_set()));
    }
    assert(more@.take(more.len() as int) =~= more@);
}

} // verus!
