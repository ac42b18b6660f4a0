use vstd::prelude::*;

use crate::datastructures::{Ballot, DrawBallot, Speech, SpeechRole};
use crate::plan::{assign_venues, venues_after_assignment};
use crate::round_draw::{lemma_random_id_not_nil, new_random_id};

verus! {

/// A debate of a round: its place in the round, the ballot that records it,
/// and its venue.
#[derive(Clone, Copy, Debug, PartialEq, Eq, Structural)]
pub struct TournamentDebate {
    pub uuid: u128,
    pub round_id: u128,
    pub index: u64,
    pub ballot_id: u128,
    pub is_motion_released_to_non_aligned: bool,
    pub venue_id: Option<u128>,
}

/// A speech of a ballot with the score each adjudicator gave it, keyed by the
/// adjudicator's id.
pub struct ScoredSpeech<S> {
    pub speaker: Option<u128>,
    pub role: SpeechRole,
    pub position: u8,
    pub scores: Vec<(u128, S)>,
    pub is_opt_out: bool,
}

/// A ballot with its scores: the score of each team and of each speech is
/// kept per adjudicator, keyed by the adjudicator's id.
pub struct ScoredBallot<T, S> {
    pub uuid: u128,
    pub government: Option<u128>,
    pub government_scores: Vec<(u128, T)>,
    pub opposition: Option<u128>,
    pub opposition_scores: Vec<(u128, T)>,
    pub speeches: Vec<ScoredSpeech<S>>,
    pub adjudicators: Vec<u128>,
    pub president: Option<u128>,
}

impl<T, S> ScoredBallot<T, S> {
    /// A ballot with nothing in it yet.
    pub fn empty(uuid: u128) -> (b: Self)
        ensures
            b.uuid == uuid,
            b.government is None,
            b.opposition is None,
            b.government_scores@.len() == 0,
            b.opposition_scores@.len() == 0,
            b.speeches@.len() == 0,
            b.adjudicators@.len() == 0,
            b.president is None,
    {
        ScoredBallot {
            uuid,
            government: None,
            government_scores: Vec::new(),
            opposition: None,
            opposition_scores: Vec::new(),
            speeches: Vec::new(),
            adjudicators: Vec::new(),
            president: None,
        }
    }
}

/// Whether the adjudicator sat on the panel before and is no longer on it.
pub open spec fn left_panel(old_panel: Seq<u128>, new_panel: Seq<u128>, a: u128) -> bool {
    old_panel.contains(a) && !new_panel.contains(a)
}

/// The scores without those of the adjudicators who left the panel, in order.
pub open spec fn scores_kept<X>(scores: Seq<(u128, X)>, old_panel: Seq<u128>, new_panel: Seq<u128>) -> Seq<(u128, X)>
    decreases scores.len(),
{
    if scores.len() == 0 {
        scores
    } else {
        let rest = scores_kept(scores.drop_last(), old_panel, new_panel);
        if left_panel(old_panel, new_panel, scores.last().0) {
            rest
        } else {
            rest.push(scores.last())
        }
    }
}

/// How many of the first `j` speeches are non-aligned.
pub open spec fn non_aligned_before<S>(speeches: Seq<ScoredSpeech<S>>, j: int) -> int
    decreases j,
{
    if j <= 0 {
        0
    } else {
        non_aligned_before(speeches, j - 1) + if speeches[j - 1].role == SpeechRole::NonAligned {
            1int
        } else {
            0
        }
    }
}

/// The speaker of a speech once the non-aligned slots are filled in: the
/// `r`-th non-aligned speech takes the `r`-th slot where there is one.
pub open spec fn slot_speaker<S>(s: ScoredSpeech<S>, rank: int, slots: Seq<Option<u128>>) -> Option<u128> {
    if s.role == SpeechRole::NonAligned && rank < slots.len() {
        slots[rank]
    } else {
        s.speaker
    }
}

/// Whether a speech stays: every team speech does, and a non-aligned one
/// whose position is below the number of slots (taken modulo 256).
pub open spec fn speech_stays<S>(s: ScoredSpeech<S>, slot_count: nat) -> bool {
    s.role != SpeechRole::NonAligned || s.position < (slot_count as u8)
}

/// The indices, in order, of the speeches among the first `j` that stay.
pub open spec fn staying_indices<S>(speeches: Seq<ScoredSpeech<S>>, slot_count: nat, j: int) -> Seq<int>
    decreases j,
{
    if j <= 0 {
        Seq::empty()
    } else {
        let rest = staying_indices(speeches, slot_count, j - 1);
        if speech_stays(speeches[j - 1], slot_count) {
            rest.push(j - 1)
        } else {
            rest
        }
    }
}

/// Whether `r` is the speech `old` once its slot is filled in and the scores
/// of the adjudicators who left the panel are dropped.
pub open spec fn speech_carried<S>(
    r: ScoredSpeech<S>,
    old: ScoredSpeech<S>,
    rank: int,
    slots: Seq<Option<u128>>,
    old_panel: Seq<u128>,
    new_panel: Seq<u128>,
) -> bool {
    &&& r.speaker == slot_speaker(old, rank, slots)
    &&& r.role == old.role
    &&& r.position == old.position
    &&& r.is_opt_out == old.is_opt_out
    &&& r.scores@ == scores_kept(old.scores@, old_panel, new_panel)
}

/// Whether `r` is the new non-aligned speech of slot `i`.
pub open spec fn speech_added<S>(r: ScoredSpeech<S>, i: int, slots: Seq<Option<u128>>) -> bool {
    &&& r.speaker == slots[i]
    &&& r.role == SpeechRole::NonAligned
    &&& r.position == (i as u8)
    &&& r.scores@.len() == 0
    &&& !r.is_opt_out
}

/// Whether the speeches `rs` are the speeches `old` after the edit of the
/// non-aligned slots: each non-aligned speech, in order, takes the speaker of
/// the next slot; the speeches that stay keep their order and their scores
/// but those of the adjudicators who left the panel; then a new empty speech
/// is added for each slot beyond the existing non-aligned speeches.
pub open spec fn speeches_edited<S>(
    rs: Seq<ScoredSpeech<S>>,
    old: Seq<ScoredSpeech<S>>,
    slots: Seq<Option<u128>>,
    old_panel: Seq<u128>,
    new_panel: Seq<u128>,
) -> bool {
    let stay = staying_indices(old, slots.len(), old.len() as int);
    let existing = non_aligned_before(old, old.len() as int);
    let added = if slots.len() > existing {
        slots.len() - existing
    } else {
        0
    };
    &&& rs.len() == stay.len() + added
    &&& forall|q: int|
        0 <= q < stay.len() ==> speech_carried(
            #[trigger] rs[q],
            old[stay[q]],
            non_aligned_before(old, stay[q]),
            slots,
            old_panel,
            new_panel,
        )
    &&& forall|q: int| stay.len() <= q < rs.len() ==> speech_added(#[trigger] rs[q], existing + q - stay.len(), slots)
}

/// Whether `r` is the ballot with the given fields once the debate's draw is
/// written into it: the teams, panel and president of the draw, the edited
/// speeches, and no score of an adjudicator who left the panel.
pub open spec fn ballot_edited<T, S>(
    r: ScoredBallot<T, S>,
    uuid: u128,
    government_scores: Seq<(u128, T)>,
    opposition_scores: Seq<(u128, T)>,
    speeches: Seq<ScoredSpeech<S>>,
    old_panel: Seq<u128>,
    d: DrawBallot,
) -> bool {
    &&& r.uuid == uuid
    &&& r.government == d.government
    &&& r.opposition == d.opposition
    &&& r.adjudicators@ == d.adjudicators@
    &&& r.president == d.president
    &&& r.government_scores@ == scores_kept(government_scores, old_panel, d.adjudicators@)
    &&& r.opposition_scores@ == scores_kept(opposition_scores, old_panel, d.adjudicators@)
    &&& speeches_edited(r.speeches@, speeches, d.non_aligned_speakers@, old_panel, d.adjudicators@)
}

/// Whether the id is in the list.
fn contains_id(v: &Vec<u128>, x: u128) -> (b: bool)
    ensures
        b == v@.contains(x),
{
    let mut i: usize = 0;
    while i < v.len()
        invariant
            i <= v.len(),
            forall|j: int| 0 <= j < i ==> v@[j] != x,
        decreases v.len() - i,
    {
        if v[i] == x {
            return true;
        }
        i += 1;
    }
    false
}

/// The scores without those of the adjudicators who left the panel.
fn drop_scores<X>(scores: Vec<(u128, X)>, old_panel: &Vec<u128>, new_panel: &Vec<u128>) -> (r: Vec<(u128, X)>)
    ensures
        r@ == scores_kept(scores@, old_panel@, new_panel@),
{
    let ghost all = scores@;
    let mut scores = scores;
    let mut r: Vec<(u128, X)> = Vec::new();
    let ghost mut j: int = 0;
    while scores.len() > 0
        invariant
            0 <= j <= all.len(),
            scores@ == all.subrange(j, all.len() as int),
            r@ == scores_kept(all.take(j), old_panel@, new_panel@),
        decreases scores.len(),
    {
        let (a, x) = scores.remove(0);
        proof {
            assert(all.take(j + 1).drop_last() =~= all.take(j));
            assert(all.take(j + 1).last() == all[j]);
        }
        if !(contains_id(old_panel, a) && !contains_id(new_panel, a)) {
            r.push((a, x));
        }
        proof {
            j = j + 1;
        }
        assert(scores@ =~= all.subrange(j, all.len() as int));
    }
    assert(all.take(j) =~= all);
    r
}

/// Fills the non-aligned speeches with the speakers of the slots, in order:
/// the `r`-th non-aligned speech takes the `r`-th slot where there is one.
/// Returns how many non-aligned speeches there are.
fn fill_slots<S>(speeches: &mut Vec<ScoredSpeech<S>>, slots: &Vec<Option<u128>>) -> (count: usize)
    ensures
        count == non_aligned_before(old(speeches)@, old(speeches)@.len() as int),
        final(speeches)@.len() == old(speeches)@.len(),
        forall|j: int|
            0 <= j < old(speeches)@.len() ==> {
                let o = #[trigger] old(speeches)@[j];
                let n = final(speeches)@[j];
                &&& n.speaker == slot_speaker(o, non_aligned_before(old(speeches)@, j), slots@)
                &&& n.role == o.role
                &&& n.position == o.position
                &&& n.is_opt_out == o.is_opt_out
                &&& n.scores == o.scores
            },
{
    let ghost os = speeches@;
    let mut rank: usize = 0;
    let mut j: usize = 0;
    while j < speeches.len()
        invariant
            j <= speeches.len(),
            speeches@.len() == os.len(),
            rank == non_aligned_before(os, j as int),
            rank <= j,
            forall|k: int|
                0 <= k < os.len() ==> {
                    let o = #[trigger] os[k];
                    let n = speeches@[k];
                    &&& n.speaker == if k < j {
                        slot_speaker(o, non_aligned_before(os, k), slots@)
                    } else {
                        o.speaker
                    }
                    &&& n.role == o.role
                    &&& n.position == o.position
                    &&& n.is_opt_out == o.is_opt_out
                    &&& n.scores == o.scores
                },
        decreases speeches.len() - j,
    {
        assert(os[j as int] == os[j as int]);
        if speeches[j].role == SpeechRole::NonAligned {
            if rank < slots.len() {
                speeches[j].speaker = slots[rank];
            }
            rank += 1;
        }
        j += 1;
    }
    rank
}

/// The ballot once the debate's draw is written into it, as the draw editor
/// saves it: the teams, the panel and the president of the draw; each
/// non-aligned speech, in order, takes the speaker of the next slot; a
/// non-aligned speech whose position is not below the number of slots is
/// dropped; a new empty speech is added for each slot beyond the existing
/// non-aligned speeches; and every score of an adjudicator who left the panel
/// is dropped.
pub fn update_ballot<T, S>(ballot: ScoredBallot<T, S>, debate: &DrawBallot) -> (r: ScoredBallot<T, S>)
    ensures
        ballot_edited(
            r,
            ballot.uuid,
            ballot.government_scores@,
            ballot.opposition_scores@,
            ballot.speeches@,
            ballot.adjudicators@,
            *debate,
        ),
{
    let ghost os = ballot.speeches@;
    let ScoredBallot { uuid, government_scores, opposition_scores, speeches, adjudicators: old_panel, .. } = ballot;
    let mut speeches = speeches;
    let slots = &debate.non_aligned_speakers;
    let existing = fill_slots(&mut speeches, slots);
    let ghost filled = speeches@;
    let ghost stay_all = staying_indices(os, slots@.len(), os.len() as int);
    let new_panel = &debate.adjudicators;
    let cut = #[verifier::truncate] (slots.len() as u8);
    let mut out: Vec<ScoredSpeech<S>> = Vec::new();
    let ghost mut j: int = 0;
    while speeches.len() > 0
        invariant
            0 <= j <= os.len(),
            filled.len() == os.len(),
            speeches@ == filled.subrange(j, os.len() as int),
            cut == (slots@.len() as u8),
            forall|k: int|
                0 <= k < os.len() ==> {
                    let o = #[trigger] os[k];
                    let n = filled[k];
                    &&& n.speaker == slot_speaker(o, non_aligned_before(os, k), slots@)
                    &&& n.role == o.role
                    &&& n.position == o.position
                    &&& n.is_opt_out == o.is_opt_out
                    &&& n.scores == o.scores
                },
            out@.len() == staying_indices(os, slots@.len(), j).len(),
            forall|q: int|
                0 <= q < out@.len() ==> speech_carried(
                    #[trigger] out@[q],
                    os[staying_indices(os, slots@.len(), j)[q]],
                    non_aligned_before(os, staying_indices(os, slots@.len(), j)[q]),
                    slots@,
                    old_panel@,
                    new_panel@,
                ),
            forall|q: int|
                0 <= q < staying_indices(os, slots@.len(), j).len() ==> 0 <= #[trigger] staying_indices(
                    os,
                    slots@.len(),
                    j,
                )[q] < j,
        decreases speeches.len(),
    {
        let s = speeches.remove(0);
        let ghost before = staying_indices(os, slots@.len(), j);
        assert(os[j] == os[j]);
        assert(s == filled[j]);
        if s.role != SpeechRole::NonAligned || s.position < cut {
            let ScoredSpeech { speaker, role, position, scores, is_opt_out } = s;
            let scores = drop_scores(scores, &old_panel, new_panel);
            out.push(ScoredSpeech { speaker, role, position, scores, is_opt_out });
            proof {
                assert(speech_stays(os[j], slots@.len()));
                assert(staying_indices(os, slots@.len(), j + 1) == before.push(j));
                assert forall|q: int| 0 <= q < out@.len() implies speech_carried(
                    #[trigger] out@[q],
                    os[before.push(j)[q]],
                    non_aligned_before(os, before.push(j)[q]),
                    slots@,
                    old_panel@,
                    new_panel@,
                ) by {
                    if q < before.len() {
                        assert(before.push(j)[q] == before[q]);
                    }
                }
            }
        } else {
            proof {
                assert(!speech_stays(os[j], slots@.len()));
                assert(staying_indices(os, slots@.len(), j + 1) == before);
            }
        }
        proof {
            j = j + 1;
        }
        assert(speeches@ =~= filled.subrange(j, os.len() as int));
    }
    let ghost stayed = out@.len();
    let mut i: usize = existing;
    while i < slots.len()
        invariant
            existing <= i,
            i <= slots.len() || i == existing,
            stay_all.len() == stayed,
            out@.len() == stayed + (i - existing),
            forall|q: int|
                0 <= q < stayed ==> speech_carried(
                    #[trigger] out@[q],
                    os[stay_all[q]],
                    non_aligned_before(os, stay_all[q]),
                    slots@,
                    old_panel@,
                    new_panel@,
                ),
            forall|q: int| stayed <= q < out@.len() ==> speech_added(#[trigger] out@[q], existing + q - stayed, slots@),
        decreases slots.len() - i,
    {
        let position = #[verifier::truncate] (i as u8);
        out.push(ScoredSpeech { speaker: slots[i], role: SpeechRole::NonAligned, position, scores: Vec::new(), is_opt_out: false });
        i += 1;
    }
    let government_scores = drop_scores(government_scores, &old_panel, new_panel);
    let opposition_scores = drop_scores(opposition_scores, &old_panel, new_panel);
    let mut adjudicators: Vec<u128> = Vec::new();
    let mut k: usize = 0;
    while k < new_panel.len()
        invariant
            k <= new_panel.len(),
            adjudicators@ == new_panel@.take(k as int),
        decreases new_panel.len() - k,
    {
        adjudicators.push(new_panel[k]);
        k += 1;
        assert(adjudicators@ =~= new_panel@.take(k as int));
    }
    assert(new_panel@.take(new_panel.len() as int) =~= new_panel@);
    ScoredBallot {
        uuid,
        government: debate.government,
        government_scores,
        opposition: debate.opposition,
        opposition_scores,
        speeches: out,
        adjudicators,
        president: debate.president,
    }
}

/// A debate as the draw editor changes it: only its venue.
#[derive(Clone, Copy, Debug, PartialEq, Eq, Structural)]
pub struct DrawDebateUpdate {
    pub uuid: u128,
    pub venue: Option<u128>,
}

/// Why an edit of the draw is refused.
#[derive(Clone, Copy, Debug, PartialEq, Eq, Structural)]
pub enum UpdateDrawError {
    DebateNotFound { debate: u128 },
}

impl UpdateDrawError {
    /// The text of the error.
    pub fn message(&self) -> (text: String)
        ensures
            text@ == match self {
                UpdateDrawError::DebateNotFound { .. } => "Debate not found"@,
            },
    {
        match self {
            UpdateDrawError::DebateNotFound { .. } => "Debate not found".to_string(),
        }
    }
}

/// An edit of the draw: ballots to rewrite from the draw, and debates whose
/// venue changes.
pub struct UpdateDrawAction {
    pub updated_ballots: Vec<DrawBallot>,
    pub updated_debates: Vec<DrawDebateUpdate>,
}

/// The ballots and debates that an edit of the draw saves.
pub struct DrawChanges<T, S> {
    pub ballots: Vec<ScoredBallot<T, S>>,
    pub debates: Vec<TournamentDebate>,
}

/// Whether `r` is the saved ballot of the draw ballot `d`, given the ballot
/// stored under its id, if any: the stored ballot, or an empty one with the
/// draw ballot's id, with the draw written into it.
pub open spec fn ballot_saved<T, S>(r: ScoredBallot<T, S>, stored: Option<ScoredBallot<T, S>>, d: DrawBallot) -> bool {
    match stored {
        Some(b) => ballot_edited(
            r,
            b.uuid,
            b.government_scores@,
            b.opposition_scores@,
            b.speeches@,
            b.adjudicators@,
            d,
        ),
        None => ballot_edited(r, d.uuid, Seq::empty(), Seq::empty(), Seq::empty(), Seq::empty(), d),
    }
}

/// Whether some debate to change is not stored.
pub open spec fn some_debate_missing(found: Seq<Option<TournamentDebate>>) -> bool {
    exists|i: int| 0 <= i < found.len() && found[i] is None
}

impl UpdateDrawAction {
    /// The ballots and debates that the edit saves, given the ballot stored
    /// under the id of each draw ballot and the stored debate of each debate
    /// to change, if any. Each draw ballot is written into its stored ballot,
    /// or into an empty one where none is stored; each debate keeps all but
    /// its venue, which becomes the edited one. Refused at the first debate
    /// that is not stored.
    pub fn get_changes<T, S>(
        &self,
        stored_ballots: Vec<Option<ScoredBallot<T, S>>>,
        stored_debates: &Vec<Option<TournamentDebate>>,
    ) -> (r: Result<DrawChanges<T, S>, UpdateDrawError>)
        requires
            stored_ballots.len() == self.updated_ballots.len(),
            stored_debates.len() == self.updated_debates.len(),
        ensures
            r is Err <==> some_debate_missing(stored_debates@),
            r matches Err(e) ==> exists|i: int|
                0 <= i < stored_debates@.len() && stored_debates@[i] is None && e == (UpdateDrawError::DebateNotFound {
                    debate: self.updated_debates@[i].uuid,
                }) && forall|k: int| 0 <= k < i ==> (#[trigger] stored_debates@[k]) is Some,
            r matches Ok(ch) ==> {
                &&& ch.ballots@.len() == self.updated_ballots@.len()
                &&& forall|i: int|
                    0 <= i < ch.ballots@.len() ==> ballot_saved(
                        #[trigger] ch.ballots@[i],
                        stored_ballots@[i],
                        self.updated_ballots@[i],
                    )
                &&& ch.debates@.len() == self.updated_debates@.len()
                &&& forall|i: int|
                    0 <= i < ch.debates@.len() ==> #[trigger] ch.debates@[i] == (TournamentDebate {
                        venue_id: self.updated_debates@[i].venue,
                        ..stored_debates@[i]->Some_0
                    })
            },
    {
        let ghost all = stored_ballots@;
        let mut stored_ballots = stored_ballots;
        let mut ballots: Vec<ScoredBallot<T, S>> = Vec::new();
        let mut i: usize = 0;
        while i < self.updated_ballots.len()
            invariant
                i <= self.updated_ballots.len(),
                all.len() == self.updated_ballots.len(),
                stored_ballots@ == all.subrange(i as int, all.len() as int),
                ballots@.len() == i,
                forall|k: int| 0 <= k < i ==> ballot_saved(#[trigger] ballots@[k], all[k], self.updated_ballots@[k]),
            decreases self.updated_ballots.len() - i,
        {
            let d = &self.updated_ballots[i];
            let stored = stored_ballots.remove(0);
            assert(stored == all[i as int]);
            let b = match stored {
                Some(b) => update_ballot(b, d),
                None => {
                    let e = ScoredBallot::empty(d.uuid);
                    assert(e.government_scores@ =~= Seq::empty());
                    assert(e.opposition_scores@ =~= Seq::empty());
                    assert(e.speeches@ =~= Seq::empty());
                    assert(e.adjudicators@ =~= Seq::empty());
                    update_ballot(e, d)
                },
            };
            assert(ballot_saved(b, all[i as int], self.updated_ballots@[i as int]));
            ballots.push(b);
            i += 1;
            assert(stored_ballots@ =~= all.subrange(i as int, all.len() as int));
        }
        let mut debates: Vec<TournamentDebate> = Vec::new();
        let mut k: usize = 0;
        while k < self.updated_debates.len()
            invariant
                k <= self.updated_debates.len(),
                stored_debates.len() == self.updated_debates.len(),
                debates@.len() == k,
                forall|m: int| 0 <= m < k ==> (#[trigger] stored_debates@[m]) is Some,
                forall|m: int|
                    0 <= m < k ==> #[trigger] debates@[m] == (TournamentDebate {
                        venue_id: self.updated_debates@[m].venue,
                        ..stored_debates@[m]->Some_0
                    }),
            decreases self.updated_debates.len() - k,
        {
            let update = self.updated_debates[k];
            match stored_debates[k] {
                Some(debate) => {
                    debates.push(TournamentDebate { venue_id: update.venue, ..debate });
                },
                None => {
                    return Err(UpdateDrawError::DebateNotFound { debate: update.uuid });
                },
            }
            k += 1;
        }
        Ok(DrawChanges { ballots, debates })
    }
}

/// The debates after the first `count`, none where there are no more.
pub open spec fn beyond(debates: Seq<TournamentDebate>, count: int) -> Seq<TournamentDebate> {
    if count < debates.len() {
        debates.skip(count)
    } else {
        Seq::empty()
    }
}

/// The debates of a round fitted to its new ballots, and what goes with the
/// debates beyond them.
pub struct FittedDebates {
    pub debates: Vec<TournamentDebate>,
    pub deleted_debates: Vec<u128>,
    pub deleted_ballots: Vec<u128>,
}

/// The venue of each debate before the free ones are filled: that of the
/// existing debate, none for a new one.
pub open spec fn venue_slots(existing: Seq<TournamentDebate>, count: int) -> Seq<Option<u128>> {
    Seq::new(count as nat, |i: int| if i < existing.len() { existing[i].venue_id } else { None })
}

/// Whether `d` is the `i`-th debate of the round once fitted: the existing
/// one, or a new one numbered `i` without a ballot, with its venue; a debate
/// without a ballot gets a fresh ballot id, the others keep theirs, so every
/// debate has a ballot id other than 0.
pub open spec fn debate_fitted(d: TournamentDebate, i: int, round_id: u128, existing: Seq<TournamentDebate>, venue: Option<u128>) -> bool {
    &&& d.venue_id == venue
    &&& d.ballot_id != 0
    &&& if i < existing.len() {
        let e = existing[i];
        &&& d.uuid == e.uuid
        &&& d.round_id == e.round_id
        &&& d.index == e.index
        &&& d.is_motion_released_to_non_aligned == e.is_motion_released_to_non_aligned
        &&& e.ballot_id != 0 ==> d.ballot_id == e.ballot_id
    } else {
        &&& d.round_id == round_id
        &&& d.index == i as u64
        &&& !d.is_motion_released_to_non_aligned
    }
}

/// Fits the debates of a round to its number of new ballots: keeps the
/// first existing debates, adds new ones numbered on, and gives up the rest
/// together with their ballots. A debate without a ballot (id 0) gets a
/// fresh ballot id; the debates without a venue get the unused venues, in
/// order, where there are enough of them for all such debates.
pub fn fit_debates(round_id: u128, existing: &Vec<TournamentDebate>, ballot_count: usize, venues: &Vec<u128>) -> (r: FittedDebates)
    ensures
        r.debates@.len() == ballot_count,
        forall|i: int|
            0 <= i < ballot_count ==> debate_fitted(
                #[trigger] r.debates@[i],
                i,
                round_id,
                existing@,
                venues_after_assignment(venue_slots(existing@, ballot_count as int), venues@)[i],
            ),
        r.deleted_debates@ == beyond(existing@, ballot_count as int).map_values(|d: TournamentDebate| d.uuid),
        r.deleted_ballots@ == beyond(existing@, ballot_count as int).map_values(|d: TournamentDebate| d.ballot_id),
{
    let mut slots: Vec<Option<u128>> = Vec::new();
    let mut i: usize = 0;
    while i < ballot_count
        invariant
            i <= ballot_count,
            slots@ == venue_slots(existing@, ballot_count as int).take(i as int),
        decreases ballot_count - i,
    {
        if i < existing.len() {
            slots.push(existing[i].venue_id);
        } else {
            slots.push(None);
        }
        i += 1;
        assert(slots@ =~= venue_slots(existing@, ballot_count as int).take(i as int));
    }
    assert(slots@ =~= venue_slots(existing@, ballot_count as int));
    let assigned = assign_venues(&slots, venues);
    let ghost target = venues_after_assignment(venue_slots(existing@, ballot_count as int), venues@);
    let mut debates: Vec<TournamentDebate> = Vec::new();
    let mut i: usize = 0;
    while i < ballot_count
        invariant
            i <= ballot_count,
            assigned@ == target,
            target.len() == ballot_count,
            debates@.len() == i,
            forall|k: int| 0 <= k < i ==> debate_fitted(#[trigger] debates@[k], k, round_id, existing@, target[k]),
        decreases ballot_count - i,
    {
        let venue_id = assigned[i];
        let base = if i < existing.len() {
            existing[i]
        } else {
            TournamentDebate {
                uuid: new_random_id(),
                round_id,
                index: i as u64,
                ballot_id: 0,
                is_motion_released_to_non_aligned: false,
                venue_id: None,
            }
        };
        let ballot_id = if base.ballot_id == 0 {
            let id = new_random_id();
            proof {
                lemma_random_id_not_nil(id);
            }
            id
        } else {
            base.ballot_id
        };
        debates.push(TournamentDebate { ballot_id, venue_id, ..base });
        i += 1;
    }
    let mut deleted_debates: Vec<u128> = Vec::new();
    let mut deleted_ballots: Vec<u128> = Vec::new();
    let start = if ballot_count < existing.len() {
        ballot_count
    } else {
        existing.len()
    };
    let mut k: usize = start;
    while k < existing.len()
        invariant
            start <= k <= existing.len(),
            deleted_debates@ == existing@.subrange(start as int, k as int).map_values(|d: TournamentDebate| d.uuid),
            deleted_ballots@ == existing@.subrange(start as int, k as int).map_values(|d: TournamentDebate| d.ballot_id),
        decreases existing.len() - k,
    {
        deleted_debates.push(existing[k].uuid);
        deleted_ballots.push(existing[k].ballot_id);
        k += 1;
        assert(deleted_debates@ =~= existing@.subrange(start as int, k as int).map_values(|d: TournamentDebate| d.uuid));
        assert(deleted_ballots@ =~= existing@.subrange(start as int, k as int).map_values(|d: TournamentDebate| d.ballot_id));
    }
    assert(existing@.subrange(start as int, k as int) =~= beyond(existing@, ballot_count as int));
    FittedDebates { debates, deleted_debates, deleted_ballots }
}

/// The speakers of the non-aligned speeches, in order, empty ones included.
pub open spec fn non_aligned_slots(speeches: Seq<Speech>) -> Seq<Option<u128>>
    decreases speeches.len(),
{
    if speeches.len() == 0 {
        Seq::empty()
    } else {
        let rest = non_aligned_slots(speeches.drop_last());
        if speeches.last().role == SpeechRole::NonAligned {
            rest.push(speeches.last().speaker)
        } else {
            rest
        }
    }
}

fn non_aligned_slots_of(speeches: &Vec<Speech>) -> (r: Vec<Option<u128>>)
    ensures
        r@ == non_aligned_slots(speeches@),
{
    let mut r: Vec<Option<u128>> = Vec::new();
    let mut i: usize = 0;
    while i < speeches.len()
        invariant
            i <= speeches.len(),
            r@ == non_aligned_slots(speeches@.take(i as int)),
        decreases speeches.len() - i,
    {
        assert(speeches@.take(i + 1).drop_last() =~= speeches@.take(i as int));
        if speeches[i].role == SpeechRole::NonAligned {
            r.push(speeches[i].speaker);
        }
        i += 1;
    }
    assert(speeches@.take(speeches.len() as int) =~= speeches@);
    r
}

fn same_slots(a: &Vec<Option<u128>>, b: &Vec<Option<u128>>) -> (same: bool)
    ensures
        same == (a@ == b@),
{
    if a.len() != b.len() {
        return false;
    }
    let mut i: usize = 0;
    while i < a.len()
        invariant
            i <= a.len(),
            a.len() == b.len(),
            forall|k: int| 0 <= k < i ==> a@[k] == b@[k],
        decreases a.len() - i,
    {
        let equal = match (a[i], b[i]) {
            (Some(x), Some(y)) => x == y,
            (None, None) => true,
            _ => false,
        };
        if !equal {
            return false;
        }
        i += 1;
    }
    assert(a@ =~= b@);
    true
}

/// Whether a backup ballot that arrived for a debate can replace the
/// debate's ballot without review: the debate's ballot has no scores yet, and
/// both ballots have the same teams and the same non-aligned speakers, in
/// order.
pub open spec fn accepts_backup(current: Ballot, current_is_scored: bool, backup: Ballot) -> bool {
    &&& !current_is_scored
    &&& current.government == backup.government
    &&& current.opposition == backup.opposition
    &&& non_aligned_slots(current.speeches@) == non_aligned_slots(backup.speeches@)
}

/// Whether the backup ballot can replace the debate's ballot without review.
pub fn accepts_backup_ballot(current: &Ballot, current_is_scored: bool, backup: &Ballot) -> (accepted: bool)
    ensures
        accepted == accepts_backup(*current, current_is_scored, *backup),
{
    if current_is_scored || current.government != backup.government || current.opposition != backup.opposition {
        return false;
    }
    let a = non_aligned_slots_of(&current.speeches);
    let b = non_aligned_slots_of(&backup.speeches);
    same_slots(&a, &b)
}

/// A backup ballot that arrived for a debate, with the debate, its current
/// ballot and whether that ballot has scores.
pub struct BackupBallotArrival {
    pub debate: TournamentDebate,
    pub current: Ballot,
    pub current_is_scored: bool,
    pub backup: Ballot,
}

/// What accepting backup ballots saves and deletes.
pub struct AcceptedBallots {
    pub debates: Vec<TournamentDebate>,
    pub deleted_ballots: Vec<u128>,
}

/// The arrivals whose backup ballot is accepted, in order.
pub open spec fn accepted_arrivals(arrivals: Seq<BackupBallotArrival>) -> Seq<BackupBallotArrival>
    decreases arrivals.len(),
{
    if arrivals.len() == 0 {
        Seq::empty()
    } else {
        let rest = accepted_arrivals(arrivals.drop_last());
        let a = arrivals.last();
        if accepts_backup(a.current, a.current_is_scored, a.backup) {
            rest.push(a)
        } else {
            rest
        }
    }
}

/// Accepts the backup ballots that need no review: for each, in order, the
/// debate now points at the backup ballot and its former ballot is deleted.
pub fn auto_accept_ballots(arrivals: &Vec<BackupBallotArrival>) -> (r: AcceptedBallots)
    ensures
        r.debates@ == accepted_arrivals(arrivals@).map_values(
            |a: BackupBallotArrival| TournamentDebate { ballot_id: a.backup.uuid, ..a.debate },
        ),
        r.deleted_ballots@ == accepted_arrivals(arrivals@).map_values(|a: BackupBallotArrival| a.current.uuid),
{
    let mut debates: Vec<TournamentDebate> = Vec::new();
    let mut deleted_ballots: Vec<u128> = Vec::new();
    let mut i: usize = 0;
    while i < arrivals.len()
        invariant
            i <= arrivals.len(),
            debates@ == accepted_arrivals(arrivals@.take(i as int)).map_values(
                |a: BackupBallotArrival| TournamentDebate { ballot_id: a.backup.uuid, ..a.debate },
            ),
            deleted_ballots@ == accepted_arrivals(arrivals@.take(i as int)).map_values(
                |a: BackupBallotArrival| a.current.uuid,
            ),
        decreases arrivals.len() - i,
    {
        let a = &arrivals[i];
        assert(arrivals@.take(i + 1).drop_last() =~= arrivals@.take(i as int));
        assert(arrivals@.take(i + 1).last() == *a);
        if accepts_backup_ballot(&a.current, a.current_is_scored, &a.backup) {
            debates.push(TournamentDebate { ballot_id: a.backup.uuid, ..a.debate });
            deleted_ballots.push(a.current.uuid);
        }
        i += 1;
        assert(debates@ =~= accepted_arrivals(arrivals@.take(i as int)).map_values(
            |a: BackupBallotArrival| TournamentDebate { ballot_id: a.backup.uuid, ..a.debate },
        ));
        assert(deleted_ballots@ =~= accepted_arrivals(arrivals@.take(i as int)).map_values(
            |a: BackupBallotArrival| a.current.uuid,
        ));
    }
    assert(arrivals@.take(arrivals.len() as int) =~= arrivals@);
    AcceptedBallots { debates, deleted_ballots }
}

/// What of a round is drawn anew.
#[derive(Clone, Copy, Debug, PartialEq, Eq, Structural)]
pub enum RedrawMode {
    Venues,
}

/// A new draw of part of a round.
#[derive(Clone, Copy, Debug, PartialEq, Eq, Structural)]
pub struct RedrawRoundAction {
    pub round_id: u128,
    pub mode: RedrawMode,
}

impl RedrawRoundAction {
    /// The round's debates, in the order of their index, with the venues
    /// drawn anew: the `i`-th debate gets the `i`-th venue, in the venues'
    /// order, and none once the venues run out; all else stays.
    pub fn get_changes(&self, debates: &Vec<TournamentDebate>, venues: &Vec<u128>) -> (r: Vec<TournamentDebate>)
        ensures
            r@.len() == debates@.len(),
            forall|i: int|
                0 <= i < debates@.len() ==> #[trigger] r@[i] == (TournamentDebate {
                    venue_id: if i < venues.len() {
                        Some(venues@[i])
                    } else {
                        None
                    },
                    ..debates@[i]
                }),
    {
        match self.mode {
            RedrawMode::Venues => {
                let mut r: Vec<TournamentDebate> = Vec::new();
                let mut i: usize = 0;
                while i < debates.len()
                    invariant
                        i <= debates.len(),
                        r@.len() == i,
                        forall|k: int|
                            0 <= k < i ==> #[trigger] r@[k] == (TournamentDebate {
                                venue_id: if k < venues.len() {
                                    Some(venues@[k])
                                } else {
                                    None
                                },
                                ..debates@[k]
                            }),
                    decreases debates.len() - i,
                {
                    let venue_id = if i < venues.len() {
                        Some(venues[i])
                    } else {
                        None
                    };
                    r.push(TournamentDebate { venue_id, ..debates[i] });
                    i += 1;
                }
                r
            },
        }
    }
}

} // verus!
