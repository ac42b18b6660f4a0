use vstd::prelude::*;

verus! {

/// A debate as the adjudicator allocation sees it: the two teams, the chair,
/// the wings, the president and the non-aligned speakers.
pub struct DebateInfo {
    pub id: u128,
    pub government: Option<u128>,
    pub opposition: Option<u128>,
    pub chair: Option<u128>,
    pub wings: Vec<u128>,
    pub president: Option<u128>,
    pub non_aligned_speakers: Vec<u128>,
}

/// The mathematical value of a [`DebateInfo`].
pub struct DebateView {
    pub id: u128,
    pub government: Option<u128>,
    pub opposition: Option<u128>,
    pub chair: Option<u128>,
    pub wings: Seq<u128>,
    pub president: Option<u128>,
    pub non_aligned_speakers: Seq<u128>,
}

impl View for DebateInfo {
    type V = DebateView;

    open spec fn view(&self) -> DebateView {
        DebateView {
            id: self.id,
            government: self.government,
            opposition: self.opposition,
            chair: self.chair,
            wings: self.wings@,
            president: self.president,
            non_aligned_speakers: self.non_aligned_speakers@,
        }
    }
}

/// The debate of a draw ballot: the first adjudicator chairs, the others are
/// wings, and the non-aligned speakers are the filled slots.
pub open spec fn draw_ballot_debate(b: DrawBallot) -> DebateView {
    DebateView {
        id: b.uuid,
        government: b.government,
        opposition: b.opposition,
        chair: if b.adjudicators.len() > 0 { Some(b.adjudicators@[0]) } else { None },
        wings: after_first(b.adjudicators@),
        president: b.president,
        non_aligned_speakers: present_speakers(b.non_aligned_speakers@),
    }
}

/// A debate of a draw that is being built: its teams, its adjudicators (the
/// chair first), its non-aligned speaker slots and its president.
pub struct DrawBallot {
    pub uuid: u128,
    pub government: Option<u128>,
    pub opposition: Option<u128>,
    pub adjudicators: Vec<u128>,
    pub non_aligned_speakers: Vec<Option<u128>>,
    pub president: Option<u128>,
}

/// The role of a speech in a ballot.
#[derive(Clone, Copy, Debug, PartialEq, Eq, Structural)]
pub enum SpeechRole {
    Government,
    Opposition,
    NonAligned,
}

/// One speech of a ballot, by position within its role.
#[derive(Clone, Copy, Debug, PartialEq, Eq, Structural)]
pub struct Speech {
    pub speaker: Option<u128>,
    pub role: SpeechRole,
    pub position: u8,
}

/// A debate as it was recorded: the two teams, the speeches, the adjudicators
/// (the chair first) and the president.
pub struct Ballot {
    pub uuid: u128,
    pub government: Option<u128>,
    pub opposition: Option<u128>,
    pub speeches: Vec<Speech>,
    pub adjudicators: Vec<u128>,
    pub president: Option<u128>,
}

/// The speakers of the non-aligned speeches, in order.
pub open spec fn non_aligned_speakers_of(speeches: Seq<Speech>) -> Seq<u128>
    decreases speeches.len(),
{
    if speeches.len() == 0 {
        Seq::empty()
    } else {
        let rest = non_aligned_speakers_of(speeches.drop_last());
        match (speeches.last().role, speeches.last().speaker) {
            (SpeechRole::NonAligned, Some(s)) => rest.push(s),
            _ => rest,
        }
    }
}

/// The speakers present in the slots, in order.
pub open spec fn present_speakers(slots: Seq<Option<u128>>) -> Seq<u128>
    decreases slots.len(),
{
    if slots.len() == 0 {
        Seq::empty()
    } else {
        let rest = present_speakers(slots.drop_last());
        match slots.last() {
            Some(s) => rest.push(s),
            None => rest,
        }
    }
}

/// All but the first element; nothing for an empty sequence.
pub open spec fn after_first(s: Seq<u128>) -> Seq<u128> {
    if s.len() > 0 { s.skip(1) } else { Seq::empty() }
}

pub(crate) fn copy_after_first(v: &Vec<u128>) -> (out: Vec<u128>)
    ensures
        out@ == after_first(v@),
{
    let mut out: Vec<u128> = Vec::new();
    if v.len() == 0 {
        return out;
    }
    let start: usize = 1;
    let mut i = start;
    while i < v.len()
        invariant
            start <= i <= v.len(),
            out@ =~= v@.subrange(start as int, i as int),
        decreases v.len() - i,
    {
        out.push(v[i]);
        i += 1;
    }
    assert(out@ =~= v@.skip(1));
    out
}

impl DebateInfo {
    /// The debate recorded in a ballot: the first adjudicator chairs, the others
    /// are wings, and the non-aligned speakers are those of the non-aligned speeches.
    pub fn from_ballot(ballot: &Ballot) -> (d: DebateInfo)
        ensures
            d.id == ballot.uuid,
            d.government == ballot.government,
            d.opposition == ballot.opposition,
            d.chair == (if ballot.adjudicators.len() > 0 { Some(ballot.adjudicators@[0]) } else { None }),
            d.wings@ == after_first(ballot.adjudicators@),
            d.non_aligned_speakers@ == non_aligned_speakers_of(ballot.speeches@),
            d.president == ballot.president,
    {
        let mut speakers: Vec<u128> = Vec::new();
        let mut i: usize = 0;
        while i < ballot.speeches.len()
            invariant
                i <= ballot.speeches.len(),
                speakers@ == non_aligned_speakers_of(ballot.speeches@.take(i as int)),
            decreases ballot.speeches.len() - i,
        {
            assert(ballot.speeches@.take(i + 1).drop_last() =~= ballot.speeches@.take(i as int));
            let s = ballot.speeches[i];
            match (s.role, s.speaker) {
                (SpeechRole::NonAligned, Some(sp)) => {
                    speakers.push(sp);
                },
                _ => {},
            }
            i += 1;
        }
        assert(ballot.speeches@.take(ballot.speeches.len() as int) =~= ballot.speeches@);
        DebateInfo {
            id: ballot.uuid,
            government: ballot.government,
            opposition: ballot.opposition,
            chair: if ballot.adjudicators.len() > 0 { Some(ballot.adjudicators[0]) } else { None },
            wings: copy_after_first(&ballot.adjudicators),
            president: ballot.president,
            non_aligned_speakers: speakers,
        }
    }

    /// The debate of a draw ballot: the first adjudicator chairs, the others are
    /// wings, and the non-aligned speakers are the filled slots.
    pub fn from_draw_ballot(ballot: &DrawBallot) -> (d: DebateInfo)
        ensures
            d@ == draw_ballot_debate(*ballot),
            d.id == ballot.uuid,
            d.government == ballot.government,
            d.opposition == ballot.opposition,
            d.chair == (if ballot.adjudicators.len() > 0 { Some(ballot.adjudicators@[0]) } else { None }),
            d.wings@ == after_first(ballot.adjudicators@),
            d.non_aligned_speakers@ == present_speakers(ballot.non_aligned_speakers@),
            d.president == ballot.president,
    {
        let mut speakers: Vec<u128> = Vec::new();
        let mut i: usize = 0;
        while i < ballot.non_aligned_speakers.len()
            invariant
                i <= ballot.non_aligned_speakers.len(),
                speakers@ == present_speakers(ballot.non_aligned_speakers@.take(i as int)),
            decreases ballot.non_aligned_speakers.len() - i,
        {
            assert(ballot.non_aligned_speakers@.take(i + 1).drop_last() =~= ballot.non_aligned_speakers@.take(i as int));
            match ballot.non_aligned_speakers[i] {
                Some(sp) => {
                    speakers.push(sp);
                },
                None => {},
            }
            i += 1;
        }
        assert(ballot.non_aligned_speakers@.take(ballot.non_aligned_speakers.len() as int) =~= ballot.non_aligned_speakers@);
        DebateInfo {
            id: ballot.uuid,
            government: ballot.government,
            opposition: ballot.opposition,
            chair: if ballot.adjudicators.len() > 0 { Some(ballot.adjudicators[0]) } else { None },
            wings: copy_after_first(&ballot.adjudicators),
            president: ballot.president,
            non_aligned_speakers: speakers,
        }
    }
}

/// Whether two draw ballots hold the same debate.
pub open spec fn same_ballot(a: DrawBallot, b: DrawBallot) -> bool {
    &&& a.uuid == b.uuid
    &&& a.government == b.government
    &&& a.opposition == b.opposition
    &&& a.adjudicators@ == b.adjudicators@
    &&& a.non_aligned_speakers@ == b.non_aligned_speakers@
    &&& a.president == b.president
}

impl DrawBallot {
    /// A copy of the ballot.
    pub fn duplicate(&self) -> (r: DrawBallot)
        ensures
            same_ballot(r, *self),
    {
        let mut adjudicators: Vec<u128> = Vec::new();
        let mut i: usize = 0;
        while i < self.adjudicators.len()
            invariant
                i <= self.adjudicators.len(),
                adjudicators@ =~= self.adjudicators@.take(i as int),
            decreases self.adjudicators.len() - i,
        {
            adjudicators.push(self.adjudicators[i]);
            i += 1;
        }
        let mut speakers: Vec<Option<u128>> = Vec::new();
        let mut k: usize = 0;
        while k < self.non_aligned_speakers.len()
            invariant
                k <= self.non_aligned_speakers.len(),
                speakers@ =~= self.non_aligned_speakers@.take(k as int),
            decreases self.non_aligned_speakers.len() - k,
        {
            speakers.push(self.non_aligned_speakers[k]);
            k += 1;
        }
        assert(self.adjudicators@.take(self.adjudicators.len() as int) =~= self.adjudicators@);
        assert(self.non_aligned_speakers@.take(self.non_aligned_speakers.len() as int) =~= self.non_aligned_speakers@);
        DrawBallot {
            uuid: self.uuid,
            government: self.government,
            opposition: self.opposition,
            adjudicators,
            non_aligned_speakers: speakers,
            president: self.president,
        }
    }
}

/// What the adjudicator allocation knows of an adjudicator: its skill at giving
/// feedback, at moderating and in discussion.
#[derive(Clone, Copy, Debug, PartialEq, Eq, Structural)]
pub struct AdjudicatorInfo {
    pub id: u128,
    pub feedback_skill: i32,
    pub moderation_skill: i32,
    pub discussion_skill: i32,
}

/// A round with its debates, as the adjudicator allocation sees it.
pub struct RoundInfo {
    pub id: u128,
    pub debates: Vec<DebateInfo>,
    pub is_silent: bool,
}

/// The mathematical value of a [`RoundInfo`].
pub struct RoundView {
    pub id: u128,
    pub debates: Seq<DebateView>,
    pub is_silent: bool,
}

/// The debates as mathematical values.
pub open spec fn debates_view(ds: Seq<DebateInfo>) -> Seq<DebateView> {
    ds.map_values(|d: DebateInfo| d@)
}

impl View for RoundInfo {
    type V = RoundView;

    open spec fn view(&self) -> RoundView {
        RoundView { id: self.id, debates: debates_view(self.debates@), is_silent: self.is_silent }
    }
}

/// The debate recorded in a ballot: the first adjudicator chairs, the others
/// are wings, and the non-aligned speakers are those of the non-aligned speeches.
pub open spec fn ballot_debate(b: Ballot) -> DebateView {
    DebateView {
        id: b.uuid,
        government: b.government,
        opposition: b.opposition,
        chair: if b.adjudicators.len() > 0 { Some(b.adjudicators@[0]) } else { None },
        wings: after_first(b.adjudicators@),
        president: b.president,
        non_aligned_speakers: non_aligned_speakers_of(b.speeches@),
    }
}

impl RoundInfo {
    /// The round with the debates recorded in its ballots, in order.
    pub fn from_ballots(id: u128, is_silent: bool, ballots: &Vec<Ballot>) -> (r: RoundInfo)
        ensures
            r@ == (RoundView { id, is_silent, debates: ballots@.map_values(|b: Ballot| ballot_debate(b)) }),
    {
        let mut debates: Vec<DebateInfo> = Vec::new();
        let mut i: usize = 0;
        while i < ballots.len()
            invariant
                i <= ballots.len(),
                debates@.len() == i,
                debates_view(debates@) == ballots@.take(i as int).map_values(|b: Ballot| ballot_debate(b)),
            decreases ballots.len() - i,
        {
            let d = DebateInfo::from_ballot(&ballots[i]);
            assert(d@ == ballot_debate(ballots@[i as int]));
            let ghost prev = debates@;
            debates.push(d);
            i += 1;
            proof {
                let target = ballots@.take(i as int).map_values(|b: Ballot| ballot_debate(b));
                assert forall|k: int| 0 <= k < i implies debates_view(debates@)[k] == target[k] by {
                    if k < i - 1 {
                        assert(debates@[k] == prev[k]);
                        assert(debates_view(prev)[k] == ballots@.take(i - 1).map_values(|b: Ballot| ballot_debate(b))[k]);
                    }
                }
                assert(debates_view(debates@) =~= target);
            }
        }
        assert(ballots@.take(ballots.len() as int) =~= ballots@);
        RoundInfo { id, debates, is_silent }
    }

    /// The round with the debates of its draw ballots, in order.
    pub fn from_draw_ballots(id: u128, is_silent: bool, ballots: &Vec<DrawBallot>) -> (r: RoundInfo)
        ensures
            r@ == (RoundView { id, is_silent, debates: ballots@.map_values(|b: DrawBallot| draw_ballot_debate(b)) }),
    {
        let mut debates: Vec<DebateInfo> = Vec::new();
        let mut i: usize = 0;
        while i < ballots.len()
            invariant
                i <= ballots.len(),
                debates@.len() == i,
                debates_view(debates@) == ballots@.take(i as int).map_values(|b: DrawBallot| draw_ballot_debate(b)),
            decreases ballots.len() - i,
        {
            let d = DebateInfo::from_draw_ballot(&ballots[i]);
            let ghost prev = debates@;
            debates.push(d);
            i += 1;
            proof {
                let target = ballots@.take(i as int).map_values(|b: DrawBallot| draw_ballot_debate(b));
                assert forall|k: int| 0 <= k < i implies debates_view(debates@)[k] == target[k] by {
                    if k < i - 1 {
                        assert(debates@[k] == prev[k]);
                        assert(debates_view(prev)[k] == ballots@.take(i - 1).map_values(|b: DrawBallot| draw_ballot_debate(b))[k]);
                    }
                }
                assert(debates_view(debates@) =~= target);
            }
        }
        assert(ballots@.take(ballots.len() as int) =~= ballots@);
        RoundInfo { id, debates, is_silent }
    }
}

/// The rounds as mathematical values.
pub open spec fn rounds_view(rs: Seq<RoundInfo>) -> Seq<RoundView> {
    rs.map_values(|r: RoundInfo| r@)
}

/// The speeches of a ballot made from a debate: three empty government
/// speeches, three empty opposition speeches, then one non-aligned speech per
/// speaker, each numbered within its role (modulo 256).
pub open spec fn ballot_speeches(non_aligned: Seq<u128>) -> Seq<Speech> {
    Seq::new(
        6 + non_aligned.len(),
        |i: int|
            if i < 3 {
                Speech { speaker: None, role: SpeechRole::Government, position: i as u8 }
            } else if i < 6 {
                Speech { speaker: None, role: SpeechRole::Opposition, position: (i - 3) as u8 }
            } else {
                Speech { speaker: Some(non_aligned[i - 6]), role: SpeechRole::NonAligned, position: (i - 6) as u8 }
            },
    )
}

/// The chair, if any, as a sequence.
pub open spec fn chair_seq(chair: Option<u128>) -> Seq<u128> {
    match chair {
        Some(c) => seq![c],
        None => Seq::empty(),
    }
}

impl DebateInfo {
    /// The ballot of the debate: its teams, three empty speeches per team, the
    /// non-aligned speakers' speeches, the chair followed by the wings, and the
    /// president.
    pub fn into_ballot(self) -> (b: Ballot)
        ensures
            b.uuid == self.id,
            b.government == self.government,
            b.opposition == self.opposition,
            b.speeches@ == ballot_speeches(self.non_aligned_speakers@),
            b.adjudicators@ == chair_seq(self.chair) + self.wings@,
            b.president == self.president,
    {
        let ghost na = self.non_aligned_speakers@;
        let ghost target = ballot_speeches(na);
        let mut speeches: Vec<Speech> = Vec::new();
        let mut p: u8 = 0;
        while p < 3
            invariant
                p <= 3,
                target == ballot_speeches(na),
                speeches@ == target.take(p as int),
            decreases 3 - p,
        {
            speeches.push(Speech { speaker: None, role: SpeechRole::Government, position: p });
            p += 1;
            assert(speeches@ =~= target.take(p as int));
        }
        let mut p: u8 = 0;
        while p < 3
            invariant
                p <= 3,
                target == ballot_speeches(na),
                speeches@ == target.take(3 + p),
            decreases 3 - p,
        {
            speeches.push(Speech { speaker: None, role: SpeechRole::Opposition, position: p });
            p += 1;
            assert(speeches@ =~= target.take(3 + p));
        }
        let mut i: usize = 0;
        while i < self.non_aligned_speakers.len()
            invariant
                i <= self.non_aligned_speakers.len(),
                na == self.non_aligned_speakers@,
                target == ballot_speeches(na),
                speeches@ == target.take(6 + i),
            decreases self.non_aligned_speakers.len() - i,
        {
            let position = #[verifier::truncate] (i as u8);
            speeches.push(Speech { speaker: Some(self.non_aligned_speakers[i]), role: SpeechRole::NonAligned, position });
            i += 1;
            assert(speeches@ =~= target.take(6 + i));
        }
        assert(target.take(6 + na.len() as int) =~= target);
        let mut adjudicators: Vec<u128> = Vec::new();
        match self.chair {
            Some(c) => {
                adjudicators.push(c);
            },
            None => {},
        }
        let ghost chair_part = adjudicators@;
        assert(chair_part =~= chair_seq(self.chair));
        let mut k: usize = 0;
        while k < self.wings.len()
            invariant
                k <= self.wings.len(),
                adjudicators@ == chair_part + self.wings@.take(k as int),
            decreases self.wings.len() - k,
        {
            adjudicators.push(self.wings[k]);
            k += 1;
            assert(adjudicators@ =~= chair_part + self.wings@.take(k as int));
        }
        assert(self.wings@.take(self.wings.len() as int) =~= self.wings@);
        Ballot {
            uuid: self.id,
            government: self.government,
            opposition: self.opposition,
            speeches,
            adjudicators,
            president: self.president,
        }
    }
}

} // verus!
