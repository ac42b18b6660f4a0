use vstd::prelude::*;

verus! {

/// An institution a participant belongs to, with the severity that a clash
/// through it carries.
#[derive(Clone, Copy, Debug, PartialEq, Eq, Structural)]
pub struct ParticipantInstitution {
    pub uuid: u128,
    pub clash_severity: u16,
}

/// The role of a participant: a speaker, possibly in a team, or an adjudicator.
#[derive(Clone, Copy, Debug, PartialEq, Eq, Structural)]
pub enum ParticipantRole {
    Speaker { team_id: Option<u128> },
    Adjudicator,
}

/// A tournament participant, with what the draw and the break read of it.
#[derive(Clone, Debug)]
pub struct Participant {
    pub uuid: u128,
    pub role: ParticipantRole,
    pub break_category_id: Option<u128>,
    pub institutions: Vec<ParticipantInstitution>,
}

pub open spec fn is_speaker(p: Participant) -> bool {
    p.role is Speaker
}

pub open spec fn is_adjudicator(p: Participant) -> bool {
    p.role is Adjudicator
}

/// Whether `p` is a speaker in team `t`.
pub open spec fn is_member_of(p: Participant, t: u128) -> bool {
    p.role == (ParticipantRole::Speaker { team_id: Some(t) })
}

} // verus!
