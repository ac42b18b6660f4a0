use vstd::prelude::*;

use crate::participants::ParticipantInstitution;
use crate::round_draw::new_random_id;
use crate::upload::{NewClash, clash_pairs};

verus! {

/// A clash that is saved already.
#[derive(Clone, Copy, Debug, PartialEq, Eq, Structural)]
pub struct ExistingClash {
    pub uuid: u128,
    pub declaring_participant_id: u128,
    pub target_participant_id: u128,
}

/// A participant with its institutions.
pub struct ParticipantInstitutions {
    pub uuid: u128,
    pub institutions: Vec<ParticipantInstitution>,
}

/// What an update of the clashes saves: the new clashes, the ids of the
/// clashes to delete and the participants with their new institutions.
pub struct ClashChanges {
    pub added_clashes: Vec<NewClash>,
    pub deleted_clashes: Vec<u128>,
    pub participants: Vec<ParticipantInstitutions>,
}

/// Whether a saved clash declares the pair.
pub open spec fn pair_saved(existing: Seq<ExistingClash>, pair: (u128, u128)) -> bool {
    exists|i: int| 0 <= i < existing.len() && (#[trigger] existing[i]).declaring_participant_id == pair.0
        && existing[i].target_participant_id == pair.1
}

/// The added pairs that no saved clash declares, in order.
pub open spec fn unsaved_pairs(existing: Seq<ExistingClash>, added: Seq<(u128, u128)>) -> Seq<(u128, u128)>
    decreases added.len(),
{
    if added.len() == 0 {
        Seq::empty()
    } else {
        let rest = unsaved_pairs(existing, added.drop_last());
        if pair_saved(existing, added.last()) {
            rest
        } else {
            rest.push(added.last())
        }
    }
}

/// The ids of the saved clashes that declare the pair, in order.
pub open spec fn clashes_of_pair(existing: Seq<ExistingClash>, pair: (u128, u128)) -> Seq<u128>
    decreases existing.len(),
{
    if existing.len() == 0 {
        Seq::empty()
    } else {
        let rest = clashes_of_pair(existing.drop_last(), pair);
        let c = existing.last();
        if c.declaring_participant_id == pair.0 && c.target_participant_id == pair.1 {
            rest.push(c.uuid)
        } else {
            rest
        }
    }
}

/// The ids of the saved clashes of each deleted pair, pair by pair.
pub open spec fn deleted_clash_ids(existing: Seq<ExistingClash>, deleted: Seq<(u128, u128)>) -> Seq<u128>
    decreases deleted.len(),
{
    if deleted.len() == 0 {
        Seq::empty()
    } else {
        deleted_clash_ids(existing, deleted.drop_last()) + clashes_of_pair(existing, deleted.last())
    }
}

/// Whether one of the institutions has the id.
pub open spec fn has_institution(insts: Seq<ParticipantInstitution>, id: u128) -> bool {
    exists|i: int| 0 <= i < insts.len() && (#[trigger] insts[i]).uuid == id
}

/// The institutions after the added institution clashes of the participant:
/// each institution it lacks is appended with full clash severity.
pub open spec fn with_added_institutions(insts: Seq<ParticipantInstitution>, p: u128, added: Seq<(u128, u128)>) -> Seq<
    ParticipantInstitution,
>
    decreases added.len(),
{
    if added.len() == 0 {
        insts
    } else {
        let before = with_added_institutions(insts, p, added.drop_last());
        let (q, inst) = added.last();
        if q == p && !has_institution(before, inst) {
            before.push(ParticipantInstitution { uuid: inst, clash_severity: 100 })
        } else {
            before
        }
    }
}

/// Whether the participant deletes its clash with the institution.
pub open spec fn institution_deleted(p: u128, deleted: Seq<(u128, u128)>, inst: u128) -> bool {
    exists|i: int| 0 <= i < deleted.len() && (#[trigger] deleted[i]).0 == p && deleted[i].1 == inst
}

/// The institutions that the participant does not delete its clash with.
pub open spec fn without_deleted_institutions(insts: Seq<ParticipantInstitution>, p: u128, deleted: Seq<(u128, u128)>) -> Seq<
    ParticipantInstitution,
>
    decreases insts.len(),
{
    if insts.len() == 0 {
        Seq::empty()
    } else {
        let rest = without_deleted_institutions(insts.drop_last(), p, deleted);
        if institution_deleted(p, deleted, insts.last().uuid) {
            rest
        } else {
            rest.push(insts.last())
        }
    }
}

/// The institutions of the participant after the update.
pub open spec fn updated_institutions(
    insts: Seq<ParticipantInstitution>,
    p: u128,
    added: Seq<(u128, u128)>,
    deleted: Seq<(u128, u128)>,
) -> Seq<ParticipantInstitution> {
    without_deleted_institutions(with_added_institutions(insts, p, added), p, deleted)
}

/// Whether a saved clash declares the pair.
fn pair_is_saved(existing: &Vec<ExistingClash>, pair: (u128, u128)) -> (b: bool)
    ensures
        b == pair_saved(existing@, pair),
{
    let mut i: usize = 0;
    while i < existing.len()
        invariant
            i <= existing.len(),
            forall|j: int| 0 <= j < i ==> !((#[trigger] existing@[j]).declaring_participant_id == pair.0
                && existing@[j].target_participant_id == pair.1),
        decreases existing.len() - i,
    {
        if existing[i].declaring_participant_id == pair.0 && existing[i].target_participant_id == pair.1 {
            return true;
        }
        i += 1;
    }
    false
}

/// Whether one of the institutions has the id.
fn holds_institution(insts: &Vec<ParticipantInstitution>, id: u128) -> (b: bool)
    ensures
        b == has_institution(insts@, id),
{
    let mut i: usize = 0;
    while i < insts.len()
        invariant
            i <= insts.len(),
            forall|j: int| 0 <= j < i ==> (#[trigger] insts@[j]).uuid != id,
        decreases insts.len() - i,
    {
        if insts[i].uuid == id {
            return true;
        }
        i += 1;
    }
    false
}

/// Whether the participant deletes its clash with the institution.
fn deletes_institution(p: u128, deleted: &Vec<(u128, u128)>, inst: u128) -> (b: bool)
    ensures
        b == institution_deleted(p, deleted@, inst),
{
    let mut i: usize = 0;
    while i < deleted.len()
        invariant
            i <= deleted.len(),
            forall|j: int| 0 <= j < i ==> !((#[trigger] deleted@[j]).0 == p && deleted@[j].1 == inst),
        decreases deleted.len() - i,
    {
        if deleted[i].0 == p && deleted[i].1 == inst {
            return true;
        }
        i += 1;
    }
    false
}

/// The institutions of the participant after the update.
fn update_institutions(
    insts: &Vec<ParticipantInstitution>,
    p: u128,
    added: &Vec<(u128, u128)>,
    deleted: &Vec<(u128, u128)>,
) -> (r: Vec<ParticipantInstitution>)
    ensures
        r@ == updated_institutions(insts@, p, added@, deleted@),
{
    let mut with_added: Vec<ParticipantInstitution> = Vec::new();
    let mut i: usize = 0;
    while i < insts.len()
        invariant
            i <= insts.len(),
            with_added@ == insts@.take(i as int),
        decreases insts.len() - i,
    {
        with_added.push(insts[i]);
        i += 1;
        assert(with_added@ =~= insts@.take(i as int));
    }
    assert(insts@.take(insts.len() as int) =~= insts@);
    let mut a: usize = 0;
    while a < added.len()
        invariant
            a <= added.len(),
            with_added@ == with_added_institutions(insts@, p, added@.take(a as int)),
        decreases added.len() - a,
    {
        assert(added@.take(a + 1).drop_last() =~= added@.take(a as int));
        let (q, inst) = added[a];
        if q == p && !holds_institution(&with_added, inst) {
            with_added.push(ParticipantInstitution { uuid: inst, clash_severity: 100 });
        }
        a += 1;
    }
    assert(added@.take(added.len() as int) =~= added@);
    let ghost full = with_added@;
    let mut r: Vec<ParticipantInstitution> = Vec::new();
    let mut k: usize = 0;
    while k < with_added.len()
        invariant
            k <= with_added.len(),
            full == with_added@,
            r@ == without_deleted_institutions(full.take(k as int), p, deleted@),
        decreases with_added.len() - k,
    {
        let x = with_added[k];
        assert(full.take(k + 1).drop_last() =~= full.take(k as int));
        assert(full.take(k + 1).last() == x);
        if !deletes_institution(p, deleted, x.uuid) {
            r.push(x);
        }
        k += 1;
    }
    assert(full.take(with_added.len() as int) =~= full);
    r
}

/// An update of the clashes: declarations marked as read, and pairs of a
/// declaring participant and a participant or institution whose clash is
/// added or deleted.
pub struct UpdateClashes {
    pub tournament_id: u128,
    pub clash_read_declarations: Vec<u128>,
    pub institution_read_declarations: Vec<u128>,
    pub deleted_participant_clashes: Vec<(u128, u128)>,
    pub added_participant_clashes: Vec<(u128, u128)>,
    pub deleted_institution_clashes: Vec<(u128, u128)>,
    pub added_institution_clashes: Vec<(u128, u128)>,
}

impl UpdateClashes {
    /// The changes the update makes, given the saved clashes of the
    /// declaring participants and the participants whose institutions it
    /// edits: a new clash, with a fresh id and full severity, for each added
    /// pair that no saved clash declares; the saved clashes of each deleted
    /// pair are deleted; each given participant gets the institutions it adds
    /// a clash with and loses those it deletes.
    pub fn get_changes(&self, existing_clashes: &Vec<ExistingClash>, participants: &Vec<ParticipantInstitutions>) -> (r: ClashChanges)
        ensures
            clash_pairs(r.added_clashes@) == unsaved_pairs(existing_clashes@, self.added_participant_clashes@),
            forall|i: int| 0 <= i < r.added_clashes.len() ==> (#[trigger] r.added_clashes@[i]).clash_severity == 100,
            r.deleted_clashes@ == deleted_clash_ids(existing_clashes@, self.deleted_participant_clashes@),
            r.participants.len() == participants.len(),
            forall|k: int| 0 <= k < participants.len() ==> {
                &&& (#[trigger] r.participants@[k]).uuid == participants@[k].uuid
                &&& r.participants@[k].institutions@ == updated_institutions(
                    participants@[k].institutions@,
                    participants@[k].uuid,
                    self.added_institution_clashes@,
                    self.deleted_institution_clashes@,
                )
            },
{
        let added_participant_clashes = &self.added_participant_clashes;
        let deleted_participant_clashes = &self.deleted_participant_clashes;
        let added_institution_clashes = &self.added_institution_clashes;
        let deleted_institution_clashes = &self.deleted_institution_clashes;
        let mut added: Vec<NewClash> = Vec::new();
        let mut i: usize = 0;
        while i < added_participant_clashes.len()
            invariant
                i <= added_participant_clashes.len(),
                clash_pairs(added@) == unsaved_pairs(existing_clashes@, added_participant_clashes@.take(i as int)),
                forall|j: int| 0 <= j < added.len() ==> (#[trigger] added@[j]).clash_severity == 100,
            decreases added_participant_clashes.len() - i,
        {
            assert(added_participant_clashes@.take(i + 1).drop_last() =~= added_participant_clashes@.take(i as int));
            let pair = added_participant_clashes[i];
            if !pair_is_saved(existing_clashes, pair) {
                let ghost before = added@;
                added.push(
                    NewClash {
                        uuid: new_random_id(),
                        declaring_participant_id: pair.0,
                        target_participant_id: pair.1,
                        clash_severity: 100,
                    },
                );
                assert(clash_pairs(added@) =~= clash_pairs(before).push(pair));
            }
            i += 1;
        }
        assert(added_participant_clashes@.take(added_participant_clashes.len() as int) =~= added_participant_clashes@);
        let mut deleted: Vec<u128> = Vec::new();
        let mut d: usize = 0;
        while d < deleted_participant_clashes.len()
            invariant
                d <= deleted_participant_clashes.len(),
                deleted@ == deleted_clash_ids(existing_clashes@, deleted_participant_clashes@.take(d as int)),
            decreases deleted_participant_clashes.len() - d,
        {
            assert(deleted_participant_clashes@.take(d + 1).drop_last() =~= deleted_participant_clashes@.take(d as int));
            let pair = deleted_participant_clashes[d];
            let ghost base = deleted@;
            let mut c: usize = 0;
            while c < existing_clashes.len()
                invariant
                    c <= existing_clashes.len(),
                    deleted@ == base + clashes_of_pair(existing_clashes@.take(c as int), pair),
                decreases existing_clashes.len() - c,
            {
                assert(existing_clashes@.take(c + 1).drop_last() =~= existing_clashes@.take(c as int));
                let clash = existing_clashes[c];
                if clash.declaring_participant_id == pair.0 && clash.target_participant_id == pair.1 {
                    deleted.push(clash.uuid);
                }
                c += 1;
                assert(deleted@ =~= base + clashes_of_pair(existing_clashes@.take(c as int), pair));
            }
            assert(existing_clashes@.take(existing_clashes.len() as int) =~= existing_clashes@);
            d += 1;
        }
        assert(deleted_participant_clashes@.take(deleted_participant_clashes.len() as int) =~= deleted_participant_clashes@);
        let mut updated: Vec<ParticipantInstitutions> = Vec::new();
        let mut k: usize = 0;
        while k < participants.len()
            invariant
                k <= participants.len(),
                updated.len() == k,
                forall|j: int| 0 <= j < k ==> {
                    &&& (#[trigger] updated@[j]).uuid == participants@[j].uuid
                    &&& updated@[j].institutions@ == updated_institutions(
                        participants@[j].institutions@,
                        participants@[j].uuid,
                        added_institution_clashes@,
                        deleted_institution_clashes@,
                    )
                },
            decreases participants.len() - k,
        {
            let p = &participants[k];
            let institutions = update_institutions(&p.institutions, p.uuid, added_institution_clashes, deleted_institution_clashes);
            updated.push(ParticipantInstitutions { uuid: p.uuid, institutions });
            k += 1;
        }
        ClashChanges { added_clashes: added, deleted_clashes: deleted, participants: updated }
    }
}

} // verus!
