use vstd::prelude::*;

use base64::Engine;

use crate::participants::ParticipantInstitution;
use crate::random::random_key;
use crate::round_draw::{lemma_random_id_not_nil, new_random_id};
use crate::upload::{NewClash, NewTeam};

verus! {

/// The team a listed speaker belongs to: a team to create under a name, or
/// one that exists.
pub enum ParticipantTeamInfo {
    New { new_team_name: String },
    Existing { team_id: u128 },
}

/// The role of a listed participant.
pub enum EntryRole {
    Speaker { team_info: ParticipantTeamInfo },
    Adjudicator { chair_skill: i32, panel_skill: i32, unavailable_rounds: Vec<u128> },
}

/// An institution of a listed participant.
#[derive(Clone, Copy, Debug, PartialEq, Eq, Structural)]
pub struct EntryInstitution {
    pub uuid: u128,
    pub clash_severity: i32,
}

/// Whether a clash of a listed participant is declared by it or against it.
#[derive(Clone, Copy, Debug, PartialEq, Eq, Structural)]
pub enum ClashDirection {
    Outgoing,
    Incoming,
}

/// A clash of a listed participant.
#[derive(Clone, Copy, Debug, PartialEq, Eq, Structural)]
pub struct EntryClash {
    pub clash_direction: ClashDirection,
    pub participant_uuid: u128,
    pub clash_severity: i32,
}

/// A participant as the participant list edits it.
pub struct ParticipantEntry {
    pub uuid: u128,
    pub name: String,
    pub role: EntryRole,
    pub institutions: Vec<EntryInstitution>,
    pub clashes: Vec<EntryClash>,
    pub registration_key: Option<String>,
    pub is_anonymous: bool,
    pub user_id: Option<u128>,
}

/// The role of a participant to save.
pub enum SavedRole {
    Speaker { team_id: u128 },
    Adjudicator { chair_skill: i32, panel_skill: i32, unavailable_rounds: Vec<u128> },
}

/// A participant to save.
pub struct SavedParticipant {
    pub uuid: u128,
    pub name: String,
    pub role: SavedRole,
    pub tournament_id: u128,
    pub institutions: Vec<ParticipantInstitution>,
    pub registration_key: Option<Vec<u8>>,
    pub is_anonymous: bool,
    pub user_id: Option<u128>,
}

/// What an edit of the participant list saves and deletes, and by how much it
/// changes the member count of each team it touches.
pub struct ParticipantChanges {
    pub teams: Vec<NewTeam>,
    pub participants: Vec<SavedParticipant>,
    pub clashes: Vec<NewClash>,
    pub deleted_clashes: Vec<u128>,
    pub deleted_participants: Vec<u128>,
    pub member_changes: Vec<(u128, i64)>,
}

/// Why an edit of the participant list is refused.
#[derive(Clone, Copy, Debug, PartialEq, Eq, Structural)]
pub enum UpdateParticipantsError {
    InvalidRegistrationKey { participant: u128 },
}

impl UpdateParticipantsError {
    /// The text of the error.
    pub fn message(&self) -> (text: String)
        ensures
            text@ == match self {
                UpdateParticipantsError::InvalidRegistrationKey { .. } => "Invalid registration key"@,
            },
    {
        match self {
            UpdateParticipantsError::InvalidRegistrationKey { .. } => "Invalid registration key".to_string(),
        }
    }
}

/// The bytes that `base64::engine::general_purpose::URL_SAFE_NO_PAD` decodes
/// the text to, none where the text is no such encoding.
pub uninterp spec fn url_safe_no_pad_decoded(text: Seq<char>) -> Option<Seq<u8>>;

/// `base64::Engine::decode` with `base64::engine::general_purpose::URL_SAFE_NO_PAD`
/// on the text: the decoded bytes, or none where it reports an error. The
/// result depends on the text alone, which `url_safe_no_pad_decoded` names.
#[verifier::external_body]
fn decode_url_safe_no_pad(text: &String) -> (r: Option<Vec<u8>>)
    ensures
        r matches Some(v) ==> url_safe_no_pad_decoded(text@) == Some(v@),
        r is None ==> url_safe_no_pad_decoded(text@) is None,
{
    base64::engine::general_purpose::URL_SAFE_NO_PAD.decode(text).ok()
}

/// The stored registration key of a listed key: bytes 16 to 48 of what it
/// decodes to.
pub open spec fn stored_key(text: Seq<char>) -> Option<Seq<u8>> {
    match url_safe_no_pad_decoded(text) {
        Some(bytes) => Some(bytes.subrange(16, 48)),
        None => None,
    }
}

/// Whether the listed key, if any, decodes to at least 48 bytes or not at all.
pub open spec fn key_long_enough(key: Option<Seq<char>>) -> bool {
    match key {
        Some(text) => match url_safe_no_pad_decoded(text) {
            Some(bytes) => bytes.len() >= 48,
            None => true,
        },
        None => true,
    }
}

/// The mathematical value of a team info.
pub enum TeamInfoView {
    New(Seq<char>),
    Existing(u128),
}

/// The mathematical value of a listed participant.
pub struct EntryView {
    pub uuid: u128,
    pub name: Seq<char>,
    pub team: Option<TeamInfoView>,
    pub adjudicator: Option<(i32, i32, Seq<u128>)>,
    pub institutions: Seq<EntryInstitution>,
    pub clashes: Seq<EntryClash>,
    pub registration_key: Option<Seq<char>>,
    pub is_anonymous: bool,
    pub user_id: Option<u128>,
}

impl View for ParticipantEntry {
    type V = EntryView;

    open spec fn view(&self) -> EntryView {
        EntryView {
            uuid: self.uuid,
            name: self.name@,
            team: match self.role {
                EntryRole::Speaker { team_info } => Some(
                    match team_info {
                        ParticipantTeamInfo::New { new_team_name } => TeamInfoView::New(new_team_name@),
                        ParticipantTeamInfo::Existing { team_id } => TeamInfoView::Existing(team_id),
                    },
                ),
                _ => None,
            },
            adjudicator: match self.role {
                EntryRole::Adjudicator { chair_skill, panel_skill, unavailable_rounds } => Some(
                    (chair_skill, panel_skill, unavailable_rounds@),
                ),
                _ => None,
            },
            institutions: self.institutions@,
            clashes: self.clashes@,
            registration_key: match self.registration_key {
                Some(k) => Some(k@),
                None => None,
            },
            is_anonymous: self.is_anonymous,
            user_id: self.user_id,
        }
    }
}

/// The listed participants as mathematical values.
pub open spec fn entries_view(v: Seq<ParticipantEntry>) -> Seq<EntryView> {
    v.map_values(|e: ParticipantEntry| e@)
}

/// The institutions of a listed participant as saved: each severity taken
/// modulo 2^16.
pub open spec fn saved_institutions(insts: Seq<EntryInstitution>) -> Seq<ParticipantInstitution> {
    insts.map_values(|i: EntryInstitution| ParticipantInstitution { uuid: i.uuid, clash_severity: i.clash_severity as u16 })
}

/// Whether the id is in the list.
fn list_contains(v: &Vec<u128>, x: u128) -> (b: bool)
    ensures
        b == v@.contains(x),
{
    let mut i: usize = 0;
    while i < v.len()
        invariant
            i <= v.len(),
            forall|j: int| 0 <= j < i ==> v@[j] != x,
        decreases v.len() - i,
    {
        if v[i] == x {
            return true;
        }
        i += 1;
    }
    false
}

fn copy_u128s(v: &Vec<u128>) -> (r: Vec<u128>)
    ensures
        r@ == v@,
{
    let mut r: Vec<u128> = Vec::new();
    let mut i: usize = 0;
    while i < v.len()
        invariant
            i <= v.len(),
            r@ == v@.take(i as int),
        decreases v.len() - i,
    {
        r.push(v[i]);
        i += 1;
        assert(r@ =~= v@.take(i as int));
    }
    assert(v@.take(v.len() as int) =~= v@);
    r
}

/// The institutions as saved.
fn save_institutions(insts: &Vec<EntryInstitution>) -> (r: Vec<ParticipantInstitution>)
    ensures
        r@ == saved_institutions(insts@),
{
    let mut r: Vec<ParticipantInstitution> = Vec::new();
    let mut i: usize = 0;
    while i < insts.len()
        invariant
            i <= insts.len(),
            r@ == saved_institutions(insts@.take(i as int)),
        decreases insts.len() - i,
    {
        let severity = #[verifier::truncate] (insts[i].clash_severity as u16);
        r.push(ParticipantInstitution { uuid: insts[i].uuid, clash_severity: severity });
        i += 1;
        assert(r@ =~= saved_institutions(insts@.take(i as int)));
    }
    assert(insts@.take(insts.len() as int) =~= insts@);
    r
}

/// The stored key of a listed key, if it decodes.
fn store_key(text: &String) -> (r: Option<Vec<u8>>)
    requires
        key_long_enough(Some(text@)),
    ensures
        r matches Some(v) ==> stored_key(text@) == Some(v@),
        r is None ==> stored_key(text@) is None,
{
    match decode_url_safe_no_pad(text) {
        Some(bytes) => {
            let mut out: Vec<u8> = Vec::new();
            let mut i: usize = 16;
            while i < 48
                invariant
                    16 <= i <= 48,
                    bytes.len() >= 48,
                    out@ == bytes@.subrange(16, i as int),
                decreases 48 - i,
            {
                out.push(bytes[i]);
                i += 1;
                assert(out@ =~= bytes@.subrange(16, i as int));
            }
            Some(out)
        },
        None => None,
    }
}

/// The names of the teams to create for the entries, each once, in the order
/// of their first use.
pub open spec fn created_team_names(all: Seq<EntryView>) -> Seq<Seq<char>>
    decreases all.len(),
{
    if all.len() == 0 {
        Seq::empty()
    } else {
        let rest = created_team_names(all.drop_last());
        match all.last().team {
            Some(TeamInfoView::New(n)) => if rest.contains(n) {
                rest
            } else {
                rest.push(n)
            },
            _ => rest,
        }
    }
}

/// The names of the teams.
pub open spec fn team_names(teams: Seq<NewTeam>) -> Seq<Seq<char>> {
    teams.map_values(|t: NewTeam| t.name@)
}

/// The index of the first team with the name, -1 where none.
pub open spec fn team_name_index(names: Seq<Seq<char>>, n: Seq<char>) -> int
    decreases names.len(),
{
    if names.len() == 0 {
        -1
    } else {
        let rest = team_name_index(names.drop_last(), n);
        if rest >= 0 {
            rest
        } else if names.last() == n {
            names.len() - 1
        } else {
            -1
        }
    }
}

/// The team a listed speaker ends up in: the existing team, or the team
/// created under its name.
pub open spec fn team_id_for(t: TeamInfoView, teams: Seq<NewTeam>) -> u128 {
    match t {
        TeamInfoView::Existing(id) => id,
        TeamInfoView::New(n) => teams[team_name_index(team_names(teams), n)].uuid,
    }
}

/// Whether the saved role is that of the entry.
pub open spec fn role_saved(r: SavedRole, e: EntryView, teams: Seq<NewTeam>) -> bool {
    match e.team {
        Some(t) => r == SavedRole::Speaker { team_id: team_id_for(t, teams) },
        None => match e.adjudicator {
            Some((c, p, u)) => r matches SavedRole::Adjudicator { chair_skill, panel_skill, unavailable_rounds }
                && chair_skill == c && panel_skill == p && unavailable_rounds@ == u,
            None => false,
        },
    }
}

/// Whether the saved participant carries the entry's name, role, institutions,
/// anonymity and user in the tournament.
pub open spec fn participant_saved(p: SavedParticipant, e: EntryView, tournament_id: u128, teams: Seq<NewTeam>) -> bool {
    &&& p.name@ == e.name
    &&& role_saved(p.role, e, teams)
    &&& p.tournament_id == tournament_id
    &&& p.institutions@ == saved_institutions(e.institutions)
    &&& p.is_anonymous == e.is_anonymous
    &&& p.user_id == e.user_id
}

/// Whether the participant is saved as added: with the entry's id, or a
/// fresh one other than nil where that is nil, and a random key of 32 bytes.
pub open spec fn added_saved(p: SavedParticipant, e: EntryView, tournament_id: u128, teams: Seq<NewTeam>) -> bool {
    &&& participant_saved(p, e, tournament_id, teams)
    &&& if e.uuid != 0 {
        p.uuid == e.uuid
    } else {
        p.uuid != 0
    }
    &&& p.registration_key matches Some(k) && k@.len() == 32
}

/// Whether the participant is saved as updated: with the entry's id and the
/// stored form of its listed key.
pub open spec fn updated_saved(p: SavedParticipant, e: EntryView, tournament_id: u128, teams: Seq<NewTeam>) -> bool {
    &&& participant_saved(p, e, tournament_id, teams)
    &&& p.uuid == e.uuid
    &&& match e.registration_key {
        Some(text) => p.registration_key matches Some(k) && stored_key(text) == Some(k@),
        None => p.registration_key is None,
    }
}

/// The indices of the updated entries that are not deleted.
pub open spec fn kept_indices(updated: Seq<EntryView>, deleted: Seq<u128>, k: int) -> Seq<int>
    decreases k,
{
    if k <= 0 {
        Seq::empty()
    } else {
        kept_indices(updated, deleted, k - 1) + if deleted.contains(updated[k - 1].uuid) {
            Seq::<int>::empty()
        } else {
            seq![k - 1]
        }
    }
}

/// The updated entries that are not deleted.
pub open spec fn kept(updated: Seq<EntryView>, deleted: Seq<u128>) -> Seq<EntryView> {
    let ks = kept_indices(updated, deleted, updated.len() as int);
    Seq::new(ks.len(), |i: int| updated[ks[i]])
}

/// The clashes the entry declares: its outgoing clashes, each severity taken
/// modulo 2^16.
pub open spec fn outgoing_clashes(e: EntryView) -> Seq<(u128, u128, u16)>
    decreases e.clashes.len(),
{
    if e.clashes.len() == 0 {
        Seq::empty()
    } else {
        let rest = outgoing_clashes(EntryView { clashes: e.clashes.drop_last(), ..e });
        let c = e.clashes.last();
        if c.clash_direction == ClashDirection::Outgoing {
            rest.push((e.uuid, c.participant_uuid, c.clash_severity as u16))
        } else {
            rest
        }
    }
}

/// The clashes as declaring, target and severity triples.
pub open spec fn clash_triples(clashes: Seq<NewClash>) -> Seq<(u128, u128, u16)> {
    clashes.map_values(|c: NewClash| (c.declaring_participant_id, c.target_participant_id, c.clash_severity))
}

/// One more member for the existing team of a speaker entry.
pub open spec fn join_event(e: EntryView) -> Seq<(u128, int)> {
    match e.team {
        Some(TeamInfoView::Existing(t)) => seq![(t, 1int)],
        _ => Seq::empty(),
    }
}

/// One less member for a former team.
pub open spec fn leave_event(t: Option<u128>) -> Seq<(u128, int)> {
    match t {
        Some(t) => seq![(t, -1int)],
        None => Seq::empty(),
    }
}

/// The event lists one after another.
pub open spec fn joined_events(s: Seq<Seq<(u128, int)>>) -> Seq<(u128, int)>
    decreases s.len(),
{
    if s.len() == 0 {
        Seq::empty()
    } else {
        joined_events(s.drop_last()) + s.last()
    }
}

/// The net change of the team's member count over the events.
pub open spec fn event_sum(events: Seq<(u128, int)>, t: u128) -> int
    decreases events.len(),
{
    if events.len() == 0 {
        0
    } else {
        event_sum(events.drop_last(), t) + if events.last().0 == t {
            events.last().1
        } else {
            0
        }
    }
}

/// Whether some event concerns the team.
pub open spec fn touched(events: Seq<(u128, int)>, t: u128) -> bool {
    exists|i: int| 0 <= i < events.len() && (#[trigger] events[i]).0 == t
}

/// Whether the changes list each touched team once, with its net change.
pub open spec fn sums_events(changes: Seq<(u128, i64)>, events: Seq<(u128, int)>) -> bool {
    &&& forall|i: int, j: int| 0 <= i < j < changes.len() ==> (#[trigger] changes[i]).0 != (#[trigger] changes[j]).0
    &&& forall|i: int| 0 <= i < changes.len() ==> (#[trigger] changes[i]).1 == event_sum(events, changes[i].0)
    &&& forall|t: u128| touched(events, t) <==> exists|i: int| 0 <= i < changes.len() && (#[trigger] changes[i]).0 == t
}

proof fn lemma_team_name_index(names: Seq<Seq<char>>, n: Seq<char>)
    ensures
        -1 <= team_name_index(names, n) < names.len(),
        team_name_index(names, n) >= 0 ==> names[team_name_index(names, n)] == n,
        team_name_index(names, n) < 0 <==> !names.contains(n),
    decreases names.len(),
{
    if names.len() > 0 {
        lemma_team_name_index(names.drop_last(), n);
        if names.contains(n) && team_name_index(names, n) < 0 {
            let i = choose|i: int| 0 <= i < names.len() && names[i] == n;
            if i < names.len() - 1 {
                assert(names.drop_last()[i] == n);
            }
        }
        if team_name_index(names.drop_last(), n) >= 0 {
            assert(names[team_name_index(names.drop_last(), n)] == names.drop_last()[team_name_index(names.drop_last(), n)]);
        }
    }
}

proof fn lemma_team_name_index_push(names: Seq<Seq<char>>, m: Seq<char>, n: Seq<char>)
    requires
        names.contains(n),
    ensures
        team_name_index(names.push(m), n) == team_name_index(names, n),
{
    lemma_team_name_index(names, n);
    assert(names.push(m).drop_last() =~= names);
}

/// Whether each team name of the entries that names a team to create is
/// among the names.
pub open spec fn new_names_listed(entries: Seq<EntryView>, names: Seq<Seq<char>>) -> bool {
    forall|i: int| 0 <= i < entries.len() ==> ((#[trigger] entries[i]).team matches Some(TeamInfoView::New(n)) ==> names.contains(n))
}

proof fn lemma_team_id_stable(t: TeamInfoView, teams: Seq<NewTeam>, added: NewTeam)
    requires
        t matches TeamInfoView::New(n) ==> team_names(teams).contains(n),
    ensures
        team_id_for(t, teams.push(added)) == team_id_for(t, teams),
{
    match t {
        TeamInfoView::New(n) => {
            assert(team_names(teams.push(added)) =~= team_names(teams).push(added.name@));
            lemma_team_name_index_push(team_names(teams), added.name@, n);
            lemma_team_name_index(team_names(teams), n);
        },
        TeamInfoView::Existing(_) => {},
    }
}

/// The index of the created team with the name.
fn find_team(teams: &Vec<NewTeam>, name: &String) -> (r: Option<usize>)
    ensures
        r is Some <==> team_names(teams@).contains(name@),
        r matches Some(k) ==> k as int == team_name_index(team_names(teams@), name@),
{
    let ghost names = team_names(teams@);
    proof {
        lemma_team_name_index(names, name@);
    }
    let mut i: usize = 0;
    while i < teams.len()
        invariant
            i <= teams.len(),
            names == team_names(teams@),
            forall|k: int| 0 <= k < i ==> names[k] != name@,
        decreases teams.len() - i,
    {
        if teams[i].name == *name {
            proof {
                assert(names[i as int] == name@);
                lemma_team_name_index_first(names, name@, i as int);
            }
            return Some(i);
        }
        i += 1;
    }
    None
}

proof fn lemma_team_name_index_first(names: Seq<Seq<char>>, n: Seq<char>, i: int)
    requires
        0 <= i < names.len(),
        names[i] == n,
        forall|k: int| 0 <= k < i ==> names[k] != n,
    ensures
        team_name_index(names, n) == i,
    decreases names.len(),
{
    if i < names.len() - 1 {
        lemma_team_name_index_first(names.drop_last(), n, i);
    } else {
        lemma_team_name_index(names.drop_last(), n);
        if team_name_index(names.drop_last(), n) >= 0 {
            assert(names[team_name_index(names.drop_last(), n)] == n);
        }
    }
}

proof fn lemma_event_sum_bound(events: Seq<(u128, int)>, t: u128)
    requires
        forall|i: int| 0 <= i < events.len() ==> (#[trigger] events[i]).1 == 1 || events[i].1 == -1,
    ensures
        -(events.len() as int) <= event_sum(events, t) <= events.len(),
    decreases events.len(),
{
    if events.len() > 0 {
        let rest = events.drop_last();
        assert forall|i: int| 0 <= i < rest.len() implies (#[trigger] rest[i]).1 == 1 || rest[i].1 == -1 by {
            assert(rest[i] == events[i]);
        }
        lemma_event_sum_bound(rest, t);
        assert(events.last() == events[events.len() - 1]);
    }
}

/// The index of the team in the changes.
fn find_change(changes: &Vec<(u128, i64)>, t: u128) -> (r: Option<usize>)
    ensures
        r matches Some(i) ==> i < changes.len() && changes@[i as int].0 == t,
        r is None ==> forall|k: int| 0 <= k < changes.len() ==> (#[trigger] changes@[k]).0 != t,
{
    let mut i: usize = 0;
    while i < changes.len()
        invariant
            i <= changes.len(),
            forall|k: int| 0 <= k < i ==> (#[trigger] changes@[k]).0 != t,
        decreases changes.len() - i,
    {
        if changes[i].0 == t {
            return Some(i);
        }
        i += 1;
    }
    None
}

/// Records one more or one less member of the team.
fn record_event(changes: &mut Vec<(u128, i64)>, t: u128, delta: i64, Ghost(events): Ghost<Seq<(u128, int)>>)
    requires
        sums_events(old(changes)@, events),
        delta == 1 || delta == -1,
        forall|i: int| 0 <= i < events.len() ==> (#[trigger] events[i]).1 == 1 || events[i].1 == -1,
        events.len() + 1 < i64::MAX,
    ensures
        sums_events(final(changes)@, events.push((t, delta as int))),
{
    let ghost next = events.push((t, delta as int));
    proof {
        assert(next.drop_last() =~= events);
        assert forall|i: int| 0 <= i < next.len() implies (#[trigger] next[i]).1 == 1 || next[i].1 == -1 by {
            if i < events.len() {
                assert(next[i] == events[i]);
            }
        }
        lemma_event_sum_bound(next, t);
        assert forall|u: u128| touched(next, u) <==> touched(events, u) || u == t by {
            if touched(next, u) {
                let i = choose|i: int| 0 <= i < next.len() && (#[trigger] next[i]).0 == u;
                if i < events.len() {
                    assert(events[i] == next[i]);
                }
            }
            if touched(events, u) {
                let i = choose|i: int| 0 <= i < events.len() && (#[trigger] events[i]).0 == u;
                assert(next[i] == events[i]);
            }
            if u == t {
                assert(next[events.len() as int].0 == u);
            }
        }
    }
    match find_change(changes, t) {
        Some(i) => {
            let ghost before = changes@;
            let (_, d) = changes[i];
            proof {
                assert(d == event_sum(events, t));
            }
            changes.set(i, (t, d + delta));
            proof {
                assert forall|a: int, b: int| 0 <= a < b < changes@.len() implies (#[trigger] changes@[a]).0 != (#[trigger] changes@[b]).0 by {
                    assert(before[a].0 == changes@[a].0 && before[b].0 == changes@[b].0);
                }
                assert forall|a: int| 0 <= a < changes@.len() implies (#[trigger] changes@[a]).1 == event_sum(next, changes@[a].0) by {
                    if a != i {
                        assert(changes@[a] == before[a]);
                        assert(before[a].0 != t);
                    }
                }
                assert forall|u: u128| touched(next, u) <==> exists|a: int| 0 <= a < changes@.len() && (#[trigger] changes@[a]).0 == u by {
                    if exists|a: int| 0 <= a < before.len() && (#[trigger] before[a]).0 == u {
                        let a = choose|a: int| 0 <= a < before.len() && (#[trigger] before[a]).0 == u;
                        assert(changes@[a].0 == u);
                    }
                    if exists|a: int| 0 <= a < changes@.len() && (#[trigger] changes@[a]).0 == u {
                        let a = choose|a: int| 0 <= a < changes@.len() && (#[trigger] changes@[a]).0 == u;
                        assert(before[a].0 == u);
                    }
                }
            }
            return;
        },
        None => {},
    }
    let ghost before = changes@;
    proof {
        assert(!touched(events, t)) by {
            if touched(events, t) {
                let a = choose|a: int| 0 <= a < before.len() && (#[trigger] before[a]).0 == t;
                assert(false);
            }
        }
        lemma_untouched_sum(events, t);
    }
    changes.push((t, delta));
    proof {
        assert forall|a: int, b: int| 0 <= a < b < changes@.len() implies (#[trigger] changes@[a]).0 != (#[trigger] changes@[b]).0 by {
            if b == before.len() {
                assert(changes@[a] == before[a]);
            } else {
                assert(changes@[a] == before[a] && changes@[b] == before[b]);
            }
        }
        assert forall|a: int| 0 <= a < changes@.len() implies (#[trigger] changes@[a]).1 == event_sum(next, changes@[a].0) by {
            if a < before.len() {
                assert(changes@[a] == before[a]);
                assert(before[a].0 != t);
            }
        }
        assert forall|u: u128| touched(next, u) <==> exists|a: int| 0 <= a < changes@.len() && (#[trigger] changes@[a]).0 == u by {
            if exists|a: int| 0 <= a < before.len() && (#[trigger] before[a]).0 == u {
                let a = choose|a: int| 0 <= a < before.len() && (#[trigger] before[a]).0 == u;
                assert(changes@[a].0 == u);
            }
            if exists|a: int| 0 <= a < changes@.len() && (#[trigger] changes@[a]).0 == u {
                let a = choose|a: int| 0 <= a < changes@.len() && (#[trigger] changes@[a]).0 == u;
                if a < before.len() {
                    assert(before[a].0 == u);
                }
            }
            if u == t {
                assert(changes@[before.len() as int].0 == u);
            }
        }
    }
}

proof fn lemma_untouched_sum(events: Seq<(u128, int)>, t: u128)
    requires
        !touched(events, t),
    ensures
        event_sum(events, t) == 0,
    decreases events.len(),
{
    if events.len() > 0 {
        let rest = events.drop_last();
        assert(!touched(rest, t)) by {
            if touched(rest, t) {
                let i = choose|i: int| 0 <= i < rest.len() && (#[trigger] rest[i]).0 == t;
                assert(events[i] == rest[i]);
            }
        }
        lemma_untouched_sum(rest, t);
        assert(events[events.len() - 1].0 != t);
    }
}

/// Whether every team is in the tournament.
pub open spec fn teams_in(teams: Seq<NewTeam>, tournament_id: u128) -> bool {
    forall|i: int| 0 <= i < teams.len() ==> (#[trigger] teams[i]).tournament_id == tournament_id
}

/// The team names after the entry: its new team's name appended unless listed.
pub open spec fn names_after(names: Seq<Seq<char>>, e: EntryView) -> Seq<Seq<char>> {
    match e.team {
        Some(TeamInfoView::New(n)) => if names.contains(n) {
            names
        } else {
            names.push(n)
        },
        _ => names,
    }
}

/// The saved role of the entry: a speaker of its existing team or of the team
/// created under its new team's name (created here if it is not yet), or an
/// adjudicator with its skills; an existing team gains a member.
fn resolve_role(
    tournament_id: u128,
    e: &ParticipantEntry,
    teams: &mut Vec<NewTeam>,
    changes: &mut Vec<(u128, i64)>,
    Ghost(events): Ghost<Seq<(u128, int)>>,
) -> (r: SavedRole)
    requires
        sums_events(old(changes)@, events),
        forall|i: int| 0 <= i < events.len() ==> (#[trigger] events[i]).1 == 1 || events[i].1 == -1,
        events.len() + 1 < i64::MAX,
        teams_in(old(teams)@, tournament_id),
    ensures
        sums_events(final(changes)@, events + join_event(e@)),
        team_names(final(teams)@) == names_after(team_names(old(teams)@), e@),
        teams_in(final(teams)@, tournament_id),
        final(teams)@.len() >= old(teams)@.len(),
        forall|i: int| 0 <= i < old(teams)@.len() ==> final(teams)@[i] == old(teams)@[i],
        final(teams)@.len() > old(teams)@.len() ==> final(teams)@.len() == old(teams)@.len() + 1 && !team_names(
            old(teams)@,
        ).contains(final(teams)@[old(teams)@.len() as int].name@),
        role_saved(r, e@, final(teams)@),
        e@.team matches Some(TeamInfoView::New(n)) ==> team_names(final(teams)@).contains(n),
{
    match &e.role {
        EntryRole::Speaker { team_info } => match team_info {
            ParticipantTeamInfo::Existing { team_id } => {
                record_event(changes, *team_id, 1, Ghost(events));
                assert(events + join_event(e@) =~= events.push((*team_id, 1int)));
                SavedRole::Speaker { team_id: *team_id }
            },
            ParticipantTeamInfo::New { new_team_name } => {
                assert(events + join_event(e@) =~= events);
                let ghost old_names = team_names(teams@);
                let team_id = match find_team(teams, new_team_name) {
                    Some(k) => {
                        proof {
                            lemma_team_name_index(old_names, new_team_name@);
                        }
                        teams[k].uuid
                    },
                    None => {
                        let ghost before = teams@;
                        let uuid = new_random_id();
                        teams.push(NewTeam { uuid, name: new_team_name.clone(), tournament_id });
                        proof {
                            assert(team_names(teams@) =~= old_names.push(new_team_name@));
                            lemma_team_name_index(old_names, new_team_name@);
                            lemma_team_name_index_first(team_names(teams@), new_team_name@, before.len() as int);
                            assert forall|i: int| 0 <= i < before.len() implies team_names(teams@)[i] != new_team_name@ by {
                                assert(team_names(teams@)[i] == old_names[i]);
                                assert(old_names.contains(old_names[i]));
                            }
                        }
                        uuid
                    },
                };
                proof {
                    lemma_team_name_index(team_names(teams@), new_team_name@);
                }
                SavedRole::Speaker { team_id }
            },
        },
        EntryRole::Adjudicator { chair_skill, panel_skill, unavailable_rounds } => {
            assert(events + join_event(e@) =~= events);
            SavedRole::Adjudicator {
                chair_skill: *chair_skill,
                panel_skill: *panel_skill,
                unavailable_rounds: copy_u128s(unavailable_rounds),
            }
        },
    }
}

proof fn lemma_saved_stable(p: SavedParticipant, e: EntryView, tournament_id: u128, teams: Seq<NewTeam>, added: NewTeam)
    requires
        participant_saved(p, e, tournament_id, teams),
        e.team matches Some(TeamInfoView::New(n)) ==> team_names(teams).contains(n),
    ensures
        participant_saved(p, e, tournament_id, teams.push(added)),
{
    match e.team {
        Some(t) => {
            lemma_team_id_stable(t, teams, added);
        },
        None => {},
    }
}

/// The member count changes of the added entries.
pub open spec fn added_events(av: Seq<EntryView>) -> Seq<(u128, int)> {
    joined_events(Seq::new(av.len(), |i: int| join_event(av[i])))
}

proof fn lemma_joined_events_step(f: Seq<Seq<(u128, int)>>, i: int)
    requires
        0 <= i < f.len(),
    ensures
        joined_events(f.take(i + 1)) == joined_events(f.take(i)) + f[i],
{
    assert(f.take(i + 1).drop_last() =~= f.take(i));
}

/// Saves the added entries.
fn save_added(
    tournament_id: u128,
    added: &Vec<ParticipantEntry>,
    teams: &mut Vec<NewTeam>,
    changes: &mut Vec<(u128, i64)>,
    participants: &mut Vec<SavedParticipant>,
)
    requires
        old(teams)@.len() == 0,
        old(changes)@.len() == 0,
        old(participants)@.len() == 0,
        added.len() + 2 < i64::MAX,
    ensures
        team_names(final(teams)@) == created_team_names(entries_view(added@)),
        teams_in(final(teams)@, tournament_id),
        new_names_listed(entries_view(added@), team_names(final(teams)@)),
        sums_events(final(changes)@, added_events(entries_view(added@))),
        forall|k: int| 0 <= k < added_events(entries_view(added@)).len() ==> (#[trigger] added_events(entries_view(added@))[k]).1
            == 1 || added_events(entries_view(added@))[k].1 == -1,
        added_events(entries_view(added@)).len() <= added.len(),
        final(participants)@.len() == added.len(),
        forall|k: int| 0 <= k < added.len() ==> added_saved(
            #[trigger] final(participants)@[k],
            entries_view(added@)[k],
            tournament_id,
            final(teams)@,
        ),
{
    let ghost av = entries_view(added@);
    let ghost f = Seq::new(av.len(), |i: int| join_event(av[i]));
    let mut i: usize = 0;
    proof {
        assert(av.take(0) =~= Seq::<EntryView>::empty());
        assert(f.take(0) =~= Seq::<Seq<(u128, int)>>::empty());
        assert(team_names(teams@) =~= Seq::<Seq<char>>::empty());
    }
    while i < added.len()
        invariant
            i <= added.len(),
            added.len() + 2 < i64::MAX,
            av == entries_view(added@),
            f == Seq::new(av.len(), |i: int| join_event(av[i])),
            team_names(teams@) == created_team_names(av.take(i as int)),
            teams_in(teams@, tournament_id),
            new_names_listed(av.take(i as int), team_names(teams@)),
            sums_events(changes@, joined_events(f.take(i as int))),
            forall|k: int| 0 <= k < joined_events(f.take(i as int)).len() ==> (#[trigger] joined_events(f.take(i as int))[k]).1
                == 1 || joined_events(f.take(i as int))[k].1 == -1,
            joined_events(f.take(i as int)).len() <= i,
            participants@.len() == i,
            forall|k: int| 0 <= k < i ==> added_saved(#[trigger] participants@[k], av[k], tournament_id, teams@),
        decreases added.len() - i,
    {
        let e = &added[i];
        let ghost events = joined_events(f.take(i as int));
        let ghost before_teams = teams@;
        let ghost before_names = team_names(teams@);
        assert(av[i as int] == e@);
        let role = resolve_role(tournament_id, e, teams, changes, Ghost(events));
        proof {
            lemma_joined_events_step(f, i as int);
            assert(av.take(i + 1).drop_last() =~= av.take(i as int));
            assert(av.take(i + 1).last() == e@);
            assert forall|k: int| 0 <= k < i implies added_saved(#[trigger] participants@[k], av[k], tournament_id, teams@) by {
                assert(added_saved(participants@[k], av[k], tournament_id, before_teams));
                if teams@.len() > before_teams.len() {
                    assert(teams@ =~= before_teams.push(teams@[before_teams.len() as int]));
                    assert(av.take(i as int)[k] == av[k]);
                    assert((av.take(i as int)[k]).team matches Some(TeamInfoView::New(n)) ==> before_names.contains(n));
                    lemma_saved_stable(participants@[k], av[k], tournament_id, before_teams, teams@[before_teams.len() as int]);
                } else {
                    assert(teams@ =~= before_teams);
                }
            }
            assert forall|k: int| 0 <= k < av.take(i + 1).len() implies ((#[trigger] av.take(i + 1)[k]).team matches Some(
                TeamInfoView::New(n),
            ) ==> team_names(teams@).contains(n)) by {
                if k < i {
                    assert(av.take(i + 1)[k] == av.take(i as int)[k]);
                    if let Some(TeamInfoView::New(n)) = av.take(i as int)[k].team {
                        assert(before_names.contains(n));
                        let w = choose|w: int| 0 <= w < before_names.len() && before_names[w] == n;
                        assert(team_names(teams@)[w] == before_teams[w].name@);
                    }
                }
            }
            let g = joined_events(f.take(i + 1));
            assert forall|k: int| 0 <= k < g.len() implies (#[trigger] g[k]).1 == 1 || g[k].1 == -1 by {
                if k < events.len() {
                    assert(g[k] == events[k]);
                }
            }
        }
        let uuid = if e.uuid == 0 {
            let id = new_random_id();
            proof {
                lemma_random_id_not_nil(id);
            }
            id
        } else {
            e.uuid
        };
        let p = SavedParticipant {
            uuid,
            name: e.name.clone(),
            role,
            tournament_id,
            institutions: save_institutions(&e.institutions),
            registration_key: Some(random_key()),
            is_anonymous: e.is_anonymous,
            user_id: e.user_id,
        };
        participants.push(p);
        i += 1;
    }
    assert(av.take(added.len() as int) =~= av);
    assert(f.take(added.len() as int) =~= f);
}

/// The lists one after another.
pub open spec fn joined<A>(s: Seq<Seq<A>>) -> Seq<A>
    decreases s.len(),
{
    if s.len() == 0 {
        Seq::empty()
    } else {
        joined(s.drop_last()) + s.last()
    }
}

/// The ids of the clashes.
pub open spec fn clash_ids(clashes: Seq<NewClash>) -> Seq<u128> {
    clashes.map_values(|c: NewClash| c.uuid)
}

/// The saved clashes that an updated participant drops: all that are not
/// among the clashes made for it.
pub open spec fn dropped_clashes(existing: Seq<u128>, fresh: Seq<NewClash>) -> Seq<u128>
    decreases existing.len(),
{
    if existing.len() == 0 {
        Seq::empty()
    } else {
        let rest = dropped_clashes(existing.drop_last(), fresh);
        if clash_ids(fresh).contains(existing.last()) {
            rest
        } else {
            rest.push(existing.last())
        }
    }
}

/// Where the clashes made for the `i`-th kept entry start among all made.
pub open spec fn clash_offset(kv: Seq<EntryView>, i: int) -> int
    decreases i,
{
    if i <= 0 {
        0
    } else {
        clash_offset(kv, i - 1) + outgoing_clashes(kv[i - 1]).len()
    }
}

/// Whether the listed key, if any, fails to decode.
pub open spec fn bad_key(e: EntryView) -> bool {
    e.registration_key matches Some(t) && url_safe_no_pad_decoded(t) is None
}

/// The member count changes of the kept entries.
pub open spec fn kept_events(kv: Seq<EntryView>, old_teams: Seq<Option<u128>>) -> Seq<(u128, int)> {
    joined_events(Seq::new(kv.len(), |i: int| leave_event(old_teams[i]) + join_event(kv[i])))
}

/// The saved clashes the kept entries drop, entry by entry.
pub open spec fn dropped_all(kv: Seq<EntryView>, existing_of: Seq<Seq<u128>>, clashes: Seq<NewClash>) -> Seq<u128> {
    joined(
        Seq::new(
            kv.len(),
            |i: int| dropped_clashes(existing_of[i], clashes.subrange(clash_offset(kv, i), clash_offset(kv, i + 1))),
        ),
    )
}

/// The values of the list at the indices.
pub open spec fn pick<A>(s: Seq<A>, ks: Seq<int>) -> Seq<A> {
    Seq::new(ks.len(), |i: int| s[ks[i]])
}

proof fn lemma_kept_indices_range(uv: Seq<EntryView>, deleted: Seq<u128>, j: int)
    requires
        0 <= j <= uv.len(),
    ensures
        forall|i: int| 0 <= i < kept_indices(uv, deleted, j).len() ==> 0 <= #[trigger] kept_indices(uv, deleted, j)[i] < j,
        kept_indices(uv, deleted, j).len() <= j,
    decreases j,
{
    if j > 0 {
        lemma_kept_indices_range(uv, deleted, j - 1);
        let a = kept_indices(uv, deleted, j);
        let b = kept_indices(uv, deleted, j - 1);
        assert forall|i: int| 0 <= i < a.len() implies 0 <= #[trigger] a[i] < j by {
            if i < b.len() {
                assert(a[i] == b[i]);
            }
        }
    }
}

proof fn lemma_clash_offset_prefix(kv: Seq<EntryView>, e: EntryView, i: int)
    requires
        0 <= i <= kv.len(),
    ensures
        clash_offset(kv.push(e), i) == clash_offset(kv, i),
    decreases i,
{
    if i > 0 {
        lemma_clash_offset_prefix(kv, e, i - 1);
        assert(kv.push(e)[i - 1] == kv[i - 1]);
    }
}

proof fn lemma_clash_offset_mono(kv: Seq<EntryView>, i: int, j: int)
    requires
        0 <= i <= j,
    ensures
        clash_offset(kv, i) <= clash_offset(kv, j),
    decreases j,
{
    if i < j {
        lemma_clash_offset_mono(kv, i, j - 1);
    }
}

/// The clashes the entry declares, each with a fresh id.
fn make_clashes(e: &ParticipantEntry) -> (fresh: Vec<NewClash>)
    ensures
        clash_triples(fresh@) == outgoing_clashes(e@),
{
    let ghost ev = e@;
    let mut fresh: Vec<NewClash> = Vec::new();
    let mut k: usize = 0;
    while k < e.clashes.len()
        invariant
            k <= e.clashes.len(),
            ev == e@,
            clash_triples(fresh@) == outgoing_clashes(EntryView { clashes: ev.clashes.take(k as int), ..ev }),
        decreases e.clashes.len() - k,
    {
        let c = e.clashes[k];
        let ghost cur = EntryView { clashes: ev.clashes.take(k + 1), ..ev };
        assert(cur.clashes.drop_last() =~= ev.clashes.take(k as int));
        assert(cur.clashes.last() == c);
        if c.clash_direction == ClashDirection::Outgoing {
            let severity = #[verifier::truncate] (c.clash_severity as u16);
            let ghost before = fresh@;
            fresh.push(
                NewClash {
                    uuid: new_random_id(),
                    declaring_participant_id: e.uuid,
                    target_participant_id: c.participant_uuid,
                    clash_severity: severity,
                },
            );
            assert(clash_triples(fresh@) =~= clash_triples(before).push((e.uuid, c.participant_uuid, severity)));
        }
        k += 1;
    }
    assert(ev.clashes.take(e.clashes.len() as int) =~= ev.clashes);
    fresh
}

/// The saved clashes that are not among the fresh ones.
fn drop_clashes(existing: &Vec<u128>, fresh: &Vec<NewClash>) -> (r: Vec<u128>)
    ensures
        r@ == dropped_clashes(existing@, fresh@),
{
    let mut ids: Vec<u128> = Vec::new();
    let mut k: usize = 0;
    while k < fresh.len()
        invariant
            k <= fresh.len(),
            ids@ == clash_ids(fresh@).take(k as int),
        decreases fresh.len() - k,
    {
        ids.push(fresh[k].uuid);
        k += 1;
        assert(ids@ =~= clash_ids(fresh@).take(k as int));
    }
    assert(clash_ids(fresh@).take(fresh.len() as int) =~= clash_ids(fresh@));
    let mut r: Vec<u128> = Vec::new();
    let mut i: usize = 0;
    while i < existing.len()
        invariant
            i <= existing.len(),
            ids@ == clash_ids(fresh@),
            r@ == dropped_clashes(existing@.take(i as int), fresh@),
        decreases existing.len() - i,
    {
        assert(existing@.take(i + 1).drop_last() =~= existing@.take(i as int));
        if !list_contains(&ids, existing[i]) {
            r.push(existing[i]);
        }
        i += 1;
    }
    assert(existing@.take(existing.len() as int) =~= existing@);
    r
}

/// The id lists as mathematical values.
pub open spec fn id_lists(v: Seq<Vec<u128>>) -> Seq<Seq<u128>> {
    v.map_values(|x: Vec<u128>| x@)
}

/// Whether the state holds what saving the added entries and the first kept
/// ones gives.
pub open spec fn saved_so_far(
    tournament_id: u128,
    av: Seq<EntryView>,
    kv: Seq<EntryView>,
    old_teams: Seq<Option<u128>>,
    existing_of: Seq<Seq<u128>>,
    base: Seq<(u128, int)>,
    teams: Seq<NewTeam>,
    changes: Seq<(u128, i64)>,
    participants: Seq<SavedParticipant>,
    clashes: Seq<NewClash>,
    deleted_clashes: Seq<u128>,
) -> bool {
    let events = base + kept_events(kv, old_teams);
    &&& team_names(teams) == created_team_names(av + kv)
    &&& teams_in(teams, tournament_id)
    &&& new_names_listed(av + kv, team_names(teams))
    &&& sums_events(changes, events)
    &&& forall|k: int| 0 <= k < events.len() ==> (#[trigger] events[k]).1 == 1 || events[k].1 == -1
    &&& events.len() <= av.len() + 2 * kv.len()
    &&& participants.len() == av.len() + kv.len()
    &&& forall|k: int| 0 <= k < av.len() ==> added_saved(#[trigger] participants[k], av[k], tournament_id, teams)
    &&& forall|k: int| 0 <= k < kv.len() ==> updated_saved(#[trigger] participants[av.len() + k], kv[k], tournament_id, teams)
    &&& clash_triples(clashes) == joined(Seq::new(kv.len(), |i: int| outgoing_clashes(kv[i])))
    &&& clashes.len() == clash_offset(kv, kv.len() as int)
    &&& deleted_clashes == dropped_all(kv, existing_of, clashes)
    &&& forall|k: int| 0 <= k < kv.len() ==> !bad_key(#[trigger] kv[k])
}

proof fn lemma_joined_push<A>(s: Seq<Seq<A>>, x: Seq<A>)
    ensures
        joined(s.push(x)) == joined(s) + x,
{
    assert(s.push(x).drop_last() =~= s);
}

proof fn lemma_outgoing_len(kv: Seq<EntryView>, n: int)
    requires
        0 <= n <= kv.len(),
    ensures
        joined(Seq::new(n as nat, |i: int| outgoing_clashes(kv[i]))).len() == clash_offset(kv, n),
    decreases n,
{
    if n > 0 {
        lemma_outgoing_len(kv, n - 1);
        assert(Seq::new(n as nat, |i: int| outgoing_clashes(kv[i])).drop_last() =~= Seq::new(
            (n - 1) as nat,
            |i: int| outgoing_clashes(kv[i]),
        ));
    }
}

proof fn lemma_saved_step(
    tournament_id: u128,
    av: Seq<EntryView>,
    kv: Seq<EntryView>,
    e: EntryView,
    teams_before: Seq<NewTeam>,
    teams: Seq<NewTeam>,
    participants: Seq<SavedParticipant>,
)
    requires
        forall|k: int| 0 <= k < av.len() ==> added_saved(#[trigger] participants[k], av[k], tournament_id, teams_before),
        forall|k: int| 0 <= k < kv.len() ==> updated_saved(#[trigger] participants[av.len() + k], kv[k], tournament_id, teams_before),
        new_names_listed(av + kv, team_names(teams_before)),
        teams.len() >= teams_before.len(),
        forall|i: int| 0 <= i < teams_before.len() ==> teams[i] == teams_before[i],
        teams.len() > teams_before.len() ==> teams.len() == teams_before.len() + 1 && !team_names(teams_before).contains(
            teams[teams_before.len() as int].name@,
        ),
        participants.len() >= av.len() + kv.len(),
    ensures
        forall|k: int| 0 <= k < av.len() ==> added_saved(#[trigger] participants[k], av[k], tournament_id, teams),
        forall|k: int| 0 <= k < kv.len() ==> updated_saved(#[trigger] participants[av.len() + k], kv[k], tournament_id, teams),
{
    if teams.len() > teams_before.len() {
        let t = teams[teams_before.len() as int];
        assert(teams =~= teams_before.push(t));
        let all = av + kv;
        assert forall|k: int| 0 <= k < av.len() implies added_saved(#[trigger] participants[k], av[k], tournament_id, teams) by {
            assert(all[k] == av[k]);
            assert(all[k].team matches Some(TeamInfoView::New(n)) ==> team_names(teams_before).contains(n));
            lemma_saved_stable(participants[k], av[k], tournament_id, teams_before, t);
        }
        assert forall|k: int| 0 <= k < kv.len() implies updated_saved(#[trigger] participants[av.len() + k], kv[k], tournament_id, teams) by {
            assert(all[av.len() + k] == kv[k]);
            assert(all[av.len() + k].team matches Some(TeamInfoView::New(n)) ==> team_names(teams_before).contains(n));
            lemma_saved_stable(participants[av.len() + k], kv[k], tournament_id, teams_before, t);
        }
    } else {
        assert(teams =~= teams_before);
    }
}

/// Saves one kept updated entry after the others: replaces the clashes it
/// declares, moves it out of its former team and into its team, and stores
/// its listed key; refused where the key does not decode.
fn save_one_updated(
    tournament_id: u128,
    e: &ParticipantEntry,
    existing: &Vec<u128>,
    old_team: Option<u128>,
    teams: &mut Vec<NewTeam>,
    changes: &mut Vec<(u128, i64)>,
    participants: &mut Vec<SavedParticipant>,
    clashes: &mut Vec<NewClash>,
    deleted_clashes: &mut Vec<u128>,
    Ghost(av): Ghost<Seq<EntryView>>,
    Ghost(kv): Ghost<Seq<EntryView>>,
    Ghost(ot): Ghost<Seq<Option<u128>>>,
    Ghost(ex): Ghost<Seq<Seq<u128>>>,
    Ghost(base): Ghost<Seq<(u128, int)>>,
) -> (r: Result<(), UpdateParticipantsError>)
    requires
        key_long_enough(e@.registration_key),
        av.len() + 2 * kv.len() + 4 < i64::MAX,
        kv.len() == ot.len(),
        kv.len() == ex.len(),
        saved_so_far(
            tournament_id,
            av,
            kv,
            ot,
            ex,
            base,
            old(teams)@,
            old(changes)@,
            old(participants)@,
            old(clashes)@,
            old(deleted_clashes)@,
        ),
    ensures
        r is Err <==> bad_key(e@),
        r matches Err(err) ==> err == (UpdateParticipantsError::InvalidRegistrationKey { participant: e.uuid }),
        r is Ok ==> saved_so_far(
            tournament_id,
            av,
            kv.push(e@),
            ot.push(old_team),
            ex.push(existing@),
            base,
            final(teams)@,
            final(changes)@,
            final(participants)@,
            final(clashes)@,
            final(deleted_clashes)@,
        ),
{
    let ghost kv2 = kv.push(e@);
    let ghost ot2 = ot.push(old_team);
    let ghost ex2 = ex.push(existing@);
    let ghost events = base + kept_events(kv, ot);
    let fresh = make_clashes(e);
    let dropped = drop_clashes(existing, &fresh);
    let ghost clashes_before = clashes@;
    let ghost deleted_before = deleted_clashes@;
    let mut k: usize = 0;
    while k < dropped.len()
        invariant
            k <= dropped.len(),
            deleted_clashes@ == deleted_before + dropped@.take(k as int),
        decreases dropped.len() - k,
    {
        deleted_clashes.push(dropped[k]);
        k += 1;
        assert(deleted_clashes@ =~= deleted_before + dropped@.take(k as int));
    }
    assert(dropped@.take(dropped.len() as int) =~= dropped@);
    let mut k: usize = 0;
    while k < fresh.len()
        invariant
            k <= fresh.len(),
            clashes@ == clashes_before + fresh@.take(k as int),
        decreases fresh.len() - k,
    {
        clashes.push(fresh[k]);
        k += 1;
        assert(clashes@ =~= clashes_before + fresh@.take(k as int));
    }
    assert(fresh@.take(fresh.len() as int) =~= fresh@);
    proof {
        lemma_clash_step(kv, ex, e@, existing@, clashes_before, fresh@, deleted_before, dropped@);
    }
    let ghost events1 = match old_team {
        Some(t0) => events.push((t0, -1int)),
        None => events,
    };
    match old_team {
        Some(t0) => {
            record_event(changes, t0, -1, Ghost(events));
        },
        None => {},
    }
    assert(events1 =~= events + leave_event(old_team));
    proof {
        assert forall|q: int| 0 <= q < events1.len() implies (#[trigger] events1[q]).1 == 1 || events1[q].1 == -1 by {
            if q < events.len() {
                assert(events1[q] == events[q]);
            }
        }
    }
    let ghost teams_before = teams@;
    let ghost names_before = team_names(teams@);
    let role = resolve_role(tournament_id, e, teams, changes, Ghost(events1));
    proof {
        let f = Seq::new(kv.len(), |i: int| leave_event(ot[i]) + join_event(kv[i]));
        let f2 = Seq::new(kv2.len(), |i: int| leave_event(ot2[i]) + join_event(kv2[i]));
        assert(f2.drop_last() =~= f);
        assert(f2.last() == leave_event(old_team) + join_event(e@));
        assert(base + kept_events(kv2, ot2) =~= events1 + join_event(e@));
        let events2 = base + kept_events(kv2, ot2);
        assert forall|q: int| 0 <= q < events2.len() implies (#[trigger] events2[q]).1 == 1 || events2[q].1 == -1 by {
            if q < events1.len() {
                assert(events2[q] == events1[q]);
            }
        }
        assert((av + kv2).drop_last() =~= av + kv);
        assert((av + kv2).last() == e@);
        lemma_saved_step(tournament_id, av, kv, e@, teams_before, teams@, participants@);
        assert forall|q: int| 0 <= q < (av + kv2).len() implies ((#[trigger] (av + kv2)[q]).team matches Some(
            TeamInfoView::New(nm),
        ) ==> team_names(teams@).contains(nm)) by {
            if q < (av + kv).len() {
                assert((av + kv2)[q] == (av + kv)[q]);
                if let Some(TeamInfoView::New(nm)) = (av + kv)[q].team {
                    assert(names_before.contains(nm));
                    let w = choose|w: int| 0 <= w < names_before.len() && names_before[w] == nm;
                    assert(team_names(teams@)[w] == teams_before[w].name@);
                }
            }
        }
    }
    let registration_key = match &e.registration_key {
        Some(text) => match store_key(text) {
            Some(key) => Some(key),
            None => {
                return Err(UpdateParticipantsError::InvalidRegistrationKey { participant: e.uuid });
            },
        },
        None => None,
    };
    let p = SavedParticipant {
        uuid: e.uuid,
        name: e.name.clone(),
        role,
        tournament_id,
        institutions: save_institutions(&e.institutions),
        registration_key,
        is_anonymous: e.is_anonymous,
        user_id: e.user_id,
    };
    let ghost pv = p;
    participants.push(p);
    proof {
        assert(participants@[(av.len() + kv.len()) as int] == pv);
        assert forall|q: int| 0 <= q < kv2.len() implies !bad_key(#[trigger] kv2[q]) by {
            if q < kv.len() {
                assert(kv2[q] == kv[q]);
            }
        }
        assert forall|q: int| 0 <= q < kv2.len() implies updated_saved(
            #[trigger] participants@[av.len() + q],
            kv2[q],
            tournament_id,
            teams@,
        ) by {
            if q < kv.len() {
                assert(kv2[q] == kv[q]);
            }
        }
    }
    Ok(())
}

proof fn lemma_clash_step(
    kv: Seq<EntryView>,
    ex: Seq<Seq<u128>>,
    e: EntryView,
    existing: Seq<u128>,
    clashes_before: Seq<NewClash>,
    fresh: Seq<NewClash>,
    deleted_before: Seq<u128>,
    dropped: Seq<u128>,
)
    requires
        kv.len() == ex.len(),
        clash_triples(clashes_before) == joined(Seq::new(kv.len(), |i: int| outgoing_clashes(kv[i]))),
        clashes_before.len() == clash_offset(kv, kv.len() as int),
        deleted_before == dropped_all(kv, ex, clashes_before),
        clash_triples(fresh) == outgoing_clashes(e),
        dropped == dropped_clashes(existing, fresh),
    ensures
        clash_triples(clashes_before + fresh) == joined(
            Seq::new(kv.push(e).len(), |i: int| outgoing_clashes(kv.push(e)[i])),
        ),
        (clashes_before + fresh).len() == clash_offset(kv.push(e), kv.push(e).len() as int),
        deleted_before + dropped == dropped_all(kv.push(e), ex.push(existing), clashes_before + fresh),
{
    let n = kv.len() as int;
    let kv2 = kv.push(e);
    let ex2 = ex.push(existing);
    let all = clashes_before + fresh;
    lemma_joined_push(Seq::new(kv.len(), |i: int| outgoing_clashes(kv[i])), outgoing_clashes(e));
    assert(Seq::new(kv2.len(), |i: int| outgoing_clashes(kv2[i])) =~= Seq::new(kv.len(), |i: int| outgoing_clashes(kv[i])).push(
        outgoing_clashes(e),
    ));
    assert(clash_triples(all) =~= clash_triples(clashes_before) + clash_triples(fresh));
    lemma_clash_offset_prefix(kv, e, n);
    assert(kv2[n] == e);
    assert(clash_offset(kv2, n + 1) == clash_offset(kv2, n) + outgoing_clashes(e).len());
    assert(fresh.len() == clash_triples(fresh).len());
    let g = |i: int| dropped_clashes(ex[i], clashes_before.subrange(clash_offset(kv, i), clash_offset(kv, i + 1)));
    let g2 = |i: int| dropped_clashes(ex2[i], all.subrange(clash_offset(kv2, i), clash_offset(kv2, i + 1)));
    assert forall|i: int| 0 <= i < n implies #[trigger] g2(i) == g(i) by {
        lemma_clash_offset_prefix(kv, e, i);
        lemma_clash_offset_prefix(kv, e, i + 1);
        lemma_clash_offset_mono(kv, i + 1, n);
        lemma_clash_offset_mono(kv, i, i + 1);
        lemma_clash_offset_mono(kv, 0, i);
        assert(all.subrange(clash_offset(kv2, i), clash_offset(kv2, i + 1)) =~= clashes_before.subrange(
            clash_offset(kv, i),
            clash_offset(kv, i + 1),
        ));
        assert(ex2[i] == ex[i]);
    }
    assert(all.subrange(clash_offset(kv2, n), clash_offset(kv2, n + 1)) =~= fresh);
    assert(Seq::new(kv2.len(), g2) =~= Seq::new(kv.len(), g).push(dropped));
    lemma_joined_push(Seq::new(kv.len(), g), dropped);
}

/// Saves the updated entries that are not deleted, after the added ones:
/// replaces the clashes each declares, moves it out of its former team and
/// into its team, and stores its listed key; refused at the first kept entry
/// whose key does not decode.
fn save_updated(
    tournament_id: u128,
    updated: &Vec<ParticipantEntry>,
    deleted: &Vec<u128>,
    existing_clashes: &Vec<Vec<u128>>,
    old_teams: &Vec<Option<u128>>,
    teams: &mut Vec<NewTeam>,
    changes: &mut Vec<(u128, i64)>,
    participants: &mut Vec<SavedParticipant>,
    clashes: &mut Vec<NewClash>,
    deleted_clashes: &mut Vec<u128>,
    Ghost(av): Ghost<Seq<EntryView>>,
    Ghost(base): Ghost<Seq<(u128, int)>>,
) -> (r: Result<(), UpdateParticipantsError>)
    requires
        existing_clashes.len() == updated.len(),
        old_teams.len() == updated.len(),
        forall|k: int|
            0 <= k < updated.len() && !deleted@.contains(entries_view(updated@)[k].uuid) ==> key_long_enough(
                #[trigger] entries_view(updated@)[k].registration_key,
            ),
        av.len() + 2 * updated.len() + 2 < i64::MAX,
        base.len() <= av.len(),
        old(clashes)@.len() == 0,
        old(deleted_clashes)@.len() == 0,
        saved_so_far(
            tournament_id,
            av,
            Seq::empty(),
            Seq::empty(),
            Seq::empty(),
            base,
            old(teams)@,
            old(changes)@,
            old(participants)@,
            old(clashes)@,
            old(deleted_clashes)@,
        ),
    ensures
        ({
            let uv = entries_view(updated@);
            let ks = kept_indices(uv, deleted@, uv.len() as int);
            let kv = pick(uv, ks);
            &&& r is Ok <==> forall|k: int| 0 <= k < kv.len() ==> !bad_key(#[trigger] kv[k])
            &&& r matches Err(err) ==> exists|k: int|
                0 <= k < kv.len() && bad_key(#[trigger] kv[k]) && err == (UpdateParticipantsError::InvalidRegistrationKey {
                    participant: kv[k].uuid,
                }) && forall|m: int| 0 <= m < k ==> !bad_key(#[trigger] kv[m])
            &&& r is Ok ==> saved_so_far(
                tournament_id,
                av,
                kv,
                pick(old_teams@, ks),
                pick(id_lists(existing_clashes@), ks),
                base,
                final(teams)@,
                final(changes)@,
                final(participants)@,
                final(clashes)@,
                final(deleted_clashes)@,
            )
        }),
{
    let ghost uv = entries_view(updated@);
    let ghost exl = id_lists(existing_clashes@);
    let mut j: usize = 0;
    proof {
        assert(pick(uv, kept_indices(uv, deleted@, 0)) =~= Seq::<EntryView>::empty());
        assert(pick(old_teams@, kept_indices(uv, deleted@, 0)) =~= Seq::<Option<u128>>::empty());
        assert(pick(exl, kept_indices(uv, deleted@, 0)) =~= Seq::<Seq<u128>>::empty());
    }
    while j < updated.len()
        invariant
            j <= updated.len(),
            uv == entries_view(updated@),
            exl == id_lists(existing_clashes@),
            existing_clashes.len() == updated.len(),
            old_teams.len() == updated.len(),
            forall|k: int|
                0 <= k < updated.len() && !deleted@.contains(uv[k].uuid) ==> key_long_enough(#[trigger] uv[k].registration_key),
            av.len() + 2 * updated.len() + 2 < i64::MAX,
            base.len() <= av.len(),
            saved_so_far(
                tournament_id,
                av,
                pick(uv, kept_indices(uv, deleted@, j as int)),
                pick(old_teams@, kept_indices(uv, deleted@, j as int)),
                pick(exl, kept_indices(uv, deleted@, j as int)),
                base,
                teams@,
                changes@,
                participants@,
                clashes@,
                deleted_clashes@,
            ),
        decreases updated.len() - j,
    {
        let ghost ks = kept_indices(uv, deleted@, j as int);
        let ghost kv = pick(uv, ks);
        let ghost ot = pick(old_teams@, ks);
        let ghost ex = pick(exl, ks);
        let ghost events = base + kept_events(kv, ot);
        proof {
            lemma_kept_indices_range(uv, deleted@, j as int);
        }
        let e = &updated[j];
        assert(uv[j as int] == e@);
        if list_contains(deleted, e.uuid) {
            proof {
                assert(kept_indices(uv, deleted@, j + 1) =~= ks);
            }
        } else {
            let ghost ks2 = ks.push(j as int);
            assert(kept_indices(uv, deleted@, j + 1) =~= ks2);
            assert(pick(uv, ks2) =~= kv.push(e@));
            assert(pick(old_teams@, ks2) =~= ot.push(old_teams@[j as int]));
            assert(exl[j as int] == existing_clashes@[j as int]@);
            assert(pick(exl, ks2) =~= ex.push(existing_clashes@[j as int]@));
            assert(key_long_enough(uv[j as int].registration_key));
            match save_one_updated(
                tournament_id,
                e,
                &existing_clashes[j],
                old_teams[j],
                teams,
                changes,
                participants,
                clashes,
                deleted_clashes,
                Ghost(av),
                Ghost(kv),
                Ghost(ot),
                Ghost(ex),
                Ghost(base),
            ) {
                Ok(()) => {},
                Err(err) => {
                    proof {
                        lemma_bad_key_kept(uv, deleted@, j as int, kv.len() as int);
                    }
                    return Err(err);
                },
            }
        }
        j += 1;
    }
    proof {
        let ks = kept_indices(uv, deleted@, uv.len() as int);
        assert(uv.len() == updated.len());
    }
    Ok(())
}

proof fn lemma_bad_key_kept(uv: Seq<EntryView>, deleted: Seq<u128>, j: int, n: int)
    requires
        0 <= j < uv.len(),
        !deleted.contains(uv[j].uuid),
        bad_key(uv[j]),
        n == kept_indices(uv, deleted, j).len(),
        forall|k: int| 0 <= k < n ==> !bad_key(#[trigger] pick(uv, kept_indices(uv, deleted, j))[k]),
    ensures
        ({
            let kv = pick(uv, kept_indices(uv, deleted, uv.len() as int));
            &&& 0 <= n < kv.len()
            &&& kv[n] == uv[j]
            &&& forall|k: int| 0 <= k < n ==> !bad_key(#[trigger] kv[k])
        }),
{
    lemma_kept_indices_prefix(uv, deleted, j + 1, uv.len() as int);
    let a = kept_indices(uv, deleted, j);
    let b = kept_indices(uv, deleted, j + 1);
    assert(b =~= a.push(j));
    let full = kept_indices(uv, deleted, uv.len() as int);
    assert(full[n] == b[n]);
    assert forall|k: int| 0 <= k < n implies !bad_key(#[trigger] pick(uv, full)[k]) by {
        assert(full[k] == a[k]);
        assert(pick(uv, a)[k] == uv[a[k]]);
    }
}

proof fn lemma_kept_indices_prefix(uv: Seq<EntryView>, deleted: Seq<u128>, j: int, m: int)
    requires
        0 <= j <= m <= uv.len(),
    ensures
        kept_indices(uv, deleted, j).len() <= kept_indices(uv, deleted, m).len(),
        forall|k: int| 0 <= k < kept_indices(uv, deleted, j).len() ==> #[trigger] kept_indices(uv, deleted, m)[k] == kept_indices(
            uv,
            deleted,
            j,
        )[k],
    decreases m - j,
{
    if j < m {
        lemma_kept_indices_prefix(uv, deleted, j, m - 1);
        let a = kept_indices(uv, deleted, m - 1);
        let b = kept_indices(uv, deleted, m);
        assert forall|k: int| 0 <= k < a.len() implies #[trigger] b[k] == a[k] by {}
    }
}

/// An edit of the participant list of a tournament.
pub struct UpdateParticipantsAction {
    pub updated_participants: Vec<ParticipantEntry>,
    pub added_participants: Vec<ParticipantEntry>,
    pub deleted_participants: Vec<u128>,
    pub tournament_id: u128,
}

/// Whether every kept updated entry's key decodes to at least 48 bytes or
/// not at all.
pub open spec fn kept_keys_long_enough(updated: Seq<EntryView>, deleted: Seq<u128>) -> bool {
    forall|k: int|
        0 <= k < updated.len() && !deleted.contains(updated[k].uuid) ==> key_long_enough(#[trigger] updated[k].registration_key)
}

/// Whether the changes are what the edit makes, given the saved clash ids and
/// the former team of each updated entry and the deleted participants that
/// exist, with their teams.
pub open spec fn edit_saved(
    tournament_id: u128,
    av: Seq<EntryView>,
    uv: Seq<EntryView>,
    deleted: Seq<u128>,
    existing_clashes: Seq<Seq<u128>>,
    old_teams: Seq<Option<u128>>,
    deleted_found: Seq<(u128, Option<u128>)>,
    ch: ParticipantChanges,
) -> bool {
    let ks = kept_indices(uv, deleted, uv.len() as int);
    let kv = pick(uv, ks);
    let ot = pick(old_teams, ks);
    let events = added_events(av) + kept_events(kv, ot) + joined_events(
        Seq::new(deleted_found.len(), |i: int| leave_event(deleted_found[i].1)),
    );
    &&& team_names(ch.teams@) == created_team_names(av + kv)
    &&& teams_in(ch.teams@, tournament_id)
    &&& ch.participants@.len() == av.len() + kv.len()
    &&& forall|k: int| 0 <= k < av.len() ==> added_saved(#[trigger] ch.participants@[k], av[k], tournament_id, ch.teams@)
    &&& forall|k: int| 0 <= k < kv.len() ==> updated_saved(
        #[trigger] ch.participants@[av.len() + k],
        kv[k],
        tournament_id,
        ch.teams@,
    )
    &&& clash_triples(ch.clashes@) == joined(Seq::new(kv.len(), |i: int| outgoing_clashes(kv[i])))
    &&& ch.deleted_clashes@ == dropped_all(kv, pick(existing_clashes, ks), ch.clashes@)
    &&& ch.deleted_participants@ == deleted_found.map_values(|d: (u128, Option<u128>)| d.0)
    &&& sums_events(ch.member_changes@, events)
}

impl UpdateParticipantsAction {
    /// The changes of the edit. Added participants are saved with their id,
    /// or a fresh one where it is nil, and a random key; a speaker of a team
    /// to create gets the team created under that name once; updated
    /// participants that are not deleted are saved with the stored form of
    /// their key, their saved clashes replaced by the clashes they declare;
    /// the deleted participants that exist are deleted. Each team's member
    /// count changes by one for each speaker it gains or loses. Refused at the
    /// first kept updated participant whose key does not decode.
    pub fn get_changes(
        &self,
        existing_clashes: &Vec<Vec<u128>>,
        old_teams: &Vec<Option<u128>>,
        deleted_found: &Vec<(u128, Option<u128>)>,
    ) -> (r: Result<ParticipantChanges, UpdateParticipantsError>)
        requires
            existing_clashes.len() == self.updated_participants.len(),
            old_teams.len() == self.updated_participants.len(),
            kept_keys_long_enough(entries_view(self.updated_participants@), self.deleted_participants@),
            self.added_participants.len() + 2 * self.updated_participants.len() + deleted_found.len() + 4 < i64::MAX,
        ensures
            ({
                let uv = entries_view(self.updated_participants@);
                let kv = pick(uv, kept_indices(uv, self.deleted_participants@, uv.len() as int));
                &&& r is Ok <==> forall|k: int| 0 <= k < kv.len() ==> !bad_key(#[trigger] kv[k])
                &&& r matches Err(err) ==> exists|k: int|
                    0 <= k < kv.len() && bad_key(#[trigger] kv[k]) && err == (UpdateParticipantsError::InvalidRegistrationKey {
                        participant: kv[k].uuid,
                    }) && forall|m: int| 0 <= m < k ==> !bad_key(#[trigger] kv[m])
                &&& r matches Ok(ch) ==> edit_saved(
                    self.tournament_id,
                    entries_view(self.added_participants@),
                    uv,
                    self.deleted_participants@,
                    id_lists(existing_clashes@),
                    old_teams@,
                    deleted_found@,
                    ch,
                )
            }),
    {
        let tournament_id = self.tournament_id;
        let mut teams: Vec<NewTeam> = Vec::new();
        let mut changes: Vec<(u128, i64)> = Vec::new();
        let mut participants: Vec<SavedParticipant> = Vec::new();
        let mut clashes: Vec<NewClash> = Vec::new();
        let mut deleted_clashes: Vec<u128> = Vec::new();
        save_added(tournament_id, &self.added_participants, &mut teams, &mut changes, &mut participants);
        let ghost av = entries_view(self.added_participants@);
        let ghost base = added_events(av);
        proof {
            assert(av + Seq::<EntryView>::empty() =~= av);
            assert(kept_events(Seq::empty(), Seq::empty()) =~= Seq::<(u128, int)>::empty());
            assert(base + kept_events(Seq::empty(), Seq::empty()) =~= base);
            assert(clash_triples(clashes@) =~= joined(Seq::new(0, |i: int| outgoing_clashes(Seq::<EntryView>::empty()[i]))));
            assert(deleted_clashes@ =~= dropped_all(Seq::empty(), Seq::empty(), clashes@));
        }
        save_updated(
            tournament_id,
            &self.updated_participants,
            &self.deleted_participants,
            existing_clashes,
            old_teams,
            &mut teams,
            &mut changes,
            &mut participants,
            &mut clashes,
            &mut deleted_clashes,
            Ghost(av),
            Ghost(base),
        )?;
        let ghost uv = entries_view(self.updated_participants@);
        let ghost ks = kept_indices(uv, self.deleted_participants@, uv.len() as int);
        let ghost kv = pick(uv, ks);
        let ghost mid = base + kept_events(kv, pick(old_teams@, ks));
        proof {
            lemma_kept_indices_range(uv, self.deleted_participants@, uv.len() as int);
        }
        let ghost f = Seq::new(deleted_found@.len(), |i: int| leave_event(deleted_found@[i].1));
        let mut deleted_participants: Vec<u128> = Vec::new();
        let mut i: usize = 0;
        while i < deleted_found.len()
            invariant
                i <= deleted_found.len(),
                f == Seq::new(deleted_found@.len(), |i: int| leave_event(deleted_found@[i].1)),
                mid.len() <= av.len() + 2 * kv.len(),
                kv.len() <= self.updated_participants.len(),
                self.added_participants.len() + 2 * self.updated_participants.len() + deleted_found.len() + 4 < i64::MAX,
                av.len() == self.added_participants.len(),
                sums_events(changes@, mid + joined_events(f.take(i as int))),
                forall|k: int| 0 <= k < (mid + joined_events(f.take(i as int))).len() ==> (#[trigger] (mid + joined_events(
                    f.take(i as int),
                ))[k]).1 == 1 || (mid + joined_events(f.take(i as int)))[k].1 == -1,
                joined_events(f.take(i as int)).len() <= i,
                deleted_participants@ == deleted_found@.take(i as int).map_values(|d: (u128, Option<u128>)| d.0),
            decreases deleted_found.len() - i,
        {
            let (id, team) = deleted_found[i];
            let ghost events = mid + joined_events(f.take(i as int));
            proof {
                lemma_joined_events_step(f, i as int);
            }
            deleted_participants.push(id);
            match team {
                Some(t) => {
                    record_event(&mut changes, t, -1, Ghost(events));
                    assert(mid + joined_events(f.take(i + 1)) =~= events.push((t, -1int)));
                },
                None => {
                    assert(mid + joined_events(f.take(i + 1)) =~= events);
                },
            }
            proof {
                let g = mid + joined_events(f.take(i + 1));
                assert forall|k: int| 0 <= k < g.len() implies (#[trigger] g[k]).1 == 1 || g[k].1 == -1 by {
                    if k < events.len() {
                        assert(g[k] == events[k]);
                    }
                }
            }
            i += 1;
            assert(deleted_participants@ =~= deleted_found@.take(i as int).map_values(|d: (u128, Option<u128>)| d.0));
        }
        assert(f.take(deleted_found.len() as int) =~= f);
        assert(deleted_found@.take(deleted_found.len() as int) =~= deleted_found@);
        assert(mid + joined_events(f) =~= added_events(av) + kept_events(kv, pick(old_teams@, ks)) + joined_events(f));
        Ok(
            ParticipantChanges {
                teams,
                participants,
                clashes,
                deleted_clashes,
                deleted_participants,
                member_changes: changes,
            },
        )
    }

    /// The changes of the edit where every kept updated participant's key, if
    /// it decodes, decodes to at least 48 bytes; none otherwise, where the
    /// stored key cannot be cut out of the decoded bytes.
    pub fn checked_get_changes(
        &self,
        existing_clashes: &Vec<Vec<u128>>,
        old_teams: &Vec<Option<u128>>,
        deleted_found: &Vec<(u128, Option<u128>)>,
    ) -> (r: Option<Result<ParticipantChanges, UpdateParticipantsError>>)
        requires
            existing_clashes.len() == self.updated_participants.len(),
            old_teams.len() == self.updated_participants.len(),
            self.added_participants.len() + 2 * self.updated_participants.len() + deleted_found.len() + 4 < i64::MAX,
        ensures
            r is Some <==> kept_keys_long_enough(entries_view(self.updated_participants@), self.deleted_participants@),
            ({
                let uv = entries_view(self.updated_participants@);
                let kv = pick(uv, kept_indices(uv, self.deleted_participants@, uv.len() as int));
                r matches Some(res) ==> {
                    &&& res is Ok <==> forall|k: int| 0 <= k < kv.len() ==> !bad_key(#[trigger] kv[k])
                    &&& res matches Ok(ch) ==> edit_saved(
                        self.tournament_id,
                        entries_view(self.added_participants@),
                        uv,
                        self.deleted_participants@,
                        id_lists(existing_clashes@),
                        old_teams@,
                        deleted_found@,
                        ch,
                    )
                }
            }),
    {
        let ghost uv = entries_view(self.updated_participants@);
        let mut j: usize = 0;
        while j < self.updated_participants.len()
            invariant
                j <= self.updated_participants.len(),
                uv == entries_view(self.updated_participants@),
                forall|k: int|
                    0 <= k < j && !self.deleted_participants@.contains(uv[k].uuid) ==> key_long_enough(
                        #[trigger] uv[k].registration_key,
                    ),
            decreases self.updated_participants.len() - j,
        {
            let e = &self.updated_participants[j];
            assert(uv[j as int] == e@);
            if !list_contains(&self.deleted_participants, e.uuid) {
                match &e.registration_key {
                    Some(text) => match decode_url_safe_no_pad(text) {
                        Some(bytes) => {
                            if bytes.len() < 48 {
                                assert(!key_long_enough(uv[j as int].registration_key));
                                return None;
                            }
                        },
                        None => {},
                    },
                    None => {},
                }
            }
            j += 1;
        }
        Some(self.get_changes(existing_clashes, old_teams, deleted_found))
    }
}

/// The change of the team's member count, 0 where the edit does not touch it.
pub open spec fn change_of(changes: Seq<(u128, i64)>, t: u128) -> int
    decreases changes.len(),
{
    if changes.len() == 0 {
        0
    } else if changes.last().0 == t {
        changes.last().1 as int
    } else {
        change_of(changes.drop_last(), t)
    }
}

/// The teams the edit takes members from, in the order of the changes.
pub open spec fn losing_teams(changes: Seq<(u128, i64)>) -> Seq<u128>
    decreases changes.len(),
{
    if changes.len() == 0 {
        Seq::empty()
    } else {
        losing_teams(changes.drop_last()) + if changes.last().1 < 0 {
            seq![changes.last().0]
        } else {
            Seq::empty()
        }
    }
}

/// The teams the edit may empty: those it takes members from.
pub fn possibly_empty_teams(changes: &Vec<(u128, i64)>) -> (r: Vec<u128>)
    ensures
        r@ == losing_teams(changes@),
{
    let mut r: Vec<u128> = Vec::new();
    let mut i: usize = 0;
    while i < changes.len()
        invariant
            i <= changes.len(),
            r@ == losing_teams(changes@.take(i as int)),
        decreases changes.len() - i,
    {
        assert(changes@.take(i + 1).drop_last() =~= changes@.take(i as int));
        if changes[i].1 < 0 {
            r.push(changes[i].0);
        }
        i += 1;
    }
    assert(changes@.take(changes.len() as int) =~= changes@);
    r
}

/// The teams with saved member counts that the edit leaves without members.
pub open spec fn emptied_teams(changes: Seq<(u128, i64)>, counts: Seq<(u128, i64)>) -> Seq<u128>
    decreases counts.len(),
{
    if counts.len() == 0 {
        Seq::empty()
    } else {
        let c = counts.last();
        emptied_teams(changes, counts.drop_last()) + if c.1 + change_of(changes, c.0) <= 0 {
            seq![c.0]
        } else {
            Seq::empty()
        }
    }
}

/// The change of the team's member count.
fn change_for(changes: &Vec<(u128, i64)>, t: u128) -> (r: i64)
    ensures
        r == change_of(changes@, t),
{
    let mut i: usize = changes.len();
    assert(changes@.take(changes.len() as int) =~= changes@);
    while i > 0
        invariant
            i <= changes.len(),
            change_of(changes@, t) == change_of(changes@.take(i as int), t),
        decreases i,
    {
        assert(changes@.take(i as int).drop_last() =~= changes@.take(i - 1));
        if changes[i - 1].0 == t {
            return changes[i - 1].1;
        }
        i -= 1;
    }
    0
}

/// The teams to delete: among the saved member counts of the teams the edit
/// may empty, those that the change brings to zero or below.
pub fn teams_to_delete(changes: &Vec<(u128, i64)>, counts: &Vec<(u128, i64)>) -> (r: Vec<u128>)
    ensures
        r@ == emptied_teams(changes@, counts@),
{
    let mut r: Vec<u128> = Vec::new();
    let mut i: usize = 0;
    while i < counts.len()
        invariant
            i <= counts.len(),
            r@ == emptied_teams(changes@, counts@.take(i as int)),
        decreases counts.len() - i,
    {
        assert(counts@.take(i + 1).drop_last() =~= counts@.take(i as int));
        let (t, c) = counts[i];
        let d = change_for(changes, t);
        if c as i128 + d as i128 <= 0 {
            r.push(t);
        }
        i += 1;
    }
    assert(counts@.take(counts.len() as int) =~= counts@);
    r
}

} // verus!
