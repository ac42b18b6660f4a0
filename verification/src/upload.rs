use vstd::prelude::*;

use crate::participants::{ParticipantInstitution, ParticipantRole};
use crate::random::random_key;
use crate::round_draw::new_random_id;

verus! {

/// A participant as listed in an uploaded file: its name, the names of its
/// institutions and the names of the participants it clashes with.
pub struct ParticipantData {
    pub name: String,
    pub institutions: Vec<String>,
    pub clashes: Vec<String>,
}

/// A team as listed in an uploaded file.
pub struct TeamData {
    pub name: String,
    pub members: Vec<ParticipantData>,
}

/// A team to save.
pub struct NewTeam {
    pub uuid: u128,
    pub name: String,
    pub tournament_id: u128,
}

/// An institution to save.
pub struct NewInstitution {
    pub uuid: u128,
    pub name: String,
    pub tournament_id: u128,
}

/// A participant to save.
pub struct NewParticipant {
    pub uuid: u128,
    pub name: String,
    pub role: ParticipantRole,
    pub institutions: Vec<ParticipantInstitution>,
    pub tournament_id: u128,
    pub registration_key: Vec<u8>,
}

/// A clash to save, declared by one participant against another.
#[derive(Clone, Copy, Debug, PartialEq, Eq, Structural)]
pub struct NewClash {
    pub uuid: u128,
    pub declaring_participant_id: u128,
    pub target_participant_id: u128,
    pub clash_severity: u16,
}

/// Everything an upload saves.
pub struct UploadChanges {
    pub teams: Vec<NewTeam>,
    pub institutions: Vec<NewInstitution>,
    pub participants: Vec<NewParticipant>,
    pub clashes: Vec<NewClash>,
}

/// A listed participant as text.
pub struct DataView {
    pub name: Seq<char>,
    pub institutions: Seq<Seq<char>>,
    pub clashes: Seq<Seq<char>>,
}

/// The texts of the strings.
pub open spec fn texts(v: Seq<String>) -> Seq<Seq<char>> {
    v.map_values(|s: String| s@)
}

impl View for ParticipantData {
    type V = DataView;

    open spec fn view(&self) -> DataView {
        DataView { name: self.name@, institutions: texts(self.institutions@), clashes: texts(self.clashes@) }
    }
}

/// Name and id pairs as text.
pub open spec fn entries_view(entries: Seq<(String, u128)>) -> Seq<(Seq<char>, u128)> {
    entries.map_values(|e: (String, u128)| (e.0@, e.1))
}

/// The id of the last entry with the name, as a map that is filled in order
/// gives it; none where no entry has the name.
pub open spec fn lookup_name(entries: Seq<(Seq<char>, u128)>, name: Seq<char>) -> Option<u128>
    decreases entries.len(),
{
    if entries.len() == 0 {
        None
    } else if entries.last().0 == name {
        Some(entries.last().1)
    } else {
        lookup_name(entries.drop_last(), name)
    }
}

/// The listed participants as text, with their roles and ids.
pub open spec fn listed_view(listed: Seq<(ParticipantData, ParticipantRole, u128)>) -> Seq<(DataView, ParticipantRole, u128)> {
    listed.map_values(|t: (ParticipantData, ParticipantRole, u128)| (t.0@, t.1, t.2))
}

/// The institution names of all listed participants, in order.
pub open spec fn all_institution_names(listed: Seq<(DataView, ParticipantRole, u128)>) -> Seq<Seq<char>>
    decreases listed.len(),
{
    if listed.len() == 0 {
        Seq::empty()
    } else {
        all_institution_names(listed.drop_last()) + listed.last().0.institutions
    }
}

/// The names that no known entry has, each once, in the order of their first
/// occurrence.
pub open spec fn missing_names(known: Seq<(Seq<char>, u128)>, names: Seq<Seq<char>>) -> Seq<Seq<char>>
    decreases names.len(),
{
    if names.len() == 0 {
        Seq::empty()
    } else {
        let acc = missing_names(known, names.drop_last());
        let x = names.last();
        if lookup_name(known, x) is Some || acc.contains(x) {
            acc
        } else {
            acc.push(x)
        }
    }
}

/// The created institutions as name and id pairs.
pub open spec fn institution_entries(created: Seq<NewInstitution>) -> Seq<(Seq<char>, u128)> {
    created.map_values(|i: NewInstitution| (i.name@, i.uuid))
}

/// The id an institution name stands for: an existing institution's, else a
/// created one's.
pub open spec fn resolve_institution(
    existing: Seq<(Seq<char>, u128)>,
    created: Seq<NewInstitution>,
    name: Seq<char>,
) -> Option<u128> {
    if lookup_name(existing, name) is Some {
        lookup_name(existing, name)
    } else {
        lookup_name(institution_entries(created), name)
    }
}

/// Whether the institutions of a participant are those its names stand for,
/// each with full clash severity.
pub open spec fn institutions_resolved(
    insts: Seq<ParticipantInstitution>,
    names: Seq<Seq<char>>,
    existing: Seq<(Seq<char>, u128)>,
    created: Seq<NewInstitution>,
) -> bool {
    &&& insts.len() == names.len()
    &&& forall|l: int| 0 <= l < insts.len() ==> Some((#[trigger] insts[l]).uuid) == resolve_institution(existing, created, names[l])
        && insts[l].clash_severity == 100
}

/// Whether the participant to save is the listed one, in the tournament, with
/// a key of 32 bytes and its institutions resolved.
pub open spec fn participant_made(
    p: NewParticipant,
    t: (DataView, ParticipantRole, u128),
    tournament_id: u128,
    existing: Seq<(Seq<char>, u128)>,
    created: Seq<NewInstitution>,
) -> bool {
    &&& p.uuid == t.2
    &&& p.name@ == t.0.name
    &&& p.role == t.1
    &&& p.tournament_id == tournament_id
    &&& p.registration_key@.len() == 32
    &&& institutions_resolved(p.institutions@, t.0.institutions, existing, created)
}

/// The listed participants as name and id pairs.
pub open spec fn participant_entries(listed: Seq<(DataView, ParticipantRole, u128)>) -> Seq<(Seq<char>, u128)> {
    listed.map_values(|t: (DataView, ParticipantRole, u128)| (t.0.name, t.2))
}

/// The clashes one participant declares: against each named participant that
/// is known, in the order of the names.
pub open spec fn clashes_of(declaring: u128, names: Seq<Seq<char>>, known: Seq<(Seq<char>, u128)>) -> Seq<(u128, u128)>
    decreases names.len(),
{
    if names.len() == 0 {
        Seq::empty()
    } else {
        let rest = clashes_of(declaring, names.drop_last(), known);
        match lookup_name(known, names.last()) {
            Some(t) => rest.push((declaring, t)),
            None => rest,
        }
    }
}

/// The clashes all listed participants declare, in order.
pub open spec fn all_clashes(listed: Seq<(DataView, ParticipantRole, u128)>, known: Seq<(Seq<char>, u128)>) -> Seq<
    (u128, u128),
>
    decreases listed.len(),
{
    if listed.len() == 0 {
        Seq::empty()
    } else {
        all_clashes(listed.drop_last(), known) + clashes_of(listed.last().2, listed.last().0.clashes, known)
    }
}

/// The clashes as declaring and target pairs.
pub open spec fn clash_pairs(clashes: Seq<NewClash>) -> Seq<(u128, u128)> {
    clashes.map_values(|c: NewClash| (c.declaring_participant_id, c.target_participant_id))
}

/// Whether the institutions, participants and clashes are those to save for
/// the listed participants: the institutions are created for the missing
/// names, in order; each participant is saved with its institutions resolved;
/// the clashes are those the listed participants declare, in order.
pub open spec fn saves_participants(
    tournament_id: u128,
    lv: Seq<(DataView, ParticipantRole, u128)>,
    existing_institutions: Seq<(Seq<char>, u128)>,
    existing_participants: Seq<(Seq<char>, u128)>,
    institutions: Seq<NewInstitution>,
    participants: Seq<NewParticipant>,
    clashes: Seq<NewClash>,
) -> bool {
    let missing = missing_names(existing_institutions, all_institution_names(lv));
    &&& institutions.len() == missing.len()
    &&& forall|i: int| 0 <= i < institutions.len() ==> (#[trigger] institutions[i]).name@ == missing[i]
        && institutions[i].tournament_id == tournament_id
    &&& participants.len() == lv.len()
    &&& forall|k: int| 0 <= k < participants.len() ==> participant_made(
        #[trigger] participants[k],
        lv[k],
        tournament_id,
        existing_institutions,
        institutions,
    )
    &&& clash_pairs(clashes) == all_clashes(lv, existing_participants + participant_entries(lv))
    &&& forall|c: int| 0 <= c < clashes.len() ==> (#[trigger] clashes[c]).clash_severity == 100
}

proof fn lemma_lookup_found(entries: Seq<(Seq<char>, u128)>, name: Seq<char>)
    ensures
        lookup_name(entries, name) is Some <==> exists|i: int| 0 <= i < entries.len() && #[trigger] entries[i].0 == name,
    decreases entries.len(),
{
    if entries.len() > 0 {
        lemma_lookup_found(entries.drop_last(), name);
        if exists|i: int| 0 <= i < entries.len() && #[trigger] entries[i].0 == name {
            let i = choose|i: int| 0 <= i < entries.len() && #[trigger] entries[i].0 == name;
            if i < entries.len() - 1 {
                assert(entries.drop_last()[i].0 == name);
            }
        }
        if exists|i: int| 0 <= i < entries.drop_last().len() && #[trigger] entries.drop_last()[i].0 == name {
            let i = choose|i: int| 0 <= i < entries.drop_last().len() && #[trigger] entries.drop_last()[i].0 == name;
            assert(entries[i].0 == name);
        }
    }
}

proof fn lemma_lookup_concat(a: Seq<(Seq<char>, u128)>, b: Seq<(Seq<char>, u128)>, name: Seq<char>)
    ensures
        lookup_name(a + b, name) == (if lookup_name(b, name) is Some {
            lookup_name(b, name)
        } else {
            lookup_name(a, name)
        }),
    decreases b.len(),
{
    if b.len() == 0 {
        assert(a + b =~= a);
    } else {
        assert((a + b).drop_last() =~= a + b.drop_last());
        lemma_lookup_concat(a, b.drop_last(), name);
    }
}

/// The id of the last entry with the name.
fn lookup_entries(entries: &Vec<(String, u128)>, name: &String) -> (r: Option<u128>)
    ensures
        r == lookup_name(entries_view(entries@), name@),
{
    let ghost v = entries_view(entries@);
    assert(v.take(entries.len() as int) =~= v);
    let mut i: usize = entries.len();
    while i > 0
        invariant
            i <= entries.len(),
            v == entries_view(entries@),
            lookup_name(v, name@) == lookup_name(v.take(i as int), name@),
        decreases i,
    {
        assert(v.take(i as int).drop_last() =~= v.take(i - 1));
        if entries[i - 1].0 == *name {
            return Some(entries[i - 1].1);
        }
        i -= 1;
    }
    None
}

/// The id of the last created institution with the name.
fn lookup_created(created: &Vec<NewInstitution>, name: &String) -> (r: Option<u128>)
    ensures
        r == lookup_name(institution_entries(created@), name@),
{
    let ghost v = institution_entries(created@);
    assert(v.take(created.len() as int) =~= v);
    let mut i: usize = created.len();
    while i > 0
        invariant
            i <= created.len(),
            v == institution_entries(created@),
            lookup_name(v, name@) == lookup_name(v.take(i as int), name@),
        decreases i,
    {
        assert(v.take(i as int).drop_last() =~= v.take(i - 1));
        if created[i - 1].name == *name {
            return Some(created[i - 1].uuid);
        }
        i -= 1;
    }
    None
}

/// The id the name stands for among the existing and the listed participants,
/// the listed ones last.
fn lookup_participant(
    listed: &Vec<(ParticipantData, ParticipantRole, u128)>,
    existing: &Vec<(String, u128)>,
    name: &String,
) -> (r: Option<u128>)
    ensures
        r == lookup_name(entries_view(existing@) + participant_entries(listed_view(listed@)), name@),
{
    let ghost v = participant_entries(listed_view(listed@));
    proof {
        lemma_lookup_concat(entries_view(existing@), v, name@);
        assert(v.take(listed.len() as int) =~= v);
    }
    let mut i: usize = listed.len();
    while i > 0
        invariant
            i <= listed.len(),
            v == participant_entries(listed_view(listed@)),
            lookup_name(v, name@) == lookup_name(v.take(i as int), name@),
        decreases i,
    {
        assert(v.take(i as int).drop_last() =~= v.take(i - 1));
        assert(v.take(i as int).last() == (listed@[i - 1].0.name@, listed@[i - 1].2));
        if listed[i - 1].0.name == *name {
            proof {
                lemma_lookup_concat(entries_view(existing@), v, name@);
            }
            return Some(listed[i - 1].2);
        }
        i -= 1;
    }
    lookup_entries(existing, name)
}

proof fn lemma_resolve_push(
    insts: Seq<ParticipantInstitution>,
    names: Seq<Seq<char>>,
    existing: Seq<(Seq<char>, u128)>,
    created: Seq<NewInstitution>,
    added: NewInstitution,
)
    requires
        institutions_resolved(insts, names, existing, created),
        lookup_name(existing, added.name@) is None,
        lookup_name(institution_entries(created), added.name@) is None,
    ensures
        institutions_resolved(insts, names, existing, created.push(added)),
{
    assert(institution_entries(created.push(added)) =~= institution_entries(created).push((added.name@, added.uuid)));
    assert forall|l: int| 0 <= l < insts.len() implies Some((#[trigger] insts[l]).uuid) == resolve_institution(
        existing,
        created.push(added),
        names[l],
    ) by {
        if lookup_name(existing, names[l]) is None {
            assert(institution_entries(created.push(added)).drop_last() =~= institution_entries(created));
        }
    }
}

/// The participants, institutions and clashes to save for the listed
/// participants. An institution name takes the id of the existing institution
/// of that name, else of the one created for it at its first occurrence; a
/// clash name takes the id of the last participant of that name, the listed
/// ones after the existing ones, and gives no clash where none has it. Each
/// participant gets a random registration key, each new institution and
/// clash a fresh id.
pub fn get_participants(
    tournament_id: u128,
    listed: &Vec<(ParticipantData, ParticipantRole, u128)>,
    existing_institutions: &Vec<(String, u128)>,
    existing_participants: &Vec<(String, u128)>,
) -> (r: (Vec<NewInstitution>, Vec<NewParticipant>, Vec<NewClash>))
    ensures
        saves_participants(
            tournament_id,
            listed_view(listed@),
            entries_view(existing_institutions@),
            entries_view(existing_participants@),
            r.0@,
            r.1@,
            r.2@,
        ),
{
    let ghost lv = listed_view(listed@);
    let ghost ex = entries_view(existing_institutions@);
    let mut created: Vec<NewInstitution> = Vec::new();
    let mut out: Vec<NewParticipant> = Vec::new();
    let mut i: usize = 0;
    while i < listed.len()
        invariant
            i <= listed.len(),
            lv == listed_view(listed@),
            ex == entries_view(existing_institutions@),
            created.len() == missing_names(ex, all_institution_names(lv.take(i as int))).len(),
            forall|c: int| 0 <= c < created.len() ==> (#[trigger] created@[c]).name@ == missing_names(
                ex,
                all_institution_names(lv.take(i as int)),
            )[c] && created@[c].tournament_id == tournament_id,
            out.len() == i,
            forall|k: int| 0 <= k < i ==> participant_made(#[trigger] out@[k], lv[k], tournament_id, ex, created@),
        decreases listed.len() - i,
    {
        let data = &listed[i].0;
        let ghost before = all_institution_names(lv.take(i as int));
        assert(lv.take(i + 1).drop_last() =~= lv.take(i as int));
        assert(lv[i as int].0.institutions == texts(data.institutions@));
        let mut insts: Vec<ParticipantInstitution> = Vec::new();
        let mut j: usize = 0;
        while j < data.institutions.len()
            invariant
                i < listed.len(),
                data == &listed@[i as int].0,
                lv == listed_view(listed@),
                ex == entries_view(existing_institutions@),
                before == all_institution_names(lv.take(i as int)),
                j <= data.institutions.len(),
                created.len() == missing_names(ex, before + texts(data.institutions@).take(j as int)).len(),
                forall|c: int| 0 <= c < created.len() ==> (#[trigger] created@[c]).name@ == missing_names(
                    ex,
                    before + texts(data.institutions@).take(j as int),
                )[c] && created@[c].tournament_id == tournament_id,
                institutions_resolved(insts@, texts(data.institutions@).take(j as int), ex, created@),
                out.len() == i,
                forall|k: int| 0 <= k < i ==> participant_made(#[trigger] out@[k], lv[k], tournament_id, ex, created@),
            decreases data.institutions.len() - j,
        {
            let name = &data.institutions[j];
            let ghost seen = before + texts(data.institutions@).take(j as int);
            let ghost missing = missing_names(ex, seen);
            assert((before + texts(data.institutions@).take(j + 1)).drop_last() =~= seen);
            assert((before + texts(data.institutions@).take(j + 1)).last() == name@);
            assert(texts(data.institutions@).take(j + 1).drop_last() =~= texts(data.institutions@).take(j as int));
            proof {
                lemma_lookup_found(institution_entries(created@), name@);
                assert(missing.contains(name@) <==> exists|c: int| 0 <= c < created.len() && #[trigger] institution_entries(created@)[c].0 == name@) by {
                    if missing.contains(name@) {
                        let c = choose|c: int| 0 <= c < missing.len() && missing[c] == name@;
                        assert(institution_entries(created@)[c].0 == name@);
                    }
                    if exists|c: int| 0 <= c < created.len() && #[trigger] institution_entries(created@)[c].0 == name@ {
                        let c = choose|c: int| 0 <= c < created.len() && #[trigger] institution_entries(created@)[c].0 == name@;
                        assert(missing[c] == name@);
                    }
                }
            }
            let uuid = match lookup_entries(existing_institutions, name) {
                Some(u) => u,
                None => match lookup_created(&created, name) {
                    Some(u) => u,
                    None => {
                        let u = new_random_id();
                        let added = NewInstitution { uuid: u, name: name.clone(), tournament_id };
                        proof {
                            lemma_resolve_push(insts@, texts(data.institutions@).take(j as int), ex, created@, added);
                            assert forall|k: int| 0 <= k < i implies participant_made(
                                #[trigger] out@[k],
                                lv[k],
                                tournament_id,
                                ex,
                                created@.push(added),
                            ) by {
                                lemma_resolve_push(out@[k].institutions@, lv[k].0.institutions, ex, created@, added);
                            }
                        }
                        let ghost prev = created@;
                        created.push(added);
                        proof {
                            assert(institution_entries(created@).drop_last() =~= institution_entries(prev));
                        }
                        u
                    },
                },
            };
            insts.push(ParticipantInstitution { uuid, clash_severity: 100 });
            j += 1;
        }
        assert(texts(data.institutions@).take(data.institutions.len() as int) =~= texts(data.institutions@));
        assert(all_institution_names(lv.take(i + 1)) == before + texts(data.institutions@));
        let p = NewParticipant {
            uuid: listed[i].2,
            name: data.name.clone(),
            role: listed[i].1,
            institutions: insts,
            tournament_id,
            registration_key: random_key(),
        };
        out.push(p);
        i += 1;
    }
    assert(lv.take(listed.len() as int) =~= lv);
    let ghost known = entries_view(existing_participants@) + participant_entries(lv);
    let mut clashes: Vec<NewClash> = Vec::new();
    let mut i: usize = 0;
    while i < listed.len()
        invariant
            i <= listed.len(),
            lv == listed_view(listed@),
            known == entries_view(existing_participants@) + participant_entries(lv),
            clash_pairs(clashes@) == all_clashes(lv.take(i as int), known),
            forall|c: int| 0 <= c < clashes.len() ==> (#[trigger] clashes@[c]).clash_severity == 100,
        decreases listed.len() - i,
    {
        let data = &listed[i].0;
        let declaring = listed[i].2;
        let ghost before = all_clashes(lv.take(i as int), known);
        assert(lv.take(i + 1).drop_last() =~= lv.take(i as int));
        let mut j: usize = 0;
        while j < data.clashes.len()
            invariant
                i < listed.len(),
                data == &listed@[i as int].0,
                declaring == listed@[i as int].2,
                lv == listed_view(listed@),
                known == entries_view(existing_participants@) + participant_entries(lv),
                before == all_clashes(lv.take(i as int), known),
                j <= data.clashes.len(),
                clash_pairs(clashes@) == before + clashes_of(declaring, texts(data.clashes@).take(j as int), known),
                forall|c: int| 0 <= c < clashes.len() ==> (#[trigger] clashes@[c]).clash_severity == 100,
            decreases data.clashes.len() - j,
        {
            let name = &data.clashes[j];
            assert(texts(data.clashes@).take(j + 1).drop_last() =~= texts(data.clashes@).take(j as int));
            assert(texts(data.clashes@).take(j + 1).last() == name@);
            let clash_uuid = new_random_id();
            match lookup_participant(listed, existing_participants, name) {
                Some(target) => {
                    let ghost prev = clashes@;
                    clashes.push(
                        NewClash {
                            uuid: clash_uuid,
                            declaring_participant_id: declaring,
                            target_participant_id: target,
                            clash_severity: 100,
                        },
                    );
                    assert(clash_pairs(clashes@) =~= clash_pairs(prev).push((declaring, target)));
                    assert(clashes_of(declaring, texts(data.clashes@).take(j + 1), known) == clashes_of(
                        declaring,
                        texts(data.clashes@).take(j as int),
                        known,
                    ).push((declaring, target)));
                    assert(clash_pairs(clashes@) =~= before + clashes_of(declaring, texts(data.clashes@).take(j + 1), known));
                },
                None => {},
            }
            j += 1;
        }
        assert(texts(data.clashes@).take(data.clashes.len() as int) =~= texts(data.clashes@));
        assert(all_clashes(lv.take(i + 1), known) == before + clashes_of(declaring, texts(data.clashes@), known));
        i += 1;
    }
    (created, out, clashes)
}

/// The listed members of the teams, each a speaker of its team, in order.
pub open spec fn team_roster(teams: Seq<TeamData>, team_ids: Seq<u128>) -> Seq<(DataView, ParticipantRole)>
    decreases teams.len(),
{
    if teams.len() == 0 {
        Seq::empty()
    } else {
        team_roster(teams.drop_last(), team_ids) + teams.last().members@.map_values(
            |m: ParticipantData| (m@, ParticipantRole::Speaker { team_id: Some(team_ids[teams.len() - 1]) }),
        )
    }
}

/// The listed participants of an upload: the team members, then the
/// adjudicators.
pub open spec fn roster(teams: Seq<TeamData>, team_ids: Seq<u128>, adjudicators: Seq<ParticipantData>) -> Seq<
    (DataView, ParticipantRole),
> {
    team_roster(teams, team_ids) + adjudicators.map_values(|a: ParticipantData| (a@, ParticipantRole::Adjudicator))
}

/// The roster with the ids of the saved participants.
pub open spec fn with_ids(roster: Seq<(DataView, ParticipantRole)>, participants: Seq<NewParticipant>) -> Seq<
    (DataView, ParticipantRole, u128),
> {
    Seq::new(roster.len(), |k: int| (roster[k].0, roster[k].1, participants[k].uuid))
}

/// The ids of the saved teams.
pub open spec fn team_ids(teams: Seq<NewTeam>) -> Seq<u128> {
    teams.map_values(|t: NewTeam| t.uuid)
}

fn copy_texts(v: &Vec<String>) -> (r: Vec<String>)
    ensures
        r@ == v@,
{
    let mut r: Vec<String> = Vec::new();
    let mut i: usize = 0;
    while i < v.len()
        invariant
            i <= v.len(),
            r@ == v@.take(i as int),
        decreases v.len() - i,
    {
        r.push(v[i].clone());
        i += 1;
        assert(r@ =~= v@.take(i as int));
    }
    assert(v@.take(v.len() as int) =~= v@);
    r
}

fn copy_data(d: &ParticipantData) -> (r: ParticipantData)
    ensures
        r@ == d@,
{
    ParticipantData { name: d.name.clone(), institutions: copy_texts(&d.institutions), clashes: copy_texts(&d.clashes) }
}

/// What an upload of teams and adjudicators saves. A team keeps the id of the
/// last existing team of its name, or gets a fresh one; each team member is
/// listed as a speaker of its team, each adjudicator as an adjudicator, with a
/// fresh id; the participants, institutions and clashes are then those that
/// `get_participants` gives for them.
pub fn upload_participants(
    tournament_id: u128,
    teams: &Vec<TeamData>,
    adjudicators: &Vec<ParticipantData>,
    existing_teams: &Vec<(String, u128)>,
    existing_institutions: &Vec<(String, u128)>,
    existing_participants: &Vec<(String, u128)>,
) -> (r: UploadChanges)
    ensures
        r.teams.len() == teams.len(),
        forall|i: int| 0 <= i < teams.len() ==> {
            &&& (#[trigger] r.teams@[i]).name@ == teams@[i].name@
            &&& r.teams@[i].tournament_id == tournament_id
            &&& lookup_name(entries_view(existing_teams@), teams@[i].name@) matches Some(u) ==> r.teams@[i].uuid == u
        },
        r.participants.len() == roster(teams@, team_ids(r.teams@), adjudicators@).len(),
        saves_participants(
            tournament_id,
            with_ids(roster(teams@, team_ids(r.teams@), adjudicators@), r.participants@),
            entries_view(existing_institutions@),
            entries_view(existing_participants@),
            r.institutions@,
            r.participants@,
            r.clashes@,
        ),
{
    let mut new_teams: Vec<NewTeam> = Vec::new();
    let mut listed: Vec<(ParticipantData, ParticipantRole, u128)> = Vec::new();
    let mut i: usize = 0;
    while i < teams.len()
        invariant
            i <= teams.len(),
            new_teams.len() == i,
            forall|k: int| 0 <= k < i ==> {
                &&& (#[trigger] new_teams@[k]).name@ == teams@[k].name@
                &&& new_teams@[k].tournament_id == tournament_id
                &&& lookup_name(entries_view(existing_teams@), teams@[k].name@) matches Some(u) ==> new_teams@[k].uuid == u
            },
            listed.len() == team_roster(teams@.take(i as int), team_ids(new_teams@)).len(),
            forall|k: int| 0 <= k < listed.len() ==> ((#[trigger] listed@[k]).0@, listed@[k].1) == team_roster(
                teams@.take(i as int),
                team_ids(new_teams@),
            )[k],
        decreases teams.len() - i,
    {
        let team = &teams[i];
        let uuid = match lookup_entries(existing_teams, &team.name) {
            Some(u) => u,
            None => new_random_id(),
        };
        let ghost prev_ids = team_ids(new_teams@);
        let ghost prev_roster = team_roster(teams@.take(i as int), prev_ids);
        new_teams.push(NewTeam { uuid, name: team.name.clone(), tournament_id });
        proof {
            assert(team_ids(new_teams@) =~= prev_ids.push(uuid));
            lemma_team_roster_prefix(teams@.take(i as int), prev_ids, prev_ids.push(uuid));
            assert(teams@.take(i + 1).drop_last() =~= teams@.take(i as int));
        }
        let ghost members = team.members@.map_values(
            |m: ParticipantData| (m@, ParticipantRole::Speaker { team_id: Some(uuid) }),
        );
        assert(team_roster(teams@.take(i + 1), team_ids(new_teams@)) == prev_roster + members);
        let mut j: usize = 0;
        while j < team.members.len()
            invariant
                j <= team.members.len(),
                listed.len() == prev_roster.len() + j,
                forall|k: int| 0 <= k < listed.len() ==> ((#[trigger] listed@[k]).0@, listed@[k].1) == (prev_roster
                    + members)[k],
                members == team.members@.map_values(
                    |m: ParticipantData| (m@, ParticipantRole::Speaker { team_id: Some(uuid) }),
                ),
            decreases team.members.len() - j,
        {
            listed.push((copy_data(&team.members[j]), ParticipantRole::Speaker { team_id: Some(uuid) }, new_random_id()));
            j += 1;
        }
        i += 1;
    }
    assert(teams@.take(teams.len() as int) =~= teams@);
    let ghost ids = team_ids(new_teams@);
    let ghost speakers = team_roster(teams@, ids);
    let ghost adjs = adjudicators@.map_values(|a: ParticipantData| (a@, ParticipantRole::Adjudicator));
    let mut j: usize = 0;
    while j < adjudicators.len()
        invariant
            j <= adjudicators.len(),
            listed.len() == speakers.len() + j,
            adjs == adjudicators@.map_values(|a: ParticipantData| (a@, ParticipantRole::Adjudicator)),
            forall|k: int| 0 <= k < listed.len() ==> ((#[trigger] listed@[k]).0@, listed@[k].1) == (speakers + adjs)[k],
        decreases adjudicators.len() - j,
    {
        listed.push((copy_data(&adjudicators[j]), ParticipantRole::Adjudicator, new_random_id()));
        j += 1;
    }
    let (institutions, participants, clashes) = get_participants(
        tournament_id,
        &listed,
        existing_institutions,
        existing_participants,
    );
    assert(with_ids(roster(teams@, ids, adjudicators@), participants@) =~= listed_view(listed@));
    UploadChanges { teams: new_teams, institutions, participants, clashes }
}

proof fn lemma_team_roster_prefix(teams: Seq<TeamData>, ids: Seq<u128>, more: Seq<u128>)
    requires
        ids.len() >= teams.len(),
        more.len() >= ids.len(),
        forall|k: int| 0 <= k < ids.len() ==> more[k] == ids[k],
    ensures
        team_roster(teams, more) == team_roster(teams, ids),
    decreases teams.len(),
{
    if teams.len() > 0 {
        lemma_team_roster_prefix(teams.drop_last(), ids, more);
    }
}

} // verus!
