use vstd::prelude::*;

use crate::round_draw::new_random_id;

verus! {

/// Which answers of a range question are good.
#[derive(Clone, Copy, Debug, PartialEq, Eq, Structural)]
pub enum RangeQuestionOrientation {
    HighIsGood,
    LowIsGood,
    MeanIsGood,
}

/// A question answered by a number between `min` and `max`, some of which are
/// labelled.
pub struct RangeQuestionConfig {
    pub min: i32,
    pub max: i32,
    pub orientation: RangeQuestionOrientation,
    pub labels: Vec<(i32, String)>,
}

/// The kind of answer a question takes.
pub enum QuestionType {
    RangeQuestion { config: RangeQuestionConfig },
    TextQuestion,
    YesNoQuestion,
}

/// A question of a feedback template.
pub struct QuestionInfo {
    pub short_name: String,
    pub full_name: String,
    pub config: QuestionType,
    pub description: Option<String>,
}

/// A question of a template form: the key of a shared question, or a question
/// written out in the form.
pub enum QuestionKeyOrInline {
    Key(String),
    Inline(QuestionInfo),
}

/// A form of a feedback template: its questions, in order.
pub struct TemplateForm {
    pub questions: Vec<QuestionKeyOrInline>,
}

/// A form slot of a template: the name of another slot whose form it shares,
/// or a form written out.
pub enum FormKeyOrInline {
    Key(String),
    Inline(TemplateForm),
}

/// Who gives feedback on whom with a form.
#[derive(Clone, Copy, Debug, PartialEq, Eq, Structural)]
pub struct FeedbackFormVisibility {
    pub show_chairs_for_wings: bool,
    pub show_wings_for_chairs: bool,
    pub show_wings_for_presidents: bool,
    pub show_wings_for_wings: bool,
    pub show_presidents_for_chairs: bool,
    pub show_presidents_for_wings: bool,
    pub show_teams_for_chairs: bool,
    pub show_teams_for_presidents: bool,
    pub show_teams_for_wings: bool,
    pub show_non_aligned_for_chairs: bool,
    pub show_non_aligned_for_presidents: bool,
    pub show_non_aligned_for_wings: bool,
}

pub open spec fn no_visibility() -> FeedbackFormVisibility {
    FeedbackFormVisibility {
        show_chairs_for_wings: false,
        show_wings_for_chairs: false,
        show_wings_for_presidents: false,
        show_wings_for_wings: false,
        show_presidents_for_chairs: false,
        show_presidents_for_wings: false,
        show_teams_for_chairs: false,
        show_teams_for_presidents: false,
        show_teams_for_wings: false,
        show_non_aligned_for_chairs: false,
        show_non_aligned_for_presidents: false,
        show_non_aligned_for_wings: false,
    }
}

/// Shown where either is shown.
pub open spec fn union_spec(a: FeedbackFormVisibility, b: FeedbackFormVisibility) -> FeedbackFormVisibility {
    FeedbackFormVisibility {
        show_chairs_for_wings: a.show_chairs_for_wings || b.show_chairs_for_wings,
        show_wings_for_chairs: a.show_wings_for_chairs || b.show_wings_for_chairs,
        show_wings_for_presidents: a.show_wings_for_presidents || b.show_wings_for_presidents,
        show_wings_for_wings: a.show_wings_for_wings || b.show_wings_for_wings,
        show_presidents_for_chairs: a.show_presidents_for_chairs || b.show_presidents_for_chairs,
        show_presidents_for_wings: a.show_presidents_for_wings || b.show_presidents_for_wings,
        show_teams_for_chairs: a.show_teams_for_chairs || b.show_teams_for_chairs,
        show_teams_for_presidents: a.show_teams_for_presidents || b.show_teams_for_presidents,
        show_teams_for_wings: a.show_teams_for_wings || b.show_teams_for_wings,
        show_non_aligned_for_chairs: a.show_non_aligned_for_chairs || b.show_non_aligned_for_chairs,
        show_non_aligned_for_presidents: a.show_non_aligned_for_presidents || b.show_non_aligned_for_presidents,
        show_non_aligned_for_wings: a.show_non_aligned_for_wings || b.show_non_aligned_for_wings,
    }
}

impl Default for FeedbackFormVisibility {
    fn default() -> (v: Self)
        ensures
            v == no_visibility(),
    {
        FeedbackFormVisibility {
            show_chairs_for_wings: false,
            show_wings_for_chairs: false,
            show_wings_for_presidents: false,
            show_wings_for_wings: false,
            show_presidents_for_chairs: false,
            show_presidents_for_wings: false,
            show_teams_for_chairs: false,
            show_teams_for_presidents: false,
            show_teams_for_wings: false,
            show_non_aligned_for_chairs: false,
            show_non_aligned_for_presidents: false,
            show_non_aligned_for_wings: false,
        }
    }
}

impl FeedbackFormVisibility {
    /// Also shows the form where `other` shows it.
    pub fn union(&mut self, other: &FeedbackFormVisibility)
        ensures
            *final(self) == union_spec(*old(self), *other),
    {
        self.show_chairs_for_wings = self.show_chairs_for_wings || other.show_chairs_for_wings;
        self.show_wings_for_chairs = self.show_wings_for_chairs || other.show_wings_for_chairs;
        self.show_wings_for_presidents = self.show_wings_for_presidents || other.show_wings_for_presidents;
        self.show_wings_for_wings = self.show_wings_for_wings || other.show_wings_for_wings;
        self.show_presidents_for_chairs = self.show_presidents_for_chairs || other.show_presidents_for_chairs;
        self.show_presidents_for_wings = self.show_presidents_for_wings || other.show_presidents_for_wings;
        self.show_teams_for_chairs = self.show_teams_for_chairs || other.show_teams_for_chairs;
        self.show_teams_for_presidents = self.show_teams_for_presidents || other.show_teams_for_presidents;
        self.show_teams_for_wings = self.show_teams_for_wings || other.show_teams_for_wings;
        self.show_non_aligned_for_chairs = self.show_non_aligned_for_chairs || other.show_non_aligned_for_chairs;
        self.show_non_aligned_for_presidents = self.show_non_aligned_for_presidents
            || other.show_non_aligned_for_presidents;
        self.show_non_aligned_for_wings = self.show_non_aligned_for_wings || other.show_non_aligned_for_wings;
    }
}

/// The form slots of a template, in the order in which they are gone through.
#[derive(Clone, Copy, Debug, PartialEq, Eq, Structural)]
pub enum FormSlot {
    ChairsForWings,
    WingsForChairs,
    WingsForPresidents,
    WingsForWings,
    PresidentsForChairs,
    PresidentsForWings,
    TeamsForChairs,
    TeamsForPresidents,
    TeamsForWings,
    NonAlignedForChairs,
    NonAlignedForPresidents,
    NonAlignedForWings,
}

/// The name of a slot.
pub open spec fn slot_name(s: FormSlot) -> Seq<char> {
    match s {
        FormSlot::ChairsForWings => "chairs_for_wings"@,
        FormSlot::WingsForChairs => "wings_for_chairs"@,
        FormSlot::WingsForPresidents => "wings_for_presidents"@,
        FormSlot::WingsForWings => "wings_for_wings"@,
        FormSlot::PresidentsForChairs => "presidents_for_chairs"@,
        FormSlot::PresidentsForWings => "presidents_for_wings"@,
        FormSlot::TeamsForChairs => "teams_for_chairs"@,
        FormSlot::TeamsForPresidents => "teams_for_presidents"@,
        FormSlot::TeamsForWings => "teams_for_wings"@,
        FormSlot::NonAlignedForChairs => "non_aligned_for_chairs"@,
        FormSlot::NonAlignedForPresidents => "non_aligned_for_presidents"@,
        FormSlot::NonAlignedForWings => "non_aligned_for_wings"@,
    }
}

/// The visibility of a form in a slot: shown for the slot alone.
pub open spec fn slot_visibility(s: FormSlot) -> FeedbackFormVisibility {
    let n = no_visibility();
    match s {
        FormSlot::ChairsForWings => FeedbackFormVisibility { show_chairs_for_wings: true, ..n },
        FormSlot::WingsForChairs => FeedbackFormVisibility { show_wings_for_chairs: true, ..n },
        FormSlot::WingsForPresidents => FeedbackFormVisibility { show_wings_for_presidents: true, ..n },
        FormSlot::WingsForWings => FeedbackFormVisibility { show_wings_for_wings: true, ..n },
        FormSlot::PresidentsForChairs => FeedbackFormVisibility { show_presidents_for_chairs: true, ..n },
        FormSlot::PresidentsForWings => FeedbackFormVisibility { show_presidents_for_wings: true, ..n },
        FormSlot::TeamsForChairs => FeedbackFormVisibility { show_teams_for_chairs: true, ..n },
        FormSlot::TeamsForPresidents => FeedbackFormVisibility { show_teams_for_presidents: true, ..n },
        FormSlot::TeamsForWings => FeedbackFormVisibility { show_teams_for_wings: true, ..n },
        FormSlot::NonAlignedForChairs => FeedbackFormVisibility { show_non_aligned_for_chairs: true, ..n },
        FormSlot::NonAlignedForPresidents => FeedbackFormVisibility { show_non_aligned_for_presidents: true, ..n },
        FormSlot::NonAlignedForWings => FeedbackFormVisibility { show_non_aligned_for_wings: true, ..n },
    }
}

/// The slots in order.
pub open spec fn all_slots() -> Seq<FormSlot> {
    seq![
        FormSlot::ChairsForWings,
        FormSlot::WingsForChairs,
        FormSlot::WingsForPresidents,
        FormSlot::WingsForWings,
        FormSlot::PresidentsForChairs,
        FormSlot::PresidentsForWings,
        FormSlot::TeamsForChairs,
        FormSlot::TeamsForPresidents,
        FormSlot::TeamsForWings,
        FormSlot::NonAlignedForChairs,
        FormSlot::NonAlignedForPresidents,
        FormSlot::NonAlignedForWings,
    ]
}

/// The visibility of a form with the given name: that of the first slot from
/// the `i`-th on with the name, none where no such slot has it.
pub open spec fn visibility_from(name: Seq<char>, i: int) -> FeedbackFormVisibility
    decreases 12 - i,
{
    if i < 0 || i >= 12 {
        no_visibility()
    } else if slot_name(all_slots()[i]) == name {
        slot_visibility(all_slots()[i])
    } else {
        visibility_from(name, i + 1)
    }
}

/// The visibility of a form with the given name.
pub open spec fn visibility_of_name(name: Seq<char>) -> FeedbackFormVisibility {
    visibility_from(name, 0)
}

/// The `i`-th slot.
fn slot_at(i: usize) -> (s: FormSlot)
    requires
        i < 12,
    ensures
        s == all_slots()[i as int],
{
    match i {
        0 => FormSlot::ChairsForWings,
        1 => FormSlot::WingsForChairs,
        2 => FormSlot::WingsForPresidents,
        3 => FormSlot::WingsForWings,
        4 => FormSlot::PresidentsForChairs,
        5 => FormSlot::PresidentsForWings,
        6 => FormSlot::TeamsForChairs,
        7 => FormSlot::TeamsForPresidents,
        8 => FormSlot::TeamsForWings,
        9 => FormSlot::NonAlignedForChairs,
        10 => FormSlot::NonAlignedForPresidents,
        _ => FormSlot::NonAlignedForWings,
    }
}

/// The name of a slot.
pub fn slot_name_string(s: FormSlot) -> (r: String)
    ensures
        r@ == slot_name(s),
{
    match s {
        FormSlot::ChairsForWings => "chairs_for_wings".to_string(),
        FormSlot::WingsForChairs => "wings_for_chairs".to_string(),
        FormSlot::WingsForPresidents => "wings_for_presidents".to_string(),
        FormSlot::WingsForWings => "wings_for_wings".to_string(),
        FormSlot::PresidentsForChairs => "presidents_for_chairs".to_string(),
        FormSlot::PresidentsForWings => "presidents_for_wings".to_string(),
        FormSlot::TeamsForChairs => "teams_for_chairs".to_string(),
        FormSlot::TeamsForPresidents => "teams_for_presidents".to_string(),
        FormSlot::TeamsForWings => "teams_for_wings".to_string(),
        FormSlot::NonAlignedForChairs => "non_aligned_for_chairs".to_string(),
        FormSlot::NonAlignedForPresidents => "non_aligned_for_presidents".to_string(),
        FormSlot::NonAlignedForWings => "non_aligned_for_wings".to_string(),
    }
}

/// The visibility of a form in a slot.
fn visibility_of_slot(s: FormSlot) -> (v: FeedbackFormVisibility)
    ensures
        v == slot_visibility(s),
{
    let n = FeedbackFormVisibility::default();
    match s {
        FormSlot::ChairsForWings => FeedbackFormVisibility { show_chairs_for_wings: true, ..n },
        FormSlot::WingsForChairs => FeedbackFormVisibility { show_wings_for_chairs: true, ..n },
        FormSlot::WingsForPresidents => FeedbackFormVisibility { show_wings_for_presidents: true, ..n },
        FormSlot::WingsForWings => FeedbackFormVisibility { show_wings_for_wings: true, ..n },
        FormSlot::PresidentsForChairs => FeedbackFormVisibility { show_presidents_for_chairs: true, ..n },
        FormSlot::PresidentsForWings => FeedbackFormVisibility { show_presidents_for_wings: true, ..n },
        FormSlot::TeamsForChairs => FeedbackFormVisibility { show_teams_for_chairs: true, ..n },
        FormSlot::TeamsForPresidents => FeedbackFormVisibility { show_teams_for_presidents: true, ..n },
        FormSlot::TeamsForWings => FeedbackFormVisibility { show_teams_for_wings: true, ..n },
        FormSlot::NonAlignedForChairs => FeedbackFormVisibility { show_non_aligned_for_chairs: true, ..n },
        FormSlot::NonAlignedForPresidents => FeedbackFormVisibility { show_non_aligned_for_presidents: true, ..n },
        FormSlot::NonAlignedForWings => FeedbackFormVisibility { show_non_aligned_for_wings: true, ..n },
    }
}

/// The visibility of a form with the given name: shown for the slot of that
/// name, for no one where no slot has it.
pub fn visibility_from_key(name: &String) -> (v: FeedbackFormVisibility)
    ensures
        v == visibility_of_name(name@),
{
    let mut i: usize = 0;
    while i < 12
        invariant
            i <= 12,
            visibility_from(name@, 0) == visibility_from(name@, i as int),
        decreases 12 - i,
    {
        let s = slot_at(i);
        let sn = slot_name_string(s);
        if *name == sn {
            return visibility_of_slot(s);
        }
        i += 1;
    }
    FeedbackFormVisibility::default()
}

/// A feedback template: shared questions by key, and the form of each slot.
pub struct FormTemplate {
    pub shared_questions: Vec<(String, QuestionInfo)>,
    pub chairs_for_wings: Option<FormKeyOrInline>,
    pub wings_for_chairs: Option<FormKeyOrInline>,
    pub wings_for_presidents: Option<FormKeyOrInline>,
    pub wings_for_wings: Option<FormKeyOrInline>,
    pub presidents_for_chairs: Option<FormKeyOrInline>,
    pub presidents_for_wings: Option<FormKeyOrInline>,
    pub teams_for_chairs: Option<FormKeyOrInline>,
    pub teams_for_presidents: Option<FormKeyOrInline>,
    pub teams_for_wings: Option<FormKeyOrInline>,
    pub non_aligned_for_chairs: Option<FormKeyOrInline>,
    pub non_aligned_for_presidents: Option<FormKeyOrInline>,
    pub non_aligned_for_wings: Option<FormKeyOrInline>,
}

/// A question of a tournament's feedback system.
pub struct FeedbackQuestion {
    pub uuid: u128,
    pub short_name: String,
    pub full_name: String,
    pub description: String,
    pub question_config: QuestionType,
    pub tournament_id: Option<u128>,
}

/// A form of a tournament's feedback system: its questions by id, in order.
pub struct FeedbackForm {
    pub uuid: u128,
    pub name: String,
    pub questions: Vec<u128>,
    pub tournament_id: Option<u128>,
    pub visibility: FeedbackFormVisibility,
}

/// A range question's configuration as a mathematical value.
pub struct RangeView {
    pub min: i32,
    pub max: i32,
    pub orientation: RangeQuestionOrientation,
    pub labels: Seq<(i32, Seq<char>)>,
}

/// A question type as a mathematical value.
pub enum QuestionTypeView {
    Range(RangeView),
    Text,
    YesNo,
}

/// A question's names, type and description as mathematical values.
pub struct QuestionView {
    pub short_name: Seq<char>,
    pub full_name: Seq<char>,
    pub config: QuestionTypeView,
    pub description: Seq<char>,
}

pub open spec fn labels_view(l: Seq<(i32, String)>) -> Seq<(i32, Seq<char>)> {
    l.map_values(|p: (i32, String)| (p.0, p.1@))
}

pub open spec fn question_type_view(q: QuestionType) -> QuestionTypeView {
    match q {
        QuestionType::RangeQuestion { config } => QuestionTypeView::Range(
            RangeView { min: config.min, max: config.max, orientation: config.orientation, labels: labels_view(config.labels@) },
        ),
        QuestionType::TextQuestion => QuestionTypeView::Text,
        QuestionType::YesNoQuestion => QuestionTypeView::YesNo,
    }
}

/// The question a template question becomes; a missing description becomes empty.
pub open spec fn info_view(q: QuestionInfo) -> QuestionView {
    QuestionView {
        short_name: q.short_name@,
        full_name: q.full_name@,
        config: question_type_view(q.config),
        description: match q.description {
            Some(d) => d@,
            None => Seq::empty(),
        },
    }
}

pub open spec fn question_view(q: FeedbackQuestion) -> QuestionView {
    QuestionView {
        short_name: q.short_name@,
        full_name: q.full_name@,
        config: question_type_view(q.question_config),
        description: q.description@,
    }
}

fn copy_labels(v: &Vec<(i32, String)>) -> (r: Vec<(i32, String)>)
    ensures
        labels_view(r@) == labels_view(v@),
{
    let mut r: Vec<(i32, String)> = Vec::new();
    let mut i: usize = 0;
    while i < v.len()
        invariant
            i <= v.len(),
            labels_view(r@) == labels_view(v@.take(i as int)),
        decreases v.len() - i,
    {
        let k = v[i].0;
        let s = v[i].1.clone();
        let ghost before = r@;
        r.push((k, s));
        assert(labels_view(r@) =~= labels_view(before).push((k, s@)));
        assert(labels_view(v@.take(i + 1)) =~= labels_view(v@.take(i as int)).push((v@[i as int].0, v@[i as int].1@)));
        i += 1;
    }
    assert(v@.take(v.len() as int) =~= v@);
    r
}

fn copy_question_type(q: &QuestionType) -> (r: QuestionType)
    ensures
        question_type_view(r) == question_type_view(*q),
{
    match q {
        QuestionType::RangeQuestion { config } => QuestionType::RangeQuestion {
            config: RangeQuestionConfig {
                min: config.min,
                max: config.max,
                orientation: config.orientation,
                labels: copy_labels(&config.labels),
            },
        },
        QuestionType::TextQuestion => QuestionType::TextQuestion,
        QuestionType::YesNoQuestion => QuestionType::YesNoQuestion,
    }
}

/// The question of the tournament that a template question becomes, with a fresh id.
fn question_from(info: &QuestionInfo, tournament_uuid: u128) -> (q: FeedbackQuestion)
    ensures
        question_view(q) == info_view(*info),
        q.tournament_id == Some(tournament_uuid),
{
    let description = match &info.description {
        Some(d) => d.clone(),
        None => String::new(),
    };
    FeedbackQuestion {
        uuid: new_random_id(),
        short_name: info.short_name.clone(),
        full_name: info.full_name.clone(),
        description,
        question_config: copy_question_type(&info.config),
        tournament_id: Some(tournament_uuid),
    }
}

/// The form of a slot of the template.
pub open spec fn slot_form(t: FormTemplate, s: FormSlot) -> Option<FormKeyOrInline> {
    match s {
        FormSlot::ChairsForWings => t.chairs_for_wings,
        FormSlot::WingsForChairs => t.wings_for_chairs,
        FormSlot::WingsForPresidents => t.wings_for_presidents,
        FormSlot::WingsForWings => t.wings_for_wings,
        FormSlot::PresidentsForChairs => t.presidents_for_chairs,
        FormSlot::PresidentsForWings => t.presidents_for_wings,
        FormSlot::TeamsForChairs => t.teams_for_chairs,
        FormSlot::TeamsForPresidents => t.teams_for_presidents,
        FormSlot::TeamsForWings => t.teams_for_wings,
        FormSlot::NonAlignedForChairs => t.non_aligned_for_chairs,
        FormSlot::NonAlignedForPresidents => t.non_aligned_for_presidents,
        FormSlot::NonAlignedForWings => t.non_aligned_for_wings,
    }
}

/// The filled slots among the first `n`, in order, with their forms.
pub open spec fn forms_upto(t: FormTemplate, n: int) -> Seq<(FormSlot, FormKeyOrInline)>
    decreases n,
{
    if n <= 0 || n > 12 {
        Seq::empty()
    } else {
        let rest = forms_upto(t, n - 1);
        let s = all_slots()[n - 1];
        match slot_form(t, s) {
            Some(f) => rest.push((s, f)),
            None => rest,
        }
    }
}

/// The filled slots of the template, in order, with their forms.
pub open spec fn template_forms(t: FormTemplate) -> Seq<(FormSlot, FormKeyOrInline)> {
    forms_upto(t, 12)
}

impl FormTemplate {
    /// The form in a slot.
    fn form_in_slot(&self, s: FormSlot) -> (r: &Option<FormKeyOrInline>)
        ensures
            *r == slot_form(*self, s),
    {
        match s {
            FormSlot::ChairsForWings => &self.chairs_for_wings,
            FormSlot::WingsForChairs => &self.wings_for_chairs,
            FormSlot::WingsForPresidents => &self.wings_for_presidents,
            FormSlot::WingsForWings => &self.wings_for_wings,
            FormSlot::PresidentsForChairs => &self.presidents_for_chairs,
            FormSlot::PresidentsForWings => &self.presidents_for_wings,
            FormSlot::TeamsForChairs => &self.teams_for_chairs,
            FormSlot::TeamsForPresidents => &self.teams_for_presidents,
            FormSlot::TeamsForWings => &self.teams_for_wings,
            FormSlot::NonAlignedForChairs => &self.non_aligned_for_chairs,
            FormSlot::NonAlignedForPresidents => &self.non_aligned_for_presidents,
            FormSlot::NonAlignedForWings => &self.non_aligned_for_wings,
        }
    }

    /// The filled slots of the template, in order, with their forms.
    pub fn get_all_forms(&self) -> (out: Vec<(FormSlot, &FormKeyOrInline)>)
        ensures
            out@.len() == template_forms(*self).len(),
            forall|i: int| 0 <= i < out@.len() ==> (#[trigger] out@[i]).0 == template_forms(*self)[i].0
                && *out@[i].1 == template_forms(*self)[i].1,
    {
        let mut out: Vec<(FormSlot, &FormKeyOrInline)> = Vec::new();
        let mut i: usize = 0;
        while i < 12
            invariant
                i <= 12,
                out@.len() == forms_upto(*self, i as int).len(),
                forall|k: int| 0 <= k < out@.len() ==> (#[trigger] out@[k]).0 == forms_upto(*self, i as int)[k].0
                    && *out@[k].1 == forms_upto(*self, i as int)[k].1,
            decreases 12 - i,
        {
            let s = slot_at(i);
            match self.form_in_slot(s) {
                Some(f) => {
                    out.push((s, f));
                },
                None => {},
            }
            i += 1;
        }
        out
    }
}

/// The error type of `anyhow`, which a template conversion declares.
#[verifier::external_type_specification]
#[verifier::external_body]
pub struct ExAnyhowError(anyhow::Error);

/// The questions written out in a form's question list, in order.
pub open spec fn inline_infos(items: Seq<QuestionKeyOrInline>) -> Seq<QuestionView>
    decreases items.len(),
{
    if items.len() == 0 {
        Seq::empty()
    } else {
        let rest = inline_infos(items.drop_last());
        match items.last() {
            QuestionKeyOrInline::Inline(q) => rest.push(info_view(q)),
            QuestionKeyOrInline::Key(_) => rest,
        }
    }
}

/// The forms written out, in order, with their slots and question lists.
pub open spec fn inline_forms(fl: Seq<(FormSlot, FormKeyOrInline)>) -> Seq<(FormSlot, Seq<QuestionKeyOrInline>)>
    decreases fl.len(),
{
    if fl.len() == 0 {
        Seq::empty()
    } else {
        let rest = inline_forms(fl.drop_last());
        match fl.last().1 {
            FormKeyOrInline::Inline(f) => rest.push((fl.last().0, f.questions@)),
            FormKeyOrInline::Key(_) => rest,
        }
    }
}

/// The questions written out in the forms, form by form.
pub open spec fn forms_inline_infos(ifs: Seq<(FormSlot, Seq<QuestionKeyOrInline>)>) -> Seq<QuestionView>
    decreases ifs.len(),
{
    if ifs.len() == 0 {
        Seq::empty()
    } else {
        forms_inline_infos(ifs.drop_last()) + inline_infos(ifs.last().1)
    }
}

/// The shared questions, in order.
pub open spec fn shared_infos(shared: Seq<(String, QuestionInfo)>) -> Seq<QuestionView> {
    shared.map_values(|p: (String, QuestionInfo)| info_view(p.1))
}

/// The questions a template gives, in order: the shared ones, then those
/// written out in its forms.
pub open spec fn template_questions(t: FormTemplate) -> Seq<QuestionView> {
    shared_infos(t.shared_questions@) + forms_inline_infos(inline_forms(template_forms(t)))
}

/// The index of the last shared question with the key, -1 where there is none.
pub open spec fn last_key_index(shared: Seq<(String, QuestionInfo)>, k: Seq<char>) -> int
    decreases shared.len(),
{
    if shared.len() == 0 {
        -1
    } else if shared.last().0@ == k {
        shared.len() - 1
    } else {
        last_key_index(shared.drop_last(), k)
    }
}

/// The index, among the template's questions, of the `j`-th question of the
/// `f`-th written-out form.
pub open spec fn question_index(t: FormTemplate, f: int, j: int) -> int {
    let shared = t.shared_questions@;
    let ifs = inline_forms(template_forms(t));
    let items = ifs[f].1;
    match items[j] {
        QuestionKeyOrInline::Key(k) => last_key_index(shared, k@),
        QuestionKeyOrInline::Inline(_) => (shared.len() + forms_inline_infos(ifs.take(f)).len() + inline_infos(
            items.take(j),
        ).len()) as int,
    }
}

/// `v` widened by the visibility of every slot whose form is the key `name`.
pub open spec fn key_visibility(
    fl: Seq<(FormSlot, FormKeyOrInline)>,
    name: Seq<char>,
    v: FeedbackFormVisibility,
) -> FeedbackFormVisibility
    decreases fl.len(),
{
    if fl.len() == 0 {
        v
    } else {
        let rest = key_visibility(fl.drop_last(), name, v);
        match fl.last().1 {
            FormKeyOrInline::Key(k) => if k@ == name {
                union_spec(rest, visibility_of_name(slot_name(fl.last().0)))
            } else {
                rest
            },
            FormKeyOrInline::Inline(_) => rest,
        }
    }
}

/// The visibility of the form written out in slot `s`: its own, widened by
/// that of every slot that names it.
pub open spec fn form_visibility(t: FormTemplate, s: FormSlot) -> FeedbackFormVisibility {
    key_visibility(template_forms(t), slot_name(s), visibility_of_name(slot_name(s)))
}

/// Whether every key in the template names something: each question key a
/// shared question, each form key a slot with a written-out form.
pub open spec fn template_keys_defined(t: FormTemplate) -> bool {
    let fl = template_forms(t);
    let ifs = inline_forms(fl);
    &&& forall|f: int, j: int|
        0 <= f < ifs.len() && 0 <= j < ifs[f].1.len() && (#[trigger] ifs[f].1[j]) is Key ==> last_key_index(
            t.shared_questions@,
            ifs[f].1[j]->Key_0@,
        ) >= 0
    &&& forall|i: int|
        0 <= i < fl.len() && (#[trigger] fl[i]).1 is Key ==> exists|f: int|
            0 <= f < ifs.len() && slot_name((#[trigger] ifs[f]).0) == fl[i].1->Key_0@
}

/// Whether a form is the `f`-th written-out form of the template, its
/// question ids those of the questions at their indices.
pub open spec fn form_fits(
    t: FormTemplate,
    tournament_uuid: u128,
    form: FeedbackForm,
    f: int,
    questions: Seq<FeedbackQuestion>,
) -> bool {
    let ifs = inline_forms(template_forms(t));
    &&& form.name@ == slot_name(ifs[f].0)
    &&& form.tournament_id == Some(tournament_uuid)
    &&& form.visibility == form_visibility(t, ifs[f].0)
    &&& form.questions@.len() == ifs[f].1.len()
    &&& forall|j: int| 0 <= j < form.questions@.len() ==> #[trigger] id_matches(t, f, j, form.questions@[j], questions)
}

/// Whether `id` is that of the question at the index of the `j`-th question of
/// the `f`-th written-out form.
pub open spec fn id_matches(t: FormTemplate, f: int, j: int, id: u128, questions: Seq<FeedbackQuestion>) -> bool {
    let q = question_index(t, f, j);
    &&& 0 <= q < questions.len()
    &&& id == questions[q].uuid
}

/// Whether the forms and questions are those the template gives for the
/// tournament, each with its own id.
pub open spec fn is_template_outcome(
    t: FormTemplate,
    tournament_uuid: u128,
    forms: Seq<FeedbackForm>,
    questions: Seq<FeedbackQuestion>,
) -> bool {
    let ifs = inline_forms(template_forms(t));
    let expected = template_questions(t);
    &&& questions.len() == expected.len()
    &&& forall|q: int| 0 <= q < questions.len() ==> question_view(#[trigger] questions[q]) == expected[q]
        && questions[q].tournament_id == Some(tournament_uuid)
    &&& forms.len() == ifs.len()
    &&& forall|f: int| 0 <= f < forms.len() ==> #[trigger] form_fits(t, tournament_uuid, forms[f], f, questions)
}

proof fn lemma_form_fits_extend(
    t: FormTemplate,
    tournament_uuid: u128,
    form: FeedbackForm,
    f: int,
    qs: Seq<FeedbackQuestion>,
    qs2: Seq<FeedbackQuestion>,
)
    requires
        form_fits(t, tournament_uuid, form, f, qs),
        qs.len() <= qs2.len(),
        forall|i: int| 0 <= i < qs.len() ==> qs2[i] == qs[i],
    ensures
        form_fits(t, tournament_uuid, form, f, qs2),
{
    assert forall|j: int| 0 <= j < form.questions@.len() implies #[trigger] id_matches(
        t,
        f,
        j,
        form.questions@[j],
        qs2,
    ) by {
        assert(id_matches(t, f, j, form.questions@[j], qs));
    }
}

proof fn lemma_last_key_index_bound(shared: Seq<(String, QuestionInfo)>, k: Seq<char>)
    ensures
        last_key_index(shared, k) < shared.len(),
    decreases shared.len(),
{
    if shared.len() > 0 {
        lemma_last_key_index_bound(shared.drop_last(), k);
    }
}

proof fn lemma_inline_infos_step(items: Seq<QuestionKeyOrInline>, j: int)
    requires
        0 <= j < items.len(),
    ensures
        inline_infos(items.take(j + 1)) == match items[j] {
            QuestionKeyOrInline::Inline(q) => inline_infos(items.take(j)).push(info_view(q)),
            QuestionKeyOrInline::Key(_) => inline_infos(items.take(j)),
        },
{
    assert(items.take(j + 1).drop_last() =~= items.take(j));
}

proof fn lemma_inline_infos_prefix(items: Seq<QuestionKeyOrInline>, a: int, b: int)
    requires
        0 <= a <= b <= items.len(),
    ensures
        inline_infos(items.take(a)).len() <= inline_infos(items.take(b)).len(),
        inline_infos(items.take(b)).take(inline_infos(items.take(a)).len() as int) == inline_infos(items.take(a)),
    decreases b - a,
{
    if a < b {
        lemma_inline_infos_prefix(items, a, b - 1);
        lemma_inline_infos_step(items, b - 1);
        let x = inline_infos(items.take(a));
        let y = inline_infos(items.take(b - 1));
        assert(y.take(x.len() as int) == x);
        assert(inline_infos(items.take(b)).take(x.len() as int) =~= y.take(x.len() as int));
    } else {
        assert(inline_infos(items.take(b)).take(inline_infos(items.take(a)).len() as int) =~= inline_infos(
            items.take(a),
        ));
    }
}

proof fn lemma_inline_forms_step(fl: Seq<(FormSlot, FormKeyOrInline)>, a: int)
    requires
        0 <= a < fl.len(),
    ensures
        inline_forms(fl.take(a + 1)) == match fl[a].1 {
            FormKeyOrInline::Inline(f) => inline_forms(fl.take(a)).push((fl[a].0, f.questions@)),
            FormKeyOrInline::Key(_) => inline_forms(fl.take(a)),
        },
{
    assert(fl.take(a + 1).drop_last() =~= fl.take(a));
}

proof fn lemma_inline_forms_prefix(fl: Seq<(FormSlot, FormKeyOrInline)>, a: int, b: int)
    requires
        0 <= a <= b <= fl.len(),
    ensures
        inline_forms(fl.take(a)).len() <= inline_forms(fl.take(b)).len(),
        inline_forms(fl.take(b)).take(inline_forms(fl.take(a)).len() as int) == inline_forms(fl.take(a)),
    decreases b - a,
{
    if a < b {
        lemma_inline_forms_prefix(fl, a, b - 1);
        lemma_inline_forms_step(fl, b - 1);
        let x = inline_forms(fl.take(a));
        let y = inline_forms(fl.take(b - 1));
        assert(y.take(x.len() as int) == x);
        assert(inline_forms(fl.take(b)).take(x.len() as int) =~= y.take(x.len() as int));
    } else {
        assert(inline_forms(fl.take(b)).take(inline_forms(fl.take(a)).len() as int) =~= inline_forms(fl.take(a)));
    }
}

proof fn lemma_forms_infos_prefix(ifs: Seq<(FormSlot, Seq<QuestionKeyOrInline>)>, a: int, b: int)
    requires
        0 <= a <= b <= ifs.len(),
    ensures
        forms_inline_infos(ifs.take(a)).len() <= forms_inline_infos(ifs.take(b)).len(),
        forms_inline_infos(ifs.take(b)).take(forms_inline_infos(ifs.take(a)).len() as int) == forms_inline_infos(
            ifs.take(a),
        ),
    decreases b - a,
{
    if a < b {
        lemma_forms_infos_prefix(ifs, a, b - 1);
        assert(ifs.take(b).drop_last() =~= ifs.take(b - 1));
        let x = forms_inline_infos(ifs.take(a));
        let y = forms_inline_infos(ifs.take(b - 1));
        assert(forms_inline_infos(ifs.take(b)) == y + inline_infos(ifs[b - 1].1));
        assert(forms_inline_infos(ifs.take(b)).take(x.len() as int) =~= y.take(x.len() as int));
    } else {
        assert(forms_inline_infos(ifs.take(b)).take(forms_inline_infos(ifs.take(a)).len() as int)
            =~= forms_inline_infos(ifs.take(a)));
    }
}

/// The index of the last shared question with the key.
fn find_last_key(shared: &Vec<(String, QuestionInfo)>, k: &String) -> (r: usize)
    requires
        last_key_index(shared@, k@) >= 0,
    ensures
        r == last_key_index(shared@, k@),
{
    let mut i: usize = shared.len();
    assert(shared@.take(shared.len() as int) =~= shared@);
    while i > 0
        invariant
            i <= shared.len(),
            last_key_index(shared@, k@) == last_key_index(shared@.take(i as int), k@),
        decreases i,
    {
        assert(shared@.take(i as int).drop_last() =~= shared@.take(i - 1));
        if shared[i - 1].0 == *k {
            return i - 1;
        }
        i -= 1;
    }
    0
}

impl FormTemplate {
    /// The ids of the questions of the `f`-th written-out form, whose question
    /// list is `items`; the questions written out in it are added to `questions`.
    fn collect_form_questions(
        &self,
        items: &Vec<QuestionKeyOrInline>,
        questions: &mut Vec<FeedbackQuestion>,
        tournament_uuid: u128,
        Ghost(f): Ghost<int>,
    ) -> (ids: Vec<u128>)
        requires
            template_keys_defined(*self),
            0 <= f < inline_forms(template_forms(*self)).len(),
            inline_forms(template_forms(*self))[f].1 == items@,
            old(questions).len() == self.shared_questions.len() + forms_inline_infos(
                inline_forms(template_forms(*self)).take(f),
            ).len(),
            forall|q: int| 0 <= q < old(questions).len() ==> question_view(#[trigger] old(questions)@[q])
                == template_questions(*self)[q] && old(questions)@[q].tournament_id == Some(tournament_uuid),
        ensures
            final(questions).len() == old(questions).len() + inline_infos(items@).len(),
            forall|q: int| 0 <= q < old(questions).len() ==> #[trigger] final(questions)@[q] == old(questions)@[q],
            forall|q: int| 0 <= q < final(questions).len() ==> question_view(#[trigger] final(questions)@[q])
                == template_questions(*self)[q] && final(questions)@[q].tournament_id == Some(tournament_uuid),
            ids.len() == items.len(),
            forall|j: int| 0 <= j < ids.len() ==> #[trigger] id_matches(*self, f, j, ids@[j], final(questions)@),
    {
        let ghost ifs = inline_forms(template_forms(*self));
        let ghost expected = template_questions(*self);
        let ghost fi = forms_inline_infos(ifs.take(f));
        let ghost big = forms_inline_infos(ifs);
        let ghost pre = forms_inline_infos(ifs.take(f + 1));
        let ghost ii = inline_infos(items@);
        let ghost start = questions@;
        let ghost base = questions.len() as int;
        proof {
            assert(ifs.take(f + 1).drop_last() =~= ifs.take(f));
            assert(ifs.take(f + 1).last() == ifs[f]);
            assert(pre == fi + ii);
            lemma_forms_infos_prefix(ifs, f + 1, ifs.len() as int);
            assert(ifs.take(ifs.len() as int) =~= ifs);
            assert(items@.take(0) =~= Seq::<QuestionKeyOrInline>::empty());
            assert(items@.take(items@.len() as int) =~= items@);
            assert(expected == shared_infos(self.shared_questions@) + big);
        }
        let shared = &self.shared_questions;
        let mut ids: Vec<u128> = Vec::new();
        let mut j: usize = 0;
        while j < items.len()
            invariant
                j <= items.len(),
                *shared == self.shared_questions,
                0 <= f < ifs.len(),
                ifs == inline_forms(template_forms(*self)),
                ifs[f].1 == items@,
                expected == template_questions(*self),
                expected == shared_infos(shared@) + big,
                fi == forms_inline_infos(ifs.take(f)),
                big == forms_inline_infos(ifs),
                pre == fi + ii,
                ii == inline_infos(items@),
                pre.len() <= big.len(),
                big.take(pre.len() as int) == pre,
                base == shared.len() + fi.len(),
                template_keys_defined(*self),
                start.len() == base,
                ids.len() == j,
                questions.len() == base + inline_infos(items@.take(j as int)).len(),
                forall|q: int| 0 <= q < base ==> #[trigger] questions@[q] == start[q],
                forall|q: int| 0 <= q < questions.len() ==> question_view(#[trigger] questions@[q]) == expected[q]
                    && questions@[q].tournament_id == Some(tournament_uuid),
                forall|k: int| 0 <= k < j ==> #[trigger] id_matches(*self, f, k, ids@[k], questions@),
            decreases items.len() - j,
        {
            proof {
                lemma_inline_infos_step(items@, j as int);
                lemma_inline_infos_prefix(items@, j + 1, items@.len() as int);
                assert(items@.take(items@.len() as int) =~= items@);
            }
            let ghost old_q = questions@;
            let ghost old_ids = ids@;
            match &items[j] {
                QuestionKeyOrInline::Key(k) => {
                    proof {
                        assert(ifs[f].1[j as int] == items@[j as int]);
                        lemma_last_key_index_bound(shared@, k@);
                    }
                    let idx = find_last_key(shared, k);
                    ids.push(questions[idx].uuid);
                    proof {
                        assert(question_index(*self, f, j as int) == idx);
                        assert(id_matches(*self, f, j as int, ids@[j as int], questions@));
                    }
                },
                QuestionKeyOrInline::Inline(q) => {
                    let nq = question_from(q, tournament_uuid);
                    proof {
                        let r = inline_infos(items@.take(j as int)).len() as int;
                        assert(inline_infos(items@.take(j + 1)).len() == r + 1);
                        assert(ii[r] == info_view(*q)) by {
                            assert(inline_infos(items@.take(j + 1))[r] == info_view(*q));
                            assert(ii.take(r + 1)[r] == ii[r]);
                        }
                        assert(pre[fi.len() + r] == ii[r]);
                        assert(big.take(pre.len() as int)[fi.len() + r] == big[fi.len() + r]);
                        assert(shared_infos(shared@).len() == shared@.len());
                        assert(expected[base + r] == big[fi.len() + r]);
                        assert(question_index(*self, f, j as int) == base + r);
                    }
                    ids.push(nq.uuid);
                    questions.push(nq);
                    proof {
                        assert(id_matches(*self, f, j as int, ids@[j as int], questions@));
                    }
                },
            }
            proof {
                assert forall|k: int| 0 <= k < j + 1 implies #[trigger] id_matches(*self, f, k, ids@[k], questions@) by {
                    if k < j {
                        assert(ids@[k] == old_ids[k]);
                        assert(id_matches(*self, f, k, old_ids[k], old_q));
                        let qi = question_index(*self, f, k);
                        assert(questions@[qi] == old_q[qi]);
                    }
                }
            }
            j += 1;
        }
        ids
    }
}

/// The visibility of the form in `slot`, widened by that of every slot whose
/// form names it.
fn widened_visibility(all_forms: &Vec<(FormSlot, &FormKeyOrInline)>, slot: FormSlot, Ghost(fl): Ghost<Seq<(FormSlot, FormKeyOrInline)>>) -> (vis: FeedbackFormVisibility)
    requires
        all_forms@.len() == fl.len(),
        forall|k: int| 0 <= k < all_forms@.len() ==> (#[trigger] all_forms@[k]).0 == fl[k].0 && *all_forms@[k].1 == fl[k].1,
    ensures
        vis == key_visibility(fl, slot_name(slot), visibility_of_name(slot_name(slot))),
{
    let name = slot_name_string(slot);
    let mut vis = visibility_from_key(&name);
    let mut b: usize = 0;
    assert(fl.take(0) =~= Seq::<(FormSlot, FormKeyOrInline)>::empty());
    while b < all_forms.len()
        invariant
            b <= all_forms.len(),
            all_forms@.len() == fl.len(),
            forall|k: int| 0 <= k < all_forms@.len() ==> (#[trigger] all_forms@[k]).0 == fl[k].0 && *all_forms@[k].1 == fl[k].1,
            name@ == slot_name(slot),
            vis == key_visibility(fl.take(b as int), slot_name(slot), visibility_of_name(slot_name(slot))),
        decreases all_forms.len() - b,
    {
        assert(fl.take(b + 1).drop_last() =~= fl.take(b as int));
        assert(fl.take(b + 1).last() == fl[b as int]);
        let (other, other_form) = all_forms[b];
        match other_form {
            FormKeyOrInline::Key(k) => {
                if *k == name {
                    let other_name = slot_name_string(other);
                    let v2 = visibility_from_key(&other_name);
                    vis.union(&v2);
                }
            },
            FormKeyOrInline::Inline(_) => {},
        }
        b += 1;
    }
    assert(fl.take(fl.len() as int) =~= fl);
    vis
}

impl FormTemplate {
    /// The forms and questions of a tournament's feedback system from the
    /// template: first the shared questions, then per written-out form (in slot
    /// order) its questions written out in it; each form refers to shared
    /// questions by their last key and is shown for its own slot and for every
    /// slot that names it. Every question and form gets a fresh id.
    pub fn into_forms_and_questions_for_tournament(self, tournament_uuid: u128) -> (r: Result<
        (Vec<FeedbackForm>, Vec<FeedbackQuestion>),
        anyhow::Error,
    >)
        requires
            template_keys_defined(self),
        ensures
            r is Ok,
            r matches Ok((forms, questions)) ==> is_template_outcome(self, tournament_uuid, forms@, questions@),
    {
        let ghost fl = template_forms(self);
        let ghost ifs = inline_forms(fl);
        let ghost expected = template_questions(self);
        let shared = &self.shared_questions;
        let mut questions: Vec<FeedbackQuestion> = Vec::new();
        let mut i: usize = 0;
        while i < shared.len()
            invariant
                i <= shared.len(),
                *shared == self.shared_questions,
                questions.len() == i,
                expected == template_questions(self),
                forall|q: int| 0 <= q < questions.len() ==> question_view(#[trigger] questions@[q]) == expected[q]
                    && questions@[q].tournament_id == Some(tournament_uuid),
            decreases shared.len() - i,
        {
            let nq = question_from(&shared[i].1, tournament_uuid);
            questions.push(nq);
            i += 1;
        }
        let all_forms = self.get_all_forms();
        let mut forms: Vec<FeedbackForm> = Vec::new();
        let mut a: usize = 0;
        proof {
            assert(fl.take(0) =~= Seq::<(FormSlot, FormKeyOrInline)>::empty());
            assert(ifs.take(0) =~= Seq::<(FormSlot, Seq<QuestionKeyOrInline>)>::empty());
            assert(fl.take(fl.len() as int) =~= fl);
            lemma_inline_forms_prefix(fl, 0, fl.len() as int);
        }
        while a < all_forms.len()
            invariant
                a <= all_forms.len(),
                *shared == self.shared_questions,
                all_forms@.len() == fl.len(),
                forall|k: int| 0 <= k < all_forms@.len() ==> (#[trigger] all_forms@[k]).0 == fl[k].0
                    && *all_forms@[k].1 == fl[k].1,
                fl == template_forms(self),
                ifs == inline_forms(fl),
                expected == template_questions(self),
                template_keys_defined(self),
                forms.len() == inline_forms(fl.take(a as int)).len(),
                forms.len() <= ifs.len(),
                ifs.take(forms.len() as int) == inline_forms(fl.take(a as int)),
                questions.len() == shared.len() + forms_inline_infos(ifs.take(forms.len() as int)).len(),
                forall|q: int| 0 <= q < questions.len() ==> question_view(#[trigger] questions@[q]) == expected[q]
                    && questions@[q].tournament_id == Some(tournament_uuid),
                forall|g: int| 0 <= g < forms.len() ==> #[trigger] form_fits(self, tournament_uuid, forms@[g], g, questions@),
            decreases all_forms.len() - a,
        {
            let (slot, form) = all_forms[a];
            proof {
                lemma_inline_forms_step(fl, a as int);
                lemma_inline_forms_prefix(fl, a + 1, fl.len() as int);
                assert(fl.take(fl.len() as int) =~= fl);
            }
            match form {
                FormKeyOrInline::Inline(tf) => {
                    let ghost f = forms.len() as int;
                    let ghost old_q = questions@;
                    proof {
                        assert(ifs.take(f + 1) =~= inline_forms(fl.take(a + 1)));
                        assert(ifs[f] == (slot, tf.questions@)) by {
                            assert(ifs.take(f + 1)[f] == ifs[f]);
                        }
                    }
                    let ids = self.collect_form_questions(&tf.questions, &mut questions, tournament_uuid, Ghost(f));
                    let vis = widened_visibility(&all_forms, slot, Ghost(fl));
                    let name = slot_name_string(slot);
                    let new_form = FeedbackForm {
                        uuid: new_random_id(),
                        name,
                        questions: ids,
                        tournament_id: Some(tournament_uuid),
                        visibility: vis,
                    };
                    proof {
                        assert(form_fits(self, tournament_uuid, new_form, f, questions@));
                        assert forall|g: int| 0 <= g < f implies #[trigger] form_fits(
                            self,
                            tournament_uuid,
                            forms@[g],
                            g,
                            questions@,
                        ) by {
                            lemma_form_fits_extend(self, tournament_uuid, forms@[g], g, old_q, questions@);
                        }
                        assert(ifs.take(f + 1).drop_last() =~= ifs.take(f));
                        assert(ifs.take(f + 1).last() == ifs[f]);
                    }
                    forms.push(new_form);
                },
                FormKeyOrInline::Key(_) => {},
            }
            a += 1;
        }
        proof {
            assert(fl.take(fl.len() as int) =~= fl);
            assert(ifs.take(ifs.len() as int) =~= ifs);
        }
        Ok((forms, questions))
    }
}

} // verus!
