use open_tab::feedback::{
    visibility_from_key, FeedbackFormVisibility, FormKeyOrInline, FormTemplate, QuestionInfo, QuestionKeyOrInline,
    QuestionType, RangeQuestionConfig, RangeQuestionOrientation, TemplateForm,
};

fn skill_question() -> QuestionInfo {
    QuestionInfo {
        short_name: "skill".to_string(),
        full_name: "Wie würdest du insgesamt die Kompetenz dieser JurorIn bewerten?".to_string(),
        config: QuestionType::RangeQuestion {
            config: RangeQuestionConfig {
                min: 0,
                max: 100,
                orientation: RangeQuestionOrientation::HighIsGood,
                labels: vec![(0, "Sehr schlecht".to_string()), (100, "Sehr gut".to_string())],
            },
        },
        description: None,
    }
}

fn empty_template() -> FormTemplate {
    FormTemplate {
        shared_questions: vec![],
        chairs_for_wings: None,
        wings_for_chairs: None,
        wings_for_presidents: None,
        wings_for_wings: None,
        presidents_for_chairs: None,
        presidents_for_wings: None,
        teams_for_chairs: None,
        teams_for_presidents: None,
        teams_for_wings: None,
        non_aligned_for_chairs: None,
        non_aligned_for_presidents: None,
        non_aligned_for_wings: None,
    }
}

#[test]
fn test_parse_template() {
    let mut template = empty_template();
    template.shared_questions = vec![("skill".to_string(), skill_question())];
    template.chairs_for_wings = Some(FormKeyOrInline::Inline(TemplateForm {
        questions: vec![QuestionKeyOrInline::Key("skill".to_string())],
    }));

    let (forms, questions) = template.into_forms_and_questions_for_tournament(42).unwrap();

    assert_eq!(questions.len(), 1);
    assert_eq!(forms.len(), 1);

    assert_eq!(forms[0].questions, vec![questions[0].uuid]);
}

#[test]
fn test_parse_template_with_inline_question() {
    let mut template = empty_template();
    template.chairs_for_wings = Some(FormKeyOrInline::Inline(TemplateForm {
        questions: vec![QuestionKeyOrInline::Inline(skill_question())],
    }));

    let (forms, questions) = template.into_forms_and_questions_for_tournament(42).unwrap();

    assert_eq!(questions.len(), 1);
    assert_eq!(forms.len(), 1);

    assert_eq!(forms[0].questions, vec![questions[0].uuid]);
}

#[test]
fn test_parse_template_with_multi_visiblity() {
    let mut template = empty_template();
    template.shared_questions = vec![("skill".to_string(), skill_question())];
    template.chairs_for_wings = Some(FormKeyOrInline::Inline(TemplateForm {
        questions: vec![QuestionKeyOrInline::Key("skill".to_string())],
    }));
    template.wings_for_chairs = Some(FormKeyOrInline::Key("chairs_for_wings".to_string()));

    let (forms, _questions) = template.into_forms_and_questions_for_tournament(42).unwrap();
    assert_eq!(forms.len(), 1);
    assert_eq!(
        forms[0].visibility,
        FeedbackFormVisibility { show_chairs_for_wings: true, show_wings_for_chairs: true, ..Default::default() }
    );
}

#[test]
fn template_questions_keep_their_content_and_order() {
    let mut template = empty_template();
    template.shared_questions = vec![("skill".to_string(), skill_question())];
    let comments = QuestionInfo {
        short_name: "comments".to_string(),
        full_name: "Kommentare".to_string(),
        config: QuestionType::TextQuestion,
        description: Some("Alles weitere".to_string()),
    };
    let chair = QuestionInfo {
        short_name: "chair".to_string(),
        full_name: "War diese Person Chair?".to_string(),
        config: QuestionType::YesNoQuestion,
        description: None,
    };
    template.teams_for_chairs = Some(FormKeyOrInline::Inline(TemplateForm {
        questions: vec![
            QuestionKeyOrInline::Inline(comments),
            QuestionKeyOrInline::Key("skill".to_string()),
            QuestionKeyOrInline::Inline(chair),
        ],
    }));
    let (forms, questions) = template.into_forms_and_questions_for_tournament(7).unwrap();
    assert_eq!(questions.len(), 3);
    assert_eq!(questions[0].short_name, "skill");
    assert_eq!(questions[1].short_name, "comments");
    assert_eq!(questions[1].description, "Alles weitere");
    assert_eq!(questions[2].short_name, "chair");
    assert_eq!(questions[2].description, "");
    assert!(questions.iter().all(|q| q.tournament_id == Some(7)));
    assert_eq!(forms.len(), 1);
    assert_eq!(forms[0].name, "teams_for_chairs");
    assert_eq!(forms[0].questions, vec![questions[1].uuid, questions[0].uuid, questions[2].uuid]);
    assert_eq!(forms[0].tournament_id, Some(7));
    match &questions[0].question_config {
        QuestionType::RangeQuestion { config } => {
            assert_eq!(config.min, 0);
            assert_eq!(config.max, 100);
            assert_eq!(config.labels, vec![(0, "Sehr schlecht".to_string()), (100, "Sehr gut".to_string())]);
        },
        _ => panic!("the shared question is a range question"),
    }
}

#[test]
fn a_later_shared_question_wins_for_its_key() {
    let mut template = empty_template();
    let mut second = skill_question();
    second.full_name = "Second".to_string();
    template.shared_questions = vec![("skill".to_string(), skill_question()), ("skill".to_string(), second)];
    template.wings_for_wings = Some(FormKeyOrInline::Inline(TemplateForm {
        questions: vec![QuestionKeyOrInline::Key("skill".to_string())],
    }));
    let (forms, questions) = template.into_forms_and_questions_for_tournament(1).unwrap();
    assert_eq!(questions.len(), 2);
    assert_eq!(forms[0].questions, vec![questions[1].uuid]);
}

#[test]
fn forms_come_in_slot_order() {
    let mut template = empty_template();
    template.non_aligned_for_wings = Some(FormKeyOrInline::Inline(TemplateForm { questions: vec![] }));
    template.chairs_for_wings = Some(FormKeyOrInline::Inline(TemplateForm { questions: vec![] }));
    let (forms, questions) = template.into_forms_and_questions_for_tournament(1).unwrap();
    assert!(questions.is_empty());
    assert_eq!(forms.len(), 2);
    assert_eq!(forms[0].name, "chairs_for_wings");
    assert_eq!(forms[1].name, "non_aligned_for_wings");
    assert_eq!(forms[1].visibility, FeedbackFormVisibility { show_non_aligned_for_wings: true, ..Default::default() });
}

#[test]
fn visibility_of_names() {
    assert_eq!(
        visibility_from_key(&"teams_for_presidents".to_string()),
        FeedbackFormVisibility { show_teams_for_presidents: true, ..Default::default() }
    );
    assert_eq!(visibility_from_key(&"nobody".to_string()), FeedbackFormVisibility::default());
    let mut v = FeedbackFormVisibility { show_wings_for_wings: true, ..Default::default() };
    v.union(&FeedbackFormVisibility { show_presidents_for_chairs: true, ..Default::default() });
    assert_eq!(
        v,
        FeedbackFormVisibility { show_wings_for_wings: true, show_presidents_for_chairs: true, ..Default::default() }
    );
}
