use mochi_lib::absorb_page;
use mochi_lib::finish_listing;
use mochi_lib::load_accents;
use mochi_lib::per_call_limit;
use mochi_lib::pitch_accent_fields;
use mochi_lib::summarize_updates;
use mochi_lib::CardField;
use mochi_lib::ListState;
use mochi_lib::ListStep;
use mochi_lib::PageEvent;
use mochi_lib::PaginatedResponse;
use mochi_lib::Template;
use mochi_lib::TemplateField;

#[test]
fn listing_collects_pages_until_an_empty_one() {
    let mut state: ListState<i32> = ListState::new();
    let step = absorb_page(
        &mut state,
        PageEvent::Page(PaginatedResponse {
            bookmark: Some("p2".to_string()),
            docs: vec![1, 2],
        }),
        None,
    );
    assert_eq!(step, ListStep::Continue);
    assert_eq!(state.bookmark, Some("p2".to_string()));
    let step = absorb_page(
        &mut state,
        PageEvent::Page(PaginatedResponse {
            bookmark: None,
            docs: vec![3],
        }),
        None,
    );
    assert_eq!(step, ListStep::Continue);
    let step = absorb_page(
        &mut state,
        PageEvent::Page(PaginatedResponse {
            bookmark: None,
            docs: vec![],
        }),
        None,
    );
    assert_eq!(step, ListStep::DoneExhausted);
    let items = finish_listing(state, false).unwrap();
    assert_eq!(items, vec![1, 2, 3]);
}

#[test]
fn listing_truncates_at_the_limit() {
    let mut state: ListState<i32> = ListState::new();
    let step = absorb_page(
        &mut state,
        PageEvent::Page(PaginatedResponse {
            bookmark: Some("p2".to_string()),
            docs: vec![1, 2, 3, 4],
        }),
        Some(3),
    );
    assert_eq!(step, ListStep::DoneLimited);
    let items = finish_listing(state, true).unwrap();
    assert_eq!(items, vec![1, 2, 3]);
}

#[test]
fn listing_failures_are_joined_line_by_line() {
    let mut state: ListState<i32> = ListState::new();
    let step = absorb_page(&mut state, PageEvent::Failure("first".to_string()), None);
    assert_eq!(step, ListStep::Continue);
    let step = absorb_page(&mut state, PageEvent::Failure("second".to_string()), None);
    assert_eq!(step, ListStep::Continue);
    let step = absorb_page(
        &mut state,
        PageEvent::Page(PaginatedResponse {
            bookmark: None,
            docs: vec![],
        }),
        None,
    );
    assert_eq!(step, ListStep::DoneExhausted);
    let err = finish_listing(state, false).unwrap_err();
    assert_eq!(err, "first\nsecond");
}

#[test]
fn per_call_limit_is_capped_at_one_hundred() {
    assert_eq!(per_call_limit(Some(10)), 10);
    assert_eq!(per_call_limit(Some(100)), 100);
    assert_eq!(per_call_limit(Some(250)), 100);
    assert_eq!(per_call_limit(None), 100);
}

#[test]
fn update_summary_reports_every_failure() {
    assert!(summarize_updates(&vec![]).is_ok());
    let errors = vec!["card A failed".to_string(), "card B failed".to_string()];
    let err = summarize_updates(&errors).unwrap_err();
    assert_eq!(err, "card A failed\ncard B failed");
}

fn sample_templates() -> Vec<Template> {
    vec![Template {
        id: "tmpl1".to_string(),
        name: "Vocabulary".to_string(),
        content: "<< Word >>".to_string(),
        fields: Some(vec![
            TemplateField {
                id: "f1".to_string(),
                name: "Word".to_string(),
                pos: "a".to_string(),
            },
            TemplateField {
                id: "f2".to_string(),
                name: "PitchAccent".to_string(),
                pos: "b".to_string(),
            },
        ]),
    }]
}

#[test]
fn pitch_accent_field_is_filled_from_the_word_field() {
    let accents = load_accents("箸\tはし\t1\n").unwrap();
    let templates = sample_templates();
    let fields = Some(vec![(
        "f1".to_string(),
        CardField {
            id: "f1".to_string(),
            value: "箸".to_string(),
        },
    )]);
    let updated = pitch_accent_fields(
        &"tmpl1".to_string(),
        &fields,
        &templates,
        &"Word".to_string(),
        &"PitchAccent".to_string(),
        &accents,
    )
    .unwrap();
    assert_eq!(updated.len(), 2);
    assert_eq!(updated[0].0, "f1");
    assert_eq!(updated[0].1.value, "箸");
    assert_eq!(updated[1].0, "f2");
    assert_eq!(updated[1].1.id, "f2");
    assert_eq!(updated[1].1.value, "<div style=\"text-align: center\"><span style=\"BORDER-TOP: #FF6633 medium solid;\">は</span><span style=\"BORDER-LEFT: #FF6633 medium solid;BORDER-BOTTOM: #FF6633 medium solid;\">し</span><span style=\"BORDER-BOTTOM: #FF6633 medium solid;\">…</span></div>");
}

#[test]
fn existing_pitch_accent_field_is_replaced() {
    let accents = load_accents("箸\tはし\t1\n").unwrap();
    let templates = sample_templates();
    let fields = Some(vec![
        (
            "f2".to_string(),
            CardField {
                id: "f2".to_string(),
                value: "old".to_string(),
            },
        ),
        (
            "f1".to_string(),
            CardField {
                id: "f1".to_string(),
                value: "箸".to_string(),
            },
        ),
    ]);
    let updated = pitch_accent_fields(
        &"tmpl1".to_string(),
        &fields,
        &templates,
        &"Word".to_string(),
        &"PitchAccent".to_string(),
        &accents,
    )
    .unwrap();
    assert_eq!(updated.len(), 2);
    assert_eq!(updated[0].0, "f2");
    assert!(updated[0].1.value.starts_with("<div style=\"text-align: center\">"));
    assert_eq!(updated[1].0, "f1");
    assert_eq!(updated[1].1.value, "箸");
}

#[test]
fn cards_without_the_pieces_stay_as_they_are() {
    let accents = load_accents("箸\tはし\t1\n").unwrap();
    let templates = sample_templates();
    let fields = Some(vec![(
        "f1".to_string(),
        CardField {
            id: "f1".to_string(),
            value: "箸".to_string(),
        },
    )]);
    // unknown template
    assert!(pitch_accent_fields(
        &"other".to_string(),
        &fields,
        &templates,
        &"Word".to_string(),
        &"PitchAccent".to_string(),
        &accents,
    )
    .is_none());
    // template has no slot of the word field's name
    assert!(pitch_accent_fields(
        &"tmpl1".to_string(),
        &fields,
        &templates,
        &"Vocab".to_string(),
        &"PitchAccent".to_string(),
        &accents,
    )
    .is_none());
    // card has no fields at all
    assert!(pitch_accent_fields(
        &"tmpl1".to_string(),
        &None,
        &templates,
        &"Word".to_string(),
        &"PitchAccent".to_string(),
        &accents,
    )
    .is_none());
    // card has fields, but none under the word slot's identifier
    assert!(pitch_accent_fields(
        &"tmpl1".to_string(),
        &Some(vec![]),
        &templates,
        &"Word".to_string(),
        &"PitchAccent".to_string(),
        &accents,
    )
    .is_none());
}
