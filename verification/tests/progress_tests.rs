use serde_json::Value;
use study_engine::card::CardState;
use study_engine::progress::{accuracy, session_progress, summarize_progress};
use study_engine::questions::{Bank, GlossaryEntry, Question, QuestionSource};
use study_engine::study_plan::{interleave_by_domain, plan_study_session};

const TEST_BANK_JSON: &str = r#"{
    "cert": "test",
    "name": "Test Certification",
    "domains": {
        "1": "Domain One",
        "2": "Domain Two"
    },
    "glossary": [
        {
            "term": "widget",
            "aliases": ["widgets"],
            "definition": "A small reusable part.",
            "sourceUrl": "https://example.com/widget",
            "sourceTitle": "Widget docs"
        }
    ],
    "questions": [
        {
            "id": "q1",
            "domain": 1,
            "scenario": "System is configured",
            "question": "What is the primary benefit?",
            "options": {"A": "Opt A", "B": "Opt B", "C": "Opt C", "D": "Opt D"},
            "answer": "A",
            "explanation": "A solves the problem.",
            "tags": ["tag-a", "shared"],
            "glossaryExclude": ["widget"]
        },
        {
            "id": "q2",
            "domain": 1,
            "scenario": "Another scenario",
            "question": "Which approach is best?",
            "options": {"A": "Opt A", "B": "Opt B", "C": "Opt C", "D": "Opt D"},
            "answer": "B",
            "explanation": "B provides best performance.",
            "tags": ["tag-b", "shared"]
        },
        {
            "id": "q3",
            "domain": 2,
            "scenario": "Domain two context",
            "question": "How does this work?",
            "options": {"A": "Opt A", "B": "Opt B", "C": "Opt C", "D": "Opt D"},
            "answer": "C",
            "explanation": "C is the mechanism.",
            "tags": ["tag-c"]
        }
    ]
}"#;

fn text(v: &Value, key: &str) -> String {
    v[key].as_str().unwrap_or_else(|| panic!("missing {key}")).to_string()
}

fn texts(v: &Value, key: &str) -> Vec<String> {
    match v.get(key) {
        Some(Value::Array(items)) => items.iter().map(|x| x.as_str().unwrap().to_string()).collect(),
        _ => Vec::new(),
    }
}

fn table(v: &Value) -> Vec<(String, String)> {
    v.as_object()
        .unwrap()
        .iter()
        .map(|(k, x)| (k.clone(), x.as_str().unwrap().to_string()))
        .collect()
}

fn question_of(v: &Value) -> Question {
    Question {
        id: text(v, "id"),
        domain: v["domain"].as_u64().unwrap() as u32,
        scenario: text(v, "scenario"),
        question: text(v, "question"),
        options: table(&v["options"]),
        answer: text(v, "answer"),
        explanation: text(v, "explanation"),
        tags: texts(v, "tags"),
        glossary_exclude: texts(v, "glossaryExclude"),
        source: v.get("source").map(|s| QuestionSource {
            url: text(s, "url"),
            quote: text(s, "quote"),
            confidence: text(s, "confidence"),
            issues: texts(s, "issues"),
        }),
    }
}

fn glossary_of(v: &Value) -> GlossaryEntry {
    GlossaryEntry {
        term: text(v, "term"),
        aliases: texts(v, "aliases"),
        definition: text(v, "definition"),
        source_url: text(v, "sourceUrl"),
        source_title: v.get("sourceTitle").and_then(|t| t.as_str()).map(str::to_string),
    }
}

/// The bank as written in the JSON text, before validation.
fn authored(raw: &str) -> Bank {
    let v: Value = serde_json::from_str(raw).unwrap();
    Bank {
        cert: text(&v, "cert"),
        name: text(&v, "name"),
        domains: table(&v["domains"]),
        glossary: match v.get("glossary") {
            Some(Value::Array(items)) => items.iter().map(glossary_of).collect(),
            _ => Vec::new(),
        },
        questions: v["questions"].as_array().unwrap().iter().map(question_of).collect(),
    }
}

fn test_bank() -> Bank {
    authored(TEST_BANK_JSON)
}


fn card(id: &str, due: Option<&str>, reps: u32) -> CardState {
    CardState {
        id: id.to_string(),
        cert: "test".to_string(),
        due: due.map(str::to_string),
        reps,
        ..Default::default()
    }
}

#[test]
fn progress_accuracy_zero_total_returns_zero() {
    assert_eq!(accuracy(0, 0), 0);
    assert_eq!(accuracy(5, 0), 0);
}

#[test]
fn summarize_progress_computes_cards_domains_tags_and_sessions() {
    let bank = test_bank();
    let questions = bank.filter(None, None);
    let cards = vec![
        card("q1", Some("2026-06-04"), 3),
        card("q2", Some("2999-01-01"), 1),
    ];
    let reviews = vec![
        ("q1".to_string(), true, 4),
        ("q1".to_string(), true, 4),
        ("q2".to_string(), false, 1),
    ];
    let sessions = vec![("2026-06-05".to_string(), 3, 2)];

    let summary = summarize_progress(&bank, &questions, &cards, &reviews, &sessions, "2026-06-05");

    assert_eq!(summary.total, 3);
    assert_eq!(summary.introduced, 2);
    assert_eq!(summary.new_available, 1);
    assert_eq!(summary.due_today, 1);
    assert_eq!(summary.next_due.as_deref(), Some("2026-06-05"));
    assert_eq!(summary.mastered, 1);
    assert_eq!(summary.domains[0].review_correct, 2);
    assert_eq!(summary.domains[0].review_total, 3);
    assert_eq!(summary.domains[0].accuracy, 66);
    assert_eq!(summary.tags.len(), 3);
    assert_eq!(summary.tags[0].tag, "tag-b");
    assert_eq!(summary.tags[0].accuracy, 0);
    assert_eq!(summary.tags[1].tag, "shared");
    assert_eq!(summary.tags[1].accuracy, 66);
    assert_eq!(summary.sessions[0].accuracy, 66);
}

#[test]
fn summarize_progress_reports_earliest_future_due_when_nothing_due_today() {
    let bank = test_bank();
    let questions = bank.filter(None, None);
    let cards = vec![
        card("q1", Some("2026-06-12"), 1),
        card("q2", Some("2026-06-08"), 1),
    ];

    let summary = summarize_progress(&bank, &questions, &cards, &[], &[], "2026-06-05");

    assert_eq!(summary.due_today, 0);
    assert_eq!(summary.next_due.as_deref(), Some("2026-06-08"));
}

#[test]
fn summarize_progress_has_no_next_due_without_scheduled_cards() {
    let bank = test_bank();
    let questions = bank.filter(None, None);

    let summary = summarize_progress(&bank, &questions, &[], &[], &[], "2026-06-05");

    assert_eq!(summary.next_due, None);
}

#[test]
fn summarize_progress_domain_rows_follow_numeric_domain_order() {
    let bank = test_bank();
    let questions = bank.filter(None, None);
    let summary = summarize_progress(&bank, &questions, &[], &[], &[], "2026-06-05");
    let ids: Vec<u32> = summary.domains.iter().map(|d| d.id).collect();
    assert_eq!(ids, vec![1, 2]);
    assert_eq!(summary.domains[0].name, "Domain One");
    assert_eq!(summary.domains[0].total, 2);
    assert_eq!(summary.domains[1].total, 1);
    assert!(summary.tags.is_empty());
}

#[test]
fn session_progress_reports_rounded_down_accuracy() {
    let s = session_progress("2026-06-05".to_string(), 3, 2);
    assert_eq!(s.accuracy, 66);
    assert_eq!(s.date, "2026-06-05");
    let empty = session_progress("2026-06-06".to_string(), 0, 0);
    assert_eq!(empty.accuracy, 0);
}

#[test]
fn interleave_by_domain_round_robins_grouped_questions() {
    let bank = test_bank();
    let questions: Vec<&Question> = bank.questions.iter().collect();

    let ids: Vec<&str> = interleave_by_domain(&questions).iter().map(|q| q.id.as_str()).collect();

    assert_eq!(ids, vec!["q1", "q3", "q2"]);
}

#[test]
fn interleave_keeps_every_question_once() {
    let bank = test_bank();
    let questions: Vec<&Question> = bank.questions.iter().rev().collect();
    let mut ids: Vec<&str> = interleave_by_domain(&questions).iter().map(|q| q.id.as_str()).collect();
    assert_eq!(ids, vec!["q2", "q3", "q1"]);
    ids.sort();
    assert_eq!(ids, vec!["q1", "q2", "q3"]);
}

#[test]
fn plan_study_session_returns_due_then_capped_new_cards() {
    let bank = test_bank();
    let questions = bank.filter(None, None);
    let cards = vec![
        card("q1", Some("2026-06-04"), 1),
        card("q2", None, 0),
        card("q3", Some("2999-01-01"), 1),
    ];

    let plan = plan_study_session(&questions, &cards, "2026-06-05", 1);

    let session_ids: Vec<&str> = plan.session.iter().map(|q| q.id.as_str()).collect();
    assert_eq!(session_ids, vec!["q1", "q2"]);
    assert_eq!(plan.due.len(), 1);
    assert_eq!(plan.new.len(), 1);
    assert_eq!(plan.new_remaining, 0);
}

#[test]
fn plan_study_session_counts_remaining_new_cards() {
    let bank = test_bank();
    let questions = bank.filter(None, None);

    let plan = plan_study_session(&questions, &[], "2026-06-05", 2);

    assert_eq!(plan.due.len(), 0);
    assert_eq!(plan.new.len(), 3);
    assert_eq!(plan.session.len(), 2);
    assert_eq!(plan.new_remaining, 1);
}

#[test]
fn plan_study_session_uses_the_last_stored_card_of_an_id() {
    let bank = test_bank();
    let questions = bank.filter(None, None);
    let cards = vec![card("q3", None, 0), card("q3", Some("2026-06-01"), 2)];
    let plan = plan_study_session(&questions, &cards, "2026-06-05", 0);
    let due: Vec<&str> = plan.due.iter().map(|q| q.id.as_str()).collect();
    assert_eq!(due, vec!["q3"]);
    assert!(plan.session.iter().all(|q| q.id == "q3"));
    assert_eq!(plan.new_remaining, 2);
}

#[test]
fn plan_and_dashboard_agree_on_due_and_new_counts() {
    let bank = test_bank();
    let questions = bank.filter(None, None);
    let cards = vec![
        card("q1", Some("2026-06-04"), 3),
        card("q2", Some("2999-01-01"), 1),
    ];
    let plan = plan_study_session(&questions, &cards, "2026-06-05", 5);
    let summary = summarize_progress(&bank, &questions, &cards, &[], &[], "2026-06-05");
    assert_eq!(plan.due.len() as u32, summary.due_today);
    assert_eq!(plan.new.len() as u32, summary.total - summary.introduced);
    assert_eq!(plan.new.len() as u32, summary.new_available);
}

#[test]
fn empty_sessions_report_zero_accuracy() {
    let bank = test_bank();
    let questions = bank.filter(None, None);
    let sessions = vec![("2026-06-05".to_string(), 0, u32::MAX)];
    let summary = summarize_progress(&bank, &questions, &[], &[], &sessions, "2026-06-05");
    assert_eq!(summary.sessions[0].accuracy, 0);
    assert_eq!(session_progress("d".to_string(), 0, u32::MAX).accuracy, 0);
}
