use serde_json::Value;
use study_engine::questions::{Bank, GlossaryEntry, Question, QuestionSource};

const TEST_BANK_JSON: &str = r#"{
    "cert": "test",
    "name": "Test Certification",
    "domains": {
        "1": "Domain One",
        "2": "Domain Two"
    },
    "glossary": [
        {
            "term": "widget",
            "aliases": ["widgets"],
            "definition": "A small reusable part.",
            "sourceUrl": "https://example.com/widget",
            "sourceTitle": "Widget docs"
        }
    ],
    "questions": [
        {
            "id": "q1",
            "domain": 1,
            "scenario": "System is configured",
            "question": "What is the primary benefit?",
            "options": {"A": "Opt A", "B": "Opt B", "C": "Opt C", "D": "Opt D"},
            "answer": "A",
            "explanation": "A solves the problem.",
            "tags": ["tag-a", "shared"],
            "glossaryExclude": ["widget"]
        },
        {
            "id": "q2",
            "domain": 1,
            "scenario": "Another scenario",
            "question": "Which approach is best?",
            "options": {"A": "Opt A", "B": "Opt B", "C": "Opt C", "D": "Opt D"},
            "answer": "B",
            "explanation": "B provides best performance.",
            "tags": ["tag-b", "shared"]
        },
        {
            "id": "q3",
            "domain": 2,
            "scenario": "Domain two context",
            "question": "How does this work?",
            "options": {"A": "Opt A", "B": "Opt B", "C": "Opt C", "D": "Opt D"},
            "answer": "C",
            "explanation": "C is the mechanism.",
            "tags": ["tag-c"]
        }
    ]
}"#;

fn text(v: &Value, key: &str) -> String {
    v[key].as_str().unwrap_or_else(|| panic!("missing {key}")).to_string()
}

fn texts(v: &Value, key: &str) -> Vec<String> {
    match v.get(key) {
        Some(Value::Array(items)) => items.iter().map(|x| x.as_str().unwrap().to_string()).collect(),
        _ => Vec::new(),
    }
}

fn table(v: &Value) -> Vec<(String, String)> {
    v.as_object()
        .unwrap()
        .iter()
        .map(|(k, x)| (k.clone(), x.as_str().unwrap().to_string()))
        .collect()
}

fn question_of(v: &Value) -> Question {
    Question {
        id: text(v, "id"),
        domain: v["domain"].as_u64().unwrap() as u32,
        scenario: text(v, "scenario"),
        question: text(v, "question"),
        options: table(&v["options"]),
        answer: text(v, "answer"),
        explanation: text(v, "explanation"),
        tags: texts(v, "tags"),
        glossary_exclude: texts(v, "glossaryExclude"),
        source: v.get("source").map(|s| QuestionSource {
            url: text(s, "url"),
            quote: text(s, "quote"),
            confidence: text(s, "confidence"),
            issues: texts(s, "issues"),
        }),
    }
}

fn glossary_of(v: &Value) -> GlossaryEntry {
    GlossaryEntry {
        term: text(v, "term"),
        aliases: texts(v, "aliases"),
        definition: text(v, "definition"),
        source_url: text(v, "sourceUrl"),
        source_title: v.get("sourceTitle").and_then(|t| t.as_str()).map(str::to_string),
    }
}

/// The bank as written in the JSON text, before validation.
fn authored(raw: &str) -> Bank {
    let v: Value = serde_json::from_str(raw).unwrap();
    Bank {
        cert: text(&v, "cert"),
        name: text(&v, "name"),
        domains: table(&v["domains"]),
        glossary: match v.get("glossary") {
            Some(Value::Array(items)) => items.iter().map(glossary_of).collect(),
            _ => Vec::new(),
        },
        questions: v["questions"].as_array().unwrap().iter().map(question_of).collect(),
    }
}

/// The bank as the engine loads it: validated, answer letters reshuffled.
fn parse(raw: &str) -> Result<Bank, String> {
    authored(raw).prepare().map_err(|e| e.message())
}

fn test_bank() -> Bank {
    authored(TEST_BANK_JSON)
}

fn option<'a>(q: &'a Question, key: &str) -> &'a str {
    q.options.iter().find(|(k, _)| k == key).map(|(_, v)| v.as_str()).unwrap()
}

#[test]
fn bank_loads_all_questions() {
    let bank = test_bank();
    assert_eq!(bank.questions.len(), 3);
    assert_eq!(bank.name, "Test Certification");
}

#[test]
fn filter_by_domain_returns_matching() {
    let bank = test_bank();
    let filtered = bank.filter(Some(1), None);
    assert_eq!(filtered.len(), 2);
    assert!(filtered.iter().all(|q| q.domain == 1));
}

#[test]
fn filter_by_domain_two_returns_one() {
    let bank = test_bank();
    let filtered = bank.filter(Some(2), None);
    assert_eq!(filtered.len(), 1);
    assert_eq!(filtered[0].id, "q3");
}

#[test]
fn filter_by_tag_returns_matching() {
    let bank = test_bank();
    let filtered = bank.filter(None, Some("shared"));
    assert_eq!(filtered.len(), 2);
    let ids: Vec<&str> = filtered.iter().map(|q| q.id.as_str()).collect();
    assert!(ids.contains(&"q1"));
    assert!(ids.contains(&"q2"));
}

#[test]
fn filter_by_domain_and_tag_combined() {
    let bank = test_bank();
    let filtered = bank.filter(Some(1), Some("tag-b"));
    assert_eq!(filtered.len(), 1);
    assert_eq!(filtered[0].id, "q2");
}

#[test]
fn filter_no_match_returns_empty() {
    let bank = test_bank();
    let filtered = bank.filter(Some(99), None);
    assert!(filtered.is_empty());
}

#[test]
fn filter_no_constraints_returns_all() {
    let bank = test_bank();
    let filtered = bank.filter(None, None);
    assert_eq!(filtered.len(), 3);
}

#[test]
fn domain_name_known_domain() {
    let bank = test_bank();
    assert_eq!(bank.domain_name(1), "Domain One");
    assert_eq!(bank.domain_name(2), "Domain Two");
}

#[test]
fn domain_name_unknown_returns_fallback() {
    let bank = test_bank();
    assert_eq!(bank.domain_name(99), "Unknown");
}

#[test]
fn parse_accepts_valid_bank() {
    let bank = parse(TEST_BANK_JSON).unwrap();
    assert_eq!(bank.questions.len(), 3);
    assert_eq!(bank.cert, "test");
}

#[test]
fn parse_rejects_empty_question_id() {
    let raw = TEST_BANK_JSON.replace(r#""id": "q1""#, r#""id": "  ""#);
    let err = parse(&raw).unwrap_err();
    assert!(err.contains("IDs cannot be empty"));
}

#[test]
fn parse_rejects_duplicate_ids() {
    let raw = TEST_BANK_JSON.replace(r#""id": "q2""#, r#""id": "q1""#);
    let err = parse(&raw).unwrap_err();
    assert!(err.contains("Duplicate question ID"));
}

#[test]
fn parse_rejects_unknown_domain() {
    let raw = TEST_BANK_JSON.replacen(r#""domain": 2"#, r#""domain": 99"#, 1);
    let err = parse(&raw).unwrap_err();
    assert!(err.contains("unknown domain"));
}

#[test]
fn parse_rejects_answer_not_in_options() {
    let raw = TEST_BANK_JSON.replace(r#""answer": "C""#, r#""answer": "Z""#);
    let err = parse(&raw).unwrap_err();
    assert!(err.contains("is not in options"));
}

#[test]
fn bank_load_duplicate_question_ids_errors() {
    let raw = TEST_BANK_JSON.replace(r#""id": "q2""#, r#""id": "q1""#);
    let err = parse(&raw).unwrap_err();
    assert!(err.contains("Duplicate question ID"));
}

#[test]
fn bank_load_answer_missing_from_options_errors() {
    let raw = TEST_BANK_JSON.replace(r#""answer": "C""#, r#""answer": "Z""#);
    let err = parse(&raw).unwrap_err();
    assert!(err.contains("is not in options"));
}

#[test]
fn bank_load_unknown_domain_errors() {
    let raw = TEST_BANK_JSON.replacen(r#""domain": 2"#, r#""domain": 99"#, 1);
    let err = parse(&raw).unwrap_err();
    assert!(err.contains("unknown domain"));
}

#[test]
fn shuffle_options_is_deterministic_across_parses() {
    let a = parse(TEST_BANK_JSON).unwrap();
    let b = parse(TEST_BANK_JSON).unwrap();
    for (qa, qb) in a.questions.iter().zip(&b.questions) {
        assert_eq!(qa.answer, qb.answer);
        assert_eq!(qa.options, qb.options);
    }
}

#[test]
fn shuffle_preserves_answer_text_and_option_set() {
    let authored = test_bank();
    let parsed = parse(TEST_BANK_JSON).unwrap();
    for (orig, shuf) in authored.questions.iter().zip(&parsed.questions) {
        assert_eq!(option(orig, &orig.answer), option(shuf, &shuf.answer));

        let mut orig_keys: Vec<_> = orig.options.iter().map(|(k, _)| k).collect();
        let mut shuf_keys: Vec<_> = shuf.options.iter().map(|(k, _)| k).collect();
        orig_keys.sort();
        shuf_keys.sort();
        assert_eq!(orig_keys, shuf_keys);

        let mut orig_vals: Vec<_> = orig.options.iter().map(|(_, v)| v).collect();
        let mut shuf_vals: Vec<_> = shuf.options.iter().map(|(_, v)| v).collect();
        orig_vals.sort();
        shuf_vals.sort();
        assert_eq!(orig_vals, shuf_vals);
    }
}

#[test]
fn shuffle_breaks_answer_letter_skew() {
    let questions: Vec<String> = (0..26)
        .map(|i| {
            format!(
                r#"{{"id": "skew-{i}", "domain": 1, "scenario": "s", "question": "q",
                    "options": {{"A": "a{i}", "B": "b{i}", "C": "c{i}", "D": "d{i}"}},
                    "answer": "B", "explanation": "e"}}"#
            )
        })
        .collect();
    let raw = format!(
        r#"{{"cert": "t", "name": "T", "domains": {{"1": "One"}}, "questions": [{}]}}"#,
        questions.join(",")
    );

    let bank = parse(&raw).unwrap();
    let on_b = bank.questions.iter().filter(|q| q.answer == "B").count();
    assert!(on_b < 26, "shuffle left every answer on B");
    for q in &bank.questions {
        assert!(option(q, &q.answer).starts_with('b'));
    }
}

#[test]
fn shuffle_single_option_question_is_noop() {
    let raw = r#"{
        "cert": "t", "name": "T",
        "domains": {"1": "One"},
        "questions": [
            {"id": "q1", "domain": 1, "scenario": "s", "question": "q",
             "options": {"A": "only"}, "answer": "A", "explanation": "e"}
        ]
    }"#;
    let bank = parse(raw).unwrap();
    assert_eq!(bank.questions[0].answer, "A");
    assert_eq!(option(&bank.questions[0], "A"), "only");
}

#[test]
fn parse_keeps_glossary_and_excludes() {
    let bank = parse(TEST_BANK_JSON).unwrap();
    assert_eq!(bank.glossary.len(), 1);
    assert_eq!(bank.glossary[0].term, "widget");
    assert_eq!(bank.glossary[0].aliases, vec!["widgets"]);
    assert_eq!(bank.glossary[0].source_title.as_deref(), Some("Widget docs"));
    assert_eq!(bank.questions[0].glossary_exclude, vec!["widget"]);
    assert!(bank.questions[1].glossary_exclude.is_empty());
}

#[test]
fn parse_bank_without_glossary_defaults_empty() {
    let raw = r#"{
        "cert": "t", "name": "T",
        "domains": {"1": "One"},
        "questions": [
            {"id": "q1", "domain": 1, "scenario": "s", "question": "q",
             "options": {"A": "a"}, "answer": "A", "explanation": "e"}
        ]
    }"#;
    let bank = parse(raw).unwrap();
    assert!(bank.glossary.is_empty());
    assert!(bank.questions[0].glossary_exclude.is_empty());
}

#[test]
fn parse_rejects_empty_glossary_term() {
    let raw = TEST_BANK_JSON.replace(r#""term": "widget""#, r#""term": "  ""#);
    let err = parse(&raw).unwrap_err();
    assert!(err.contains("Glossary terms cannot be empty"));
}

#[test]
fn parse_rejects_empty_glossary_definition() {
    let raw = TEST_BANK_JSON.replace(r#""definition": "A small reusable part.""#, r#""definition": """#);
    let err = parse(&raw).unwrap_err();
    assert!(err.contains("empty definition"));
}

#[test]
fn parse_rejects_non_http_source_url() {
    let raw = TEST_BANK_JSON.replace(
        r#""sourceUrl": "https://example.com/widget""#,
        r#""sourceUrl": "javascript:alert(1)""#,
    );
    let err = parse(&raw).unwrap_err();
    assert!(err.contains("must start with http"));
}

#[test]
fn parse_rejects_empty_glossary_alias() {
    let raw = TEST_BANK_JSON.replace(r#""aliases": ["widgets"]"#, r#""aliases": [" "]"#);
    let err = parse(&raw).unwrap_err();
    assert!(err.contains("empty alias"));
}

#[test]
fn parse_rejects_duplicate_glossary_surface() {
    let raw = TEST_BANK_JSON.replace(r#""aliases": ["widgets"]"#, r#""aliases": ["Widget"]"#);
    let err = parse(&raw).unwrap_err();
    assert!(err.contains("Duplicate glossary term or alias"));
}

#[test]
fn parse_rejects_unknown_glossary_exclude() {
    let raw = TEST_BANK_JSON.replace(
        r#""glossaryExclude": ["widget"]"#,
        r#""glossaryExclude": ["gadget"]"#,
    );
    let err = parse(&raw).unwrap_err();
    assert!(err.contains("unknown glossary term 'gadget'"));
}

#[test]
fn exclude_may_name_an_alias() {
    let raw = TEST_BANK_JSON.replace(
        r#""glossaryExclude": ["widget"]"#,
        r#""glossaryExclude": ["WIDGETS"]"#,
    );
    let bank = parse(&raw).unwrap();
    assert_eq!(bank.questions[0].glossary_exclude, vec!["WIDGETS"]);
}

#[test]
fn parse_rejects_empty_options() {
    let raw = r#"{
        "cert": "t", "name": "T",
        "domains": {"1": "One"},
        "questions": [
            {"id": "q1", "domain": 1, "scenario": "s", "question": "q",
             "options": {}, "answer": "A", "explanation": "e"}
        ]
    }"#;
    let err = parse(raw).unwrap_err();
    assert!(err.contains("at least one option"));
}

#[test]
fn validate_reports_each_rejection_with_its_full_message() {
    let dup = TEST_BANK_JSON.replace(r#""id": "q2""#, r#""id": "q1""#);
    assert_eq!(parse(&dup).unwrap_err(), "Duplicate question ID: q1");
    let dom = TEST_BANK_JSON.replacen(r#""domain": 2"#, r#""domain": 99"#, 1);
    assert_eq!(parse(&dom).unwrap_err(), "Question q3 references unknown domain 99");
    let ans = TEST_BANK_JSON.replace(r#""answer": "C""#, r#""answer": "Z""#);
    assert_eq!(parse(&ans).unwrap_err(), "Question q3 answer Z is not in options");
    let url = TEST_BANK_JSON.replace(
        r#""sourceUrl": "https://example.com/widget""#,
        r#""sourceUrl": "ftp://example.com""#,
    );
    assert_eq!(
        parse(&url).unwrap_err(),
        "Glossary term 'widget' source URL must start with http:// or https://"
    );
    let surface = TEST_BANK_JSON.replace(r#""aliases": ["widgets"]"#, r#""aliases": ["Widget"]"#);
    assert_eq!(parse(&surface).unwrap_err(), "Duplicate glossary term or alias: Widget");
}

#[test]
fn validate_accepts_the_test_bank() {
    assert!(test_bank().validate().is_ok());
}

#[test]
fn reshuffled_answer_still_names_the_authored_text() {
    let authored = test_bank();
    let mut q = authored.questions.into_iter().nth(2).unwrap();
    let before = option(&q, &q.answer).to_string();
    q.shuffle_options();
    assert_eq!(option(&q, &q.answer), before);
    let keys: Vec<&str> = q.options.iter().map(|(k, _)| k.as_str()).collect();
    assert_eq!(keys, vec!["A", "B", "C", "D"]);
}
