use study_engine::group::{
    build_group_room_state, check_participant, group_current_question, group_end, group_next,
    group_question, group_reveal, normalize_group_code, participant_key, plan_group_room,
    plan_group_vote, random_group_code, random_group_token, require_group_host,
    validate_group_answer, GroupRoomRecord,
};
use study_engine::questions::{Bank, Question};

fn question(id: &str, domain: u32, answer: &str) -> Question {
    Question {
        id: id.to_string(),
        domain,
        scenario: format!("scenario {id}"),
        question: format!("question {id}"),
        options: vec![
            ("A".to_string(), "Opt A".to_string()),
            ("B".to_string(), "Opt B".to_string()),
            ("C".to_string(), "Opt C".to_string()),
            ("D".to_string(), "Opt D".to_string()),
        ],
        answer: answer.to_string(),
        explanation: format!("explanation {id}"),
        tags: Vec::new(),
        glossary_exclude: Vec::new(),
        source: None,
    }
}

fn bank() -> Bank {
    Bank {
        cert: "test".to_string(),
        name: "Test".to_string(),
        domains: vec![("1".to_string(), "One".to_string()), ("2".to_string(), "Two".to_string())],
        glossary: Vec::new(),
        questions: vec![question("q1", 1, "A"), question("q2", 1, "B"), question("q3", 2, "C")],
    }
}

fn room(status: &str, index: usize) -> GroupRoomRecord {
    GroupRoomRecord {
        code: "ABC234".to_string(),
        host_token: "tok".to_string(),
        cert: "test".to_string(),
        card_ids_json: r#"["q2","q3","q1"]"#.to_string(),
        current_index: index,
        status: status.to_string(),
    }
}

#[test]
fn group_codes_are_normalized() {
    assert_eq!(normalize_group_code("  abc234 "), "ABC234");
}

#[test]
fn random_codes_and_tokens_use_their_alphabets() {
    let code = random_group_code();
    assert_eq!(code.chars().count(), 6);
    assert!(code.chars().all(|c| "23456789ABCDEFGHJKLMNPQRSTUVWXYZ".contains(c)));
    let token = random_group_token();
    assert_eq!(token.chars().count(), 32);
    assert!(token.chars().all(|c| c.is_ascii_alphanumeric()));
}

#[test]
fn new_room_orders_every_question_once() {
    let b = bank();
    let (ids, json) = plan_group_room(&b).unwrap();
    let mut sorted = ids.clone();
    sorted.sort();
    assert_eq!(sorted, vec!["q1", "q2", "q3"]);
    let back: Vec<String> = serde_json::from_str(&json).unwrap();
    assert_eq!(back, ids);
}

#[test]
fn empty_bank_has_no_room() {
    let mut b = bank();
    b.questions.clear();
    let e = plan_group_room(&b).unwrap_err();
    assert_eq!((e.status, e.message.as_str()), (400, "Question bank has no questions"));
}

#[test]
fn only_the_host_token_steers_a_room() {
    let r = room("voting", 0);
    assert!(require_group_host(&r, Some("tok")).is_ok());
    let e = require_group_host(&r, Some("bad")).unwrap_err();
    assert_eq!((e.status, e.message.as_str()), (403, "Invalid group host token"));
    assert!(require_group_host(&r, None).is_err());
    assert_eq!(group_reveal(&r, None).unwrap_err().status, 403);
    assert_eq!(group_next(&r, Some("x")).unwrap_err().status, 403);
    assert_eq!(group_end(&r, None).unwrap_err().status, 403);
}

#[test]
fn votes_are_validated_and_normalized() {
    let b = bank();
    let r = room("voting", 0);
    let v = plan_group_vote(&r, &b, "  p1 ", " b ").unwrap();
    assert_eq!(v.card_id, "q2");
    assert_eq!(v.participant_id, "p1");
    assert_eq!(v.answer, "B");

    let e = plan_group_vote(&r, &b, "   ", "A").unwrap_err();
    assert_eq!((e.status, e.message.as_str()), (400, "participantId is required"));
    let e = plan_group_vote(&r, &b, "p1", "E").unwrap_err();
    assert_eq!((e.status, e.message.as_str()), (400, "Answer is not valid for this question"));
    let e = plan_group_vote(&r, &b, "p1", "AB").unwrap_err();
    assert_eq!(e.message, "Answer is not valid for this question");
}

#[test]
fn votes_are_refused_unless_voting_is_open() {
    let b = bank();
    for status in ["revealed", "ended"] {
        let e = plan_group_vote(&room(status, 0), &b, "p3", "D").unwrap_err();
        assert_eq!((e.status, e.message.as_str()), (400, "Voting is closed for this question"));
    }
    let e = plan_group_vote(&room("voting", 3), &b, "p3", "D").unwrap_err();
    assert_eq!(e.message, "Group room has no current question");
    let mut broken = room("voting", 0);
    broken.card_ids_json = "not json".to_string();
    let e = plan_group_vote(&broken, &b, "p3", "D").unwrap_err();
    assert_eq!((e.status, e.message.as_str()), (500, "deserialize group room card ids"));
    let mut gone = room("voting", 0);
    gone.card_ids_json = r#"["zz"]"#.to_string();
    let e = plan_group_vote(&gone, &b, "p3", "D").unwrap_err();
    assert_eq!(e.message, "Current group question is unavailable");
}

#[test]
fn participant_ids_are_trimmed() {
    assert_eq!(check_participant(" p1 ").unwrap(), "p1");
    assert!(check_participant("  ").is_err());
    assert_eq!(participant_key(Some(" p1 ")).as_deref(), Some("p1"));
    assert_eq!(participant_key(Some("  ")), None);
    assert_eq!(participant_key(None), None);
}

#[test]
fn answer_validation_upper_cases_one_letter() {
    let q = question("q1", 1, "A");
    assert_eq!(validate_group_answer(" c ", &q).unwrap(), "C");
    assert!(validate_group_answer("Z", &q).is_err());
}

#[test]
fn reveal_then_next_then_end() {
    let r = room("voting", 0);
    let revealed = group_reveal(&r, Some("tok")).unwrap();
    assert_eq!(revealed.status, "revealed");
    assert_eq!(revealed.current_index, 0);

    let next = group_next(&revealed, Some("tok")).unwrap();
    assert_eq!(next.status, "voting");
    assert_eq!(next.current_index, 1);

    let last = group_next(&room("revealed", 2), Some("tok")).unwrap();
    assert_eq!(last.status, "ended");
    assert_eq!(last.current_index, 2);

    let e = group_reveal(&last, Some("tok")).unwrap_err();
    assert_eq!((e.status, e.message.as_str()), (400, "Group room has ended"));
    let e = group_next(&last, Some("tok")).unwrap_err();
    assert_eq!(e.message, "Group room has ended");

    let ended = group_end(&next, Some("tok")).unwrap();
    assert_eq!(ended.status, "ended");
    assert_eq!(ended.code, "ABC234");
    assert_eq!(ended.card_ids_json, next.card_ids_json);
}

#[test]
fn room_state_counts_votes_per_letter_and_hides_the_answer_until_revealed() {
    let b = bank();
    let r = room("voting", 0);
    let (ids, current) = group_current_question(&r, &b).unwrap();
    let q = current.unwrap();
    assert_eq!(q.id, "q2");
    let counts = vec![("A".to_string(), 1), ("C".to_string(), 1)];
    let s = build_group_room_state(&r, &ids, Some(q), &counts, Some("C".to_string()), false);
    assert_eq!(s.total_questions, 3);
    assert_eq!(s.total_votes, 2);
    let letters: Vec<(&str, u32)> = s.vote_counts.iter().map(|v| (v.answer.as_str(), v.count)).collect();
    assert_eq!(letters, vec![("A", 1), ("B", 0), ("C", 1), ("D", 0)]);
    assert_eq!(s.selected_answer.as_deref(), Some("C"));
    assert_eq!(s.correct_answer, None);
    assert_eq!(s.explanation, None);
    assert_eq!(s.current_question.as_ref().unwrap().id, "q2");

    let revealed = room("revealed", 0);
    let public = build_group_room_state(&revealed, &ids, Some(q), &counts, None, false);
    assert_eq!(public.correct_answer.as_deref(), Some("B"));
    assert_eq!(public.explanation, None);
    let host = build_group_room_state(&revealed, &ids, Some(q), &counts, None, true);
    assert_eq!(host.explanation.as_deref(), Some("explanation q2"));
}

#[test]
fn ended_room_shows_no_question() {
    let b = bank();
    let r = room("ended", 1);
    let (ids, current) = group_current_question(&r, &b).unwrap();
    assert_eq!(ids.len(), 3);
    assert!(current.is_none());
    let s = build_group_room_state(&r, &ids, None, &Vec::new(), None, true);
    assert!(s.current_question.is_none());
    assert!(s.vote_counts.is_empty());
    assert_eq!(s.status, "ended");
}

#[test]
fn group_question_drops_answer_and_explanation() {
    let q = question("q9", 2, "D");
    let g = group_question(&q);
    assert_eq!(g.id, "q9");
    assert_eq!(g.domain, 2);
    assert_eq!(g.options, q.options);
}

// ── study screen queries on the same bank ───────────────────────────────────

use study_engine::api::{
    card_with_q, check_review_card, find_question, reviewed_cards, search_questions, select_due,
    DueMode,
};
use study_engine::card::CardState;

#[test]
fn select_due_all_mode_returns_every_match_shuffled() {
    let b = bank();
    let sel = select_due(&b, &[], true, None, Some(1), None, 5, "2026-06-05");
    assert_eq!(sel.mode, DueMode::All);
    let mut ids: Vec<&str> = sel.questions.iter().map(|q| q.id.as_str()).collect();
    ids.sort();
    assert_eq!(ids, vec!["q1", "q2"]);
    assert_eq!((sel.due_count, sel.new_count, sel.new_remaining), (0, 2, 0));
}

#[test]
fn select_due_quiz_mode_keeps_bank_order_of_listed_ids() {
    let b = bank();
    let sel = select_due(&b, &[], false, Some("q3,q1,zz"), None, None, 5, "2026-06-05");
    assert_eq!(sel.mode, DueMode::Quiz);
    let ids: Vec<&str> = sel.questions.iter().map(|q| q.id.as_str()).collect();
    assert_eq!(ids, vec!["q1", "q3"]);
    assert_eq!(sel.new_count, 2);
}

#[test]
fn select_due_study_mode_puts_due_first_then_capped_new() {
    let b = bank();
    let cards = vec![CardState {
        id: "q3".to_string(),
        due: Some("2026-06-01".to_string()),
        ..Default::default()
    }];
    let sel = select_due(&b, &cards, false, None, None, None, 1, "2026-06-05");
    assert_eq!(sel.mode, DueMode::Study);
    let ids: Vec<&str> = sel.questions.iter().map(|q| q.id.as_str()).collect();
    assert_eq!(ids, vec!["q3", "q1"]);
    assert_eq!((sel.due_count, sel.new_count, sel.new_remaining), (1, 1, 1));
}

#[test]
fn search_matches_question_scenario_or_explanation_case_insensitively() {
    let b = bank();
    let all = b.filter(None, None);
    let hits: Vec<&str> = search_questions(all, "SCENARIO Q3").iter().map(|q| q.id.as_str()).collect();
    assert_eq!(hits, vec!["q3"]);
    let none = search_questions(b.filter(None, None), "absent");
    assert!(none.is_empty());
}

#[test]
fn reviews_of_unknown_cards_are_refused_or_dropped() {
    let b = bank();
    assert!(check_review_card(&b, "test", "q1").is_ok());
    let e = check_review_card(&b, "test", "nope").unwrap_err();
    assert_eq!((e.status, e.message.as_str()), (400, "Unknown question ID for cert test: nope"));

    let revs = vec![
        ("q2".to_string(), true, 4, Some("B".to_string())),
        ("gone".to_string(), false, 1, None),
        ("q3".to_string(), false, 1, Some("A".to_string())),
    ];
    let cards = reviewed_cards(&b, revs);
    assert_eq!(cards.len(), 2);
    assert_eq!(cards[0].card_id, "q2");
    assert_eq!(cards[0].correct_answer, "B");
    assert_eq!(cards[1].domain, 2);
    assert_eq!(cards[1].question_text, "question q3");
}

#[test]
fn card_with_q_attaches_the_stored_card() {
    let b = bank();
    let cards = vec![CardState { id: "q2".to_string(), reps: 4, ..Default::default() }];
    let q2 = find_question(&b.questions, "q2").unwrap();
    let with = card_with_q(q2, &cards);
    assert_eq!(with.question.id, "q2");
    assert_eq!(with.card_state.unwrap().reps, 4);
    let q1 = find_question(&b.questions, "q1").unwrap();
    assert!(card_with_q(q1, &cards).card_state.is_none());
}

#[test]
fn quiz_all_shuffle_keeps_every_question() {
    let b = bank();
    let all = b.filter(None, None);
    let shuffled = study_engine::session::shuffled_questions(&all);
    let mut ids: Vec<&str> = shuffled.iter().map(|q| q.id.as_str()).collect();
    ids.sort();
    assert_eq!(ids, vec!["q1", "q2", "q3"]);
}
