use chrono::{Datelike, NaiveDate};
use study_engine::api::{
    access_allowed, check_session_counts, extract_user_key, join_url, parse_card_ids,
    sanitize_cert_name, session_item, split_at_commas, validate_review_rating, verify_access_code,
};
use study_engine::banks::{bank_file_name, bank_stem, cert_names, check_delete, check_upload, sort_texts};
use study_engine::card::CardState;
use study_engine::progress::{accuracy, find_card};
use study_engine::session::{
    apply_review, ask_rating, fsrs_grade, rating_for_reply, read_answer_reply, AnswerReply,
    FsrsGrade, ScheduledReview,
};
use study_engine::stats::{bar, mastery_label, GRN, RED, RST, YLW};

fn day(y: i32, m: u32, d: u32) -> i32 {
    NaiveDate::from_ymd_opt(y, m, d).unwrap().num_days_from_ce()
}

fn seen_card() -> CardState {
    CardState {
        id: "seen-card".to_string(),
        cert: "test".to_string(),
        stability: Some(2.0f32.to_bits()),
        difficulty: Some(5.0f32.to_bits()),
        due: Some("2026-06-03".to_string()),
        last_review: Some("2026-06-03T12:00:00".to_string()),
        reps: 2,
    }
}

// ── cards ───────────────────────────────────────────────────────────────────

#[test]
fn new_card_is_new_and_not_due() {
    let card = CardState::default();
    assert!(card.is_new());
    assert!(!card.is_due_on("2026-06-05"));
}

#[test]
fn card_with_past_due_is_due() {
    let card = CardState { due: Some("2020-01-01".to_string()), ..Default::default() };
    assert!(!card.is_new());
    assert!(card.is_due_on("2026-06-05"));
}

#[test]
fn card_with_future_due_is_not_due() {
    let card = CardState { due: Some("2099-12-31".to_string()), ..Default::default() };
    assert!(!card.is_new());
    assert!(!card.is_due_on("2026-06-05"));
}

#[test]
fn card_due_today_is_due() {
    let card = CardState { due: Some("2026-06-05".to_string()), ..Default::default() };
    assert!(card.is_due_on("2026-06-05"));
}

#[test]
fn days_since_review_no_review_is_zero() {
    assert_eq!(CardState::default().days_since_review(day(2026, 6, 5)), 0);
}

#[test]
fn days_since_review_counts_elapsed_days() {
    let card = CardState { last_review: Some("2026-06-01T12:00:00".to_string()), ..Default::default() };
    assert_eq!(card.days_since_review(day(2026, 6, 5)), 4);
}

#[test]
fn days_since_review_today_is_zero() {
    let card = CardState { last_review: Some("2026-06-05T08:00:00".to_string()), ..Default::default() };
    assert_eq!(card.days_since_review(day(2026, 6, 5)), 0);
}

#[test]
fn days_since_review_future_review_clamps_to_zero() {
    let card = CardState { last_review: Some("2026-06-10T08:00:00".to_string()), ..Default::default() };
    assert_eq!(card.days_since_review(day(2026, 6, 5)), 0);
}

#[test]
fn days_since_review_short_date_is_zero() {
    let card = CardState { last_review: Some("bad".to_string()), ..Default::default() };
    assert_eq!(card.days_since_review(day(2026, 6, 5)), 0);
}

#[test]
fn days_since_review_invalid_date_is_zero() {
    let card = CardState { last_review: Some("not-a-dateT12:00:00".to_string()), ..Default::default() };
    assert_eq!(card.days_since_review(day(2026, 6, 5)), 0);
}

#[test]
fn days_since_review_spans_a_year_boundary() {
    let card = CardState { last_review: Some("2025-12-30T23:59:59".to_string()), ..Default::default() };
    assert_eq!(card.days_since_review(day(2026, 1, 2)), 3);
}

#[test]
fn card_clone_keeps_every_field() {
    let card = seen_card();
    let copy = card.clone();
    assert_eq!(copy.id, card.id);
    assert_eq!(copy.stability, card.stability);
    assert_eq!(copy.last_review, card.last_review);
    assert_eq!(copy.reps, card.reps);
}

#[test]
fn card_map_from_indexes_by_id() {
    let cards = vec![
        CardState { id: "a".to_string(), ..Default::default() },
        CardState { id: "b".to_string(), ..Default::default() },
    ];
    assert!(find_card(&cards, "a").is_some());
    assert!(find_card(&cards, "b").is_some());
    assert!(find_card(&cards, "c").is_none());
}

#[test]
fn find_card_prefers_the_last_entry_of_an_id() {
    let cards = vec![
        CardState { id: "a".to_string(), reps: 1, ..Default::default() },
        CardState { id: "a".to_string(), reps: 7, ..Default::default() },
    ];
    assert_eq!(find_card(&cards, "a").unwrap().reps, 7);
}

// ── accuracy and sessions ───────────────────────────────────────────────────

#[test]
fn serve_accuracy_zero_total_returns_zero() {
    assert_eq!(accuracy(0, 0), 0);
    assert_eq!(accuracy(5, 0), 0);
}

#[test]
fn accuracy_full_correct() {
    assert_eq!(accuracy(10, 10), 100);
}

#[test]
fn accuracy_partial() {
    assert_eq!(accuracy(7, 10), 70);
}

#[test]
fn accuracy_rounds_down() {
    assert_eq!(accuracy(1, 3), 33);
}

#[test]
fn session_item_computes_accuracy() {
    let item = session_item("2026-06-04".to_string(), 10, 8);
    assert_eq!(item.accuracy, 80);
    assert_eq!(item.total, 10);
    assert_eq!(item.correct, 8);
}

#[test]
fn session_item_zero_total_accuracy_is_zero() {
    let item = session_item("2026-06-04".to_string(), 0, 0);
    assert_eq!(item.accuracy, 0);
}

// ── reviews ─────────────────────────────────────────────────────────────────

#[test]
fn unsupported_rating_errors() {
    let err = fsrs_grade(2).unwrap_err();
    assert!(err.contains("Unsupported FSRS rating"));
    assert_eq!(err, "Unsupported FSRS rating: 2");
}

#[test]
fn fsrs_grade_maps_the_three_ratings() {
    assert_eq!(fsrs_grade(1), Ok(FsrsGrade::Again));
    assert_eq!(fsrs_grade(3), Ok(FsrsGrade::Good));
    assert_eq!(fsrs_grade(4), Ok(FsrsGrade::Easy));
    assert_eq!(fsrs_grade(0).unwrap_err(), "Unsupported FSRS rating: 0");
    assert_eq!(fsrs_grade(42).unwrap_err(), "Unsupported FSRS rating: 42");
}

#[test]
fn apply_review_increments_reps_for_correct_answers() {
    let card = CardState { reps: 2, ..seen_card() };

    let next = apply_review(
        &card,
        ScheduledReview { stability: 3.0f32.to_bits(), difficulty: 4.0f32.to_bits(), due: "2026-06-10".to_string() },
        "2026-06-05T13:00:00".to_string(),
        true,
    );

    assert_eq!(next.id, card.id);
    assert_eq!(next.cert, card.cert);
    assert_eq!(next.stability, Some(3.0f32.to_bits()));
    assert_eq!(next.difficulty, Some(4.0f32.to_bits()));
    assert_eq!(next.due.as_deref(), Some("2026-06-10"));
    assert_eq!(next.last_review.as_deref(), Some("2026-06-05T13:00:00"));
    assert_eq!(next.reps, 3);
}

#[test]
fn apply_review_resets_reps_for_incorrect_answers() {
    let next = apply_review(
        &seen_card(),
        ScheduledReview { stability: 1.0f32.to_bits(), difficulty: 8.0f32.to_bits(), due: "2026-06-06".to_string() },
        "2026-06-05T13:00:00".to_string(),
        false,
    );

    assert_eq!(next.reps, 0);
}

#[test]
fn apply_review_saturates_reps() {
    let card = CardState { reps: u32::MAX, ..seen_card() };
    let next = apply_review(
        &card,
        ScheduledReview { stability: 0, difficulty: 0, due: "2026-06-06".to_string() },
        "2026-06-05T13:00:00".to_string(),
        true,
    );
    assert_eq!(next.reps, u32::MAX);
}

#[test]
fn confidence_replies_pick_easy_or_good() {
    assert_eq!(rating_for_reply("c"), Some(4));
    assert_eq!(rating_for_reply("Confident"), Some(4));
    assert_eq!(rating_for_reply(""), Some(4));
    assert_eq!(rating_for_reply("U"), Some(3));
    assert_eq!(rating_for_reply("unsure"), Some(3));
    assert_eq!(rating_for_reply("maybe"), None);
}

#[test]
fn wrong_answers_are_rated_again_without_asking() {
    assert_eq!(ask_rating(false, "confident"), Some(1));
    assert_eq!(ask_rating(true, "confident"), Some(4));
    assert_eq!(ask_rating(true, "x"), None);
}

#[test]
fn answer_replies_quit_answer_or_repeat() {
    assert_eq!(read_answer_reply(None), AnswerReply::Quit);
    assert_eq!(read_answer_reply(Some("q")), AnswerReply::Quit);
    assert_eq!(read_answer_reply(Some("b")), AnswerReply::Answer("B".to_string()));
    assert_eq!(read_answer_reply(Some("D")), AnswerReply::Answer("D".to_string()));
    assert_eq!(read_answer_reply(Some("E")), AnswerReply::Again);
    assert_eq!(read_answer_reply(Some("AB")), AnswerReply::Again);
}

#[test]
fn validate_review_rating_matches_correctness() {
    assert!(validate_review_rating(true, 3).is_ok());
    assert!(validate_review_rating(true, 4).is_ok());
    assert!(validate_review_rating(false, 1).is_ok());
    let e = validate_review_rating(true, 1).unwrap_err();
    assert_eq!(e.status, 400);
    assert_eq!(e.message, "Correct reviews must use rating 3 (Good) or 4 (Easy)");
    let e = validate_review_rating(false, 3).unwrap_err();
    assert_eq!(e.message, "Incorrect reviews must use rating 1 (Again)");
}

#[test]
fn session_counts_cannot_exceed_total() {
    assert!(check_session_counts(4, 4).is_ok());
    let e = check_session_counts(3, 4).unwrap_err();
    assert_eq!(e.status, 400);
    assert_eq!(e.message, "Session correct count cannot exceed total");
}

// ── requests ────────────────────────────────────────────────────────────────

#[test]
fn user_key_is_trimmed_lowercase_or_anonymous() {
    assert_eq!(extract_user_key(Some("  Alice ")), "alice");
    assert_eq!(extract_user_key(Some("   ")), "anonymous");
    assert_eq!(extract_user_key(None), "anonymous");
}

#[test]
fn cert_names_must_be_plain_slugs() {
    assert_eq!(sanitize_cert_name("  my-bank_2 ").unwrap(), "my-bank_2");
    let e = sanitize_cert_name("   ").unwrap_err();
    assert_eq!((e.status, e.message.as_str()), (400, "Bank name cannot be empty"));
    let e = sanitize_cert_name("../etc").unwrap_err();
    assert_eq!(e.message, "Bank name may only contain letters, numbers, hyphens, and underscores");
}

#[test]
fn ids_split_at_every_comma() {
    assert_eq!(split_at_commas("q1,q2"), vec!["q1", "q2"]);
    assert_eq!(split_at_commas(""), vec![""]);
    assert_eq!(split_at_commas("a,,b,"), vec!["a", "", "b", ""]);
}

#[test]
fn card_ids_parse_from_json_or_fail_with_the_context() {
    assert_eq!(parse_card_ids(r#"["q1","q3"]"#, "ctx").unwrap(), vec!["q1", "q3"]);
    let e = parse_card_ids("{not json", "deserialize card_ids").unwrap_err();
    assert_eq!((e.status, e.message.as_str()), (500, "deserialize card_ids"));
}

#[test]
fn access_code_gates_requests_only_when_configured() {
    assert!(access_allowed(None, None));
    assert!(access_allowed(Some("s3cret"), Some("s3cret")));
    assert!(!access_allowed(Some("s3cret"), Some("nope")));
    assert!(!access_allowed(Some("s3cret"), None));
    assert!(verify_access_code(None, "anything").is_ok());
    assert!(verify_access_code(Some("s3cret"), "s3cret").is_ok());
    let e = verify_access_code(Some("s3cret"), "x").unwrap_err();
    assert_eq!((e.status, e.message.as_str()), (401, "invalid access code"));
}

#[test]
fn join_url_prefers_origin_then_host() {
    assert_eq!(join_url(Some("https://study.example//"), Some("h:1"), "ABC234"), "https://study.example/?room=ABC234");
    assert_eq!(join_url(None, Some("localhost:3001"), "ABC234"), "http://localhost:3001/?room=ABC234");
    assert_eq!(join_url(None, None, "ABC234"), "/?room=ABC234");
}

// ── bank files ──────────────────────────────────────────────────────────────

#[test]
fn bank_files_are_json_files_with_a_stem() {
    assert_eq!(bank_stem("cca-f.json").as_deref(), Some("cca-f"));
    assert_eq!(bank_stem("a.b.json").as_deref(), Some("a.b"));
    assert_eq!(bank_stem(".json"), None);
    assert_eq!(bank_stem("notes.txt"), None);
    assert_eq!(bank_stem("json"), None);
}

#[test]
fn cert_names_are_sorted_bank_stems() {
    let files = vec![
        "zeta.json".to_string(),
        "README.md".to_string(),
        "alpha.json".to_string(),
        "Beta.json".to_string(),
    ];
    assert_eq!(cert_names(&files), vec!["Beta", "alpha", "zeta"]);
    assert!(cert_names(&Vec::new()).is_empty());
}

#[test]
fn sort_texts_orders_by_bytes_and_keeps_duplicates() {
    let v = vec!["b".to_string(), "a".to_string(), "b".to_string(), "ä".to_string()];
    assert_eq!(sort_texts(v), vec!["a", "b", "b", "ä"]);
}

#[test]
fn upload_collision_needs_overwrite() {
    assert!(check_upload("x", false, false).is_ok());
    assert!(check_upload("x", true, true).is_ok());
    let e = check_upload("x", true, false).unwrap_err();
    assert_eq!(e.status, 409);
    assert_eq!(
        e.message,
        "A bank named 'x' already exists. Replacing it may orphan saved progress if its question IDs changed."
    );
}

#[test]
fn delete_needs_an_existing_bank() {
    assert!(check_delete("x", true).is_ok());
    let e = check_delete("x", false).unwrap_err();
    assert_eq!((e.status, e.message.as_str()), (400, "No bank named 'x'"));
    assert_eq!(bank_file_name("x"), "x.json");
}

// ── terminal report ─────────────────────────────────────────────────────────

#[test]
fn bar_zero_pct_is_all_empty_and_red() {
    let result = bar(0, 8);
    assert!(result.contains(&"░".repeat(8)), "should be all empty blocks");
    assert!(result.contains(RED), "should be red at 0%");
    assert!(!result.contains("█"), "should have no filled blocks");
}

#[test]
fn bar_full_pct_is_all_filled_and_green() {
    let result = bar(100, 8);
    assert!(result.contains(&"█".repeat(8)), "should be all filled blocks");
    assert!(result.contains(GRN), "should be green at 100%");
    assert!(!result.contains("░"), "should have no empty blocks");
}

#[test]
fn bar_50_pct_is_half_filled_and_yellow() {
    let result = bar(50, 10);
    assert!(result.contains("█████░░░░░"), "should be half filled");
    assert!(result.contains(YLW), "should be yellow at 50%");
}

#[test]
fn bar_79_pct_is_yellow() {
    let result = bar(79, 10);
    assert!(result.contains(YLW), "79% should be yellow (below 80 threshold)");
    assert!(!result.contains(GRN), "79% should not be green");
}

#[test]
fn bar_80_pct_is_green() {
    let result = bar(80, 10);
    assert!(result.contains(GRN), "80% should be green");
}

#[test]
fn bar_49_pct_is_red() {
    let result = bar(49, 10);
    assert!(result.contains(RED), "49% should be red");
    assert!(!result.contains(YLW), "49% should not be yellow");
}

#[test]
fn bar_width_zero_produces_color_and_reset_only() {
    let result = bar(50, 0);
    assert!(!result.contains("█"), "zero width has no blocks");
    assert!(!result.contains("░"), "zero width has no empty blocks");
    assert!(result.contains(RST), "should still contain reset code");
}

#[test]
fn bar_is_exactly_color_cells_and_reset() {
    assert_eq!(bar(66, 3), format!("{YLW}█░░{RST}"));
    assert_eq!(bar(150, 4), format!("{GRN}████{RST}"));
}

#[test]
fn mastery_labels_follow_accuracy_bands() {
    assert_eq!(mastery_label(59), format!("{RED}▼ needs work{RST}"));
    assert_eq!(mastery_label(60), format!("{YLW}~ ok{RST}"));
    assert_eq!(mastery_label(85), format!("{GRN}✓ strong{RST}"));
}

#[test]
fn every_prompted_rating_is_accepted_by_the_review_api() {
    for correct in [true, false] {
        for reply in ["", "c", "confident", "u", "UNSURE", "?"] {
            if let Some(r) = ask_rating(correct, reply) {
                assert!(validate_review_rating(correct, r).is_ok());
                assert!(fsrs_grade(r).is_ok());
            }
        }
    }
}

#[test]
fn accuracy_of_an_empty_session_is_zero_whatever_the_correct_count() {
    assert_eq!(accuracy(u32::MAX, 0), 0);
    let item = session_item("2026-06-04".to_string(), 0, u32::MAX);
    assert_eq!(item.accuracy, 0);
}

#[test]
fn card_ids_json_reads_back_as_the_same_list() {
    let ids = vec!["q1".to_string(), "a \"quoted\" id".to_string(), "ü".to_string()];
    let text = study_engine::api::card_ids_json(&ids);
    assert_eq!(parse_card_ids(&text, "ctx").unwrap(), ids);
}
