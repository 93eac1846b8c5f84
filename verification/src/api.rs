//! The rules behind the HTTP API: request validation, user keys, bank
//! names, question search and card selection for the study screen.
use rand::seq::SliceRandom;
use std::path::PathBuf;

use vstd::prelude::*;

use crate::card::CardState;
use crate::progress::{accuracy, accuracy_spec, card_for, find_card};
use crate::questions::{deref_seq, passes_filter, opt_view, Bank, Question};
use crate::study_plan::{interleave_spec, is_due_for, is_new_for, plan_study_session};
use crate::text::{
    contains, has_infix, is_blank, lowercase, to_lowercase, to_owned, trim, trimmed,
};

verus! {

#[verifier::external_type_specification]
#[verifier::external_body]
pub struct ExPathBuf(PathBuf);

/// A refused request: the HTTP status and a message for the client.
#[derive(Debug, PartialEq, Eq)]
pub struct ApiError {
    pub status: u16,
    pub message: String,
}

impl ApiError {
    /// 400: the request itself is wrong.
    pub fn bad_request(message: &str) -> (r: ApiError)
        ensures
            r.status == 400,
            r.message@ == message@,
    {
        ApiError { status: 400, message: to_owned(message) }
    }

    /// 409: the request collides with existing state.
    pub fn conflict(message: &str) -> (r: ApiError)
        ensures
            r.status == 409,
            r.message@ == message@,
    {
        ApiError { status: 409, message: to_owned(message) }
    }

    /// 403: the caller may not do this.
    pub fn forbidden(message: &str) -> (r: ApiError)
        ensures
            r.status == 403,
            r.message@ == message@,
    {
        ApiError { status: 403, message: to_owned(message) }
    }

    /// 404: the thing asked for does not exist.
    pub fn not_found(message: &str) -> (r: ApiError)
        ensures
            r.status == 404,
            r.message@ == message@,
    {
        ApiError { status: 404, message: to_owned(message) }
    }

    /// 500: something failed on the server's side.
    pub fn internal(message: &str) -> (r: ApiError)
        ensures
            r.status == 500,
            r.message@ == message@,
    {
        ApiError { status: 500, message: to_owned(message) }
    }
}

/// Shared server state: where banks live, the default certification, and
/// an optional database path (none means the user's default path).
pub struct AppState {
    pub questions_dir: PathBuf,
    pub default_cert: String,
    pub db_path: Option<PathBuf>,
}

impl AppState {
    /// The requested certification, or the server's default.
    pub fn cert_or_default(&self, param: Option<String>) -> (r: String)
        ensures
            r == (match param {
                Some(c) => c,
                None => self.default_cert,
            }),
    {
        match param {
            Some(c) => c,
            None => self.default_cert.clone(),
        }
    }
}

/// A past session as the API reports it.
#[derive(Debug, PartialEq, Eq)]
pub struct SessionItem {
    pub date: String,
    pub total: u32,
    pub correct: u32,
    pub accuracy: u32,
}

/// A session entry with its accuracy.
pub fn session_item(date: String, total: u32, correct: u32) -> (r: SessionItem)
    requires
        total == 0 || correct * 100 <= u32::MAX,
    ensures
        r.date == date,
        r.total == total,
        r.correct == correct,
        r.accuracy == accuracy_spec(correct as int, total as int),
{
    SessionItem { accuracy: accuracy(correct, total), date, total, correct }
}

/// The user key of a request: the `X-User` header trimmed and
/// lower-cased, or `"anonymous"` when it is missing or blank.
pub open spec fn user_key_spec(header: Option<Seq<char>>) -> Seq<char> {
    match header {
        Some(h) => if lowercase(trimmed(h)).len() > 0 {
            lowercase(trimmed(h))
        } else {
            "anonymous"@
        },
        None => "anonymous"@,
    }
}

/// The user key for the `X-User` header value `header` (as text, when the
/// header is present and readable).
pub fn extract_user_key(header: Option<&str>) -> (r: String)
    ensures
        r@ == user_key_spec(opt_view(header)),
{
    match header {
        Some(h) => {
            let k = to_lowercase(trim(h));
            if k.as_str().is_empty() {
                to_owned("anonymous")
            } else {
                k
            }
        },
        None => to_owned("anonymous"),
    }
}

/// A character allowed in a bank name: ASCII letter or digit, `-`, `_`.
pub open spec fn is_name_char(c: char) -> bool {
    ||| ('a' <= c && c <= 'z')
    ||| ('A' <= c && c <= 'Z')
    ||| ('0' <= c && c <= '9')
    ||| c == '-'
    ||| c == '_'
}

/// A bank name becomes a file name, so it must be a plain slug: the
/// trimmed name, non-empty, of `[A-Za-z0-9_-]` only.
pub fn sanitize_cert_name(name: &str) -> (r: Result<String, ApiError>)
    ensures
        trimmed(name@).len() == 0 ==> (r matches Err(e) && e.status == 400 && e.message@
            == "Bank name cannot be empty"@),
        trimmed(name@).len() > 0 && !(forall|i: int|
            0 <= i < trimmed(name@).len() ==> is_name_char(#[trigger] trimmed(name@)[i])) ==> (r matches Err(e)
            && e.status == 400 && e.message@
            == "Bank name may only contain letters, numbers, hyphens, and underscores"@),
        r is Ok <==> trimmed(name@).len() > 0 && forall|i: int|
            0 <= i < trimmed(name@).len() ==> is_name_char(#[trigger] trimmed(name@)[i]),
        r matches Ok(s) ==> s@ == trimmed(name@),
{
    let t = trim(name);
    let n = t.unicode_len();
    if n == 0 {
        return Err(ApiError::bad_request("Bank name cannot be empty"));
    }
    let mut i: usize = 0;
    while i < n
        invariant
            0 <= i <= n,
            n == t@.len(),
            n > 0,
            t@ == trimmed(name@),
            forall|k: int| 0 <= k < i ==> is_name_char(#[trigger] t@[k]),
        decreases n - i,
    {
        let c = t.get_char(i);
        let ok = ('a' <= c && c <= 'z') || ('A' <= c && c <= 'Z') || ('0' <= c && c <= '9') || c
            == '-' || c == '_';
        assert(ok == is_name_char(t@[i as int]));
        if !ok {
            return Err(
                ApiError::bad_request(
                    "Bank name may only contain letters, numbers, hyphens, and underscores",
                ),
            );
        }
        i += 1;
    }
    Ok(to_owned(t))
}

/// A review's rating must match its correctness: 3 (Good) or 4 (Easy) for
/// a correct answer, 1 (Again) for a wrong one.
pub fn validate_review_rating(is_correct: bool, rating: u32) -> (r: Result<(), ApiError>)
    ensures
        r is Ok <==> (is_correct && (rating == 3 || rating == 4)) || (!is_correct && rating == 1),
        r matches Err(e) ==> e.status == 400,
        r matches Err(e) ==> is_correct ==> e.message@
            == "Correct reviews must use rating 3 (Good) or 4 (Easy)"@,
        r matches Err(e) ==> !is_correct ==> e.message@
            == "Incorrect reviews must use rating 1 (Again)"@,
{
    if is_correct {
        if rating == 3 || rating == 4 {
            Ok(())
        } else {
            Err(ApiError::bad_request("Correct reviews must use rating 3 (Good) or 4 (Easy)"))
        }
    } else {
        if rating == 1 {
            Ok(())
        } else {
            Err(ApiError::bad_request("Incorrect reviews must use rating 1 (Again)"))
        }
    }
}

/// A finished session cannot have more correct answers than answers.
pub fn check_session_counts(total: u32, correct: u32) -> (r: Result<(), ApiError>)
    ensures
        r is Ok <==> correct <= total,
        r matches Err(e) ==> e.status == 400 && e.message@
            == "Session correct count cannot exceed total"@,
{
    if correct > total {
        Err(ApiError::bad_request("Session correct count cannot exceed total"))
    } else {
        Ok(())
    }
}

/// The question matches the (already lower-cased) search text in its
/// prompt, scenario or explanation, compared lower-cased.
pub open spec fn matches_search(q: Question, s: Seq<char>) -> bool {
    ||| has_infix(lowercase(q.question@), s)
    ||| has_infix(lowercase(q.scenario@), s)
    ||| has_infix(lowercase(q.explanation@), s)
}

/// Keeps the questions whose prompt, scenario or explanation contains
/// `search`, ignoring case.
pub fn search_questions<'a>(questions: Vec<&'a Question>, search: &str) -> (r: Vec<&'a Question>)
    ensures
        deref_seq(r@) == deref_seq(questions@).filter(
            |q: Question| matches_search(q, lowercase(search@)),
        ),
{
    let s = to_lowercase(search);
    let ghost qs = deref_seq(questions@);
    let ghost pred = |q: Question| matches_search(q, lowercase(search@));
    let mut r: Vec<&'a Question> = Vec::new();
    let mut i: usize = 0;
    while i < questions.len()
        invariant
            0 <= i <= questions@.len(),
            qs == deref_seq(questions@),
            s@ == lowercase(search@),
            pred == (|q: Question| matches_search(q, lowercase(search@))),
            deref_seq(r@) == qs.take(i as int).filter(pred),
        decreases questions.len() - i,
    {
        let q = questions[i];
        let keep = contains(to_lowercase(q.question.as_str()).as_str(), s.as_str()) || contains(
            to_lowercase(q.scenario.as_str()).as_str(),
            s.as_str(),
        ) || contains(to_lowercase(q.explanation.as_str()).as_str(), s.as_str());
        proof {
            reveal_with_fuel(Seq::<_>::filter, 1);
            assert(qs.take(i + 1).drop_last() =~= qs.take(i as int));
            assert(qs.take(i + 1).last() == *q);
            assert(keep == pred(*q));
        }
        if keep {
            r.push(q);
            assert(deref_seq(r@) =~= qs.take(i as int).filter(pred).push(*q));
        }
        i += 1;
    }
    assert(qs.take(qs.len() as int) =~= qs);
    r
}


/// Mapping every element of two lists that hold the same elements gives
/// two lists that hold the same elements.
pub(crate) proof fn lemma_map_keeps_multiset<A, B>(a: Seq<A>, b: Seq<A>, f: spec_fn(A) -> B)
    requires
        a.to_multiset() == b.to_multiset(),
    ensures
        a.map_values(f).to_multiset() == b.map_values(f).to_multiset(),
    decreases a.len(),
{
    vstd::seq_lib::to_multiset_len(a);
    vstd::seq_lib::to_multiset_len(b);
    if a.len() == 0 {
        assert(a.map_values(f) =~= b.map_values(f));
    } else {
        let x = a.last();
        assert(a[a.len() - 1] == x);
        vstd::seq_lib::to_multiset_contains(a, x);
        vstd::seq_lib::to_multiset_contains(b, x);
        let j = choose|j: int| 0 <= j < b.len() && b[j] == x;
        let a1 = a.drop_last();
        let b1 = b.remove(j);
        vstd::seq_lib::to_multiset_remove(a, a.len() - 1);
        assert(a.remove(a.len() - 1) =~= a1);
        vstd::seq_lib::to_multiset_remove(b, j);
        lemma_map_keeps_multiset(a1, b1, f);
        assert(a.map_values(f) =~= a1.map_values(f).push(f(x)));
        vstd::seq_lib::to_multiset_build(a1.map_values(f), f(x));
        assert(b.map_values(f) =~= b1.map_values(f).insert(j, f(x)));
        vstd::seq_lib::to_multiset_insert(b1.map_values(f), j, f(x));
    }
}

/// Shuffles the list in place; the order that comes out is random, and
/// nothing is claimed of it beyond holding the same elements.
#[verifier::external_body]
pub(crate) fn shuffle_in_place<T>(v: &mut Vec<T>)
    ensures
        final(v)@.to_multiset() == old(v)@.to_multiset(),
{
    v.shuffle(&mut rand::rng())
}

/// What `serde_json::from_str::<Vec<String>>` gives for a text: the list
/// of strings when the text is a JSON array of strings, `None` otherwise.
pub uninterp spec fn json_string_list(text: Seq<char>) -> Option<Seq<Seq<char>>>;

/// What `serde_json::to_string` gives for a list of strings.
pub uninterp spec fn json_of_strings(items: Seq<Seq<char>>) -> Seq<char>;

/// `serde_json::from_str::<Vec<String>>`, with the error dropped.
#[verifier::external_body]
fn json_parse_strings(text: &str) -> (r: Option<Vec<String>>)
    ensures
        r is None <==> json_string_list(text@) is None,
        r matches Some(v) ==> json_string_list(text@) == Some(crate::validation::views(v@)),
{
    serde_json::from_str::<Vec<String>>(text).ok()
}

/// `serde_json::to_string` of a list of strings. Serializing fails only
/// when a `Serialize` impl fails or a map has non-string keys, so for a
/// list of strings it succeeds; and `serde_json::from_str` reads the text
/// back as the same list.
#[verifier::external_body]
fn json_write_strings(items: &Vec<String>) -> (r: Option<String>)
    ensures
        r is Some,
        r matches Some(s) ==> s@ == json_of_strings(crate::validation::views(items@)),
        r matches Some(s) ==> json_string_list(s@) == Some(crate::validation::views(items@)),
{
    serde_json::to_string(items).ok()
}

/// Reads a stored list of card ids; an unreadable list is a server error
/// with the message `context`.
pub fn parse_card_ids(text: &str, context: &str) -> (r: Result<Vec<String>, ApiError>)
    ensures
        r is Ok <==> json_string_list(text@) is Some,
        r matches Ok(v) ==> json_string_list(text@) == Some(crate::validation::views(v@)),
        r matches Err(e) ==> e.status == 500 && e.message@ == context@,
{
    match json_parse_strings(text) {
        Some(v) => Ok(v),
        None => Err(ApiError::internal(context)),
    }
}

/// Writes a list of card ids for storage. Writing a list of strings does
/// not fail, and reading the text back gives the same list.
pub fn card_ids_json(ids: &Vec<String>) -> (r: String)
    ensures
        r@ == json_of_strings(crate::validation::views(ids@)),
        json_string_list(r@) == Some(crate::validation::views(ids@)),
{
    match json_write_strings(ids) {
        Some(s) => s,
        None => String::new(),
    }
}

/// The pieces of `s` between commas, as `str::split(',')` yields them.
pub open spec fn split_commas(s: Seq<char>) -> Seq<Seq<char>>
    decreases s.len(),
{
    if s.len() == 0 {
        seq![Seq::empty()]
    } else {
        let rest = split_commas(s.drop_last());
        if s.last() == ',' {
            rest.push(Seq::empty())
        } else {
            rest.update(rest.len() - 1, rest.last().push(s.last()))
        }
    }
}

proof fn lemma_split_commas_nonempty(s: Seq<char>)
    ensures
        split_commas(s).len() >= 1,
    decreases s.len(),
{
    if s.len() > 0 {
        lemma_split_commas_nonempty(s.drop_last());
    }
}

/// Splits `s` at every comma.
pub fn split_at_commas(s: &str) -> (r: Vec<String>)
    ensures
        crate::validation::views(r@) == split_commas(s@),
{
    let n = s.unicode_len();
    let mut done: Vec<String> = Vec::new();
    let mut cur = String::new();
    let mut i: usize = 0;
    assert(s@.take(0) =~= Seq::<char>::empty());
    while i < n
        invariant
            0 <= i <= n,
            n == s@.len(),
            crate::validation::views(done@).push(cur@) == split_commas(s@.take(i as int)),
        decreases n - i,
    {
        let c = s.get_char(i);
        let ghost prev = s@.take(i as int);
        assert(s@.take(i + 1).drop_last() =~= prev);
        assert(s@.take(i + 1).last() == c);
        proof {
            lemma_split_commas_nonempty(prev);
        }
        if c == ',' {
            let ghost before = crate::validation::views(done@);
            done.push(cur);
            cur = String::new();
            assert(crate::validation::views(done@) =~= before.push(
                split_commas(prev).last(),
            ));
            assert(crate::validation::views(done@).push(cur@) =~= split_commas(prev).push(
                Seq::empty(),
            ));
        } else {
            let ghost old_cur = cur@;
            crate::text::push_char(&mut cur, c);
            assert(crate::validation::views(done@).push(cur@) =~= split_commas(prev).update(
                split_commas(prev).len() - 1,
                split_commas(prev).last().push(c),
            ));
        }
        i += 1;
    }
    assert(s@.take(n as int) =~= s@);
    let ghost before = crate::validation::views(done@);
    done.push(cur);
    assert(crate::validation::views(done@) =~= before.push(cur@));
    done
}

/// How the study screen's card list was chosen.
#[derive(Debug, PartialEq, Eq, Clone, Copy)]
pub enum DueMode {
    /// Every matching question, shuffled.
    All,
    /// A chosen subset by id.
    Quiz,
    /// Due cards first, then a capped number of new ones.
    Study,
}

/// The cards picked for the study screen, with the counts reported beside
/// them.
#[derive(Debug)]
pub struct DueSelection<'a> {
    pub questions: Vec<&'a Question>,
    pub due_count: usize,
    pub new_count: usize,
    pub new_remaining: usize,
    pub mode: DueMode,
}

/// The question's id is one of `ids`.
pub open spec fn id_listed(ids: Seq<Seq<char>>, q: Question) -> bool {
    ids.contains(q.id@)
}

/// Picks the study screen's cards. With `all`, every question passing the
/// domain and tag filters, in random order. Otherwise with `ids` (a
/// comma-separated list), the bank's questions whose id is listed, in bank
/// order. Otherwise a study plan over the filtered questions.
pub fn select_due<'a>(
    bank: &'a Bank,
    cards: &[CardState],
    all: bool,
    ids: Option<&str>,
    domain: Option<u32>,
    tag: Option<&str>,
    max_new: usize,
    today: &str,
) -> (r: DueSelection<'a>)
    ensures
        all ==> {
            &&& r.mode == DueMode::All
            &&& deref_seq(r.questions@).to_multiset() == bank.questions@.filter(
                |q: Question| passes_filter(q, domain, opt_view(tag)),
            ).to_multiset()
            &&& r.due_count == 0
            &&& r.new_count == r.questions@.len()
            &&& r.new_remaining == 0
        },
        !all && ids is Some ==> {
            &&& r.mode == DueMode::Quiz
            &&& deref_seq(r.questions@) == bank.questions@.filter(
                |q: Question| id_listed(split_commas(ids->0@), q),
            )
            &&& r.due_count == 0
            &&& r.new_count == r.questions@.len()
            &&& r.new_remaining == 0
        },
        !all && ids is None ==> {
            let filtered = bank.questions@.filter(
                |q: Question| passes_filter(q, domain, opt_view(tag)),
            );
            let due = interleave_spec(filtered.filter(|q: Question| is_due_for(cards@, today@, q)));
            let new = interleave_spec(filtered.filter(|q: Question| is_new_for(cards@, q)));
            &&& r.mode == DueMode::Study
            &&& r.due_count == due.len()
            &&& r.new_remaining == new.len() - (if max_new < new.len() {
                max_new as int
            } else {
                new.len() as int
            })
            &&& r.new_count == new.len() - r.new_remaining
            &&& deref_seq(r.questions@) == due + new.take(r.new_count as int)
        },
{
    if all {
        let mut qs = bank.filter(domain, tag);
        let ghost before = qs@;
        shuffle_in_place(&mut qs);
        proof {
            lemma_map_keeps_multiset(qs@, before, |q: &Question| *q);
        }
        let n = qs.len();
        return DueSelection { questions: qs, due_count: 0, new_count: n, new_remaining: 0, mode: DueMode::All };
    }
    if let Some(ids_str) = ids {
        let id_list = split_at_commas(ids_str);
        let ghost listed = split_commas(ids_str@);
        let ghost pred = |q: Question| id_listed(listed, q);
        let mut qs: Vec<&'a Question> = Vec::new();
        let mut i: usize = 0;
        while i < bank.questions.len()
            invariant
                0 <= i <= bank.questions@.len(),
                crate::validation::views(id_list@) == listed,
                pred == (|q: Question| id_listed(listed, q)),
                deref_seq(qs@) == bank.questions@.take(i as int).filter(pred),
            decreases bank.questions.len() - i,
        {
            let q = &bank.questions[i];
            let hit = crate::validation::contains_string(&id_list, &q.id);
            proof {
                reveal_with_fuel(Seq::<_>::filter, 1);
                assert(bank.questions@.take(i + 1).drop_last() =~= bank.questions@.take(i as int));
                assert(bank.questions@.take(i + 1).last() == *q);
                assert(hit == pred(*q));
            }
            if hit {
                qs.push(q);
                assert(deref_seq(qs@) =~= bank.questions@.take(i as int).filter(pred).push(*q));
            }
            i += 1;
        }
        assert(bank.questions@.take(bank.questions@.len() as int) =~= bank.questions@);
        let n = qs.len();
        return DueSelection { questions: qs, due_count: 0, new_count: n, new_remaining: 0, mode: DueMode::Quiz };
    }
    let filtered = bank.filter(domain, tag);
    let plan = plan_study_session(filtered.as_slice(), cards, today, max_new);
    let due_count = plan.due.len();
    let new_count = plan.new.len() - plan.new_remaining;
    DueSelection {
        questions: plan.session,
        due_count,
        new_count,
        new_remaining: plan.new_remaining,
        mode: DueMode::Study,
    }
}

/// The last question of the bank with id `id` (a later question with the
/// same id replaces an earlier one, as in a map built from the list).
pub open spec fn question_by_id(qs: Seq<Question>, id: Seq<char>) -> Option<Question>
    decreases qs.len(),
{
    if qs.len() == 0 {
        None
    } else if qs.last().id@ == id {
        Some(qs.last())
    } else {
        question_by_id(qs.drop_last(), id)
    }
}

/// Looks up the question with id `id`.
pub fn find_question<'a>(qs: &'a Vec<Question>, id: &str) -> (r: Option<&'a Question>)
    ensures
        r matches Some(q) ==> question_by_id(qs@, id@) == Some(*q),
        r is None ==> question_by_id(qs@, id@) is None,
{
    let mut i: usize = qs.len();
    assert(qs@.take(i as int) =~= qs@);
    while i > 0
        invariant
            0 <= i <= qs@.len(),
            question_by_id(qs@, id@) == question_by_id(qs@.take(i as int), id@),
        decreases i,
    {
        assert(qs@.take(i as int).drop_last() =~= qs@.take(i - 1));
        assert(qs@.take(i as int).last() == qs@[i - 1]);
        if crate::text::str_eq(qs[i - 1].id.as_str(), id) {
            return Some(&qs[i - 1]);
        }
        i -= 1;
    }
    None
}

/// A review recorded during a pending session, with what the client needs
/// of its question.
#[derive(Debug, PartialEq, Eq)]
pub struct ReviewedCard {
    pub card_id: String,
    pub is_correct: bool,
    pub rating: u32,
    pub selected_letter: Option<String>,
    pub domain: u32,
    pub correct_answer: String,
    pub question_text: String,
}

/// `c` describes the review `rev` of question `q`.
pub open spec fn reviewed_card_of(
    c: ReviewedCard,
    rev: (String, bool, u32, Option<String>),
    q: Question,
) -> bool {
    &&& c.card_id == rev.0
    &&& c.is_correct == rev.1
    &&& c.rating == rev.2
    &&& c.selected_letter == rev.3
    &&& c.domain == q.domain
    &&& c.correct_answer == q.answer
    &&& c.question_text == q.question
}

/// The reviews of a pending session whose card is still in the bank, each
/// with its question's domain, answer and prompt; reviews of cards the bank
/// no longer has are dropped.
pub fn reviewed_cards(
    bank: &Bank,
    reviews: Vec<(String, bool, u32, Option<String>)>,
) -> (r: Vec<ReviewedCard>)
    ensures
        r@.len() == reviews@.filter(
            |rev: (String, bool, u32, Option<String>)|
                question_by_id(bank.questions@, rev.0@) is Some,
        ).len(),
        forall|k: int|
            0 <= k < r@.len() ==> {
                let rev = reviews@.filter(
                    |rev: (String, bool, u32, Option<String>)|
                        question_by_id(bank.questions@, rev.0@) is Some,
                )[k];
                reviewed_card_of(
                    #[trigger] r@[k],
                    rev,
                    question_by_id(bank.questions@, rev.0@)->Some_0,
                )
            },
{
    let ghost revs = reviews@;
    let n = reviews.len();
    let ghost pred = |rev: (String, bool, u32, Option<String>)|
        question_by_id(bank.questions@, rev.0@) is Some;
    let mut r: Vec<ReviewedCard> = Vec::new();
    let mut i: usize = 0;
    let mut rest = reviews;
    assert(rest@ =~= revs.skip(0));
    while rest.len() > 0
        invariant
            0 <= i <= revs.len(),
            revs.len() == n,
            rest@ == revs.skip(i as int),
            pred == (|rev: (String, bool, u32, Option<String>)|
                question_by_id(bank.questions@, rev.0@) is Some),
            r@.len() == revs.take(i as int).filter(pred).len(),
            forall|k: int|
                0 <= k < r@.len() ==> {
                    let rev = revs.take(i as int).filter(pred)[k];
                    reviewed_card_of(
                        #[trigger] r@[k],
                        rev,
                        question_by_id(bank.questions@, rev.0@)->Some_0,
                    )
                },
        decreases rest.len(),
    {
        let rev = rest.remove(0);
        assert(rev == revs[i as int]);
        assert(rest@ =~= revs.skip(i + 1));
        proof {
            reveal_with_fuel(Seq::<_>::filter, 1);
            assert(revs.take(i + 1).drop_last() =~= revs.take(i as int));
            assert(revs.take(i + 1).last() == rev);
        }
        let (card_id, is_correct, rating, selected_letter) = rev;
        match find_question(&bank.questions, card_id.as_str()) {
            Some(q) => {
                let ghost before = r@;
                r.push(
                    ReviewedCard {
                        card_id,
                        is_correct,
                        rating,
                        selected_letter,
                        domain: q.domain,
                        correct_answer: q.answer.clone(),
                        question_text: q.question.clone(),
                    },
                );
                assert forall|k: int| 0 <= k < r@.len() implies {
                    let rv = revs.take(i + 1).filter(pred)[k];
                    reviewed_card_of(
                        #[trigger] r@[k],
                        rv,
                        question_by_id(bank.questions@, rv.0@)->Some_0,
                    )
                } by {
                    if k < before.len() {
                        assert(r@[k] == before[k]);
                    }
                }
            },
            None => {},
        }
        i += 1;
    }
    assert(revs.take(revs.len() as int) =~= revs);
    r
}

/// A review names a question of the bank; any other id is refused with a
/// message naming the certification and the id.
pub fn check_review_card(bank: &Bank, cert: &str, card_id: &str) -> (r: Result<(), ApiError>)
    ensures
        r is Ok <==> exists|i: int| 0 <= i < bank.questions@.len() && #[trigger] bank.questions@[i].id@ == card_id@,
        r matches Err(e) ==> e.status == 400 && e.message@ == "Unknown question ID for cert "@ + cert@ + ": "@
            + card_id@,
{
    if bank.has_question(card_id) {
        return Ok(());
    }
    let mut m = to_owned("Unknown question ID for cert ");
    m.append(cert);
    m.append(": ");
    m.append(card_id);
    Err(ApiError { status: 400, message: m })
}

/// With an access code configured (`required`), a request passes only when
/// it carries that code; a missing code counts as empty. Without one, every
/// request passes.
pub open spec fn access_allowed_spec(required: Option<Seq<char>>, provided: Option<Seq<char>>) -> bool {
    match required {
        None => true,
        Some(req) => match provided {
            Some(p) => p == req,
            None => req == ""@,
        },
    }
}

/// Whether a request may reach the API.
pub fn access_allowed(required: Option<&str>, provided: Option<&str>) -> (r: bool)
    ensures
        r == access_allowed_spec(opt_view(required), opt_view(provided)),
{
    match required {
        None => true,
        Some(req) => match provided {
            Some(p) => crate::text::str_eq(p, req),
            None => crate::text::str_eq("", req),
        },
    }
}

/// Checking an access code: it must equal the configured one, when there
/// is one.
pub fn verify_access_code(required: Option<&str>, code: &str) -> (r: Result<(), ApiError>)
    ensures
        r is Ok <==> (required matches Some(req) ==> code@ == req@),
        r matches Err(e) ==> e.status == 401 && e.message@ == "invalid access code"@,
{
    match required {
        Some(req) => if crate::text::str_eq(code, req) {
            Ok(())
        } else {
            Err(ApiError { status: 401, message: to_owned("invalid access code") })
        },
        None => Ok(()),
    }
}

/// `s` without its trailing slashes.
pub open spec fn without_trailing_slashes(s: Seq<char>) -> Seq<char>
    decreases s.len(),
{
    if s.len() > 0 && s.last() == '/' {
        without_trailing_slashes(s.drop_last())
    } else {
        s
    }
}

/// The address a room is joined at: the request's origin without trailing
/// slashes, or else `http://` and its host, or else nothing; then
/// `/?room=` and the code.
pub open spec fn join_url_spec(origin: Option<Seq<char>>, host: Option<Seq<char>>, code: Seq<char>) -> Seq<char> {
    let base = match origin {
        Some(o) => without_trailing_slashes(o),
        None => match host {
            Some(h) => "http://"@ + h,
            None => ""@,
        },
    };
    base + "/?room="@ + code
}

/// The join address of a room, from the `Origin` and `Host` header values
/// (as text, when present and readable).
pub fn join_url(origin: Option<&str>, host: Option<&str>, code: &str) -> (r: String)
    ensures
        r@ == join_url_spec(opt_view(origin), opt_view(host), code@),
{
    let mut r = match origin {
        Some(o) => {
            let mut k = o.unicode_len();
            assert(o@.take(k as int) =~= o@);
            while k > 0 && o.get_char(k - 1) == '/'
                invariant
                    0 <= k <= o@.len(),
                    without_trailing_slashes(o@) == without_trailing_slashes(o@.take(k as int)),
                decreases k,
            {
                assert(o@.take(k as int).drop_last() =~= o@.take(k - 1));
                k -= 1;
            }
            proof {
                if k > 0 {
                    assert(o@.take(k as int).last() == o@[k - 1]);
                }
                assert(without_trailing_slashes(o@.take(k as int)) == o@.take(k as int));
            }
            assert(o@.subrange(0, k as int) =~= o@.take(k as int));
            to_owned(o.substring_char(0, k))
        },
        None => match host {
            Some(h) => {
                let mut b = to_owned("http://");
                b.append(h);
                b
            },
            None => {
                proof {
                    reveal_strlit("");
                }
                to_owned("")
            },
        },
    };
    let ghost base = r@;
    r.append("/?room=");
    r.append(code);
    assert(r@ =~= base + "/?room="@ + code@);
    r
}

/// A question with the asking user's stored card for it, if any.
#[derive(Debug)]
pub struct CardWithQuestion<'a> {
    pub question: &'a Question,
    pub card_state: Option<CardState>,
}

/// The question together with its card among `cards` (the last one stored
/// under its id).
pub fn card_with_q<'a>(q: &'a Question, cards: &[CardState]) -> (r: CardWithQuestion<'a>)
    ensures
        *r.question == *q,
        r.card_state == card_for(cards@, q.id@),
{
    CardWithQuestion {
        question: q,
        card_state: match find_card(cards, q.id.as_str()) {
            Some(c) => Some(c.clone()),
            None => None,
        },
    }
}


/// The search keeps exactly the questions whose prompt, scenario or
/// explanation, lower-cased, contains the lower-cased search text: `kept`,
/// what `search_questions` returns, holds a question just when the input
/// does and one of those texts matches.
pub proof fn lemma_search_keeps_exact_matches(qs: Seq<Question>, search: Seq<char>, kept: Seq<Question>)
    requires
        kept == qs.filter(|x: Question| matches_search(x, lowercase(search))),
    ensures
        forall|q: Question| #[trigger] kept.contains(q) <==> qs.contains(q) && (has_infix(
            lowercase(q.question@),
            lowercase(search),
        ) || has_infix(lowercase(q.scenario@), lowercase(search)) || has_infix(
            lowercase(q.explanation@),
            lowercase(search),
        )),
{
    let p = |x: Question| matches_search(x, lowercase(search));
    assert forall|q: Question| #[trigger] kept.contains(q) <==> qs.contains(q) && p(q) by {
        if kept.contains(q) {
            qs.lemma_filter_contains_rev(p, q);
        }
        if qs.contains(q) && p(q) {
            let i = choose|i: int| 0 <= i < qs.len() && qs[i] == q;
            qs.lemma_filter_contains(p, i);
        }
        if kept.contains(q) {
            let j = choose|j: int| 0 <= j < kept.len() && kept[j] == q;
            qs.lemma_filter_pred(p, j);
        }
    }
}

} // verus!
