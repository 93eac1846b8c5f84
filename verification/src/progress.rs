//! Progress and mastery aggregation over cards, reviews and sessions.
use vstd::prelude::*;

use crate::card::{due_on, CardState};
use crate::questions::{deref_seq, has_key, keys_distinct, value_of, Bank, Question};
use crate::text::{decimal, parse_u32, parse_u32_spec};
use crate::text::{str_le, text_le};

verus! {

/// Percentage of `correct` over `total`, rounded down; zero when nothing
/// was answered.
pub open spec fn accuracy_spec(correct: int, total: int) -> int {
    if total > 0 {
        (correct * 100) / total
    } else {
        0
    }
}

/// Whole-percent accuracy (`correct * 100 / total`, floor), or 0 when
/// `total` is 0.
pub fn accuracy(correct: u32, total: u32) -> (r: u32)
    requires
        total == 0 || correct * 100 <= u32::MAX,
    ensures
        r == accuracy_spec(correct as int, total as int),
{
    if total > 0 {
        correct * 100 / total
    } else {
        0
    }
}

/// An accuracy is a percentage: at most 100 when no more answers were
/// correct than given, and 100 exactly when all were.
pub proof fn lemma_accuracy_is_percentage(correct: int, total: int)
    requires
        0 <= correct <= total,
    ensures
        0 <= accuracy_spec(correct, total) <= 100,
        total > 0 && correct == total ==> accuracy_spec(correct, total) == 100,
{
    if total > 0 {
        assert(0 <= correct * 100 <= total * 100) by (nonlinear_arith)
            requires
                0 <= correct <= total,
        ;
        assert((correct * 100) / total <= 100) by (nonlinear_arith)
            requires
                0 <= correct * 100 <= total * 100,
                total > 0,
        ;
        assert((correct * 100) / total >= 0) by (nonlinear_arith)
            requires
                0 <= correct * 100,
                total > 0,
        ;
        if correct == total {
            assert((total * 100) / total == 100) by (nonlinear_arith)
                requires
                    total > 0,
            ;
        }
    }
}

/// The card stored for `id`: the last card in `cards` with that id (a
/// later entry replaces an earlier one, as in a map built from the list).
pub open spec fn card_for(cards: Seq<CardState>, id: Seq<char>) -> Option<CardState>
    decreases cards.len(),
{
    if cards.len() == 0 {
        None
    } else if cards.last().id@ == id {
        Some(cards.last())
    } else {
        card_for(cards.drop_last(), id)
    }
}

/// Looks up the card stored for `id`.
pub fn find_card<'a>(cards: &'a [CardState], id: &str) -> (r: Option<&'a CardState>)
    ensures
        r matches Some(c) ==> card_for(cards@, id@) == Some(*c),
        r is None ==> card_for(cards@, id@) is None,
{
    let mut i: usize = cards.len();
    assert(cards@.take(i as int) =~= cards@);
    while i > 0
        invariant
            0 <= i <= cards@.len(),
            card_for(cards@, id@) == card_for(cards@.take(i as int), id@),
        decreases i,
    {
        assert(cards@.take(i as int).drop_last() =~= cards@.take(i - 1));
        assert(cards@.take(i as int).last() == cards@[i - 1]);
        if crate::text::str_eq(cards[i - 1].id.as_str(), id) {
            return Some(&cards[i - 1]);
        }
        i -= 1;
    }
    None
}

/// Number of reviews of card `id`.
pub open spec fn review_total(reviews: Seq<(String, bool, u32)>, id: Seq<char>) -> nat
    decreases reviews.len(),
{
    if reviews.len() == 0 {
        0
    } else {
        review_total(reviews.drop_last(), id) + if reviews.last().0@ == id {
            1nat
        } else {
            0nat
        }
    }
}

/// Number of correct reviews of card `id`.
pub open spec fn review_correct(reviews: Seq<(String, bool, u32)>, id: Seq<char>) -> nat
    decreases reviews.len(),
{
    if reviews.len() == 0 {
        0
    } else {
        review_correct(reviews.drop_last(), id) + if reviews.last().0@ == id
            && reviews.last().1 {
            1nat
        } else {
            0nat
        }
    }
}

proof fn lemma_review_correct_le_total(reviews: Seq<(String, bool, u32)>, id: Seq<char>)
    ensures
        review_correct(reviews, id) <= review_total(reviews, id),
        review_total(reviews, id) <= reviews.len(),
    decreases reviews.len(),
{
    if reviews.len() > 0 {
        lemma_review_correct_le_total(reviews.drop_last(), id);
    }
}

proof fn lemma_review_total_prefix(reviews: Seq<(String, bool, u32)>, id: Seq<char>, i: int)
    requires
        0 <= i <= reviews.len(),
    ensures
        review_total(reviews.take(i), id) <= review_total(reviews, id),
    decreases reviews.len() - i,
{
    if i < reviews.len() {
        lemma_review_total_prefix(reviews, id, i + 1);
        assert(reviews.take(i + 1).drop_last() =~= reviews.take(i));
    } else {
        assert(reviews.take(i) =~= reviews);
    }
}

/// Every card's review count fits a `u32` counter.
pub open spec fn card_reviews_fit(reviews: Seq<(String, bool, u32)>) -> bool {
    forall|id: Seq<char>| #[trigger] review_total(reviews, id) <= u32::MAX
}

/// Correct and total review counts of card `id`.
pub fn review_counts(reviews: &[(String, bool, u32)], id: &str) -> (r: (u32, u32))
    requires
        review_total(reviews@, id@) <= u32::MAX,
    ensures
        r.0 == review_correct(reviews@, id@),
        r.1 == review_total(reviews@, id@),
{
    let mut correct: u32 = 0;
    let mut total: u32 = 0;
    let mut i: usize = 0;
    while i < reviews.len()
        invariant
            0 <= i <= reviews@.len(),
            review_total(reviews@, id@) <= u32::MAX,
            correct == review_correct(reviews@.take(i as int), id@),
            total == review_total(reviews@.take(i as int), id@),
        decreases reviews.len() - i,
    {
        assert(reviews@.take(i + 1).drop_last() =~= reviews@.take(i as int));
        proof {
            lemma_review_correct_le_total(reviews@.take(i + 1), id@);
            lemma_review_total_prefix(reviews@, id@, i + 1);
        }
        if crate::text::str_eq(reviews[i].0.as_str(), id) {
            total += 1;
            if reviews[i].1 {
                correct += 1;
            }
        }
        i += 1;
    }
    assert(reviews@.take(reviews@.len() as int) =~= reviews@);
    (correct, total)
}

/// The card of `q` has been scheduled.
pub open spec fn is_introduced(cards: Seq<CardState>, q: Question) -> bool {
    card_for(cards, q.id@) matches Some(c) && c.due is Some
}

/// The card of `q` is due on or before `today`.
pub open spec fn is_due_today(cards: Seq<CardState>, today: Seq<char>, q: Question) -> bool {
    card_for(cards, q.id@) matches Some(c) && due_on(c, today)
}

/// The card of `q` has three or more correct repetitions in a row.
pub open spec fn is_mastered(cards: Seq<CardState>, q: Question) -> bool {
    card_for(cards, q.id@) matches Some(c) && c.reps >= 3
}

/// `d` is the due date of `q`'s card and lies after `today`.
pub open spec fn has_future_due(
    cards: Seq<CardState>,
    today: Seq<char>,
    q: Question,
    d: Seq<char>,
) -> bool {
    card_for(cards, q.id@) matches Some(c) && c.due matches Some(x) && x@ == d && !text_le(
        d,
        today,
    )
}

/// Which of the three per-card counts `count_questions` computes.
pub enum CardCount {
    Introduced,
    DueToday,
    Mastered,
}

pub open spec fn count_pred(kind: CardCount, cards: Seq<CardState>, today: Seq<char>) -> spec_fn(
    Question,
) -> bool {
    match kind {
        CardCount::Introduced => |q: Question| is_introduced(cards, q),
        CardCount::DueToday => |q: Question| is_due_today(cards, today, q),
        CardCount::Mastered => |q: Question| is_mastered(cards, q),
    }
}

/// Number of `questions` whose card is introduced, due today, or
/// mastered, as `kind` says.
pub fn count_questions(
    questions: &[&Question],
    cards: &[CardState],
    today: &str,
    kind: CardCount,
) -> (r: usize)
    ensures
        r == deref_seq(questions@).filter(count_pred(kind, cards@, today@)).len(),
{
    let ghost qs = deref_seq(questions@);
    let ghost pred = count_pred(kind, cards@, today@);
    let mut n: usize = 0;
    let mut i: usize = 0;
    while i < questions.len()
        invariant
            0 <= i <= questions@.len(),
            qs == deref_seq(questions@),
            pred == count_pred(kind, cards@, today@),
            n == qs.take(i as int).filter(pred).len(),
            n <= i,
        decreases questions.len() - i,
    {
        let q = questions[i];
        let hit = match find_card(cards, q.id.as_str()) {
            Some(c) => match kind {
                CardCount::Introduced => c.due.is_some(),
                CardCount::DueToday => c.is_due_on(today),
                CardCount::Mastered => c.reps >= 3,
            },
            None => false,
        };
        proof {
            reveal_with_fuel(Seq::<_>::filter, 1);
            assert(qs.take(i + 1).drop_last() =~= qs.take(i as int));
            assert(qs.take(i + 1).last() == *q);
            assert(hit == pred(*q));
        }
        if hit {
            n += 1;
        }
        i += 1;
    }
    assert(qs.take(qs.len() as int) =~= qs);
    n
}

proof fn lemma_bytes_le_total(a: Seq<u8>, b: Seq<u8>)
    ensures
        crate::text::bytes_le(a, b) || crate::text::bytes_le(b, a),
    decreases a.len(),
{
    if a.len() > 0 && b.len() > 0 && a[0] == b[0] {
        lemma_bytes_le_total(a.drop_first(), b.drop_first());
    }
}

proof fn lemma_bytes_le_trans(a: Seq<u8>, b: Seq<u8>, c: Seq<u8>)
    requires
        crate::text::bytes_le(a, b),
        crate::text::bytes_le(b, c),
    ensures
        crate::text::bytes_le(a, c),
    decreases a.len(),
{
    if a.len() > 0 && b.len() > 0 && c.len() > 0 && a[0] == b[0] && b[0] == c[0] {
        lemma_bytes_le_trans(a.drop_first(), b.drop_first(), c.drop_first());
    }
}

/// `str` order is total.
pub proof fn lemma_text_le_total(a: Seq<char>, b: Seq<char>)
    ensures
        text_le(a, b) || text_le(b, a),
{
    lemma_bytes_le_total(vstd::utf8::encode_utf8(a), vstd::utf8::encode_utf8(b));
}

/// `str` order is transitive.
pub proof fn lemma_text_le_trans(a: Seq<char>, b: Seq<char>, c: Seq<char>)
    requires
        text_le(a, b),
        text_le(b, c),
    ensures
        text_le(a, c),
{
    lemma_bytes_le_trans(
        vstd::utf8::encode_utf8(a),
        vstd::utf8::encode_utf8(b),
        vstd::utf8::encode_utf8(c),
    );
}

/// The earliest due date after `today` among the cards of `questions`, or
/// `None` when no card is due after `today`.
pub fn earliest_future_due(questions: &[&Question], cards: &[CardState], today: &str) -> (r:
    Option<String>)
    ensures
        r is None <==> !exists|i: int, d: Seq<char>|
            0 <= i < questions@.len() && #[trigger] has_future_due(
                cards@,
                today@,
                *questions@[i],
                d,
            ),
        r matches Some(m) ==> exists|i: int|
            0 <= i < questions@.len() && #[trigger] has_future_due(
                cards@,
                today@,
                *questions@[i],
                m@,
            ),
        r matches Some(m) ==> forall|i: int, d: Seq<char>|
            0 <= i < questions@.len() && #[trigger] has_future_due(
                cards@,
                today@,
                *questions@[i],
                d,
            ) ==> text_le(m@, d),
{
    let mut best: Option<String> = None;
    let mut i: usize = 0;
    while i < questions.len()
        invariant
            0 <= i <= questions@.len(),
            best is None <==> !exists|k: int, d: Seq<char>|
                0 <= k < i && #[trigger] has_future_due(cards@, today@, *questions@[k], d),
            best matches Some(m) ==> exists|k: int|
                0 <= k < i && #[trigger] has_future_due(cards@, today@, *questions@[k], m@),
            best matches Some(m) ==> forall|k: int, d: Seq<char>|
                0 <= k < i && #[trigger] has_future_due(cards@, today@, *questions@[k], d)
                    ==> text_le(m@, d),
        decreases questions.len() - i,
    {
        let q = questions[i];
        let ghost old_best = best;
        if let Some(c) = find_card(cards, q.id.as_str()) {
            if let Some(d) = &c.due {
                if !str_le(d.as_str(), today) {
                    let better = match &best {
                        Some(m) => !str_le(m.as_str(), d.as_str()),
                        None => true,
                    };
                    proof {
                        assert(has_future_due(cards@, today@, *questions@[i as int], d@));
                        if let Some(m) = old_best {
                            if better {
                                lemma_text_le_total(m@, d@);
                                assert forall|k: int, e: Seq<char>|
                                    0 <= k < i + 1 && #[trigger] has_future_due(
                                        cards@,
                                        today@,
                                        *questions@[k],
                                        e,
                                    ) implies text_le(d@, e) by {
                                    if k < i {
                                        lemma_text_le_trans(d@, m@, e);
                                    } else {
                                        lemma_text_le_total(d@, e);
                                    }
                                }
                            } else {
                                assert forall|k: int, e: Seq<char>|
                                    0 <= k < i + 1 && #[trigger] has_future_due(
                                        cards@,
                                        today@,
                                        *questions@[k],
                                        e,
                                    ) implies text_le(m@, e) by {
                                    if k == i {
                                        assert(e == d@);
                                    }
                                }
                            }
                        } else {
                            assert forall|k: int, e: Seq<char>|
                                0 <= k < i + 1 && #[trigger] has_future_due(
                                    cards@,
                                    today@,
                                    *questions@[k],
                                    e,
                                ) implies text_le(d@, e) by {
                                if k < i {
                                    assert(false);
                                } else {
                                    assert(e == d@);
                                    lemma_text_le_total(d@, e);
                                }
                            }
                        }
                    }
                    if better {
                        best = Some(d.clone());
                    }
                }
            }
        }
        assert forall|k: int, e: Seq<char>|
            0 <= k < i + 1 && #[trigger] has_future_due(cards@, today@, *questions@[k], e)
                implies k < i || best is Some by {
        }
        i += 1;
    }
    best
}


/// The domain numbers that the keys of the domain table parse to, in
/// table order; keys that are not numbers are skipped.
pub open spec fn parsed_domain_ids(domains: Seq<(String, String)>) -> Seq<u32>
    decreases domains.len(),
{
    if domains.len() == 0 {
        Seq::empty()
    } else {
        let rest = parsed_domain_ids(domains.drop_last());
        match parse_u32_spec(domains.last().0@) {
            Some(n) => rest.push(n),
            None => rest,
        }
    }
}

pub open spec fn sorted_u32(s: Seq<u32>) -> bool {
    forall|i: int, j: int| 0 <= i <= j < s.len() ==> s[i] <= s[j]
}

pub(crate) proof fn lemma_insert_multiset<A>(s: Seq<A>, pos: int, x: A)
    requires
        0 <= pos <= s.len(),
    ensures
        s.insert(pos, x).to_multiset() =~= s.to_multiset().insert(x),
{
    broadcast use vstd::seq_lib::group_to_multiset_ensures, vstd::multiset::group_multiset_axioms;

    let t = s.insert(pos, x);
    s.insert_ensures(pos, x);
    assert(t.remove(pos) =~= s);
    assert(t.contains(x)) by {
        assert(t[pos] == x);
    }
    assert(t.to_multiset().count(x) > 0);
    assert(t.remove(pos).to_multiset() =~= t.to_multiset().remove(t[pos]));
}

/// The numeric domain ids of the bank's domain table, in ascending order.
pub fn sorted_domain_ids(domains: &Vec<(String, String)>) -> (r: Vec<u32>)
    ensures
        sorted_u32(r@),
        r@.to_multiset() =~= parsed_domain_ids(domains@).to_multiset(),
{
    broadcast use vstd::seq_lib::group_to_multiset_ensures;

    let mut r: Vec<u32> = Vec::new();
    let mut i: usize = 0;
    while i < domains.len()
        invariant
            0 <= i <= domains@.len(),
            sorted_u32(r@),
            r@.to_multiset() =~= parsed_domain_ids(domains@.take(i as int)).to_multiset(),
        decreases domains.len() - i,
    {
        assert(domains@.take(i + 1).drop_last() =~= domains@.take(i as int));
        assert(domains@.take(i + 1).last() == domains@[i as int]);
        let parsed = parse_u32(domains[i].0.as_str());
        assert(parsed_domain_ids(domains@.take(i + 1)) == match parsed {
            Some(n) => parsed_domain_ids(domains@.take(i as int)).push(n),
            None => parsed_domain_ids(domains@.take(i as int)),
        });
        if let Some(n) = parsed {
            let mut pos: usize = 0;
            while pos < r.len() && r[pos] <= n
                invariant
                    0 <= pos <= r@.len(),
                    forall|k: int| 0 <= k < pos ==> r@[k] <= n,
                decreases r.len() - pos,
            {
                pos += 1;
            }
            let ghost before = r@;
            proof {
                lemma_insert_multiset(before, pos as int, n);
                before.insert_ensures(pos as int, n);
            }
            r.insert(pos, n);
            proof {
                parsed_domain_ids(domains@.take(i as int)).to_multiset_ensures();
            }
            assert(parsed_domain_ids(domains@.take(i as int)).push(n).to_multiset() =~= parsed_domain_ids(domains@.take(i as int)).to_multiset().insert(n));
            assert forall|a: int, b: int| 0 <= a <= b < r@.len() implies r@[a] <= r@[b] by {
                if a < pos && b > pos {
                    assert(r@[b] == before[b - 1]);
                } else if a == pos && b > pos {
                    assert(r@[b] == before[b - 1]);
                    assert(pos < before.len() && !(before[pos as int] <= n));
                } else if a > pos {
                    assert(r@[a] == before[a - 1] && r@[b] == before[b - 1]);
                }
            }
        }
        i += 1;
    }
    assert(domains@.take(domains@.len() as int) =~= domains@);
    r
}

/// Reviews of the questions of domain `id`: correct ones when `correct`,
/// all of them otherwise.
pub open spec fn domain_review_sum(
    qs: Seq<Question>,
    reviews: Seq<(String, bool, u32)>,
    id: u32,
    correct: bool,
) -> nat
    decreases qs.len(),
{
    if qs.len() == 0 {
        0
    } else {
        domain_review_sum(qs.drop_last(), reviews, id, correct) + if qs.last().domain == id {
            if correct {
                review_correct(reviews, qs.last().id@)
            } else {
                review_total(reviews, qs.last().id@)
            }
        } else {
            0
        }
    }
}

proof fn lemma_domain_review_sum_prefix(
    qs: Seq<Question>,
    reviews: Seq<(String, bool, u32)>,
    id: u32,
    correct: bool,
    i: int,
)
    requires
        0 <= i <= qs.len(),
    ensures
        domain_review_sum(qs.take(i), reviews, id, correct) <= domain_review_sum(
            qs,
            reviews,
            id,
            correct,
        ),
    decreases qs.len(),
{
    if i < qs.len() {
        assert(qs.drop_last().take(i) =~= qs.take(i));
        lemma_domain_review_sum_prefix(qs.drop_last(), reviews, id, correct, i);
    } else {
        assert(qs.take(i) =~= qs);
    }
}

proof fn lemma_domain_correct_le_total(qs: Seq<Question>, reviews: Seq<(String, bool, u32)>, id: u32)
    ensures
        domain_review_sum(qs, reviews, id, true) <= domain_review_sum(qs, reviews, id, false),
    decreases qs.len(),
{
    if qs.len() > 0 {
        lemma_domain_correct_le_total(qs.drop_last(), reviews, id);
        lemma_review_correct_le_total(reviews, qs.last().id@);
    }
}

/// Progress within one domain.
#[derive(Debug, PartialEq, Eq)]
pub struct DomainProgress {
    pub id: u32,
    pub name: String,
    pub total: u32,
    pub mastered: u32,
    pub review_total: u32,
    pub review_correct: u32,
    pub accuracy: u32,
}

/// `p` is the progress of domain `id` over `questions`.
pub open spec fn domain_progress_of(
    p: DomainProgress,
    bank: Bank,
    qs: Seq<Question>,
    cards: Seq<CardState>,
    reviews: Seq<(String, bool, u32)>,
    id: u32,
) -> bool {
    &&& p.id == id
    &&& (has_key(bank.domains@, decimal(id as nat)) ==> p.name@ == value_of(
        bank.domains@,
        decimal(id as nat),
    ))
    &&& (!has_key(bank.domains@, decimal(id as nat)) ==> p.name@ == "Unknown"@)
    &&& p.total == qs.filter(|q: Question| q.domain == id).len()
    &&& p.mastered == qs.filter(|q: Question| q.domain == id && is_mastered(cards, q)).len()
    &&& p.review_total == domain_review_sum(qs, reviews, id, false)
    &&& p.review_correct == domain_review_sum(qs, reviews, id, true)
    &&& p.accuracy == accuracy_spec(p.review_correct as int, p.review_total as int)
}

/// The aggregate over the questions of domain `id`.
pub fn domain_progress(
    bank: &Bank,
    questions: &[&Question],
    cards: &[CardState],
    reviews: &[(String, bool, u32)],
    id: u32,
) -> (r: DomainProgress)
    requires
        keys_distinct(bank.domains@),
        questions@.len() <= u32::MAX,
        card_reviews_fit(reviews@),
        domain_review_sum(deref_seq(questions@), reviews@, id, false) <= u32::MAX,
        domain_review_sum(deref_seq(questions@), reviews@, id, true) * 100 <= u32::MAX,
    ensures
        domain_progress_of(r, *bank, deref_seq(questions@), cards@, reviews@, id),
{
    let ghost qs = deref_seq(questions@);
    let ghost in_domain = |q: Question| q.domain == id;
    let ghost mastered_here = |q: Question| q.domain == id && is_mastered(cards@, q);
    let mut total: u32 = 0;
    let mut mastered: u32 = 0;
    let mut rc: u32 = 0;
    let mut rt: u32 = 0;
    let mut i: usize = 0;
    while i < questions.len()
        invariant
            0 <= i <= questions@.len(),
            qs == deref_seq(questions@),
            questions@.len() <= u32::MAX,
            card_reviews_fit(reviews@),
            domain_review_sum(qs, reviews@, id, false) <= u32::MAX,
            domain_review_sum(qs, reviews@, id, true) * 100 <= u32::MAX,
            in_domain == (|q: Question| q.domain == id),
            mastered_here == (|q: Question| q.domain == id && is_mastered(cards@, q)),
            total == qs.take(i as int).filter(in_domain).len(),
            mastered == qs.take(i as int).filter(mastered_here).len(),
            total <= i,
            mastered <= i,
            rt == domain_review_sum(qs.take(i as int), reviews@, id, false),
            rc == domain_review_sum(qs.take(i as int), reviews@, id, true),
        decreases questions.len() - i,
    {
        let q = questions[i];
        proof {
            reveal_with_fuel(Seq::<_>::filter, 1);
            assert(qs.take(i + 1).drop_last() =~= qs.take(i as int));
            assert(qs.take(i + 1).last() == *q);
            lemma_domain_review_sum_prefix(qs, reviews@, id, false, i + 1);
            lemma_domain_review_sum_prefix(qs, reviews@, id, true, i + 1);
        }
        if q.domain == id {
            total += 1;
            let m = match find_card(cards, q.id.as_str()) {
                Some(c) => c.reps >= 3,
                None => false,
            };
            assert(m == is_mastered(cards@, *q));
            if m {
                mastered += 1;
            }
            let (c, t) = review_counts(reviews, q.id.as_str());
            rc += c;
            rt += t;
        }
        i += 1;
    }
    assert(qs.take(qs.len() as int) =~= qs);
    proof {
        lemma_domain_correct_le_total(qs, reviews@, id);
    }
    DomainProgress {
        id,
        name: bank.domain_name(id),
        total,
        mastered,
        review_total: rt,
        review_correct: rc,
        accuracy: accuracy(rc, rt),
    }
}


/// Number of times `t` occurs in `tags`.
pub open spec fn tag_count(tags: Seq<String>, t: Seq<char>) -> nat
    decreases tags.len(),
{
    if tags.len() == 0 {
        0
    } else {
        tag_count(tags.drop_last(), t) + if tags.last()@ == t {
            1nat
        } else {
            0nat
        }
    }
}

/// Reviews of the questions tagged `t`, a question counted once per
/// occurrence of the tag: correct ones when `correct`, all otherwise.
pub open spec fn tag_review_sum(
    qs: Seq<Question>,
    reviews: Seq<(String, bool, u32)>,
    t: Seq<char>,
    correct: bool,
) -> nat
    decreases qs.len(),
{
    if qs.len() == 0 {
        0
    } else {
        tag_review_sum(qs.drop_last(), reviews, t, correct) + tag_count(qs.last().tags@, t) * if correct {
            review_correct(reviews, qs.last().id@)
        } else {
            review_total(reviews, qs.last().id@)
        }
    }
}

proof fn lemma_tag_review_sum_prefix(
    qs: Seq<Question>,
    reviews: Seq<(String, bool, u32)>,
    t: Seq<char>,
    correct: bool,
    i: int,
)
    requires
        0 <= i <= qs.len(),
    ensures
        tag_review_sum(qs.take(i), reviews, t, correct) <= tag_review_sum(qs, reviews, t, correct),
    decreases qs.len(),
{
    if i < qs.len() {
        assert(qs.drop_last().take(i) =~= qs.take(i));
        lemma_tag_review_sum_prefix(qs.drop_last(), reviews, t, correct, i);
        let k = tag_count(qs.last().tags@, t);
        let v = if correct {
            review_correct(reviews, qs.last().id@)
        } else {
            review_total(reviews, qs.last().id@)
        };
        assert(k * v >= 0) by (nonlinear_arith);
    } else {
        assert(qs.take(i) =~= qs);
    }
}

proof fn lemma_tag_correct_le_total(qs: Seq<Question>, reviews: Seq<(String, bool, u32)>, t: Seq<char>)
    ensures
        tag_review_sum(qs, reviews, t, true) <= tag_review_sum(qs, reviews, t, false),
    decreases qs.len(),
{
    if qs.len() > 0 {
        lemma_tag_correct_le_total(qs.drop_last(), reviews, t);
        lemma_review_correct_le_total(reviews, qs.last().id@);
        let k = tag_count(qs.last().tags@, t);
        let c = review_correct(reviews, qs.last().id@);
        let a = review_total(reviews, qs.last().id@);
        assert(k * c <= k * a) by (nonlinear_arith)
            requires
                c <= a,
        ;
    }
}

proof fn lemma_tag_count_pos(tags: Seq<String>, t: Seq<char>)
    requires
        tag_count(tags, t) > 0,
    ensures
        exists|j: int| 0 <= j < tags.len() && #[trigger] tags[j]@ == t,
    decreases tags.len(),
{
    if tags.last()@ != t {
        lemma_tag_count_pos(tags.drop_last(), t);
        let j = choose|j: int| 0 <= j < tags.len() - 1 && #[trigger] tags.drop_last()[j]@ == t;
        assert(tags[j]@ == t);
    } else {
        assert(tags[tags.len() - 1]@ == t);
    }
}

/// The tag `t` occurs on some question.
pub open spec fn tag_occurs(qs: Seq<Question>, t: Seq<char>) -> bool {
    exists|i: int, j: int|
        0 <= i < qs.len() && 0 <= j < qs[i].tags@.len() && #[trigger] qs[i].tags@[j]@ == t
}

proof fn lemma_tag_sum_pos(qs: Seq<Question>, reviews: Seq<(String, bool, u32)>, t: Seq<char>)
    requires
        tag_review_sum(qs, reviews, t, false) > 0,
    ensures
        tag_occurs(qs, t),
    decreases qs.len(),
{
    let k = tag_count(qs.last().tags@, t);
    let v = review_total(reviews, qs.last().id@);
    if k == 0 {
        assert(k * v == 0) by (nonlinear_arith)
            requires
                k == 0,
        ;
        lemma_tag_sum_pos(qs.drop_last(), reviews, t);
        let (i, j) = choose|i: int, j: int|
            0 <= i < qs.drop_last().len() && 0 <= j < qs.drop_last()[i].tags@.len()
                && #[trigger] qs.drop_last()[i].tags@[j]@ == t;
        assert(qs[i].tags@[j]@ == t);
    } else {
        lemma_tag_count_pos(qs.last().tags@, t);
        let j = choose|j: int|
            0 <= j < qs.last().tags@.len() && #[trigger] qs.last().tags@[j]@ == t;
        assert(qs[qs.len() - 1].tags@[j]@ == t);
    }
}

/// Index of the first string in `v` equal to `s`.
pub fn position_of(v: &Vec<String>, s: &String) -> (r: Option<usize>)
    ensures
        r matches Some(k) ==> k < v@.len() && v@[k as int]@ == s@,
        r is None ==> forall|a: int| 0 <= a < v@.len() ==> v@[a]@ != s@,
{
    let mut k: usize = 0;
    while k < v.len()
        invariant
            0 <= k <= v@.len(),
            forall|a: int| 0 <= a < k ==> v@[a]@ != s@,
        decreases v.len() - k,
    {
        if v[k] == *s {
            return Some(k);
        }
        k += 1;
    }
    None
}

/// The tag `t` occurs in the list `r`.
pub open spec fn listed(r: Seq<String>, t: Seq<char>) -> bool {
    exists|a: int| 0 <= a < r.len() && #[trigger] r[a]@ == t
}

/// Every tag used by the questions, each once, in order of first use.
pub fn distinct_tags(questions: &[&Question]) -> (r: Vec<String>)
    ensures
        forall|a: int, b: int| 0 <= a < b < r@.len() ==> r@[a]@ != r@[b]@,
        forall|a: int| 0 <= a < r@.len() ==> tag_occurs(deref_seq(questions@), #[trigger] r@[a]@),
        forall|t: Seq<char>| tag_occurs(deref_seq(questions@), t) ==> #[trigger] listed(r@, t),
{
    let ghost qs = deref_seq(questions@);
    let mut r: Vec<String> = Vec::new();
    let mut i: usize = 0;
    while i < questions.len()
        invariant
            0 <= i <= questions@.len(),
            qs == deref_seq(questions@),
            forall|a: int, b: int| 0 <= a < b < r@.len() ==> r@[a]@ != r@[b]@,
            forall|a: int| 0 <= a < r@.len() ==> tag_occurs(qs, #[trigger] r@[a]@),
            forall|x: int, y: int|
                #![trigger qs[x].tags@[y]]
                0 <= x < i && 0 <= y < qs[x].tags@.len() ==> listed(r@, qs[x].tags@[y]@),
        decreases questions.len() - i,
    {
        let q = questions[i];
        assert(qs[i as int] == *q);
        let mut j: usize = 0;
        while j < q.tags.len()
            invariant
                0 <= i < questions@.len(),
                0 <= j <= q.tags@.len(),
                qs == deref_seq(questions@),
                qs[i as int] == *q,
                forall|a: int, b: int| 0 <= a < b < r@.len() ==> r@[a]@ != r@[b]@,
                forall|a: int| 0 <= a < r@.len() ==> tag_occurs(qs, #[trigger] r@[a]@),
                forall|x: int, y: int|
                    #![trigger qs[x].tags@[y]]
                    0 <= x < i && 0 <= y < qs[x].tags@.len() ==> listed(r@, qs[x].tags@[y]@),
                forall|y: int| #![trigger q.tags@[y]] 0 <= y < j ==> listed(r@, q.tags@[y]@),
            decreases q.tags.len() - j,
        {
            let ghost before = r@;
            assert(qs[i as int].tags@[j as int]@ == q.tags@[j as int]@);
            assert(tag_occurs(qs, q.tags@[j as int]@));
            match position_of(&r, &q.tags[j]) {
                Some(k) => {
                    assert(listed(r@, q.tags@[j as int]@));
                },
                None => {
                    r.push(q.tags[j].clone());
                    assert(r@[before.len() as int]@ == q.tags@[j as int]@);
                    assert(listed(r@, q.tags@[j as int]@));
                    assert forall|t: Seq<char>| listed(before, t) implies listed(r@, t) by {
                        let a = choose|a: int| 0 <= a < before.len() && #[trigger] before[a]@ == t;
                        assert(r@[a] == before[a]);
                    }
                    assert forall|a: int| 0 <= a < r@.len() implies tag_occurs(qs, #[trigger] r@[a]@) by {
                        if a < before.len() {
                            assert(r@[a] == before[a]);
                        }
                    }
                },
            }
            j += 1;
        }
        assert forall|x: int, y: int|
            #![trigger qs[x].tags@[y]]
            0 <= x < i + 1 && 0 <= y < qs[x].tags@.len() implies listed(r@, qs[x].tags@[y]@) by {
            if x == i {
                assert(qs[x].tags@[y] == q.tags@[y]);
            }
        }
        i += 1;
    }
    r
}

/// Correct and total reviews of the questions tagged `t`.
pub fn tag_sums(questions: &[&Question], reviews: &[(String, bool, u32)], t: &String) -> (r: (
    u32,
    u32,
))
    requires
        card_reviews_fit(reviews@),
        tag_review_sum(deref_seq(questions@), reviews@, t@, false) <= u32::MAX,
    ensures
        r.0 == tag_review_sum(deref_seq(questions@), reviews@, t@, true),
        r.1 == tag_review_sum(deref_seq(questions@), reviews@, t@, false),
{
    let ghost qs = deref_seq(questions@);
    let mut c: u32 = 0;
    let mut tot: u32 = 0;
    let mut i: usize = 0;
    while i < questions.len()
        invariant
            0 <= i <= questions@.len(),
            qs == deref_seq(questions@),
            card_reviews_fit(reviews@),
            tag_review_sum(qs, reviews@, t@, false) <= u32::MAX,
            c == tag_review_sum(qs.take(i as int), reviews@, t@, true),
            tot == tag_review_sum(qs.take(i as int), reviews@, t@, false),
        decreases questions.len() - i,
    {
        let q = questions[i];
        proof {
            assert(qs.take(i + 1).drop_last() =~= qs.take(i as int));
            assert(qs.take(i + 1).last() == *q);
            lemma_tag_review_sum_prefix(qs, reviews@, t@, false, i + 1);
            lemma_tag_review_sum_prefix(qs, reviews@, t@, true, i + 1);
            lemma_tag_correct_le_total(qs, reviews@, t@);
        }
        let mut occ: usize = 0;
        let mut j: usize = 0;
        assert(q.tags@.take(0) =~= Seq::<String>::empty());
        while j < q.tags.len()
            invariant
                0 <= j <= q.tags@.len(),
                occ == tag_count(q.tags@.take(j as int), t@),
                occ <= j,
            decreases q.tags.len() - j,
        {
            assert(q.tags@.take(j + 1).drop_last() =~= q.tags@.take(j as int));
            if q.tags[j] == *t {
                occ += 1;
            }
            j += 1;
        }
        assert(q.tags@.take(q.tags@.len() as int) =~= q.tags@);
        let (rc, rt) = review_counts(reviews, q.id.as_str());
        proof {
            lemma_review_correct_le_total(reviews@, q.id@);
        }
        if rt > 0 && occ > 0 {
            proof {
                assert(occ * rc <= occ * rt) by (nonlinear_arith)
                    requires
                        rc <= rt,
                ;
                assert(occ <= occ * rt) by (nonlinear_arith)
                    requires
                        rt >= 1,
                ;
            }
            let o = occ as u32;
            c += o * rc;
            tot += o * rt;
        } else {
            assert(occ * rc == 0 && occ * rt == 0) by (nonlinear_arith)
                requires
                    rt == 0 || occ == 0,
                    rc <= rt,
            ;
        }
        i += 1;
    }
    assert(qs.take(qs.len() as int) =~= qs);
    (c, tot)
}

/// Progress on one concept tag.
#[derive(Debug, PartialEq, Eq)]
pub struct TagProgress {
    pub tag: String,
    pub correct: u32,
    pub total: u32,
    pub accuracy: u32,
}

impl Clone for TagProgress {
    fn clone(&self) -> (r: Self)
        ensures
            r == *self,
    {
        TagProgress {
            tag: self.tag.clone(),
            correct: self.correct,
            total: self.total,
            accuracy: self.accuracy,
        }
    }
}

/// The tag list of a progress summary: one entry for every tag with at
/// least one review, none twice, in ascending order of accuracy.
pub open spec fn tags_of(
    r: Seq<TagProgress>,
    qs: Seq<Question>,
    reviews: Seq<(String, bool, u32)>,
) -> bool {
    &&& forall|a: int, b: int| 0 <= a < b < r.len() ==> r[a].tag@ != r[b].tag@
    &&& forall|a: int|
        0 <= a < r.len() ==> {
            &&& (#[trigger] r[a]).total == tag_review_sum(qs, reviews, r[a].tag@, false)
            &&& r[a].correct == tag_review_sum(qs, reviews, r[a].tag@, true)
            &&& r[a].accuracy == accuracy_spec(r[a].correct as int, r[a].total as int)
            &&& r[a].total >= 1
        }
    &&& forall|t: Seq<char>|
        tag_review_sum(qs, reviews, t, false) >= 1 ==> exists|a: int|
            0 <= a < r.len() && #[trigger] r[a].tag@ == t
    &&& forall|a: int, b: int| 0 <= a <= b < r.len() ==> r[a].accuracy <= r[b].accuracy
}

/// `e` occurs in the index list `s`.
pub open spec fn lists_index(s: Seq<usize>, e: int) -> bool {
    exists|a: int| 0 <= a < s.len() && #[trigger] s[a] == e as usize
}

/// Per-tag progress, weakest tags first.
pub fn tag_progress(questions: &[&Question], reviews: &[(String, bool, u32)]) -> (r: Vec<
    TagProgress,
>)
    requires
        card_reviews_fit(reviews@),
        forall|t: Seq<char>|
            #[trigger] tag_review_sum(deref_seq(questions@), reviews@, t, false) <= u32::MAX,
        forall|t: Seq<char>|
            #[trigger] tag_review_sum(deref_seq(questions@), reviews@, t, true) * 100 <= u32::MAX,
    ensures
        tags_of(r@, deref_seq(questions@), reviews@),
{
    let ghost qs = deref_seq(questions@);
    let tags = distinct_tags(questions);
    // Entries for every tag with a review, in order of first use.
    let mut entries: Vec<TagProgress> = Vec::new();
    let mut i: usize = 0;
    while i < tags.len()
        invariant
            0 <= i <= tags@.len(),
            qs == deref_seq(questions@),
            card_reviews_fit(reviews@),
            forall|t: Seq<char>| #[trigger] tag_review_sum(qs, reviews@, t, false) <= u32::MAX,
            forall|t: Seq<char>| #[trigger] tag_review_sum(qs, reviews@, t, true) * 100 <= u32::MAX,
            forall|a: int, b: int| 0 <= a < b < tags@.len() ==> tags@[a]@ != tags@[b]@,
            forall|a: int, b: int| 0 <= a < b < entries@.len() ==> entries@[a].tag@ != entries@[b].tag@,
            forall|a: int|
                #![trigger entries@[a]]
                0 <= a < entries@.len() ==> exists|k: int| 0 <= k < i && #[trigger] tags@[k]@ == entries@[a].tag@,
            forall|a: int|
                0 <= a < entries@.len() ==> {
                    &&& (#[trigger] entries@[a]).total == tag_review_sum(qs, reviews@, entries@[a].tag@, false)
                    &&& entries@[a].correct == tag_review_sum(qs, reviews@, entries@[a].tag@, true)
                    &&& entries@[a].accuracy == accuracy_spec(entries@[a].correct as int, entries@[a].total as int)
                    &&& entries@[a].total >= 1
                    &&& entries@[a].accuracy <= 100
                },
            forall|k: int|
                0 <= k < i && tag_review_sum(qs, reviews@, #[trigger] tags@[k]@, false) >= 1 ==> exists|a: int|
                    0 <= a < entries@.len() && #[trigger] entries@[a].tag@ == tags@[k]@,
        decreases tags.len() - i,
    {
        let (c, tot) = tag_sums(questions, reviews, &tags[i]);
        if tot >= 1 {
            proof {
                lemma_tag_correct_le_total(qs, reviews@, tags@[i as int]@);
                assert((c as int) * 100 / (tot as int) <= 100) by (nonlinear_arith)
                    requires
                        c <= tot,
                        tot >= 1,
                ;
            }
            let ghost before = entries@;
            entries.push(
                TagProgress { tag: tags[i].clone(), correct: c, total: tot, accuracy: accuracy(c, tot) },
            );
            assert forall|a: int|
                #![trigger entries@[a]]
                0 <= a < entries@.len() implies exists|k: int| 0 <= k < i + 1 && #[trigger] tags@[k]@ == entries@[a].tag@ by {
                if a < before.len() {
                    assert(entries@[a] == before[a]);
                } else {
                    assert(tags@[i as int]@ == entries@[a].tag@);
                }
            }
            assert forall|k: int|
                0 <= k < i + 1 && tag_review_sum(qs, reviews@, #[trigger] tags@[k]@, false) >= 1 implies exists|a: int|
                    0 <= a < entries@.len() && #[trigger] entries@[a].tag@ == tags@[k]@ by {
                if k < i {
                    let a = choose|a: int|
                        0 <= a < before.len() && #[trigger] before[a].tag@ == tags@[k]@;
                    assert(entries@[a] == before[a]);
                } else {
                    assert(entries@[before.len() as int].tag@ == tags@[k]@);
                }
            }
            assert forall|a: int, b: int| 0 <= a < b < entries@.len() implies entries@[a].tag@ != entries@[b].tag@ by {
                if b == before.len() {
                    let k = choose|k: int| 0 <= k < i && #[trigger] tags@[k]@ == before[a].tag@;
                    assert(entries@[a] == before[a]);
                    assert(tags@[k]@ != tags@[i as int]@);
                } else {
                    assert(entries@[a] == before[a] && entries@[b] == before[b]);
                }
            }
        }
        i += 1;
    }
    // Order the entries by accuracy: `order` lists entry indexes, sorted.
    let mut order: Vec<usize> = Vec::new();
    let mut n: usize = 0;
    while n < entries.len()
        invariant
            0 <= n <= entries@.len(),
            order@.len() == n,
            forall|a: int, b: int| 0 <= a < b < order@.len() ==> order@[a] != order@[b],
            forall|a: int| 0 <= a < order@.len() ==> #[trigger] order@[a] < n,
            forall|e: int| 0 <= e < n ==> #[trigger] lists_index(order@, e),
            forall|a: int, b: int|
                0 <= a <= b < order@.len() ==> entries@[order@[a] as int].accuracy
                    <= entries@[order@[b] as int].accuracy,
        decreases entries.len() - n,
    {
        let key = entries[n].accuracy;
        let mut pos: usize = 0;
        while pos < order.len() && entries[order[pos]].accuracy <= key
            invariant
                0 <= pos <= order@.len(),
                n < entries@.len(),
                key == entries@[n as int].accuracy,
                forall|a: int| 0 <= a < order@.len() ==> #[trigger] order@[a] < n,
                forall|a: int| 0 <= a < pos ==> entries@[order@[a] as int].accuracy <= key,
            decreases order.len() - pos,
        {
            pos += 1;
        }
        let ghost before = order@;
        proof {
            before.insert_ensures(pos as int, n);
        }
        order.insert(pos, n);
        assert forall|a: int, b: int| 0 <= a <= b < order@.len() implies entries@[order@[a] as int].accuracy
            <= entries@[order@[b] as int].accuracy by {
            if a < pos && b > pos {
                assert(order@[b] == before[b - 1]);
            } else if a == pos && b > pos {
                assert(order@[b] == before[b - 1]);
                assert(pos < before.len() && !(entries@[before[pos as int] as int].accuracy <= key));
            } else if a > pos {
                assert(order@[a] == before[a - 1] && order@[b] == before[b - 1]);
            }
        }
        assert forall|a: int, b: int| 0 <= a < b < order@.len() implies order@[a] != order@[b] by {
            if a < pos && b > pos {
                assert(order@[b] == before[b - 1]);
            } else if a == pos {
                assert(order@[b] == before[b - 1]);
            } else if b == pos {
                assert(order@[a] == before[a]);
            } else if a > pos {
                assert(order@[a] == before[a - 1] && order@[b] == before[b - 1]);
            }
        }
        assert forall|e: int| 0 <= e < n + 1 implies #[trigger] lists_index(order@, e) by {
            if e < n {
                assert(lists_index(before, e));
                let a = choose|a: int| 0 <= a < before.len() && #[trigger] before[a] == e as usize;
                if a < pos {
                    assert(order@[a] == before[a]);
                } else {
                    assert(order@[a + 1] == before[a]);
                }
            } else {
                assert(order@[pos as int] == n);
            }
        }
        assert forall|a: int| 0 <= a < order@.len() implies #[trigger] order@[a] < n + 1 by {
            if a < pos {
                assert(order@[a] == before[a]);
            } else if a > pos {
                assert(order@[a] == before[a - 1]);
            }
        }
        n += 1;
    }
    let mut r: Vec<TagProgress> = Vec::new();
    let mut k: usize = 0;
    while k < order.len()
        invariant
            0 <= k <= order@.len(),
            order@.len() == entries@.len(),
            forall|a: int| 0 <= a < order@.len() ==> #[trigger] order@[a] < entries@.len(),
            forall|e: int| 0 <= e < entries@.len() ==> #[trigger] lists_index(order@, e),
            r@.len() == k,
            forall|a: int| 0 <= a < k ==> #[trigger] r@[a] == entries@[order@[a] as int],
        decreases order.len() - k,
    {
        r.push(entries[order[k]].clone());
        k += 1;
    }
    assert forall|a: int, b: int| 0 <= a < b < r@.len() implies r@[a].tag@ != r@[b].tag@ by {
        assert(r@[a] == entries@[order@[a] as int]);
        assert(r@[b] == entries@[order@[b] as int]);
        if order@[a] < order@[b] {
        } else {
            assert(order@[a] != order@[b]);
        }
    }
    assert forall|a: int| 0 <= a < r@.len() implies {
        &&& (#[trigger] r@[a]).total == tag_review_sum(qs, reviews@, r@[a].tag@, false)
        &&& r@[a].correct == tag_review_sum(qs, reviews@, r@[a].tag@, true)
        &&& r@[a].accuracy == accuracy_spec(r@[a].correct as int, r@[a].total as int)
        &&& r@[a].total >= 1
    } by {
        assert(r@[a] == entries@[order@[a] as int]);
    }
    assert forall|t: Seq<char>|
        tag_review_sum(qs, reviews@, t, false) >= 1 implies exists|a: int|
            0 <= a < r@.len() && #[trigger] r@[a].tag@ == t by {
        lemma_tag_sum_pos(qs, reviews@, t);
        assert(listed(tags@, t));
        let x = choose|x: int| 0 <= x < tags@.len() && #[trigger] tags@[x]@ == t;
        let e = choose|e: int| 0 <= e < entries@.len() && #[trigger] entries@[e].tag@ == tags@[x]@;
        assert(lists_index(order@, e));
        let a = choose|a: int| 0 <= a < order@.len() && #[trigger] order@[a] == e as usize;
        assert(r@[a] == entries@[e]);
    }
    r
}


/// One past study session.
#[derive(Debug, PartialEq, Eq)]
pub struct SessionProgress {
    pub date: String,
    pub total: u32,
    pub correct: u32,
    pub accuracy: u32,
}

/// A session entry with its accuracy.
pub fn session_progress(date: String, total: u32, correct: u32) -> (r: SessionProgress)
    requires
        total == 0 || correct * 100 <= u32::MAX,
    ensures
        r.date == date,
        r.total == total,
        r.correct == correct,
        r.accuracy == accuracy_spec(correct as int, total as int),
{
    SessionProgress { accuracy: accuracy(correct, total), date, total, correct }
}

/// The progress dashboard of a certification.
#[derive(Debug, PartialEq, Eq)]
pub struct ProgressSummary {
    pub total: u32,
    pub introduced: u32,
    pub due_today: u32,
    pub next_due: Option<String>,
    pub new_available: u32,
    pub mastered: u32,
    pub domains: Vec<DomainProgress>,
    pub tags: Vec<TagProgress>,
    pub sessions: Vec<SessionProgress>,
}

/// The sums `summarize_progress` accumulates all fit in a `u32`, and every
/// accuracy it computes fits its `correct * 100`.
pub open spec fn progress_sums_fit(
    bank: Bank,
    qs: Seq<Question>,
    reviews: Seq<(String, bool, u32)>,
    sessions: Seq<(String, u32, u32)>,
) -> bool {
    &&& qs.len() <= u32::MAX
    &&& card_reviews_fit(reviews)
    &&& forall|id: u32|
        #[trigger] parsed_domain_ids(bank.domains@).contains(id) ==> {
            &&& domain_review_sum(qs, reviews, id, false) <= u32::MAX
            &&& domain_review_sum(qs, reviews, id, true) * 100 <= u32::MAX
        }
    &&& forall|t: Seq<char>| #[trigger] tag_review_sum(qs, reviews, t, false) <= u32::MAX
    &&& forall|t: Seq<char>| #[trigger] tag_review_sum(qs, reviews, t, true) * 100 <= u32::MAX
    &&& forall|k: int|
        0 <= k < sessions.len() ==> (#[trigger] sessions[k]).1 == 0 || sessions[k].2 * 100 <= u32::MAX
}

/// Progress over `questions`: card counts, the next due date, per-domain
/// and per-tag review accuracy, and the given sessions with their accuracy.
pub fn summarize_progress(
    bank: &Bank,
    questions: &[&Question],
    cards: &[CardState],
    reviews: &[(String, bool, u32)],
    sessions: &[(String, u32, u32)],
    today: &str,
) -> (s: ProgressSummary)
    requires
        keys_distinct(bank.domains@),
        progress_sums_fit(*bank, deref_seq(questions@), reviews@, sessions@),
    ensures
        s.total == questions@.len(),
        s.introduced == deref_seq(questions@).filter(
            |q: Question| is_introduced(cards@, q),
        ).len(),
        s.due_today == deref_seq(questions@).filter(
            |q: Question| is_due_today(cards@, today@, q),
        ).len(),
        s.mastered == deref_seq(questions@).filter(|q: Question| is_mastered(cards@, q)).len(),
        s.new_available == s.total - s.introduced,
        s.due_today > 0 ==> (s.next_due matches Some(d) && d@ == today@),
        s.due_today == 0 ==> (s.next_due is None <==> !exists|i: int, d: Seq<char>|
            0 <= i < questions@.len() && #[trigger] has_future_due(
                cards@,
                today@,
                *questions@[i],
                d,
            )),
        s.due_today == 0 ==> (s.next_due matches Some(m) ==> exists|i: int|
            0 <= i < questions@.len() && #[trigger] has_future_due(
                cards@,
                today@,
                *questions@[i],
                m@,
            )),
        s.due_today == 0 ==> (s.next_due matches Some(m) ==> forall|i: int, d: Seq<char>|
            0 <= i < questions@.len() && #[trigger] has_future_due(
                cards@,
                today@,
                *questions@[i],
                d,
            ) ==> text_le(m@, d)),
        forall|a: int, b: int|
            0 <= a <= b < s.domains@.len() ==> s.domains@[a].id <= s.domains@[b].id,
        s.domains@.map_values(|p: DomainProgress| p.id).to_multiset() =~= parsed_domain_ids(
            bank.domains@,
        ).to_multiset(),
        forall|a: int|
            0 <= a < s.domains@.len() ==> domain_progress_of(
                #[trigger] s.domains@[a],
                *bank,
                deref_seq(questions@),
                cards@,
                reviews@,
                s.domains@[a].id,
            ),
        tags_of(s.tags@, deref_seq(questions@), reviews@),
        s.sessions@.len() == sessions@.len(),
        forall|k: int|
            0 <= k < sessions@.len() ==> {
                &&& (#[trigger] s.sessions@[k]).date == sessions@[k].0
                &&& s.sessions@[k].total == sessions@[k].1
                &&& s.sessions@[k].correct == sessions@[k].2
                &&& s.sessions@[k].accuracy == accuracy_spec(
                    sessions@[k].2 as int,
                    sessions@[k].1 as int,
                )
            },
{
    let ghost qs = deref_seq(questions@);
    let total = questions.len() as u32;
    let introduced = count_questions(questions, cards, today, CardCount::Introduced) as u32;
    let due_today = count_questions(questions, cards, today, CardCount::DueToday) as u32;
    let mastered = count_questions(questions, cards, today, CardCount::Mastered) as u32;
    let next_due = if due_today > 0 {
        Some(crate::text::to_owned(today))
    } else {
        earliest_future_due(questions, cards, today)
    };

    let ids = sorted_domain_ids(&bank.domains);
    let mut domains: Vec<DomainProgress> = Vec::new();
    let mut i: usize = 0;
    while i < ids.len()
        invariant
            0 <= i <= ids@.len(),
            qs == deref_seq(questions@),
            keys_distinct(bank.domains@),
            progress_sums_fit(*bank, qs, reviews@, sessions@),
            ids@.to_multiset() =~= parsed_domain_ids(bank.domains@).to_multiset(),
            domains@.len() == i,
            forall|a: int|
                0 <= a < i ==> #[trigger] domains@[a].id == ids@[a] && domain_progress_of(
                    domains@[a],
                    *bank,
                    qs,
                    cards@,
                    reviews@,
                    ids@[a],
                ),
        decreases ids.len() - i,
    {
        proof {
            broadcast use vstd::seq_lib::group_to_multiset_ensures;

            assert(ids@.contains(ids@[i as int]));
            assert(ids@.to_multiset().count(ids@[i as int]) > 0);
            assert(parsed_domain_ids(bank.domains@).contains(ids@[i as int]));
        }
        domains.push(domain_progress(bank, questions, cards, reviews, ids[i]));
        i += 1;
    }
    assert(domains@.map_values(|p: DomainProgress| p.id) =~= ids@);

    let tags = tag_progress(questions, reviews);

    let mut session_list: Vec<SessionProgress> = Vec::new();
    let mut k: usize = 0;
    while k < sessions.len()
        invariant
            0 <= k <= sessions@.len(),
            progress_sums_fit(*bank, qs, reviews@, sessions@),
            session_list@.len() == k,
            forall|x: int|
                0 <= x < k ==> {
                    &&& (#[trigger] session_list@[x]).date == sessions@[x].0
                    &&& session_list@[x].total == sessions@[x].1
                    &&& session_list@[x].correct == sessions@[x].2
                    &&& session_list@[x].accuracy == accuracy_spec(
                        sessions@[x].2 as int,
                        sessions@[x].1 as int,
                    )
                },
        decreases sessions.len() - k,
    {
        assert(sessions@[k as int].1 == 0 || sessions@[k as int].2 * 100 <= u32::MAX);
        let (date, t, c) = &sessions[k];
        session_list.push(session_progress(date.clone(), *t, *c));
        k += 1;
    }

    ProgressSummary {
        total,
        introduced,
        due_today,
        next_due,
        new_available: total - introduced,
        mastered,
        domains,
        tags,
        sessions: session_list,
    }
}


/// The reviews of all the questions, summed card by card: the correct ones
/// or all.
pub open spec fn questions_review_sum(qs: Seq<Question>, reviews: Seq<(String, bool, u32)>, correct: bool) -> nat
    decreases qs.len(),
{
    if qs.len() == 0 {
        0
    } else {
        questions_review_sum(qs.drop_last(), reviews, correct) + if correct {
            review_correct(reviews, qs.last().id@)
        } else {
            review_total(reviews, qs.last().id@)
        }
    }
}

/// A domain's review sums count the reviews of its own questions and of no
/// others: they are the sums over the questions of that domain.
pub proof fn lemma_domain_sums_count_own_questions(
    qs: Seq<Question>,
    reviews: Seq<(String, bool, u32)>,
    id: u32,
    correct: bool,
)
    ensures
        domain_review_sum(qs, reviews, id, correct) == questions_review_sum(
            qs.filter(|q: Question| q.domain == id),
            reviews,
            correct,
        ),
    decreases qs.len(),
{
    reveal_with_fuel(Seq::<_>::filter, 1);
    if qs.len() > 0 {
        lemma_domain_sums_count_own_questions(qs.drop_last(), reviews, id, correct);
        let f = qs.drop_last().filter(|q: Question| q.domain == id);
        if qs.last().domain == id {
            assert(f.push(qs.last()).drop_last() =~= f);
        }
    }
}

} // verus!
