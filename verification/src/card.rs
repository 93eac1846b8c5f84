//! Per-card scheduling state.
use vstd::prelude::*;

use crate::text::{byte_prefix, str_le, str_prefix, text_le};
use vstd::utf8::encode_utf8;

verus! {

/// What is stored of one card of one certification. `stability` and
/// `difficulty` are the FSRS memory state, kept as the bit patterns of
/// their `f32` values (`f32::to_bits`); the rules here never compute with
/// them. `due` is a `%Y-%m-%d` date and `last_review` a
/// `%Y-%m-%dT%H:%M:%S` timestamp; a card that was never reviewed has no
/// `due`.
#[derive(Debug)]
pub struct CardState {
    pub id: String,
    pub cert: String,
    pub stability: Option<u32>,
    pub difficulty: Option<u32>,
    pub due: Option<String>,
    pub last_review: Option<String>,
    pub reps: u32,
}

/// A copy of an optional string.
pub fn copy_opt_string(s: &Option<String>) -> (r: Option<String>)
    ensures
        r == *s,
{
    match s {
        Some(x) => Some(x.clone()),
        None => None,
    }
}

impl Clone for CardState {
    fn clone(&self) -> (r: Self)
        ensures
            r == *self,
    {
        CardState {
            id: self.id.clone(),
            cert: self.cert.clone(),
            stability: self.stability,
            difficulty: self.difficulty,
            due: copy_opt_string(&self.due),
            last_review: copy_opt_string(&self.last_review),
            reps: self.reps,
        }
    }
}

impl Default for CardState {
    fn default() -> (r: Self)
        ensures
            r.id@ == Seq::<char>::empty(),
            r.cert@ == Seq::<char>::empty(),
            r.stability is None,
            r.difficulty is None,
            r.due is None,
            r.last_review is None,
            r.reps == 0,
    {
        CardState {
            id: String::new(),
            cert: String::new(),
            stability: None,
            difficulty: None,
            due: None,
            last_review: None,
            reps: 0,
        }
    }
}

/// The card has a due date on or before `today` (dates compare as text).
pub open spec fn due_on(card: CardState, today: Seq<char>) -> bool {
    match card.due {
        Some(d) => text_le(d@, today),
        None => false,
    }
}

impl CardState {
    /// A card is new until it has been scheduled.
    pub fn is_new(&self) -> (r: bool)
        ensures
            r == (self.due is None),
    {
        self.due.is_none()
    }

    /// True when this card's due date is on or before `today` (a `%Y-%m-%d`
    /// string).
    pub fn is_due_on(&self, today: &str) -> (r: bool)
        ensures
            r == due_on(*self, today@),
    {
        match &self.due {
            Some(d) => str_le(d.as_str(), today),
            None => false,
        }
    }
}

/// What `chrono::NaiveDate::parse_from_str(text, "%Y-%m-%d")` gives, as the
/// date's day number counted from 1 January of year 1 (`num_days_from_ce`,
/// which makes that day 1); `None` when the text is not such a date.
pub uninterp spec fn ymd_day_number(text: Seq<char>) -> Option<int>;

/// Parses a `%Y-%m-%d` date into its day number.
#[verifier::external_body]
fn parse_ymd_day(text: &str) -> (r: Option<i32>)
    ensures
        r is None <==> ymd_day_number(text@) is None,
        r matches Some(d) ==> ymd_day_number(text@) == Some(d as int),
{
    match chrono::NaiveDate::parse_from_str(text, "%Y-%m-%d") {
        Ok(d) => Some(chrono::Datelike::num_days_from_ce(&d)),
        Err(_) => None,
    }
}

/// The days from the card's last review to the day numbered `today`: none
/// for a card never reviewed, one whose review time is shorter than ten
/// bytes or does not start with a `%Y-%m-%d` date, or one reviewed after
/// `today`.
pub open spec fn days_since(card: CardState, today: int) -> int {
    match card.last_review {
        None => 0,
        Some(lr) => if (encode_utf8(lr@).len() as usize) < 10 {
            0
        } else {
            match byte_prefix(lr@, 10) {
                None => 0,
                Some(p) => match ymd_day_number(p) {
                    None => 0,
                    Some(d) => if today - d > 0 {
                        today - d
                    } else {
                        0
                    },
                },
            }
        },
    }
}

impl CardState {
    /// Whole days since the last review, counted to the day numbered
    /// `today` (`num_days_from_ce`). Only the date part (the first ten
    /// bytes) of the review time counts.
    pub fn days_since_review(&self, today: i32) -> (r: u32)
        requires
            self.last_review matches Some(lr) ==> ((encode_utf8(lr@).len() as usize) >= 10 ==> byte_prefix(lr@, 10) is Some),
        ensures
            r == days_since(*self, today as int),
    {
        let lr = match &self.last_review {
            Some(lr) => lr,
            None => return 0,
        };
        if lr.as_str().len() < 10 {
            return 0;
        }
        let date = match str_prefix(lr.as_str(), 10) {
            Some(p) => p,
            None => return 0,
        };
        let d = match parse_ymd_day(date) {
            Some(d) => d,
            None => return 0,
        };
        let diff: i64 = today as i64 - d as i64;
        if diff > 0 {
            diff as u32
        } else {
            0
        }
    }
}


/// Elapsed days are exact: for a review whose first ten bytes are a date
/// `d`, the days since it are `today - d` when `d` is on or before
/// `today`, however far back, and none when it is later.
pub proof fn lemma_days_since_is_exact(card: CardState, today: int, lr: String, p: Seq<char>, d: int)
    requires
        card.last_review == Some(lr),
        (encode_utf8(lr@).len() as usize) >= 10,
        byte_prefix(lr@, 10) == Some(p),
        ymd_day_number(p) == Some(d),
    ensures
        d <= today ==> days_since(card, today) == today - d,
        d > today ==> days_since(card, today) == 0,
        days_since(card, today) >= 0,
{
}

} // verus!
