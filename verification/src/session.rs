//! Reviewing a card: the FSRS grade a rating stands for, how a review
//! updates the card's stored state, and how the replies typed at the study
//! prompts are read.
use vstd::prelude::*;

use crate::card::CardState;
use crate::questions::{deref_seq, Question};
use crate::text::{decimal, lowercase, to_lowercase, to_uppercase, uppercase, u32_to_string};

verus! {

/// The FSRS next state a review is scheduled from.
#[derive(Debug, PartialEq, Eq, Clone, Copy)]
pub enum FsrsGrade {
    Again,
    Good,
    Easy,
}

/// The grade of a stored rating: 1 is Again, 3 Good, 4 Easy.
pub open spec fn grade_of(rating: u32) -> Option<FsrsGrade> {
    if rating == 1 {
        Some(FsrsGrade::Again)
    } else if rating == 3 {
        Some(FsrsGrade::Good)
    } else if rating == 4 {
        Some(FsrsGrade::Easy)
    } else {
        None
    }
}

/// The grade a rating schedules with; any other rating is refused with a
/// message that names it.
pub fn fsrs_grade(rating: u32) -> (r: Result<FsrsGrade, String>)
    ensures
        r is Ok <==> grade_of(rating) is Some,
        r matches Ok(g) ==> grade_of(rating) == Some(g),
        r matches Err(m) ==> m@ == "Unsupported FSRS rating: "@ + decimal(rating as nat),
{
    if rating == 1 {
        Ok(FsrsGrade::Again)
    } else if rating == 3 {
        Ok(FsrsGrade::Good)
    } else if rating == 4 {
        Ok(FsrsGrade::Easy)
    } else {
        let mut m = crate::text::to_owned("Unsupported FSRS rating: ");
        let n = u32_to_string(rating);
        m.append(n.as_str());
        Err(m)
    }
}

/// A scheduled review: the FSRS memory state after it (the bit patterns
/// of the `f32` stability and difficulty) and the next due date.
#[derive(Debug, PartialEq, Eq)]
pub struct ScheduledReview {
    pub stability: u32,
    pub difficulty: u32,
    pub due: String,
}

/// The card after a review: the new memory state and due date, the review
/// time, and a run of correct answers that grows by one on a correct answer
/// (stopping at `u32::MAX`) and starts over on a wrong one.
pub fn apply_review(card: &CardState, scheduled: ScheduledReview, reviewed_at: String, correct: bool) -> (r: CardState)
    ensures
        r.id == card.id,
        r.cert == card.cert,
        r.stability == Some(scheduled.stability),
        r.difficulty == Some(scheduled.difficulty),
        r.due == Some(scheduled.due),
        r.last_review == Some(reviewed_at),
        r.reps == (if correct {
            if card.reps < u32::MAX {
                (card.reps + 1) as u32
            } else {
                u32::MAX
            }
        } else {
            0
        }),
{
    CardState {
        id: card.id.clone(),
        cert: card.cert.clone(),
        stability: Some(scheduled.stability),
        difficulty: Some(scheduled.difficulty),
        due: Some(scheduled.due),
        last_review: Some(reviewed_at),
        reps: if correct {
            card.reps.saturating_add(1)
        } else {
            0
        },
    }
}

/// The rating a reply to "Confident or unsure?" gives after a correct
/// answer, read case-insensitively: confident (also an empty reply) is 4,
/// unsure is 3; anything else asks again.
pub open spec fn confidence_of(reply: Seq<char>) -> Option<u32> {
    let r = lowercase(reply);
    if r == "c"@ || r == "confident"@ || r == ""@ {
        Some(4u32)
    } else if r == "u"@ || r == "unsure"@ {
        Some(3u32)
    } else {
        None
    }
}

/// Reads a reply to the confidence prompt; `None` means ask again.
pub fn rating_for_reply(reply: &str) -> (r: Option<u32>)
    ensures
        r == confidence_of(reply@),
{
    let l = to_lowercase(reply);
    let s = l.as_str();
    if crate::text::str_eq(s, "c") || crate::text::str_eq(s, "confident") || crate::text::str_eq(s, "") {
        Some(4)
    } else if crate::text::str_eq(s, "u") || crate::text::str_eq(s, "unsure") {
        Some(3)
    } else {
        None
    }
}

/// The rating a review gets: 1 (Again) for a wrong answer, otherwise what
/// the confidence reply says.
pub fn ask_rating(correct: bool, reply: &str) -> (r: Option<u32>)
    ensures
        !correct ==> r == Some(1u32),
        correct ==> r == confidence_of(reply@),
{
    if !correct {
        return Some(1);
    }
    rating_for_reply(reply)
}

/// What a reply at the answer prompt means.
#[derive(Debug, PartialEq, Eq)]
pub enum AnswerReply {
    /// Stop the session.
    Quit,
    /// One of the option letters, upper-cased.
    Answer(String),
    /// Not understood: ask again.
    Again,
}

/// A reply at the answer prompt, read case-insensitively: `Q` (or the end
/// of input) quits, `A` to `D` answer, anything else asks again.
pub fn read_answer_reply(reply: Option<&str>) -> (r: AnswerReply)
    ensures
        match reply {
            None => r == AnswerReply::Quit,
            Some(s) => {
                let u = uppercase(s@);
                if u == "Q"@ {
                    r == AnswerReply::Quit
                } else if u == "A"@ || u == "B"@ || u == "C"@ || u == "D"@ {
                    r matches AnswerReply::Answer(a) && a@ == u
                } else {
                    r == AnswerReply::Again
                }
            },
        },
{
    match reply {
        None => AnswerReply::Quit,
        Some(s) => {
            let u = to_uppercase(s);
            let t = u.as_str();
            if crate::text::str_eq(t, "Q") {
                AnswerReply::Quit
            } else if crate::text::str_eq(t, "A") || crate::text::str_eq(t, "B") || crate::text::str_eq(
                t,
                "C",
            ) || crate::text::str_eq(t, "D") {
                AnswerReply::Answer(u)
            } else {
                AnswerReply::Again
            }
        },
    }
}

/// Only three ratings are ever given: a wrong answer is rated Again, a
/// correct one Good or Easy. Every rating the study prompt settles on is
/// one that the review API accepts for the same answer, and one that FSRS
/// schedules.
pub proof fn lemma_prompt_ratings_are_accepted(correct: bool, reply: Seq<char>)
    ensures
        (if correct {
            confidence_of(reply)
        } else {
            Some(1u32)
        }) matches Some(r) ==> {
            &&& grade_of(r) is Some
            &&& (correct && (r == 3 || r == 4)) || (!correct && r == 1)
        },
{
}

/// The questions of a quiz over everything, in random order: the same
/// questions, each as often as given.
pub fn shuffled_questions<'a>(questions: &[&'a Question]) -> (r: Vec<&'a Question>)
    ensures
        deref_seq(r@).to_multiset() == deref_seq(questions@).to_multiset(),
{
    let mut v: Vec<&'a Question> = Vec::new();
    let mut i: usize = 0;
    while i < questions.len()
        invariant
            0 <= i <= questions@.len(),
            v@ == questions@.take(i as int),
        decreases questions.len() - i,
    {
        v.push(questions[i]);
        assert(v@ =~= questions@.take(i + 1));
        i += 1;
    }
    assert(questions@.take(questions@.len() as int) =~= questions@);
    let ghost before = v@;
    crate::api::shuffle_in_place(&mut v);
    proof {
        crate::api::lemma_map_keeps_multiset(v@, before, |q: &Question| *q);
    }
    v
}

} // verus!
