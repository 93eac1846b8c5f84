//! Question banks: questions, glossary, domains, and the queries on them.
use vstd::prelude::*;

use crate::text::{decimal, to_owned, u32_to_string};

verus! {

/// A string-keyed table, the bank's form of a JSON object: a list of
/// `(key, value)` pairs in which no key occurs twice.
pub open spec fn keys_distinct(pairs: Seq<(String, String)>) -> bool {
    forall|i: int, j: int|
        0 <= i < pairs.len() && 0 <= j < pairs.len() && i != j ==> #[trigger] pairs[i].0@
            != #[trigger] pairs[j].0@
}

/// The table has an entry under `key`.
pub open spec fn has_key(pairs: Seq<(String, String)>, key: Seq<char>) -> bool {
    exists|i: int| 0 <= i < pairs.len() && #[trigger] pairs[i].0@ == key
}

/// The value under `key` (meaningful when `has_key`).
pub open spec fn value_of(pairs: Seq<(String, String)>, key: Seq<char>) -> Seq<char> {
    pairs[choose|i: int| 0 <= i < pairs.len() && #[trigger] pairs[i].0@ == key].1@
}

/// The table as pairs of character sequences.
pub open spec fn pairs_view(pairs: Seq<(String, String)>) -> Seq<(Seq<char>, Seq<char>)> {
    pairs.map_values(|p: (String, String)| (p.0@, p.1@))
}

/// Looks `key` up in a table whose keys are distinct.
pub fn lookup<'a>(pairs: &'a Vec<(String, String)>, key: &str) -> (r: Option<&'a String>)
    requires
        keys_distinct(pairs@),
    ensures
        r is Some <==> has_key(pairs@, key@),
        r matches Some(v) ==> v@ == value_of(pairs@, key@),
{
    let mut i: usize = 0;
    while i < pairs.len()
        invariant
            0 <= i <= pairs.len(),
            keys_distinct(pairs@),
            forall|k: int| 0 <= k < i ==> pairs@[k].0@ != key@,
        decreases pairs.len() - i,
    {
        if crate::text::str_eq(pairs[i].0.as_str(), key) {
            proof {
                assert(pairs@[i as int].0@ == key@);
                let c = choose|j: int| 0 <= j < pairs@.len() && #[trigger] pairs@[j].0@ == key@;
                if c != i as int {
                    assert(pairs@[c].0@ != pairs@[i as int].0@);
                }
            }
            return Some(&pairs[i].1);
        }
        i += 1;
    }
    None
}

/// Primary source citation of a question.
#[derive(Debug)]
pub struct QuestionSource {
    pub url: String,
    pub quote: String,
    pub confidence: String,
    pub issues: Vec<String>,
}

/// A term of art defined once per bank and shown as a tooltip wherever the
/// term appears in question text.
#[derive(Debug)]
pub struct GlossaryEntry {
    pub term: String,
    /// Other surface forms of the same concept.
    pub aliases: Vec<String>,
    pub definition: String,
    pub source_url: String,
    pub source_title: Option<String>,
}

/// A multiple-choice question. `options` maps each answer letter to its
/// text; `answer` is the letter of the correct option.
#[derive(Debug)]
pub struct Question {
    pub id: String,
    pub domain: u32,
    pub scenario: String,
    pub question: String,
    pub options: Vec<(String, String)>,
    pub answer: String,
    pub explanation: String,
    pub tags: Vec<String>,
    /// Glossary terms (or aliases) that must not be tooltipped while this
    /// question is unanswered.
    pub glossary_exclude: Vec<String>,
    pub source: Option<QuestionSource>,
}

/// A question bank: the certification id, its display name, the domain
/// table (decimal domain number to name), the glossary and the questions.
#[derive(Debug)]
pub struct Bank {
    pub cert: String,
    pub name: String,
    pub domains: Vec<(String, String)>,
    pub glossary: Vec<GlossaryEntry>,
    pub questions: Vec<Question>,
}

/// The questions behind a list of references.
pub open spec fn deref_seq(s: Seq<&Question>) -> Seq<Question> {
    s.map_values(|q: &Question| *q)
}

/// The question carries the tag `tag`.
pub open spec fn has_tag(q: Question, tag: Seq<char>) -> bool {
    exists|i: int| 0 <= i < q.tags@.len() && #[trigger] q.tags@[i]@ == tag
}

/// The characters of an optional string slice.
pub open spec fn opt_view(s: Option<&str>) -> Option<Seq<char>> {
    match s {
        Some(t) => Some(t@),
        None => None,
    }
}

/// The question passes the optional domain and tag filters.
pub open spec fn passes_filter(q: Question, domain: Option<u32>, tag: Option<Seq<char>>) -> bool {
    &&& (domain matches Some(d) ==> q.domain == d)
    &&& (tag matches Some(t) ==> has_tag(q, t))
}

impl Question {
    /// Whether the question carries the tag `tag`.
    pub fn has_tag(&self, tag: &str) -> (r: bool)
        ensures
            r == has_tag(*self, tag@),
    {
        let mut i: usize = 0;
        while i < self.tags.len()
            invariant
                0 <= i <= self.tags.len(),
                forall|k: int| 0 <= k < i ==> self.tags@[k]@ != tag@,
            decreases self.tags.len() - i,
        {
            if crate::text::str_eq(self.tags[i].as_str(), tag) {
                return true;
            }
            i += 1;
        }
        false
    }
}

impl Bank {
    /// The domain table is a table (no key twice) and every question's
    /// option table is one too.
    pub open spec fn wf(&self) -> bool {
        &&& keys_distinct(self.domains@)
        &&& forall|i: int|
            0 <= i < self.questions@.len() ==> keys_distinct(#[trigger] self.questions@[i].options@)
    }

    /// The questions in bank order that pass the optional domain and tag
    /// filters.
    pub fn filter<'a>(&'a self, domain: Option<u32>, tag: Option<&str>) -> (r: Vec<&'a Question>)
        ensures
            deref_seq(r@) == self.questions@.filter(
                |q: Question| passes_filter(q, domain, opt_view(tag)),
            ),
    {
        let ghost pred = |q: Question| passes_filter(q, domain, opt_view(tag));
        let mut r: Vec<&'a Question> = Vec::new();
        let mut i: usize = 0;
        while i < self.questions.len()
            invariant
                0 <= i <= self.questions.len(),
                pred == (|q: Question| passes_filter(q, domain, opt_view(tag))),
                deref_seq(r@) == self.questions@.take(i as int).filter(pred),
            decreases self.questions.len() - i,
        {
            let q = &self.questions[i];
            let keep = match domain {
                Some(d) => q.domain == d,
                None => true,
            } && match tag {
                Some(t) => q.has_tag(t),
                None => true,
            };
            proof {
                reveal_with_fuel(Seq::<_>::filter, 1);
                assert(self.questions@.take(i + 1).drop_last() =~= self.questions@.take(i as int));
                assert(keep == pred(*q));
            }
            if keep {
                r.push(q);
                assert(deref_seq(r@) =~= self.questions@.take(i as int).filter(pred).push(*q));
            }
            i += 1;
        }
        assert(self.questions@.take(self.questions@.len() as int) =~= self.questions@);
        r
    }

    /// The name of domain `domain`, or `"Unknown"` when the bank has no
    /// such domain.
    pub fn domain_name(&self, domain: u32) -> (r: String)
        requires
            keys_distinct(self.domains@),
        ensures
            has_key(self.domains@, decimal(domain as nat)) ==> r@ == value_of(
                self.domains@,
                decimal(domain as nat),
            ),
            !has_key(self.domains@, decimal(domain as nat)) ==> r@ == "Unknown"@,
    {
        let key = u32_to_string(domain);
        match lookup(&self.domains, key.as_str()) {
            Some(name) => name.clone(),
            None => to_owned("Unknown"),
        }
    }

    /// Whether a question with id `id` is in the bank.
    pub fn has_question(&self, id: &str) -> (r: bool)
        ensures
            r == exists|i: int| 0 <= i < self.questions@.len() && #[trigger] self.questions@[i].id@ == id@,
    {
        let mut i: usize = 0;
        while i < self.questions.len()
            invariant
                0 <= i <= self.questions.len(),
                forall|k: int| 0 <= k < i ==> self.questions@[k].id@ != id@,
            decreases self.questions.len() - i,
        {
            if crate::text::str_eq(self.questions[i].id.as_str(), id) {
                return true;
            }
            i += 1;
        }
        false
    }
}


/// The filters keep a question exactly when it is in the asked domain (if
/// one is asked) and lists the asked tag among its tags (if one is asked).
pub proof fn lemma_filter_is_domain_and_tag(q: Question, domain: Option<u32>, tag: Option<Seq<char>>)
    ensures
        passes_filter(q, domain, tag) <==> (domain is None || domain == Some(q.domain)) && (tag is None
            || exists|i: int| 0 <= i < q.tags@.len() && q.tags@[i]@ == tag->Some_0),
{
    if tag is Some && (exists|i: int| 0 <= i < q.tags@.len() && q.tags@[i]@ == tag->Some_0) {
        let i = choose|i: int| 0 <= i < q.tags@.len() && q.tags@[i]@ == tag->Some_0;
        assert(has_tag(q, tag->Some_0));
    }
}

} // verus!
