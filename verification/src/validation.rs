//! The rules a question bank must meet before it is used.
use vstd::prelude::*;

use crate::progress::position_of;
use crate::questions::{has_key, Bank, GlossaryEntry, Question};
use crate::text::{
    decimal, has_prefix, is_blank, lowercase, starts_with, to_lowercase, to_owned, trim,
    trimmed, u32_to_string,
};

verus! {

/// Why a bank was rejected.
#[derive(Debug, PartialEq, Eq)]
pub enum BankError {
    EmptyGlossaryTerm,
    EmptyDefinition { term: String },
    BadSourceUrl { term: String },
    EmptyAlias { term: String },
    DuplicateSurface { surface: String },
    EmptyQuestionId,
    DuplicateQuestionId { id: String },
    UnknownDomain { id: String, domain: u32 },
    NoOptions { id: String },
    AnswerNotInOptions { id: String, answer: String },
    UnknownExclude { id: String, term: String },
}

/// A `BankError` with its strings as character sequences.
pub enum BankFault {
    EmptyGlossaryTerm,
    EmptyDefinition { term: Seq<char> },
    BadSourceUrl { term: Seq<char> },
    EmptyAlias { term: Seq<char> },
    DuplicateSurface { surface: Seq<char> },
    EmptyQuestionId,
    DuplicateQuestionId { id: Seq<char> },
    UnknownDomain { id: Seq<char>, domain: u32 },
    NoOptions { id: Seq<char> },
    AnswerNotInOptions { id: Seq<char>, answer: Seq<char> },
    UnknownExclude { id: Seq<char>, term: Seq<char> },
}

impl View for BankError {
    type V = BankFault;

    open spec fn view(&self) -> BankFault {
        match self {
            BankError::EmptyGlossaryTerm => BankFault::EmptyGlossaryTerm,
            BankError::EmptyDefinition { term } => BankFault::EmptyDefinition { term: term@ },
            BankError::BadSourceUrl { term } => BankFault::BadSourceUrl { term: term@ },
            BankError::EmptyAlias { term } => BankFault::EmptyAlias { term: term@ },
            BankError::DuplicateSurface { surface } => BankFault::DuplicateSurface {
                surface: surface@,
            },
            BankError::EmptyQuestionId => BankFault::EmptyQuestionId,
            BankError::DuplicateQuestionId { id } => BankFault::DuplicateQuestionId { id: id@ },
            BankError::UnknownDomain { id, domain } => BankFault::UnknownDomain {
                id: id@,
                domain: *domain,
            },
            BankError::NoOptions { id } => BankFault::NoOptions { id: id@ },
            BankError::AnswerNotInOptions { id, answer } => BankFault::AnswerNotInOptions {
                id: id@,
                answer: answer@,
            },
            BankError::UnknownExclude { id, term } => BankFault::UnknownExclude {
                id: id@,
                term: term@,
            },
        }
    }
}

/// The human-readable text of a rejection.
pub open spec fn fault_message(f: BankFault) -> Seq<char> {
    match f {
        BankFault::EmptyGlossaryTerm => "Glossary terms cannot be empty"@,
        BankFault::EmptyDefinition { term } => "Glossary term '"@ + term
            + "' has an empty definition"@,
        BankFault::BadSourceUrl { term } => "Glossary term '"@ + term
            + "' source URL must start with http:// or https://"@,
        BankFault::EmptyAlias { term } => "Glossary term '"@ + term + "' has an empty alias"@,
        BankFault::DuplicateSurface { surface } => "Duplicate glossary term or alias: "@
            + surface,
        BankFault::EmptyQuestionId => "Question IDs cannot be empty"@,
        BankFault::DuplicateQuestionId { id } => "Duplicate question ID: "@ + id,
        BankFault::UnknownDomain { id, domain } => "Question "@ + id
            + " references unknown domain "@ + decimal(domain as nat),
        BankFault::NoOptions { id } => "Question "@ + id + " must have at least one option"@,
        BankFault::AnswerNotInOptions { id, answer } => "Question "@ + id + " answer "@ + answer
            + " is not in options"@,
        BankFault::UnknownExclude { id, term } => "Question "@ + id
            + " excludes unknown glossary term '"@ + term + "'"@,
    }
}

/// `a` followed by `b`.
fn join(a: String, b: &str) -> (r: String)
    ensures
        r@ == a@ + b@,
{
    let mut a = a;
    a.append(b);
    a
}

impl BankError {
    /// The human-readable text of the rejection.
    pub fn message(&self) -> (r: String)
        ensures
            r@ == fault_message(self@),
    {
        match self {
            BankError::EmptyGlossaryTerm => to_owned("Glossary terms cannot be empty"),
            BankError::EmptyDefinition { term } => join(
                join(to_owned("Glossary term '"), term.as_str()),
                "' has an empty definition",
            ),
            BankError::BadSourceUrl { term } => join(
                join(to_owned("Glossary term '"), term.as_str()),
                "' source URL must start with http:// or https://",
            ),
            BankError::EmptyAlias { term } => join(
                join(to_owned("Glossary term '"), term.as_str()),
                "' has an empty alias",
            ),
            BankError::DuplicateSurface { surface } => join(
                to_owned("Duplicate glossary term or alias: "),
                surface.as_str(),
            ),
            BankError::EmptyQuestionId => to_owned("Question IDs cannot be empty"),
            BankError::DuplicateQuestionId { id } => join(
                to_owned("Duplicate question ID: "),
                id.as_str(),
            ),
            BankError::UnknownDomain { id, domain } => {
                let d = u32_to_string(*domain);
                join(
                    join(join(to_owned("Question "), id.as_str()), " references unknown domain "),
                    d.as_str(),
                )
            },
            BankError::NoOptions { id } => join(
                join(to_owned("Question "), id.as_str()),
                " must have at least one option",
            ),
            BankError::AnswerNotInOptions { id, answer } => join(
                join(join(join(to_owned("Question "), id.as_str()), " answer "), answer.as_str()),
                " is not in options",
            ),
            BankError::UnknownExclude { id, term } => join(
                join(
                    join(join(to_owned("Question "), id.as_str()), " excludes unknown glossary term '"),
                    term.as_str(),
                ),
                "'",
            ),
        }
    }
}

/// The form under which a glossary surface is matched: trimmed and
/// lower-cased.
pub open spec fn surface_form(s: Seq<char>) -> Seq<char> {
    lowercase(trimmed(s))
}

/// The characters of each string.
pub open spec fn views(v: Seq<String>) -> Seq<Seq<char>> {
    v.map_values(|s: String| s@)
}

/// The surfaces of a glossary entry: its term, then its aliases.
pub open spec fn entry_surfaces(e: GlossaryEntry) -> Seq<Seq<char>> {
    seq![e.term@] + views(e.aliases@)
}

/// Checks the surfaces `forms` of the entry named `term` in order against
/// the surface forms `seen` so far: the first empty or already-seen
/// surface is the problem; otherwise the forms seen afterwards.
pub open spec fn check_surfaces(term: Seq<char>, forms: Seq<Seq<char>>, seen: Seq<Seq<char>>) -> Result<
    Seq<Seq<char>>,
    BankFault,
>
    decreases forms.len(),
{
    if forms.len() == 0 {
        Ok(seen)
    } else if is_blank(forms[0]) {
        Err(BankFault::EmptyAlias { term })
    } else if seen.contains(surface_form(forms[0])) {
        Err(BankFault::DuplicateSurface { surface: forms[0] })
    } else {
        check_surfaces(term, forms.drop_first(), seen.push(surface_form(forms[0])))
    }
}

/// Checks one glossary entry given the surface forms of the entries
/// before it.
pub open spec fn check_entry(e: GlossaryEntry, seen: Seq<Seq<char>>) -> Result<
    Seq<Seq<char>>,
    BankFault,
> {
    if is_blank(e.term@) {
        Err(BankFault::EmptyGlossaryTerm)
    } else if is_blank(e.definition@) {
        Err(BankFault::EmptyDefinition { term: e.term@ })
    } else if !has_prefix(e.source_url@, "https://"@) && !has_prefix(e.source_url@, "http://"@) {
        Err(BankFault::BadSourceUrl { term: e.term@ })
    } else {
        check_surfaces(e.term@, entry_surfaces(e), seen)
    }
}

/// Checks the glossary entries in order: the first problem, or the surface
/// forms of the whole glossary.
pub open spec fn check_glossary(g: Seq<GlossaryEntry>) -> Result<Seq<Seq<char>>, BankFault>
    decreases g.len(),
{
    if g.len() == 0 {
        Ok(Seq::empty())
    } else {
        match check_glossary(g.drop_last()) {
            Err(f) => Err(f),
            Ok(seen) => check_entry(g.last(), seen),
        }
    }
}

/// The first glossary exclusion in `ex` that names no known surface form.
pub open spec fn first_unknown_exclude(ex: Seq<Seq<char>>, surfaces: Seq<Seq<char>>) -> Option<
    Seq<char>,
>
    decreases ex.len(),
{
    if ex.len() == 0 {
        None
    } else if !surfaces.contains(surface_form(ex[0])) {
        Some(ex[0])
    } else {
        first_unknown_exclude(ex.drop_first(), surfaces)
    }
}

/// The problem with question `q`, given the ids of the questions before
/// it, the domain table and the glossary's surface forms.
pub open spec fn check_question(
    q: Question,
    ids_before: Seq<Seq<char>>,
    domains: Seq<(String, String)>,
    surfaces: Seq<Seq<char>>,
) -> Option<BankFault> {
    if is_blank(q.id@) {
        Some(BankFault::EmptyQuestionId)
    } else if ids_before.contains(q.id@) {
        Some(BankFault::DuplicateQuestionId { id: q.id@ })
    } else if !has_key(domains, decimal(q.domain as nat)) {
        Some(BankFault::UnknownDomain { id: q.id@, domain: q.domain })
    } else if q.options@.len() == 0 {
        Some(BankFault::NoOptions { id: q.id@ })
    } else if !has_key(q.options@, q.answer@) {
        Some(BankFault::AnswerNotInOptions { id: q.id@, answer: q.answer@ })
    } else {
        match first_unknown_exclude(views(q.glossary_exclude@), surfaces) {
            Some(t) => Some(BankFault::UnknownExclude { id: q.id@, term: t }),
            None => None,
        }
    }
}

/// The ids of the questions.
pub open spec fn question_ids(qs: Seq<Question>) -> Seq<Seq<char>> {
    qs.map_values(|q: Question| q.id@)
}

/// The first problem among the questions, in order.
pub open spec fn check_questions(
    qs: Seq<Question>,
    domains: Seq<(String, String)>,
    surfaces: Seq<Seq<char>>,
) -> Option<BankFault>
    decreases qs.len(),
{
    if qs.len() == 0 {
        None
    } else {
        match check_questions(qs.drop_last(), domains, surfaces) {
            Some(f) => Some(f),
            None => check_question(qs.last(), question_ids(qs.drop_last()), domains, surfaces),
        }
    }
}

/// The first problem of the bank: glossary entries first, then questions.
pub open spec fn bank_fault(bank: Bank) -> Option<BankFault> {
    match check_glossary(bank.glossary@) {
        Err(f) => Some(f),
        Ok(surfaces) => check_questions(bank.questions@, bank.domains@, surfaces),
    }
}

/// Whether the table has an entry under `key`.
pub fn contains_key(pairs: &Vec<(String, String)>, key: &str) -> (r: bool)
    ensures
        r == has_key(pairs@, key@),
{
    let mut i: usize = 0;
    while i < pairs.len()
        invariant
            0 <= i <= pairs@.len(),
            forall|k: int| 0 <= k < i ==> pairs@[k].0@ != key@,
        decreases pairs.len() - i,
    {
        if crate::text::str_eq(pairs[i].0.as_str(), key) {
            return true;
        }
        i += 1;
    }
    false
}

/// The surface form of `s`.
fn surface_form_of(s: &String) -> (r: String)
    ensures
        r@ == surface_form(s@),
{
    to_lowercase(trim(s.as_str()))
}

/// Whether `s` holds nothing but white space.
fn blank(s: &String) -> (r: bool)
    ensures
        r == is_blank(s@),
{
    trim(s.as_str()).is_empty()
}

/// Checks one glossary entry, adding its surface forms to `seen`.
fn check_entry_exec(e: &GlossaryEntry, seen: &mut Vec<String>) -> (r: Result<(), BankError>)
    ensures
        r is Ok <==> check_entry(*e, views(old(seen)@)) is Ok,
        r is Ok ==> check_entry(*e, views(old(seen)@)) == Ok::<_, BankFault>(views(final(seen)@)),
        r matches Err(f) ==> check_entry(*e, views(old(seen)@)) == Err::<Seq<Seq<char>>, _>(f@),
{
    if blank(&e.term) {
        return Err(BankError::EmptyGlossaryTerm);
    }
    if blank(&e.definition) {
        return Err(BankError::EmptyDefinition { term: e.term.clone() });
    }
    if !starts_with(e.source_url.as_str(), "https://") && !starts_with(
        e.source_url.as_str(),
        "http://",
    ) {
        return Err(BankError::BadSourceUrl { term: e.term.clone() });
    }
    let ghost forms = entry_surfaces(*e);
    let ghost seen0 = views(seen@);
    assert(forms =~= seq![e.term@] + views(e.aliases@));
    let first = check_surface_exec(&e.term, &e.term, seen);
    assert(check_surfaces(e.term@, seq![e.term@] + views(e.aliases@), seen0) == check_surfaces(e.term@, seq![e.term@] + views(e.aliases@), seen0));
    if let Err(f) = first {
        return Err(f);
    }
    let ghost aliases = views(e.aliases@);
    let mut j: usize = 0;
    assert(aliases.skip(0) =~= aliases);
    while j < e.aliases.len()
        invariant
            0 <= j <= e.aliases@.len(),
            aliases == views(e.aliases@),
            seen0 == views(old(seen)@),
            forms == entry_surfaces(*e),
            check_entry(*e, seen0) == check_surfaces(e.term@, forms, seen0),
            check_surfaces(e.term@, forms, seen0) == check_surfaces(
                e.term@,
                aliases.skip(j as int),
                views(seen@),
            ),
        decreases e.aliases.len() - j,
    {
        assert(aliases.skip(j as int) =~= seq![e.aliases@[j as int]@] + aliases.skip(j + 1));
        let ghost seen_before = views(seen@);
        let r = check_surface_exec(&e.term, &e.aliases[j], seen);
        assert(check_surfaces(e.term@, seq![e.aliases@[j as int]@] + aliases.skip(j + 1), seen_before) == check_surfaces(e.term@, seq![e.aliases@[j as int]@] + aliases.skip(j + 1), seen_before));
        if let Err(f) = r {
            return Err(f);
        }
        j += 1;
    }
    assert(aliases.skip(aliases.len() as int) =~= Seq::<Seq<char>>::empty());
    Ok(())
}

/// Checks one surface `form` of the entry named `term` against the surface
/// forms `seen` so far, adding its form.
fn check_surface_exec(term: &String, form: &String, seen: &mut Vec<String>) -> (r: Result<
    (),
    BankError,
>)
    ensures
        forall|rest: Seq<Seq<char>>|
            #![trigger check_surfaces(term@, seq![form@] + rest, views(old(seen)@))]
            {
                &&& (r is Ok ==> check_surfaces(term@, seq![form@] + rest, views(old(seen)@))
                    == check_surfaces(term@, rest, views(final(seen)@)))
                &&& (r matches Err(f) ==> check_surfaces(term@, seq![form@] + rest, views(old(seen)@))
                    == Err::<Seq<Seq<char>>, _>(f@))
            },
{
    assert forall|rest: Seq<Seq<char>>| (#[trigger] (seq![form@] + rest)).drop_first() =~= rest
        && (seq![form@] + rest)[0] == form@ && (seq![form@] + rest).len() > 0 by {}
    if blank(form) {
        return Err(BankError::EmptyAlias { term: term.clone() });
    }
    let f = surface_form_of(form);
    match position_of(seen, &f) {
        Some(k) => {
            assert(views(seen@)[k as int] == surface_form(form@));
            assert(views(seen@).contains(surface_form(form@)));
            Err(BankError::DuplicateSurface { surface: form.clone() })
        },
        None => {
            assert(!views(seen@).contains(surface_form(form@)));
            let ghost before = views(seen@);
            seen.push(f);
            assert(views(seen@) =~= before.push(surface_form(form@)));
            Ok(())
        },
    }
}

/// Checks the glossary; on success the surface forms of all entries.
fn check_glossary_exec(g: &Vec<GlossaryEntry>) -> (r: Result<Vec<String>, BankError>)
    ensures
        r is Ok <==> check_glossary(g@) is Ok,
        r matches Ok(s) ==> check_glossary(g@) == Ok::<_, BankFault>(views(s@)),
        r matches Err(f) ==> check_glossary(g@) == Err::<Seq<Seq<char>>, _>(f@),
{
    let mut seen: Vec<String> = Vec::new();
    let mut i: usize = 0;
    assert(views(seen@) =~= Seq::<Seq<char>>::empty());
    while i < g.len()
        invariant
            0 <= i <= g@.len(),
            check_glossary(g@.take(i as int)) == Ok::<_, BankFault>(views(seen@)),
        decreases g.len() - i,
    {
        assert(g@.take(i + 1).drop_last() =~= g@.take(i as int));
        assert(g@.take(i + 1).last() == g@[i as int]);
        let r = check_entry_exec(&g[i], &mut seen);
        if let Err(f) = r {
            proof {
                lemma_check_glossary_err_sticky(g@, i as int + 1);
            }
            return Err(f);
        }
        i += 1;
    }
    assert(g@.take(g@.len() as int) =~= g@);
    Ok(seen)
}

proof fn lemma_check_glossary_err_sticky(g: Seq<GlossaryEntry>, i: int)
    requires
        0 <= i <= g.len(),
        check_glossary(g.take(i)) is Err,
    ensures
        check_glossary(g) == check_glossary(g.take(i)),
    decreases g.len() - i,
{
    if i < g.len() {
        assert(g.take(i + 1).drop_last() =~= g.take(i));
        lemma_check_glossary_err_sticky(g, i + 1);
    } else {
        assert(g.take(i) =~= g);
    }
}

proof fn lemma_check_questions_sticky(
    qs: Seq<Question>,
    domains: Seq<(String, String)>,
    surfaces: Seq<Seq<char>>,
    i: int,
)
    requires
        0 <= i <= qs.len(),
        check_questions(qs.take(i), domains, surfaces) is Some,
    ensures
        check_questions(qs, domains, surfaces) == check_questions(qs.take(i), domains, surfaces),
    decreases qs.len() - i,
{
    if i < qs.len() {
        assert(qs.take(i + 1).drop_last() =~= qs.take(i));
        lemma_check_questions_sticky(qs, domains, surfaces, i + 1);
    } else {
        assert(qs.take(i) =~= qs);
    }
}

/// Checks the glossary exclusions of a question.
fn first_unknown_exclude_exec(ex: &Vec<String>, surfaces: &Vec<String>) -> (r: Option<usize>)
    ensures
        r is None <==> first_unknown_exclude(views(ex@), views(surfaces@)) is None,
        r matches Some(k) ==> k < ex@.len() && first_unknown_exclude(views(ex@), views(surfaces@))
            == Some(ex@[k as int]@),
{
    let ghost exs = views(ex@);
    let mut k: usize = 0;
    assert(exs.skip(0) =~= exs);
    while k < ex.len()
        invariant
            0 <= k <= ex@.len(),
            exs == views(ex@),
            first_unknown_exclude(exs, views(surfaces@)) == first_unknown_exclude(
                exs.skip(k as int),
                views(surfaces@),
            ),
        decreases ex.len() - k,
    {
        assert(exs.skip(k as int)[0] == ex@[k as int]@);
        assert(exs.skip(k as int).drop_first() =~= exs.skip(k + 1));
        let f = surface_form_of(&ex[k]);
        match position_of(surfaces, &f) {
            Some(p) => {
                assert(views(surfaces@)[p as int] == surface_form(ex@[k as int]@));
            },
            None => {
                assert(!views(surfaces@).contains(surface_form(ex@[k as int]@)));
                return Some(k);
            },
        }
        k += 1;
    }
    assert(exs.skip(exs.len() as int) =~= Seq::<Seq<char>>::empty());
    None
}

/// Whether `x` is one of the strings of `v`.
pub(crate) fn contains_string(v: &Vec<String>, x: &String) -> (r: bool)
    ensures
        r == views(v@).contains(x@),
{
    match position_of(v, x) {
        Some(k) => {
            assert(views(v@)[k as int] == x@);
            true
        },
        None => {
            assert forall|a: int| 0 <= a < views(v@).len() implies views(v@)[a] != x@ by {
                assert(views(v@)[a] == v@[a]@);
            }
            false
        },
    }
}

/// The problem with question `q`, if any.
fn check_question_exec(
    q: &Question,
    ids: &Vec<String>,
    domains: &Vec<(String, String)>,
    surfaces: &Vec<String>,
) -> (r: Option<BankError>)
    ensures
        r is None <==> check_question(*q, views(ids@), domains@, views(surfaces@)) is None,
        r matches Some(f) ==> check_question(*q, views(ids@), domains@, views(surfaces@)) == Some(
            f@,
        ),
{
    if blank(&q.id) {
        return Some(BankError::EmptyQuestionId);
    }
    if contains_string(ids, &q.id) {
        return Some(BankError::DuplicateQuestionId { id: q.id.clone() });
    }
    let key = u32_to_string(q.domain);
    if !contains_key(domains, key.as_str()) {
        return Some(BankError::UnknownDomain { id: q.id.clone(), domain: q.domain });
    }
    if q.options.len() == 0 {
        return Some(BankError::NoOptions { id: q.id.clone() });
    }
    if !contains_key(&q.options, q.answer.as_str()) {
        return Some(BankError::AnswerNotInOptions { id: q.id.clone(), answer: q.answer.clone() });
    }
    match first_unknown_exclude_exec(&q.glossary_exclude, surfaces) {
        Some(k) => Some(
            BankError::UnknownExclude { id: q.id.clone(), term: q.glossary_exclude[k].clone() },
        ),
        None => None,
    }
}

impl Bank {
    /// Checks the bank: glossary terms and definitions are not blank,
    /// source URLs are http(s), no surface (term or alias, trimmed and
    /// lower-cased) occurs twice; question ids are not blank and unique,
    /// every question's domain is in the domain table, it has options and
    /// its answer is one of them, and it excludes only known glossary
    /// surfaces. The first problem found is returned.
    pub fn validate(&self) -> (r: Result<(), BankError>)
        ensures
            r is Ok <==> bank_fault(*self) is None,
            r matches Err(f) ==> bank_fault(*self) == Some(f@),
    {
        let surfaces = match check_glossary_exec(&self.glossary) {
            Ok(s) => s,
            Err(f) => return Err(f),
        };
        let ghost sv = views(surfaces@);
        let ghost qs = self.questions@;
        let mut ids: Vec<String> = Vec::new();
        let mut i: usize = 0;
        while i < self.questions.len()
            invariant
                0 <= i <= qs.len(),
                qs == self.questions@,
                check_glossary(self.glossary@) == Ok::<_, BankFault>(sv),
                sv == views(surfaces@),
                check_questions(qs.take(i as int), self.domains@, sv) is None,
                views(ids@) == question_ids(qs.take(i as int)),
            decreases qs.len() - i,
        {
            let q = &self.questions[i];
            proof {
                assert(qs.take(i + 1).drop_last() =~= qs.take(i as int));
                assert(qs.take(i + 1).last() == *q);
            }
            let fault = check_question_exec(q, &ids, &self.domains, &surfaces);
            if let Some(f) = fault {
                proof {
                    lemma_check_questions_sticky(qs, self.domains@, sv, i + 1);
                }
                return Err(f);
            }
            let ghost before = views(ids@);
            ids.push(q.id.clone());
            assert(question_ids(qs.take(i + 1)) =~= question_ids(qs.take(i as int)).push(q.id@));
            assert(views(ids@) =~= before.push(q.id@));
            i += 1;
        }
        assert(qs.take(qs.len() as int) =~= qs);
        Ok(())
    }
}


/// The question-level rules of a bank that `validate` accepts.
pub open spec fn questions_valid(
    qs: Seq<Question>,
    domains: Seq<(String, String)>,
    surfaces: Seq<Seq<char>>,
) -> bool {
    &&& forall|i: int| 0 <= i < qs.len() ==> !is_blank(#[trigger] qs[i].id@)
    &&& forall|i: int, j: int| 0 <= i < j < qs.len() ==> #[trigger] qs[i].id@ != #[trigger] qs[j].id@
    &&& forall|i: int|
        0 <= i < qs.len() ==> has_key(domains, decimal((#[trigger] qs[i]).domain as nat))
    &&& forall|i: int| 0 <= i < qs.len() ==> (#[trigger] qs[i]).options@.len() > 0
    &&& forall|i: int| 0 <= i < qs.len() ==> has_key((#[trigger] qs[i]).options@, qs[i].answer@)
    &&& forall|i: int, k: int|
        0 <= i < qs.len() && 0 <= k < qs[i].glossary_exclude@.len() ==> surfaces.contains(
            surface_form(#[trigger] qs[i].glossary_exclude@[k]@),
        )
}

proof fn lemma_no_unknown_exclude(ex: Seq<Seq<char>>, surfaces: Seq<Seq<char>>)
    ensures
        first_unknown_exclude(ex, surfaces) is None <==> forall|k: int|
            0 <= k < ex.len() ==> surfaces.contains(surface_form(#[trigger] ex[k])),
    decreases ex.len(),
{
    if ex.len() > 0 {
        lemma_no_unknown_exclude(ex.drop_first(), surfaces);
        assert forall|k: int| 1 <= k < ex.len() implies #[trigger] ex[k] == ex.drop_first()[k - 1] by {}
        if forall|k: int| 0 <= k < ex.len() ==> surfaces.contains(surface_form(#[trigger] ex[k])) {
            assert forall|k: int| 0 <= k < ex.drop_first().len() implies surfaces.contains(
                surface_form(#[trigger] ex.drop_first()[k]),
            ) by {
                assert(ex.drop_first()[k] == ex[k + 1]);
            }
        }
    }
}

/// The questions pass `check_questions` exactly when they meet the
/// question-level rules.
pub proof fn lemma_check_questions_valid(
    qs: Seq<Question>,
    domains: Seq<(String, String)>,
    surfaces: Seq<Seq<char>>,
)
    ensures
        check_questions(qs, domains, surfaces) is None <==> questions_valid(qs, domains, surfaces),
    decreases qs.len(),
{
    if qs.len() > 0 {
        let init = qs.drop_last();
        let q = qs.last();
        lemma_check_questions_valid(init, domains, surfaces);
        lemma_no_unknown_exclude(views(q.glossary_exclude@), surfaces);
        assert forall|k: int| 0 <= k < q.glossary_exclude@.len() implies #[trigger] views(
            q.glossary_exclude@,
        )[k] == q.glossary_exclude@[k]@ by {}
        let ids = question_ids(init);
        if questions_valid(qs, domains, surfaces) {
            assert forall|i: int| 0 <= i < init.len() implies #[trigger] init[i] == qs[i] by {}
            assert(questions_valid(init, domains, surfaces));
            assert(qs[qs.len() - 1] == q);
            assert(!ids.contains(q.id@)) by {
                if ids.contains(q.id@) {
                    let i = choose|i: int| 0 <= i < ids.len() && ids[i] == q.id@;
                    assert(qs[i].id@ == qs[qs.len() - 1].id@);
                }
            }
            assert(check_question(q, ids, domains, surfaces) is None);
        }
        if check_questions(qs, domains, surfaces) is None {
            assert(check_questions(init, domains, surfaces) is None);
            assert(check_question(q, ids, domains, surfaces) is None);
            assert forall|i: int| 0 <= i < qs.len() implies !is_blank(#[trigger] qs[i].id@) by {
                if i < init.len() {
                    assert(init[i] == qs[i]);
                }
            }
            assert forall|i: int, j: int| 0 <= i < j < qs.len() implies #[trigger] qs[i].id@
                != #[trigger] qs[j].id@ by {
                assert(init[i] == qs[i]);
                if j < init.len() {
                    assert(init[j] == qs[j]);
                } else {
                    assert(ids[i] == qs[i].id@);
                }
            }
            assert forall|i: int| 0 <= i < qs.len() implies has_key(
                domains,
                decimal((#[trigger] qs[i]).domain as nat),
            ) && qs[i].options@.len() > 0 && has_key(qs[i].options@, qs[i].answer@) by {
                if i < init.len() {
                    assert(init[i] == qs[i]);
                }
            }
            assert forall|i: int, k: int|
                0 <= i < qs.len() && 0 <= k < qs[i].glossary_exclude@.len() implies surfaces.contains(
                    surface_form(#[trigger] qs[i].glossary_exclude@[k]@),
                ) by {
                if i < init.len() {
                    assert(init[i] == qs[i]);
                    assert(init[i].glossary_exclude@[k] == qs[i].glossary_exclude@[k]);
                } else {
                    assert(views(q.glossary_exclude@)[k] == q.glossary_exclude@[k]@);
                }
            }
        }
    }
}

/// Every surface of the glossary, entry by entry: each term, then its
/// aliases.
pub open spec fn all_surfaces(g: Seq<GlossaryEntry>) -> Seq<Seq<char>>
    decreases g.len(),
{
    if g.len() == 0 {
        Seq::empty()
    } else {
        all_surfaces(g.drop_last()) + entry_surfaces(g.last())
    }
}

/// The surface forms of the surfaces.
pub open spec fn surface_forms(s: Seq<Seq<char>>) -> Seq<Seq<char>> {
    s.map_values(|x: Seq<char>| surface_form(x))
}

/// No two surfaces of `s` share a surface form.
pub open spec fn forms_distinct(s: Seq<Seq<char>>) -> bool {
    forall|a: int, b: int|
        0 <= a < b < s.len() ==> surface_form(#[trigger] s[a]) != surface_form(#[trigger] s[b])
}

/// The glossary-level rules of a bank that `validate` accepts: every term
/// and definition is filled in, every source URL is http(s), no surface is
/// blank, and no surface form occurs twice across the whole glossary.
pub open spec fn glossary_valid(g: Seq<GlossaryEntry>) -> bool {
    &&& forall|i: int| 0 <= i < g.len() ==> !is_blank(#[trigger] g[i].term@)
    &&& forall|i: int| 0 <= i < g.len() ==> !is_blank(#[trigger] g[i].definition@)
    &&& forall|i: int|
        0 <= i < g.len() ==> has_prefix(#[trigger] g[i].source_url@, "https://"@) || has_prefix(
            g[i].source_url@,
            "http://"@,
        )
    &&& forall|k: int| 0 <= k < all_surfaces(g).len() ==> !is_blank(#[trigger] all_surfaces(g)[k])
    &&& forms_distinct(all_surfaces(g))
}

proof fn lemma_check_surfaces(term: Seq<char>, forms: Seq<Seq<char>>, seen: Seq<Seq<char>>)
    ensures
        check_surfaces(term, forms, seen) is Ok <==> {
            &&& forall|k: int| 0 <= k < forms.len() ==> !is_blank(#[trigger] forms[k])
            &&& forall|k: int| 0 <= k < forms.len() ==> !seen.contains(surface_form(#[trigger] forms[k]))
            &&& forms_distinct(forms)
        },
        check_surfaces(term, forms, seen) is Ok ==> check_surfaces(term, forms, seen) == Ok::<
            _,
            BankFault,
        >(seen + surface_forms(forms)),
    decreases forms.len(),
{
    if forms.len() == 0 {
        assert(seen + surface_forms(forms) =~= seen);
    } else {
        let f0 = forms[0];
        let rest = forms.drop_first();
        let seen2 = seen.push(surface_form(f0));
        lemma_check_surfaces(term, rest, seen2);
        assert forall|k: int| 0 <= k < rest.len() implies #[trigger] rest[k] == forms[k + 1] by {}
        assert(seen2 + surface_forms(rest) =~= seen + surface_forms(forms));
        let all_ok = {
            &&& forall|k: int| 0 <= k < forms.len() ==> !is_blank(#[trigger] forms[k])
            &&& forall|k: int| 0 <= k < forms.len() ==> !seen.contains(surface_form(#[trigger] forms[k]))
            &&& forms_distinct(forms)
        };
        if all_ok {
            assert(!is_blank(forms[0]));
            assert(!seen.contains(surface_form(forms[0])));
            assert forall|k: int| 0 <= k < rest.len() implies !seen2.contains(surface_form(#[trigger] rest[k])) by {
                assert(rest[k] == forms[k + 1]);
                assert(surface_form(forms[0]) != surface_form(forms[k + 1]));
                if seen2.contains(surface_form(rest[k])) {
                    let m = choose|m: int| 0 <= m < seen2.len() && seen2[m] == surface_form(rest[k]);
                    if m < seen.len() {
                        assert(seen[m] == surface_form(forms[k + 1]));
                        assert(seen.contains(surface_form(forms[k + 1])));
                    }
                }
            }
            assert forall|a: int, b: int| 0 <= a < b < rest.len() implies surface_form(#[trigger] rest[a])
                != surface_form(#[trigger] rest[b]) by {
                assert(rest[a] == forms[a + 1] && rest[b] == forms[b + 1]);
            }
        }
        if check_surfaces(term, forms, seen) is Ok {
            assert(!is_blank(f0));
            assert(!seen.contains(surface_form(f0)));
            assert forall|k: int| 0 <= k < forms.len() implies !is_blank(#[trigger] forms[k]) by {
                if k > 0 {
                    assert(forms[k] == rest[k - 1]);
                }
            }
            assert forall|k: int| 0 <= k < forms.len() implies !seen.contains(surface_form(#[trigger] forms[k])) by {
                if k > 0 {
                    assert(forms[k] == rest[k - 1]);
                    assert(!seen2.contains(surface_form(rest[k - 1])));
                    if seen.contains(surface_form(forms[k])) {
                        let m = choose|m: int| 0 <= m < seen.len() && seen[m] == surface_form(forms[k]);
                        assert(seen2[m] == seen[m]);
                    }
                }
            }
            assert forall|a: int, b: int| 0 <= a < b < forms.len() implies surface_form(#[trigger] forms[a])
                != surface_form(#[trigger] forms[b]) by {
                assert(forms[b] == rest[b - 1]);
                if a == 0 {
                    assert(!seen2.contains(surface_form(rest[b - 1])));
                    assert(seen2[seen.len() as int] == surface_form(f0));
                } else {
                    assert(forms[a] == rest[a - 1]);
                }
            }
        }
    }
}

/// The glossary passes `check_glossary` exactly when it meets the
/// glossary-level rules, and then the surface forms it collects are those
/// of all its surfaces, in order.
pub proof fn lemma_check_glossary_valid(g: Seq<GlossaryEntry>)
    ensures
        check_glossary(g) is Ok <==> glossary_valid(g),
        check_glossary(g) is Ok ==> check_glossary(g) == Ok::<_, BankFault>(surface_forms(all_surfaces(g))),
    decreases g.len(),
{
    if g.len() == 0 {
        assert(surface_forms(all_surfaces(g)) =~= Seq::<Seq<char>>::empty());
    } else {
        let init = g.drop_last();
        let e = g.last();
        lemma_check_glossary_valid(init);
        let prev = all_surfaces(init);
        let forms = entry_surfaces(e);
        let all = all_surfaces(g);
        assert(all == prev + forms);
        assert(surface_forms(all) =~= surface_forms(prev) + surface_forms(forms));
        assert forall|i: int| 0 <= i < init.len() implies #[trigger] init[i] == g[i] by {}
        assert(g[g.len() - 1] == e);
        if check_glossary(init) is Ok {
            let seen = surface_forms(prev);
            lemma_check_surfaces(e.term@, forms, seen);
            assert(seen + surface_forms(forms) =~= surface_forms(all));
            assert forall|k: int| 0 <= k < forms.len() implies (#[trigger] all[prev.len() + k]) == forms[k] by {}
            assert forall|k: int| 0 <= k < prev.len() implies (#[trigger] all[k]) == prev[k] by {}
            // A surface form already seen is one of an earlier surface.
            assert forall|x: Seq<char>| #[trigger] seen.contains(x) <==> exists|m: int|
                0 <= m < prev.len() && surface_form(prev[m]) == x by {
                if seen.contains(x) {
                    let m = choose|m: int| 0 <= m < seen.len() && seen[m] == x;
                    assert(surface_form(prev[m]) == x);
                }
                if exists|m: int| 0 <= m < prev.len() && surface_form(prev[m]) == x {
                    let m = choose|m: int| 0 <= m < prev.len() && surface_form(prev[m]) == x;
                    assert(seen[m] == x);
                }
            }
            if glossary_valid(g) {
                assert(glossary_valid(init)) by {
                    assert forall|i: int| 0 <= i < init.len() implies !is_blank(#[trigger] init[i].term@)
                        && !is_blank(init[i].definition@) && (has_prefix(init[i].source_url@, "https://"@)
                        || has_prefix(init[i].source_url@, "http://"@)) by {
                        assert(init[i] == g[i]);
                        assert(!is_blank(g[i].term@));
                        assert(!is_blank(g[i].definition@));
                        assert(has_prefix(g[i].source_url@, "https://"@) || has_prefix(g[i].source_url@, "http://"@));
                    }
                    assert forall|k: int| 0 <= k < prev.len() implies !is_blank(#[trigger] prev[k]) by {
                        assert(all[k] == prev[k]);
                    }
                    assert forall|a: int, b: int| 0 <= a < b < prev.len() implies surface_form(
                        #[trigger] prev[a],
                    ) != surface_form(#[trigger] prev[b]) by {
                        assert(all[a] == prev[a] && all[b] == prev[b]);
                    }
                }
                assert(!is_blank(g[g.len() - 1].term@));
                assert(!is_blank(g[g.len() - 1].definition@));
                assert(has_prefix(g[g.len() - 1].source_url@, "https://"@) || has_prefix(g[g.len() - 1].source_url@, "http://"@));
                assert forall|k: int| 0 <= k < forms.len() implies !is_blank(#[trigger] forms[k]) by {
                    assert(all[prev.len() + k] == forms[k]);
                }
                assert forall|k: int| 0 <= k < forms.len() implies !seen.contains(
                    surface_form(#[trigger] forms[k]),
                ) by {
                    assert(all[prev.len() + k] == forms[k]);
                    if seen.contains(surface_form(forms[k])) {
                        let m = choose|m: int| 0 <= m < prev.len() && surface_form(prev[m]) == surface_form(forms[k]);
                        assert(all[m] == prev[m]);
                    }
                }
                assert forall|a: int, b: int| 0 <= a < b < forms.len() implies surface_form(
                    #[trigger] forms[a],
                ) != surface_form(#[trigger] forms[b]) by {
                    assert(all[prev.len() + a] == forms[a] && all[prev.len() + b] == forms[b]);
                }
                assert(check_entry(e, seen) is Ok);
            }
            if check_glossary(g) is Ok {
                assert(check_entry(e, seen) is Ok);
                assert forall|i: int| 0 <= i < g.len() implies !is_blank(#[trigger] g[i].term@) by {
                    if i < init.len() {
                        assert(init[i] == g[i]);
                    }
                }
                assert forall|i: int| 0 <= i < g.len() implies !is_blank(#[trigger] g[i].definition@) by {
                    if i < init.len() {
                        assert(init[i] == g[i]);
                    }
                }
                assert forall|i: int| 0 <= i < g.len() implies has_prefix(#[trigger] g[i].source_url@, "https://"@)
                    || has_prefix(g[i].source_url@, "http://"@) by {
                    if i < init.len() {
                        assert(init[i] == g[i]);
                    }
                }
                assert forall|k: int| 0 <= k < all.len() implies !is_blank(#[trigger] all[k]) by {
                    if k < prev.len() {
                        assert(all[k] == prev[k]);
                    } else {
                        assert(all[k] == forms[k - prev.len()]);
                    }
                }
                assert forall|a: int, b: int| 0 <= a < b < all.len() implies surface_form(#[trigger] all[a])
                    != surface_form(#[trigger] all[b]) by {
                    if b < prev.len() {
                        assert(all[a] == prev[a] && all[b] == prev[b]);
                    } else if a >= prev.len() {
                        assert(all[a] == forms[a - prev.len()] && all[b] == forms[b - prev.len()]);
                    } else {
                        assert(all[a] == prev[a] && all[b] == forms[b - prev.len()]);
                        assert(!seen.contains(surface_form(forms[b - prev.len()])));
                        assert(seen[a] == surface_form(prev[a]));
                    }
                }
            }
        } else {
            if glossary_valid(g) {
                assert(glossary_valid(init)) by {
                    assert forall|i: int| 0 <= i < init.len() implies !is_blank(#[trigger] init[i].term@)
                        && !is_blank(init[i].definition@) && (has_prefix(init[i].source_url@, "https://"@)
                        || has_prefix(init[i].source_url@, "http://"@)) by {
                        assert(init[i] == g[i]);
                        assert(!is_blank(g[i].term@));
                        assert(!is_blank(g[i].definition@));
                        assert(has_prefix(g[i].source_url@, "https://"@) || has_prefix(g[i].source_url@, "http://"@));
                    }
                    assert forall|k: int| 0 <= k < prev.len() implies !is_blank(#[trigger] prev[k]) by {
                        assert(all[k] == prev[k]);
                    }
                    assert forall|a: int, b: int| 0 <= a < b < prev.len() implies surface_form(
                        #[trigger] prev[a],
                    ) != surface_form(#[trigger] prev[b]) by {
                        assert(all[a] == prev[a] && all[b] == prev[b]);
                    }
                }
            }
        }
    }
}

/// A bank passes validation exactly when its glossary and its questions
/// meet their rules, the questions' exclusions checked against the
/// glossary's surface forms.
pub proof fn lemma_validate_is_rules(bank: Bank)
    ensures
        bank_fault(bank) is None <==> glossary_valid(bank.glossary@) && questions_valid(
            bank.questions@,
            bank.domains@,
            surface_forms(all_surfaces(bank.glossary@)),
        ),
{
    lemma_check_glossary_valid(bank.glossary@);
    lemma_check_questions_valid(bank.questions@, bank.domains@, surface_forms(all_surfaces(bank.glossary@)));
}

impl Bank {
    /// Validates the bank and then reshuffles the answer letters of every
    /// question (`Bank::parse` once the JSON text has been read).
    pub fn prepare(self) -> (r: Result<Bank, BankError>)
        requires
            self.wf(),
        ensures
            r is Ok <==> bank_fault(self) is None,
            r matches Err(f) ==> bank_fault(self) == Some(f@),
            r matches Ok(b) ==> {
                &&& b.cert == self.cert
                &&& b.name == self.name
                &&& b.domains == self.domains
                &&& b.glossary == self.glossary
                &&& b.questions@.len() == self.questions@.len()
                &&& forall|i: int|
                    0 <= i < b.questions@.len() ==> crate::shuffle::is_reshuffled(
                        #[trigger] b.questions@[i],
                        self.questions@[i],
                    ) && crate::shuffle::layout_is_permutation(
                        self.questions@[i].options@,
                        self.questions@[i].id@,
                    ) && crate::shuffle::options_ok(self.questions@[i])
            },
    {
        match self.validate() {
            Err(f) => Err(f),
            Ok(()) => {
                let Bank { cert, name, domains, glossary, questions } = self;
                let ghost qs = questions@;
                proof {
                    let surfaces = check_glossary(glossary@)->Ok_0;
                    lemma_check_questions_valid(qs, domains@, surfaces);
                }
                let mut out: Vec<Question> = Vec::new();
                let mut rest = questions;
                assert(rest@ =~= qs.skip(0));
                while rest.len() > 0
                    invariant
                        out@.len() + rest@.len() == qs.len(),
                        rest@ == qs.skip(out@.len() as int),
                        forall|a: int| 0 <= a < out@.len() ==> crate::shuffle::is_reshuffled(#[trigger] out@[a], qs[a])
                            && crate::shuffle::layout_is_permutation(qs[a].options@, qs[a].id@),
                        forall|a: int| 0 <= a < qs.len() ==> crate::shuffle::options_ok(#[trigger] qs[a]),
                    decreases rest.len(),
                {
                    let mut q = rest.remove(0);
                    assert(q == qs[out@.len() as int]);
                    assert(rest@ =~= qs.skip(out@.len() as int + 1));
                    q.shuffle_options();
                    out.push(q);
                }
                Ok(Bank { cert, name, domains, glossary, questions: out })
            },
        }
    }
}

} // verus!
