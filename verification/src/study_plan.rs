//! Study-session selection: due cards first, then a capped number of new
//! cards, each list interleaved round-robin across domains.
use vstd::multiset::Multiset;
use vstd::prelude::*;

use crate::card::{due_on, CardState};
use crate::progress::{card_for, find_card};
use crate::questions::{deref_seq, Question};

verus! {

/// The domains of the questions.
pub open spec fn domains_of(qs: Seq<Question>) -> Set<u32> {
    qs.map_values(|q: Question| q.domain).to_set()
}

pub open spec fn strictly_increasing(s: Seq<u32>) -> bool {
    forall|i: int, j: int| #![trigger s[i], s[j]] 0 <= i < j < s.len() ==> s[i] < s[j]
}

/// The distinct domains of the questions, ascending.
pub open spec fn domain_list(qs: Seq<Question>) -> Seq<u32> {
    choose|ds: Seq<u32>| strictly_increasing(ds) && ds.to_set() == domains_of(qs)
}

/// The questions of domain `d`, in order.
pub open spec fn domain_group(qs: Seq<Question>, d: u32) -> Seq<Question> {
    qs.filter(|q: Question| q.domain == d)
}

/// Round `r` over the first `k` domains of `ds`: the `r`-th question of
/// each of those domains that has one, in domain order.
pub open spec fn round_over(qs: Seq<Question>, ds: Seq<u32>, r: int, k: int) -> Seq<Question>
    decreases k,
{
    if k <= 0 {
        Seq::empty()
    } else {
        let d = ds[k - 1];
        let g = domain_group(qs, d);
        if g.len() > r {
            round_over(qs, ds, r, k - 1).push(g[r])
        } else {
            round_over(qs, ds, r, k - 1)
        }
    }
}

/// Rounds `0..r`, one after the other.
pub open spec fn rounds_upto(qs: Seq<Question>, ds: Seq<u32>, r: int) -> Seq<Question>
    decreases r,
{
    if r <= 0 {
        Seq::empty()
    } else {
        rounds_upto(qs, ds, r - 1) + round_over(qs, ds, r - 1, ds.len() as int)
    }
}

/// Round-robin across domains: every domain's first question (domains
/// ascending), then every domain's second question, and so on.
pub open spec fn interleave_spec(qs: Seq<Question>) -> Seq<Question> {
    rounds_upto(qs, domain_list(qs), qs.len() as int)
}

proof fn lemma_increasing_unique(a: Seq<u32>, b: Seq<u32>)
    requires
        strictly_increasing(a),
        strictly_increasing(b),
        a.to_set() == b.to_set(),
    ensures
        a == b,
    decreases a.len(),
{
    if a.len() == 0 {
        if b.len() > 0 {
            assert(b.to_set().contains(b[0]));
        }
        assert(a =~= b);
    } else {
        assert(a.to_set().contains(a[0]));
        assert(b.to_set().contains(a[0]));
        assert(a.to_set().contains(b[0]));
        let ka = choose|k: int| 0 <= k < a.len() && a[k] == b[0];
        let kb = choose|k: int| 0 <= k < b.len() && b[k] == a[0];
        if ka > 0 && kb > 0 {
            assert(a[0] < a[ka]);
            assert(b[0] < b[kb]);
        } else if ka > 0 {
            assert(a[0] < a[ka]);
        } else if kb > 0 {
            assert(b[0] < b[kb]);
        }
        let a2 = a.drop_first();
        let b2 = b.drop_first();
        assert forall|x: u32| #[trigger] a2.to_set().contains(x) <==> b2.to_set().contains(x) by {
            if a2.to_set().contains(x) {
                let k = choose|k: int| 0 <= k < a2.len() && a2[k] == x;
                assert(a[k + 1] == x);
                assert(a[0] < a[k + 1]);
                assert(b.to_set().contains(x));
                let m = choose|m: int| 0 <= m < b.len() && b[m] == x;
                assert(b2[m - 1] == x);
            }
            if b2.to_set().contains(x) {
                let k = choose|k: int| 0 <= k < b2.len() && b2[k] == x;
                assert(b[k + 1] == x);
                assert(b[0] < b[k + 1]);
                assert(a.to_set().contains(x));
                let m = choose|m: int| 0 <= m < a.len() && a[m] == x;
                assert(a2[m - 1] == x);
            }
        }
        assert(a2.to_set() =~= b2.to_set());
        lemma_increasing_unique(a2, b2);
        assert(a =~= seq![a[0]] + a2);
        assert(b =~= seq![b[0]] + b2);
    }
}

/// The distinct domains of the questions, ascending.
fn sorted_domains(questions: &[&Question]) -> (r: Vec<u32>)
    ensures
        r@ == domain_list(deref_seq(questions@)),
        strictly_increasing(r@),
        r@.to_set() == domains_of(deref_seq(questions@)),
{
    let ghost qs = deref_seq(questions@);
    let ghost doms = qs.map_values(|q: Question| q.domain);
    let mut r: Vec<u32> = Vec::new();
    let mut i: usize = 0;
    while i < questions.len()
        invariant
            0 <= i <= questions@.len(),
            qs == deref_seq(questions@),
            doms == qs.map_values(|q: Question| q.domain),
            strictly_increasing(r@),
            r@.to_set() == doms.take(i as int).to_set(),
        decreases questions.len() - i,
    {
        let d = questions[i].domain;
        assert(doms[i as int] == d);
        assert(r@.to_set() == doms.take(i as int).to_set());
        let mut pos: usize = 0;
        while pos < r.len() && r[pos] < d
            invariant
                0 <= pos <= r@.len(),
                forall|a: int| 0 <= a < pos ==> r@[a] < d,
            decreases r.len() - pos,
        {
            pos += 1;
        }
        let ghost prev = doms.take(i as int);
        let ghost next = doms.take(i + 1);
        let ghost before = r@;
        assert(next =~= prev.push(d));
        if pos < r.len() && r[pos] == d {
            assert forall|x: u32| #[trigger] r@.to_set().contains(x) <==> next.to_set().contains(
                x,
            ) by {
                if x == d {
                    assert(r@[pos as int] == d);
                    assert(next[i as int] == d);
                } else if next.to_set().contains(x) {
                    let m = choose|m: int| 0 <= m < i + 1 && next[m] == x;
                    assert(prev[m] == x);
                    assert(prev.to_set().contains(x));
                } else if r@.to_set().contains(x) {
                    assert(prev.to_set().contains(x));
                    let m = choose|m: int| 0 <= m < i && prev[m] == x;
                    assert(next[m] == x);
                }
            }
            assert(r@.to_set() =~= next.to_set());
        } else {
            proof {
                before.insert_ensures(pos as int, d);
            }
            r.insert(pos, d);
            assert forall|a: int, b: int| 0 <= a < b < r@.len() implies r@[a] < r@[b] by {
                if b < pos {
                    assert(r@[a] == before[a] && r@[b] == before[b]);
                } else if b == pos {
                    assert(r@[a] == before[a]);
                } else if a == pos {
                    assert(r@[b] == before[b - 1]);
                    assert(before[pos as int] > d);
                    if b - 1 > pos {
                        assert(before[pos as int] < before[b - 1]);
                    }
                } else if a < pos {
                    assert(r@[a] == before[a] && r@[b] == before[b - 1]);
                } else {
                    assert(r@[a] == before[a - 1] && r@[b] == before[b - 1]);
                }
            }
            assert forall|x: u32| #[trigger] r@.to_set().contains(x) <==> next.to_set().contains(
                x,
            ) by {
                if x == d {
                    assert(r@[pos as int] == d);
                    assert(next[i as int] == d);
                } else {
                    if next.to_set().contains(x) {
                        let m = choose|m: int| 0 <= m < i + 1 && next[m] == x;
                        assert(prev[m] == x);
                        assert(prev.to_set().contains(x));
                        assert(before.to_set().contains(x));
                        let k = choose|k: int| 0 <= k < before.len() && before[k] == x;
                        if k < pos {
                            assert(r@[k] == x);
                        } else {
                            assert(r@[k + 1] == x);
                        }
                    }
                    if r@.to_set().contains(x) {
                        let k = choose|k: int| 0 <= k < r@.len() && r@[k] == x;
                        if k < pos {
                            assert(before[k] == x);
                        } else {
                            assert(before[k - 1] == x);
                        }
                        assert(before.to_set().contains(x));
                        assert(prev.to_set().contains(x));
                        let m = choose|m: int| 0 <= m < i && prev[m] == x;
                        assert(next[m] == x);
                    }
                }
            }
            assert(r@.to_set() =~= next.to_set());
        }
        i += 1;
    }
    assert(doms.take(questions@.len() as int) =~= doms);
    proof {
        let c = domain_list(qs);
        lemma_increasing_unique(c, r@);
    }
    r
}

/// The questions of domain `d`, in order.
fn group_of<'a>(questions: &[&'a Question], d: u32) -> (r: Vec<&'a Question>)
    ensures
        deref_seq(r@) == domain_group(deref_seq(questions@), d),
{
    let ghost qs = deref_seq(questions@);
    let ghost pred = |q: Question| q.domain == d;
    let mut r: Vec<&'a Question> = Vec::new();
    let mut i: usize = 0;
    while i < questions.len()
        invariant
            0 <= i <= questions@.len(),
            qs == deref_seq(questions@),
            pred == (|q: Question| q.domain == d),
            deref_seq(r@) == qs.take(i as int).filter(pred),
        decreases questions.len() - i,
    {
        let q = questions[i];
        proof {
            reveal_with_fuel(Seq::<_>::filter, 1);
            assert(qs.take(i + 1).drop_last() =~= qs.take(i as int));
            assert(qs.take(i + 1).last() == *q);
        }
        if q.domain == d {
            r.push(q);
            assert(deref_seq(r@) =~= qs.take(i as int).filter(pred).push(*q));
        }
        i += 1;
    }
    assert(qs.take(qs.len() as int) =~= qs);
    r
}

/// Round-robin across domains: the first question of each domain (domains
/// ascending), then the second of each, and so on; the questions of one
/// domain keep their order.
pub fn interleave_by_domain<'a>(questions: &[&'a Question]) -> (r: Vec<&'a Question>)
    ensures
        deref_seq(r@) == interleave_spec(deref_seq(questions@)),
{
    let ghost qs = deref_seq(questions@);
    let ds = sorted_domains(questions);
    let mut groups: Vec<Vec<&'a Question>> = Vec::new();
    let mut k: usize = 0;
    while k < ds.len()
        invariant
            0 <= k <= ds@.len(),
            qs == deref_seq(questions@),
            groups@.len() == k,
            forall|a: int| 0 <= a < k ==> deref_seq(#[trigger] groups@[a]@) == domain_group(qs, ds@[a]),
        decreases ds.len() - k,
    {
        groups.push(group_of(questions, ds[k]));
        k += 1;
    }
    let mut out: Vec<&'a Question> = Vec::new();
    let mut r: usize = 0;
    while r < questions.len()
        invariant
            0 <= r <= questions@.len(),
            qs == deref_seq(questions@),
            ds@ == domain_list(qs),
            groups@.len() == ds@.len(),
            forall|a: int| 0 <= a < ds@.len() ==> deref_seq(#[trigger] groups@[a]@) == domain_group(qs, ds@[a]),
            deref_seq(out@) == rounds_upto(qs, ds@, r as int),
        decreases questions.len() - r,
    {
        let ghost start = deref_seq(out@);
        let mut k: usize = 0;
        while k < groups.len()
            invariant
                0 <= k <= groups@.len(),
                0 <= r < questions@.len(),
                qs == deref_seq(questions@),
                groups@.len() == ds@.len(),
                forall|a: int| 0 <= a < ds@.len() ==> deref_seq(#[trigger] groups@[a]@) == domain_group(qs, ds@[a]),
                deref_seq(out@) == start + round_over(qs, ds@, r as int, k as int),
            decreases groups.len() - k,
        {
            let g = &groups[k];
            assert(deref_seq(g@) == domain_group(qs, ds@[k as int]));
            if r < g.len() {
                let ghost before = deref_seq(out@);
                out.push(g[r]);
                assert(deref_seq(out@) =~= before.push(domain_group(qs, ds@[k as int])[r as int]));
            }
            k += 1;
        }
        r += 1;
    }
    out
}


/// A card that has never been scheduled (or has no stored state).
pub open spec fn is_new_for(cards: Seq<CardState>, q: Question) -> bool {
    match card_for(cards, q.id@) {
        None => true,
        Some(c) => c.due is None,
    }
}

/// A scheduled card due on or before `today`.
pub open spec fn is_due_for(cards: Seq<CardState>, today: Seq<char>, q: Question) -> bool {
    match card_for(cards, q.id@) {
        None => false,
        Some(c) => due_on(c, today),
    }
}

/// A planned study session: the due questions, the new ones, the session
/// itself (all due questions, then as many new ones as allowed), and how
/// many new questions were left out.
#[derive(Debug)]
pub struct StudyPlan<'a> {
    pub due: Vec<&'a Question>,
    pub new: Vec<&'a Question>,
    pub session: Vec<&'a Question>,
    pub new_remaining: usize,
}

/// The questions whose card is due (`due`) or new (`!due`), in order.
fn select<'a>(questions: &[&'a Question], cards: &[CardState], today: &str, due: bool) -> (r: Vec<
    &'a Question,
>)
    ensures
        due ==> deref_seq(r@) == deref_seq(questions@).filter(
            |q: Question| is_due_for(cards@, today@, q),
        ),
        !due ==> deref_seq(r@) == deref_seq(questions@).filter(|q: Question| is_new_for(cards@, q)),
{
    let ghost qs = deref_seq(questions@);
    let ghost pred = if due {
        |q: Question| is_due_for(cards@, today@, q)
    } else {
        |q: Question| is_new_for(cards@, q)
    };
    let mut r: Vec<&'a Question> = Vec::new();
    let mut i: usize = 0;
    while i < questions.len()
        invariant
            0 <= i <= questions@.len(),
            qs == deref_seq(questions@),
            pred == if due {
                |q: Question| is_due_for(cards@, today@, q)
            } else {
                |q: Question| is_new_for(cards@, q)
            },
            deref_seq(r@) == qs.take(i as int).filter(pred),
        decreases questions.len() - i,
    {
        let q = questions[i];
        let keep = match find_card(cards, q.id.as_str()) {
            None => !due,
            Some(c) => if due {
                c.is_due_on(today)
            } else {
                c.due.is_none()
            },
        };
        proof {
            reveal_with_fuel(Seq::<_>::filter, 1);
            assert(qs.take(i + 1).drop_last() =~= qs.take(i as int));
            assert(qs.take(i + 1).last() == *q);
            assert(keep == pred(*q));
        }
        if keep {
            r.push(q);
            assert(deref_seq(r@) =~= qs.take(i as int).filter(pred).push(*q));
        }
        i += 1;
    }
    assert(qs.take(qs.len() as int) =~= qs);
    r
}

/// Plans a study session over `questions`, whose stored cards are `cards`
/// (a question without a card is new): the due questions and the new ones,
/// each interleaved across domains, and a session of all due questions
/// followed by at most `max_new` new ones.
pub fn plan_study_session<'a>(
    questions: &[&'a Question],
    cards: &[CardState],
    today: &str,
    max_new: usize,
) -> (p: StudyPlan<'a>)
    ensures
        deref_seq(p.due@) == interleave_spec(
            deref_seq(questions@).filter(|q: Question| is_due_for(cards@, today@, q)),
        ),
        deref_seq(p.new@) == interleave_spec(
            deref_seq(questions@).filter(|q: Question| is_new_for(cards@, q)),
        ),
        p.new_remaining == p.new@.len() - (if max_new < p.new@.len() {
            max_new as int
        } else {
            p.new@.len() as int
        }),
        deref_seq(p.session@) == deref_seq(p.due@) + deref_seq(p.new@).take(
            p.new@.len() - p.new_remaining,
        ),
{
    let due_all = select(questions, cards, today, true);
    let new_all = select(questions, cards, today, false);
    let due = interleave_by_domain(due_all.as_slice());
    let new = interleave_by_domain(new_all.as_slice());
    let new_count = if max_new < new.len() {
        max_new
    } else {
        new.len()
    };
    let mut session: Vec<&'a Question> = Vec::new();
    let mut i: usize = 0;
    while i < due.len()
        invariant
            0 <= i <= due@.len(),
            deref_seq(session@) == deref_seq(due@).take(i as int),
        decreases due.len() - i,
    {
        let ghost before = deref_seq(session@);
        session.push(due[i]);
        assert(deref_seq(session@) =~= before.push(*due@[i as int]));
        assert(deref_seq(due@).take(i + 1) =~= deref_seq(due@).take(i as int).push(*due@[i as int]));
        i += 1;
    }
    assert(deref_seq(due@).take(due@.len() as int) =~= deref_seq(due@));
    let mut j: usize = 0;
    while j < new_count
        invariant
            0 <= j <= new_count,
            new_count <= new@.len(),
            deref_seq(session@) == deref_seq(due@) + deref_seq(new@).take(j as int),
        decreases new_count - j,
    {
        let ghost before = deref_seq(session@);
        session.push(new[j]);
        assert(deref_seq(session@) =~= before.push(*new@[j as int]));
        assert(deref_seq(new@).take(j + 1) =~= deref_seq(new@).take(j as int).push(*new@[j as int]));
        assert(deref_seq(session@) =~= deref_seq(due@) + deref_seq(new@).take(j + 1));
        j += 1;
    }
    StudyPlan { due, new_remaining: new.len() - new_count, new, session }
}

/// `s` cut to its first `r` elements, when it is longer.
spec fn capped(s: Seq<Question>, r: int) -> Seq<Question> {
    if r < s.len() {
        s.take(r)
    } else {
        s
    }
}

/// The first `r` questions of each of the first `k` domain groups, pooled.
spec fn groups_upto(qs: Seq<Question>, ds: Seq<u32>, r: int, k: int) -> Multiset<Question>
    decreases k,
{
    if k <= 0 {
        Multiset::empty()
    } else {
        groups_upto(qs, ds, r, k - 1).add(capped(domain_group(qs, ds[k - 1]), r).to_multiset())
    }
}

proof fn lemma_groups_upto_zero(qs: Seq<Question>, ds: Seq<u32>, k: int)
    ensures
        groups_upto(qs, ds, 0, k) =~= Multiset::empty(),
    decreases k,
{
    broadcast use vstd::multiset::group_multiset_axioms;
    broadcast use vstd::seq_lib::group_to_multiset_ensures;

    if k > 0 {
        lemma_groups_upto_zero(qs, ds, k - 1);
        let g = domain_group(qs, ds[k - 1]);
        assert(capped(g, 0) =~= Seq::<Question>::empty());
        vstd::seq_lib::to_multiset_len(capped(g, 0));
        vstd::multiset::lemma_multiset_empty_len(capped(g, 0).to_multiset());
    }
}

/// Round `r` adds to the pool the `r`-th question of every group that has
/// one.
proof fn lemma_round_step(qs: Seq<Question>, ds: Seq<u32>, r: int, k: int)
    requires
        0 <= r,
        k <= ds.len(),
    ensures
        round_over(qs, ds, r, k).to_multiset().add(groups_upto(qs, ds, r, k)) =~= groups_upto(qs, ds, r + 1, k),
    decreases k,
{
    broadcast use vstd::multiset::group_multiset_axioms;
    broadcast use vstd::seq_lib::group_to_multiset_ensures;

    if k > 0 {
        lemma_round_step(qs, ds, r, k - 1);
        let g = domain_group(qs, ds[k - 1]);
        if g.len() > r {
            assert(capped(g, r + 1) =~= capped(g, r).push(g[r]));
            vstd::seq_lib::to_multiset_build(capped(g, r), g[r]);
            vstd::seq_lib::to_multiset_build(round_over(qs, ds, r, k - 1), g[r]);
        } else {
            assert(capped(g, r + 1) =~= capped(g, r));
        }
    } else {
        assert(round_over(qs, ds, r, k) =~= Seq::<Question>::empty());
    }
}

/// The first `r` rounds hold exactly the first `r` questions of every
/// domain group.
proof fn lemma_rounds_pool(qs: Seq<Question>, ds: Seq<u32>, r: int)
    requires
        0 <= r,
    ensures
        rounds_upto(qs, ds, r).to_multiset() =~= groups_upto(qs, ds, r, ds.len() as int),
    decreases r,
{
    broadcast use vstd::multiset::group_multiset_axioms;
    broadcast use vstd::seq_lib::group_to_multiset_ensures;

    if r == 0 {
        lemma_groups_upto_zero(qs, ds, ds.len() as int);
        assert(rounds_upto(qs, ds, r) =~= Seq::<Question>::empty());
    } else {
        lemma_rounds_pool(qs, ds, r - 1);
        lemma_round_step(qs, ds, r - 1, ds.len() as int);
        vstd::seq_lib::lemma_multiset_commutative(
            rounds_upto(qs, ds, r - 1),
            round_over(qs, ds, r - 1, ds.len() as int),
        );
    }
}

/// How often `x` is among the questions that `p` keeps.
proof fn lemma_filter_count(s: Seq<Question>, p: spec_fn(Question) -> bool, x: Question)
    ensures
        s.filter(p).to_multiset().count(x) == if p(x) {
            s.to_multiset().count(x)
        } else {
            0
        },
    decreases s.len(),
{
    broadcast use vstd::multiset::group_multiset_axioms;
    broadcast use vstd::seq_lib::group_to_multiset_ensures;

    reveal_with_fuel(Seq::<_>::filter, 1);
    if s.len() > 0 {
        let t = s.drop_last();
        lemma_filter_count(t, p, x);
        assert(s =~= t.push(s.last()));
        vstd::seq_lib::to_multiset_build(t, s.last());
        if p(s.last()) {
            vstd::seq_lib::to_multiset_build(t.filter(p), s.last());
        }
    }
}

/// With distinct domains, the pooled groups of the first `k` domains hold
/// each question of those domains as often as the list does.
proof fn lemma_groups_count(qs: Seq<Question>, ds: Seq<u32>, k: int, x: Question)
    requires
        k <= ds.len(),
        forall|i: int, j: int| 0 <= i < j < ds.len() ==> ds[i] != ds[j],
    ensures
        groups_upto(qs, ds, qs.len() as int, k).count(x) == if exists|i: int| 0 <= i < k && ds[i] == x.domain {
            qs.to_multiset().count(x)
        } else {
            0
        },
    decreases k,
{
    broadcast use vstd::multiset::group_multiset_axioms;

    if k > 0 {
        lemma_groups_count(qs, ds, k - 1, x);
        let d = ds[k - 1];
        let g = domain_group(qs, d);
        qs.lemma_filter_len(|q: Question| q.domain == d);
        assert(capped(g, qs.len() as int) == g);
        lemma_filter_count(qs, |q: Question| q.domain == d, x);
        if x.domain == d {
            assert(!exists|i: int| 0 <= i < k - 1 && ds[i] == x.domain);
            assert(exists|i: int| 0 <= i < k && ds[i] == x.domain) by {
                assert(ds[k - 1] == x.domain);
            }
        } else {
            if exists|i: int| 0 <= i < k && ds[i] == x.domain {
                let i = choose|i: int| 0 <= i < k && ds[i] == x.domain;
                assert(i < k - 1);
            }
        }
    }
}

/// Inserts `d` into an ascending list of distinct domains.
spec fn insert_domain(ds: Seq<u32>, d: u32) -> Seq<u32>
    decreases ds.len(),
{
    if ds.len() == 0 {
        seq![d]
    } else if ds[0] == d {
        ds
    } else if d < ds[0] {
        seq![d] + ds
    } else {
        seq![ds[0]] + insert_domain(ds.drop_first(), d)
    }
}

proof fn lemma_insert_domain(ds: Seq<u32>, d: u32)
    requires
        strictly_increasing(ds),
    ensures
        strictly_increasing(insert_domain(ds, d)),
        insert_domain(ds, d).to_set() =~= ds.to_set().insert(d),
    decreases ds.len(),
{
    let r = insert_domain(ds, d);
    if ds.len() == 0 {
        assert(r.to_set() =~= ds.to_set().insert(d)) by {
            assert(r[0] == d);
        }
    } else if ds[0] == d {
        assert(ds.to_set().contains(ds[0]));
    } else if d < ds[0] {
        assert forall|x: u32| #[trigger] r.to_set().contains(x) <==> ds.to_set().insert(d).contains(x) by {
            if r.to_set().contains(x) {
                let k = choose|k: int| 0 <= k < r.len() && r[k] == x;
                if k > 0 {
                    assert(ds[k - 1] == x);
                }
            }
            if ds.to_set().contains(x) {
                let k = choose|k: int| 0 <= k < ds.len() && ds[k] == x;
                assert(r[k + 1] == x);
            }
            if x == d {
                assert(r[0] == d);
            }
        }
        assert forall|i: int, j: int| 0 <= i < j < r.len() implies r[i] < r[j] by {
            if i > 0 {
                assert(r[i] == ds[i - 1] && r[j] == ds[j - 1]);
            } else {
                assert(r[j] == ds[j - 1]);
                if j - 1 > 0 {
                    assert(ds[0] < ds[j - 1]);
                }
            }
        }
    } else {
        let t = ds.drop_first();
        assert(strictly_increasing(t)) by {
            assert forall|i: int, j: int| 0 <= i < j < t.len() implies t[i] < t[j] by {
                assert(t[i] == ds[i + 1] && t[j] == ds[j + 1]);
            }
        }
        lemma_insert_domain(t, d);
        let rest = insert_domain(t, d);
        assert forall|x: u32| #[trigger] r.to_set().contains(x) <==> ds.to_set().insert(d).contains(x) by {
            if r.to_set().contains(x) {
                let k = choose|k: int| 0 <= k < r.len() && r[k] == x;
                if k == 0 {
                    assert(ds[0] == x);
                } else {
                    assert(rest[k - 1] == x);
                    assert(rest.to_set().contains(x));
                    if x != d {
                        assert(t.to_set().contains(x));
                        let m = choose|m: int| 0 <= m < t.len() && t[m] == x;
                        assert(ds[m + 1] == x);
                    }
                }
            }
            if ds.to_set().contains(x) || x == d {
                if x == ds[0] {
                    assert(r[0] == x);
                } else {
                    if x != d {
                        let m = choose|m: int| 0 <= m < ds.len() && ds[m] == x;
                        assert(t[m - 1] == x);
                        assert(t.to_set().contains(x));
                    }
                    assert(rest.to_set().contains(x));
                    let k = choose|k: int| 0 <= k < rest.len() && rest[k] == x;
                    assert(r[k + 1] == x);
                }
            }
        }
        assert forall|i: int, j: int| 0 <= i < j < r.len() implies r[i] < r[j] by {
            if i > 0 {
                assert(r[i] == rest[i - 1] && r[j] == rest[j - 1]);
            } else {
                let y = rest[j - 1];
                assert(r[j] == y);
                assert(rest.to_set().contains(y));
                if y != d {
                    assert(t.to_set().contains(y));
                    let m = choose|m: int| 0 <= m < t.len() && t[m] == y;
                    assert(ds[0] < ds[m + 1]);
                }
            }
        }
    }
}

/// The distinct domains of the questions, ascending, built one question at
/// a time.
spec fn domains_ascending(qs: Seq<Question>) -> Seq<u32>
    decreases qs.len(),
{
    if qs.len() == 0 {
        Seq::empty()
    } else {
        insert_domain(domains_ascending(qs.drop_last()), qs.last().domain)
    }
}

proof fn lemma_domains_ascending(qs: Seq<Question>)
    ensures
        strictly_increasing(domains_ascending(qs)),
        domains_ascending(qs).to_set() =~= domains_of(qs),
    decreases qs.len(),
{
    if qs.len() > 0 {
        let t = qs.drop_last();
        lemma_domains_ascending(t);
        lemma_insert_domain(domains_ascending(t), qs.last().domain);
        assert(qs =~= t.push(qs.last()));
        assert(qs.map_values(|q: Question| q.domain) =~= t.map_values(|q: Question| q.domain).push(
            qs.last().domain,
        ));
        t.map_values(|q: Question| q.domain).lemma_push_to_set_commute(qs.last().domain);
    } else {
        assert(domains_of(qs) =~= Set::<u32>::empty());
    }
}

/// The domain list that round-robin goes by is ascending and names every
/// domain of the questions once.
proof fn lemma_domain_list(qs: Seq<Question>)
    ensures
        strictly_increasing(domain_list(qs)),
        domain_list(qs).to_set() == domains_of(qs),
{
    lemma_domains_ascending(qs);
}

/// Interleaving by domain only reorders: the round-robin list holds every
/// question exactly as often as the input does.
pub proof fn lemma_interleave_is_permutation(qs: Seq<Question>)
    ensures
        interleave_spec(qs).to_multiset() == qs.to_multiset(),
{
    broadcast use vstd::multiset::group_multiset_axioms;

    let ds = domain_list(qs);
    lemma_domain_list(qs);
    lemma_rounds_pool(qs, ds, qs.len() as int);
    assert forall|x: Question| #[trigger] interleave_spec(qs).to_multiset().count(x) == qs.to_multiset().count(x) by {
        lemma_groups_count(qs, ds, ds.len() as int, x);
        vstd::seq_lib::to_multiset_contains(qs, x);
        if qs.to_multiset().count(x) > 0 {
            let j = choose|j: int| 0 <= j < qs.len() && qs[j] == x;
            assert(qs.map_values(|q: Question| q.domain)[j] == x.domain);
            assert(domains_of(qs).contains(x.domain));
            assert(ds.to_set().contains(x.domain));
            let i = choose|i: int| 0 <= i < ds.len() && ds[i] == x.domain;
            assert(exists|i: int| 0 <= i < ds.len() && ds[i] == x.domain);
        }
    }
    assert(interleave_spec(qs).to_multiset() =~= qs.to_multiset());
}

/// The study plan and the progress dashboard agree: the plan's due list
/// has as many questions as the dashboard counts due today, and its new
/// list as many as the dashboard counts not yet introduced.
pub proof fn lemma_plan_matches_dashboard(qs: Seq<Question>, cards: Seq<CardState>, today: Seq<char>)
    ensures
        interleave_spec(qs.filter(|q: Question| is_due_for(cards, today, q))).len() == qs.filter(
            |q: Question| crate::progress::is_due_today(cards, today, q),
        ).len(),
        interleave_spec(qs.filter(|q: Question| is_new_for(cards, q))).len() == qs.len() - qs.filter(
            |q: Question| crate::progress::is_introduced(cards, q),
        ).len(),
{
    let due = qs.filter(|q: Question| is_due_for(cards, today, q));
    let new = qs.filter(|q: Question| is_new_for(cards, q));
    lemma_interleave_is_permutation(due);
    lemma_interleave_is_permutation(new);
    vstd::seq_lib::to_multiset_len(due);
    vstd::seq_lib::to_multiset_len(interleave_spec(due));
    vstd::seq_lib::to_multiset_len(new);
    vstd::seq_lib::to_multiset_len(interleave_spec(new));
    assert((|q: Question| is_due_for(cards, today, q)) =~= (|q: Question| crate::progress::is_due_today(cards, today, q)));
    lemma_filter_complement(qs, |q: Question| crate::progress::is_introduced(cards, q), |q: Question| is_new_for(cards, q));
}

/// Two filters that keep exactly the complementary questions together keep
/// them all.
proof fn lemma_filter_complement(qs: Seq<Question>, p: spec_fn(Question) -> bool, np: spec_fn(Question) -> bool)
    requires
        forall|q: Question| #[trigger] np(q) == !p(q),
    ensures
        qs.filter(p).len() + qs.filter(np).len() == qs.len(),
    decreases qs.len(),
{
    reveal_with_fuel(Seq::<_>::filter, 1);
    if qs.len() > 0 {
        lemma_filter_complement(qs.drop_last(), p, np);
    }
}

} // verus!
