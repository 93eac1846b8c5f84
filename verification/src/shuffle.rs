//! The per-question permutation of answer letters: which letter holds which
//! option is reshuffled so the correct letter is spread evenly over a bank,
//! seeded by the question alone so a question's layout never changes.
use vstd::prelude::*;
use vstd::utf8::encode_utf8;
use vstd::wrapping::u64_specs::wrapping_mul;

use crate::progress::{lemma_text_le_total, lemma_text_le_trans};
use crate::questions::{has_key, keys_distinct, lookup, value_of, Question};
use crate::text::{str_le, text_le};

verus! {

/// FNV-1a offset basis and prime (64-bit).
pub const FNV_OFFSET: u64 = 0xcbf29ce484222325;

pub const FNV_PRIME: u64 = 0x100000001b3;

/// The xorshift64* output multiplier.
pub const XORSHIFT_MUL: u64 = 0x2545F4914F6CDD1D;

/// One FNV-1a step.
pub open spec fn fnv_step(h: u64, b: u8) -> u64 {
    wrapping_mul(h ^ (b as u64), FNV_PRIME)
}

/// FNV-1a over `bytes`, starting from `h`.
pub open spec fn fnv_bytes(h: u64, bytes: Seq<u8>) -> u64
    decreases bytes.len(),
{
    if bytes.len() == 0 {
        h
    } else {
        fnv_bytes(fnv_step(h, bytes[0]), bytes.drop_first())
    }
}

/// FNV-1a over the UTF-8 bytes of each key in turn.
pub open spec fn fnv_keys(h: u64, keys: Seq<Seq<char>>) -> u64
    decreases keys.len(),
{
    if keys.len() == 0 {
        h
    } else {
        fnv_keys(fnv_bytes(h, encode_utf8(keys[0])), keys.drop_first())
    }
}

/// The generator seed of a question: FNV-1a over its sorted option
/// letters and then its id, made odd.
pub open spec fn layout_seed(keys: Seq<Seq<char>>, id: Seq<char>) -> u64 {
    fnv_bytes(fnv_keys(FNV_OFFSET, keys), encode_utf8(id)) | 1
}

/// The xorshift64 state step.
pub open spec fn xorshift(s: u64) -> u64 {
    let a = s ^ (s >> 12u64);
    let b = a ^ (a << 25u64);
    b ^ (b >> 27u64)
}

/// `s` with the elements at `i` and `j` exchanged.
pub open spec fn swap_spec<A>(s: Seq<A>, i: int, j: int) -> Seq<A> {
    s.update(i, s[j]).update(j, s[i])
}

/// Fisher-Yates over positions `i` down to 1: each step advances the
/// generator and swaps position `i` with the position the xorshift64*
/// output picks among `0..=i`.
pub open spec fn fisher_yates<A>(perm: Seq<A>, state: u64, i: nat) -> Seq<A>
    decreases i,
{
    if i == 0 {
        perm
    } else {
        let next = xorshift(state);
        let j = (wrapping_mul(next, XORSHIFT_MUL) % ((i + 1) as u64)) as int;
        fisher_yates(swap_spec(perm, i as int, j), next, (i - 1) as nat)
    }
}

/// The option letters of a table.
pub open spec fn key_set(opts: Seq<(String, String)>) -> Set<Seq<char>> {
    opts.map_values(|p: (String, String)| p.0@).to_set()
}

/// Strictly ascending in `str` order.
pub open spec fn sorted_strict(s: Seq<Seq<char>>) -> bool {
    forall|i: int, j: int|
        #![trigger s[i], s[j]]
        0 <= i < j < s.len() ==> text_le(s[i], s[j]) && s[i] != s[j]
}

/// The option letters in ascending order.
pub open spec fn sorted_keys(opts: Seq<(String, String)>) -> Seq<Seq<char>> {
    choose|k: Seq<Seq<char>>| sorted_strict(k) && k.to_set() == key_set(opts)
}

/// For each letter in ascending order, the letter whose option moves there.
pub open spec fn layout(opts: Seq<(String, String)>, id: Seq<char>) -> Seq<Seq<char>> {
    let keys = sorted_keys(opts);
    if keys.len() == 0 {
        keys
    } else {
        fisher_yates(keys, layout_seed(keys, id), (keys.len() - 1) as nat)
    }
}

/// The reshuffled option table: letter `keys[k]` now holds the text of
/// letter `layout[k]`.
pub open spec fn shuffled_options(opts: Seq<(String, String)>, id: Seq<char>) -> Seq<
    (Seq<char>, Seq<char>),
> {
    let keys = sorted_keys(opts);
    let lay = layout(opts, id);
    Seq::new(keys.len(), |k: int| (keys[k], value_of(opts, lay[k])))
}

/// The letter that now holds the option `answer` held.
pub open spec fn shuffled_answer(opts: Seq<(String, String)>, id: Seq<char>, answer: Seq<char>) -> Seq<
    char,
> {
    let keys = sorted_keys(opts);
    let lay = layout(opts, id);
    keys[choose|k: int| 0 <= k < lay.len() && lay[k] == answer]
}

proof fn lemma_bytes_le_antisym(a: Seq<u8>, b: Seq<u8>)
    requires
        crate::text::bytes_le(a, b),
        crate::text::bytes_le(b, a),
    ensures
        a == b,
    decreases a.len(),
{
    if a.len() > 0 && b.len() > 0 {
        lemma_bytes_le_antisym(a.drop_first(), b.drop_first());
        assert(a =~= seq![a[0]] + a.drop_first());
        assert(b =~= seq![b[0]] + b.drop_first());
    } else {
        assert(a =~= b);
    }
}

/// `str` order is antisymmetric.
pub proof fn lemma_text_le_antisym(a: Seq<char>, b: Seq<char>)
    requires
        text_le(a, b),
        text_le(b, a),
    ensures
        a == b,
{
    lemma_bytes_le_antisym(encode_utf8(a), encode_utf8(b));
    vstd::utf8::encode_utf8_decode_utf8(a);
    vstd::utf8::encode_utf8_decode_utf8(b);
}

/// Two strictly ascending sequences of the same elements are equal.
proof fn lemma_sorted_unique(a: Seq<Seq<char>>, b: Seq<Seq<char>>)
    requires
        sorted_strict(a),
        sorted_strict(b),
        a.to_set() == b.to_set(),
    ensures
        a == b,
    decreases a.len(),
{
    if a.len() == 0 {
        if b.len() > 0 {
            assert(b.to_set().contains(b[0]));
        }
        assert(a =~= b);
    } else {
        assert(a.to_set().contains(a[0]));
        assert(b.to_set().contains(a[0]));
        assert(b.len() > 0);
        assert(b.to_set().contains(b[0]));
        assert(a.to_set().contains(b[0]));
        let ka = choose|k: int| 0 <= k < a.len() && a[k] == b[0];
        let kb = choose|k: int| 0 <= k < b.len() && b[k] == a[0];
        if a[0] != b[0] {
            assert(ka > 0 && kb > 0);
            assert(text_le(a[0], b[0]));
            assert(text_le(b[0], a[0]));
            lemma_text_le_antisym(a[0], b[0]);
        }
        let a2 = a.drop_first();
        let b2 = b.drop_first();
        assert forall|x: Seq<char>| #[trigger] a2.to_set().contains(x) <==> b2.to_set().contains(x) by {
            if a2.to_set().contains(x) {
                let k = choose|k: int| 0 <= k < a2.len() && a2[k] == x;
                assert(a[k + 1] == x);
                assert(a[0] != a[k + 1]);
                assert(b.to_set().contains(x));
                let m = choose|m: int| 0 <= m < b.len() && b[m] == x;
                assert(m > 0);
                assert(b2[m - 1] == x);
            }
            if b2.to_set().contains(x) {
                let k = choose|k: int| 0 <= k < b2.len() && b2[k] == x;
                assert(b[k + 1] == x);
                assert(b[0] != b[k + 1]);
                assert(a.to_set().contains(x));
                let m = choose|m: int| 0 <= m < a.len() && a[m] == x;
                assert(m > 0);
                assert(a2[m - 1] == x);
            }
        }
        assert(a2.to_set() =~= b2.to_set());
        lemma_sorted_unique(a2, b2);
        assert(a =~= seq![a[0]] + a2);
        assert(b =~= seq![b[0]] + b2);
    }
}

proof fn lemma_insert_sorted(rv: Seq<Seq<char>>, pos: int, x: Seq<char>)
    requires
        0 <= pos <= rv.len(),
        sorted_strict(rv),
        forall|a: int| 0 <= a < pos ==> text_le(rv[a], x),
        pos < rv.len() ==> text_le(x, rv[pos]),
        forall|a: int| 0 <= a < rv.len() ==> rv[a] != x,
    ensures
        sorted_strict(rv.insert(pos, x)),
{
    let nv = rv.insert(pos, x);
    rv.insert_ensures(pos, x);
    assert forall|a: int, b: int| 0 <= a < b < nv.len() implies text_le(nv[a], nv[b]) && nv[a]
        != nv[b] by {
        if b < pos {
            assert(nv[a] == rv[a] && nv[b] == rv[b]);
        } else if b == pos {
            assert(nv[a] == rv[a]);
        } else if a == pos {
            assert(nv[b] == rv[b - 1]);
            if b - 1 > pos {
                assert(text_le(rv[pos], rv[b - 1]));
                lemma_text_le_trans(x, rv[pos], rv[b - 1]);
            }
        } else if a < pos {
            assert(nv[a] == rv[a] && nv[b] == rv[b - 1]);
        } else {
            assert(nv[a] == rv[a - 1] && nv[b] == rv[b - 1]);
        }
    }
}

proof fn lemma_insert_set(rv: Seq<Seq<char>>, prev: Seq<Seq<char>>, pos: int, x: Seq<char>)
    requires
        0 <= pos <= rv.len(),
        rv.to_set() == prev.to_set(),
    ensures
        rv.insert(pos, x).to_set() == prev.push(x).to_set(),
{
    let nv = rv.insert(pos, x);
    rv.insert_ensures(pos, x);
    let next = prev.push(x);
    assert forall|y: Seq<char>| #[trigger] nv.to_set().contains(y) <==> next.to_set().contains(y) by {
        if nv.to_set().contains(y) {
            let k = choose|k: int| 0 <= k < nv.len() && nv[k] == y;
            if y != x {
                if k < pos {
                    assert(rv[k] == y);
                } else {
                    assert(nv[k] == rv[k - 1]);
                }
                assert(rv.to_set().contains(y));
                assert(prev.to_set().contains(y));
                let m = choose|m: int| 0 <= m < prev.len() && prev[m] == y;
                assert(next[m] == y);
            } else {
                assert(next[prev.len() as int] == y);
            }
        }
        if next.to_set().contains(y) {
            let m = choose|m: int| 0 <= m < next.len() && next[m] == y;
            if m < prev.len() {
                assert(prev[m] == y);
                assert(prev.to_set().contains(y));
                assert(rv.to_set().contains(y));
                let k = choose|k: int| 0 <= k < rv.len() && rv[k] == y;
                if k < pos {
                    assert(nv[k] == y);
                } else {
                    assert(nv[k + 1] == y);
                }
            } else {
                assert(nv[pos] == y);
            }
        }
    }
    assert(nv.to_set() =~= next.to_set());
}

/// The option letters of `q`, ascending.
pub(crate) fn sorted_option_keys(opts: &Vec<(String, String)>) -> (r: Vec<String>)
    requires
        keys_distinct(opts@),
    ensures
        r@.map_values(|s: String| s@) == sorted_keys(opts@),
        sorted_strict(r@.map_values(|s: String| s@)),
        r@.map_values(|s: String| s@).to_set() == key_set(opts@),
        r@.len() == opts@.len(),
{
    let ghost ks = opts@.map_values(|p: (String, String)| p.0@);
    let mut r: Vec<String> = Vec::new();
    let mut i: usize = 0;
    while i < opts.len()
        invariant
            0 <= i <= opts@.len(),
            keys_distinct(opts@),
            ks == opts@.map_values(|p: (String, String)| p.0@),
            r@.len() == i,
            sorted_strict(r@.map_values(|s: String| s@)),
            r@.map_values(|s: String| s@).to_set() == ks.take(i as int).to_set(),
        decreases opts.len() - i,
    {
        let x = &opts[i].0;
        let ghost rv = r@.map_values(|s: String| s@);
        assert forall|a: int| 0 <= a < rv.len() implies rv[a] != x@ by {
            assert(ks.take(i as int).to_set().contains(rv[a]));
            let k = choose|k: int| 0 <= k < i && ks.take(i as int)[k] == rv[a];
            assert(opts@[k].0@ != opts@[i as int].0@);
        }
        let mut pos: usize = 0;
        while pos < r.len() && str_le(r[pos].as_str(), x.as_str())
            invariant
                0 <= pos <= r@.len(),
                rv == r@.map_values(|s: String| s@),
                forall|a: int| 0 <= a < pos ==> text_le(rv[a], x@),
            decreases r.len() - pos,
        {
            pos += 1;
        }
        proof {
            if pos < r@.len() {
                lemma_text_le_total(rv[pos as int], x@);
            }
        }
        r.insert(pos, x.clone());
        let ghost nv = r@.map_values(|s: String| s@);
        assert(nv =~= rv.insert(pos as int, x@));
        proof {
            lemma_insert_sorted(rv, pos as int, x@);
            lemma_insert_set(rv, ks.take(i as int), pos as int, x@);
            assert(ks.take(i + 1) =~= ks.take(i as int).push(x@));
        }
        i += 1;
    }
    assert(ks.take(opts@.len() as int) =~= ks);
    assert(key_set(opts@) == ks.to_set());
    proof {
        let rv = r@.map_values(|s: String| s@);
        let c = sorted_keys(opts@);
        assert(sorted_strict(rv) && rv.to_set() == key_set(opts@));
        lemma_sorted_unique(c, rv);
    }
    r
}

/// FNV-1a over the bytes of `s`, starting from `h`.
fn fnv_str(h: u64, s: &str) -> (r: u64)
    ensures
        r == fnv_bytes(h, encode_utf8(s@)),
{
    let bytes = s.as_bytes();
    let ghost bs = bytes@;
    let ghost h0 = h;
    let mut h = h;
    let mut i: usize = 0;
    assert(bs.skip(0) =~= bs);
    while i < bytes.len()
        invariant
            0 <= i <= bs.len(),
            bs == bytes@,
            bs == encode_utf8(s@),
            fnv_bytes(h0, bs) == fnv_bytes(h, bs.skip(i as int)),
        decreases bytes.len() - i,
    {
        assert(bs.skip(i as int)[0] == bytes[i as int]);
        assert(bs.skip(i as int).drop_first() =~= bs.skip(i + 1));
        h = (h ^ (bytes[i] as u64)).wrapping_mul(FNV_PRIME);
        i += 1;
    }
    assert(bs.skip(bs.len() as int) =~= Seq::<u8>::empty());
    h
}


/// The generator seed of a question with sorted option letters `keys`.
fn seed_of(keys: &Vec<String>, id: &String) -> (r: u64)
    ensures
        r == layout_seed(keys@.map_values(|s: String| s@), id@),
{
    let ghost kv = keys@.map_values(|s: String| s@);
    let mut h: u64 = FNV_OFFSET;
    let mut k: usize = 0;
    assert(kv.skip(0) =~= kv);
    while k < keys.len()
        invariant
            0 <= k <= keys@.len(),
            kv == keys@.map_values(|s: String| s@),
            fnv_keys(FNV_OFFSET, kv) == fnv_keys(h, kv.skip(k as int)),
        decreases keys.len() - k,
    {
        assert(kv.skip(k as int)[0] == keys@[k as int]@);
        assert(kv.skip(k as int).drop_first() =~= kv.skip(k + 1));
        h = fnv_str(h, keys[k].as_str());
        k += 1;
    }
    assert(kv.skip(kv.len() as int) =~= Seq::<Seq<char>>::empty());
    fnv_str(h, id.as_str()) | 1
}

/// A swap keeps the length, the elements, and their distinctness.
proof fn lemma_swap_keeps<A>(s: Seq<A>, i: int, j: int)
    requires
        0 <= i < s.len(),
        0 <= j < s.len(),
    ensures
        swap_spec(s, i, j).len() == s.len(),
        forall|x: A| #[trigger] swap_spec(s, i, j).contains(x) <==> s.contains(x),
        (forall|a: int, b: int| 0 <= a < b < s.len() ==> s[a] != s[b]) ==> (forall|a: int, b: int|
            0 <= a < b < s.len() ==> swap_spec(s, i, j)[a] != swap_spec(s, i, j)[b]),
{
    let t = swap_spec(s, i, j);
    assert forall|x: A| #[trigger] t.contains(x) <==> s.contains(x) by {
        if t.contains(x) {
            let k = choose|k: int| 0 <= k < t.len() && t[k] == x;
            if k == j {
                assert(s[i] == x);
            } else if k == i {
                assert(s[j] == x);
            } else {
                assert(s[k] == x);
            }
        }
        if s.contains(x) {
            let k = choose|k: int| 0 <= k < s.len() && s[k] == x;
            if k == i {
                assert(t[j] == x);
            } else if k == j {
                assert(t[i] == x);
            } else {
                assert(t[k] == x);
            }
        }
    }
    if forall|a: int, b: int| 0 <= a < b < s.len() ==> s[a] != s[b] {
        assert forall|a: int, b: int| 0 <= a < b < s.len() implies t[a] != t[b] by {
            let sa = if a == j {
                i
            } else if a == i {
                j
            } else {
                a
            };
            let sb = if b == j {
                i
            } else if b == i {
                j
            } else {
                b
            };
            assert(t[a] == s[sa] && t[b] == s[sb]);
            assert(sa != sb);
            if sa < sb {
                assert(s[sa] != s[sb]);
            } else {
                assert(s[sb] != s[sa]);
            }
        }
    }
}

/// Fisher-Yates keeps the length, the elements, and their distinctness.
pub proof fn lemma_fisher_yates_keeps<A>(p: Seq<A>, state: u64, i: nat)
    requires
        i < p.len(),
        p.len() <= u64::MAX,
    ensures
        fisher_yates(p, state, i).len() == p.len(),
        forall|x: A| #[trigger] fisher_yates(p, state, i).contains(x) <==> p.contains(x),
        (forall|a: int, b: int| 0 <= a < b < p.len() ==> p[a] != p[b]) ==> (forall|a: int, b: int|
            0 <= a < b < p.len() ==> fisher_yates(p, state, i)[a] != fisher_yates(p, state, i)[b]),
    decreases i,
{
    if i > 0 {
        let next = xorshift(state);
        let j = (wrapping_mul(next, XORSHIFT_MUL) % ((i + 1) as u64)) as int;
        let q = swap_spec(p, i as int, j);
        assert(0 <= j < i + 1);
        lemma_swap_keeps(p, i as int, j);
        lemma_fisher_yates_keeps(q, next, (i - 1) as nat);
    }
}

/// Runs Fisher-Yates over all of `perm` from the generator state `seed`.
fn fisher_yates_exec(perm: &mut Vec<String>, seed: u64)
    requires
        old(perm)@.len() >= 1,
    ensures
        final(perm)@.map_values(|s: String| s@) == fisher_yates(
            old(perm)@.map_values(|s: String| s@),
            seed,
            (old(perm)@.len() - 1) as nat,
        ),
        final(perm)@.len() == old(perm)@.len(),
{
    let ghost p0 = perm@.map_values(|s: String| s@);
    let ghost n = (perm@.len() - 1) as nat;
    let mut state: u64 = seed;
    let len = perm.len();
    let mut i: usize = len - 1;
    while i > 0
        invariant
            0 <= i < perm@.len(),
            perm@.len() == len,
            perm@.len() == p0.len(),
            n == p0.len() - 1,
            fisher_yates(p0, seed, n) == fisher_yates(
                perm@.map_values(|s: String| s@),
                state,
                i as nat,
            ),
        decreases i,
    {
        let ghost pv = perm@.map_values(|s: String| s@);
        let mut next: u64 = state ^ (state >> 12u64);
        next = next ^ (next << 25u64);
        next = next ^ (next >> 27u64);
        assert(next == xorshift(state));
        state = next;
        let out = state.wrapping_mul(XORSHIFT_MUL);
        assert(i < usize::MAX);
        let m: u64 = (i as u64) + 1;
        let j = (out % m) as usize;
        let a = perm[i].clone();
        let b = perm[j].clone();
        perm.set(i, b);
        perm.set(j, a);
        assert(perm@.map_values(|s: String| s@) =~= swap_spec(pv, i as int, j as int));
        i -= 1;
    }
}

/// The option table is a table and names the answer.
pub open spec fn options_ok(q: Question) -> bool {
    keys_distinct(q.options@) && has_key(q.options@, q.answer@)
}

/// The sorted letters are the option letters, and the layout lists each
/// of them exactly once.
pub open spec fn layout_is_permutation(opts: Seq<(String, String)>, id: Seq<char>) -> bool {
    let keys = sorted_keys(opts);
    let lay = layout(opts, id);
    &&& sorted_strict(keys)
    &&& keys.to_set() == key_set(opts)
    &&& lay.len() == keys.len()
    &&& lay.to_set() == key_set(opts)
    &&& forall|a: int, b: int| 0 <= a < b < lay.len() ==> lay[a] != lay[b]
}

/// Reshuffling keeps the option letters and moves the text of the correct
/// option to the new answer letter.
pub proof fn lemma_reshuffle_keeps_answer_text(after: Question, before: Question)
    requires
        options_ok(before),
        is_reshuffled(after, before),
        layout_is_permutation(before.options@, before.id@),
    ensures
        key_set(after.options@) == key_set(before.options@),
        keys_distinct(after.options@),
        has_key(after.options@, after.answer@),
        value_of(after.options@, after.answer@) == value_of(before.options@, before.answer@),
{
    let opts = before.options@;
    let keys = sorted_keys(opts);
    let lay = layout(opts, before.id@);
    let nv = crate::questions::pairs_view(after.options@);
    assert(nv.len() == keys.len());
    assert forall|k: int| 0 <= k < after.options@.len() implies #[trigger] after.options@[k].0@ == keys[k] by {
        assert(nv[k] == (after.options@[k].0@, after.options@[k].1@));
    }
    let ak = after.options@.map_values(|p: (String, String)| p.0@);
    assert(ak =~= keys);
    assert forall|i: int, j: int|
        0 <= i < after.options@.len() && 0 <= j < after.options@.len() && i != j implies
        #[trigger] after.options@[i].0@ != #[trigger] after.options@[j].0@ by {
        if i < j {
            assert(keys[i] != keys[j]);
        } else {
            assert(keys[j] != keys[i]);
        }
    }
    assert(lay.to_set().contains(before.answer@)) by {
        let w = choose|w: int| 0 <= w < opts.len() && #[trigger] opts[w].0@ == before.answer@;
        assert(opts.map_values(|p: (String, String)| p.0@)[w] == before.answer@);
    }
    let c = choose|k: int| 0 <= k < lay.len() && lay[k] == before.answer@;
    assert(after.answer@ == keys[c]);
    assert(after.options@[c].0@ == after.answer@);
    let d = choose|i: int| 0 <= i < after.options@.len() && #[trigger] after.options@[i].0@ == after.answer@;
    if d != c {
        assert(after.options@[d].0@ != after.options@[c].0@);
    }
    assert(nv[c] == (keys[c], value_of(opts, lay[c])));
}

/// `after` is `before` with its answer letters reshuffled.
pub open spec fn is_reshuffled(after: Question, before: Question) -> bool {
    &&& crate::questions::pairs_view(after.options@) == shuffled_options(before.options@, before.id@)
    &&& after.answer@ == shuffled_answer(before.options@, before.id@, before.answer@)
    &&& after.id == before.id
    &&& after.domain == before.domain
    &&& after.scenario == before.scenario
    &&& after.question == before.question
    &&& after.explanation == before.explanation
    &&& after.tags == before.tags
    &&& after.glossary_exclude == before.glossary_exclude
    &&& after.source == before.source
}

impl Question {
    /// Permutes which letter holds which option, so the correct letter is
    /// spread evenly across a bank. Seeded by the question id and letters
    /// alone, so a question's layout is identical on every load.
    pub fn shuffle_options(&mut self)
        requires
            options_ok(*old(self)),
        ensures
            crate::questions::pairs_view(final(self).options@) == shuffled_options(
                old(self).options@,
                old(self).id@,
            ),
            final(self).answer@ == shuffled_answer(
                old(self).options@,
                old(self).id@,
                old(self).answer@,
            ),
            layout_is_permutation(old(self).options@, old(self).id@),
            final(self).id == old(self).id,
            final(self).domain == old(self).domain,
            final(self).scenario == old(self).scenario,
            final(self).question == old(self).question,
            final(self).explanation == old(self).explanation,
            final(self).tags == old(self).tags,
            final(self).glossary_exclude == old(self).glossary_exclude,
            final(self).source == old(self).source,
    {
        let ghost opts = self.options@;
        let keys = sorted_option_keys(&self.options);
        let ghost kv = keys@.map_values(|s: String| s@);
        proof {
            let w = choose|w: int| 0 <= w < opts.len() && #[trigger] opts[w].0@ == self.answer@;
            assert(key_set(opts).contains(opts[w].0@)) by {
                assert(opts.map_values(|p: (String, String)| p.0@)[w] == opts[w].0@);
            }
            assert(kv.contains(self.answer@));
        }
        let seed = seed_of(&keys, &self.id);
        let mut perm: Vec<String> = Vec::new();
        let mut k: usize = 0;
        while k < keys.len()
            invariant
                0 <= k <= keys@.len(),
                perm@.len() == k,
                forall|a: int| 0 <= a < k ==> #[trigger] perm@[a] == keys@[a],
            decreases keys.len() - k,
        {
            perm.push(keys[k].clone());
            k += 1;
        }
        assert(perm@.map_values(|s: String| s@) =~= kv);
        fisher_yates_exec(&mut perm, seed);
        let ghost lay = perm@.map_values(|s: String| s@);
        proof {
            assert(kv.len() <= usize::MAX);
            lemma_fisher_yates_keeps(kv, seed, (kv.len() - 1) as nat);
            assert(lay == layout(opts, self.id@));
            assert forall|a: int, b: int| 0 <= a < b < kv.len() implies kv[a] != kv[b] by {
                assert(sorted_strict(kv));
            }
        }
        assert forall|x: Seq<char>| #[trigger] lay.to_set().contains(x) <==> key_set(opts).contains(x) by {
            assert(lay.contains(x) <==> kv.contains(x));
        }
        assert(lay.to_set() =~= key_set(opts));
        let mut new_opts: Vec<(String, String)> = Vec::new();
        let mut new_answer: Option<usize> = None;
        let mut k: usize = 0;
        while k < keys.len()
            invariant
                0 <= k <= keys@.len(),
                perm@.len() == keys@.len(),
                keys_distinct(opts),
                opts == self.options@,
                kv == keys@.map_values(|s: String| s@),
                lay == perm@.map_values(|s: String| s@),
                kv.to_set() == key_set(opts),
                forall|x: Seq<char>| #[trigger] lay.contains(x) <==> kv.contains(x),
                forall|a: int, b: int| 0 <= a < b < lay.len() ==> lay[a] != lay[b],
                new_opts@.len() == k,
                forall|a: int|
                    0 <= a < k ==> #[trigger] crate::questions::pairs_view(new_opts@)[a] == (
                        kv[a],
                        value_of(opts, lay[a]),
                    ),
                new_answer matches Some(w) ==> w < k && lay[w as int] == self.answer@,
                new_answer is None ==> forall|a: int| 0 <= a < k ==> lay[a] != self.answer@,
            decreases keys.len() - k,
        {
            proof {
                assert(lay.contains(lay[k as int]));
                assert(kv.to_set().contains(lay[k as int]));
                let ks = opts.map_values(|p: (String, String)| p.0@);
                let w = choose|w: int| 0 <= w < ks.len() && #[trigger] ks[w] == lay[k as int];
                assert(opts[w].0@ == lay[k as int]);
            }
            let text = match lookup(&self.options, perm[k].as_str()) {
                Some(t) => t.clone(),
                None => String::new(),
            };
            let ghost before = new_opts@;
            new_opts.push((keys[k].clone(), text));
            assert forall|a: int| 0 <= a < k implies #[trigger] crate::questions::pairs_view(new_opts@)[a]
                == crate::questions::pairs_view(before)[a] by {
                assert(new_opts@[a] == before[a]);
            }
            if perm[k] == self.answer {
                new_answer = Some(k);
            }
            assert(crate::questions::pairs_view(new_opts@)[k as int] == (kv[k as int], value_of(opts, lay[k as int])));
            k += 1;
        }
        assert(crate::questions::pairs_view(new_opts@) =~= shuffled_options(opts, self.id@));
        match new_answer {
            Some(w) => {
                proof {
                    let c = choose|c: int| 0 <= c < lay.len() && lay[c] == self.answer@;
                    if c != w as int {
                        if c < w as int {
                            assert(lay[c] != lay[w as int]);
                        } else {
                            assert(lay[w as int] != lay[c]);
                        }
                    }
                }
                self.answer = keys[w].clone();
            },
            None => {
                proof {
                    assert(lay.contains(self.answer@));
                }
            },
        }
        self.options = new_opts;
    }
}


/// The UTF-8 bytes of the letters, one after the other.
pub open spec fn letter_bytes(keys: Seq<Seq<char>>) -> Seq<u8> {
    keys.map_values(|k: Seq<char>| encode_utf8(k)).flatten()
}

proof fn lemma_fnv_concat(h: u64, a: Seq<u8>, b: Seq<u8>)
    ensures
        fnv_bytes(h, a + b) == fnv_bytes(fnv_bytes(h, a), b),
    decreases a.len(),
{
    if a.len() > 0 {
        assert((a + b)[0] == a[0]);
        assert((a + b).drop_first() =~= a.drop_first() + b);
        lemma_fnv_concat(fnv_step(h, a[0]), a.drop_first(), b);
    } else {
        assert(a + b =~= b);
    }
}

proof fn lemma_fnv_keys_flat(h: u64, keys: Seq<Seq<char>>)
    ensures
        fnv_keys(h, keys) == fnv_bytes(h, letter_bytes(keys)),
    decreases keys.len(),
{
    let m = keys.map_values(|k: Seq<char>| encode_utf8(k));
    if keys.len() > 0 {
        assert(m.drop_first() =~= keys.drop_first().map_values(|k: Seq<char>| encode_utf8(k)));
        assert(m.flatten() == m.first() + m.drop_first().flatten());
        lemma_fnv_keys_flat(fnv_bytes(h, encode_utf8(keys[0])), keys.drop_first());
        lemma_fnv_concat(h, encode_utf8(keys[0]), letter_bytes(keys.drop_first()));
    } else {
        assert(m =~= Seq::<Seq<u8>>::empty());
        assert(m.flatten() =~= Seq::<u8>::empty());
    }
}

/// A question's layout is seeded by FNV-1a (64-bit, from the offset basis)
/// over one byte string: the UTF-8 bytes of its sorted option letters
/// followed by the bytes of its id, made odd. Questions with the same
/// letters are told apart by their ids.
pub proof fn lemma_seed_hashes_letters_then_id(keys: Seq<Seq<char>>, id: Seq<char>)
    ensures
        layout_seed(keys, id) == fnv_bytes(0xcbf29ce484222325u64, letter_bytes(keys) + encode_utf8(id)) | 1,
        layout_seed(keys, id) % 2 == 1,
{
    lemma_fnv_keys_flat(FNV_OFFSET, keys);
    lemma_fnv_concat(FNV_OFFSET, letter_bytes(keys), encode_utf8(id));
    let x = fnv_bytes(FNV_OFFSET, letter_bytes(keys) + encode_utf8(id));
    assert((x | 1) % 2 == 1) by (bit_vector);
}

} // verus!
