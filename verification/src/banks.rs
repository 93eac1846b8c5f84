//! The bank files of a questions directory: which files are banks, the
//! sorted list of their names, and the checks before a bank file is
//! written or removed.
use vstd::prelude::*;

use crate::api::ApiError;
use crate::progress::{lemma_insert_multiset, lemma_text_le_total, lemma_text_le_trans};
use crate::text::{str_le, text_le};
use crate::validation::views;

verus! {

/// The bank name a file name stands for: the stem of a file with the
/// extension `json`. A name that is only `.json` has no extension.
pub open spec fn json_stem(name: Seq<char>) -> Option<Seq<char>> {
    if name.len() > 5 && name.skip(name.len() - 5) == ".json"@ {
        Some(name.take(name.len() - 5))
    } else {
        None
    }
}

/// The bank names among `names`, in their order.
pub open spec fn json_stems(names: Seq<Seq<char>>) -> Seq<Seq<char>>
    decreases names.len(),
{
    if names.len() == 0 {
        Seq::empty()
    } else {
        match json_stem(names.last()) {
            Some(s) => json_stems(names.drop_last()).push(s),
            None => json_stems(names.drop_last()),
        }
    }
}

/// Ascending in `str` order.
pub open spec fn ascending(s: Seq<Seq<char>>) -> bool {
    forall|i: int, j: int| 0 <= i < j < s.len() ==> text_le(#[trigger] s[i], #[trigger] s[j])
}

/// The bank name of a file name, if it is a bank file.
pub fn bank_stem(name: &str) -> (r: Option<String>)
    ensures
        r matches Some(s) ==> json_stem(name@) == Some(s@),
        r is None <==> json_stem(name@) is None,
{
    let n = name.unicode_len();
    if n <= 5 {
        return None;
    }
    let ext = name.substring_char(n - 5, n);
    proof {
        assert(name@.skip(n - 5) =~= name@.subrange(n - 5, n as int));
    }
    if !crate::text::str_eq(ext, ".json") {
        return None;
    }
    Some(crate::text::to_owned(name.substring_char(0, n - 5)))
}

proof fn lemma_insert_ascending(rv: Seq<Seq<char>>, pos: int, x: Seq<char>)
    requires
        0 <= pos <= rv.len(),
        ascending(rv),
        forall|a: int| 0 <= a < pos ==> text_le(rv[a], x),
        pos < rv.len() ==> text_le(x, rv[pos]),
    ensures
        ascending(rv.insert(pos, x)),
{
    let nv = rv.insert(pos, x);
    rv.insert_ensures(pos, x);
    assert forall|a: int, b: int| 0 <= a < b < nv.len() implies text_le(nv[a], nv[b]) by {
        if b < pos {
            assert(nv[a] == rv[a] && nv[b] == rv[b]);
        } else if b == pos {
            assert(nv[a] == rv[a]);
        } else if a == pos {
            assert(nv[b] == rv[b - 1]);
            if b - 1 > pos {
                lemma_text_le_trans(x, rv[pos], rv[b - 1]);
            }
        } else if a < pos {
            assert(nv[a] == rv[a] && nv[b] == rv[b - 1]);
        } else {
            assert(nv[a] == rv[a - 1] && nv[b] == rv[b - 1]);
        }
    }
}

/// The strings in ascending `str` order.
pub fn sort_texts(v: Vec<String>) -> (r: Vec<String>)
    ensures
        ascending(views(r@)),
        views(r@).to_multiset() == views(v@).to_multiset(),
{
    let mut r: Vec<String> = Vec::new();
    let mut i: usize = 0;
    assert(views(r@) =~= views(v@).take(0));
    while i < v.len()
        invariant
            0 <= i <= v@.len(),
            ascending(views(r@)),
            views(r@).to_multiset() == views(v@).take(i as int).to_multiset(),
        decreases v.len() - i,
    {
        let x = &v[i];
        let ghost rv = views(r@);
        let mut pos: usize = 0;
        while pos < r.len() && str_le(r[pos].as_str(), x.as_str())
            invariant
                0 <= pos <= r@.len(),
                rv == views(r@),
                forall|a: int| 0 <= a < pos ==> text_le(rv[a], x@),
            decreases r.len() - pos,
        {
            pos += 1;
        }
        proof {
            if pos < r@.len() {
                lemma_text_le_total(rv[pos as int], x@);
            }
            lemma_insert_ascending(rv, pos as int, x@);
            lemma_insert_multiset(rv, pos as int, x@);
            assert(views(v@).take(i + 1) =~= views(v@).take(i as int).push(x@));
            vstd::seq_lib::to_multiset_build(views(v@).take(i as int), x@);
        }
        r.insert(pos, x.clone());
        assert(views(r@) =~= rv.insert(pos as int, x@));
        i += 1;
    }
    assert(views(v@).take(v@.len() as int) =~= views(v@));
    r
}

/// The bank names of the files of a questions directory, ascending.
pub fn cert_names(file_names: &Vec<String>) -> (r: Vec<String>)
    ensures
        ascending(views(r@)),
        views(r@).to_multiset() == json_stems(views(file_names@)).to_multiset(),
{
    let mut stems: Vec<String> = Vec::new();
    let mut i: usize = 0;
    while i < file_names.len()
        invariant
            0 <= i <= file_names@.len(),
            views(stems@) == json_stems(views(file_names@).take(i as int)),
        decreases file_names.len() - i,
    {
        let ghost before = views(stems@);
        assert(views(file_names@).take(i + 1).drop_last() =~= views(file_names@).take(i as int));
        assert(views(file_names@).take(i + 1).last() == file_names@[i as int]@);
        match bank_stem(file_names[i].as_str()) {
            Some(s) => {
                stems.push(s);
                assert(views(stems@) =~= before.push(stems@.last()@));
            },
            None => {},
        }
        i += 1;
    }
    assert(views(file_names@).take(file_names@.len() as int) =~= views(file_names@));
    sort_texts(stems)
}

/// Writing the bank `name` is refused when a bank of that name exists and
/// the upload does not ask to replace it.
pub fn check_upload(name: &str, present: bool, overwrite: bool) -> (r: Result<(), ApiError>)
    ensures
        r is Ok <==> (!present || overwrite),
        r matches Err(e) ==> e.status == 409 && e.message@ == "A bank named '"@ + name@
            + "' already exists. Replacing it may orphan saved progress if its question IDs changed."@,
{
    if present && !overwrite {
        let mut m = crate::text::to_owned("A bank named '");
        m.append(name);
        m.append(
            "' already exists. Replacing it may orphan saved progress if its question IDs changed.",
        );
        return Err(ApiError::conflict(m.as_str()));
    }
    Ok(())
}

/// Removing the bank `name` is refused when there is no such bank.
pub fn check_delete(name: &str, present: bool) -> (r: Result<(), ApiError>)
    ensures
        r is Ok <==> present,
        r matches Err(e) ==> e.status == 400 && e.message@ == "No bank named '"@ + name@ + "'"@,
{
    if !present {
        let mut m = crate::text::to_owned("No bank named '");
        m.append(name);
        m.append("'");
        return Err(ApiError::bad_request(m.as_str()));
    }
    Ok(())
}

/// The file a bank named `name` is stored in.
pub fn bank_file_name(name: &str) -> (r: String)
    ensures
        r@ == name@ + ".json"@,
{
    let mut r = crate::text::to_owned(name);
    r.append(".json");
    r
}

} // verus!
