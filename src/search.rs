//! Interactive lookup over the index's names.
//!
//! A name matches a query when the lower-cased query occurs in the
//! lower-cased name; the empty query matches every name. Matches keep the
//! order of the names given.
use vstd::prelude::*;
use crate::codec::views;
use crate::text::{contains, contains_str};

verus! {

/// The lower-case form of a text, as `str::to_lowercase` gives it.
pub uninterp spec fn lower_of(s: Seq<char>) -> Seq<char>;

/// Relies on `str::to_lowercase`: the result depends on the characters
/// alone, and an empty text stays empty.
#[verifier::external_body]
fn lowercase(s: &str) -> (r: String)
    ensures
        r@ == lower_of(s@),
        s@.len() == 0 ==> r@.len() == 0,
{
    s.to_lowercase()
}

/// Whether `name` matches `query`, case being ignored.
pub open spec fn matches(query: Seq<char>, name: Seq<char>) -> bool {
    contains(lower_of(name), lower_of(query))
}

/// The names that `query` matches, in their order.
pub open spec fn search(query: Seq<char>, names: Seq<Seq<char>>) -> Seq<Seq<char>>
    decreases names.len(),
{
    if names.len() == 0 {
        names
    } else {
        let rest = search(query, names.drop_last());
        if matches(query, names.last()) {
            rest.push(names.last())
        } else {
            rest
        }
    }
}

/// Whether a lower-cased name matches a lower-cased query.
pub fn matches_folded(query_folded: &str, name_folded: &str) -> (r: bool)
    ensures
        r == contains(name_folded@, query_folded@),
{
    contains_str(name_folded, query_folded)
}

/// The names that `query` matches, case being ignored, in their order.
/// The empty query keeps every name.
pub fn filter(query: &str, names: &Vec<String>) -> (r: Vec<String>)
    ensures
        views(r@) == search(query@, views(names@)),
        query@.len() == 0 ==> views(r@) == views(names@),
{
    let q = lowercase(query);
    let mut out: Vec<String> = Vec::new();
    let mut i: usize = 0;
    proof {
        assert(views(names@).subrange(0, 0) =~= Seq::<Seq<char>>::empty());
        assert(views(out@) =~= Seq::<Seq<char>>::empty());
    }
    while i < names.len()
        invariant
            i <= names.len(),
            q@ == lower_of(query@),
            query@.len() == 0 ==> q@.len() == 0,
            views(out@) == search(query@, views(names@).subrange(0, i as int)),
            query@.len() == 0 ==> views(out@) == views(names@).subrange(0, i as int),
        decreases names.len() - i,
    {
        let ghost pre = views(names@).subrange(0, i as int);
        proof {
            assert(views(names@).subrange(0, i + 1).drop_last() =~= pre);
        }
        let n = lowercase(names[i].as_str());
        let keep = matches_folded(q.as_str(), n.as_str());
        proof {
            if query@.len() == 0 {
                assert(n@.subrange(0, 0 + q@.len() as int) =~= q@);
            }
        }
        if keep {
            out.push(names[i].clone());
            proof {
                assert(views(out@) =~= search(query@, pre).push(names[i as int]@));
                assert(views(names@).subrange(0, i + 1) =~= pre.push(names[i as int]@));
            }
        }
        i = i + 1;
    }
    proof {
        assert(views(names@).subrange(0, names.len() as int) =~= views(names@));
    }
    out
}

} // verus!
