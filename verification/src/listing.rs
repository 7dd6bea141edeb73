//! Picks the candidate frame files out of a directory listing with a regular
//! expression, before the filename grammar reads them.

use vstd::prelude::*;
use crate::filename::names_view;

verus! {

/// Whether the regular expression `pattern` matches somewhere in `text`, as
/// the `regex` crate decides it; `None` where the crate rejects `pattern`.
pub uninterp spec fn pattern_search(pattern: Seq<char>, text: Seq<char>) -> Option<bool>;

/// `Regex::new` followed by `Regex::is_match`: compiles `pattern` and tells
/// whether it matches somewhere in `text`. Returns `None` where the pattern
/// does not compile. Nothing is claimed of the answer but that it depends on
/// the two strings alone.
#[verifier::external_body]
fn matches_pattern(pattern: &str, text: &str) -> (r: Option<bool>)
    ensures
        r == pattern_search(pattern@, text@),
{
    match regex::Regex::new(pattern) {
        Ok(re) => Some(re.is_match(text)),
        Err(_) => None,
    }
}

/// The expression that a candidate's whole name must match: digits, an
/// underscore, digits, and the extension `.png`.
pub open spec fn frame_pattern() -> Seq<char> {
    "^[0-9]+_[0-9]+\\.png$"@
}

/// Whether a name of a directory listing is a candidate frame file.
pub open spec fn is_candidate(name: Seq<char>) -> bool {
    pattern_search(frame_pattern(), name) == Some(true)
}

/// Tells whether one name is a candidate frame file.
pub fn is_image_path(name: &str) -> (r: bool)
    ensures
        r == is_candidate(name@),
{
    match matches_pattern("^[0-9]+_[0-9]+\\.png$", name) {
        Some(found) => found,
        None => false,
    }
}

/// Keeps the candidate frame files of a directory listing, in its order.
pub fn get_images_paths(listing: &Vec<String>) -> (paths: Vec<String>)
    ensures
        names_view(paths@) == names_view(listing@).filter(|name: Seq<char>| is_candidate(name)),
{
    let ghost keep = |name: Seq<char>| is_candidate(name);
    let mut paths: Vec<String> = Vec::new();
    let mut i: usize = 0;
    proof {
        reveal(Seq::filter);
        assert(names_view(listing@).take(0) =~= Seq::<Seq<char>>::empty());
        assert(names_view(paths@) =~= Seq::<Seq<char>>::empty());
    }
    while i < listing.len()
        invariant
            i <= listing.len(),
            keep == |name: Seq<char>| is_candidate(name),
            names_view(paths@) == names_view(listing@).take(i as int).filter(keep),
        decreases listing.len() - i,
    {
        let ghost before = names_view(paths@);
        proof {
            reveal(Seq::filter);
            let all = names_view(listing@);
            assert(all.take(i + 1).drop_last() =~= all.take(i as int));
            assert(all.take(i + 1).last() == listing@[i as int]@);
        }
        if is_image_path(listing[i].as_str()) {
            paths.push(listing[i].clone());
            assert(names_view(paths@) =~= before.push(listing@[i as int]@));
        }
        i = i + 1;
    }
    assert(names_view(listing@).take(listing.len() as int) =~= names_view(listing@));
    paths
}

} // verus!
