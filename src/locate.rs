//! The upward search for the configuration file: from the working directory
//! through each parent up to the root, stopping at the first directory that
//! holds the file.
use vstd::prelude::*;

verus! {

/// What the search does after looking at one directory.
#[derive(Clone, Copy, Debug, PartialEq, Eq, Structural)]
pub enum SearchStep {
    /// The file is in this directory: stop here.
    Found,
    /// Not here: go on to the parent directory.
    Ascend,
    /// Not here and there is no parent: the file is nowhere.
    Missing,
}

pub open spec fn step_of(exists_here: bool, has_parent: bool) -> SearchStep {
    if exists_here {
        SearchStep::Found
    } else if has_parent {
        SearchStep::Ascend
    } else {
        SearchStep::Missing
    }
}

/// The decision after looking for the file in one directory.
pub fn search_step(exists_here: bool, has_parent: bool) -> (r: SearchStep)
    ensures
        r == step_of(exists_here, has_parent),
{
    if exists_here {
        SearchStep::Found
    } else if has_parent {
        SearchStep::Ascend
    } else {
        SearchStep::Missing
    }
}

/// Where a search that starts at directory `i` of the chain stops:
/// `present[j]` tells whether directory `j` holds the file, directory 0 is
/// the working directory and the last one is the root.
pub open spec fn search_from(present: Seq<bool>, i: int) -> Option<int>
    decreases present.len() - i,
{
    if i < 0 || i >= present.len() {
        None
    } else {
        match step_of(present[i], i + 1 < present.len()) {
            SearchStep::Found => Some(i),
            SearchStep::Ascend => search_from(present, i + 1),
            SearchStep::Missing => None,
        }
    }
}

/// A file `d` levels above the working directory, and in none below, is
/// found there; a file in no directory of the chain is not found.
pub proof fn lemma_search_finds_nearest(present: Seq<bool>, d: int)
    requires
        0 <= d < present.len(),
    ensures
        (present[d] && forall|j: int| 0 <= j < d ==> !present[j]) ==> search_from(present, 0) == Some(d),
        (forall|j: int| 0 <= j < present.len() ==> !present[j]) ==> search_from(present, 0) is None,
{
    if present[d] && forall|j: int| 0 <= j < d ==> !present[j] {
        lemma_search_skips(present, 0, d);
    }
    if forall|j: int| 0 <= j < present.len() ==> !present[j] {
        lemma_search_skips(present, 0, present.len() - 1);
    }
}

proof fn lemma_search_skips(present: Seq<bool>, i: int, d: int)
    requires
        0 <= i <= d < present.len(),
        forall|j: int| i <= j < d ==> !present[j],
    ensures
        search_from(present, i) == search_from(present, d),
    decreases d - i,
{
    if i < d {
        lemma_search_skips(present, i + 1, d);
    }
}

} // verus!
