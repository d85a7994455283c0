//! The loader's answers and the numbering of crates that follows from them.
//!
//! A workspace names its root files in a fixed order. The loader answers for
//! each whether the file could be loaded. The crates of the graph are the
//! loaded roots, numbered in that order.
use vstd::prelude::*;
use crate::base::FileId;

verus! {

/// The answer of the loader for the root file at position `i`: what `loads`
/// holds there, and nothing where `loads` is too short.
pub open spec fn load_at(loads: Seq<Option<FileId>>, i: int) -> Option<FileId> {
    if 0 <= i < loads.len() {
        loads[i]
    } else {
        None
    }
}

/// Number of root files among the first `n` that were loaded.
pub open spec fn count_loaded(loads: Seq<Option<FileId>>, n: int) -> int
    decreases n,
{
    if n <= 0 {
        0
    } else {
        count_loaded(loads, n - 1) + if load_at(loads, n - 1) is Some {
            1int
        } else {
            0int
        }
    }
}

/// The crate that stands for the root file at position `i` of `n`: roots are
/// numbered in the order in which they were loaded.
pub open spec fn crate_of(loads: Seq<Option<FileId>>, n: int, i: int) -> Option<int> {
    if 0 <= i < n && load_at(loads, i) is Some {
        Some(count_loaded(loads, i))
    } else {
        None
    }
}

/// Of `n` root files at most `n` were loaded.
pub(crate) proof fn lemma_count_loaded_bounds(loads: Seq<Option<FileId>>, n: int)
    ensures
        0 <= count_loaded(loads, n),
        n >= 0 ==> count_loaded(loads, n) <= n,
        n <= 0 ==> count_loaded(loads, n) == 0,
    decreases n,
{
    if n > 0 {
        lemma_count_loaded_bounds(loads, n - 1);
    }
}

/// The count of loaded root files grows with the number of files counted,
/// and by at least one over a file that was loaded.
pub(crate) proof fn lemma_count_loaded_mono(loads: Seq<Option<FileId>>, i: int, n: int)
    requires
        i <= n,
    ensures
        count_loaded(loads, i) <= count_loaded(loads, n),
        i < n && load_at(loads, i) is Some ==> count_loaded(loads, i) < count_loaded(loads, n),
    decreases n - i,
{
    lemma_count_loaded_bounds(loads, i);
    lemma_count_loaded_bounds(loads, n);
    if i < n {
        lemma_count_loaded_mono(loads, i, n - 1);
    }
}

pub(crate) fn loaded_at(loads: &Vec<Option<FileId>>, i: usize) -> (file: Option<FileId>)
    ensures
        file == load_at(loads@, i as int),
{
    if i < loads.len() {
        loads[i]
    } else {
        None
    }
}

} // verus!
