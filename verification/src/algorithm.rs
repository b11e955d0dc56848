//! Selection of a sorting algorithm by name: the names the command line
//! accepts, as a tagged choice rather than a function pointer, and the
//! dispatch that runs the chosen algorithm.

use vstd::prelude::*;

verus! {

use crate::bubblesort::bubblesort;
use crate::list::{List, records_run, sorted};
use crate::quicksort::quicksort;
use crate::quicksort2::quicksort2;
use crate::selectionsort::selectionsort;
use vstd::string::StringSliceAdditionalSpecFns;

/// The sorting algorithms selectable by name at startup.
#[derive(Copy, Clone, Debug, PartialEq, Eq, Structural)]
pub enum Algorithm {
    Bubble,
    Selection,
    Quick,
    Quick2,
}

/// The algorithm a name selects, tried in a fixed order.
pub open spec fn spec_algorithm_for(name: Seq<u8>) -> Option<Algorithm> {
    if name == "bubblesort".spec_bytes() {
        Some(Algorithm::Bubble)
    } else if name == "selectionsort".spec_bytes() {
        Some(Algorithm::Selection)
    } else if name == "quicksort".spec_bytes() {
        Some(Algorithm::Quick)
    } else if name == "quicksort2".spec_bytes() {
        Some(Algorithm::Quick2)
    } else {
        None
    }
}

/// Two byte strings hold the same bytes.
fn bytes_equal(a: &[u8], b: &[u8]) -> (r: bool)
    ensures
        r == (a@ == b@),
{
    if a.len() != b.len() {
        return false;
    }
    let n = a.len();
    let mut i: usize = 0;
    while i < n
        invariant
            i <= n,
            n == a@.len() == b@.len(),
            forall|k: int| 0 <= k < i ==> a@[k] == b@[k],
        decreases n - i,
    {
        if *vstd::slice::slice_index_get(a, i) != *vstd::slice::slice_index_get(b, i) {
            return false;
        }
        i += 1;
    }
    proof {
        assert(a@ =~= b@);
    }
    true
}

/// Look an algorithm up by its name.
pub fn get_sort_fn(name: &str) -> (r: Option<Algorithm>)
    ensures
        r == spec_algorithm_for(name.spec_bytes()),
{
    let bytes = name.as_bytes();
    if bytes_equal(bytes, "bubblesort".as_bytes()) {
        Some(Algorithm::Bubble)
    } else if bytes_equal(bytes, "selectionsort".as_bytes()) {
        Some(Algorithm::Selection)
    } else if bytes_equal(bytes, "quicksort".as_bytes()) {
        Some(Algorithm::Quick)
    } else if bytes_equal(bytes, "quicksort2".as_bytes()) {
        Some(Algorithm::Quick2)
    } else {
        None
    }
}

/// Run the chosen algorithm against an instrumented list.  Whatever the
/// choice, the result is sorted, holds the same values, and its operation
/// stream replays to the final contents.
pub fn run_sort<L: List>(alg: Algorithm, list: &mut L)
    ensures
        sorted(final(list).contents()),
        final(list).contents().to_multiset() == old(list).contents().to_multiset(),
        records_run(*old(list), *final(list)),
{
    match alg {
        Algorithm::Bubble => bubblesort(list),
        Algorithm::Selection => selectionsort(list),
        Algorithm::Quick => quicksort(list),
        Algorithm::Quick2 => quicksort2(list),
    }
}

} // verus!
