//! Bubble sort over the instrumented list interface: repeated passes swap
//! adjacent out-of-order pairs, each pass shrinking the unsorted prefix by
//! one, stopping early once a pass makes no swap.

use vstd::prelude::*;

verus! {

use crate::list::{
    List,
    Operation,
    lemma_records_refl,
    lemma_records_step,
    lemma_swap_multiset,
    records_run,
    sorted,
    sorted_between,
};

pub fn bubblesort<L: List>(list: &mut L)
    ensures
        sorted(final(list).contents()),
        final(list).contents().to_multiset() == old(list).contents().to_multiset(),
        records_run(*old(list), *final(list)),
{
    let ghost pre = *list;
    proof {
        lemma_records_refl(pre);
    }
    let n = list.len();
    let mut swapped = true;
    let mut iterations: usize = 0;
    while swapped
        invariant
            n == list.contents().len(),
            iterations <= n + 1,
            swapped ==> iterations == 0 || iterations + 1 <= n,
            sorted_between(list.contents(), n as int - iterations as int, n as int),
            forall|a: int, b: int|
                0 <= a && a < n as int - iterations as int && n as int - iterations as int <= b
                    && b < n as int ==> list.contents()[a] <= list.contents()[b],
            !swapped ==> sorted_between(list.contents(), 0, n as int),
            list.contents().to_multiset() == pre.contents().to_multiset(),
            records_run(pre, *list),
        decreases n + 1 - iterations,
    {
        swapped = false;
        let mut index: usize = 1;
        while index < n - iterations
            invariant
                n == list.contents().len(),
                iterations <= n,
                1 <= index,
                index <= n - iterations || index == 1,
                swapped ==> iterations + 2 <= n,
                forall|k: int|
                    0 <= k < index ==> #[trigger] list.contents()[k] <= list.contents()[
                        index - 1
                    ],
                sorted_between(list.contents(), n as int - iterations as int, n as int),
                forall|a: int, b: int|
                    0 <= a && a < n as int - iterations as int && n as int - iterations as int
                        <= b && b < n as int ==> list.contents()[a] <= list.contents()[b],
                !swapped ==> sorted_between(list.contents(), 0, index as int),
                list.contents().to_multiset() == pre.contents().to_multiset(),
                records_run(pre, *list),
            decreases n - index,
        {
            let ghost mid = *list;
            let c = list.compare(index - 1, index);
            proof {
                lemma_records_step(pre, mid, *list, Operation::Compare((index - 1) as usize, index));
            }
            if matches!(c, core::cmp::Ordering::Greater) {
                let ghost mid2 = *list;
                list.swap(index - 1, index);
                proof {
                    lemma_records_step(pre, mid2, *list, Operation::Swap((index - 1) as usize, index));
                    lemma_swap_multiset(mid2.contents(), index as int - 1, index as int);
                }
                swapped = true;
            }
            index += 1;
        }
        iterations += 1;
    }
}

} // verus!
