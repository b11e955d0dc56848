//! Selection sort over the instrumented list interface: each pass finds the
//! least remaining element and swaps it to the front of the unsorted suffix.

use vstd::prelude::*;

verus! {

use crate::list::{
    List,
    Operation,
    lemma_records_refl,
    lemma_records_step,
    lemma_swap_multiset,
    records_run,
    sorted,
    sorted_between,
};

pub fn selectionsort<L: List>(list: &mut L)
    ensures
        sorted(final(list).contents()),
        final(list).contents().to_multiset() == old(list).contents().to_multiset(),
        records_run(*old(list), *final(list)),
{
    let ghost pre = *list;
    proof {
        lemma_records_refl(pre);
    }
    let n = list.len();
    let mut index1: usize = 0;
    while index1 < n
        invariant
            n == list.contents().len(),
            index1 <= n,
            sorted_between(list.contents(), 0, index1 as int),
            forall|a: int, b: int|
                0 <= a < index1 && index1 <= b < n ==> list.contents()[a] <= list.contents()[b],
            list.contents().to_multiset() == pre.contents().to_multiset(),
            records_run(pre, *list),
        decreases n - index1,
    {
        let mut min_index = index1;
        let mut index2 = index1 + 1;
        while index2 < n
            invariant
                n == list.contents().len(),
                index1 < n,
                index1 + 1 <= index2 <= n,
                index1 <= min_index < index2,
                forall|k: int|
                    index1 <= k < index2 ==> list.contents()[min_index as int]
                        <= #[trigger] list.contents()[k],
                sorted_between(list.contents(), 0, index1 as int),
                forall|a: int, b: int|
                    0 <= a < index1 && index1 <= b < n ==> list.contents()[a]
                        <= list.contents()[b],
                list.contents().to_multiset() == pre.contents().to_multiset(),
                records_run(pre, *list),
            decreases n - index2,
        {
            let ghost mid = *list;
            let c = list.compare(min_index, index2);
            proof {
                lemma_records_step(pre, mid, *list, Operation::Compare(min_index, index2));
            }
            if matches!(c, core::cmp::Ordering::Greater) {
                min_index = index2;
            }
            index2 += 1;
        }
        if min_index != index1 {
            let ghost mid2 = *list;
            list.swap(index1, min_index);
            proof {
                lemma_records_step(pre, mid2, *list, Operation::Swap(index1, min_index));
                lemma_swap_multiset(mid2.contents(), index1 as int, min_index as int);
            }
        }
        index1 += 1;
    }
}

} // verus!
