//! Insertion sort over the instrumented list interface: each element is
//! moved left by adjacent swaps until the prefix before it is sorted.

use vstd::prelude::*;

verus! {

use crate::list::{
    List,
    Operation,
    lemma_records_refl,
    lemma_records_step,
    lemma_swap_multiset,
    records_run,
    sorted,
    sorted_between,
};

pub fn insertionsort<L: List>(list: &mut L)
    ensures
        sorted(final(list).contents()),
        final(list).contents().to_multiset() == old(list).contents().to_multiset(),
        records_run(*old(list), *final(list)),
{
    let ghost pre = *list;
    proof {
        lemma_records_refl(pre);
    }
    let n = list.len();
    let mut insert_index: usize = 1;
    while insert_index < n
        invariant
            n == list.contents().len(),
            1 <= insert_index,
            insert_index <= n || insert_index == 1,
            sorted_between(list.contents(), 0, insert_index as int),
            list.contents().to_multiset() == pre.contents().to_multiset(),
            records_run(pre, *list),
        decreases n - insert_index,
    {
        let mut swap_index = insert_index;
        loop
            invariant
                n == list.contents().len(),
                insert_index < n,
                swap_index <= insert_index,
                sorted_between(list.contents(), 0, swap_index as int),
                sorted_between(list.contents(), swap_index as int, insert_index as int + 1),
                forall|a: int, b: int|
                    0 <= a < swap_index && swap_index < b <= insert_index
                        ==> list.contents()[a] <= list.contents()[b],
                list.contents().to_multiset() == pre.contents().to_multiset(),
                records_run(pre, *list),
            ensures
                n == list.contents().len(),
                sorted_between(list.contents(), 0, insert_index as int + 1),
                list.contents().to_multiset() == pre.contents().to_multiset(),
                records_run(pre, *list),
            decreases swap_index,
        {
            if swap_index == 0 {
                break ;
            }
            let ghost mid = *list;
            let c = list.compare(swap_index - 1, swap_index);
            proof {
                lemma_records_step(
                    pre,
                    mid,
                    *list,
                    Operation::Compare((swap_index - 1) as usize, swap_index),
                );
            }
            if !matches!(c, core::cmp::Ordering::Greater) {
                break ;
            }
            let ghost mid2 = *list;
            list.swap(swap_index - 1, swap_index);
            proof {
                lemma_records_step(
                    pre,
                    mid2,
                    *list,
                    Operation::Swap((swap_index - 1) as usize, swap_index),
                );
                lemma_swap_multiset(mid2.contents(), swap_index as int - 1, swap_index as int);
            }
            swap_index -= 1;
        }
        insert_index += 1;
    }
}

} // verus!
