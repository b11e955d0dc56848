//! A second quicksort over the instrumented list interface, differing from
//! `quicksort` only in its tie rule for equal elements: the Lomuto scan
//! moves only strictly smaller elements to the left of the pivot, so equal
//! elements end up right of it.

use vstd::prelude::*;

verus! {

use crate::list::{
    List,
    Operation,
    lemma_records_refl,
    lemma_records_step,
    lemma_records_trans,
    lemma_swap_multiset_range,
    records_run,
    sorted,
    sorted_between,
};
use crate::quicksort::lemma_quicksort_combine;

/// Partition the window `[begin, end]` around a random pivot.  Afterwards
/// the value at the returned index is at its final place: everything left
/// of it in the window is smaller, everything right of it is no smaller.
fn partition<L: List>(list: &mut L, begin: usize, end: usize) -> (p: usize)
    requires
        begin <= end < old(list).contents().len(),
    ensures
        final(list).contents().len() == old(list).contents().len(),
        begin <= p <= end,
        forall|k: int|
            begin <= k < p ==> #[trigger] final(list).contents()[k] < final(list).contents()[
                p as int
            ],
        forall|k: int|
            p < k <= end ==> #[trigger] final(list).contents()[k] >= final(list).contents()[
                p as int
            ],
        forall|k: int|
            0 <= k < old(list).contents().len() && !(begin <= k <= end)
                ==> final(list).contents()[k] == old(list).contents()[k],
        final(list).contents().subrange(begin as int, end as int + 1).to_multiset() == old(
            list,
        ).contents().subrange(begin as int, end as int + 1).to_multiset(),
        records_run(*old(list), *final(list)),
{
    let ghost pre = *list;
    proof {
        lemma_records_refl(pre);
    }
    let n = list.len();
    let r = rand::random::<usize>();
    let span = end - begin + 1;
    let pivot_choice = begin + r % span;
    let ghost m0 = *list;
    list.swap(pivot_choice, end);
    proof {
        lemma_records_step(pre, m0, *list, Operation::Swap(pivot_choice, end));
        lemma_swap_multiset_range(
            m0.contents(),
            pivot_choice as int,
            end as int,
            begin as int,
            end as int + 1,
        );
    }
    let ghost v = list.contents()[end as int];
    let mut store: usize = begin;
    let mut i: usize = begin;
    while i < end
        invariant
            n == list.contents().len(),
            begin <= store <= i <= end < n,
            list.contents()[end as int] == v,
            forall|k: int| begin <= k < store ==> #[trigger] list.contents()[k] < v,
            forall|k: int| store <= k < i ==> #[trigger] list.contents()[k] >= v,
            forall|k: int|
                0 <= k < n && !(begin <= k <= end) ==> list.contents()[k] == pre.contents()[k],
            list.contents().subrange(begin as int, end as int + 1).to_multiset()
                == pre.contents().subrange(begin as int, end as int + 1).to_multiset(),
            records_run(pre, *list),
        decreases end - i,
    {
        let ghost m1 = *list;
        let c = list.compare(i, end);
        proof {
            lemma_records_step(pre, m1, *list, Operation::Compare(i, end));
        }
        if matches!(c, core::cmp::Ordering::Less) {
            let ghost m2 = *list;
            list.swap(store, i);
            proof {
                lemma_records_step(pre, m2, *list, Operation::Swap(store, i));
                lemma_swap_multiset_range(
                    m2.contents(),
                    store as int,
                    i as int,
                    begin as int,
                    end as int + 1,
                );
            }
            store += 1;
        }
        i += 1;
    }
    let ghost m3 = *list;
    list.swap(store, end);
    proof {
        lemma_records_step(pre, m3, *list, Operation::Swap(store, end));
        lemma_swap_multiset_range(
            m3.contents(),
            store as int,
            end as int,
            begin as int,
            end as int + 1,
        );
    }
    store
}

/// Sort the window `[begin, end]`; the rest of the list is untouched.
fn real_quicksort<L: List>(list: &mut L, begin: usize, end: usize)
    requires
        end < old(list).contents().len(),
        begin <= end + 1,
    ensures
        final(list).contents().len() == old(list).contents().len(),
        sorted_between(final(list).contents(), begin as int, end as int + 1),
        forall|k: int|
            0 <= k < old(list).contents().len() && !(begin <= k <= end)
                ==> final(list).contents()[k] == old(list).contents()[k],
        final(list).contents().subrange(begin as int, end as int + 1).to_multiset() == old(
            list,
        ).contents().subrange(begin as int, end as int + 1).to_multiset(),
        records_run(*old(list), *final(list)),
    decreases end as int - begin as int + 1,
{
    let ghost pre = *list;
    if begin < end {
        let p = partition(list, begin, end);
        let ghost s1 = *list;
        let left_length = p - begin;
        let right_length = end - p;
        if left_length <= right_length {
            if left_length > 0 {
                let ghost before = *list;
                real_quicksort(list, begin, p - 1);
                proof {
                    lemma_records_trans(pre, before, *list);
                }
            }
            let ghost mid = *list;
            real_quicksort(list, p + 1, end);
            proof {
                lemma_records_trans(pre, mid, *list);
                assert(list.contents().subrange(begin as int, p as int)
                    =~= mid.contents().subrange(begin as int, p as int));
                if left_length == 0 {
                    assert(mid.contents().subrange(begin as int, p as int)
                        =~= s1.contents().subrange(begin as int, p as int));
                }
                assert(mid.contents().subrange(p as int + 1, end as int + 1)
                    =~= s1.contents().subrange(p as int + 1, end as int + 1));
            }
        } else {
            if right_length > 0 {
                let ghost before = *list;
                real_quicksort(list, p + 1, end);
                proof {
                    lemma_records_trans(pre, before, *list);
                }
            }
            let ghost mid = *list;
            real_quicksort(list, begin, p - 1);
            proof {
                lemma_records_trans(pre, mid, *list);
                assert(list.contents().subrange(p as int + 1, end as int + 1)
                    =~= mid.contents().subrange(p as int + 1, end as int + 1));
                if right_length == 0 {
                    assert(mid.contents().subrange(p as int + 1, end as int + 1)
                        =~= s1.contents().subrange(p as int + 1, end as int + 1));
                }
                assert(mid.contents().subrange(begin as int, p as int)
                    =~= s1.contents().subrange(begin as int, p as int));
            }
        }
        proof {
            lemma_quicksort_combine(
                pre.contents(),
                s1.contents(),
                list.contents(),
                begin as int,
                p as int,
                end as int,
            );
        }
    } else {
        proof {
            lemma_records_refl(pre);
        }
    }
}

/// Quicksort with the strict tie rule: partition around a random pivot,
/// then sort each side.
pub fn quicksort2<L: List>(list: &mut L)
    ensures
        sorted(final(list).contents()),
        final(list).contents().to_multiset() == old(list).contents().to_multiset(),
        records_run(*old(list), *final(list)),
{
    let ghost pre = *list;
    let length = list.len();
    if length > 1 {
        real_quicksort(list, 0, length - 1);
        proof {
            assert(pre.contents().subrange(0, length as int) =~= pre.contents());
            assert(list.contents().subrange(0, length as int) =~= list.contents());
        }
    } else {
        proof {
            lemma_records_refl(pre);
        }
    }
}

} // verus!
