//! Shell sort over the instrumented list interface, with the Tokuda gap
//! sequence taken in descending order.  Each gap drives one gapped
//! insertion pass; the final pass always has gap 1 and is therefore a full
//! insertion sort, which is what makes the result sorted.

use vstd::prelude::*;

verus! {

use crate::list::{
    List,
    Operation,
    lemma_records_refl,
    lemma_records_step,
    lemma_records_trans,
    lemma_swap_multiset,
    records_run,
    sorted,
    sorted_between,
};
use vstd::arithmetic::power::{lemma_pow1, lemma_pow_adds, lemma_pow_increases, pow};

/// The value of nine to the thirty-seventh power, by repeated squaring.
proof fn lemma_pow9_37()
    ensures
        pow(9, 37) == 202755595904452569706561330872953769,
{
    lemma_pow1(9);
    lemma_pow_adds(9, 1, 1);
    assert(pow(9, 2) == 81);
    lemma_pow_adds(9, 2, 2);
    assert(pow(9, 4) == 6561);
    lemma_pow_adds(9, 4, 4);
    assert(pow(9, 8) == 43046721);
    lemma_pow_adds(9, 8, 8);
    assert(pow(9, 16) == 1853020188851841);
    lemma_pow_adds(9, 16, 16);
    assert(pow(9, 32) == 3433683820292512484657849089281);
    lemma_pow_adds(9, 32, 4);
    assert(pow(9, 36) == 22528399544939174411840147874772641);
    lemma_pow_adds(9, 36, 1);
}

/// The Tokuda gap with index `k` (the smallest gap has index 0): the
/// ceiling of `(9 * (9/4)^k - 4) / 5`, written over integer powers.
pub open spec fn tokuda_gap(k: int) -> int {
    let p9 = pow(9, (k + 1) as nat);
    let p4 = pow(4, (k + 1) as nat);
    (4 * p9 + p4 - 1) / (5 * p4)
}

/// The Tokuda gaps no greater than `max_value`, in descending order.  The
/// length bound in the last clause covers every sequence that fits in
/// memory: beyond it the exact powers would no longer fit the arithmetic
/// used here, and the smaller gaps alone still sort correctly.
pub fn gaps_sequence(max_value: usize) -> (r: Vec<usize>)
    ensures
        forall|i: int| 0 <= i < r@.len() ==> r@[i] == tokuda_gap(r@.len() - 1 - i),
        forall|i: int| 0 <= i < r@.len() ==> #[trigger] r@[i] <= max_value,
        forall|i: int| 0 <= i < r@.len() ==> #[trigger] r@[i] >= 1,
        r@.len() < 37 ==> tokuda_gap(r@.len() as int) > max_value,
        max_value >= 1 ==> r@.len() >= 1,
{
    let mut gaps: Vec<usize> = Vec::new();
    let mut k: usize = 0;
    let mut p9: u128 = 9;
    let mut p4: u128 = 4;
    proof {
        lemma_pow1(9);
        lemma_pow1(4);
    }
    loop
        invariant_except_break
            k <= 36,
            p9 == pow(9, (k + 1) as nat),
            p4 == pow(4, (k + 1) as nat),
            p4 < p9,
            p4 >= 4,
            p9 <= u128::MAX / 64,
        invariant
            gaps@.len() == k,
            k <= 37,
            forall|i: int| 0 <= i < k ==> gaps@[i] == tokuda_gap(k - 1 - i),
            forall|i: int| 0 <= i < k ==> #[trigger] gaps@[i] <= max_value,
            forall|i: int| 0 <= i < k ==> #[trigger] gaps@[i] >= 1,
        ensures
            gaps@.len() == k,
            forall|i: int| 0 <= i < k ==> gaps@[i] == tokuda_gap(k - 1 - i),
            forall|i: int| 0 <= i < k ==> #[trigger] gaps@[i] <= max_value,
            forall|i: int| 0 <= i < k ==> #[trigger] gaps@[i] >= 1,
            k < 37 ==> tokuda_gap(k as int) > max_value,
        decreases 37 - k,
    {
        let num = 4 * p9 + (p4 - 1);
        let den = 5 * p4;
        let value = num / den;
        proof {
            assert((k as int + 1) as nat == (k + 1) as nat);
            assert(value == tokuda_gap(k as int));
            assert(num >= den);
            assert(value >= 1) by (nonlinear_arith)
                requires
                    num >= den,
                    den > 0,
                    value == num / den,
            ;
        }
        if value > max_value as u128 {
            break ;
        }
        let value_usize = value as usize;
        gaps.insert(0, value_usize);
        k += 1;
        if k >= 37 {
            break ;
        }
        p9 = p9 * 9;
        p4 = p4 * 4;
        proof {
            lemma_pow1(9);
            lemma_pow1(4);
            lemma_pow_adds(9, k as nat, 1);
            lemma_pow_adds(4, k as nat, 1);
            lemma_pow_increases(9, (k + 1) as nat, 37);
            lemma_pow9_37();
        }
    }
    proof {
        lemma_pow1(9);
        lemma_pow1(4);
        assert(pow(9, (0 + 1) as nat) == 9);
        assert(pow(4, (0 + 1) as nat) == 4);
        assert(4 * pow(9, (0 + 1) as nat) + pow(4, (0 + 1) as nat) - 1 == 39);
        assert(5 * pow(4, (0 + 1) as nat) == 20);
        assert(tokuda_gap(0) == 1);
    }
    gaps
}

/// One gapped insertion pass: every element is moved toward the front in
/// strides of `gap` until its gap-predecessor is no greater.  With gap 1
/// this is exactly insertion sort, so it leaves the list sorted.
fn gap_pass<L: List>(list: &mut L, gap: usize)
    requires
        gap >= 1,
    ensures
        final(list).contents().len() == old(list).contents().len(),
        final(list).contents().to_multiset() == old(list).contents().to_multiset(),
        records_run(*old(list), *final(list)),
        gap == 1 ==> sorted(final(list).contents()),
{
    let ghost pre = *list;
    proof {
        lemma_records_refl(pre);
    }
    let n = list.len();
    let mut i: usize = gap;
    while i < n
        invariant
            n == list.contents().len(),
            gap >= 1,
            i >= gap,
            gap == 1 ==> sorted_between(list.contents(), 0, i as int),
            list.contents().to_multiset() == pre.contents().to_multiset(),
            records_run(pre, *list),
        decreases n - i,
    {
        let mut j = i;
        loop
            invariant
                n == list.contents().len(),
                gap >= 1,
                i < n,
                j <= i,
                gap == 1 ==> sorted_between(list.contents(), 0, j as int),
                gap == 1 ==> sorted_between(list.contents(), j as int, i as int + 1),
                gap == 1 ==> forall|a: int, b: int|
                    0 <= a < j && j < b <= i ==> list.contents()[a] <= list.contents()[b],
                list.contents().to_multiset() == pre.contents().to_multiset(),
                records_run(pre, *list),
            ensures
                n == list.contents().len(),
                gap == 1 ==> sorted_between(list.contents(), 0, i as int + 1),
                list.contents().to_multiset() == pre.contents().to_multiset(),
                records_run(pre, *list),
            decreases j,
        {
            if j < gap {
                break ;
            }
            let ghost m1 = *list;
            let c = list.compare(j - gap, j);
            proof {
                lemma_records_step(pre, m1, *list, Operation::Compare((j - gap) as usize, j));
            }
            if !matches!(c, core::cmp::Ordering::Greater) {
                break ;
            }
            let ghost m2 = *list;
            list.swap(j - gap, j);
            proof {
                lemma_records_step(pre, m2, *list, Operation::Swap((j - gap) as usize, j));
                lemma_swap_multiset(m2.contents(), j as int - gap as int, j as int);
            }
            j -= gap;
        }
        i += 1;
    }
}

/// Shell sort: one gapped insertion pass for each Tokuda gap, largest
/// first.  The last pass has gap 1, which sorts the list.
pub fn shellsort<L: List>(list: &mut L)
    ensures
        sorted(final(list).contents()),
        final(list).contents().to_multiset() == old(list).contents().to_multiset(),
        records_run(*old(list), *final(list)),
{
    let ghost pre = *list;
    proof {
        lemma_records_refl(pre);
    }
    let n = list.len();
    if n < 2 {
        return ;
    }
    let gaps = gaps_sequence(n - 1);
    let ghost gseq = gaps@;
    proof {
        lemma_pow1(9);
        lemma_pow1(4);
        assert(pow(9, (0 + 1) as nat) == 9);
        assert(pow(4, (0 + 1) as nat) == 4);
        assert(4 * pow(9, (0 + 1) as nat) + pow(4, (0 + 1) as nat) - 1 == 39);
        assert(5 * pow(4, (0 + 1) as nat) == 20);
        assert(tokuda_gap(0) == 1);
        assert(gseq[gseq.len() - 1] == 1);
    }
    let mut gi: usize = 0;
    while gi < gaps.len()
        invariant
            gaps@ == gseq,
            n == list.contents().len(),
            gi <= gseq.len(),
            gseq.len() >= 1,
            gseq[gseq.len() - 1] == 1,
            forall|x: int| 0 <= x < gseq.len() ==> #[trigger] gseq[x] >= 1,
            gi >= 1 && gseq[gi - 1] == 1 ==> sorted(list.contents()),
            list.contents().to_multiset() == pre.contents().to_multiset(),
            records_run(pre, *list),
        decreases gaps.len() - gi,
    {
        let gap = gaps[gi];
        let ghost before = *list;
        gap_pass(list, gap);
        proof {
            lemma_records_trans(pre, before, *list);
        }
        gi += 1;
    }
}

} // verus!
