//! The instrumented list abstraction: a sequence of `u32` values whose
//! primitive operations (read, write, compare, swap) are intercepted so that
//! each one can be observed by a visualization pipeline.
//!
//! Every list carries two mathematical models: its current `contents` and the
//! stream of operations (`oplog`) performed on it so far.  The contract of
//! each method pins down both how the contents change and which operation is
//! appended to the stream, so that a recorded run can be replayed exactly.

use vstd::prelude::*;

verus! {

/// One primitive list access or mutation, instrumented for visualization.
#[derive(Copy, Clone, Debug, PartialEq, Eq, Structural)]
pub enum Operation {
    Get(usize),
    Write(usize, u32),
    Compare(usize, usize),
    Swap(usize, usize),
}

/// The effect of one operation on a sequence.  Out-of-range indices leave the
/// sequence unchanged; the list methods never emit such operations.
pub open spec fn apply_op(s: Seq<u32>, op: Operation) -> Seq<u32> {
    match op {
        Operation::Get(_) => s,
        Operation::Compare(_, _) => s,
        Operation::Write(i, v) => if (i as int) < s.len() {
            s.update(i as int, v)
        } else {
            s
        },
        Operation::Swap(a, b) => if (a as int) < s.len() && (b as int) < s.len() {
            s.update(a as int, s[b as int]).update(b as int, s[a as int])
        } else {
            s
        },
    }
}

/// The effect of a whole operation sequence, applied left to right.
pub open spec fn apply_ops(s: Seq<u32>, ops: Seq<Operation>) -> Seq<u32>
    decreases ops.len(),
{
    if ops.len() == 0 {
        s
    } else {
        apply_op(apply_ops(s, ops.drop_last()), ops.last())
    }
}

/// The values of `s` between `lo` (inclusive) and `hi` (exclusive) are in
/// non-decreasing order.
pub open spec fn sorted_between(s: Seq<u32>, lo: int, hi: int) -> bool {
    forall|i: int, j: int| lo <= i <= j < hi ==> s[i] <= s[j]
}

/// The whole sequence is in non-decreasing order.
pub open spec fn sorted(s: Seq<u32>) -> bool {
    sorted_between(s, 0, s.len() as int)
}

/// Relates a list before and after a run of operations: the operation stream
/// only grew, and replaying the new operations against the old contents
/// yields the new contents.  Every sorting function ensures this, which is
/// the recorder/replay equivalence stated once and for all runs.
pub open spec fn records_run<L: List>(pre: L, post: L) -> bool {
    &&& pre.oplog().is_prefix_of(post.oplog())
    &&& post.contents() == apply_ops(
        pre.contents(),
        post.oplog().skip(pre.oplog().len() as int),
    )
}

/// Applying a stream extended by one operation is applying the stream and
/// then the operation.
pub proof fn lemma_apply_ops_push(s: Seq<u32>, ops: Seq<Operation>, op: Operation)
    ensures
        apply_ops(s, ops.push(op)) == apply_op(apply_ops(s, ops), op),
{
    assert(ops.push(op).drop_last() =~= ops);
}

/// Dropping a prefix commutes with appending one element.
pub proof fn lemma_skip_push(ops: Seq<Operation>, n: int, op: Operation)
    requires
        0 <= n <= ops.len(),
    ensures
        ops.push(op).skip(n) =~= ops.skip(n).push(op),
{
}

/// A run never leaves `records_run`: doing nothing keeps it.
pub proof fn lemma_records_refl<L: List>(l: L)
    ensures
        records_run(l, l),
{
    assert(l.oplog().is_prefix_of(l.oplog())) by {
        assert(l.oplog().subrange(0, l.oplog().len() as int) =~= l.oplog());
    }
    assert(l.oplog().skip(l.oplog().len() as int) =~= Seq::<Operation>::empty());
}

/// A run never leaves `records_run`: one more operation keeps it.
pub proof fn lemma_records_step<L: List>(pre: L, mid: L, post: L, op: Operation)
    requires
        records_run(pre, mid),
        post.oplog() == mid.oplog().push(op),
        post.contents() == apply_op(mid.contents(), op),
    ensures
        records_run(pre, post),
{
    let n = pre.oplog().len() as int;
    assert(pre.oplog().is_prefix_of(post.oplog())) by {
        assert(pre.oplog() =~= mid.oplog().subrange(0, n));
        assert(post.oplog().subrange(0, n) =~= mid.oplog().subrange(0, n));
    }
    lemma_skip_push(mid.oplog(), n, op);
    lemma_apply_ops_push(pre.contents(), mid.oplog().skip(n), op);
}

/// Swapping two values of a sequence does not change the collection of
/// values it holds.
pub proof fn lemma_swap_multiset(s: Seq<u32>, a: int, b: int)
    requires
        0 <= a < s.len(),
        0 <= b < s.len(),
    ensures
        s.update(a, s[b]).update(b, s[a]).to_multiset() == s.to_multiset(),
{
    broadcast use vstd::seq_lib::group_to_multiset_ensures;

    if a == b {
        assert(s.update(a, s[b]).update(b, s[a]) =~= s);
    } else {
        let t = s.update(a, s[b]);
        let u = t.update(b, s[a]);
        vstd::seq_lib::to_multiset_update(s, a, s[b]);
        vstd::seq_lib::to_multiset_update(t, b, s[a]);
        assert(t[b] == s[b]);
        assert(s.contains(s[a]));
        assert(s.contains(s[b]));
        assert(u.to_multiset() =~= s.to_multiset());
    }
}

/// Applying two streams one after the other is applying their concatenation.
pub proof fn lemma_apply_ops_concat(s: Seq<u32>, ops1: Seq<Operation>, ops2: Seq<Operation>)
    ensures
        apply_ops(s, ops1 + ops2) == apply_ops(apply_ops(s, ops1), ops2),
    decreases ops2.len(),
{
    if ops2.len() == 0 {
        assert(ops1 + ops2 =~= ops1);
    } else {
        assert((ops1 + ops2).drop_last() =~= ops1 + ops2.drop_last());
        lemma_apply_ops_concat(s, ops1, ops2.drop_last());
    }
}

/// A run never leaves `records_run`: two runs one after the other are a run.
pub proof fn lemma_records_trans<L: List>(a: L, b: L, c: L)
    requires
        records_run(a, b),
        records_run(b, c),
    ensures
        records_run(a, c),
{
    let na = a.oplog().len() as int;
    let nb = b.oplog().len() as int;
    let ops_ab = b.oplog().skip(na);
    let ops_bc = c.oplog().skip(nb);
    assert(a.oplog().is_prefix_of(c.oplog())) by {
        assert(a.oplog() =~= c.oplog().subrange(0, na));
    }
    assert(c.oplog().skip(na) =~= ops_ab + ops_bc);
    lemma_apply_ops_concat(a.contents(), ops_ab, ops_bc);
}

/// Swapping two values inside a window of a sequence does not change the
/// collection of values that window holds.
pub proof fn lemma_swap_multiset_range(s: Seq<u32>, a: int, b: int, lo: int, hi: int)
    requires
        0 <= lo <= a < hi <= s.len(),
        lo <= b < hi,
    ensures
        s.update(a, s[b]).update(b, s[a]).subrange(lo, hi).to_multiset() == s.subrange(
            lo,
            hi,
        ).to_multiset(),
{
    let sub = s.subrange(lo, hi);
    assert(s.update(a, s[b]).update(b, s[a]).subrange(lo, hi) =~= sub.update(
        a - lo,
        sub[b - lo],
    ).update(b - lo, sub[a - lo]));
    lemma_swap_multiset(sub, a - lo, b - lo);
}

/// Two sequences holding the same collection of values have the same upper
/// bounds.
pub proof fn lemma_multiset_bounds_le(s1: Seq<u32>, s2: Seq<u32>, v: u32)
    requires
        s1.to_multiset() == s2.to_multiset(),
        forall|k: int| 0 <= k < s1.len() ==> s1[k] <= v,
    ensures
        forall|k: int| 0 <= k < s2.len() ==> s2[k] <= v,
{
    broadcast use vstd::seq_lib::group_to_multiset_ensures;

    assert forall|k: int| 0 <= k < s2.len() implies s2[k] <= v by {
        assert(s2.contains(s2[k]));
        assert(s1.to_multiset().count(s2[k]) > 0);
        assert(s1.contains(s2[k]));
        let j = choose|j: int| 0 <= j < s1.len() && s1[j] == s2[k];
        assert(s1[j] <= v);
    }
}

/// Two sequences holding the same collection of values have the same lower
/// bounds.
pub proof fn lemma_multiset_bounds_ge(s1: Seq<u32>, s2: Seq<u32>, v: u32)
    requires
        s1.to_multiset() == s2.to_multiset(),
        forall|k: int| 0 <= k < s1.len() ==> s1[k] >= v,
    ensures
        forall|k: int| 0 <= k < s2.len() ==> s2[k] >= v,
{
    broadcast use vstd::seq_lib::group_to_multiset_ensures;

    assert forall|k: int| 0 <= k < s2.len() implies s2[k] >= v by {
        assert(s2.contains(s2[k]));
        assert(s1.to_multiset().count(s2[k]) > 0);
        assert(s1.contains(s2[k]));
        let j = choose|j: int| 0 <= j < s1.len() && s1[j] == s2[k];
        assert(s1[j] >= v);
    }
}

/// The capability set every sorting algorithm is written against: length,
/// read, write, compare and swap, with no access to the raw storage.  Each
/// mutation or observation appends its `Operation` to the `oplog` model.
pub trait List: Sized {
    /// The current values, as a mathematical sequence.
    spec fn contents(&self) -> Seq<u32>;

    /// The stream of operations performed so far, as a mathematical sequence.
    spec fn oplog(&self) -> Seq<Operation>;

    fn len(&self) -> (r: usize)
        ensures
            r == self.contents().len(),
    ;

    fn is_empty(&self) -> (r: bool)
        ensures
            r == (self.contents().len() == 0),
    ;

    fn get(&mut self, index: usize) -> (r: u32)
        requires
            index < old(self).contents().len(),
        ensures
            r == old(self).contents()[index as int],
            final(self).contents() == old(self).contents(),
            final(self).oplog() == old(self).oplog().push(Operation::Get(index)),
    ;

    fn set(&mut self, index: usize, value: u32)
        requires
            index < old(self).contents().len(),
        ensures
            final(self).contents() == old(self).contents().update(index as int, value),
            final(self).oplog() == old(self).oplog().push(Operation::Write(index, value)),
    ;

    fn compare(&mut self, a: usize, b: usize) -> (r: core::cmp::Ordering)
        requires
            a < old(self).contents().len(),
            b < old(self).contents().len(),
        ensures
            final(self).contents() == old(self).contents(),
            final(self).oplog() == old(self).oplog().push(Operation::Compare(a, b)),
            (r == core::cmp::Ordering::Less <==> old(self).contents()[a as int] < old(
                self,
            ).contents()[b as int]),
            (r == core::cmp::Ordering::Equal <==> old(self).contents()[a as int] == old(
                self,
            ).contents()[b as int]),
            (r == core::cmp::Ordering::Greater <==> old(self).contents()[a as int] > old(
                self,
            ).contents()[b as int]),
    ;

    fn swap(&mut self, a: usize, b: usize)
        requires
            a < old(self).contents().len(),
            b < old(self).contents().len(),
        ensures
            final(self).contents() == old(self).contents().update(
                a as int,
                old(self).contents()[b as int],
            ).update(b as int, old(self).contents()[a as int]),
            final(self).oplog() == old(self).oplog().push(Operation::Swap(a, b)),
    ;
}

/// The plain, non-instrumented list: identical semantics, no side effects.
/// Its operation stream is tracked only in ghost state.
pub struct BasicList {
    pub slice: Vec<u32>,
    pub log: Ghost<Seq<Operation>>,
}

impl BasicList {
    pub fn new(slice: Vec<u32>) -> (r: BasicList)
        ensures
            r.contents() == slice@,
            r.oplog() == Seq::<Operation>::empty(),
    {
        BasicList { slice, log: Ghost(Seq::empty()) }
    }
}

impl List for BasicList {
    open spec fn contents(&self) -> Seq<u32> {
        self.slice@
    }

    open spec fn oplog(&self) -> Seq<Operation> {
        self.log@
    }

    fn len(&self) -> (r: usize) {
        self.slice.len()
    }

    fn is_empty(&self) -> (r: bool) {
        self.slice.len() == 0
    }

    fn get(&mut self, index: usize) -> (r: u32) {
        let r = self.slice[index];
        self.log = Ghost(self.log@.push(Operation::Get(index)));
        r
    }

    fn set(&mut self, index: usize, value: u32) {
        self.slice[index] = value;
        self.log = Ghost(self.log@.push(Operation::Write(index, value)));
    }

    fn compare(&mut self, a: usize, b: usize) -> (r: core::cmp::Ordering) {
        let x = self.slice[a];
        let y = self.slice[b];
        self.log = Ghost(self.log@.push(Operation::Compare(a, b)));
        if x < y {
            core::cmp::Ordering::Less
        } else if x == y {
            core::cmp::Ordering::Equal
        } else {
            core::cmp::Ordering::Greater
        }
    }

    fn swap(&mut self, a: usize, b: usize) {
        let x = self.slice[a];
        let y = self.slice[b];
        self.slice[a] = y;
        self.slice[b] = x;
        self.log = Ghost(self.log@.push(Operation::Swap(a, b)));
    }
}

/// The side-effect handler of an instrumented list.  After every operation
/// the list hands the operation and a read-only view of the current values
/// to its observer, synchronously and on the same thread.  The observer
/// cannot touch the values; whatever it does, the list's own contract
/// stands.
pub trait OperationObserver {
    fn notify(&mut self, op: Operation, values: &Vec<u32>);
}

/// The instrumented list: performs each operation on its values and then
/// notifies its observer.  The list owns one observer for its lifetime.
pub struct CallbackList<O: OperationObserver> {
    pub data: Vec<u32>,
    pub observer: O,
    pub log: Ghost<Seq<Operation>>,
}

impl<O: OperationObserver> CallbackList<O> {
    pub fn new(data: Vec<u32>, observer: O) -> (r: CallbackList<O>)
        ensures
            r.contents() == data@,
            r.oplog() == Seq::<Operation>::empty(),
    {
        CallbackList { data, observer, log: Ghost(Seq::empty()) }
    }

    /// Hand the values and the observer back when the run is over.
    pub fn into_parts(self) -> (r: (Vec<u32>, O))
        ensures
            r.0@ == self.contents(),
            r.1 == self.observer,
    {
        (self.data, self.observer)
    }
}

impl<O: OperationObserver> List for CallbackList<O> {
    open spec fn contents(&self) -> Seq<u32> {
        self.data@
    }

    open spec fn oplog(&self) -> Seq<Operation> {
        self.log@
    }

    fn len(&self) -> (r: usize) {
        self.data.len()
    }

    fn is_empty(&self) -> (r: bool) {
        self.data.len() == 0
    }

    fn get(&mut self, index: usize) -> (r: u32) {
        let r = self.data[index];
        self.log = Ghost(self.log@.push(Operation::Get(index)));
        self.observer.notify(Operation::Get(index), &self.data);
        r
    }

    fn set(&mut self, index: usize, value: u32) {
        self.data[index] = value;
        self.log = Ghost(self.log@.push(Operation::Write(index, value)));
        self.observer.notify(Operation::Write(index, value), &self.data);
    }

    fn compare(&mut self, a: usize, b: usize) -> (r: core::cmp::Ordering) {
        let x = self.data[a];
        let y = self.data[b];
        self.log = Ghost(self.log@.push(Operation::Compare(a, b)));
        self.observer.notify(Operation::Compare(a, b), &self.data);
        if x < y {
            core::cmp::Ordering::Less
        } else if x == y {
            core::cmp::Ordering::Equal
        } else {
            core::cmp::Ordering::Greater
        }
    }

    fn swap(&mut self, a: usize, b: usize) {
        let x = self.data[a];
        let y = self.data[b];
        self.data[a] = y;
        self.data[b] = x;
        self.log = Ghost(self.log@.push(Operation::Swap(a, b)));
        self.observer.notify(Operation::Swap(a, b), &self.data);
    }
}

/// The recording list: like the plain list, but the operation stream is
/// kept as a real value, so a finished run can be replayed step by step.
pub struct RecordingList {
    pub data: Vec<u32>,
    pub log: Vec<Operation>,
}

impl RecordingList {
    pub fn new(data: Vec<u32>) -> (r: RecordingList)
        ensures
            r.contents() == data@,
            r.oplog() == Seq::<Operation>::empty(),
    {
        RecordingList { data, log: Vec::new() }
    }
}

impl List for RecordingList {
    open spec fn contents(&self) -> Seq<u32> {
        self.data@
    }

    open spec fn oplog(&self) -> Seq<Operation> {
        self.log@
    }

    fn len(&self) -> (r: usize) {
        self.data.len()
    }

    fn is_empty(&self) -> (r: bool) {
        self.data.len() == 0
    }

    fn get(&mut self, index: usize) -> (r: u32) {
        let r = self.data[index];
        self.log.push(Operation::Get(index));
        r
    }

    fn set(&mut self, index: usize, value: u32) {
        self.data[index] = value;
        self.log.push(Operation::Write(index, value));
    }

    fn compare(&mut self, a: usize, b: usize) -> (r: core::cmp::Ordering) {
        let x = self.data[a];
        let y = self.data[b];
        self.log.push(Operation::Compare(a, b));
        if x < y {
            core::cmp::Ordering::Less
        } else if x == y {
            core::cmp::Ordering::Equal
        } else {
            core::cmp::Ordering::Greater
        }
    }

    fn swap(&mut self, a: usize, b: usize) {
        let x = self.data[a];
        let y = self.data[b];
        self.data[a] = y;
        self.data[b] = x;
        self.log.push(Operation::Swap(a, b));
    }
}

/// Replay a recorded operation stream against a copy of the initial values.
/// Together with `records_run`, which every sorting function ensures, this
/// reproduces the exact final values of the recorded run.
pub fn replay(initial: Vec<u32>, ops: &Vec<Operation>) -> (r: Vec<u32>)
    ensures
        r@ == apply_ops(initial@, ops@),
{
    let ghost initial_view = initial@;
    let mut data = initial;
    let mut i: usize = 0;
    proof {
        assert(ops@.take(0) =~= Seq::<Operation>::empty());
    }
    while i < ops.len()
        invariant
            i <= ops@.len(),
            data@ == apply_ops(initial_view, ops@.take(i as int)),
        decreases ops@.len() - i,
    {
        let op = ops[i];
        match op {
            Operation::Get(_) => {},
            Operation::Compare(_, _) => {},
            Operation::Write(index, value) => {
                if index < data.len() {
                    data[index] = value;
                }
            },
            Operation::Swap(a, b) => {
                if a < data.len() && b < data.len() {
                    let x = data[a];
                    let y = data[b];
                    data[a] = y;
                    data[b] = x;
                }
            },
        }
        proof {
            assert(ops@.take(i as int + 1).drop_last() =~= ops@.take(i as int));
            assert(ops@.take(i as int + 1).last() == ops@[i as int]);
        }
        i += 1;
    }
    proof {
        assert(ops@.take(ops@.len() as int) =~= ops@);
    }
    data
}

} // verus!
