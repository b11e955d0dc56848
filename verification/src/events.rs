//! The event translator: turns one list operation plus the current values
//! into the visual updates the renderer consumes, applies the fixed
//! color-classification policy, and produces the terminal pass that paints
//! the finished run as correct or broken.

use vstd::prelude::*;

verus! {

use crate::list::{Operation, sorted};

/// The semantic paint category of one visual update, decoupled from any
/// concrete pixel value.
#[derive(Copy, Clone, Debug, PartialEq, Eq, Structural)]
pub enum ColorClass {
    Idle,
    Read,
    Write,
    DoneOk,
    DoneError,
}

/// One instruction to the renderer: repaint the bar of `index` for `value`
/// in the color class `color`.
#[derive(Copy, Clone, Debug, PartialEq, Eq, Structural)]
pub struct ListUpdate {
    pub index: usize,
    pub value: u32,
    pub color: ColorClass,
}

/// The indices an operation touches all lie inside a sequence of length
/// `len`.  The instrumented list only ever emits such operations.
pub open spec fn op_in_range(op: Operation, len: int) -> bool {
    match op {
        Operation::Get(i) => i < len,
        Operation::Write(i, _) => i < len,
        Operation::Compare(i, j) => i < len && j < len,
        Operation::Swap(i, j) => i < len && j < len,
    }
}

/// The batch of visual updates for one operation: reads paint `Read`,
/// writes paint `Write`, and the values shown are the current ones, read
/// after the operation completed.
pub open spec fn spec_translate(op: Operation, values: Seq<u32>) -> Seq<ListUpdate> {
    match op {
        Operation::Get(i) => seq![
            (ListUpdate { index: i, value: values[i as int], color: ColorClass::Read }),
        ],
        Operation::Write(i, _) => seq![
            (ListUpdate { index: i, value: values[i as int], color: ColorClass::Write }),
        ],
        Operation::Compare(i, j) => seq![
            (ListUpdate { index: i, value: values[i as int], color: ColorClass::Read }),
            (ListUpdate { index: j, value: values[j as int], color: ColorClass::Read }),
        ],
        Operation::Swap(i, j) => seq![
            (ListUpdate { index: i, value: values[i as int], color: ColorClass::Write }),
            (ListUpdate { index: j, value: values[j as int], color: ColorClass::Write }),
        ],
    }
}

/// Translate one operation and the current values into its batch of
/// visual updates.
pub fn translate(op: Operation, values: &Vec<u32>) -> (r: Vec<ListUpdate>)
    requires
        op_in_range(op, values@.len() as int),
    ensures
        r@ == spec_translate(op, values@),
{
    let mut r: Vec<ListUpdate> = Vec::new();
    match op {
        Operation::Get(i) => {
            r.push(ListUpdate { index: i, value: values[i], color: ColorClass::Read });
        },
        Operation::Write(i, _) => {
            r.push(ListUpdate { index: i, value: values[i], color: ColorClass::Write });
        },
        Operation::Compare(i, j) => {
            r.push(ListUpdate { index: i, value: values[i], color: ColorClass::Read });
            r.push(ListUpdate { index: j, value: values[j], color: ColorClass::Read });
        },
        Operation::Swap(i, j) => {
            r.push(ListUpdate { index: i, value: values[i], color: ColorClass::Write });
            r.push(ListUpdate { index: j, value: values[j], color: ColorClass::Write });
        },
    }
    proof {
        assert(r@ =~= spec_translate(op, values@));
    }
    r
}

/// The batch that shows the initial values, every bar in the idle color.
pub fn initial_updates(values: &Vec<u32>) -> (r: Vec<ListUpdate>)
    ensures
        r@.len() == values@.len(),
        forall|i: int|
            0 <= i < r@.len() ==> r@[i] == (ListUpdate {
                index: i as usize,
                value: values@[i],
                color: ColorClass::Idle,
            }),
{
    let mut r: Vec<ListUpdate> = Vec::new();
    let mut i: usize = 0;
    while i < values.len()
        invariant
            i <= values@.len(),
            r@.len() == i,
            forall|k: int|
                0 <= k < i ==> r@[k] == (ListUpdate {
                    index: k as usize,
                    value: values@[k],
                    color: ColorClass::Idle,
                }),
        decreases values@.len() - i,
    {
        r.push(ListUpdate { index: i, value: values[i], color: ColorClass::Idle });
        i += 1;
    }
    r
}

/// The color the terminal pass gives index `i`: `DoneError` exactly where
/// the previous element is greater, `DoneOk` everywhere else.
pub open spec fn spec_terminal_color(values: Seq<u32>, i: int) -> ColorClass {
    if i > 0 && values[i - 1] > values[i] {
        ColorClass::DoneError
    } else {
        ColorClass::DoneOk
    }
}

/// The terminal pass over the final values: one update per index in order,
/// comparing each element with its predecessor.
pub fn terminal_updates(values: &Vec<u32>) -> (r: Vec<ListUpdate>)
    ensures
        r@.len() == values@.len(),
        forall|i: int|
            0 <= i < r@.len() ==> r@[i] == (ListUpdate {
                index: i as usize,
                value: values@[i],
                color: spec_terminal_color(values@, i),
            }),
{
    let mut r: Vec<ListUpdate> = Vec::new();
    let mut i: usize = 0;
    while i < values.len()
        invariant
            i <= values@.len(),
            r@.len() == i,
            forall|k: int|
                0 <= k < i ==> r@[k] == (ListUpdate {
                    index: k as usize,
                    value: values@[k],
                    color: spec_terminal_color(values@, k),
                }),
        decreases values@.len() - i,
    {
        let color = if i > 0 && values[i - 1] > values[i] {
            ColorClass::DoneError
        } else {
            ColorClass::DoneOk
        };
        r.push(ListUpdate { index: i, value: values[i], color });
        i += 1;
    }
    r
}

/// In a sequence whose adjacent pairs are all in order, any two positions
/// are in order.
proof fn lemma_adjacent_chain(s: Seq<u32>, i: int, j: int)
    requires
        forall|k: int| 1 <= k < s.len() ==> s[k - 1] <= #[trigger] s[k],
        0 <= i <= j < s.len(),
    ensures
        s[i] <= s[j],
    decreases j - i,
{
    if i < j {
        lemma_adjacent_chain(s, i, j - 1);
    }
}

/// The terminal pass is exact: it paints some index `DoneError` if and
/// only if the final sequence is not sorted, so any single inversion
/// anywhere produces at least one `DoneError` update.
pub proof fn lemma_terminal_pass_exact(values: Seq<u32>, updates: Seq<ListUpdate>)
    requires
        updates.len() == values.len(),
        forall|i: int|
            0 <= i < updates.len() ==> updates[i] == (ListUpdate {
                index: i as usize,
                value: values[i],
                color: spec_terminal_color(values, i),
            }),
    ensures
        (exists|i: int| 0 <= i < updates.len() && updates[i].color == ColorClass::DoneError)
            <==> !sorted(values),
{
    if exists|i: int| 0 <= i < updates.len() && updates[i].color == ColorClass::DoneError {
        let i = choose|i: int|
            0 <= i < updates.len() && updates[i].color == ColorClass::DoneError;
        assert(values[i - 1] > values[i]);
        assert(!sorted(values));
    } else {
        assert forall|k: int| 1 <= k < values.len() implies values[k - 1] <= #[trigger] values[k] by {
            assert(updates[k].color == spec_terminal_color(values, k));
            assert(updates[k].color != ColorClass::DoneError);
        }
        assert forall|i: int, j: int|
            0 <= i <= j < values.len() implies values[i] <= values[j] by {
            lemma_adjacent_chain(values, i, j);
        }
        assert(sorted(values));
    }
}

} // verus!
