//! The renderer state behind the window: a frame buffer, the fixed layout,
//! and the revert policy.  Transient read/write highlights from one batch
//! are repainted idle on the next batch unless the same index is touched
//! again, so no bar stays highlighted after its last touch.

use vstd::prelude::*;

verus! {

use crate::events::{ColorClass, ListUpdate};
use crate::graphics::{
    ColorScheme,
    ListVisualization,
    lemma_spec_draw_concat,
    spec_draw,
    valid_update,
};

/// A transient color: one that the revert policy paints back to idle.
pub open spec fn transient(u: ListUpdate) -> bool {
    u.color == ColorClass::Read || u.color == ColorClass::Write
}

/// The idle repaint of an update: same bar, same value, idle color.
pub open spec fn idle_of(u: ListUpdate) -> ListUpdate {
    ListUpdate { index: u.index, value: u.value, color: ColorClass::Idle }
}

/// The revert entries a batch leaves behind: one idle repaint for each of
/// its transient updates, in batch order.
pub open spec fn spec_next_revert(changes: Seq<ListUpdate>) -> Seq<ListUpdate>
    decreases changes.len(),
{
    if changes.len() == 0 {
        Seq::empty()
    } else {
        let rest = spec_next_revert(changes.drop_last());
        if transient(changes.last()) {
            rest.push(idle_of(changes.last()))
        } else {
            rest
        }
    }
}

/// Drop the first entry with the given index, if any.
pub open spec fn remove_first_index(prev: Seq<ListUpdate>, idx: usize) -> Seq<ListUpdate>
    decreases prev.len(),
{
    if prev.len() == 0 {
        prev
    } else if prev[0].index == idx {
        prev.skip(1)
    } else {
        seq![prev[0]] + remove_first_index(prev.skip(1), idx)
    }
}

/// The revert entries still to be painted: the previous batch's entries,
/// minus one entry per change that touches the same index again.
pub open spec fn spec_prune(prev: Seq<ListUpdate>, changes: Seq<ListUpdate>) -> Seq<ListUpdate>
    decreases changes.len(),
{
    if changes.len() == 0 {
        prev
    } else {
        remove_first_index(spec_prune(prev, changes.drop_last()), changes.last().index)
    }
}

/// When the first entry with the index sits at `pos`, dropping it is a
/// plain removal at `pos`.
proof fn lemma_rfi_found(prev: Seq<ListUpdate>, idx: usize, pos: int)
    requires
        0 <= pos < prev.len(),
        prev[pos].index == idx,
        forall|k: int| 0 <= k < pos ==> prev[k].index != idx,
    ensures
        remove_first_index(prev, idx) == prev.remove(pos),
    decreases prev.len(),
{
    if pos == 0 {
        assert(prev.skip(1) =~= prev.remove(0));
    } else {
        lemma_rfi_found(prev.skip(1), idx, pos - 1);
        assert(seq![prev[0]] + prev.skip(1).remove(pos - 1) =~= prev.remove(pos));
    }
}

/// When no entry has the index, nothing is dropped.
proof fn lemma_rfi_missing(prev: Seq<ListUpdate>, idx: usize)
    requires
        forall|k: int| 0 <= k < prev.len() ==> (#[trigger] prev[k]).index != idx,
    ensures
        remove_first_index(prev, idx) == prev,
    decreases prev.len(),
{
    if prev.len() > 0 {
        lemma_rfi_missing(prev.skip(1), idx);
        assert(seq![prev[0]] + prev.skip(1) =~= prev);
    }
}

/// Every entry that survives the drop was already there.
proof fn lemma_rfi_entries(prev: Seq<ListUpdate>, idx: usize)
    ensures
        forall|k: int|
            0 <= k < remove_first_index(prev, idx).len() ==> prev.contains(
                #[trigger] remove_first_index(prev, idx)[k],
            ),
    decreases prev.len(),
{
    let r = remove_first_index(prev, idx);
    if prev.len() == 0 {
    } else if prev[0].index == idx {
        assert forall|k: int| 0 <= k < r.len() implies prev.contains(#[trigger] r[k]) by {
            assert(r[k] == prev[k + 1]);
        }
    } else {
        lemma_rfi_entries(prev.skip(1), idx);
        assert forall|k: int| 0 <= k < r.len() implies prev.contains(#[trigger] r[k]) by {
            if k == 0 {
                assert(r[0] == prev[0]);
            } else {
                let e = r[k];
                assert(remove_first_index(prev.skip(1), idx)[k - 1] == e);
                assert(prev.skip(1).contains(e));
                let j = choose|j: int| 0 <= j < prev.skip(1).len() && prev.skip(1)[j] == e;
                assert(prev[j + 1] == e);
            }
        }
    }
}

/// Every entry that survives the whole pruning was in the previous revert
/// list.
proof fn lemma_prune_entries(prev: Seq<ListUpdate>, changes: Seq<ListUpdate>)
    ensures
        forall|k: int|
            0 <= k < spec_prune(prev, changes).len() ==> prev.contains(
                #[trigger] spec_prune(prev, changes)[k],
            ),
    decreases changes.len(),
{
    if changes.len() > 0 {
        let inner = spec_prune(prev, changes.drop_last());
        lemma_prune_entries(prev, changes.drop_last());
        lemma_rfi_entries(inner, changes.last().index);
        assert forall|k: int| 0 <= k < spec_prune(prev, changes).len() implies prev.contains(
            #[trigger] spec_prune(prev, changes)[k],
        ) by {
            let e = spec_prune(prev, changes)[k];
            assert(inner.contains(e));
            let j = choose|j: int| 0 <= j < inner.len() && inner[j] == e;
        }
    }
}

/// Dropping an entry with another index keeps this one.
proof fn lemma_rfi_keeps(prev: Seq<ListUpdate>, idx: usize, u: ListUpdate)
    requires
        prev.contains(u),
        u.index != idx,
    ensures
        remove_first_index(prev, idx).contains(u),
    decreases prev.len(),
{
    let r = remove_first_index(prev, idx);
    let j = choose|j: int| 0 <= j < prev.len() && prev[j] == u;
    if prev[0].index == idx {
        assert(j >= 1);
        assert(r[j - 1] == prev[j]);
    } else {
        if j == 0 {
            assert(r[0] == prev[0]);
        } else {
            lemma_rfi_keeps(prev.skip(1), idx, u);
            assert(prev.skip(1)[j - 1] == u);
            let m = choose|m: int|
                0 <= m < remove_first_index(prev.skip(1), idx).len() && remove_first_index(
                    prev.skip(1),
                    idx,
                )[m] == u;
            assert(r[m + 1] == u);
        }
    }
}

/// The revert policy: an idle repaint left by an earlier batch survives
/// the pruning, and so is painted, unless the new batch touches its index
/// again.
pub proof fn lemma_revert_policy(prev: Seq<ListUpdate>, changes: Seq<ListUpdate>, u: ListUpdate)
    requires
        prev.contains(u),
        forall|j: int| 0 <= j < changes.len() ==> (#[trigger] changes[j]).index != u.index,
    ensures
        spec_prune(prev, changes).contains(u),
    decreases changes.len(),
{
    if changes.len() > 0 {
        lemma_revert_policy(prev, changes.drop_last(), u);
        lemma_rfi_keeps(spec_prune(prev, changes.drop_last()), changes.last().index, u);
    }
}

/// The renderer state: the fixed layout and colors, the frame buffer, and
/// the revert entries left by the last batch.
pub struct Renderer {
    pub visualization: ListVisualization,
    pub colors: ColorScheme,
    pub framebuffer: Vec<u32>,
    pub revert_changes: Vec<ListUpdate>,
}

impl Renderer {
    /// The state is consistent: the layout is well formed, the frame
    /// buffer covers the window, and the pending reverts are valid idle
    /// repaints.
    pub open spec fn wf(&self) -> bool {
        &&& self.visualization.wf()
        &&& self.framebuffer@.len() == self.visualization.width * self.visualization.height
        &&& forall|k: int|
            0 <= k < self.revert_changes@.len() ==> valid_update(
                self.visualization,
                #[trigger] self.revert_changes@[k],
            ) && self.revert_changes@[k].color == ColorClass::Idle
    }

    /// A fresh renderer: a black frame buffer and no pending reverts.
    pub fn new(visualization: ListVisualization, colors: ColorScheme) -> (r: Renderer)
        requires
            visualization.wf(),
        ensures
            r.wf(),
            r.visualization == visualization,
            r.colors == colors,
            r.framebuffer@.len() == visualization.width * visualization.height,
            forall|k: int| 0 <= k < r.framebuffer@.len() ==> r.framebuffer@[k] == 0u32,
            r.revert_changes@ == Seq::<ListUpdate>::empty(),
    {
        let size = visualization.width * visualization.height;
        let mut framebuffer: Vec<u32> = Vec::new();
        let mut i: usize = 0;
        while i < size
            invariant
                i <= size,
                framebuffer@.len() == i,
                forall|k: int| 0 <= k < i ==> framebuffer@[k] == 0u32,
            decreases size - i,
        {
            framebuffer.push(0);
            i += 1;
        }
        Renderer { visualization, colors, framebuffer, revert_changes: Vec::new() }
    }

    /// Apply one batch: repaint the leftover idle reverts of the previous
    /// batch (except for bars touched again), then the batch itself, and
    /// remember the idle repaints this batch will need.
    pub fn update(&mut self, changes: Vec<ListUpdate>)
        requires
            old(self).wf(),
            forall|i: int|
                0 <= i < changes@.len() ==> valid_update(
                    old(self).visualization,
                    #[trigger] changes@[i],
                ),
        ensures
            final(self).wf(),
            final(self).visualization == old(self).visualization,
            final(self).colors == old(self).colors,
            final(self).revert_changes@ == spec_next_revert(changes@),
            final(self).framebuffer@ == spec_draw(
                old(self).visualization,
                old(self).colors,
                old(self).framebuffer@,
                spec_prune(old(self).revert_changes@, changes@) + changes@,
            ),
    {
        let ghost prev0 = self.revert_changes@;
        let ghost fb0 = self.framebuffer@;
        let mut revert_prev: Vec<ListUpdate> = Vec::new();
        core::mem::swap(&mut revert_prev, &mut self.revert_changes);
        let mut ci: usize = 0;
        proof {
            assert(changes@.take(0) =~= Seq::<ListUpdate>::empty());
        }
        while ci < changes.len()
            invariant
                ci <= changes@.len(),
                revert_prev@ == spec_prune(prev0, changes@.take(ci as int)),
            decreases changes@.len() - ci,
        {
            let target = changes[ci].index;
            let mut pos: usize = 0;
            let mut found = false;
            loop
                invariant_except_break
                    !found,
                invariant
                    pos <= revert_prev@.len(),
                    forall|k: int| 0 <= k < pos ==> (#[trigger] revert_prev@[k]).index != target,
                ensures
                    found ==> pos < revert_prev@.len() && revert_prev@[pos as int].index == target
                        && forall|k: int|
                        0 <= k < pos ==> (#[trigger] revert_prev@[k]).index != target,
                    !found ==> forall|k: int|
                        0 <= k < revert_prev@.len() ==> (#[trigger] revert_prev@[k]).index
                            != target,
                decreases revert_prev@.len() - pos,
            {
                if pos >= revert_prev.len() {
                    break ;
                }
                if revert_prev[pos].index == target {
                    found = true;
                    break ;
                }
                pos += 1;
            }
            if found {
                proof {
                    lemma_rfi_found(revert_prev@, target, pos as int);
                }
                revert_prev.remove(pos);
            } else {
                proof {
                    lemma_rfi_missing(revert_prev@, target);
                }
            }
            proof {
                assert(changes@.take(ci as int + 1).drop_last() =~= changes@.take(ci as int));
                assert(changes@.take(ci as int + 1).last() == changes@[ci as int]);
            }
            ci += 1;
        }
        proof {
            assert(changes@.take(changes@.len() as int) =~= changes@);
        }
        let mut next_revert: Vec<ListUpdate> = Vec::new();
        let mut ni: usize = 0;
        proof {
            assert(changes@.take(0) =~= Seq::<ListUpdate>::empty());
        }
        while ni < changes.len()
            invariant
                ni <= changes@.len(),
                next_revert@ == spec_next_revert(changes@.take(ni as int)),
                forall|i: int|
                    0 <= i < changes@.len() ==> valid_update(
                        self.visualization,
                        #[trigger] changes@[i],
                    ),
                forall|k: int|
                    0 <= k < next_revert@.len() ==> valid_update(
                        self.visualization,
                        #[trigger] next_revert@[k],
                    ) && next_revert@[k].color == ColorClass::Idle,
            decreases changes@.len() - ni,
        {
            let u = changes[ni];
            if matches!(u.color, ColorClass::Read) || matches!(u.color, ColorClass::Write) {
                next_revert.push(
                    ListUpdate { index: u.index, value: u.value, color: ColorClass::Idle },
                );
            }
            proof {
                assert(changes@.take(ni as int + 1).drop_last() =~= changes@.take(ni as int));
                assert(changes@.take(ni as int + 1).last() == changes@[ni as int]);
            }
            ni += 1;
        }
        proof {
            assert(changes@.take(changes@.len() as int) =~= changes@);
        }
        self.revert_changes = next_revert;
        proof {
            lemma_prune_entries(prev0, changes@);
            assert forall|k: int| 0 <= k < revert_prev@.len() implies valid_update(
                self.visualization,
                #[trigger] revert_prev@[k],
            ) by {
                let e = revert_prev@[k];
                assert(prev0.contains(e));
                let j = choose|j: int| 0 <= j < prev0.len() && prev0[j] == e;
            }
        }
        self.visualization.draw(&revert_prev, &self.colors, &mut self.framebuffer);
        self.visualization.draw(&changes, &self.colors, &mut self.framebuffer);
        proof {
            lemma_spec_draw_concat(
                self.visualization,
                self.colors,
                fb0,
                spec_prune(prev0, changes@),
                changes@,
            );
        }
    }
}

} // verus!
