//! The bounded event channel, as a verified single-owner queue: a FIFO of
//! visual-update batches with a fixed capacity.  A send against a full
//! queue hands the batch back instead of dropping it, so no batch is ever
//! lost; a receive is non-blocking and takes the oldest batch.  Between
//! two threads the same discipline is carried by a bounded channel whose
//! blocking send is the backpressure on the producer.

use vstd::prelude::*;

verus! {

use crate::events::ListUpdate;

/// A fixed-capacity FIFO of visual update batches.
pub struct BoundedChannel {
    queue: Vec<Vec<ListUpdate>>,
    capacity: usize,
}

impl BoundedChannel {
    /// The batches now waiting, oldest first.
    pub closed spec fn batches(&self) -> Seq<Seq<ListUpdate>> {
        Seq::new(self.queue@.len(), |i: int| self.queue@[i]@)
    }

    /// The fixed capacity the channel was created with.
    pub closed spec fn cap(&self) -> int {
        self.capacity as int
    }

    pub fn new(capacity: usize) -> (r: BoundedChannel)
        requires
            capacity >= 1,
        ensures
            r.batches() == Seq::<Seq<ListUpdate>>::empty(),
            r.cap() == capacity,
    {
        let r = BoundedChannel { queue: Vec::new(), capacity };
        proof {
            assert(r.batches() =~= Seq::<Seq<ListUpdate>>::empty());
        }
        r
    }

    pub fn capacity(&self) -> (r: usize)
        ensures
            r == self.cap(),
    {
        self.capacity
    }

    pub fn len(&self) -> (r: usize)
        ensures
            r == self.batches().len(),
    {
        self.queue.len()
    }

    /// Append a batch if there is room; hand it back unchanged if the
    /// channel is full.  Either way the batch is never lost and the
    /// batches already queued keep their order.
    pub fn try_send(&mut self, batch: Vec<ListUpdate>) -> (r: Option<Vec<ListUpdate>>)
        ensures
            final(self).cap() == old(self).cap(),
            old(self).batches().len() < old(self).cap() ==> final(self).batches() == old(
                self,
            ).batches().push(batch@) && r is None,
            old(self).batches().len() >= old(self).cap() ==> final(self).batches() == old(
                self,
            ).batches() && (match r {
                Option::Some(b) => b@ == batch@,
                Option::None => false,
            }),
    {
        if self.queue.len() < self.capacity {
            let ghost prev = self.batches();
            self.queue.push(batch);
            proof {
                assert(self.batches() =~= prev.push(batch@));
            }
            None
        } else {
            proof {
                assert(self.batches() =~= old(self).batches());
            }
            Some(batch)
        }
    }

    /// Take the oldest batch, or nothing if the channel is empty; never
    /// blocks.
    pub fn try_receive(&mut self) -> (r: Option<Vec<ListUpdate>>)
        ensures
            final(self).cap() == old(self).cap(),
            old(self).batches().len() == 0 ==> final(self).batches() == old(self).batches()
                && r is None,
            old(self).batches().len() > 0 ==> final(self).batches() == old(self).batches().skip(1)
                && (match r {
                Option::Some(b) => b@ == old(self).batches()[0],
                Option::None => false,
            }),
    {
        if self.queue.len() == 0 {
            proof {
                assert(self.batches() =~= old(self).batches());
            }
            None
        } else {
            let ghost prev = self.batches();
            let b = self.queue.remove(0);
            proof {
                assert(self.batches() =~= prev.skip(1));
            }
            Some(b)
        }
    }
}

} // verus!
