//! The batched-prepend queue: single pushes gather in a spill list, whole
//! batches are stacked, and a pull delivers the newest batch first, each
//! list from its back.

use vstd::prelude::*;

verus! {

/// What the stacked batches deliver: the newest batch first, each from its back.
pub open spec fn drain_batches(pending: Seq<Seq<u32>>) -> Seq<u32>
    decreases pending.len(),
{
    if pending.len() == 0 {
        Seq::empty()
    } else {
        pending.last().reverse() + drain_batches(pending.drop_last())
    }
}

/// What a pull delivers from the three buffers, in order.
pub open spec fn delivery_of(active: Seq<u32>, pending: Seq<Seq<u32>>, spill: Seq<u32>) -> Seq<
    u32,
> {
    active.reverse() + drain_batches(pending) + spill.reverse()
}

/// Queue with O(1) prepend of a batch. Between calls the active list is empty.
pub struct DataStructureD {
    active: Vec<u32>,
    prepend_batches: Vec<Vec<u32>>,
    spill: Vec<u32>,
}

impl DataStructureD {
    /// The list being pulled from.
    pub closed spec fn active(&self) -> Seq<u32> {
        self.active@
    }

    /// The stacked batches, oldest first.
    pub closed spec fn pending(&self) -> Seq<Seq<u32>> {
        self.prepend_batches@.map_values(|b: Vec<u32>| b@)
    }

    /// The single pushes, oldest first.
    pub closed spec fn spill(&self) -> Seq<u32> {
        self.spill@
    }

    /// No stacked batch is empty.
    pub open spec fn batches_ok(&self) -> bool {
        forall|i: int| 0 <= i < self.pending().len() ==> (#[trigger] self.pending()[i]).len() > 0
    }

    /// The state between calls: no empty batch, nothing active.
    pub open spec fn wf(&self) -> bool {
        self.batches_ok() && self.active().len() == 0
    }

    /// What the next pull will deliver, in order.
    pub open spec fn delivery(&self) -> Seq<u32> {
        delivery_of(self.active(), self.pending(), self.spill())
    }

    /// An empty queue.
    pub fn new() -> (d: Self)
        ensures
            d.wf(),
            d.pending().len() == 0,
            d.spill().len() == 0,
            d.delivery().len() == 0,
    {
        let d = Self { active: Vec::new(), prepend_batches: Vec::new(), spill: Vec::new() };
        assert(d.pending() =~= Seq::empty());
        assert(drain_batches(d.pending()) =~= Seq::empty());
        d
    }

    /// Appends one vertex to the spill list.
    pub fn push(&mut self, v: u32)
        requires
            old(self).wf(),
        ensures
            final(self).wf(),
            final(self).pending() == old(self).pending(),
            final(self).spill() == old(self).spill().push(v),
            final(self).delivery() == drain_batches(old(self).pending()) + seq![v] + old(
                self,
            ).spill().reverse(),
    {
        self.spill.push(v);
        proof {
            let a = old(self).spill();
            assert(a.push(v).reverse() =~= seq![v] + a.reverse());
            assert(self.active().reverse() =~= Seq::<u32>::empty());
            assert(self.delivery() =~= drain_batches(old(self).pending()) + seq![v] + a.reverse());
        }
    }

    /// Stacks a batch on top of the pending ones; an empty batch is dropped.
    pub fn batch_prepend(&mut self, batch: Vec<u32>)
        requires
            old(self).wf(),
        ensures
            final(self).wf(),
            final(self).spill() == old(self).spill(),
            final(self).pending() == if batch@.len() > 0 {
                old(self).pending().push(batch@)
            } else {
                old(self).pending()
            },
            final(self).delivery() == batch@.reverse() + old(self).delivery(),
    {
        if !batch.is_empty() {
            let ghost b = batch@;
            self.prepend_batches.push(batch);
            proof {
                let p0 = old(self).pending();
                let p1 = self.pending();
                assert(p1 =~= p0.push(b));
                assert(p1.drop_last() =~= p0);
                assert(drain_batches(p1) == b.reverse() + drain_batches(p0));
                assert(self.active().reverse() =~= Seq::<u32>::empty());
                assert(self.delivery() =~= b.reverse() + old(self).delivery());
            }
        } else {
            assert(batch@.reverse() + old(self).delivery() =~= old(self).delivery());
        }
    }

    /// Installs the next list to pull from. Where a batch is stacked, the
    /// newest becomes active and what was active moves behind the spill
    /// list; else, where nothing is active, the spill list becomes active.
    pub fn rotate_prepend(&mut self)
        requires
            old(self).batches_ok(),
        ensures
            final(self).batches_ok(),
            old(self).pending().len() > 0 ==> {
                &&& final(self).active() == old(self).pending().last()
                &&& final(self).pending() == old(self).pending().drop_last()
                &&& final(self).spill() == old(self).spill() + old(self).active()
            },
            old(self).pending().len() == 0 && old(self).active().len() == 0 ==> {
                &&& final(self).active() == old(self).spill()
                &&& final(self).pending() == old(self).pending()
                &&& final(self).spill().len() == 0
            },
            old(self).pending().len() == 0 && old(self).active().len() > 0 ==> {
                &&& final(self).active() == old(self).active()
                &&& final(self).pending() == old(self).pending()
                &&& final(self).spill() == old(self).spill()
            },
            old(self).active().len() == 0 ==> final(self).delivery() == old(self).delivery(),
    {
        let ghost p0 = self.pending();
        match self.prepend_batches.pop() {
            Some(b) => {
                assert(b@ == p0.last());
                assert(self.pending() =~= p0.drop_last());
                if !self.active.is_empty() {
                    self.spill.append(&mut self.active);
                }
                self.active = b;
                proof {
                    assert(self.spill() =~= old(self).spill() + old(self).active());
                    if old(self).active().len() == 0 {
                        assert(old(self).active().reverse() =~= Seq::<u32>::empty());
                        assert(self.delivery() =~= old(self).delivery());
                    }
                }
            },
            None => {
                assert(self.pending() =~= p0);
                if self.active.is_empty() && !self.spill.is_empty() {
                    let ghost sp = self.spill@;
                    self.active.append(&mut self.spill);
                    proof {
                        assert(self.active() =~= sp);
                        assert(self.spill().reverse() =~= Seq::<u32>::empty());
                        assert(old(self).active().reverse() =~= Seq::<u32>::empty());
                        assert(self.delivery() =~= old(self).delivery());
                    }
                } else {
                    assert(self.spill() =~= old(self).spill());
                }
            },
        }
    }

    /// Delivers everything the queue holds and leaves it empty: the newest
    /// batch first, then each older one, then the single pushes, each list
    /// from its back.
    pub fn pull(&mut self) -> (out: Vec<u32>)
        requires
            old(self).wf(),
        ensures
            out@ == old(self).delivery(),
            final(self).wf(),
            final(self).pending().len() == 0,
            final(self).spill().len() == 0,
            final(self).delivery().len() == 0,
    {
        let mut out: Vec<u32> = Vec::new();
        if self.active.is_empty() {
            self.rotate_prepend();
        }
        loop
            invariant
                self.batches_ok(),
                out@ + self.delivery() == old(self).delivery(),
                self.active().len() == 0 ==> self.pending().len() == 0 && self.spill().len() == 0,
            ensures
                self.batches_ok(),
                out@ + self.delivery() == old(self).delivery(),
                self.active().len() == 0,
                self.pending().len() == 0,
                self.spill().len() == 0,
            decreases self.delivery().len(),
        {
            let ghost a0 = self.active();
            let ghost d0 = self.delivery();
            match self.active.pop() {
                None => {
                    break ;
                },
                Some(v) => {
                    proof {
                        let a1 = self.active();
                        assert(a0 =~= a1.push(v));
                        assert(a0.reverse() =~= seq![v] + a1.reverse());
                        assert(d0 =~= seq![v] + self.delivery());
                        assert(out@.push(v) + self.delivery() =~= out@ + d0);
                    }
                    out.push(v);
                    if self.active.is_empty() {
                        self.rotate_prepend();
                    }
                },
            }
        }
        proof {
            assert(self.pending() =~= Seq::empty());
            assert(drain_batches(self.pending()) =~= Seq::empty());
            assert(self.delivery() =~= Seq::empty());
            assert(out@ + self.delivery() =~= out@);
        }
        out
    }

    /// Whether the queue holds nothing.
    pub fn is_empty(&self) -> (r: bool)
        requires
            self.wf(),
        ensures
            r == (self.pending().len() == 0 && self.spill().len() == 0),
            r == (self.delivery().len() == 0),
    {
        proof {
            lemma_delivery_len(self.active(), self.pending(), self.spill());
            if self.pending().len() > 0 {
                assert(self.pending().last().len() > 0);
            }
        }
        self.active.is_empty() && self.prepend_batches.is_empty() && self.spill.is_empty()
    }
}

/// The queue delivers as many vertices as its buffers hold.
pub proof fn lemma_delivery_len(active: Seq<u32>, pending: Seq<Seq<u32>>, spill: Seq<u32>)
    ensures
        delivery_of(active, pending, spill).len() == active.len() + drain_batches(pending).len()
            + spill.len(),
        pending.len() > 0 ==> drain_batches(pending).len() >= pending.last().len(),
        pending.len() == 0 ==> drain_batches(pending).len() == 0,
{
}

/// Of two batches stacked one after the other, the later is delivered
/// first: the next pull starts with the later batch's last vertex, runs
/// through the later batch from its back, then through the earlier one
/// from its back, and only then delivers what the queue held before.
pub proof fn lemma_later_batch_first(
    pending: Seq<Seq<u32>>,
    spill: Seq<u32>,
    b1: Seq<u32>,
    b2: Seq<u32>,
)
    requires
        b1.len() > 0,
        b2.len() > 0,
    ensures
        delivery_of(Seq::empty(), pending.push(b1).push(b2), spill) == b2.reverse() + b1.reverse()
            + delivery_of(Seq::empty(), pending, spill),
        delivery_of(Seq::empty(), pending.push(b1).push(b2), spill)[0] == b2.last(),
        forall|i: int|
            0 <= i < b2.len() ==> #[trigger] delivery_of(
                Seq::empty(),
                pending.push(b1).push(b2),
                spill,
            )[i] == b2[b2.len() - 1 - i],
        forall|k: int|
            b2.len() <= k < b2.len() + b1.len() ==> #[trigger] delivery_of(
                Seq::empty(),
                pending.push(b1).push(b2),
                spill,
            )[k] == b1[b1.len() - 1 - (k - b2.len())],
{
    let e = Seq::<u32>::empty();
    let p1 = pending.push(b1);
    let p2 = p1.push(b2);
    assert(p2.drop_last() =~= p1);
    assert(p1.drop_last() =~= pending);
    assert(drain_batches(p2) == b2.reverse() + drain_batches(p1));
    assert(drain_batches(p1) == b1.reverse() + drain_batches(pending));
    assert(e.reverse() =~= e);
    let d = delivery_of(e, p2, spill);
    assert(d =~= b2.reverse() + b1.reverse() + delivery_of(e, pending, spill));
}

} // verus!
