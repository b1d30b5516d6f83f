//! Object scanning: the object scanner visits each object's reference
//! fields, buffering the found slots into capacity-bounded units of tracer
//! work.  Object layout decoding itself is an external collaborator; the
//! layout is consumed as a table from object address to the addresses of
//! its reference-holding slots.

use crate::gc_work::{batches_concat, RootsWorkFactory};
use crate::table::Table;
use vstd::prelude::*;

verus! {

/// The slot addresses of all listed objects' reference fields, in object
/// order, as the layout table gives them.
pub open spec fn fields_concat(layout: Table<Vec<u64>>, objs: Seq<u64>) -> Seq<u64>
    decreases objs.len(),
{
    if objs.len() == 0 {
        Seq::empty()
    } else {
        fields_concat(layout, objs.drop_last()) + (if layout@.dom().contains(objs.last()) {
            layout@[objs.last()]@
        } else {
            Seq::empty()
        })
    }
}

/// The buffering closure of the object scanner: gathers found slots and
/// hands every full buffer to the scheduler as one unit of closure work.
pub struct ObjectsClosure {
    /// The buffer being filled.
    pub buf: Vec<u64>,
    /// The sink receiving full buffers.
    pub factory: RootsWorkFactory,
}

impl ObjectsClosure {
    /// An empty closure over the given sink.
    pub fn new(factory: RootsWorkFactory) -> (r: Self)
        ensures
            r.buf@.len() == 0,
            r.factory == factory,
    {
        ObjectsClosure { buf: Vec::new(), factory }
    }

    /// Buffer one found slot; flush the buffer as a unit of work when it
    /// reaches capacity.
    pub fn process_edge(&mut self, slot: u64)
        requires
            old(self).factory.capacity > 0,
            old(self).buf@.len() < old(self).factory.capacity,
        ensures
            final(self).factory.capacity == old(self).factory.capacity,
            final(self).buf@.len() < final(self).factory.capacity,
            batches_concat(final(self).factory.batches@.map_values(|b: Vec<u64>| b@))
                + final(self).buf@ == (batches_concat(
                old(self).factory.batches@.map_values(|b: Vec<u64>| b@),
            ) + old(self).buf@).push(slot),
    {
        let ghost bs_pre = self.factory.batches@.map_values(|b: Vec<u64>| b@);
        let ghost buf_prev = self.buf@;
        self.buf.push(slot);
        if self.buf.len() >= self.factory.capacity {
            let ghost buf_snap = self.buf@;
            let mut out: Vec<u64> = Vec::new();
            core::mem::swap(&mut self.buf, &mut out);
            self.factory.create_process_roots_work(out);
            proof {
                let bs = self.factory.batches@.map_values(|b: Vec<u64>| b@);
                assert(bs =~= bs_pre.push(buf_snap));
                assert(bs.drop_last() =~= bs_pre);
                assert(batches_concat(bs) + self.buf@ =~= (batches_concat(bs_pre)
                    + buf_prev).push(slot));
            }
        } else {
            proof {
                let bs = self.factory.batches@.map_values(|b: Vec<u64>| b@);
                assert(bs =~= bs_pre);
                assert(batches_concat(bs) + self.buf@ =~= (batches_concat(bs_pre)
                    + buf_prev).push(slot));
            }
        }
    }

    /// Flush whatever the buffer still holds as one final unit of work;
    /// what the scanner's teardown does once the last object was visited.
    pub fn flush(&mut self)
        ensures
            final(self).factory.capacity == old(self).factory.capacity,
            final(self).buf@.len() == 0,
            batches_concat(final(self).factory.batches@.map_values(|b: Vec<u64>| b@))
                == batches_concat(old(self).factory.batches@.map_values(|b: Vec<u64>| b@))
                + old(self).buf@,
    {
        let ghost bs_pre = self.factory.batches@.map_values(|b: Vec<u64>| b@);
        let ghost buf_snap = self.buf@;
        let mut out: Vec<u64> = Vec::new();
        core::mem::swap(&mut self.buf, &mut out);
        self.factory.create_process_roots_work(out);
        proof {
            let bs = self.factory.batches@.map_values(|b: Vec<u64>| b@);
            assert(bs =~= bs_pre.push(buf_snap));
            assert(bs.drop_last() =~= bs_pre);
        }
    }
}

/// Visit one object: report each of its reference-field slots to the
/// closure, in field order.
pub fn scan_object(layout: &Table<Vec<u64>>, object: u64, closure: &mut ObjectsClosure)
    requires
        layout.wf(),
        old(closure).factory.capacity > 0,
        old(closure).buf@.len() < old(closure).factory.capacity,
    ensures
        final(closure).factory.capacity == old(closure).factory.capacity,
        final(closure).buf@.len() < final(closure).factory.capacity,
        batches_concat(final(closure).factory.batches@.map_values(|b: Vec<u64>| b@))
            + final(closure).buf@ == batches_concat(
            old(closure).factory.batches@.map_values(|b: Vec<u64>| b@),
        ) + old(closure).buf@ + (if layout@.dom().contains(object) {
            layout@[object]@
        } else {
            Seq::<u64>::empty()
        }),
{
    let ghost acc0 = batches_concat(old(closure).factory.batches@.map_values(|b: Vec<u64>| b@))
        + old(closure).buf@;
    match layout.get(object) {
        None => {
            proof {
                assert(acc0 + Seq::<u64>::empty() =~= acc0);
            }
        },
        Some(fields) => {
            let m = fields.len();
            let mut j: usize = 0;
            while j < m
                invariant
                    m == fields@.len(),
                    0 <= j <= m,
                    closure.factory.capacity == old(closure).factory.capacity,
                    closure.factory.capacity > 0,
                    closure.buf@.len() < closure.factory.capacity,
                    batches_concat(closure.factory.batches@.map_values(|b: Vec<u64>| b@))
                        + closure.buf@ == acc0 + fields@.take(j as int),
                decreases m - j,
            {
                closure.process_edge(fields[j]);
                proof {
                    assert(fields@.take(j + 1) =~= fields@.take(j as int).push(fields@[j as int]));
                    assert((acc0 + fields@.take(j as int)).push(fields@[j as int]) =~= acc0
                        + fields@.take(j + 1));
                }
                j = j + 1;
            }
            proof {
                assert(fields@.take(m as int) =~= fields@);
            }
        },
    }
}

/// Scan a batch of objects and cut the found slots into capacity-bounded
/// units of closure work; the final partial buffer is flushed as the
/// closure is retired.
pub fn scan_objects_and_create_edges_work(
    layout: &Table<Vec<u64>>,
    objects: &Vec<u64>,
    factory: RootsWorkFactory,
) -> (out: RootsWorkFactory)
    requires
        layout.wf(),
        factory.capacity > 0,
    ensures
        out.capacity == factory.capacity,
        batches_concat(out.batches@.map_values(|b: Vec<u64>| b@)) == batches_concat(
            factory.batches@.map_values(|b: Vec<u64>| b@),
        ) + fields_concat(*layout, objects@),
{
    let ghost acc0 = batches_concat(factory.batches@.map_values(|b: Vec<u64>| b@));
    let mut closure = ObjectsClosure::new(factory);
    proof {
        assert(acc0 + closure.buf@ =~= acc0 + fields_concat(*layout, objects@.take(0)));
    }
    let n = objects.len();
    let mut i: usize = 0;
    while i < n
        invariant
            layout.wf(),
            n == objects@.len(),
            0 <= i <= n,
            closure.factory.capacity > 0,
            closure.buf@.len() < closure.factory.capacity,
            batches_concat(closure.factory.batches@.map_values(|b: Vec<u64>| b@)) + closure.buf@
                == acc0 + fields_concat(*layout, objects@.take(i as int)),
            closure.factory.capacity == factory.capacity,
        decreases n - i,
    {
        scan_object(layout, objects[i], &mut closure);
        proof {
            assert(objects@.take(i + 1).drop_last() =~= objects@.take(i as int));
            assert(acc0 + fields_concat(*layout, objects@.take(i as int)) + (if layout@.dom().contains(
                objects@[i as int],
            ) {
                layout@[objects@[i as int]]@
            } else {
                Seq::<u64>::empty()
            }) =~= acc0 + fields_concat(*layout, objects@.take(i + 1)));
        }
        i = i + 1;
    }
    proof {
        assert(objects@.take(n as int) =~= objects@);
    }
    closure.flush();
    closure.factory
}

} // verus!
