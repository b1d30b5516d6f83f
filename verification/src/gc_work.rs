//! Root-scan work: bounded batches of root slots handed to the tracer as
//! schedulable units, and the incremental code-cache root scan.
//!
//! Code units register their outgoing roots into the nursery table as they
//! are produced, outside the root-scan phase.  At scan time the nursery is
//! merged into the mature table; the scan emits every mature and nursery
//! root in bounded batches, each flushed to the tracer as one unit of work,
//! so at most one buffer per category is being filled at any instant.

use crate::table::{Table, TableEntry};
use vstd::prelude::*;

verus! {

/// The roots a table's entries list, one code unit after another, each
/// unit's roots in order.
pub open spec fn roots_concat(es: Seq<TableEntry<Vec<u64>>>) -> Seq<u64>
    decreases es.len(),
{
    if es.len() == 0 {
        Seq::empty()
    } else {
        roots_concat(es.drop_last()) + es.last().val@
    }
}

/// The flat contents of a sequence of batches.
pub open spec fn batches_concat(bs: Seq<Seq<u64>>) -> Seq<u64>
    decreases bs.len(),
{
    if bs.len() == 0 {
        Seq::empty()
    } else {
        batches_concat(bs.drop_last()) + bs.last()
    }
}

/// Full batches except possibly the last, which is non-empty.
pub open spec fn batches_bounded(bs: Seq<Seq<u64>>, cap: int) -> bool {
    &&& forall|i: int| 0 <= i < bs.len() - 1 ==> (#[trigger] bs[i]).len() == cap
    &&& bs.len() > 0 ==> 0 < bs.last().len() <= cap
}

/// The number of root-scan work units cut from a stream of roots.
///
/// Law: an enumerator yielding `total` roots for one category produces
/// exactly `(total + cap - 1) / cap` flushed batches: full batches except a
/// final partial one.
pub proof fn lemma_batch_count(bs: Seq<Seq<u64>>, cap: int, total: int)
    requires
        cap > 0,
        batches_bounded(bs, cap),
        batches_concat(bs).len() == total,
    ensures
        bs.len() == (total + cap - 1) / cap,
    decreases bs.len(),
{
    if bs.len() == 0 {
        assert(total == 0);
        assert((cap - 1) / cap == 0) by (nonlinear_arith)
            requires
                cap > 0,
        ;
    } else if bs.len() == 1 {
        assert(batches_concat(bs.drop_last()).len() == 0) by {
            assert(bs.drop_last().len() == 0);
        }
        assert(total == bs.last().len());
        assert((total + cap - 1) / cap == 1) by (nonlinear_arith)
            requires
                cap > 0,
                0 < total <= cap,
        ;
    } else {
        let pre = bs.drop_last();
        assert(batches_bounded(pre, cap)) by {
            assert(pre[pre.len() - 1] == bs[bs.len() - 2]);
            assert(bs[bs.len() - 2].len() == cap);
            assert(forall|i: int| 0 <= i < pre.len() - 1 ==> (#[trigger] pre[i]).len() == cap);
        }
        let t2 = batches_concat(pre).len() as int;
        lemma_batch_count(pre, cap, t2);
        assert(total == t2 + bs.last().len());
        assert(pre.len() == (t2 + cap - 1) / cap);
        let last = bs.last().len() as int;
        assert(t2 == (pre.len() - 1) * cap + pre.last().len()) by {
            lemma_concat_len(pre, cap);
        }
        assert((t2 + last + cap - 1) / cap == (t2 + cap - 1) / cap + 1) by (nonlinear_arith)
            requires
                cap > 0,
                0 < last <= cap,
                t2 == (pre.len() - 1) * cap + pre.last().len(),
                pre.len() > 0,
                pre.last().len() == cap,
                (t2 + cap - 1) / cap == pre.len(),
        ;
    }
}

/// The flat length of bounded batches: full batches plus the last.
pub proof fn lemma_concat_len(bs: Seq<Seq<u64>>, cap: int)
    requires
        batches_bounded(bs, cap),
        bs.len() > 0,
    ensures
        batches_concat(bs).len() == (bs.len() - 1) * cap + bs.last().len(),
    decreases bs.len(),
{
    if bs.len() == 1 {
        assert(batches_concat(bs.drop_last()).len() == 0) by {
            assert(bs.drop_last().len() == 0);
        }
    } else {
        let pre = bs.drop_last();
        assert(batches_bounded(pre, cap)) by {
            assert(pre[pre.len() - 1] == bs[bs.len() - 2]);
            assert(bs[bs.len() - 2].len() == cap);
            assert(forall|i: int| 0 <= i < pre.len() - 1 ==> (#[trigger] pre[i]).len() == cap);
        }
        lemma_concat_len(pre, cap);
        assert((pre.len() - 1) * cap + cap == (bs.len() - 1) * cap) by (nonlinear_arith)
            requires
                pre.len() == bs.len() - 1,
        ;
    }
}

/// The sink for root-scan work: collects each flushed buffer as one
/// schedulable unit for the tracer, and fixes the batch capacity.
pub struct RootsWorkFactory {
    /// The batches handed to the tracer so far, in flush order.
    pub batches: Vec<Vec<u64>>,
    /// The capacity at which a buffer is flushed.
    pub capacity: usize,
}

impl RootsWorkFactory {
    /// A sink with no work yet.
    pub fn new(capacity: usize) -> (r: Self)
        requires
            capacity > 0,
        ensures
            r.batches@.len() == 0,
            r.capacity == capacity,
    {
        RootsWorkFactory { batches: Vec::new(), capacity }
    }

    /// Hand one filled buffer to the tracer as a unit of work.
    pub fn create_process_roots_work(&mut self, buf: Vec<u64>)
        ensures
            final(self).batches@ == old(self).batches@.push(buf),
            final(self).capacity == old(self).capacity,
    {
        self.batches.push(buf);
    }
}

/// Record how many roots the current category has reported; the running
/// count of the per-category breakdown.
pub fn record_roots(count: &mut usize, len: usize)
    requires
        *old(count) + len <= usize::MAX,
    ensures
        *final(count) == *old(count) + len,
{
    *count = *count + len;
}

/// One filled root buffer arrives from an enumerator: flush it to the
/// factory as one unit of work (unless it is the final, empty hand-back)
/// and return a fresh buffer for the enumerator to keep filling.
pub fn report_slots_and_renew_buffer(
    factory: &mut RootsWorkFactory,
    buf: Option<Vec<u64>>,
) -> (fresh: crate::NewBuffer)
    ensures
        final(factory).capacity == old(factory).capacity,
        (match buf {
            Some(b) => final(factory).batches@ == old(factory).batches@.push(b),
            None => final(factory).batches@ == old(factory).batches@,
        }),
        fresh.buf@.len() == 0,
        fresh.capacity == old(factory).capacity,
{
    let cap = factory.capacity;
    match buf {
        Some(b) => factory.create_process_roots_work(b),
        None => {},
    }
    crate::NewBuffer { buf: Vec::new(), capacity: cap }
}

/// Register the outgoing roots of one code unit into the nursery table;
/// called as the unit is produced, outside the root-scan phase.
pub fn register_code_cache_roots(nursery: &mut Table<Vec<u64>>, unit: u64, roots: Vec<u64>)
    requires
        old(nursery).wf(),
        unit != 0,
    ensures
        final(nursery).wf(),
        final(nursery)@ == old(nursery)@.insert(unit, roots),
{
    nursery.set(unit, roots);
}

/// The scheduled root-scan task for the code cache.
pub struct ScanCodeCacheRoots {
    /// The sink receiving the batches.
    pub factory: RootsWorkFactory,
}

impl ScanCodeCacheRoots {
    /// Wrap a factory into the task.
    pub fn new(factory: RootsWorkFactory) -> (r: Self)
        ensures
            r.factory == factory,
    {
        ScanCodeCacheRoots { factory }
    }

    /// Scan the code-cache roots: every mature root, then every nursery
    /// root, cut into capacity-sized batches, each flushed as one unit of
    /// work; the nursery entries are merged into the mature table and the
    /// nursery is left empty.
    #[verifier::rlimit(100)]
    #[verifier::spinoff_prover]
    pub fn do_work(&mut self, mature: &mut Table<Vec<u64>>, nursery: &mut Table<Vec<u64>>)
        requires
            old(mature).wf(),
            old(nursery).wf(),
            old(self).factory.capacity > 0,
            old(self).factory.batches@.len() == 0,
        ensures
            final(mature).wf(),
            final(nursery).wf(),
            final(nursery)@ == Map::<u64, Vec<u64>>::empty(),
            final(self).factory.capacity == old(self).factory.capacity,
            batches_concat(
                final(self).factory.batches@.map_values(|b: Vec<u64>| b@),
            ) == roots_concat(old(mature).entries@) + roots_concat(old(nursery).entries@),
            batches_bounded(
                final(self).factory.batches@.map_values(|b: Vec<u64>| b@),
                old(self).factory.capacity as int,
            ),
    {
        let ghost goal = roots_concat(old(mature).entries@) + roots_concat(old(nursery).entries@);
        let mut slots: Vec<u64> = Vec::new();
        let cap = self.factory.capacity;
        // mature roots
        scan_table_roots(&mut self.factory, &mut slots, mature, Ghost(Seq::empty()));
        // young roots, merged into the mature table as they are scanned
        let mut nursery_taken: Table<Vec<u64>> = Table::new();
        core::mem::swap(nursery, &mut nursery_taken);
        proof {
            assert(roots_concat(Seq::<TableEntry<Vec<u64>>>::empty()) + roots_concat(
                old(mature).entries@,
            ) =~= roots_concat(old(mature).entries@));
        }
        let ghost emitted_mature = roots_concat(old(mature).entries@);
        scan_table_merge_roots(&mut self.factory, &mut slots, mature, &nursery_taken, Ghost(
            emitted_mature,
        ));
        // flush the final partial batch
        if slots.len() > 0 {
            let ghost bs_pre = self.factory.batches@.map_values(|b: Vec<u64>| b@);
            let ghost slots_snap = slots@;
            let mut out: Vec<u64> = Vec::new();
            core::mem::swap(&mut slots, &mut out);
            self.factory.create_process_roots_work(out);
            proof {
                let bs = self.factory.batches@.map_values(|b: Vec<u64>| b@);
                assert(bs =~= bs_pre.push(slots_snap));
                assert(bs.drop_last() =~= bs_pre);
                assert(batches_concat(bs) =~= goal);
            }
        } else {
            proof {
                assert(batches_concat(self.factory.batches@.map_values(|b: Vec<u64>| b@)) + slots@
                    =~= batches_concat(self.factory.batches@.map_values(|b: Vec<u64>| b@)));
            }
        }
    }
}

/// Emit every root of every entry of `table` into the running buffer,
/// flushing a full batch whenever the buffer reaches capacity.
#[verifier::rlimit(100)]
#[verifier::spinoff_prover]
fn scan_table_roots(
    factory: &mut RootsWorkFactory,
    slots: &mut Vec<u64>,
    table: &Table<Vec<u64>>,
    Ghost(emitted0): Ghost<Seq<u64>>,
)
    requires
        table.wf(),
        old(factory).capacity > 0,
        old(slots)@.len() < old(factory).capacity,
        batches_concat(old(factory).batches@.map_values(|b: Vec<u64>| b@)) + old(slots)@
            == emitted0,
        batches_bounded(
            old(factory).batches@.map_values(|b: Vec<u64>| b@),
            old(factory).capacity as int,
        ),
        forall|i: int|
            0 <= i < old(factory).batches@.len() ==> (#[trigger] old(factory).batches@[i]@).len()
                == old(factory).capacity,
    ensures
        final(factory).capacity == old(factory).capacity,
        final(slots)@.len() < old(factory).capacity,
        batches_concat(final(factory).batches@.map_values(|b: Vec<u64>| b@)) + final(slots)@
            == emitted0 + roots_concat(table.entries@),
        batches_bounded(
            final(factory).batches@.map_values(|b: Vec<u64>| b@),
            old(factory).capacity as int,
        ),
        forall|i: int|
            0 <= i < final(factory).batches@.len() ==> (#[trigger] final(factory).batches@[i]@).len()
                == old(factory).capacity,
{
    let n = table.entries.len();
    let mut i: usize = 0;
    while i < n
        invariant
            table.wf(),
            n == table.entries@.len(),
            0 <= i <= n,
            factory.capacity == old(factory).capacity,
            factory.capacity > 0,
            slots@.len() < factory.capacity,
            batches_concat(factory.batches@.map_values(|b: Vec<u64>| b@)) + slots@ == emitted0
                + roots_concat(table.entries@.take(i as int)),
            forall|j: int|
                0 <= j < factory.batches@.len() ==> (#[trigger] factory.batches@[j]@).len()
                    == factory.capacity,
        decreases n - i,
    {
        proof {
            assert(table.entries@.take(i + 1).drop_last() =~= table.entries@.take(i as int));
        }
        emit_roots(factory, slots, &table.entries[i].val, Ghost(
            emitted0 + roots_concat(table.entries@.take(i as int)),
        ));
        proof {
            assert((emitted0 + roots_concat(table.entries@.take(i as int)))
                + table.entries@[i as int].val@ =~= emitted0 + roots_concat(
                table.entries@.take(i + 1),
            ));
        }
        i = i + 1;
    }
    proof {
        assert(table.entries@.take(n as int) =~= table.entries@);
        let bs = factory.batches@.map_values(|b: Vec<u64>| b@);
        assert forall|j: int| 0 <= j < bs.len() - 1 implies (#[trigger] bs[j]).len() == old(
            factory,
        ).capacity as int by {
            assert(bs[j] == factory.batches@[j]@);
        }
        if factory.batches@.len() > 0 {
            assert(bs.last() == factory.batches@[factory.batches@.len() - 1]@);
        }
    }
}

/// As `scan_table_roots`, and additionally merge each scanned entry into
/// the mature table.
#[verifier::rlimit(100)]
#[verifier::spinoff_prover]
fn scan_table_merge_roots(
    factory: &mut RootsWorkFactory,
    slots: &mut Vec<u64>,
    mature: &mut Table<Vec<u64>>,
    nursery: &Table<Vec<u64>>,
    Ghost(emitted0): Ghost<Seq<u64>>,
)
    requires
        old(mature).wf(),
        nursery.wf(),
        old(factory).capacity > 0,
        old(slots)@.len() < old(factory).capacity,
        batches_concat(old(factory).batches@.map_values(|b: Vec<u64>| b@)) + old(slots)@
            == emitted0,
        forall|i: int|
            0 <= i < old(factory).batches@.len() ==> (#[trigger] old(factory).batches@[i]@).len()
                == old(factory).capacity,
    ensures
        final(mature).wf(),
        final(factory).capacity == old(factory).capacity,
        final(slots)@.len() < old(factory).capacity,
        batches_concat(final(factory).batches@.map_values(|b: Vec<u64>| b@)) + final(slots)@
            == emitted0 + roots_concat(nursery.entries@),
        batches_bounded(
            final(factory).batches@.map_values(|b: Vec<u64>| b@),
            old(factory).capacity as int,
        ),
        forall|i: int|
            0 <= i < final(factory).batches@.len() ==> (#[trigger] final(factory).batches@[i]@).len()
                == old(factory).capacity,
{
    let n = nursery.entries.len();
    let mut i: usize = 0;
    while i < n
        invariant
            mature.wf(),
            nursery.wf(),
            n == nursery.entries@.len(),
            0 <= i <= n,
            factory.capacity == old(factory).capacity,
            factory.capacity > 0,
            slots@.len() < factory.capacity,
            batches_concat(factory.batches@.map_values(|b: Vec<u64>| b@)) + slots@ == emitted0
                + roots_concat(nursery.entries@.take(i as int)),
            forall|j: int|
                0 <= j < factory.batches@.len() ==> (#[trigger] factory.batches@[j]@).len()
                    == factory.capacity,
        decreases n - i,
    {
        proof {
            assert(nursery.entries@.take(i + 1).drop_last() =~= nursery.entries@.take(i as int));
            nursery.lemma_entry_at(i as int);
        }
        emit_roots(factory, slots, &nursery.entries[i].val, Ghost(
            emitted0 + roots_concat(nursery.entries@.take(i as int)),
        ));
        let key = nursery.entries[i].key;
        let roots = nursery.entries[i].val.clone();
        proof {
            assert(roots@ =~= nursery.entries@[i as int].val@);
            assert((emitted0 + roots_concat(nursery.entries@.take(i as int)))
                + nursery.entries@[i as int].val@ =~= emitted0 + roots_concat(
                nursery.entries@.take(i + 1),
            ));
        }
        mature.set(key, roots);
        i = i + 1;
    }
    proof {
        assert(nursery.entries@.take(n as int) =~= nursery.entries@);
        let bs = factory.batches@.map_values(|b: Vec<u64>| b@);
        assert forall|j: int| 0 <= j < bs.len() - 1 implies (#[trigger] bs[j]).len() == old(
            factory,
        ).capacity as int by {
            assert(bs[j] == factory.batches@[j]@);
        }
        if factory.batches@.len() > 0 {
            assert(bs.last() == factory.batches@[factory.batches@.len() - 1]@);
        }
    }
}

/// Emit one unit's roots into the running buffer, flushing a full batch
/// whenever the buffer reaches capacity.
#[verifier::rlimit(100)]
#[verifier::spinoff_prover]
fn emit_roots(
    factory: &mut RootsWorkFactory,
    slots: &mut Vec<u64>,
    roots: &Vec<u64>,
    Ghost(emitted0): Ghost<Seq<u64>>,
)
    requires
        old(factory).capacity > 0,
        old(slots)@.len() < old(factory).capacity,
        batches_concat(old(factory).batches@.map_values(|b: Vec<u64>| b@)) + old(slots)@
            == emitted0,
        forall|i: int|
            0 <= i < old(factory).batches@.len() ==> (#[trigger] old(factory).batches@[i]@).len()
                == old(factory).capacity,
    ensures
        final(factory).capacity == old(factory).capacity,
        final(slots)@.len() < old(factory).capacity,
        batches_concat(final(factory).batches@.map_values(|b: Vec<u64>| b@)) + final(slots)@
            == emitted0 + roots@,
        forall|i: int|
            0 <= i < final(factory).batches@.len() ==> (#[trigger] final(factory).batches@[i]@).len()
                == old(factory).capacity,
{
    let m = roots.len();
    let mut j: usize = 0;
    while j < m
        invariant
            m == roots@.len(),
            0 <= j <= m,
            factory.capacity == old(factory).capacity,
            factory.capacity > 0,
            slots@.len() < factory.capacity,
            batches_concat(factory.batches@.map_values(|b: Vec<u64>| b@)) + slots@ == emitted0
                + roots@.take(j as int),
            forall|i: int|
                0 <= i < factory.batches@.len() ==> (#[trigger] factory.batches@[i]@).len()
                    == factory.capacity,
        decreases m - j,
    {
        let ghost slots_prev = slots@;
        slots.push(roots[j]);
        proof {
            let bsc = batches_concat(factory.batches@.map_values(|b: Vec<u64>| b@));
            assert(roots@.take(j + 1) =~= roots@.take(j as int).push(roots@[j as int]));
            assert(slots@ =~= slots_prev.push(roots@[j as int]));
            assert(bsc + slots@ =~= (bsc + slots_prev).push(roots@[j as int]));
            assert((emitted0 + roots@.take(j as int)).push(roots@[j as int]) =~= emitted0
                + roots@.take(j + 1));
            assert(bsc + slots@ =~= emitted0 + roots@.take(j + 1));
        }
        if slots.len() >= factory.capacity {
            let ghost bs_pre = factory.batches@.map_values(|b: Vec<u64>| b@);
            let ghost slots_snap = slots@;
            let mut out: Vec<u64> = Vec::new();
            core::mem::swap(slots, &mut out);
            factory.create_process_roots_work(out);
            proof {
                let bs = factory.batches@.map_values(|b: Vec<u64>| b@);
                assert(bs =~= bs_pre.push(slots_snap));
                assert(bs.drop_last() =~= bs_pre);
                assert(batches_concat(bs) + slots@ =~= emitted0 + roots@.take(j + 1));
            }
        }
        j = j + 1;
    }
    proof {
        assert(roots@.take(m as int) =~= roots@);
    }
}

} // verus!
