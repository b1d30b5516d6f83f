//! The root-scan coordinator: turns the full set of root categories into
//! schedulable tracer work.  Each category's enumeration runs as its own
//! task; string-table scanning fans out over the workers when the active
//! collection plan requires weak-root scanning.

use vstd::prelude::*;

verus! {

/// One schedulable root-scan task, by root category.
#[derive(Clone, Copy, PartialEq, Eq, Structural, Debug)]
pub enum RootScanTask {
    /// Universe roots.
    Universe,
    /// JNI handle roots.
    JniHandles,
    /// Object synchronizer roots.
    ObjectSynchronizer,
    /// Management roots.
    Management,
    /// JVMTI export roots.
    JvmtiExport,
    /// Ahead-of-time loader roots.
    AotLoader,
    /// System dictionary roots.
    SystemDictionary,
    /// Code-cache roots, scanned incrementally.
    CodeCache,
    /// Class-loader-data-graph roots, under the claim discipline.
    ClassLoaderDataGraph,
    /// String table roots; present only for weak-root-scanning plans.
    StringTable,
    /// Weak processor roots; present only for weak-root-scanning plans.
    WeakProcessor,
    /// VM thread roots.
    VmThreads,
}

/// The marker type carrying the binding's scanning entry points.
pub struct VMScanning {}

impl VMScanning {
    /// The task list for one cycle's root enumeration: all fixed categories
    /// in stage order, the weak categories only when the plan scans weak
    /// roots (with one string-table task per worker), and the VM thread
    /// roots last.
    pub fn scan_vm_specific_roots(scan_weak_roots: bool, workers: usize) -> (w: Vec<RootScanTask>)
        requires
            0 < workers <= 1024,
        ensures
            w@.len() == (if scan_weak_roots {
                10 + workers + 1
            } else {
                10int
            }),
            w@[0] == RootScanTask::Universe,
            w@[1] == RootScanTask::JniHandles,
            w@[2] == RootScanTask::ObjectSynchronizer,
            w@[3] == RootScanTask::Management,
            w@[4] == RootScanTask::JvmtiExport,
            w@[5] == RootScanTask::AotLoader,
            w@[6] == RootScanTask::SystemDictionary,
            w@[7] == RootScanTask::CodeCache,
            w@[8] == RootScanTask::ClassLoaderDataGraph,
            scan_weak_roots ==> (forall|i: int|
                9 <= i < 9 + workers ==> w@[i] == RootScanTask::StringTable) && w@[9
                + workers] == RootScanTask::WeakProcessor,
            w@[w@.len() - 1] == RootScanTask::VmThreads,
    {
        let mut w: Vec<RootScanTask> = Vec::new();
        w.push(RootScanTask::Universe);
        w.push(RootScanTask::JniHandles);
        w.push(RootScanTask::ObjectSynchronizer);
        w.push(RootScanTask::Management);
        w.push(RootScanTask::JvmtiExport);
        w.push(RootScanTask::AotLoader);
        w.push(RootScanTask::SystemDictionary);
        w.push(RootScanTask::CodeCache);
        w.push(RootScanTask::ClassLoaderDataGraph);
        if scan_weak_roots {
            let mut i: usize = 0;
            while i < workers
                invariant
                    0 <= i <= workers,
                    w@.len() == 9 + i,
                    w@[0] == RootScanTask::Universe,
                    w@[1] == RootScanTask::JniHandles,
                    w@[2] == RootScanTask::ObjectSynchronizer,
                    w@[3] == RootScanTask::Management,
                    w@[4] == RootScanTask::JvmtiExport,
                    w@[5] == RootScanTask::AotLoader,
                    w@[6] == RootScanTask::SystemDictionary,
                    w@[7] == RootScanTask::CodeCache,
                    w@[8] == RootScanTask::ClassLoaderDataGraph,
                    forall|j: int| 9 <= j < 9 + i ==> w@[j] == RootScanTask::StringTable,
                decreases workers - i,
            {
                w.push(RootScanTask::StringTable);
                i = i + 1;
            }
            w.push(RootScanTask::WeakProcessor);
        }
        w.push(RootScanTask::VmThreads);
        w
    }

    /// Whether this binding supports return barriers.
    pub fn supports_return_barrier() -> (r: bool)
        ensures
            !r,
    {
        false
    }
}

} // verus!
