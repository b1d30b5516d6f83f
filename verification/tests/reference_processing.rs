use mmtk_openjdk::heap::{Heap, RefKind};
use mmtk_openjdk::reference_glue::{DiscoveredLists, VMReferenceGlue};

const A_OLD: u64 = 0x1000;
const A_NEW: u64 = 0x2000;
const DEAD: u64 = 0x3000;
const R1: u64 = 0x4000;
const R2: u64 = 0x5000;

fn two_weak_refs() -> (Heap, DiscoveredLists) {
    let mut heap = Heap::new();
    heap.add_object(A_NEW, RefKind::Weak, None, true);
    heap.add_object(DEAD, RefKind::Weak, None, false);
    heap.add_object(R1, RefKind::Weak, Some(A_OLD), true);
    heap.add_object(R2, RefKind::Weak, Some(DEAD), true);
    heap.add_forwarding(A_OLD, A_NEW);
    let mut lists = DiscoveredLists::new(1);
    assert!(lists.discover(&mut heap, 0, RefKind::Weak, R1));
    assert!(lists.discover(&mut heap, 0, RefKind::Weak, R2));
    (heap, lists)
}

#[test]
fn end_to_end_weak_shard() {
    let (mut heap, mut lists) = two_weak_refs();
    let _ = lists.process_soft_weak_final_refs(&mut heap);
    // The reference with the live referent is forwarded and removed from
    // the list; the one with the dead referent is cleared and spliced into
    // the pending queue; the shard ends empty.
    assert_eq!(heap.get_referent(R1), Some(A_NEW));
    assert_eq!(heap.get_referent(R2), None);
    assert_eq!(heap.pending_to_vec(), vec![R2]);
    assert!(lists.get_by_rt_and_index(RefKind::Weak, 0).head.is_none());
    assert_eq!(heap.get_discovered(R1), None);
}

#[test]
fn weak_clearing_dead_referent_not_enqueued() {
    let (mut heap, mut lists) = two_weak_refs();
    let _ = lists.process_soft_weak_final_refs(&mut heap);
    // The dead referent's slot reads as null and the referent object itself
    // never appears on the pending queue.
    assert_eq!(heap.get_referent(R2), None);
    let pending = heap.pending_to_vec();
    assert!(!pending.contains(&DEAD));
}

#[test]
fn phantom_clearing() {
    let mut heap = Heap::new();
    heap.add_object(DEAD, RefKind::Weak, None, false);
    heap.add_object(R1, RefKind::Phantom, Some(DEAD), true);
    let mut lists = DiscoveredLists::new(1);
    assert!(lists.discover(&mut heap, 0, RefKind::Phantom, R1));
    let _ = lists.process_phantom_refs(&mut heap);
    assert_eq!(heap.get_referent(R1), None);
    assert_eq!(heap.pending_to_vec(), vec![R1]);
    assert!(lists.get_by_rt_and_index(RefKind::Phantom, 0).head.is_none());
}

#[test]
fn soft_retention_under_pressure() {
    let mut heap = Heap::new();
    heap.add_object(DEAD, RefKind::Weak, None, false);
    heap.add_object(R1, RefKind::Soft, Some(DEAD), true);
    heap.set_emergency(true);
    let mut lists = DiscoveredLists::new(1);
    assert!(lists.discover(&mut heap, 0, RefKind::Soft, R1));
    let _ = lists.process_soft_weak_final_refs(&mut heap);
    // Under an emergency cycle the dead soft referent is retained: the
    // referent field is unchanged and the reference is not enqueued.
    assert_eq!(heap.get_referent(R1), Some(DEAD));
    assert!(heap.is_live(DEAD));
    assert_eq!(heap.pending_to_vec(), Vec::<u64>::new());
    assert!(lists.get_by_rt_and_index(RefKind::Soft, 0).head.is_none());
}

#[test]
fn soft_clearing_in_ordinary_cycle() {
    let mut heap = Heap::new();
    heap.add_object(DEAD, RefKind::Weak, None, false);
    heap.add_object(R1, RefKind::Soft, Some(DEAD), true);
    let mut lists = DiscoveredLists::new(1);
    assert!(lists.discover(&mut heap, 0, RefKind::Soft, R1));
    let _ = lists.process_soft_weak_final_refs(&mut heap);
    // The same configuration under an ordinary cycle has the referent
    // cleared and the reference enqueued.
    assert_eq!(heap.get_referent(R1), None);
    assert_eq!(heap.pending_to_vec(), vec![R1]);
}

#[test]
fn final_resurrection_then_enqueue() {
    let mut heap = Heap::new();
    heap.add_object(DEAD, RefKind::Weak, None, false);
    heap.add_object(R1, RefKind::Final, Some(DEAD), true);
    let mut lists = DiscoveredLists::new(1);
    assert!(lists.discover(&mut heap, 0, RefKind::Final, R1));
    let _ = lists.process_soft_weak_final_refs(&mut heap);
    // The Final reference survives the drain under collector ownership:
    // kept on its shard, referent untouched, nothing enqueued.
    assert_eq!(
        lists.get_by_rt_and_index(RefKind::Final, 0).head,
        Some(R1)
    );
    assert_eq!(heap.get_referent(R1), Some(DEAD));
    assert_eq!(heap.pending_to_vec(), Vec::<u64>::new());
    // The resurrection pass forwards the referent and enqueues the
    // reference exactly once.
    let _ = lists.resurrect_final_refs(&mut heap);
    assert_eq!(heap.pending_to_vec(), vec![R1]);
    assert_eq!(heap.get_referent(R1), Some(DEAD));
    assert!(heap.is_live(DEAD));
    assert!(lists.get_by_rt_and_index(RefKind::Final, 0).head.is_none());
    // A further pass finds nothing: the reference is never revisited.
    let _ = lists.resurrect_final_refs(&mut heap);
    assert_eq!(heap.pending_to_vec(), vec![R1]);
}

#[test]
fn idempotent_drain_leaves_shard_empty() {
    let mut heap = Heap::new();
    let mut lists = DiscoveredLists::new(2);
    for i in 0..6u64 {
        let addr = 0x100 + 0x10 * i;
        heap.add_object(addr, RefKind::Weak, None, false);
        let r = 0x1000 + 0x10 * i;
        heap.add_object(r, RefKind::Weak, Some(addr), true);
        assert!(lists.discover(&mut heap, (i % 2) as usize, RefKind::Weak, r));
    }
    let _ = lists.process_soft_weak_final_refs(&mut heap);
    assert!(lists.get_by_rt_and_index(RefKind::Weak, 0).head.is_none());
    assert!(lists.get_by_rt_and_index(RefKind::Weak, 1).head.is_none());
    // every discovered reference was visited exactly once: all six were
    // cleared and enqueued, no duplicates
    let mut pending = heap.pending_to_vec();
    assert_eq!(pending.len(), 6);
    pending.sort();
    pending.dedup();
    assert_eq!(pending.len(), 6);
}

#[test]
fn discovery_guards() {
    let mut heap = Heap::new();
    heap.add_object(A_NEW, RefKind::Weak, None, true);
    heap.add_object(R1, RefKind::Weak, Some(A_NEW), true);
    heap.add_object(R2, RefKind::Weak, None, true);
    let mut lists = DiscoveredLists::new(1);
    // a null referent is never discovered
    assert!(!lists.discover(&mut heap, 0, RefKind::Weak, R2));
    // an object is discoverable at most once per cycle
    assert!(lists.discover(&mut heap, 0, RefKind::Weak, R1));
    assert!(!lists.discover(&mut heap, 0, RefKind::Weak, R1));
    // discovery is refused while the flag is down, and permitted again
    // after it is re-enabled
    let _ = lists.process_soft_weak_final_refs(&mut heap);
    assert!(!lists.allow_discover());
    heap.add_object(0x6000, RefKind::Weak, Some(A_NEW), true);
    assert!(!lists.discover(&mut heap, 0, RefKind::Weak, 0x6000));
    lists.enable_discover();
    assert!(lists.discover(&mut heap, 0, RefKind::Weak, 0x6000));
}

#[test]
fn pending_queue_splice_order() {
    // two drains splice in turn; the newer sublist ends up in front
    let mut heap = Heap::new();
    heap.add_object(DEAD, RefKind::Weak, None, false);
    heap.add_object(R1, RefKind::Weak, Some(DEAD), true);
    heap.add_object(R2, RefKind::Phantom, Some(DEAD), true);
    let mut lists = DiscoveredLists::new(1);
    assert!(lists.discover(&mut heap, 0, RefKind::Weak, R1));
    assert!(lists.discover(&mut heap, 0, RefKind::Phantom, R2));
    let _ = lists.process_soft_weak_final_refs(&mut heap);
    assert_eq!(heap.pending_to_vec(), vec![R1]);
    let _ = lists.process_phantom_refs(&mut heap);
    assert_eq!(heap.pending_to_vec(), vec![R2, R1]);
}

#[test]
fn reference_glue_accessors() {
    let mut heap = Heap::new();
    heap.add_object(R1, RefKind::Weak, None, true);
    VMReferenceGlue::set_referent(&mut heap, R1, Some(A_NEW));
    assert_eq!(VMReferenceGlue::get_referent(&heap, R1), Some(A_NEW));
    VMReferenceGlue::set_referent(&mut heap, R1, None);
    assert_eq!(VMReferenceGlue::get_referent(&heap, R1), None);
}

#[test]
fn discovery_links_form_self_loop_sentinel() {
    let mut heap = Heap::new();
    heap.add_object(A_NEW, RefKind::Weak, None, true);
    heap.add_object(R1, RefKind::Weak, Some(A_NEW), true);
    heap.add_object(R2, RefKind::Weak, Some(A_NEW), true);
    let mut lists = DiscoveredLists::new(1);
    assert!(lists.discover(&mut heap, 0, RefKind::Weak, R1));
    // a single node links to itself
    assert_eq!(heap.get_discovered(R1), Some(R1));
    assert!(lists.discover(&mut heap, 0, RefKind::Weak, R2));
    // the new head links to the previous head
    assert_eq!(heap.get_discovered(R2), Some(R1));
    assert_eq!(lists.get_by_rt_and_index(RefKind::Weak, 0).head, Some(R2));
}
