use mmtk_openjdk::collection::{GCThreadContext, VMCollection};
use mmtk_openjdk::gc_work::{
    record_roots, register_code_cache_roots, report_slots_and_renew_buffer, RootsWorkFactory,
    ScanCodeCacheRoots,
};
use mmtk_openjdk::object_model::VMObjectModel;
use mmtk_openjdk::object_scanning::scan_objects_and_create_edges_work;
use mmtk_openjdk::scanning::{RootScanTask, VMScanning};
use mmtk_openjdk::slots::{
    compress, decompress, enable_compressed_oops, initialize_compressed_oops_base_and_shift,
    use_compressed_oops, CompressedOops, OpenJDKSlot, OpenJDKSlotRange, SlotMemory,
};
use mmtk_openjdk::table::Table;

fn large_heap_cfg() -> CompressedOops {
    let mut cfg = CompressedOops::new();
    enable_compressed_oops(&mut cfg);
    // a heap beyond 32 GiB: base-plus-shift tier
    initialize_compressed_oops_base_and_shift(&mut cfg, 0x10_0000, 0x10_0000_0000);
    cfg
}

#[test]
fn compressed_oops_tiers() {
    let mut cfg = CompressedOops::new();
    assert!(!use_compressed_oops(&cfg));
    enable_compressed_oops(&mut cfg);
    assert!(use_compressed_oops(&cfg));
    initialize_compressed_oops_base_and_shift(&mut cfg, 0x10_0000, 0x8000_0000);
    assert_eq!((cfg.base, cfg.shift), (0, 0));
    initialize_compressed_oops_base_and_shift(&mut cfg, 0x10_0000, 0x4_0000_0000);
    assert_eq!((cfg.base, cfg.shift), (0, 3));
    initialize_compressed_oops_base_and_shift(&mut cfg, 0x10_0000, 0x10_0000_0000);
    assert_eq!((cfg.base, cfg.shift), (0x10_0000 - 4096, 3));
}

#[test]
fn encoding_round_trip() {
    let cfg = large_heap_cfg();
    assert_eq!(compress(&cfg, None), 0);
    assert_eq!(decompress(&cfg, 0), None);
    for k in 1..100u64 {
        let r = cfg.base + 8 * k;
        let c = compress(&cfg, Some(r));
        assert_ne!(c, 0);
        assert_eq!(decompress(&cfg, c), Some(r));
    }
    // exact encoded value: offset shifted right by three
    let r = cfg.base + 0x100;
    assert_eq!(compress(&cfg, Some(r)), 0x20);
}

#[test]
fn slot_load_store() {
    let cfg = large_heap_cfg();
    let mut mem = SlotMemory::new();
    let r = cfg.base + 0x4000;
    // an untagged slot under compression stores the 32-bit encoding
    let slot = OpenJDKSlot::from_address(0x9000);
    assert!(slot.is_compressed());
    slot.store(&mut mem, &cfg, Some(r));
    assert_eq!(mem.read(0x9000), (0x4000u64 >> 3));
    assert_eq!(slot.load(&mem, &cfg), Some(r));
    slot.store_null(&mut mem, &cfg);
    assert_eq!(slot.load(&mem, &cfg), None);
    // a tagged root slot stores the full-width reference
    let tagged = OpenJDKSlot::from_address(0x9100 | 0x8000_0000_0000_0000);
    assert!(!tagged.is_compressed());
    assert_eq!(tagged.untagged_address(), 0x9100);
    tagged.store(&mut mem, &cfg, Some(r));
    assert_eq!(mem.read(0x9100), r);
    assert_eq!(tagged.load(&mem, &cfg), Some(r));
}

#[test]
fn slot_compare_exchange() {
    let cfg = large_heap_cfg();
    let mut mem = SlotMemory::new();
    let a = cfg.base + 0x1000;
    let b = cfg.base + 0x2000;
    let slot = OpenJDKSlot::from_address(0x9000);
    slot.store(&mut mem, &cfg, Some(a));
    // failed exchange returns the current value and leaves it in place
    assert_eq!(slot.compare_exchange(&mut mem, &cfg, Some(b), None), Err(Some(a)));
    assert_eq!(slot.load(&mem, &cfg), Some(a));
    // successful exchange installs the new value
    assert_eq!(slot.compare_exchange(&mut mem, &cfg, Some(a), Some(b)), Ok(Some(a)));
    assert_eq!(slot.load(&mem, &cfg), Some(b));
}

#[test]
fn slot_ranges_and_copy() {
    let cfg = large_heap_cfg();
    let range = OpenJDKSlotRange::from(0x1000, 0x1010);
    assert_eq!(range.len(&cfg), 4);
    assert_eq!(range.bytes(), 0x10);
    assert_eq!(range.get(1, &cfg).addr, 0x1004);
    assert_eq!(range.object(), None);
    let mut it = range.iter_slots(&cfg);
    assert_eq!(it.next().map(|s| s.addr), Some(0x1000));
    assert_eq!(it.next().map(|s| s.addr), Some(0x1004));
    let mut chunks = range.chunks(2, &cfg);
    let c1 = chunks.next().unwrap();
    assert_eq!((c1.start, c1.end), (0x1000, 0x1008));
    let c2 = chunks.next().unwrap();
    assert_eq!((c2.start, c2.end), (0x1008, 0x1010));
    assert!(chunks.next().is_none());
    // raw copy between disjoint ranges
    let mut mem = SlotMemory::new();
    for i in 0..4u64 {
        range.get(i, &cfg).store(&mut mem, &cfg, Some(cfg.base + 8 * (i + 1)));
    }
    let tgt = OpenJDKSlotRange::from(0x2000, 0x2010);
    OpenJDKSlotRange::copy(&range, &tgt, &mut mem, &cfg);
    for i in 0..4u64 {
        assert_eq!(tgt.get(i, &cfg).load(&mem, &cfg), Some(cfg.base + 8 * (i + 1)));
    }
}

#[test]
fn batch_flushing_two_and_a_half_buffers() {
    // an enumerator yielding exactly 2.5 times the batch capacity produces
    // exactly three flushed batches: two full, one partial
    let mut nursery: Table<Vec<u64>> = Table::new();
    let mut mature: Table<Vec<u64>> = Table::new();
    let roots: Vec<u64> = (1..=10).map(|i| 0x100 * i).collect();
    register_code_cache_roots(&mut nursery, 0xC0DE, roots.clone());
    let mut task = ScanCodeCacheRoots::new(RootsWorkFactory::new(4));
    task.do_work(&mut mature, &mut nursery);
    let batches = &task.factory.batches;
    assert_eq!(batches.len(), 3);
    assert_eq!(batches[0].len(), 4);
    assert_eq!(batches[1].len(), 4);
    assert_eq!(batches[2].len(), 2);
    let flat: Vec<u64> = batches.iter().flatten().copied().collect();
    assert_eq!(flat, roots);
    // the nursery was merged into the mature table and emptied
    assert_eq!(nursery.len(), 0);
    assert_eq!(mature.get(0xC0DE), Some(&roots));
}

#[test]
fn code_cache_incremental_merge() {
    let mut nursery: Table<Vec<u64>> = Table::new();
    let mut mature: Table<Vec<u64>> = Table::new();
    register_code_cache_roots(&mut nursery, 0x10, vec![1, 2]);
    let mut task = ScanCodeCacheRoots::new(RootsWorkFactory::new(8));
    task.do_work(&mut mature, &mut nursery);
    // a later cycle scans the merged mature roots plus the new nursery delta
    register_code_cache_roots(&mut nursery, 0x20, vec![3]);
    let mut task2 = ScanCodeCacheRoots::new(RootsWorkFactory::new(8));
    task2.do_work(&mut mature, &mut nursery);
    let flat: Vec<u64> = task2.factory.batches.iter().flatten().copied().collect();
    assert_eq!(flat, vec![1, 2, 3]);
    assert_eq!(mature.len(), 2);
}

#[test]
fn buffer_renewal_protocol() {
    let mut factory = RootsWorkFactory::new(4);
    let fresh = report_slots_and_renew_buffer(&mut factory, Some(vec![1, 2, 3, 4]));
    assert_eq!(fresh.buf.len(), 0);
    assert_eq!(fresh.capacity, 4);
    assert_eq!(factory.batches.len(), 1);
    let fresh2 = report_slots_and_renew_buffer(&mut factory, None);
    assert_eq!(fresh2.capacity, 4);
    assert_eq!(factory.batches.len(), 1);
    let mut count = 0usize;
    record_roots(&mut count, 4);
    record_roots(&mut count, 3);
    assert_eq!(count, 7);
}

#[test]
fn object_scanning_batches() {
    let mut layout: Table<Vec<u64>> = Table::new();
    layout.set(0x100, vec![10, 11, 12]);
    layout.set(0x200, vec![13, 14]);
    let objects = vec![0x100, 0x200];
    let out = scan_objects_and_create_edges_work(&layout, &objects, RootsWorkFactory::new(2));
    let flat: Vec<u64> = out.batches.iter().flatten().copied().collect();
    assert_eq!(flat, vec![10, 11, 12, 13, 14]);
    assert!(out.batches.iter().all(|b| b.len() <= 2));
}

#[test]
fn vm_specific_root_tasks() {
    let w = VMScanning::scan_vm_specific_roots(false, 2);
    assert_eq!(w.len(), 10);
    assert_eq!(w[0], RootScanTask::Universe);
    assert_eq!(w[7], RootScanTask::CodeCache);
    assert_eq!(w[8], RootScanTask::ClassLoaderDataGraph);
    assert_eq!(w[9], RootScanTask::VmThreads);
    let w2 = VMScanning::scan_vm_specific_roots(true, 2);
    assert_eq!(w2.len(), 13);
    assert_eq!(w2[9], RootScanTask::StringTable);
    assert_eq!(w2[10], RootScanTask::StringTable);
    assert_eq!(w2[11], RootScanTask::WeakProcessor);
    assert_eq!(w2[12], RootScanTask::VmThreads);
    assert!(!VMScanning::supports_return_barrier());
}

#[test]
fn object_model_addresses() {
    assert_eq!(VMObjectModel::ref_to_object_start(0x4242), 0x4242);
    assert_eq!(VMObjectModel::ref_to_address(0x4242), 0x4242);
    assert_eq!(VMObjectModel::ref_to_header(0x4242), 0x4242);
    assert_eq!(VMObjectModel::address_to_ref(0x4242), 0x4242);
    assert_eq!(VMObjectModel::get_reference_when_copied_to(0x1, 0x2), 0x2);
    assert_eq!(VMObjectModel::get_align_when_copied(0x1), 8);
    assert_eq!(VMObjectModel::get_align_offset_when_copied(0x1), 0);
    assert_eq!(VMObjectModel::copy_to_region_end(0x1000, 0x20), 0x1020);
}

#[test]
fn collection_thread_kinds() {
    assert!(!VMCollection::coordinator_only_stw());
    assert_eq!(
        VMCollection::spawn_gc_thread_kind(&GCThreadContext::Controller),
        0
    );
    assert_eq!(VMCollection::spawn_gc_thread_kind(&GCThreadContext::Worker), 1);
}

#[test]
fn table_basics() {
    let mut t: Table<u64> = Table::new();
    assert_eq!(t.len(), 0);
    t.set(5, 50);
    t.set(7, 70);
    t.set(5, 51);
    assert_eq!(t.len(), 2);
    assert_eq!(t.get(5), Some(&51));
    assert_eq!(t.get(7), Some(&70));
    assert_eq!(t.get(9), None);
}
