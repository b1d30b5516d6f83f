//! The slot abstraction: typed accessors over memory locations that hold
//! object references, in either a direct or a tag-compressed encoding.
//!
//! A compressed slot stores a 32-bit offset-encoded reference; the base and
//! shift of that encoding are chosen once from the heap layout, tiered by
//! heap size.  Object fields follow the globally chosen mode, while root
//! locations carry a tag in the highest bit of the slot address because roots
//! are supplied externally and need not come from compressible storage: a
//! slot whose tag bit is clear is compressed (when compression is enabled at
//! all), a slot whose tag bit is set holds a full-width reference.

use crate::table::Table;
use vstd::arithmetic::div_mod::lemma_fundamental_div_mod;
use vstd::arithmetic::mul::lemma_mul_inequality;
use vstd::prelude::*;

verus! {

/// The tag bit of a slot address: set for full-width root slots.
pub const SLOT_TAG_MASK: u64 = 0x8000_0000_0000_0000;

/// The compressed-pointer configuration, written once while the heap layout
/// is chosen and read-only afterwards.
pub struct CompressedOops {
    /// Whether compressed pointers are in use at all.
    pub enabled: bool,
    /// The base address subtracted before shifting.
    pub base: u64,
    /// The shift applied to heap offsets; zero or three.
    pub shift: u64,
}

impl CompressedOops {
    /// The configuration never shifts by more than three and never produces
    /// offsets that overflow when decoded.
    pub open spec fn wf(self) -> bool {
        &&& self.shift <= 3
        &&& self.base + ((u32::MAX as u64) << self.shift) <= u64::MAX
    }

    /// Compression disabled, identity layout.
    pub fn new() -> (r: Self)
        ensures
            r.wf(),
            !r.enabled,
            r.base == 0,
            r.shift == 0,
    {
        proof {
            assert((u32::MAX as u64) << 0u64 == u32::MAX as u64) by (bit_vector);
        }
        CompressedOops { enabled: false, base: 0, shift: 0 }
    }
}

/// Whether `r` is a reference the compressed encoding can represent exactly:
/// inside the configured heap range, aligned to the encoding granule, and
/// distinct from the null encoding.
pub open spec fn valid_oop(cfg: CompressedOops, r: u64) -> bool {
    &&& r > cfg.base
    &&& (r - cfg.base) as u64 % (1u64 << cfg.shift) == 0
    &&& (r - cfg.base) as u64 <= (u32::MAX as u64) << cfg.shift
}

/// The compressed form of a reference: its heap offset, shifted.
pub open spec fn spec_compress(cfg: CompressedOops, o: Option<u64>) -> u32 {
    match o {
        None => 0u32,
        Some(r) => (((r - cfg.base) as u64) >> cfg.shift) as u32,
    }
}

/// The reference a compressed value decodes to.
pub open spec fn spec_decompress(cfg: CompressedOops, v: u32) -> Option<u64> {
    if v == 0 {
        None
    } else {
        Some((cfg.base + ((v as u64) << cfg.shift)) as u64)
    }
}

/// Decoding inverts encoding on every valid reference, and null maps to the
/// zero encoding and back.
///
/// Law: for all references within the configured heap range,
/// `decompress(compress(r)) == r`; `compress(null) == 0`; and
/// `decompress(0) == null`.
pub proof fn lemma_encoding_round_trip(cfg: CompressedOops, r: u64)
    requires
        cfg.wf(),
        valid_oop(cfg, r),
    ensures
        spec_compress(cfg, Some(r)) != 0,
        spec_decompress(cfg, spec_compress(cfg, Some(r))) == Some(r),
        spec_compress(cfg, None) == 0,
        spec_decompress(cfg, 0) == None::<u64>,
{
    let s = cfg.shift;
    let off = (r - cfg.base) as u64;
    assert(off > 0);
    assert(off >> s <= u32::MAX && off >> s > 0 && ((off >> s) << s) == off) by (bit_vector)
        requires
            s <= 3,
            off > 0,
            off % (1u64 << s) == 0,
            off <= (u32::MAX as u64) << s,
    ;
    let c = (off >> s) as u32;
    assert(c != 0);
    assert((c as u64) << s == off) by (bit_vector)
        requires
            c == (off >> s) as u32,
            off >> s <= u32::MAX,
            ((off >> s) << s) == off,
            s <= 3,
    ;
}

/// Record that compressed pointers are in use.  Chosen at most once, while
/// the heap is initialized.
pub fn enable_compressed_oops(cfg: &mut CompressedOops)
    requires
        !old(cfg).enabled,
    ensures
        final(cfg).enabled,
        final(cfg).base == old(cfg).base,
        final(cfg).shift == old(cfg).shift,
{
    cfg.enabled = true;
}

/// Whether compressed pointers are in use.
pub fn use_compressed_oops(cfg: &CompressedOops) -> (r: bool)
    ensures
        r == cfg.enabled,
{
    cfg.enabled
}

/// Choose the compressed-pointer base and shift from the heap range, tiered
/// by heap size: identity mapping when the whole heap sits under 4 GiB,
/// shift-only under 32 GiB, and base-plus-shift beyond that.  The base sits
/// one page below the heap start so that the null encoding never collides
/// with a real heap address.
pub fn initialize_compressed_oops_base_and_shift(
    cfg: &mut CompressedOops,
    heap_start: u64,
    heap_end: u64,
)
    requires
        4096 <= heap_start <= heap_end,
        heap_end <= 0x4000_0000_0000_0000,
    ensures
        final(cfg).wf(),
        final(cfg).enabled == old(cfg).enabled,
        heap_end <= 0x1_0000_0000u64 ==> final(cfg).base == 0 && final(cfg).shift == 0,
        0x1_0000_0000u64 < heap_end <= 0x8_0000_0000u64 ==> final(cfg).base == 0 && final(cfg).shift == 3,
        heap_end > 0x8_0000_0000u64 ==> final(cfg).base == heap_start - 4096 && final(cfg).shift == 3,
{
    if heap_end <= 0x1_0000_0000u64 {
        cfg.base = 0;
        cfg.shift = 0;
    } else if heap_end <= 0x8_0000_0000u64 {
        cfg.base = 0;
        cfg.shift = 3;
    } else {
        cfg.base = heap_start - 4096;
        cfg.shift = 3;
    }
    proof {
        let b = cfg.base;
        let s = cfg.shift;
        assert(b + ((u32::MAX as u64) << s) <= u64::MAX) by (bit_vector)
            requires
                s <= 3,
                b <= 0x4000_0000_0000_0000,
        ;
    }
}

/// Encode an object reference, or null, into its 32-bit compressed form.
pub fn compress(cfg: &CompressedOops, o: Option<u64>) -> (r: u32)
    requires
        cfg.wf(),
        o is Some ==> valid_oop(*cfg, o->0),
    ensures
        r == spec_compress(*cfg, o),
        r == 0 <==> o is None,
{
    match o {
        None => 0,
        Some(x) => {
            proof {
                lemma_encoding_round_trip(*cfg, x);
            }
            let off = x - cfg.base;
            proof {
                let s = cfg.shift;
                assert(off >> s <= u32::MAX) by (bit_vector)
                    requires
                        s <= 3,
                        off % (1u64 << s) == 0,
                        off <= (u32::MAX as u64) << s,
                ;
            }
            #[verifier::truncate]
            let r = (off >> cfg.shift) as u32;
            r
        },
    }
}

/// Decode a 32-bit compressed value back into an object reference, or null.
pub fn decompress(cfg: &CompressedOops, v: u32) -> (r: Option<u64>)
    requires
        cfg.wf(),
    ensures
        r == spec_decompress(*cfg, v),
        r is None <==> v == 0,
{
    if v == 0 {
        None
    } else {
        proof {
            let s = cfg.shift;
            assert((v as u64) << s <= (u32::MAX as u64) << s) by (bit_vector)
                requires
                    s <= 3,
            ;
        }
        Some(cfg.base + ((v as u64) << cfg.shift))
    }
}


/// The number of bytes a field slot occupies under the configuration.
pub fn bytes_in_slot(cfg: &CompressedOops) -> (r: u64)
    ensures
        r == spec_bytes_in_slot(*cfg),
{
    if cfg.enabled {
        4
    } else {
        8
    }
}

/// Slot width in bytes: four when compressed, a full word otherwise.
pub open spec fn spec_bytes_in_slot(cfg: CompressedOops) -> u64 {
    if cfg.enabled {
        4u64
    } else {
        8u64
    }
}

/// The modelled slot store: the raw value held at each slot location.  A
/// compressed location holds a 32-bit encoding, a direct location a full
/// word; absent locations are outside the modelled memory.
pub struct SlotMemory {
    /// Raw value per slot location, keyed by untagged slot address.
    pub cells: Table<u64>,
}

impl View for SlotMemory {
    type V = Map<u64, u64>;

    open spec fn view(&self) -> Map<u64, u64> {
        self.cells@
    }
}

impl SlotMemory {
    /// Keys are unique and nonzero.
    pub open spec fn wf(self) -> bool {
        self.cells.wf()
    }

    /// An empty slot store.
    pub fn new() -> (r: Self)
        ensures
            r.wf(),
            r@ == Map::<u64, u64>::empty(),
    {
        SlotMemory { cells: Table::new() }
    }

    /// Read the raw value at `a`.
    pub fn read(&self, a: u64) -> (v: u64)
        requires
            self.wf(),
            self@.dom().contains(a),
        ensures
            v == self@[a],
    {
        match self.cells.get(a) {
            Some(v) => *v,
            None => 0,
        }
    }

    /// Write the raw value `v` at `a`.
    pub fn write(&mut self, a: u64, v: u64)
        requires
            old(self).wf(),
            a != 0,
        ensures
            final(self).wf(),
            final(self)@ == old(self)@.insert(a, v),
    {
        self.cells.set(a, v);
    }
}

/// A slot of the OpenJDK heap: an address, possibly carrying the root tag
/// in its highest bit.
#[derive(Clone, Copy, PartialEq, Eq, Structural)]
pub struct OpenJDKSlot {
    /// The raw, possibly tagged, slot address.
    pub addr: u64,
}

impl OpenJDKSlot {
    /// Whether the tag marks this location as holding a compressed value.
    pub open spec fn is_compressed_spec(self) -> bool {
        self.addr & SLOT_TAG_MASK == 0
    }

    /// The slot address with the tag stripped.
    pub open spec fn untagged_spec(self) -> u64 {
        self.addr & 0x7fff_ffff_ffff_ffff
    }

    /// Whether loads and stores through this slot use the compressed width.
    pub open spec fn mode_compressed(self, cfg: CompressedOops) -> bool {
        cfg.enabled && self.is_compressed_spec()
    }

    /// The logical reference a raw cell value decodes to through this slot.
    pub open spec fn spec_decode(self, cfg: CompressedOops, raw: u64) -> Option<u64> {
        if self.mode_compressed(cfg) {
            spec_decompress(cfg, raw as u32)
        } else if raw == 0 {
            None
        } else {
            Some(raw)
        }
    }

    /// The raw cell value a logical reference encodes to through this slot.
    pub open spec fn spec_encode(self, cfg: CompressedOops, o: Option<u64>) -> u64 {
        if self.mode_compressed(cfg) {
            spec_compress(cfg, o) as u64
        } else {
            match o {
                None => 0u64,
                Some(x) => x,
            }
        }
    }

    /// A reference value this slot can faithfully store and read back.
    pub open spec fn storable(self, cfg: CompressedOops, o: Option<u64>) -> bool {
        match o {
            None => true,
            Some(x) => x != 0 && (self.mode_compressed(cfg) ==> valid_oop(cfg, x)),
        }
    }

    /// Decoding inverts encoding for every storable value.
    pub proof fn lemma_slot_round_trip(self, cfg: CompressedOops, o: Option<u64>)
        requires
            cfg.wf(),
            self.storable(cfg, o),
        ensures
            self.spec_decode(cfg, self.spec_encode(cfg, o)) == o,
            self.spec_encode(cfg, o) <= u64::MAX,
            self.mode_compressed(cfg) ==> self.spec_encode(cfg, o) <= u32::MAX,
    {
        if self.mode_compressed(cfg) {
            match o {
                None => {},
                Some(x) => {
                    lemma_encoding_round_trip(cfg, x);
                    let enc = spec_compress(cfg, o);
                    assert((enc as u64) as u32 == enc) by (bit_vector);
                },
            }
        }
    }

    /// Make a slot from a raw, possibly tagged, address.
    pub fn from_address(a: u64) -> (r: Self)
        ensures
            r.addr == a,
    {
        OpenJDKSlot { addr: a }
    }

    /// Whether the tag marks this location as holding a compressed value.
    pub fn is_compressed(&self) -> (r: bool)
        ensures
            r == self.is_compressed_spec(),
    {
        self.addr & SLOT_TAG_MASK == 0
    }

    /// The slot address with the tag stripped.
    pub fn untagged_address(&self) -> (r: u64)
        ensures
            r == self.untagged_spec(),
    {
        let a = self.addr;
        proof {
            assert((a << 1u64) >> 1u64 == a & 0x7fff_ffff_ffff_ffff) by (bit_vector);
        }
        (a << 1) >> 1
    }

    /// The untagged address, as the canonical location of the slot.
    pub fn to_address(&self) -> (r: u64)
        ensures
            r == self.untagged_spec(),
    {
        self.untagged_address()
    }

    /// The raw address, tag included.
    pub fn raw_address(&self) -> (r: u64)
        ensures
            r == self.addr,
    {
        self.addr
    }

    /// Load the reference held in this slot, decoding the stored raw value
    /// at the slot's own width.
    pub fn load(&self, mem: &SlotMemory, cfg: &CompressedOops) -> (r: Option<u64>)
        requires
            mem.wf(),
            cfg.wf(),
            mem@.dom().contains(self.untagged_spec()),
            self.mode_compressed(*cfg) ==> mem@[self.untagged_spec()] <= u32::MAX,
        ensures
            r == self.spec_decode(*cfg, mem@[self.untagged_spec()]),
    {
        let a = self.untagged_address();
        let raw = mem.read(a);
        if cfg.enabled && self.is_compressed() {
            proof {
                assert(raw <= u32::MAX ==> (raw as u32) as u64 == raw) by (bit_vector);
            }
            #[verifier::truncate]
            let v = raw as u32;
            decompress(cfg, v)
        } else if raw == 0 {
            None
        } else {
            Some(raw)
        }
    }

    /// Store a reference, or null, into this slot at the slot's own width.
    pub fn store(&self, mem: &mut SlotMemory, cfg: &CompressedOops, object: Option<u64>)
        requires
            old(mem).wf(),
            cfg.wf(),
            self.untagged_spec() != 0,
            self.storable(*cfg, object),
        ensures
            final(mem).wf(),
            final(mem)@ == old(mem)@.insert(self.untagged_spec(), self.spec_encode(*cfg, object)),
            self.spec_decode(*cfg, self.spec_encode(*cfg, object)) == object,
            self.mode_compressed(*cfg) ==> self.spec_encode(*cfg, object) <= u32::MAX,
    {
        proof {
            self.lemma_slot_round_trip(*cfg, object);
        }
        let a = self.untagged_address();
        if cfg.enabled && self.is_compressed() {
            let enc = compress(cfg, object);
            mem.write(a, enc as u64);
        } else {
            match object {
                None => mem.write(a, 0),
                Some(x) => mem.write(a, x),
            }
        }
    }

    /// Store a null reference in the slot.
    pub fn store_null(&self, mem: &mut SlotMemory, cfg: &CompressedOops)
        requires
            old(mem).wf(),
            cfg.wf(),
            self.untagged_spec() != 0,
        ensures
            final(mem).wf(),
            final(mem)@ == old(mem)@.insert(self.untagged_spec(), self.spec_encode(*cfg, None)),
            self.spec_decode(*cfg, self.spec_encode(*cfg, None)) is None,
    {
        self.store(mem, cfg, None)
    }

    /// Atomically replace the slot's reference when it still holds
    /// `old_object`: the comparison happens at the slot's encoded width, and
    /// the returned previous value is decoded back into a logical reference.
    pub fn compare_exchange(
        &self,
        mem: &mut SlotMemory,
        cfg: &CompressedOops,
        old_object: Option<u64>,
        new_object: Option<u64>,
    ) -> (r: Result<Option<u64>, Option<u64>>)
        requires
            old(mem).wf(),
            cfg.wf(),
            self.untagged_spec() != 0,
            old(mem)@.dom().contains(self.untagged_spec()),
            self.mode_compressed(*cfg) ==> old(mem)@[self.untagged_spec()] <= u32::MAX,
            self.storable(*cfg, old_object),
            self.storable(*cfg, new_object),
        ensures
            final(mem).wf(),
            ({
                let cur = self.spec_decode(*cfg, old(mem)@[self.untagged_spec()]);
                if cur == old_object {
                    r == Ok::<Option<u64>, Option<u64>>(cur) && final(mem)@ == old(mem)@.insert(
                        self.untagged_spec(),
                        self.spec_encode(*cfg, new_object),
                    )
                } else {
                    r == Err::<Option<u64>, Option<u64>>(cur) && final(mem)@ == old(mem)@
                }
            }),
    {
        proof {
            self.lemma_slot_round_trip(*cfg, old_object);
            self.lemma_slot_round_trip(*cfg, new_object);
        }
        let a = self.untagged_address();
        let raw = mem.read(a);
        if cfg.enabled && self.is_compressed() {
            proof {
                assert(raw <= u32::MAX ==> (raw as u32) as u64 == raw) by (bit_vector);
            }
            #[verifier::truncate]
            let cur32 = raw as u32;
            let expect32 = compress(cfg, old_object);
            proof {
                lemma_decompress_then_compress(*cfg, cur32);
            }
            if cur32 == expect32 {
                let new32 = compress(cfg, new_object);
                mem.write(a, new32 as u64);
                Ok(decompress(cfg, cur32))
            } else {
                Err(decompress(cfg, cur32))
            }
        } else {
            let expect_raw = match old_object {
                None => 0u64,
                Some(x) => x,
            };
            if raw == expect_raw {
                match new_object {
                    None => mem.write(a, 0),
                    Some(x) => mem.write(a, x),
                }
                if raw == 0 {
                    Ok(None)
                } else {
                    Ok(Some(raw))
                }
            } else {
                if raw == 0 {
                    Err(None)
                } else {
                    Err(Some(raw))
                }
            }
        }
    }
}

/// Encoding inverts decoding: every 32-bit value is the encoding of the
/// reference it decodes to.
pub proof fn lemma_decompress_then_compress(cfg: CompressedOops, v: u32)
    requires
        cfg.wf(),
    ensures
        spec_compress(cfg, spec_decompress(cfg, v)) == v,
{
    if v != 0 {
        let s = cfg.shift;
        let b = cfg.base;
        let x = (v as u64) << s;
        assert(x <= (u32::MAX as u64) << s && ((x >> s) as u32) == v && x >> s == v) by (bit_vector)
            requires
                s <= 3,
                x == (v as u64) << s,
        ;
        assert(b + x <= u64::MAX);
        let r = (b + x) as u64;
        assert(r == b + x);
        assert(spec_decompress(cfg, v) == Some(r));
        assert(((r - b) as u64) == x);
        assert(spec_compress(cfg, Some(r)) == ((x >> s) as u32));
    }
}


/// A contiguous range of slots, usually the payload of a reference array.
/// The bounds are untagged addresses; every slot in the range follows the
/// globally chosen encoding mode.
#[derive(Clone, Copy, PartialEq, Eq, Structural)]
pub struct OpenJDKSlotRange {
    /// First slot address of the range.
    pub start: u64,
    /// One past the last byte of the range.
    pub end: u64,
}

/// Yields each slot of a range in address order.
pub struct OpenJDKSlotRangeIterator {
    /// The next slot address to yield.
    pub cursor: u64,
    /// One past the last byte of the range.
    pub limit: u64,
    /// The slot width in bytes.
    pub width: u64,
}

/// Yields a range's fixed-size chunks, the last one possibly shorter.
pub struct ChunkIterator {
    /// The start of the next chunk to yield.
    pub cursor: u64,
    /// One past the last byte of the range.
    pub limit: u64,
    /// The chunk width in bytes.
    pub step: u64,
}

impl OpenJDKSlotRange {
    /// Bounds are ordered and stay clear of the address extremes.
    pub open spec fn wf(self) -> bool {
        &&& 0 < self.start <= self.end
        &&& self.end <= u64::MAX - 8
    }

    /// The number of whole slots in the range.
    pub open spec fn spec_len(self, cfg: CompressedOops) -> u64 {
        (((self.end - self.start) as u64) / spec_bytes_in_slot(cfg)) as u64
    }

    /// The address of the range's `i`-th slot.
    pub open spec fn slot_addr(self, cfg: CompressedOops, i: u64) -> u64 {
        (self.start + i * spec_bytes_in_slot(cfg)) as u64
    }

    /// Every indexed slot lies inside the byte range.
    pub proof fn lemma_slot_addr_in_range(self, cfg: CompressedOops, i: u64)
        requires
            self.wf(),
            i < self.spec_len(cfg),
        ensures
            self.start + i * spec_bytes_in_slot(cfg) + spec_bytes_in_slot(cfg) <= self.end,
            self.slot_addr(cfg, i) == self.start + i * spec_bytes_in_slot(cfg),
            self.slot_addr(cfg, i) != 0,
    {
        let w = spec_bytes_in_slot(cfg) as int;
        let n = (self.end - self.start) as int;
        let q = n / w;
        lemma_fundamental_div_mod(n, w);
        lemma_mul_inequality(i as int + 1, q, w);
        assert((i as int + 1) * w == i as int * w + w) by (nonlinear_arith);
        assert(q * w <= n);
    }

    /// Build a range from its bounding addresses.
    pub fn from(start: u64, end: u64) -> (r: Self)
        requires
            0 < start <= end,
            end <= u64::MAX - 8,
        ensures
            r.start == start,
            r.end == end,
            r.wf(),
    {
        OpenJDKSlotRange { start, end }
    }

    /// Iterate the slots of the range.
    pub fn iter_slots(&self, cfg: &CompressedOops) -> (r: OpenJDKSlotRangeIterator)
        ensures
            r.cursor == self.start,
            r.limit == self.end,
            r.width == spec_bytes_in_slot(*cfg),
    {
        OpenJDKSlotRangeIterator { cursor: self.start, limit: self.end, width: bytes_in_slot(cfg) }
    }

    /// Split the range into chunks of `chunk_size` slots.
    pub fn chunks(&self, chunk_size: u64, cfg: &CompressedOops) -> (r: ChunkIterator)
        requires
            0 < chunk_size <= 0x1000_0000_0000_0000,
        ensures
            r.cursor == self.start,
            r.limit == self.end,
            r.step == chunk_size * spec_bytes_in_slot(*cfg),
            r.step > 0,
    {
        let w = bytes_in_slot(cfg);
        proof {
            assert(chunk_size * spec_bytes_in_slot(*cfg) <= 0x1000_0000_0000_0000 * 8int) by (
            nonlinear_arith)
                requires
                    0 < chunk_size <= 0x1000_0000_0000_0000,
                    spec_bytes_in_slot(*cfg) <= 8,
            ;
            assert(chunk_size * spec_bytes_in_slot(*cfg) > 0) by (nonlinear_arith)
                requires
                    chunk_size > 0,
                    spec_bytes_in_slot(*cfg) > 0,
            ;
        }
        ChunkIterator { cursor: self.start, limit: self.end, step: chunk_size * w }
    }

    /// The object owning this memory, when there is one.  Slot ranges stand
    /// alone, so there is none.
    pub fn object(&self) -> (r: Option<u64>)
        ensures
            r is None,
    {
        None
    }

    /// The first slot address.
    pub fn start(&self) -> (r: u64)
        ensures
            r == self.start,
    {
        self.start
    }

    /// The length of the range in bytes.
    pub fn bytes(&self) -> (r: u64)
        requires
            self.wf(),
        ensures
            r == self.end - self.start,
    {
        self.end - self.start
    }

    /// The number of whole slots in the range.
    pub fn len(&self, cfg: &CompressedOops) -> (r: u64)
        requires
            self.wf(),
        ensures
            r == self.spec_len(*cfg),
    {
        (self.end - self.start) / bytes_in_slot(cfg)
    }

    /// The `index`-th slot of the range.
    pub fn get(&self, index: u64, cfg: &CompressedOops) -> (r: OpenJDKSlot)
        requires
            self.wf(),
            index < self.spec_len(*cfg),
        ensures
            r.addr == self.slot_addr(*cfg, index),
    {
        proof {
            self.lemma_slot_addr_in_range(*cfg, index);
        }
        OpenJDKSlot { addr: self.start + index * bytes_in_slot(cfg) }
    }

    /// Copy the raw slot contents of `src` over those of `tgt`, at the
    /// encoded width, without decoding.
    pub fn copy(src: &Self, tgt: &Self, mem: &mut SlotMemory, cfg: &CompressedOops)
        requires
            old(mem).wf(),
            src.wf(),
            tgt.wf(),
            src.end - src.start == tgt.end - tgt.start,
            src.end <= tgt.start || tgt.end <= src.start,
            forall|i: u64|
                i < src.spec_len(*cfg) ==> old(mem)@.dom().contains(#[trigger] src.slot_addr(*cfg, i)),
        ensures
            final(mem).wf(),
            forall|i: u64|
                i < src.spec_len(*cfg) ==> final(mem)@.dom().contains(
                    #[trigger] tgt.slot_addr(*cfg, i),
                ) && final(mem)@[tgt.slot_addr(*cfg, i)] == old(mem)@[src.slot_addr(*cfg, i)],
            forall|a: u64|
                a < tgt.start || a >= tgt.end ==> (#[trigger] final(mem)@.dom().contains(a)) == old(
                    mem,
                )@.dom().contains(a) && (old(mem)@.dom().contains(a) ==> final(mem)@[a] == old(
                    mem,
                )@[a]),
    {
        let n = src.len(cfg);
        proof {
            assert(src.spec_len(*cfg) == tgt.spec_len(*cfg));
        }
        let mut i: u64 = 0;
        while i < n
            invariant
                mem.wf(),
                old(mem).wf(),
                src.wf(),
                tgt.wf(),
                src.end - src.start == tgt.end - tgt.start,
                src.end <= tgt.start || tgt.end <= src.start,
                n == src.spec_len(*cfg),
                n == tgt.spec_len(*cfg),
                0 <= i <= n,
                forall|j: u64|
                    j < n ==> old(mem)@.dom().contains(#[trigger] src.slot_addr(*cfg, j)),
                forall|j: u64|
                    j < i ==> mem@.dom().contains(#[trigger] tgt.slot_addr(*cfg, j)) && mem@[tgt.slot_addr(
                        *cfg,
                        j,
                    )] == old(mem)@[src.slot_addr(*cfg, j)],
                forall|a: u64|
                    a < tgt.start || a >= tgt.end ==> (#[trigger] mem@.dom().contains(a)) == old(
                        mem,
                    )@.dom().contains(a) && (old(mem)@.dom().contains(a) ==> mem@[a] == old(mem)@[a]),
            decreases n - i,
        {
            proof {
                src.lemma_slot_addr_in_range(*cfg, i);
                tgt.lemma_slot_addr_in_range(*cfg, i);
            }
            let sa = src.start + i * bytes_in_slot(cfg);
            let ta = tgt.start + i * bytes_in_slot(cfg);
            proof {
                assert(sa == src.slot_addr(*cfg, i));
                assert(ta == tgt.slot_addr(*cfg, i));
                assert(tgt.start <= ta < tgt.end);
                assert(src.start <= sa < src.end);
                assert(sa < tgt.start || sa >= tgt.end);
                assert(mem@.dom().contains(sa) == old(mem)@.dom().contains(sa));
            }
            let v = mem.read(sa);
            let ghost mem_mid = *mem;
            mem.write(ta, v);
            proof {
                assert(mem@ == mem_mid@.insert(ta, v));
                assert forall|a: u64| a < tgt.start || a >= tgt.end implies (
                #[trigger] mem@.dom().contains(a)) == old(mem)@.dom().contains(a) && (old(
                    mem,
                )@.dom().contains(a) ==> mem@[a] == old(mem)@[a]) by {
                    assert(a != ta);
                    assert(mem_mid@.dom().contains(a) == old(mem)@.dom().contains(a) && (old(
                        mem,
                    )@.dom().contains(a) ==> mem_mid@[a] == old(mem)@[a]));
                }
                assert forall|j: u64| j < i + 1 implies mem@.dom().contains(
                    #[trigger] tgt.slot_addr(*cfg, j),
                ) && mem@[tgt.slot_addr(*cfg, j)] == old(mem)@[src.slot_addr(*cfg, j)] by {
                    if j < i {
                        assert(mem_mid@.dom().contains(tgt.slot_addr(*cfg, j)) && mem_mid@[tgt.slot_addr(
                            *cfg,
                            j,
                        )] == old(mem)@[src.slot_addr(*cfg, j)]);
                        assert(tgt.slot_addr(*cfg, j) != ta) by {
                            tgt.lemma_slot_addr_in_range(*cfg, j);
                            assert(j as int * spec_bytes_in_slot(*cfg) < i as int * spec_bytes_in_slot(
                                *cfg,
                            )) by (nonlinear_arith)
                                requires
                                    j < i,
                                    spec_bytes_in_slot(*cfg) > 0,
                            ;
                        }
                    } else {
                        assert(mem@[ta] == v);
                    }
                }
            }
            i = i + 1;
        }
    }
}

impl OpenJDKSlotRangeIterator {
    /// The slot widths the iterator can step by.
    pub open spec fn wf(self) -> bool {
        &&& (self.width == 4 || self.width == 8)
        &&& self.limit <= u64::MAX - 8
    }

    /// The next slot of the range, stepping by the slot width.
    pub fn next(&mut self) -> (r: Option<OpenJDKSlot>)
        requires
            old(self).wf(),
        ensures
            final(self).wf(),
            final(self).limit == old(self).limit,
            final(self).width == old(self).width,
            old(self).cursor < old(self).limit ==> r == Some(
                OpenJDKSlot { addr: old(self).cursor },
            ) && final(self).cursor == old(self).cursor + old(self).width,
            old(self).cursor >= old(self).limit ==> r is None && final(self).cursor == old(
                self,
            ).cursor,
    {
        if self.cursor >= self.limit {
            None
        } else {
            let slot = self.cursor;
            self.cursor = self.cursor + self.width;
            Some(OpenJDKSlot { addr: slot })
        }
    }
}

impl ChunkIterator {
    /// The step is positive, so the iterator always advances.
    pub open spec fn wf(self) -> bool {
        self.step > 0
    }

    /// The next chunk: `step` bytes, clipped to the end of the range.
    pub fn next(&mut self) -> (r: Option<OpenJDKSlotRange>)
        requires
            old(self).wf(),
            0 < old(self).cursor,
            old(self).limit <= u64::MAX - 8,
        ensures
            final(self).wf(),
            final(self).limit == old(self).limit,
            final(self).step == old(self).step,
            old(self).cursor >= old(self).limit ==> r is None && final(self).cursor == old(
                self,
            ).cursor,
            old(self).cursor < old(self).limit ==> ({
                let end = if old(self).limit - old(self).cursor < old(self).step {
                    old(self).limit
                } else {
                    (old(self).cursor + old(self).step) as u64
                };
                r == Some(OpenJDKSlotRange { start: old(self).cursor, end })
                    && final(self).cursor == end && end > old(self).cursor
            }),
    {
        if self.cursor >= self.limit {
            None
        } else {
            let start = self.cursor;
            let end = if self.limit - self.cursor < self.step {
                self.limit
            } else {
                self.cursor + self.step
            };
            self.cursor = end;
            Some(OpenJDKSlotRange { start, end })
        }
    }
}

} // verus!
