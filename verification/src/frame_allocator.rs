//! A bitmap physical-frame allocator: one bit per 4 KiB frame, `0 = free`,
//! `1 = used`, covering the first 4 GiB of physical memory.
use vstd::prelude::*;
use crate::multiboot::MemoryRegion;

verus! {

/// The size of a physical frame, in bytes.
pub const FRAME_SIZE: u64 = 4096;
/// Highest physical address the bitmap tracks: 4 GiB.
pub const MAX_ADDRESS: u64 = 0x1_0000_0000;
/// Number of frames the bitmap covers.
pub const FRAME_COUNT: usize = 1048576;
/// Bitmap storage, as 64-bit words.
pub const BITMAP_WORDS: usize = 16384;

/// Whether bit `b` of word `w` is set.
pub open spec fn bit_of(w: u64, b: u64) -> bool {
    (w >> b) & 1u64 == 1u64
}

/// Number of `false` (free) entries of a sequence of used-flags.
pub open spec fn count_free(s: Seq<bool>) -> nat
    decreases s.len(),
{
    if s.len() == 0 {
        0
    } else {
        count_free(s.drop_last()) + if s.last() { 0nat } else { 1nat }
    }
}

/// There are no more free frames than frames.
pub proof fn lemma_count_free_bound(s: Seq<bool>)
    ensures
        count_free(s) <= s.len(),
    decreases s.len(),
{
    if s.len() > 0 {
        lemma_count_free_bound(s.drop_last());
    }
}

/// How setting one frame's state changes the free count.
pub proof fn lemma_count_free_update(s: Seq<bool>, i: int, v: bool)
    requires
        0 <= i < s.len(),
    ensures
        count_free(s.update(i, v)) + (if s[i] { 0int } else { 1int }) == count_free(s) + (if v {
            0int
        } else {
            1int
        }),
    decreases s.len(),
{
    let t = s.update(i, v);
    if i == s.len() - 1 {
        assert(t.drop_last() =~= s.drop_last());
    } else {
        lemma_count_free_update(s.drop_last(), i, v);
        assert(t.drop_last() =~= s.drop_last().update(i, v));
    }
}

proof fn lemma_set_bit(w: u64, b: u64, c: u64)
    requires
        b < 64,
        c < 64,
    ensures
        bit_of(w | (1u64 << b), c) == (b == c || bit_of(w, c)),
{
    assert(((w | (1u64 << b)) >> c) & 1u64 == 1u64 <==> (b == c || (w >> c) & 1u64 == 1u64))
        by (bit_vector)
        requires
            b < 64,
            c < 64,
    ;
}

proof fn lemma_clear_bit(w: u64, b: u64, c: u64)
    requires
        b < 64,
        c < 64,
    ensures
        bit_of(w & !(1u64 << b), c) == (b != c && bit_of(w, c)),
{
    assert(((w & !(1u64 << b)) >> c) & 1u64 == 1u64 <==> (b != c && (w >> c) & 1u64 == 1u64))
        by (bit_vector)
        requires
            b < 64,
            c < 64,
    ;
}

proof fn lemma_test_bit(w: u64, b: u64)
    requires
        b < 64,
    ensures
        (w & (1u64 << b) != 0) == bit_of(w, b),
{
    assert((w & (1u64 << b) != 0) == ((w >> b) & 1u64 == 1u64)) by (bit_vector)
        requires
            b < 64,
    ;
}

proof fn lemma_full_word(w: u64, c: u64)
    requires
        w == 0xffff_ffff_ffff_ffffu64,
        c < 64,
    ensures
        bit_of(w, c),
{
    assert((w >> c) & 1u64 == 1u64) by (bit_vector)
        requires
            w == 0xffff_ffff_ffff_ffffu64,
            c < 64,
    ;
}

/// A single 4 KiB physical frame, identified by its frame-aligned start address.
#[derive(Clone, Copy, PartialEq, Eq, Structural, Debug)]
pub struct PhysFrame(u64);

impl PhysFrame {
    /// The frame's start address.
    pub closed spec fn addr(self) -> u64 {
        self.0
    }

    /// The frame that contains `addr`, rounding down to the 4 KiB boundary.
    pub fn containing_address(addr: u64) -> (f: PhysFrame)
        ensures
            f.addr() == addr - addr % 4096,
            f.addr() % 4096 == 0,
    {
        let f = PhysFrame(addr & !(FRAME_SIZE - 1));
        assert(addr & !4095u64 == addr - addr % 4096) by (bit_vector);
        f
    }

    /// The frame's physical start address.
    pub fn start_address(&self) -> (a: u64)
        ensures
            a == self.addr(),
    {
        self.0
    }

    /// The frame's index into the bitmap: `address / 4096`.
    fn index(&self) -> (i: u64)
        ensures
            i == self.addr() / 4096,
    {
        self.0 / FRAME_SIZE
    }
}

/// The allocator: the bitmap plus a running count of the frames it marks free.
pub struct FrameAllocator {
    bitmap: Vec<u64>,
    free_frames: u64,
}

impl View for FrameAllocator {
    /// Entry `i` tells whether frame `i` is used.
    type V = Seq<bool>;

    closed spec fn view(&self) -> Seq<bool> {
        Seq::new(FRAME_COUNT as nat, |i: int| bit_of(self.bitmap@[i / 64], (i % 64) as u64))
    }
}

impl FrameAllocator {
    /// The counter of free frames the allocator keeps.
    pub closed spec fn free_count(&self) -> nat {
        self.free_frames as nat
    }

    /// Every bitmap word is present and the counter equals the number of free
    /// frames the bitmap records.
    pub closed spec fn wf(&self) -> bool {
        &&& self.bitmap@.len() == BITMAP_WORDS
        &&& self.free_frames == count_free(self@)
    }

    /// The view has one entry per physical frame the allocator manages.
    pub proof fn lemma_view_len(&self)
        ensures
            self@.len() == FRAME_COUNT,
    {
    }

    /// Holds for an allocator fresh from `new`: the shape is right and the
    /// counter is zero, ready for `init`.
    pub closed spec fn is_fresh(&self) -> bool {
        &&& self.bitmap@.len() == BITMAP_WORDS
        &&& self.free_frames == 0
    }

    /// A fresh allocator with an all-zero bitmap. Not usable until [`init`] has
    /// populated it from the memory map.
    pub fn new() -> (a: FrameAllocator)
        ensures
            a.is_fresh(),
            a.free_count() == 0,
            forall|i: int| 0 <= i < FRAME_COUNT ==> !#[trigger] a@[i],
    {
        let mut bitmap: Vec<u64> = Vec::new();
        let mut k: usize = 0;
        while k < BITMAP_WORDS
            invariant
                k <= BITMAP_WORDS,
                bitmap@.len() == k,
                forall|j: int| 0 <= j < k ==> bitmap@[j] == 0,
            decreases BITMAP_WORDS - k,
        {
            bitmap.push(0);
            k = k + 1;
        }
        let a = FrameAllocator { bitmap, free_frames: 0 };
        assert forall|i: int| 0 <= i < FRAME_COUNT implies !#[trigger] a@[i] by {
            let c = (i % 64) as u64;
            assert((0u64 >> c) & 1u64 == 0u64) by (bit_vector);
        }
        a
    }

    /// The number of frames the allocator considers free.
    pub fn free_frame_count(&self) -> (n: u64)
        ensures
            n == self.free_count(),
    {
        self.free_frames
    }

    /// Mark the single frame at `index` as used.
    fn set_used(&mut self, index: usize)
        requires
            old(self).bitmap@.len() == BITMAP_WORDS,
            index < FRAME_COUNT,
        ensures
            final(self).bitmap@.len() == BITMAP_WORDS,
            final(self)@ == old(self)@.update(index as int, true),
            final(self).free_frames == old(self).free_frames,
    {
        let w = index / 64;
        let b = (index % 64) as u64;
        let old_word = self.bitmap[w];
        self.bitmap.set(w, old_word | (1u64 << b));
        proof {
            assert forall|i: int| 0 <= i < FRAME_COUNT implies #[trigger] self@[i] == old(
                self,
            )@.update(index as int, true)[i] by {
                lemma_set_bit(old_word, b, (i % 64) as u64);
            }
            assert(self@ =~= old(self)@.update(index as int, true));
        }
    }

    /// Mark the single frame at `index` as free.
    fn set_free(&mut self, index: usize)
        requires
            old(self).bitmap@.len() == BITMAP_WORDS,
            index < FRAME_COUNT,
        ensures
            final(self).bitmap@.len() == BITMAP_WORDS,
            final(self)@ == old(self)@.update(index as int, false),
            final(self).free_frames == old(self).free_frames,
    {
        let w = index / 64;
        let b = (index % 64) as u64;
        let old_word = self.bitmap[w];
        self.bitmap.set(w, old_word & !(1u64 << b));
        proof {
            assert forall|i: int| 0 <= i < FRAME_COUNT implies #[trigger] self@[i] == old(
                self,
            )@.update(index as int, false)[i] by {
                lemma_clear_bit(old_word, b, (i % 64) as u64);
            }
            assert(self@ =~= old(self)@.update(index as int, false));
        }
    }

    /// Whether the frame at `index` is currently marked used.
    fn is_used(&self, index: usize) -> (u: bool)
        requires
            self.bitmap@.len() == BITMAP_WORDS,
            index < FRAME_COUNT,
        ensures
            u == self@[index as int],
    {
        let b = (index % 64) as u64;
        let w = self.bitmap[index / 64];
        proof {
            lemma_test_bit(w, b);
        }
        w & (1u64 << b) != 0
    }
}


/// Whether `reserve(start, end)` covers frame `i`: the frames overlapping
/// `[start, end)`, with the start rounded down and the end rounded up.
pub open spec fn reserve_covers(start: u64, end: u64, i: int) -> bool {
    &&& start < end
    &&& start as int / 4096 <= i
    &&& i < (end as int + 4095) / 4096
}

proof fn lemma_index_split(w: int, c: int)
    requires
        0 <= w,
        0 <= c < 64,
    ensures
        (w * 64 + c) / 64 == w,
        (w * 64 + c) % 64 == c,
{
    assert((w * 64 + c) / 64 == w && (w * 64 + c) % 64 == c) by (nonlinear_arith)
        requires
            0 <= w,
            0 <= c < 64,
    ;
}

impl FrameAllocator {
    /// Reserve every frame that overlaps `[start, end)`, rounding the start
    /// down and the end up, so a partially-covered frame is treated as used.
    fn reserve(&mut self, start: u64, end: u64)
        requires
            old(self).wf(),
            end <= u64::MAX - 4096,
        ensures
            final(self).wf(),
            final(self)@ == Seq::new(
                FRAME_COUNT as nat,
                |i: int| old(self)@[i] || reserve_covers(start, end, i),
            ),
    {
        if end <= start {
            proof {
                assert(self@ =~= Seq::new(
                    FRAME_COUNT as nat,
                    |i: int| old(self)@[i] || reserve_covers(start, end, i),
                ));
            }
            return;
        }
        let first64 = start / FRAME_SIZE;
        let last_u64 = (end + FRAME_SIZE - 1) / FRAME_SIZE;
        let last: usize = if last_u64 < FRAME_COUNT as u64 {
            last_u64 as usize
        } else {
            FRAME_COUNT
        };
        let mut index: usize = if first64 < last as u64 {
            first64 as usize
        } else {
            last
        };
        let ghost first: int = first64 as int;
        while index < last
            invariant
                self.wf(),
                start < end,
                first == start as int / 4096,
                last <= FRAME_COUNT,
                last <= last_u64,
                last == last_u64 || last == FRAME_COUNT,
                last_u64 == (end as int + 4095) / 4096,
                index >= first || index == last,
                index <= last,
                self@ == Seq::new(
                    FRAME_COUNT as nat,
                    |i: int| old(self)@[i] || (first <= i < index && i < last_u64),
                ),
            decreases last - index,
        {
            proof {
                lemma_count_free_update(self@, index as int, true);
            }
            if !self.is_used(index) {
                self.free_frames = self.free_frames - 1;
            }
            let ghost before = self@;
            self.set_used(index);
            index = index + 1;
            proof {
                assert forall|i: int| 0 <= i < FRAME_COUNT implies #[trigger] self@[i] == (old(
                    self,
                )@[i] || (first <= i < index && i < last_u64)) by {
                    if i == index - 1 {
                    } else {
                        assert(self@[i] == before[i]);
                    }
                }
                assert(self@ =~= Seq::new(
                    FRAME_COUNT as nat,
                    |i: int| old(self)@[i] || (first <= i < index && i < last_u64),
                ));
            }
        }
        proof {
            assert(self@ =~= Seq::new(
                FRAME_COUNT as nat,
                |i: int| old(self)@[i] || reserve_covers(start, end, i),
            ));
        }
    }
}

/// Hand out the lowest-numbered free physical frame, or `None` if none remain.
pub fn alloc_frame(allocator: &mut FrameAllocator) -> (r: Option<PhysFrame>)
    requires
        old(allocator).wf(),
    ensures
        final(allocator).wf(),
        match r {
            Some(f) => {
                let i = f.addr() / 4096;
                &&& f.addr() % 4096 == 0
                &&& i < FRAME_COUNT
                &&& !old(allocator)@[i as int]
                &&& forall|j: int| 0 <= j < i ==> #[trigger] old(allocator)@[j]
                &&& final(allocator)@ == old(allocator)@.update(i as int, true)
                &&& final(allocator).free_count() + 1 == old(allocator).free_count()
            },
            None => {
                &&& forall|j: int| 0 <= j < FRAME_COUNT ==> #[trigger] old(allocator)@[j]
                &&& final(allocator)@ == old(allocator)@
                &&& final(allocator).free_count() == old(allocator).free_count()
                &&& old(allocator).free_count() == 0
            },
        },
{
    let mut word_index: usize = 0;
    while word_index < BITMAP_WORDS
        invariant
            allocator.wf(),
            allocator@ == old(allocator)@,
            allocator.free_count() == old(allocator).free_count(),
            word_index <= BITMAP_WORDS,
            forall|j: int| 0 <= j < word_index * 64 ==> #[trigger] allocator@[j],
        decreases BITMAP_WORDS - word_index,
    {
        let word = allocator.bitmap[word_index];
        if word != 0xffff_ffff_ffff_ffffu64 {
            proof {
                vstd::std_specs::bits::axiom_u64_trailing_ones(word);
            }
            let bit = word.trailing_ones() as usize;
            let index = word_index * 64 + bit;
            proof {
                lemma_index_split(word_index as int, bit as int);
                assert forall|j: int| 0 <= j < index implies #[trigger] allocator@[j] by {
                    if j >= word_index * 64 {
                        let c = j - word_index * 64;
                        lemma_index_split(word_index as int, c);
                        assert((word >> (c as u64)) & 1u64 == 1u64);
                    }
                }
                assert(!allocator@[index as int]);
                lemma_count_free_update(allocator@, index as int, true);
            }
            allocator.set_used(index);
            allocator.free_frames = allocator.free_frames - 1;
            let f = PhysFrame((index as u64) * FRAME_SIZE);
            proof {
                assert((index as u64 * 4096) / 4096 == index as u64 && (index as u64 * 4096) % 4096
                    == 0) by (nonlinear_arith)
                    requires
                        index < FRAME_COUNT,
                ;
            }
            return Some(f);
        }
        proof {
            assert forall|j: int| 0 <= j < (word_index + 1) * 64 implies #[trigger] allocator@[j] by {
                if j >= word_index * 64 {
                    let c = j - word_index * 64;
                    lemma_index_split(word_index as int, c);
                    lemma_full_word(word, c as u64);
                }
            }
        }
        word_index = word_index + 1;
    }
    proof {
        let s = allocator@;
        assert(forall|j: int| 0 <= j < s.len() ==> s[j]);
        lemma_all_used_count(s);
    }
    None
}

proof fn lemma_all_used_count(s: Seq<bool>)
    requires
        forall|j: int| 0 <= j < s.len() ==> s[j],
    ensures
        count_free(s) == 0,
    decreases s.len(),
{
    if s.len() > 0 {
        lemma_all_used_count(s.drop_last());
    }
}

/// What a call of [`free`] did with the frame it was given.
#[derive(Clone, Copy, PartialEq, Eq, Structural, Debug)]
pub enum FreeOutcome {
    /// The frame was used and is now free.
    Freed,
    /// The frame lies beyond the 4 GiB the bitmap tracks; nothing changed.
    OutOfRange,
    /// The frame was already free; nothing changed.
    DoubleFree,
}

/// A frame is never handed out twice without a free in between: the frame
/// the next allocation picks, free in the map the first one left, is another
/// frame.
pub proof fn law_alloc_distinct(before: Seq<bool>, i: int, j: int)
    requires
        0 <= i < before.len(),
        0 <= j < before.len(),
        !before[i],
        !before.update(i, true)[j],
    ensures
        j != i,
{
}

/// Allocating a frame and freeing it again gives back the allocator it
/// started as. For the map of used frames `before` an allocation and the frame
/// index `i` it hands out (a free one): the frame is marked used afterwards, so
/// freeing it succeeds, and that free restores both the map and the free count.
pub proof fn law_alloc_free_roundtrip(before: Seq<bool>, i: int)
    requires
        0 <= i < before.len(),
        !before[i],
    ensures
        before.update(i, true)[i],
        before.update(i, true).update(i, false) == before,
        count_free(before.update(i, true)) + 1 == count_free(before),
        count_free(before.update(i, true).update(i, false)) == count_free(before),
{
    lemma_count_free_update(before, i, true);
    assert(before.update(i, true).update(i, false) =~= before);
}

/// Return a frame to the free pool. A frame beyond the bitmap, or one that is
/// already free, leaves the allocator untouched and is reported as such.
pub fn free(allocator: &mut FrameAllocator, frame: PhysFrame) -> (out: FreeOutcome)
    requires
        old(allocator).wf(),
    ensures
        final(allocator).wf(),
        ({
            let i = frame.addr() / 4096;
            if i >= FRAME_COUNT {
                &&& out == FreeOutcome::OutOfRange
                &&& final(allocator)@ == old(allocator)@
                &&& final(allocator).free_count() == old(allocator).free_count()
            } else if !old(allocator)@[i as int] {
                &&& out == FreeOutcome::DoubleFree
                &&& final(allocator)@ == old(allocator)@
                &&& final(allocator).free_count() == old(allocator).free_count()
            } else {
                &&& out == FreeOutcome::Freed
                &&& final(allocator)@ == old(allocator)@.update(i as int, false)
                &&& final(allocator).free_count() == old(allocator).free_count() + 1
            }
        }),
{
    let index = frame.index();
    if index >= FRAME_COUNT as u64 {
        return FreeOutcome::OutOfRange;
    }
    let index = index as usize;
    if !allocator.is_used(index) {
        return FreeOutcome::DoubleFree;
    }
    proof {
        lemma_count_free_update(allocator@, index as int, false);
        lemma_count_free_bound(allocator@.update(index as int, false));
    }
    allocator.set_free(index);
    allocator.free_frames = allocator.free_frames + 1;
    FreeOutcome::Freed
}


/// First frame wholly inside a usable region (its base rounded up).
pub open spec fn region_first(r: MemoryRegion) -> int {
    (r.base as int + 4095) / 4096
}

/// One past the last frame wholly inside a usable region, clamped to 4 GiB.
pub open spec fn region_last(r: MemoryRegion) -> int {
    let e = r.end_spec();
    (if e > MAX_ADDRESS { MAX_ADDRESS } else { e }) as int / 4096
}

/// Whether the usable region `r` frees frame `i` during `init`.
pub open spec fn region_frees(r: MemoryRegion, i: int) -> bool {
    &&& r.kind == 1
    &&& r.base < MAX_ADDRESS
    &&& region_first(r) <= i < region_last(r)
}

/// Whether some region among the first `k` of `map` frees frame `i`.
pub open spec fn freed_by(map: Seq<MemoryRegion>, k: int, i: int) -> bool {
    exists|j: int| 0 <= j < k && #[trigger] region_frees(map[j], i)
}

/// The used-map after the usable regions of `map` have been freed.
pub open spec fn usable_view(map: Seq<MemoryRegion>) -> Seq<bool> {
    Seq::new(FRAME_COUNT as nat, |i: int| !freed_by(map, map.len() as int, i))
}

/// The used-map `init` leaves: everything not freed by a usable region is used,
/// and frame 0, the kernel image and the boot structure are reserved.
pub open spec fn init_view(
    map: Seq<MemoryRegion>,
    kernel_start: u64,
    kernel_end: u64,
    boot_start: u64,
    boot_end: u64,
) -> Seq<bool> {
    Seq::new(
        FRAME_COUNT as nat,
        |i: int|
            !freed_by(map, map.len() as int, i) || reserve_covers(0, 4096, i) || reserve_covers(
                kernel_start,
                kernel_end,
                i,
            ) || reserve_covers(boot_start, boot_end, i),
    )
}

/// A frame a usable region frees lies wholly inside that region's bytes.
proof fn lemma_freed_inside(r: MemoryRegion, i: int)
    requires
        region_frees(r, i),
    ensures
        r.kind == 1,
        r.base <= i * 4096,
        (i + 1) * 4096 <= r.base + r.length,
        (i + 1) * 4096 <= MAX_ADDRESS,
{
    let b = r.base as int;
    let e = (if r.end_spec() > MAX_ADDRESS { MAX_ADDRESS } else { r.end_spec() }) as int;
    assert(e <= r.base + r.length);
    assert(b <= i * 4096) by (nonlinear_arith)
        requires
            (b + 4095) / 4096 <= i,
            0 <= b,
    ;
    assert((i + 1) * 4096 <= e) by (nonlinear_arith)
        requires
            i < e / 4096,
            0 <= e,
    ;
}

/// `init` frees only RAM: every frame it leaves free lies wholly, all 4096 of
/// its bytes, inside one region the memory map calls usable, never in a
/// frame a usable region only partly covers; and frame 0 is never free.
pub proof fn law_init_frees_only_usable_ram(
    map: Seq<MemoryRegion>,
    kernel_start: u64,
    kernel_end: u64,
    boot_start: u64,
    boot_end: u64,
    i: int,
)
    requires
        0 <= i < FRAME_COUNT,
        !init_view(map, kernel_start, kernel_end, boot_start, boot_end)[i],
    ensures
        i != 0,
        exists|j: int|
            0 <= j < map.len() && (#[trigger] map[j]).kind == 1 && map[j].base <= i * 4096 && (i + 1)
                * 4096 <= map[j].base + map[j].length,
{
    let j = choose|j: int| 0 <= j < map.len() && #[trigger] region_frees(map[j], i);
    lemma_freed_inside(map[j], i);
}

/// The usable frames `init` counts are RAM: each frame free in the map of the
/// usable regions lies wholly inside a region the memory map calls usable.
pub proof fn law_usable_frames_are_ram(map: Seq<MemoryRegion>, i: int)
    requires
        0 <= i < FRAME_COUNT,
        !usable_view(map)[i],
    ensures
        exists|j: int|
            0 <= j < map.len() && (#[trigger] map[j]).kind == 1 && map[j].base <= i * 4096 && (i + 1)
                * 4096 <= map[j].base + map[j].length,
{
    let j = choose|j: int| 0 <= j < map.len() && #[trigger] region_frees(map[j], i);
    lemma_freed_inside(map[j], i);
}

/// Whether a region counts as one of the usable regions `init` reports.
pub open spec fn counts_as_usable(r: MemoryRegion) -> bool {
    r.kind == 1 && r.base < MAX_ADDRESS && region_first(r) < region_last(r)
}

/// Number of usable regions among `map`.
pub open spec fn usable_region_count(map: Seq<MemoryRegion>) -> nat
    decreases map.len(),
{
    if map.len() == 0 {
        0
    } else {
        usable_region_count(map.drop_last()) + if counts_as_usable(map.last()) {
            1nat
        } else {
            0nat
        }
    }
}

/// Bytes of usable RAM a region holds above the 4 GiB the bitmap tracks.
pub open spec fn region_ignored(r: MemoryRegion) -> nat {
    if r.kind != 1 {
        0
    } else if r.base >= MAX_ADDRESS {
        r.length as nat
    } else if r.end_spec() > MAX_ADDRESS {
        (r.end_spec() - MAX_ADDRESS) as nat
    } else {
        0
    }
}

/// Total usable RAM above 4 GiB over `map`.
pub open spec fn ignored_bytes(map: Seq<MemoryRegion>) -> nat
    decreases map.len(),
{
    if map.len() == 0 {
        0
    } else {
        ignored_bytes(map.drop_last()) + region_ignored(map.last())
    }
}

/// The summary `init` reports.
#[derive(Clone, Copy, PartialEq, Eq, Structural, Debug)]
pub struct InitReport {
    /// Frames free after the usable regions were freed, before the carve-outs.
    pub usable_frames: u64,
    /// Usable regions that held at least one whole frame below 4 GiB.
    pub usable_regions: u64,
    /// Bytes of usable RAM above the 4 GiB the bitmap tracks.
    pub ignored_bytes: u64,
    /// Frames free after frame 0, the kernel and the boot structure were reserved.
    pub free_frames: u64,
}

proof fn lemma_prefix_step(map: Seq<MemoryRegion>, k: int)
    requires
        0 <= k < map.len(),
    ensures
        map.take(k + 1).drop_last() == map.take(k),
        map.take(k + 1).last() == map[k],
{
    assert(map.take(k + 1).drop_last() =~= map.take(k));
}

/// Stand the allocator up from the memory map: mark everything used, free the
/// whole frames inside each usable region below 4 GiB, then reserve frame 0,
/// the kernel image `[kernel_start, kernel_end)` and the boot-information
/// structure `[boot_start, boot_end)`.
pub fn init(
    allocator: &mut FrameAllocator,
    memory_map: &Vec<MemoryRegion>,
    kernel_start: u64,
    kernel_end: u64,
    boot_start: u64,
    boot_end: u64,
) -> (report: InitReport)
    requires
        old(allocator).is_fresh(),
        kernel_end <= u64::MAX - 4096,
        boot_end <= u64::MAX - 4096,
        ignored_bytes(memory_map@) <= u64::MAX,
    ensures
        final(allocator).wf(),
        final(allocator)@ == init_view(memory_map@, kernel_start, kernel_end, boot_start, boot_end),
        report.free_frames == final(allocator).free_count(),
        report.usable_frames == count_free(usable_view(memory_map@)),
        report.usable_regions == usable_region_count(memory_map@),
        report.ignored_bytes == ignored_bytes(memory_map@),
{
    let map_len = memory_map.len();
    // Phase 1: mark the entire address space used.
    let mut w: usize = 0;
    while w < BITMAP_WORDS
        invariant
            w <= BITMAP_WORDS,
            allocator.bitmap@.len() == BITMAP_WORDS,
            allocator.free_frames == 0,
            forall|j: int| 0 <= j < w ==> allocator.bitmap@[j] == 0xffff_ffff_ffff_ffffu64,
        decreases BITMAP_WORDS - w,
    {
        allocator.bitmap.set(w, 0xffff_ffff_ffff_ffffu64);
        w = w + 1;
    }
    proof {
        assert forall|i: int| 0 <= i < FRAME_COUNT implies #[trigger] allocator@[i] by {
            lemma_full_word(allocator.bitmap@[i / 64], (i % 64) as u64);
        }
        lemma_all_used_count(allocator@);
        assert(allocator@ =~= Seq::new(
            FRAME_COUNT as nat,
            |i: int| !freed_by(memory_map@, 0, i),
        ));
    }

    // Phase 2: free the frames wholly inside each usable region.
    let mut usable_regions: u64 = 0;
    let mut ignored: u64 = 0;
    let mut k: usize = 0;
    while k < map_len
        invariant
            map_len == memory_map@.len(),
            k <= map_len,
            allocator.wf(),
            allocator@ == Seq::new(FRAME_COUNT as nat, |i: int| !freed_by(memory_map@, k as int, i)),
            usable_regions == usable_region_count(memory_map@.take(k as int)),
            usable_regions <= k,
            ignored == ignored_bytes(memory_map@.take(k as int)),
            ignored_bytes(memory_map@) <= u64::MAX,
        decreases map_len - k,
    {
        let region = memory_map[k];
        proof {
            lemma_prefix_step(memory_map@, k as int);
            lemma_ignored_prefix_bound(memory_map@, k as int + 1);
        }
        let ghost map = memory_map@;
        if !region.is_usable() {
            proof {
                assert(allocator@ =~= Seq::new(
                    FRAME_COUNT as nat,
                    |i: int| !freed_by(map, k as int + 1, i),
                ));
            }
            k = k + 1;
            continue;
        }
        if region.base >= MAX_ADDRESS {
            ignored = ignored + region.length;
            proof {
                assert(allocator@ =~= Seq::new(
                    FRAME_COUNT as nat,
                    |i: int| !freed_by(map, k as int + 1, i),
                ));
            }
            k = k + 1;
            continue;
        }
        let end = region.end();
        let region_end = if end < MAX_ADDRESS {
            end
        } else {
            MAX_ADDRESS
        };
        if end > MAX_ADDRESS {
            ignored = ignored + (end - MAX_ADDRESS);
        }
        let first = ((region.base + FRAME_SIZE - 1) / FRAME_SIZE) as usize;
        let last = (region_end / FRAME_SIZE) as usize;
        if last <= first {
            proof {
                assert(allocator@ =~= Seq::new(
                    FRAME_COUNT as nat,
                    |i: int| !freed_by(map, k as int + 1, i),
                ));
            }
            k = k + 1;
            continue;
        }
        usable_regions = usable_regions + 1;
        let mut index = first;
        while index < last
            invariant
                map == memory_map@,
                k < map.len(),
                region == map[k as int],
                first == region_first(region),
                last == region_last(region),
                region.kind == 1,
                region.base < MAX_ADDRESS,
                first <= index <= last,
                last <= FRAME_COUNT,
                allocator.wf(),
                allocator@ == Seq::new(
                    FRAME_COUNT as nat,
                    |i: int| !(freed_by(map, k as int, i) || (first <= i < index)),
                ),
            decreases last - index,
        {
            if allocator.is_used(index) {
                proof {
                    lemma_count_free_update(allocator@, index as int, false);
                    lemma_count_free_bound(allocator@.update(index as int, false));
                }
                allocator.free_frames = allocator.free_frames + 1;
                allocator.set_free(index);
            }
            index = index + 1;
            proof {
                assert(allocator@ =~= Seq::new(
                    FRAME_COUNT as nat,
                    |i: int| !(freed_by(map, k as int, i) || (first <= i < index)),
                ));
            }
        }
        proof {
            assert forall|i: int| 0 <= i < FRAME_COUNT implies (freed_by(map, k as int, i) || (
            first <= i < last)) == #[trigger] freed_by(map, k as int + 1, i) by {
                if first <= i < last {
                    assert(region_frees(map[k as int], i));
                }
                if freed_by(map, k as int + 1, i) {
                    let j = choose|j: int| 0 <= j < k + 1 && #[trigger] region_frees(map[j], i);
                    if j < k {
                        assert(freed_by(map, k as int, i));
                    }
                }
            }
            assert(allocator@ =~= Seq::new(
                FRAME_COUNT as nat,
                |i: int| !freed_by(map, k as int + 1, i),
            ));
        }
        k = k + 1;
    }
    proof {
        assert(memory_map@.take(map_len as int) =~= memory_map@);
        assert(allocator@ =~= usable_view(memory_map@));
    }
    let usable_frames = allocator.free_frames;

    // Phase 3: re-reserve frame 0, the kernel image and the boot structure.
    allocator.reserve(0, FRAME_SIZE);
    allocator.reserve(kernel_start, kernel_end);
    allocator.reserve(boot_start, boot_end);
    proof {
        assert(allocator@ =~= init_view(
            memory_map@,
            kernel_start,
            kernel_end,
            boot_start,
            boot_end,
        ));
    }
    InitReport {
        usable_frames,
        usable_regions,
        ignored_bytes: ignored,
        free_frames: allocator.free_frames,
    }
}

proof fn lemma_ignored_prefix_bound(map: Seq<MemoryRegion>, k: int)
    requires
        0 <= k <= map.len(),
    ensures
        ignored_bytes(map.take(k)) <= ignored_bytes(map),
    decreases map.len() - k,
{
    if k < map.len() {
        lemma_ignored_prefix_bound(map, k + 1);
        lemma_prefix_step(map, k);
    } else {
        assert(map.take(k) =~= map);
    }
}


/// The addresses the allocator self-test handed out and got back.
#[derive(Clone, Copy, PartialEq, Eq, Structural, Debug)]
pub struct SelfTestReport {
    pub first: u64,
    pub second: u64,
    pub third: u64,
    pub reclaimed: u64,
}

/// Allocate three frames, check they are distinct and 4 KiB-aligned, free the
/// second and show the very next allocation hands it straight back, then
/// return every borrowed frame. The checks hold for every allocator with at
/// least three free frames, and the allocator ends exactly as it began.
pub fn self_test(allocator: &mut FrameAllocator) -> (r: SelfTestReport)
    requires
        old(allocator).wf(),
        old(allocator).free_count() >= 3,
    ensures
        final(allocator).wf(),
        final(allocator)@ == old(allocator)@,
        final(allocator).free_count() == old(allocator).free_count(),
        r.first != r.second && r.second != r.third && r.first != r.third,
        r.first % 4096 == 0 && r.second % 4096 == 0 && r.third % 4096 == 0,
        r.reclaimed == r.second,
{
    let a = match alloc_frame(allocator) {
        Some(f) => f,
        None => {
            proof {
                assert(false);
            }
            return SelfTestReport { first: 0, second: 0, third: 0, reclaimed: 0 };
        },
    };
    let ghost v1 = allocator@;
    let b = match alloc_frame(allocator) {
        Some(f) => f,
        None => {
            proof {
                assert(false);
            }
            return SelfTestReport { first: 0, second: 0, third: 0, reclaimed: 0 };
        },
    };
    let ghost v2 = allocator@;
    let c = match alloc_frame(allocator) {
        Some(f) => f,
        None => {
            proof {
                assert(false);
            }
            return SelfTestReport { first: 0, second: 0, third: 0, reclaimed: 0 };
        },
    };
    let ghost ia = a.addr() / 4096;
    let ghost ib = b.addr() / 4096;
    let ghost ic = c.addr() / 4096;
    proof {
        assert(ia != ib && ib != ic && ia != ic);
        assert(ib < ic);
    }
    let _ = free(allocator, b);
    let reclaimed = match alloc_frame(allocator) {
        Some(f) => f,
        None => {
            proof {
                assert(false);
            }
            return SelfTestReport { first: 0, second: 0, third: 0, reclaimed: 0 };
        },
    };
    proof {
        let ir = reclaimed.addr() / 4096;
        if ir < ib {
            assert(v1[ir as int]);
        }
        if ir > ib {
            assert(!allocator@[ib as int] || ir <= ib);
        }
        assert(ir == ib);
        assert(reclaimed.addr() == b.addr());
    }
    let _ = free(allocator, a);
    let _ = free(allocator, reclaimed);
    let _ = free(allocator, c);
    proof {
        assert(allocator@ =~= old(allocator)@);
    }
    SelfTestReport {
        first: a.start_address(),
        second: b.start_address(),
        third: c.start_address(),
        reclaimed: reclaimed.start_address(),
    }
}

} // verus!
