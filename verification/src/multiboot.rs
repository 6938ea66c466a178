//! A read-only Multiboot2 boot-information parser: walks the tag list of the
//! structure GRUB hands over and reports the raw memory-map regions.
use vstd::prelude::*;

verus! {

/// A memory-map entry's `kind` field: 1 means the region is usable RAM.
pub const MEMORY_KIND_USABLE: u32 = 1;
/// Multiboot2 tag type for the memory map.
pub const TAG_TYPE_MEMORY_MAP: u32 = 6;
/// Multiboot2 tag type for the terminator that ends the tag list.
pub const TAG_TYPE_END: u32 = 0;
/// Size of a tag header: type and size, both `u32`.
pub const TAG_HEADER_SIZE: u64 = 8;
/// Size of one memory-map entry record: base, length, kind, reserved.
pub const RAW_ENTRY_SIZE: u64 = 24;

/// One contiguous physical memory region, as reported by GRUB.
#[derive(Clone, Copy, PartialEq, Eq, Structural, Debug)]
pub struct MemoryRegion {
    /// Physical start address.
    pub base: u64,
    /// Length in bytes.
    pub length: u64,
    /// Region kind; 1 is usable RAM, everything else reserved.
    pub kind: u32,
}

impl MemoryRegion {
    /// One past the last byte, saturating at `u64::MAX`.
    pub open spec fn end_spec(self) -> u64 {
        if self.base + self.length > u64::MAX {
            u64::MAX
        } else {
            (self.base + self.length) as u64
        }
    }

    /// One past the last byte of the region. Saturating, so a garbage `length`
    /// clamps to `u64::MAX` instead of wrapping.
    pub fn end(&self) -> (e: u64)
        ensures
            e == self.end_spec(),
    {
        self.base.saturating_add(self.length)
    }

    /// Whether this region is usable RAM (`kind == 1`) rather than reserved.
    pub fn is_usable(&self) -> (b: bool)
        ensures
            b == (self.kind == MEMORY_KIND_USABLE),
    {
        self.kind == MEMORY_KIND_USABLE
    }
}


/// Little-endian `u32` at `off`.
pub open spec fn le_u32(s: Seq<u8>, off: int) -> int {
    s[off] as int + 256 * (s[off + 1] as int) + 65536 * (s[off + 2] as int) + 16777216 * (
    s[off + 3] as int)
}

/// Little-endian `u64` at `off`.
pub open spec fn le_u64(s: Seq<u8>, off: int) -> int {
    le_u32(s, off) + 4294967296 * le_u32(s, off + 4)
}

fn read_u32(b: &[u8], off: usize) -> (r: u32)
    requires
        off + 4 <= b@.len(),
    ensures
        r == le_u32(b@, off as int),
{
    b[off] as u32 + (b[off + 1] as u32) * 256 + (b[off + 2] as u32) * 65536 + (b[off + 3] as u32)
        * 16777216
}

fn read_u64(b: &[u8], off: usize) -> (r: u64)
    requires
        off + 8 <= b@.len(),
    ensures
        r == le_u64(b@, off as int),
{
    let _total = b.len();
    let lo = read_u32(b, off) as u64;
    let hi = read_u32(b, off + 4) as u64;
    proof {
        assert(hi * 4294967296 <= 4294967295 * 4294967296) by (nonlinear_arith)
            requires
                hi <= 4294967295,
        ;
    }
    lo + hi * 4294967296
}

/// A handle onto the boot-information structure at physical `addr`, of
/// `total_size` bytes (the structure's own first field).
pub struct BootInfo {
    addr: u64,
    total_size: u32,
}

/// Where the memory-map tag's entries lie: the offset of the first entry, one
/// past the tag's last byte, and the stride between entries.
pub open spec fn find_memory_map(b: Seq<u8>, off: int) -> Option<(int, int, int)>
    decreases if off > b.len() {
        0
    } else {
        b.len() + 1 - off
    },
{
    if off < 0 || off + 8 > b.len() {
        None
    } else {
        let typ = le_u32(b, off);
        let size = le_u32(b, off + 4);
        if size < 8 {
            None
        } else if typ == 0 {
            None
        } else if typ == 6 {
            if off + 12 > b.len() {
                None
            } else if le_u32(b, off + 8) < 24 {
                None
            } else {
                Some(
                    (
                        off + 16,
                        if off + size < b.len() {
                            off + size
                        } else {
                            b.len() as int
                        },
                        le_u32(b, off + 8),
                    ),
                )
            }
        } else {
            proof {
                assert((size + 7) / 8 * 8 >= 8) by (nonlinear_arith)
                    requires
                        size >= 8,
                ;
            }
            find_memory_map(b, off + (size + 7) / 8 * 8)
        }
    }
}

/// The region the entry record at `o` describes.
pub open spec fn region_at(b: Seq<u8>, o: int) -> MemoryRegion {
    MemoryRegion {
        base: le_u64(b, o) as u64,
        length: le_u64(b, o + 8) as u64,
        kind: le_u32(b, o + 16) as u32,
    }
}

/// The regions of the entries from `next` on, `stride` bytes apart, that lie
/// wholly before `end`.
pub open spec fn map_regions(b: Seq<u8>, next: int, end: int, stride: int) -> Seq<MemoryRegion>
    decreases end - next,
{
    if stride < 1 || next + stride > end {
        Seq::empty()
    } else {
        seq![region_at(b, next)] + map_regions(b, next + stride, end, stride)
    }
}

/// A memory map that is found ends within the structure.
proof fn lemma_map_within(b: Seq<u8>, off: int)
    ensures
        find_memory_map(b, off) matches Some((next, end, stride)) ==> end <= b.len() && stride
            >= 24,
    decreases if off > b.len() {
        0
    } else {
        b.len() + 1 - off
    },
{
    if 0 <= off && off + 8 <= b.len() {
        let typ = le_u32(b, off);
        let size = le_u32(b, off + 4);
        if size >= 8 && typ != 0 && typ != 6 {
            assert((size + 7) / 8 * 8 >= 8) by (nonlinear_arith)
                requires
                    size >= 8,
            ;
            lemma_map_within(b, off + (size + 7) / 8 * 8);
        }
    }
}

/// Iterator state over the memory-map entries, as offsets into the structure.
pub struct MemoryMapIter {
    next: u64,
    end: u64,
    entry_size: u64,
}

impl MemoryMapIter {
    /// Offset of the next entry to read.
    pub closed spec fn next_off(&self) -> int {
        self.next as int
    }

    /// One past the memory-map tag's last byte.
    pub closed spec fn end_off(&self) -> int {
        self.end as int
    }

    /// Bytes from one entry to the next.
    pub closed spec fn stride(&self) -> int {
        self.entry_size as int
    }

    /// Offsets stay within a 32-bit structure and the stride is a whole entry.
    pub closed spec fn wf(&self) -> bool {
        &&& self.next <= 0x1_0000_0010
        &&& self.end <= u32::MAX
        &&& 24 <= self.entry_size <= u32::MAX
    }

    /// The next region GRUB listed, or `None` once the tag is exhausted.
    pub fn next_region(&mut self, info: &[u8]) -> (r: Option<MemoryRegion>)
        requires
            old(self).wf(),
            old(self).end_off() <= info@.len(),
        ensures
            final(self).wf(),
            final(self).end_off() == old(self).end_off(),
            final(self).stride() == old(self).stride(),
            if old(self).next_off() + old(self).stride() > old(self).end_off() {
                r is None && final(self).next_off() == old(self).next_off()
            } else {
                let o = old(self).next_off();
                &&& r == Some(
                    MemoryRegion {
                        base: le_u64(info@, o) as u64,
                        length: le_u64(info@, o + 8) as u64,
                        kind: le_u32(info@, o + 16) as u32,
                    },
                )
                &&& final(self).next_off() == o + old(self).stride()
            },
    {
        if self.next + self.entry_size > self.end {
            return None;
        }
        let _total = info.len();
        let o = self.next as usize;
        let region = MemoryRegion {
            base: read_u64(info, o),
            length: read_u64(info, o + 8),
            kind: read_u32(info, o + 16),
        };
        self.next = self.next + self.entry_size;
        Some(region)
    }
}

impl BootInfo {
    /// The handle for a structure at `addr` whose first field reads `total_size`.
    pub fn new(addr: u64, total_size: u32) -> (b: BootInfo)
        ensures
            b.addr() == addr,
            b.total_size() == total_size,
    {
        BootInfo { addr, total_size }
    }

    /// The structure's physical address.
    pub closed spec fn addr(&self) -> u64 {
        self.addr
    }

    /// The structure's size in bytes.
    pub closed spec fn total_size(&self) -> u32 {
        self.total_size
    }

    /// The byte span of the structure, `[addr, addr + total_size)`, the end
    /// saturating at `u64::MAX`.
    pub fn region(&self) -> (r: (u64, u64))
        ensures
            r.0 == self.addr(),
            r.1 == if self.addr() + self.total_size() > u64::MAX {
                u64::MAX
            } else {
                (self.addr() + self.total_size()) as u64
            },
    {
        (self.addr, self.addr.saturating_add(self.total_size as u64))
    }

    /// Find the memory-map tag in the structure's bytes `info` and iterate its
    /// entries, or `None` if there is none. The walk starts past the 8-byte
    /// header and advances by each tag's size rounded up to 8 bytes; it stops
    /// at the terminator, at a tag smaller than its own header, at a map whose
    /// entry stride is smaller than one entry record, and at a map tag whose
    /// stride field lies past the structure.
    pub fn memory_map(&self, info: &[u8]) -> (r: Option<MemoryMapIter>)
        requires
            info@.len() == self.total_size(),
        ensures
            match find_memory_map(info@, 8) {
                None => r is None,
                Some((next, end, stride)) => r matches Some(it) && it.wf() && it.next_off() == next
                    && it.end_off() == end && it.stride() == stride,
            },
    {
        let end = self.total_size as u64;
        let mut tag: u64 = 8;
        while tag + TAG_HEADER_SIZE <= end
            invariant
                end == info@.len(),
                end <= u32::MAX,
                tag <= end + 0x1_0000_0008,
                find_memory_map(info@, 8) == find_memory_map(info@, tag as int),
            decreases if tag > end {
                0
            } else {
                end + 1 - tag
            },
        {
            let t = tag as usize;
            let typ = read_u32(info, t);
            let size = read_u32(info, t + 4);
            if (size as u64) < TAG_HEADER_SIZE {
                return None;
            }
            if typ == TAG_TYPE_END {
                return None;
            }
            if typ == TAG_TYPE_MEMORY_MAP {
                if tag + 12 > end {
                    return None;
                }
                let entry_size = read_u32(info, t + 8) as u64;
                if entry_size < RAW_ENTRY_SIZE {
                    return None;
                }
                let tag_end = tag + size as u64;
                return Some(
                    MemoryMapIter {
                        next: tag + 16,
                        end: if tag_end < end {
                            tag_end
                        } else {
                            end
                        },
                        entry_size,
                    },
                );
            }
            tag = tag + ((size as u64 + 7) / 8 * 8);
        }
        None
    }
    /// Every region of the memory map, in the order GRUB listed them, or
    /// `None` if the structure has no usable memory-map tag.
    pub fn memory_regions(&self, info: &[u8]) -> (r: Option<Vec<MemoryRegion>>)
        requires
            info@.len() == self.total_size(),
        ensures
            match find_memory_map(info@, 8) {
                None => r is None,
                Some((next, end, stride)) => r matches Some(v) && v@ == map_regions(
                    info@,
                    next,
                    end,
                    stride,
                ),
            },
    {
        let mut it = match self.memory_map(info) {
            Some(it) => it,
            None => {
                return None;
            },
        };
        let ghost (n0, e0, s0) = find_memory_map(info@, 8)->Some_0;
        proof {
            lemma_map_within(info@, 8);
        }
        let mut v: Vec<MemoryRegion> = Vec::new();
        loop
            invariant
                find_memory_map(info@, 8) == Some((n0, e0, s0)),
                it.wf(),
                it.end_off() == e0,
                it.stride() == s0,
                e0 <= info@.len(),
                v@ + map_regions(info@, it.next_off(), e0, s0) == map_regions(info@, n0, e0, s0),
            decreases e0 - it.next_off(),
        {
            let ghost before = it.next_off();
            match it.next_region(info) {
                Some(r) => {
                    proof {
                        assert(v@.push(r) + map_regions(info@, it.next_off(), e0, s0) =~= v@ + map_regions(
                            info@,
                            before,
                            e0,
                            s0,
                        ));
                    }
                    v.push(r);
                },
                None => {
                    proof {
                        assert(v@ + map_regions(info@, before, e0, s0) =~= v@);
                    }
                    return Some(v);
                },
            }
        }
    }
}

} // verus!
