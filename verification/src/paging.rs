//! 4-level x86-64 paging: the page-table walk that translates a virtual
//! address, and the walks that map and unmap a 4 KiB page. A 48-bit virtual
//! address is four 9-bit table indices plus a 12-bit page offset; each entry
//! holds the physical frame of the next table, or with the PS bit maps a large
//! page directly. The walks read and write table entries through the caller:
//! `translate` through a read function, `map`/`unmap` as step machines whose
//! every step names the one read, allocation or write to perform next.
use vstd::prelude::*;

verus! {

/// 4 KiB page / frame size.
pub const FRAME_SIZE: u64 = 4096;
/// The physical address bits of a page-table entry: bits 51..12.
pub const ADDR_MASK: u64 = 0x000F_FFFF_FFFF_F000;
/// Present: the entry is valid.
pub const PRESENT: u64 = 1;
/// Writable.
pub const WRITABLE: u64 = 2;
/// User/Supervisor: reachable from ring 3.
pub const USER: u64 = 4;
/// Page Size: at the PD or PDPT level the entry maps a large page directly.
pub const HUGE: u64 = 0x80;
/// The identity-mapped window: the first 1 GiB.
pub const IDENTITY_LIMIT: u64 = 0x4000_0000;

/// Turn a physical address into the virtual address the kernel reads it at.
/// Under the identity map this is the identity, defined only inside the window.
pub fn phys_to_virt(phys: u64) -> (v: u64)
    requires
        phys < IDENTITY_LIMIT,
    ensures
        v == phys,
{
    phys
}

/// The 9-bit table index selecting an entry for `virt` at `level`
/// (3 = PML4, 2 = PDPT, 1 = PD, 0 = PT).
pub open spec fn index_spec(virt: u64, level: int) -> int {
    ((virt >> ((12 + 9 * level) as u64)) & 0x1FF) as int
}

/// The 9-bit table index selecting an entry for `virt` at `level`.
pub fn table_index(virt: u64, level: u32) -> (i: usize)
    requires
        level <= 3,
    ensures
        i == index_spec(virt, level as int),
        i < 512,
{
    let shift = 12 + 9 * (level as u64);
    let r = (virt >> shift) & 0x1FF;
    assert(r < 512) by (bit_vector)
        requires
            r == (virt >> shift) & 0x1FF,
    ;
    r as usize
}

/// Bits of the in-page offset below `level`'s page size: 12 at the PT, 21 at
/// the PD, 30 at the PDPT.
pub open spec fn offset_mask(level: int) -> u64 {
    if level == 2 {
        0x3FFF_FFFFu64
    } else if level == 1 {
        0x1F_FFFFu64
    } else {
        0xFFFu64
    }
}

/// What one entry read at `level` decides.
#[derive(Clone, Copy, Debug, PartialEq, Eq, Structural)]
pub enum WalkStep {
    /// Go on to the table at this physical address.
    Descend(u64),
    /// The walk is over: the physical address, or `None` if unmapped.
    Done(Option<u64>),
}

/// The decision a translation walk takes on reading `entry` at `level`.
pub open spec fn walk_step_spec(level: int, virt: u64, entry: u64) -> WalkStep {
    if entry & PRESENT == 0 {
        WalkStep::Done(None)
    } else if level == 0 {
        WalkStep::Done(Some(((entry & ADDR_MASK) + (virt & 0xFFF)) as u64))
    } else if level <= 2 && entry & HUGE != 0 {
        WalkStep::Done(
            Some((((entry & ADDR_MASK) & !offset_mask(level)) + (virt & offset_mask(level))) as u64),
        )
    } else {
        WalkStep::Descend(entry & ADDR_MASK)
    }
}

/// Translation of `virt` from the table `table` at `level` down, reading
/// entries from `mem`, which gives the entry at each (table frame, index).
pub open spec fn walk_spec(mem: spec_fn(u64, int) -> u64, table: u64, virt: u64, level: int) -> Option<
    u64,
>
    decreases level,
{
    if level < 0 {
        None
    } else {
        match walk_step_spec(level, virt, mem(table, index_spec(virt, level))) {
            WalkStep::Done(r) => r,
            WalkStep::Descend(t) => walk_spec(mem, t, virt, level - 1),
        }
    }
}

/// Translation of `virt` through the tables rooted at the PML4 frame `pml4`.
pub open spec fn translate_spec(mem: spec_fn(u64, int) -> u64, pml4: u64, virt: u64) -> Option<u64> {
    walk_spec(mem, pml4, virt, 3)
}

/// Every value `read` returns for a (table, index) is `mem`'s entry there.
pub open spec fn reads_as<F: Fn(u64, usize) -> u64>(read: &F, mem: spec_fn(u64, int) -> u64) -> bool {
    forall|t: u64, i: usize, v: u64| #[trigger] read.ensures((t, i), v) ==> v == mem(t, i as int)
}

proof fn lemma_step_values(level: int, virt: u64, entry: u64)
    requires
        0 <= level <= 3,
    ensures
        (entry & ADDR_MASK) + (virt & 0xFFF) <= u64::MAX,
        ((entry & ADDR_MASK) & !offset_mask(level)) + (virt & offset_mask(level)) <= u64::MAX,
{
    let m = offset_mask(level);
    assert((entry & 0x000F_FFFF_FFFF_F000u64) <= 0x000F_FFFF_FFFF_F000u64 && (virt & 0xFFFu64)
        <= 0xFFFu64 && ((entry & 0x000F_FFFF_FFFF_F000u64) & !m) <= 0x000F_FFFF_FFFF_F000u64 && (virt
        & m) <= m) by (bit_vector);
}

/// Decide one step of a translation walk from the entry read at `level`.
pub fn walk_step(level: u32, virt: u64, entry: u64) -> (s: WalkStep)
    requires
        level <= 3,
    ensures
        s == walk_step_spec(level as int, virt, entry),
{
    proof {
        lemma_step_values(level as int, virt, entry);
    }
    if entry & PRESENT == 0 {
        return WalkStep::Done(None);
    }
    if level == 0 {
        return WalkStep::Done(Some((entry & ADDR_MASK) + (virt & 0xFFF)));
    }
    if level <= 2 && entry & HUGE != 0 {
        let offset_mask: u64 = if level == 2 {
            0x3FFF_FFFF
        } else {
            0x1F_FFFF
        };
        let page = (entry & ADDR_MASK) & !offset_mask;
        return WalkStep::Done(Some(page + (virt & offset_mask)));
    }
    WalkStep::Descend(entry & ADDR_MASK)
}

/// Walk the page-table tree rooted at PML4 frame `pml4_phys`, reading each
/// entry with `read_entry(table, index)`, and give the physical address `virt`
/// maps to, or `None` if it is not mapped. Large pages (PS at the PD or PDPT
/// level) end the walk early.
pub fn translate_from<F: Fn(u64, usize) -> u64>(read_entry: &F, pml4_phys: u64, virt: u64) -> (r:
    Option<u64>)
    requires
        forall|t: u64, i: usize| read_entry.requires((t, i)),
    ensures
        forall|mem: spec_fn(u64, int) -> u64| #[trigger]
            reads_as(read_entry, mem) ==> r == translate_spec(mem, pml4_phys, virt),
{
    let mut table_phys = pml4_phys;
    let mut level: u32 = 3;
    loop
        invariant
            level <= 3,
            forall|t: u64, i: usize| read_entry.requires((t, i)),
            forall|mem: spec_fn(u64, int) -> u64| #[trigger]
                reads_as(read_entry, mem) ==> translate_spec(mem, pml4_phys, virt) == walk_spec(
                    mem,
                    table_phys,
                    virt,
                    level as int,
                ),
        decreases level,
    {
        let index = table_index(virt, level);
        let entry = read_entry(table_phys, index);
        let step = walk_step(level, virt, entry);
        match step {
            WalkStep::Done(r) => {
                return r;
            },
            WalkStep::Descend(next) => {
                if level == 0 {
                    // A present level-0 entry always ends the walk.
                    proof {
                        assert(false);
                    }
                    return None;
                }
                let ghost old_table = table_phys;
                table_phys = next;
                level = level - 1;
                proof {
                    assert forall|mem: spec_fn(u64, int) -> u64| #[trigger]
                        reads_as(read_entry, mem) implies translate_spec(mem, pml4_phys, virt)
                        == walk_spec(mem, table_phys, virt, level as int) by {
                        assert(read_entry.ensures((old_table, index), entry));
                    }
                }
            },
        }
    }
}

/// Translate `virt` through the page tables CR3 (given as `cr3`) points at.
pub fn translate<F: Fn(u64, usize) -> u64>(read_entry: &F, cr3: u64, virt: u64) -> (r: Option<u64>)
    requires
        forall|t: u64, i: usize| read_entry.requires((t, i)),
    ensures
        forall|mem: spec_fn(u64, int) -> u64| #[trigger]
            reads_as(read_entry, mem) ==> r == translate_spec(mem, cr3 & ADDR_MASK, virt),
{
    translate_from(read_entry, cr3 & ADDR_MASK, virt)
}

/// The lowest address past the canonical lower half: a user range must end at
/// or below it.
pub const USER_LIMIT: u64 = 0x8000_0000_0000;

/// The decision a user-access walk takes on reading `entry` at `level`: a
/// missing entry, or one without the U/S bit, denies ring-3 access; a leaf
/// (level 0, or a large page) allows it; anything else leads on to the next
/// table.
pub open spec fn user_step_spec(level: int, entry: u64) -> Option<Option<u64>> {
    if entry & PRESENT == 0 || entry & USER == 0 {
        Some(None)
    } else if level == 0 || (level <= 2 && entry & HUGE != 0) {
        Some(Some(0))
    } else {
        None
    }
}

/// Whether ring 3 may read `virt`, walking from the table `table` at `level`
/// down: every entry on the way is present and has the U/S bit.
pub open spec fn user_walk_spec(mem: spec_fn(u64, int) -> u64, table: u64, virt: u64, level: int) -> bool
    decreases level,
{
    if level < 0 {
        false
    } else {
        let entry = mem(table, index_spec(virt, level));
        match user_step_spec(level, entry) {
            Some(r) => r is Some,
            None => user_walk_spec(mem, entry & ADDR_MASK, virt, level - 1),
        }
    }
}

/// Ring 3 could read `virt` itself through the tables rooted at `pml4`.
pub open spec fn user_readable(mem: spec_fn(u64, int) -> u64, pml4: u64, virt: u64) -> bool {
    user_walk_spec(mem, pml4, virt, 3)
}

/// The range `[ptr, ptr + len)` is one ring 3 could read unaided: it ends in
/// the canonical lower half and every byte of it is user-readable.
pub open spec fn user_range_spec(mem: spec_fn(u64, int) -> u64, pml4: u64, ptr: u64, len: u64) -> bool {
    &&& ptr + len <= USER_LIMIT
    &&& forall|a: u64| ptr <= a < ptr + len ==> #[trigger] user_readable(mem, pml4, a)
}

proof fn lemma_index_page(a: u64, page: u64, level: int)
    requires
        0 <= level <= 3,
        page == a & !0xFFFu64,
    ensures
        index_spec(a, level) == index_spec(page, level),
{
    assert((a >> 12u64) & 0x1FF == ((a & !0xFFFu64) >> 12u64) & 0x1FF && (a >> 21u64) & 0x1FF == ((a
        & !0xFFFu64) >> 21u64) & 0x1FF && (a >> 30u64) & 0x1FF == ((a & !0xFFFu64) >> 30u64) & 0x1FF && (a
        >> 39u64) & 0x1FF == ((a & !0xFFFu64) >> 39u64) & 0x1FF) by (bit_vector);
}

/// Two addresses of one 4 KiB page are equally readable from ring 3: the walk
/// looks only at the page-number bits.
proof fn lemma_user_walk_page(mem: spec_fn(u64, int) -> u64, table: u64, a: u64, page: u64, level: int)
    requires
        level <= 3,
        page == a & !0xFFFu64,
    ensures
        user_walk_spec(mem, table, a, level) == user_walk_spec(mem, table, page, level),
    decreases level + 1,
{
    if level >= 0 {
        lemma_index_page(a, page, level);
        let entry = mem(table, index_spec(a, level));
        lemma_user_walk_page(mem, entry & ADDR_MASK, a, page, level - 1);
    }
}

/// Whether ring 3 could read `virt` itself, walking the tables rooted at
/// `pml4_phys` through `read_entry`.
pub fn user_accessible<F: Fn(u64, usize) -> u64>(read_entry: &F, pml4_phys: u64, virt: u64) -> (r: bool)
    requires
        forall|t: u64, i: usize| read_entry.requires((t, i)),
    ensures
        forall|mem: spec_fn(u64, int) -> u64| #[trigger]
            reads_as(read_entry, mem) ==> r == user_readable(mem, pml4_phys, virt),
{
    let mut table_phys = pml4_phys;
    let mut level: u32 = 3;
    loop
        invariant
            level <= 3,
            forall|t: u64, i: usize| read_entry.requires((t, i)),
            forall|mem: spec_fn(u64, int) -> u64| #[trigger]
                reads_as(read_entry, mem) ==> user_readable(mem, pml4_phys, virt) == user_walk_spec(
                    mem,
                    table_phys,
                    virt,
                    level as int,
                ),
        decreases level,
    {
        let index = table_index(virt, level);
        let entry = read_entry(table_phys, index);
        if entry & PRESENT == 0 || entry & USER == 0 {
            proof {
                assert forall|mem: spec_fn(u64, int) -> u64| #[trigger]
                    reads_as(read_entry, mem) implies !user_readable(mem, pml4_phys, virt) by {
                    assert(read_entry.ensures((table_phys, index), entry));
                }
            }
            return false;
        }
        if level == 0 || (level <= 2 && entry & HUGE != 0) {
            proof {
                assert forall|mem: spec_fn(u64, int) -> u64| #[trigger]
                    reads_as(read_entry, mem) implies user_readable(mem, pml4_phys, virt) by {
                    assert(read_entry.ensures((table_phys, index), entry));
                }
            }
            return true;
        }
        let ghost old_table = table_phys;
        table_phys = entry & ADDR_MASK;
        level = level - 1;
        proof {
            assert forall|mem: spec_fn(u64, int) -> u64| #[trigger]
                reads_as(read_entry, mem) implies user_readable(mem, pml4_phys, virt)
                == user_walk_spec(mem, table_phys, virt, level as int) by {
                assert(read_entry.ensures((old_table, index), entry));
            }
        }
    }
}

/// Whether ring 3 could read every byte of `[ptr, ptr + len)` itself, through
/// the tables CR3 (given as `cr3`) points at: the range must end in the
/// canonical lower half and every page it touches must be present and
/// user-accessible at every level. The walk reads only the page tables, never
/// the range itself.
pub fn user_range_ok<F: Fn(u64, usize) -> u64>(read_entry: &F, cr3: u64, ptr: u64, len: u64) -> (ok: bool)
    requires
        forall|t: u64, i: usize| read_entry.requires((t, i)),
    ensures
        forall|mem: spec_fn(u64, int) -> u64| #[trigger]
            reads_as(read_entry, mem) ==> ok == user_range_spec(mem, cr3 & ADDR_MASK, ptr, len),
{
    let pml4 = cr3 & ADDR_MASK;
    if ptr > USER_LIMIT || len > USER_LIMIT - ptr {
        return false;
    }
    if len == 0 {
        return true;
    }
    let end: u64 = ptr + len;
    let mut page: u64 = ptr & !0xFFFu64;
    assert(page <= ptr && ptr - page < 4096 && page & 0xFFF == 0) by (bit_vector)
        requires
            page == ptr & !0xFFFu64,
    ;
    while page < end
        invariant
            forall|t: u64, i: usize| read_entry.requires((t, i)),
            pml4 == cr3 & ADDR_MASK,
            end == ptr + len,
            end <= USER_LIMIT,
            len > 0,
            page & 0xFFF == 0,
            page <= ptr ==> ptr - page < 4096,
            page <= end + 4096,
            forall|mem: spec_fn(u64, int) -> u64| #[trigger]
                reads_as(read_entry, mem) ==> forall|a: u64|
                    ptr <= a < page && a < end ==> #[trigger] user_readable(mem, pml4, a),
        decreases end + 4096 - page,
    {
        let here = user_accessible(read_entry, pml4, page);
        if !here {
            proof {
                let w: u64 = if page < ptr {
                    ptr
                } else {
                    page
                };
                assert(w & !0xFFFu64 == page) by (bit_vector)
                    requires
                        page & 0xFFF == 0,
                        page <= w,
                        w - page < 4096,
                ;
                assert(ptr <= w < ptr + len);
                assert forall|mem: spec_fn(u64, int) -> u64| #[trigger]
                    reads_as(read_entry, mem) implies !user_range_spec(mem, pml4, ptr, len) by {
                    lemma_user_walk_page(mem, pml4, w, page, 3);
                    assert(!user_readable(mem, pml4, w));
                }
            }
            return false;
        }
        proof {
            assert forall|mem: spec_fn(u64, int) -> u64| #[trigger]
                reads_as(read_entry, mem) implies forall|a: u64|
                ptr <= a < page + 4096 && a < end ==> #[trigger] user_readable(mem, pml4, a) by {
                assert forall|a: u64| ptr <= a < page + 4096 && a < end implies #[trigger] user_readable(
                    mem,
                    pml4,
                    a,
                ) by {
                    if a >= page {
                        assert(a & !0xFFFu64 == page) by (bit_vector)
                            requires
                                page & 0xFFF == 0,
                                page <= a,
                                a - page < 4096,
                        ;
                        lemma_user_walk_page(mem, pml4, a, page, 3);
                    }
                }
            }
        }
        let ghost before = page;
        page = page + 4096;
        assert(page & 0xFFF == 0) by (bit_vector)
            requires
                before & 0xFFF == 0,
                page == before + 4096,
        ;
    }
    true
}


/// The identity map's entry for the 2 MiB page `i`: physical `i` * 2 MiB,
/// present, writable, large.
pub open spec fn identity_pd_entry(i: int) -> u64 {
    ((i * 0x20_0000) as u64) | PRESENT | WRITABLE | HUGE
}

/// The identity map's stores: the PD's 512 large-page entries, then the
/// PDPT's first entry pointing at the PD, then the PML4's pointing at the PDPT.
pub open spec fn identity_writes(pml4: u64, pdpt: u64, pd: u64) -> Seq<EntryWrite> {
    Seq::new(512, |i: int| EntryWrite { table: pd, index: i as usize, value: identity_pd_entry(i) }) + seq![
        EntryWrite { table: pdpt, index: 0, value: pd | PRESENT | WRITABLE },
        EntryWrite { table: pml4, index: 0, value: pdpt | PRESENT | WRITABLE },
    ]
}

/// The stores that build, in three fresh zeroed tables, the map the boot code
/// gave the kernel: the first 1 GiB identity-mapped with 2 MiB pages. The PD's
/// 512 entries come first, then the PDPT's first entry, then the PML4's.
pub fn identity_map_writes(pml4: u64, pdpt: u64, pd: u64) -> (w: Vec<EntryWrite>)
    ensures
        w@ == identity_writes(pml4, pdpt, pd),
{
    let mut w: Vec<EntryWrite> = Vec::new();
    let mut i: u64 = 0;
    while i < 512
        invariant
            i <= 512,
            w@.len() == i,
            forall|j: int|
                0 <= j < i ==> #[trigger] w@[j] == (EntryWrite {
                    table: pd,
                    index: j as usize,
                    value: identity_pd_entry(j),
                }),
        decreases 512 - i,
    {
        let page = i * 0x20_0000;
        w.push(EntryWrite { table: pd, index: i as usize, value: page | PRESENT | WRITABLE | HUGE });
        i = i + 1;
    }
    w.push(EntryWrite { table: pdpt, index: 0, value: pd | PRESENT | WRITABLE });
    w.push(EntryWrite { table: pml4, index: 0, value: pdpt | PRESENT | WRITABLE });
    proof {
        assert(w@ =~= identity_writes(pml4, pdpt, pd));
    }
    w
}


/// Why a map walk failed.
#[derive(Clone, Copy, Debug, PartialEq, Eq, Structural)]
pub enum MapError {
    /// No physical frame was free for a needed intermediate page table.
    OutOfFrames,
    /// The virtual address already lies inside a huge page; it is not split.
    HugePage,
}

/// One page-table entry store: `value` into entry `index` of the table at
/// physical frame `table`.
#[derive(Clone, Copy, Debug, PartialEq, Eq, Structural)]
pub struct EntryWrite {
    pub table: u64,
    pub index: usize,
    pub value: u64,
}

/// What a map walk needs next.
#[derive(Clone, Copy, Debug, PartialEq, Eq, Structural)]
pub enum MapNext {
    /// Read entry `index` of the table at `table` and hand it to `on_entry`.
    ReadEntry { table: u64, index: usize },
    /// Allocate and zero a frame for a missing table and hand it to `on_table`.
    AllocTable,
    /// The leaf is written; flush the page's TLB entry.
    Mapped,
    /// The walk stopped with this error.
    Failed(MapError),
}

/// The stores one step asks for, in order, and what comes next.
pub struct MapStep {
    pub writes: Vec<EntryWrite>,
    pub next: MapNext,
}

/// A map walk in progress: the page and frame being mapped, the flags, whether
/// the mapping is for ring 3, and the table at `level` the walk has reached.
#[derive(Clone, Copy, Debug)]
pub struct MapWalk {
    virt: u64,
    phys: u64,
    flags: u64,
    user: bool,
    level: u32,
    table: u64,
}

/// `r` is a map walk just begun: the page and frame rounded down to 4 KiB, at
/// CR3's PML4, asking for the PML4 entry of the page.
pub open spec fn started(r: (MapWalk, MapNext), cr3: u64, virt: u64, phys: u64, flags: u64, user: bool) -> bool {
    &&& r.0.virt() == virt & !0xFFFu64
    &&& r.0.phys() == phys & !0xFFFu64
    &&& r.0.flags() == flags
    &&& r.0.user() == user
    &&& r.0.level() == 3
    &&& r.0.table() == cr3 & ADDR_MASK
    &&& r.1 == (MapNext::ReadEntry {
        table: cr3 & ADDR_MASK,
        index: index_spec(virt & !0xFFFu64, 3) as usize,
    })
}

/// Flags of a table the walk creates.
pub open spec fn new_table_flags(user: bool) -> u64 {
    if user {
        PRESENT | WRITABLE | USER
    } else {
        PRESENT | WRITABLE
    }
}

/// The leaf entry mapping `phys` with `flags`.
pub open spec fn leaf_entry(phys: u64, flags: u64, user: bool) -> u64 {
    phys | flags | PRESENT | if user {
        USER
    } else {
        0
    }
}

impl MapWalk {
    /// The page being walked for, rounded down to 4 KiB.
    pub closed spec fn virt(self) -> u64 {
        self.virt
    }

    /// The frame being mapped, rounded down to 4 KiB.
    pub closed spec fn phys(self) -> u64 {
        self.phys
    }

    /// The flags the leaf gets.
    pub closed spec fn flags(self) -> u64 {
        self.flags
    }

    /// Whether the mapping is for ring 3.
    pub closed spec fn user(self) -> bool {
        self.user
    }

    /// The level the walk has reached (3 = PML4, 0 = PT).
    pub closed spec fn level(self) -> int {
        self.level as int
    }

    /// The table the walk has reached at its level.
    pub closed spec fn table(self) -> u64 {
        self.table
    }

    /// The walk waits for a read or an allocation at a table above the PT.
    pub open spec fn waiting(self) -> bool {
        1 <= self.level() <= 3
    }

    /// The same walk, one level down at `table`.
    pub closed spec fn down(self, table: u64) -> MapWalk {
        MapWalk { level: (self.level - 1) as u32, table, ..self }
    }

    /// The walk one level down keeps everything but the level and the table.
    pub proof fn lemma_down(self, table: u64)
        requires
            self.level() >= 1,
        ensures
            self.down(table).virt() == self.virt(),
            self.down(table).phys() == self.phys(),
            self.down(table).flags() == self.flags(),
            self.down(table).user() == self.user(),
            self.down(table).level() == self.level() - 1,
            self.down(table).table() == table,
    {
    }

    /// What the walk asks for once it has reached `table` at its level: the
    /// next read above the PT, or at the PT the leaf store.
    pub open spec fn arrive_spec(self) -> (Seq<EntryWrite>, MapNext) {
        if self.level() >= 1 {
            (
                Seq::empty(),
                MapNext::ReadEntry {
                    table: self.table(),
                    index: index_spec(self.virt(), self.level()) as usize,
                },
            )
        } else {
            (
                seq![
                    EntryWrite {
                        table: self.table(),
                        index: index_spec(self.virt(), 0) as usize,
                        value: leaf_entry(self.phys(), self.flags(), self.user()),
                    },
                ],
                MapNext::Mapped,
            )
        }
    }

    fn arrive(&self) -> (s: MapStep)
        requires
            self.level <= 3,
        ensures
            (s.writes@, s.next) == self.arrive_spec(),
    {
        if self.level >= 1 {
            MapStep {
                writes: Vec::new(),
                next: MapNext::ReadEntry {
                    table: self.table,
                    index: table_index(self.virt, self.level),
                },
            }
        } else {
            let leaf = self.phys | self.flags | PRESENT | if self.user {
                USER
            } else {
                0
            };
            let mut writes = Vec::new();
            writes.push(
                EntryWrite { table: self.table, index: table_index(self.virt, 0), value: leaf },
            );
            proof {
                assert(writes@ =~= self.arrive_spec().0);
            }
            MapStep { writes, next: MapNext::Mapped }
        }
    }

    /// Begin mapping the 4 KiB page at `virt` to the frame at `phys` with
    /// `flags` (PRESENT is added), walking from CR3's PML4. `user` makes the
    /// leaf and every table on the walk reachable from ring 3. The addresses
    /// are rounded down to their page.
    pub fn start(cr3: u64, virt: u64, phys: u64, flags: u64, user: bool) -> (r: (MapWalk, MapNext))
        ensures
            started(r, cr3, virt, phys, flags, user),
    {
        let w = MapWalk {
            virt: virt & !(FRAME_SIZE - 1),
            phys: phys & !(FRAME_SIZE - 1),
            flags,
            user,
            level: 3,
            table: cr3 & ADDR_MASK,
        };
        let first = MapNext::ReadEntry { table: w.table, index: table_index(w.virt, 3) };
        (w, first)
    }

    /// What the walk does with the entry it read at its level: stop at a
    /// huge page, ask for a table where none is present, or descend, first
    /// adding U/S to a present table entry that lacks it when mapping for ring 3.
    pub open spec fn on_entry_spec(self, entry: u64) -> (MapWalk, Seq<EntryWrite>, MapNext) {
        if entry & PRESENT != 0 {
            if self.level() <= 2 && entry & HUGE != 0 {
                (self, Seq::empty(), MapNext::Failed(MapError::HugePage))
            } else {
                let w1: Seq<EntryWrite> = if self.user() && entry & USER == 0 {
                    seq![
                        EntryWrite {
                            table: self.table(),
                            index: index_spec(self.virt(), self.level()) as usize,
                            value: entry | USER,
                        },
                    ]
                } else {
                    Seq::empty()
                };
                let d = self.down(entry & ADDR_MASK);
                (d, w1 + d.arrive_spec().0, d.arrive_spec().1)
            }
        } else {
            (self, Seq::empty(), MapNext::AllocTable)
        }
    }

    /// Hand the walk the entry read at its level.
    pub fn on_entry(&mut self, entry: u64) -> (s: MapStep)
        requires
            old(self).waiting(),
        ensures
            (*final(self), s.writes@, s.next) == old(self).on_entry_spec(entry),
    {
        if entry & PRESENT != 0 {
            if self.level <= 2 && entry & HUGE != 0 {
                return MapStep { writes: Vec::new(), next: MapNext::Failed(MapError::HugePage) };
            }
            let mut writes: Vec<EntryWrite> = Vec::new();
            if self.user && entry & USER == 0 {
                writes.push(
                    EntryWrite {
                        table: self.table,
                        index: table_index(self.virt, self.level),
                        value: entry | USER,
                    },
                );
            }
            self.table = entry & ADDR_MASK;
            self.level = self.level - 1;
            let mut rest = self.arrive();
            let ghost w1 = writes@;
            writes.append(&mut rest.writes);
            proof {
                assert(*self == old(self).down(entry & ADDR_MASK));
                assert(writes@ =~= old(self).on_entry_spec(entry).1);
            }
            MapStep { writes, next: rest.next }
        } else {
            MapStep { writes: Vec::new(), next: MapNext::AllocTable }
        }
    }

    /// What the walk does with the fresh table it asked for: fail when none
    /// could be had, else link it into the table at its level and descend.
    pub open spec fn on_table_spec(self, table: Option<u64>) -> (MapWalk, Seq<EntryWrite>, MapNext) {
        match table {
            None => (self, Seq::empty(), MapNext::Failed(MapError::OutOfFrames)),
            Some(next) => {
                let d = self.down(next);
                (
                    d,
                    seq![
                        EntryWrite {
                            table: self.table(),
                            index: index_spec(self.virt(), self.level()) as usize,
                            value: next | new_table_flags(self.user()),
                        },
                    ] + d.arrive_spec().0,
                    d.arrive_spec().1,
                )
            },
        }
    }

    /// Hand the walk the frame allocated (and zeroed) for a missing table, or
    /// `None` if no frame was free.
    pub fn on_table(&mut self, table: Option<u64>) -> (s: MapStep)
        requires
            old(self).waiting(),
        ensures
            (*final(self), s.writes@, s.next) == old(self).on_table_spec(table),
    {
        match table {
            None => MapStep { writes: Vec::new(), next: MapNext::Failed(MapError::OutOfFrames) },
            Some(next) => {
                let new_table = if self.user {
                    PRESENT | WRITABLE | USER
                } else {
                    PRESENT | WRITABLE
                };
                let mut writes: Vec<EntryWrite> = Vec::new();
                writes.push(
                    EntryWrite {
                        table: self.table,
                        index: table_index(self.virt, self.level),
                        value: next | new_table,
                    },
                );
                self.table = next;
                self.level = self.level - 1;
                let mut rest = self.arrive();
                writes.append(&mut rest.writes);
                proof {
                    assert(*self == old(self).down(next));
                    assert(writes@ =~= old(self).on_table_spec(table).1);
                }
                MapStep { writes, next: rest.next }
            },
        }
    }
}

/// Begin mapping a supervisor-only page: ring 3 cannot reach it.
pub fn map_page(cr3: u64, virt: u64, phys: u64, flags: u64) -> (r: (MapWalk, MapNext))
    ensures
        started(r, cr3, virt, phys, flags, false),
{
    MapWalk::start(cr3, virt, phys, flags, false)
}

/// Begin mapping a page reachable from ring 3: U/S is set on the leaf and on
/// every table on the walk. The page must lie above the 1 GiB identity window,
/// whose 2 MiB pages would otherwise be loosened and then refused.
pub fn map_user_page(cr3: u64, virt: u64, phys: u64, flags: u64) -> (r: (MapWalk, MapNext))
    requires
        virt >= IDENTITY_LIMIT,
    ensures
        started(r, cr3, virt, phys, flags, true),
{
    MapWalk::start(cr3, virt, phys, flags, true)
}


/// What an unmap walk needs next.
#[derive(Clone, Copy, Debug, PartialEq, Eq, Structural)]
pub enum UnmapNext {
    /// Read entry `index` of the table at `table` and hand it to `on_entry`.
    ReadEntry { table: u64, index: usize },
    /// The walk is over: `true` if the page was mapped and its leaf is cleared
    /// (flush its TLB entry), `false` if it was not mapped.
    Done(bool),
}

/// The store an unmap step asks for, if any, and what comes next.
#[derive(Clone, Copy, Debug, PartialEq, Eq, Structural)]
pub struct UnmapStep {
    pub write: Option<EntryWrite>,
    pub next: UnmapNext,
}

/// An unmap walk in progress: the page, and the table at `level` reached.
#[derive(Clone, Copy, Debug)]
pub struct UnmapWalk {
    virt: u64,
    level: u32,
    table: u64,
}

impl UnmapWalk {
    /// The page being walked for, rounded down to 4 KiB.
    pub closed spec fn virt(self) -> u64 {
        self.virt
    }

    /// The level the walk has reached (3 = PML4, 0 = PT).
    pub closed spec fn level(self) -> int {
        self.level as int
    }

    /// The table the walk has reached at its level.
    pub closed spec fn table(self) -> u64 {
        self.table
    }

    /// The same walk, one level down at `table`.
    pub closed spec fn down(self, table: u64) -> UnmapWalk {
        UnmapWalk { level: (self.level - 1) as u32, table, ..self }
    }

    /// The walk one level down keeps everything but the level and the table.
    pub proof fn lemma_down(self, table: u64)
        requires
            self.level() >= 1,
        ensures
            self.down(table).virt() == self.virt(),
            self.down(table).level() == self.level() - 1,
            self.down(table).table() == table,
    {
    }

    /// Begin unmapping the 4 KiB page at `virt` (rounded down to its page),
    /// walking from CR3's PML4.
    pub fn start(cr3: u64, virt: u64) -> (r: (UnmapWalk, UnmapNext))
        ensures
            unmap_started(r, cr3, virt),
    {
        let w = UnmapWalk { virt: virt & !(FRAME_SIZE - 1), level: 3, table: cr3 & ADDR_MASK };
        let first = UnmapNext::ReadEntry { table: w.table, index: table_index(w.virt, 3) };
        (w, first)
    }

    /// What the walk does with the entry read at its level: above the PT it
    /// stops at a missing entry or a huge page and otherwise descends; at the
    /// PT it stops at a missing entry and otherwise clears the leaf.
    pub open spec fn on_entry_spec(self, entry: u64) -> (UnmapWalk, UnmapStep) {
        if self.level() >= 1 {
            if entry & PRESENT == 0 || entry & HUGE != 0 {
                (self, UnmapStep { write: None, next: UnmapNext::Done(false) })
            } else {
                let d = self.down(entry & ADDR_MASK);
                (
                    d,
                    UnmapStep {
                        write: None,
                        next: UnmapNext::ReadEntry {
                            table: entry & ADDR_MASK,
                            index: index_spec(self.virt(), self.level() - 1) as usize,
                        },
                    },
                )
            }
        } else if entry & PRESENT == 0 {
            (self, UnmapStep { write: None, next: UnmapNext::Done(false) })
        } else {
            (
                self,
                UnmapStep {
                    write: Some(
                        EntryWrite {
                            table: self.table(),
                            index: index_spec(self.virt(), 0) as usize,
                            value: 0,
                        },
                    ),
                    next: UnmapNext::Done(true),
                },
            )
        }
    }

    /// Hand the walk the entry read at its level.
    pub fn on_entry(&mut self, entry: u64) -> (s: UnmapStep)
        requires
            0 <= old(self).level() <= 3,
        ensures
            (*final(self), s) == old(self).on_entry_spec(entry),
    {
        if self.level >= 1 {
            if entry & PRESENT == 0 || entry & HUGE != 0 {
                return UnmapStep { write: None, next: UnmapNext::Done(false) };
            }
            self.table = entry & ADDR_MASK;
            self.level = self.level - 1;
            proof {
                assert(*self == old(self).down(entry & ADDR_MASK));
            }
            UnmapStep {
                write: None,
                next: UnmapNext::ReadEntry {
                    table: self.table,
                    index: table_index(self.virt, self.level),
                },
            }
        } else if entry & PRESENT == 0 {
            UnmapStep { write: None, next: UnmapNext::Done(false) }
        } else {
            UnmapStep {
                write: Some(EntryWrite { table: self.table, index: table_index(self.virt, 0), value: 0 }),
                next: UnmapNext::Done(true),
            }
        }
    }
}

/// Begin unmapping the 4 KiB page at `virt`.
pub fn unmap_page(cr3: u64, virt: u64) -> (r: (UnmapWalk, UnmapNext))
    ensures
        unmap_started(r, cr3, virt),
{
    UnmapWalk::start(cr3, virt)
}

/// `mem` after storing `w`.
pub open spec fn store_spec(mem: spec_fn(u64, int) -> u64, w: EntryWrite) -> spec_fn(u64, int) -> u64 {
    |t: u64, i: int|
        if t == w.table && i == w.index as int {
            w.value
        } else {
            mem(t, i)
        }
}

/// `mem` after the stores `ws`, in order.
pub open spec fn stores_spec(mem: spec_fn(u64, int) -> u64, ws: Seq<EntryWrite>) -> spec_fn(u64, int) -> u64
    decreases ws.len(),
{
    if ws.len() == 0 {
        mem
    } else {
        stores_spec(store_spec(mem, ws[0]), ws.drop_first())
    }
}

/// An unmap walk run to its end against `mem`, at most `fuel` reads: the
/// memory after its store, and whether it cleared a leaf.
pub open spec fn unmap_run(mem: spec_fn(u64, int) -> u64, w: UnmapWalk, next: UnmapNext, fuel: nat) -> (
    spec_fn(u64, int) -> u64,
    bool,
)
    decreases fuel,
{
    match next {
        UnmapNext::Done(b) => (mem, b),
        UnmapNext::ReadEntry { table, index } => {
            if fuel == 0 {
                (mem, false)
            } else {
                let (w2, s) = w.on_entry_spec(mem(table, index as int));
                let mem2 = match s.write {
                    Some(x) => store_spec(mem, x),
                    None => mem,
                };
                unmap_run(mem2, w2, s.next, (fuel - 1) as nat)
            }
        },
    }
}

/// The page-table slot of the 4 KiB leaf that maps `v`, walking from `table`
/// at `level` down as an unmap walk does: `None` at a missing entry, a huge
/// page, or a missing leaf.
pub open spec fn leaf_slot(mem: spec_fn(u64, int) -> u64, table: u64, v: u64, level: int) -> Option<
    (u64, int),
>
    decreases level,
{
    if level < 0 {
        None
    } else {
        let i = index_spec(v, level);
        let e = mem(table, i);
        if level == 0 {
            if e & PRESENT == 0 {
                None
            } else {
                Some((table, i))
            }
        } else if e & PRESENT == 0 || e & HUGE != 0 {
            None
        } else {
            leaf_slot(mem, e & ADDR_MASK, v, level - 1)
        }
    }
}

proof fn lemma_index_bound(v: u64, level: int)
    requires
        0 <= level <= 3,
    ensures
        0 <= index_spec(v, level) < 512,
{
    let s = (12 + 9 * level) as u64;
    assert((v >> s) & 0x1FF < 512) by (bit_vector);
}

/// An unmap walk from `w` clears exactly the leaf slot `leaf_slot` finds, and
/// changes nothing when there is none.
proof fn lemma_unmap_run(mem: spec_fn(u64, int) -> u64, w: UnmapWalk, fuel: nat)
    requires
        0 <= w.level() <= 3,
        fuel >= w.level() + 1,
    ensures
        unmap_run(
            mem,
            w,
            UnmapNext::ReadEntry { table: w.table(), index: index_spec(w.virt(), w.level()) as usize },
            fuel,
        ) == match leaf_slot(mem, w.table(), w.virt(), w.level()) {
            Some((t, i)) => (store_spec(mem, EntryWrite { table: t, index: i as usize, value: 0 }), true),
            None => (mem, false),
        },
    decreases w.level(),
{
    reveal_with_fuel(unmap_run, 2);
    lemma_index_bound(w.virt(), w.level());
    let i = index_spec(w.virt(), w.level());
    let e = mem(w.table(), i);
    assert((i as usize) as int == i);
    if w.level() >= 1 && !(e & PRESENT == 0 || e & HUGE != 0) {
        let d = w.down(e & ADDR_MASK);
        w.lemma_down(e & ADDR_MASK);
        lemma_unmap_run(mem, d, (fuel - 1) as nat);
    }
}

proof fn lemma_leaf_slot_index(mem: spec_fn(u64, int) -> u64, table: u64, v: u64, level: int)
    requires
        leaf_slot(mem, table, v, level) is Some,
    ensures
        leaf_slot(mem, table, v, level).unwrap().1 == index_spec(v, 0),
    decreases level,
{
    if level > 0 {
        let e = mem(table, index_spec(v, level));
        lemma_leaf_slot_index(mem, e & ADDR_MASK, v, level - 1);
    }
}

/// With the leaf slot `leaf_slot` finds from `table` cleared, no address of
/// the page translates through `table` any more.
proof fn lemma_cleared_unmapped(mem: spec_fn(u64, int) -> u64, table: u64, v: u64, a: u64, level: int)
    requires
        0 <= level <= 3,
        v == a & !0xFFFu64,
        leaf_slot(mem, table, v, level) is Some,
    ensures
        ({
            let (t, i) = leaf_slot(mem, table, v, level).unwrap();
            walk_spec(store_spec(mem, EntryWrite { table: t, index: i as usize, value: 0 }), table, a, level)
                is None
        }),
    decreases level,
{
    let (t, i) = leaf_slot(mem, table, v, level).unwrap();
    let m2 = store_spec(mem, EntryWrite { table: t, index: i as usize, value: 0 });
    lemma_leaf_slot_index(mem, table, v, level);
    lemma_index_bound(v, 0);
    assert((i as usize) as int == i);
    lemma_index_page(a, v, level);
    lemma_index_bound(v, level);
    let j = index_spec(v, level);
    let e = mem(table, j);
    lemma_upgrade_bits(0);
    if level >= 1 {
        lemma_index_bound(v, level - 1);
        if !(table == t && j == i) {
            assert(m2(table, j) == e);
            lemma_cleared_unmapped(mem, e & ADDR_MASK, v, a, level - 1);
        }
    } else {
        assert((i as usize) as int == i);
    }
}

/// `r` is an unmap walk just begun for the page of `virt`, at CR3's PML4.
pub open spec fn unmap_started(r: (UnmapWalk, UnmapNext), cr3: u64, virt: u64) -> bool {
    &&& r.0.virt() == virt & !0xFFFu64
    &&& r.0.level() == 3
    &&& r.0.table() == cr3 & ADDR_MASK
    &&& r.1 == (UnmapNext::ReadEntry {
        table: cr3 & ADDR_MASK,
        index: index_spec(virt & !0xFFFu64, 3) as usize,
    })
}

/// Unmapping then translating: once an unmap walk run to its end reports the
/// page unmapped, no address of that page translates; when it reports the
/// page was not mapped by a 4 KiB leaf, the tables are unchanged.
pub proof fn law_unmap_then_translate(
    mem: spec_fn(u64, int) -> u64,
    r: (UnmapWalk, UnmapNext),
    cr3: u64,
    virt: u64,
    a: u64,
)
    requires
        unmap_started(r, cr3, virt),
        a & !0xFFFu64 == virt & !0xFFFu64,
    ensures
        ({
            let (after, removed) = unmap_run(mem, r.0, r.1, 4);
            &&& removed ==> translate_spec(after, cr3 & ADDR_MASK, a) is None
            &&& !removed ==> after == mem
        }),
{
    lemma_unmap_run(mem, r.0, 4);
    if leaf_slot(mem, r.0.table(), r.0.virt(), 3) is Some {
        lemma_cleared_unmapped(mem, cr3 & ADDR_MASK, virt & !0xFFFu64, a, 3);
    }
}

/// `mem` with every entry of the table at `t` zero: a freshly zeroed frame.
pub open spec fn zeroed_spec(mem: spec_fn(u64, int) -> u64, t: u64) -> spec_fn(u64, int) -> u64 {
    |t2: u64, i: int|
        if t2 == t {
            0u64
        } else {
            mem(t2, i)
        }
}

/// A map walk run to its end against `mem`, at most `fuel` steps: each read
/// is answered from the memory as it stands, each table asked for is the next
/// of `fresh`, zeroed (or none once `fresh` is used up), and each step's
/// stores are applied in order. The memory at the end, and how the walk ended.
pub open spec fn map_run(
    mem: spec_fn(u64, int) -> u64,
    w: MapWalk,
    next: MapNext,
    fresh: Seq<u64>,
    fuel: nat,
) -> (spec_fn(u64, int) -> u64, MapNext)
    decreases fuel,
{
    if fuel == 0 {
        (mem, next)
    } else {
        match next {
            MapNext::ReadEntry { table, index } => {
                let (w2, ws, n2) = w.on_entry_spec(mem(table, index as int));
                map_run(stores_spec(mem, ws), w2, n2, fresh, (fuel - 1) as nat)
            },
            MapNext::AllocTable => {
                if fresh.len() == 0 {
                    let (w2, ws, n2) = w.on_table_spec(None);
                    (stores_spec(mem, ws), n2)
                } else {
                    let t = fresh[0];
                    let (w2, ws, n2) = w.on_table_spec(Some(t));
                    map_run(stores_spec(zeroed_spec(mem, t), ws), w2, n2, fresh.drop_first(), (fuel - 1) as nat)
                }
            },
            _ => (mem, next),
        }
    }
}

/// The page tables a map walk for `v` passes through from `table` at `level`
/// down, as long as it finds a present, non-huge entry leading on.
pub open spec fn present_tables(mem: spec_fn(u64, int) -> u64, table: u64, v: u64, level: int) -> Seq<u64>
    decreases level,
{
    if level < 1 {
        seq![table]
    } else {
        let e = mem(table, index_spec(v, level));
        if e & PRESENT != 0 && !(level <= 2 && e & HUGE != 0) {
            seq![table] + present_tables(mem, e & ADDR_MASK, v, level - 1)
        } else {
            seq![table]
        }
    }
}

proof fn lemma_present_tables_frame(
    m1: spec_fn(u64, int) -> u64,
    m2: spec_fn(u64, int) -> u64,
    table: u64,
    v: u64,
    level: int,
)
    requires
        forall|t: u64, i: int| present_tables(m1, table, v, level).contains(t) ==> #[trigger] m1(t, i) == m2(t, i),
    ensures
        present_tables(m2, table, v, level) == present_tables(m1, table, v, level),
    decreases level,
{
    assert(present_tables(m1, table, v, level)[0] == table);
    if level >= 1 {
        let e = m1(table, index_spec(v, level));
        assert(m2(table, index_spec(v, level)) == e);
        if e & PRESENT != 0 && !(level <= 2 && e & HUGE != 0) {
            let rest = present_tables(m1, e & ADDR_MASK, v, level - 1);
            assert forall|t: u64, i: int| rest.contains(t) implies #[trigger] m1(t, i) == m2(t, i) by {
                let k = choose|k: int| 0 <= k < rest.len() && rest[k] == t;
                assert(present_tables(m1, table, v, level)[k + 1] == t);
            }
            lemma_present_tables_frame(m1, m2, e & ADDR_MASK, v, level - 1);
        }
    }
}

proof fn lemma_upgrade_bits(e: u64)
    ensures
        e & PRESENT != 0 ==> (e | USER) & PRESENT != 0,
        (e | USER) & HUGE == e & HUGE,
        (e | USER) & ADDR_MASK == e & ADDR_MASK,
        (e | USER) & USER != 0,
        0u64 & PRESENT == 0,
{
    assert((e & 1 != 0 ==> (e | 4) & 1 != 0) && (e | 4) & 0x80 == e & 0x80 && (e | 4)
        & 0x000F_FFFF_FFFF_F000 == e & 0x000F_FFFF_FFFF_F000 && (e | 4) & 4 != 0 && 0u64 & 1 == 0)
        by (bit_vector);
}

proof fn lemma_link_bits(t: u64, user: bool)
    requires
        t & ADDR_MASK == t,
    ensures
        (t | new_table_flags(user)) & ADDR_MASK == t,
        (t | new_table_flags(user)) & PRESENT != 0,
        (t | new_table_flags(user)) & HUGE == 0,
        (t | new_table_flags(user)) & WRITABLE != 0,
        user ==> (t | new_table_flags(user)) & USER != 0,
        !user ==> (t | new_table_flags(user)) & USER == 0,
{
    assert(1u64 | 2u64 | 4u64 == 7u64 && 1u64 | 2u64 == 3u64 && (t | 7) & 0x000F_FFFF_FFFF_F000 == t
        && (t | 7) & 1 != 0 && (t | 7) & 0x80 == 0 && (t | 7) & 4 != 0 && (t | 7) & 2 != 0 && (t | 3)
        & 0x000F_FFFF_FFFF_F000 == t && (t | 3) & 1 != 0 && (t | 3) & 0x80 == 0 && (t | 3) & 2 != 0
        && (t | 3) & 4 == 0) by (bit_vector)
        requires
            t & 0x000F_FFFF_FFFF_F000 == t,
    ;
}

proof fn lemma_leaf_bits(p: u64, flags: u64, user: bool)
    requires
        p & ADDR_MASK == p,
        flags & ADDR_MASK == 0,
    ensures
        leaf_entry(p, flags, user) & ADDR_MASK == p,
        leaf_entry(p, flags, user) & PRESENT != 0,
        leaf_entry(p, flags, user) & flags == flags,
        user ==> leaf_entry(p, flags, user) & USER != 0,
        p + 0xFFF <= u64::MAX,
{
    assert((p | flags | 1 | 4) & 0x000F_FFFF_FFFF_F000 == p && (p | flags | 1 | 4) & 1 != 0 && (p
        | flags | 1 | 4) & 4 != 0 && (p | flags | 1 | 0) & 0x000F_FFFF_FFFF_F000 == p && (p | flags | 1
        | 0) & 1 != 0 && (p | flags | 1 | 4) & flags == flags && (p | flags | 1 | 0) & flags == flags
        && p + 0xFFF <= 0xFFFF_FFFF_FFFF_FFFF) by (bit_vector)
        requires
            p & 0x000F_FFFF_FFFF_F000 == p,
            flags & 0x000F_FFFF_FFFF_F000 == 0,
    ;
}

proof fn lemma_stores_small(m: spec_fn(u64, int) -> u64, x: EntryWrite, y: EntryWrite)
    ensures
        stores_spec(m, Seq::<EntryWrite>::empty()) == m,
        stores_spec(m, seq![x]) == store_spec(m, x),
        stores_spec(m, seq![x, y]) == store_spec(store_spec(m, x), y),
{
    reveal_with_fuel(stores_spec, 3);
    assert(seq![x].drop_first() =~= Seq::<EntryWrite>::empty());
    assert(seq![x, y].drop_first() =~= seq![y]);
    assert(seq![y].drop_first() =~= Seq::<EntryWrite>::empty());
}

/// The result a finished map walk promises for `a` below the table at
/// `level`: the page's frame plus `a`'s offset, and, for a ring-3 mapping,
/// every entry on the way user-accessible.
pub open spec fn mapped_below(mem: spec_fn(u64, int) -> u64, w: MapWalk, table: u64, a: u64, level: int) -> bool {
    &&& walk_spec(mem, table, a, level) == Some((w.phys() + (a & 0xFFF)) as u64)
    &&& w.user() ==> user_walk_spec(mem, table, a, level)
}

proof fn lemma_nodup_split(x: u64, rest: Seq<u64>, fresh: Seq<u64>)
    requires
        (seq![x] + rest + fresh).no_duplicates(),
    ensures
        (rest + fresh).no_duplicates(),
        !rest.contains(x),
        !fresh.contains(x),
{
    let all = seq![x] + rest + fresh;
    assert forall|i: int, j: int| 0 <= i < j < (rest + fresh).len() implies (rest + fresh)[i] != (rest
        + fresh)[j] by {
        assert((rest + fresh)[i] == all[i + 1]);
        assert((rest + fresh)[j] == all[j + 1]);
    }
    if rest.contains(x) {
        let k = choose|k: int| 0 <= k < rest.len() && rest[k] == x;
        assert(all[0] == all[k + 1]);
    }
    if fresh.contains(x) {
        let k = choose|k: int| 0 <= k < fresh.len() && fresh[k] == x;
        assert(all[0] == all[1 + rest.len() + k]);
    }
}

/// What the walk promises once it has run its course below `table`.
pub open spec fn map_done(
    m: spec_fn(u64, int) -> u64,
    w: MapWalk,
    fresh: Seq<u64>,
    fuel: nat,
    a: u64,
) -> bool {
    let (after, n) = map_run(
        m,
        w,
        MapNext::ReadEntry { table: w.table(), index: index_spec(w.virt(), w.level()) as usize },
        fresh,
        fuel,
    );
    &&& n == MapNext::Mapped ==> mapped_below(after, w, w.table(), a, w.level())
    &&& forall|t: u64, i: int|
        !(present_tables(m, w.table(), w.virt(), w.level()).contains(t) || fresh.contains(t))
            ==> #[trigger] after(t, i) == m(t, i)
}

/// The requirements a waiting map walk's run is proved under.
pub open spec fn map_ready(m: spec_fn(u64, int) -> u64, w: MapWalk, fresh: Seq<u64>, fuel: nat, a: u64) -> bool {
    &&& 1 <= w.level() <= 3
    &&& fuel >= 2 * w.level()
    &&& w.virt() == a & !0xFFFu64
    &&& w.phys() & ADDR_MASK == w.phys()
    &&& w.flags() & ADDR_MASK == 0
    &&& forall|k: int| 0 <= k < fresh.len() ==> #[trigger] fresh[k] & ADDR_MASK == fresh[k]
    &&& (present_tables(m, w.table(), w.virt(), w.level()) + fresh).no_duplicates()
}

proof fn lemma_walk_facts(w: MapWalk, a: u64)
    requires
        1 <= w.level() <= 3,
        w.virt() == a & !0xFFFu64,
    ensures
        0 <= index_spec(w.virt(), w.level()) < 512,
        0 <= index_spec(w.virt(), w.level() - 1) < 512,
        0 <= index_spec(w.virt(), 0) < 512,
        index_spec(a, w.level()) == index_spec(w.virt(), w.level()),
        index_spec(a, w.level() - 1) == index_spec(w.virt(), w.level() - 1),
        index_spec(a, 0) == index_spec(w.virt(), 0),
{
    lemma_index_bound(w.virt(), w.level());
    lemma_index_bound(w.virt(), w.level() - 1);
    lemma_index_bound(w.virt(), 0);
    lemma_index_page(a, w.virt(), w.level());
    lemma_index_page(a, w.virt(), w.level() - 1);
    lemma_index_page(a, w.virt(), 0);
}

/// The walk finds a present table entry above the PT and descends into it.
proof fn lemma_map_existing_deeper(m: spec_fn(u64, int) -> u64, w: MapWalk, fresh: Seq<u64>, fuel: nat, a: u64)
    requires
        map_ready(m, w, fresh, fuel, a),
        w.level() >= 2,
        m(w.table(), index_spec(w.virt(), w.level())) & PRESENT != 0,
        !(w.level() <= 2 && m(w.table(), index_spec(w.virt(), w.level())) & HUGE != 0),
    ensures
        map_done(m, w, fresh, fuel, a),
    decreases w.level(), 0int,
{
    lemma_walk_facts(w, a);
    let v = w.virt();
    let lv = w.level();
    let tb = w.table();
    let i = index_spec(v, lv);
    let e = m(tb, i);
    lemma_upgrade_bits(e);
    let child = e & ADDR_MASK;
    let d = w.down(child);
    w.lemma_down(child);
    let up = EntryWrite { table: tb, index: i as usize, value: e | USER };
    let w1: Seq<EntryWrite> = if w.user() && e & USER == 0 {
        seq![up]
    } else {
        Seq::empty()
    };
    assert(w.on_entry_spec(e).1 =~= w1);
    let rest = present_tables(m, child, v, lv - 1);
    assert(present_tables(m, tb, v, lv) == seq![tb] + rest);
    lemma_nodup_split(tb, rest, fresh);
    lemma_stores_small(m, up, up);
    let m1 = stores_spec(m, w1);
    assert forall|t: u64, j: int| t != tb implies #[trigger] m1(t, j) == m(t, j) by {}
    assert forall|t: u64, j: int| rest.contains(t) implies #[trigger] m(t, j) == m1(t, j) by {}
    lemma_present_tables_frame(m, m1, child, v, lv - 1);
    lemma_map_run(m1, d, fresh, (fuel - 1) as nat, a);
    let (after, n) = map_run(
        m1,
        d,
        MapNext::ReadEntry { table: d.table(), index: index_spec(d.virt(), d.level()) as usize },
        fresh,
        (fuel - 1) as nat,
    );
    assert((i as usize) as int == i);
    assert(after(tb, i) == m1(tb, i));
    if n == MapNext::Mapped {
        assert(mapped_below(after, w, tb, a, lv));
    }
    assert forall|x: u64, j: int|
        !(present_tables(m, tb, v, lv).contains(x) || fresh.contains(x)) implies #[trigger] after(x, j)
        == m(x, j) by {
        assert(present_tables(m, tb, v, lv)[0] == tb);
        if rest.contains(x) {
            let k = choose|k: int| 0 <= k < rest.len() && rest[k] == x;
            assert(present_tables(m, tb, v, lv)[k + 1] == x);
        }
        assert(!present_tables(m1, child, v, lv - 1).contains(x));
        assert(after(x, j) == m1(x, j));
    }
}

/// The walk finds a present table entry at the PD and arrives at the PT.
proof fn lemma_map_existing_leaf(m: spec_fn(u64, int) -> u64, w: MapWalk, fresh: Seq<u64>, fuel: nat, a: u64)
    requires
        map_ready(m, w, fresh, fuel, a),
        w.level() == 1,
        m(w.table(), index_spec(w.virt(), 1)) & PRESENT != 0,
        m(w.table(), index_spec(w.virt(), 1)) & HUGE == 0,
    ensures
        map_done(m, w, fresh, fuel, a),
{
    reveal_with_fuel(map_run, 2);
    lemma_walk_facts(w, a);
    let v = w.virt();
    let tb = w.table();
    let i = index_spec(v, 1);
    let e = m(tb, i);
    lemma_upgrade_bits(e);
    lemma_leaf_bits(w.phys(), w.flags(), w.user());
    let child = e & ADDR_MASK;
    let d = w.down(child);
    w.lemma_down(child);
    let up = EntryWrite { table: tb, index: i as usize, value: e | USER };
    let leaf = EntryWrite {
        table: child,
        index: index_spec(v, 0) as usize,
        value: leaf_entry(w.phys(), w.flags(), w.user()),
    };
    let w1: Seq<EntryWrite> = if w.user() && e & USER == 0 {
        seq![up]
    } else {
        Seq::empty()
    };
    assert(d.arrive_spec().0 =~= seq![leaf]);
    assert(w.on_entry_spec(e).1 =~= w1 + seq![leaf]);
    lemma_stores_small(m, up, leaf);
    lemma_stores_small(m, leaf, leaf);
    if w.user() && e & USER == 0 {
        assert(w1 + seq![leaf] =~= seq![up, leaf]);
    } else {
        assert(w1 + seq![leaf] =~= seq![leaf]);
    }
    let rest = present_tables(m, child, v, 0);
    assert(present_tables(m, tb, v, 1) == seq![tb] + rest);
    assert(rest == seq![child]);
    lemma_nodup_split(tb, rest, fresh);
    assert(child != tb) by {
        assert(rest[0] == child);
    }
    assert((i as usize) as int == i);
    assert((index_spec(v, 0) as usize) as int == index_spec(v, 0));
    let after = stores_spec(m, w1 + seq![leaf]);
    assert(after(child, index_spec(v, 0)) == leaf.value);
    assert(after(tb, i) == if w.user() && e & USER == 0 {
        e | USER
    } else {
        e
    });
    reveal_with_fuel(walk_spec, 2);
    reveal_with_fuel(user_walk_spec, 2);
    assert(mapped_below(after, w, tb, a, 1));
    assert(map_run(m, w, MapNext::ReadEntry { table: tb, index: i as usize }, fresh, fuel) == (
        after,
        MapNext::Mapped,
    ));
    assert forall|x: u64, j: int|
        !(present_tables(m, tb, v, 1).contains(x) || fresh.contains(x)) implies #[trigger] after(x, j)
        == m(x, j) by {
        assert(present_tables(m, tb, v, 1)[0] == tb);
        assert(present_tables(m, tb, v, 1)[1] == child);
    }
}

/// The walk finds no table at its level above the PD, links a fresh one and
/// descends into it.
proof fn lemma_map_fresh_deeper(m: spec_fn(u64, int) -> u64, w: MapWalk, fresh: Seq<u64>, fuel: nat, a: u64)
    requires
        map_ready(m, w, fresh, fuel, a),
        w.level() >= 2,
        m(w.table(), index_spec(w.virt(), w.level())) & PRESENT == 0,
        fresh.len() > 0,
    ensures
        map_done(m, w, fresh, fuel, a),
    decreases w.level(), 0int,
{
    reveal_with_fuel(map_run, 2);
    lemma_walk_facts(w, a);
    let v = w.virt();
    let lv = w.level();
    let tb = w.table();
    let i = index_spec(v, lv);
    let e = m(tb, i);
    lemma_upgrade_bits(e);
    assert(present_tables(m, tb, v, lv) == seq![tb]);
    assert(w.on_entry_spec(e).1 =~= Seq::<EntryWrite>::empty());
    let t = fresh[0];
    let rest_fresh = fresh.drop_first();
    assert(fresh =~= seq![t] + rest_fresh);
    assert(seq![tb] + fresh =~= seq![tb] + seq![t] + rest_fresh);
    lemma_nodup_split(tb, seq![t], rest_fresh);
    assert((seq![tb] + Seq::<u64>::empty() + fresh) =~= seq![tb] + fresh);
    lemma_nodup_split(tb, Seq::<u64>::empty(), fresh);
    assert(t & ADDR_MASK == t);
    lemma_link_bits(t, w.user());
    let d = w.down(t);
    w.lemma_down(t);
    let nf = new_table_flags(w.user());
    let link = EntryWrite { table: tb, index: i as usize, value: t | nf };
    let mz = zeroed_spec(m, t);
    assert(w.on_table_spec(Some(t)).1 =~= seq![link]);
    lemma_stores_small(mz, link, link);
    let m1 = store_spec(mz, link);
    assert(m1(t, index_spec(v, lv - 1)) == 0);
    assert(present_tables(m1, t, v, lv - 1) =~= seq![t]);
    assert((present_tables(m1, t, v, lv - 1) + rest_fresh) =~= fresh);
    assert forall|k: int| 0 <= k < rest_fresh.len() implies #[trigger] rest_fresh[k] & ADDR_MASK
        == rest_fresh[k] by {
        assert(rest_fresh[k] == fresh[k + 1]);
    }
    lemma_map_run(m1, d, rest_fresh, (fuel - 2) as nat, a);
    let (after, n) = map_run(
        m1,
        d,
        MapNext::ReadEntry { table: d.table(), index: index_spec(d.virt(), d.level()) as usize },
        rest_fresh,
        (fuel - 2) as nat,
    );
    assert(after(tb, i) == m1(tb, i));
    assert forall|x: u64, j: int|
        !(seq![tb].contains(x) || fresh.contains(x)) implies #[trigger] after(x, j) == m(x, j) by {
        assert(seq![tb][0] == tb);
        assert(fresh[0] == t);
        assert(seq![t][0] == t);
        if rest_fresh.contains(x) {
            let k = choose|k: int| 0 <= k < rest_fresh.len() && rest_fresh[k] == x;
            assert(fresh[k + 1] == x);
        }
        assert(!(present_tables(m1, t, v, lv - 1) + rest_fresh).contains(x) || true);
    }
    if n == MapNext::Mapped {
        assert(mapped_below(after, w, tb, a, lv));
    }
}

/// The walk finds no page table at the PD, links a fresh one and stores the
/// leaf in it.
proof fn lemma_map_fresh_leaf(m: spec_fn(u64, int) -> u64, w: MapWalk, fresh: Seq<u64>, fuel: nat, a: u64)
    requires
        map_ready(m, w, fresh, fuel, a),
        w.level() == 1,
        m(w.table(), index_spec(w.virt(), 1)) & PRESENT == 0,
        fresh.len() > 0,
    ensures
        map_done(m, w, fresh, fuel, a),
{
    reveal_with_fuel(map_run, 3);
    lemma_walk_facts(w, a);
    let v = w.virt();
    let tb = w.table();
    let i = index_spec(v, 1);
    let e = m(tb, i);
    lemma_upgrade_bits(e);
    assert(present_tables(m, tb, v, 1) == seq![tb]);
    assert(w.on_entry_spec(e).1 =~= Seq::<EntryWrite>::empty());
    let t = fresh[0];
    assert((seq![tb] + Seq::<u64>::empty() + fresh) =~= seq![tb] + fresh);
    lemma_nodup_split(tb, Seq::<u64>::empty(), fresh);
    assert(t & ADDR_MASK == t);
    lemma_link_bits(t, w.user());
    lemma_leaf_bits(w.phys(), w.flags(), w.user());
    let d = w.down(t);
    w.lemma_down(t);
    let nf = new_table_flags(w.user());
    let link = EntryWrite { table: tb, index: i as usize, value: t | nf };
    let leaf = EntryWrite {
        table: t,
        index: index_spec(v, 0) as usize,
        value: leaf_entry(w.phys(), w.flags(), w.user()),
    };
    let mz = zeroed_spec(m, t);
    assert((i as usize) as int == i);
    assert((index_spec(v, 0) as usize) as int == index_spec(v, 0));
    assert(d.arrive_spec().0 =~= seq![leaf]);
    assert(w.on_table_spec(Some(t)).1 =~= seq![link, leaf]);
    lemma_stores_small(mz, link, leaf);
    lemma_stores_small(m, link, link);
    let after = stores_spec(mz, seq![link, leaf]);
    assert(after(tb, i) == t | nf);
    assert(after(t, index_spec(v, 0)) == leaf.value);
    reveal_with_fuel(walk_spec, 2);
    reveal_with_fuel(user_walk_spec, 2);
    assert(mapped_below(after, w, tb, a, 1));
    assert forall|x: u64, j: int|
        !(seq![tb].contains(x) || fresh.contains(x)) implies #[trigger] after(x, j) == m(x, j) by {
        assert(seq![tb][0] == tb);
        assert(fresh[0] == t);
    }
}

/// A map walk waiting at its table that runs to `Mapped` leaves the subtree
/// translating `a` to the frame, and stores only into the tables it passes
/// through and the fresh ones.
proof fn lemma_map_run(m: spec_fn(u64, int) -> u64, w: MapWalk, fresh: Seq<u64>, fuel: nat, a: u64)
    requires
        map_ready(m, w, fresh, fuel, a),
    ensures
        map_done(m, w, fresh, fuel, a),
    decreases w.level(), 1int,
{
    reveal_with_fuel(map_run, 3);
    lemma_walk_facts(w, a);
    let v = w.virt();
    let lv = w.level();
    let tb = w.table();
    let i = index_spec(v, lv);
    let e = m(tb, i);
    assert((i as usize) as int == i);
    lemma_stores_small(m, EntryWrite { table: 0, index: 0, value: 0 }, EntryWrite { table: 0, index: 0, value: 0 });
    if e & PRESENT != 0 {
        if lv <= 2 && e & HUGE != 0 {
            assert(w.on_entry_spec(e).1 =~= Seq::<EntryWrite>::empty());
        } else if lv >= 2 {
            lemma_map_existing_deeper(m, w, fresh, fuel, a);
        } else {
            lemma_map_existing_leaf(m, w, fresh, fuel, a);
        }
    } else if fresh.len() == 0 {
        assert(w.on_entry_spec(e).1 =~= Seq::<EntryWrite>::empty());
        assert(w.on_table_spec(None).1 =~= Seq::<EntryWrite>::empty());
    } else if lv >= 2 {
        lemma_map_fresh_deeper(m, w, fresh, fuel, a);
    } else {
        lemma_map_fresh_leaf(m, w, fresh, fuel, a);
    }
}

/// Mapping then translating: once a map walk run to its end reports the page
/// mapped, every address of the page translates to the frame plus its
/// offset, and a ring-3 mapping is user-accessible at every level. This holds
/// when the frame lies below 2^52 and the flags leave the address bits alone,
/// and when the tables the walk finds on its way and the fresh frames it is
/// given are page-aligned and all distinct, so that no store lands in a table
/// the translation passes through.
pub proof fn law_map_then_translate(
    mem: spec_fn(u64, int) -> u64,
    r: (MapWalk, MapNext),
    cr3: u64,
    virt: u64,
    phys: u64,
    flags: u64,
    user: bool,
    fresh: Seq<u64>,
    a: u64,
)
    requires
        started(r, cr3, virt, phys, flags, user),
        phys < 0x10_0000_0000_0000,
        flags & ADDR_MASK == 0,
        forall|k: int| 0 <= k < fresh.len() ==> #[trigger] fresh[k] & ADDR_MASK == fresh[k],
        (present_tables(mem, cr3 & ADDR_MASK, virt & !0xFFFu64, 3) + fresh).no_duplicates(),
        a & !0xFFFu64 == virt & !0xFFFu64,
    ensures
        ({
            let (after, n) = map_run(mem, r.0, r.1, fresh, 8);
            &&& n == MapNext::Mapped ==> translate_spec(after, cr3 & ADDR_MASK, a) == Some(
                ((phys & !0xFFFu64) + (a & 0xFFF)) as u64,
            )
            &&& n == MapNext::Mapped && user ==> user_readable(after, cr3 & ADDR_MASK, a)
        }),
{
    assert((phys & !0xFFFu64) & ADDR_MASK == phys & !0xFFFu64) by (bit_vector)
        requires
            phys < 0x10_0000_0000_0000,
    ;
    lemma_map_run(mem, r.0, fresh, 8, a);
}

/// The value the last store in `ws` to entry `i` of table `t` leaves there,
/// or `None` if no store in `ws` touches it.
pub open spec fn last_store(ws: Seq<EntryWrite>, t: u64, i: int) -> Option<u64>
    decreases ws.len(),
{
    if ws.len() == 0 {
        None
    } else {
        match last_store(ws.drop_first(), t, i) {
            Some(v) => Some(v),
            None => if ws[0].table == t && ws[0].index as int == i {
                Some(ws[0].value)
            } else {
                None
            },
        }
    }
}

proof fn lemma_stores_lookup(m: spec_fn(u64, int) -> u64, ws: Seq<EntryWrite>, t: u64, i: int)
    ensures
        stores_spec(m, ws)(t, i) == match last_store(ws, t, i) {
            Some(v) => v,
            None => m(t, i),
        },
    decreases ws.len(),
{
    if ws.len() > 0 {
        lemma_stores_lookup(store_spec(m, ws[0]), ws.drop_first(), t, i);
    }
}

/// The last store in `ws` to (`t`, `i`) is the one at `k`, when no later one
/// touches that entry.
proof fn lemma_last_store_at(ws: Seq<EntryWrite>, t: u64, i: int, k: int)
    requires
        0 <= k < ws.len(),
        ws[k].table == t && ws[k].index as int == i,
        forall|j: int| k < j < ws.len() ==> !(#[trigger] ws[j].table == t && ws[j].index as int == i),
    ensures
        last_store(ws, t, i) == Some(ws[k].value),
    decreases ws.len(),
{
    if k == 0 {
        lemma_last_store_none(ws.drop_first(), t, i);
    } else {
        let rest = ws.drop_first();
        assert forall|j: int| k - 1 < j < rest.len() implies !(#[trigger] rest[j].table == t
            && rest[j].index as int == i) by {
            assert(rest[j] == ws[j + 1]);
        }
        lemma_last_store_at(rest, t, i, k - 1);
    }
}

/// No store in `ws` touches (`t`, `i`).
proof fn lemma_last_store_none(ws: Seq<EntryWrite>, t: u64, i: int)
    requires
        forall|j: int| 0 <= j < ws.len() ==> !(#[trigger] ws[j].table == t && ws[j].index as int == i),
    ensures
        last_store(ws, t, i) is None,
    decreases ws.len(),
{
    if ws.len() > 0 {
        let rest = ws.drop_first();
        assert forall|j: int| 0 <= j < rest.len() implies !(#[trigger] rest[j].table == t
            && rest[j].index as int == i) by {
            assert(rest[j] == ws[j + 1]);
        }
        lemma_last_store_none(rest, t, i);
    }
}

/// The identity map built in three distinct page-aligned tables translates
/// every address below 1 GiB to itself, and leaves the rest of the first
/// 512 GiB unmapped: whatever the three frames held before, once they are
/// zeroed and the stores of `identity_map_writes` applied.
pub proof fn law_identity_map(mem: spec_fn(u64, int) -> u64, pml4: u64, pdpt: u64, pd: u64, a: u64)
    requires
        pml4 & ADDR_MASK == pml4,
        pdpt & ADDR_MASK == pdpt,
        pd & ADDR_MASK == pd,
        pml4 != pdpt && pml4 != pd && pdpt != pd,
        a < 0x80_0000_0000,
    ensures
        ({
            let fresh = zeroed_spec(zeroed_spec(zeroed_spec(mem, pml4), pdpt), pd);
            let built = stores_spec(fresh, identity_writes(pml4, pdpt, pd));
            &&& a < IDENTITY_LIMIT ==> translate_spec(built, pml4, a) == Some(a)
            &&& a >= IDENTITY_LIMIT ==> translate_spec(built, pml4, a) is None
        }),
{
    let fresh = zeroed_spec(zeroed_spec(zeroed_spec(mem, pml4), pdpt), pd);
    let ws = identity_writes(pml4, pdpt, pd);
    let built = stores_spec(fresh, ws);
    reveal_with_fuel(walk_spec, 4);
    let i3 = index_spec(a, 3);
    let i2 = index_spec(a, 2);
    let i1 = index_spec(a, 1);
    assert(i3 == 0) by {
        assert((a >> 39u64) & 0x1FF == 0) by (bit_vector)
            requires
                a < 0x80_0000_0000u64,
        ;
    }
    // The PML4's first entry leads to the PDPT.
    lemma_stores_lookup(fresh, ws, pml4, 0);
    lemma_last_store_at(ws, pml4, 0, 513);
    let e3 = pdpt | PRESENT | WRITABLE;
    assert(built(pml4, 0) == e3);
    assert(e3 & PRESENT != 0 && e3 & ADDR_MASK == pdpt && e3 & HUGE == 0) by (bit_vector)
        requires
            e3 == pdpt | 1 | 2,
            pdpt & 0x000F_FFFF_FFFF_F000 == pdpt,
    ;
    lemma_index_bound(a, 2);
    lemma_stores_lookup(fresh, ws, pdpt, i2);
    if a < IDENTITY_LIMIT {
        assert(i2 == 0) by {
            assert((a >> 30u64) & 0x1FF == 0) by (bit_vector)
                requires
                    a < 0x4000_0000u64,
            ;
        }
        lemma_last_store_at(ws, pdpt, 0, 512);
        let e2 = pd | PRESENT | WRITABLE;
        assert(built(pdpt, 0) == e2);
        assert(e2 & PRESENT != 0 && e2 & ADDR_MASK == pd && e2 & HUGE == 0) by (bit_vector)
            requires
                e2 == pd | 1 | 2,
                pd & 0x000F_FFFF_FFFF_F000 == pd,
        ;
        lemma_index_bound(a, 1);
        lemma_stores_lookup(fresh, ws, pd, i1);
        assert forall|j: int| i1 < j < ws.len() implies !(#[trigger] ws[j].table == pd && ws[j].index
            as int == i1) by {
            if j < 512 {
                assert((j as usize) as int == j);
            }
        }
        assert(((i1 as usize) as int) == i1);
        lemma_last_store_at(ws, pd, i1, i1);
        let j = (a >> 21u64) & 0x1FF;
        assert(i1 == j);
        let e1 = identity_pd_entry(i1);
        assert(built(pd, i1) == e1);
        assert(e1 == ((j * 0x20_0000) as u64) | 1 | 2 | 0x80);
        let page = (j * 0x20_0000) as u64;
        assert(j * 0x20_0000 < 0x4000_0000) by {
            lemma_index_bound(a, 1);
        }
        assert(page == (a >> 21u64) * 0x20_0000) by (bit_vector)
            requires
                page == ((a >> 21u64) & 0x1FF) * 0x20_0000,
                a < 0x4000_0000u64,
        ;
        assert((page | 1 | 2 | 0x80) & 1 != 0 && (page | 1 | 2 | 0x80) & 0x80 != 0 && (((page | 1 | 2
            | 0x80) & 0x000F_FFFF_FFFF_F000) & !0x1F_FFFFu64) + (a & 0x1F_FFFF) == a) by (bit_vector)
            requires
                page == (a >> 21u64) * 0x20_0000,
                a < 0x4000_0000u64,
        ;
    } else {
        assert(i2 != 0) by {
            assert((a >> 30u64) & 0x1FF != 0) by (bit_vector)
                requires
                    0x4000_0000u64 <= a < 0x80_0000_0000u64,
            ;
        }
        assert forall|j: int| 0 <= j < ws.len() implies !(#[trigger] ws[j].table == pdpt && ws[j].index
            as int == i2) by {}
        lemma_last_store_none(ws, pdpt, i2);
        assert(built(pdpt, i2) == 0);
        lemma_upgrade_bits(0);
    }
}

/// The walk a mapping of a page between 1 GiB and 512 GiB takes through the
/// identity map: the PML4, then the PDPT, whose entry for the page is empty.
/// So a mapping of such a page into the boot tree meets the conditions of
/// `law_map_then_translate` as soon as its fresh tables are distinct page
/// frames other than the PML4 and the PDPT.
pub proof fn law_identity_tables(mem: spec_fn(u64, int) -> u64, pml4: u64, pdpt: u64, pd: u64, virt: u64)
    requires
        pml4 & ADDR_MASK == pml4,
        pdpt & ADDR_MASK == pdpt,
        pd & ADDR_MASK == pd,
        pml4 != pdpt && pml4 != pd && pdpt != pd,
        IDENTITY_LIMIT <= virt < 0x80_0000_0000,
    ensures
        ({
            let fresh = zeroed_spec(zeroed_spec(zeroed_spec(mem, pml4), pdpt), pd);
            let built = stores_spec(fresh, identity_writes(pml4, pdpt, pd));
            present_tables(built, pml4, virt & !0xFFFu64, 3) == seq![pml4, pdpt]
        }),
{
    let fresh = zeroed_spec(zeroed_spec(zeroed_spec(mem, pml4), pdpt), pd);
    let ws = identity_writes(pml4, pdpt, pd);
    let built = stores_spec(fresh, ws);
    let v = virt & !0xFFFu64;
    assert(0x4000_0000u64 <= v < 0x80_0000_0000u64) by (bit_vector)
        requires
            0x4000_0000u64 <= virt < 0x80_0000_0000u64,
            v == virt & !0xFFFu64,
    ;
    let i3 = index_spec(v, 3);
    let i2 = index_spec(v, 2);
    assert(i3 == 0) by {
        assert((v >> 39u64) & 0x1FF == 0) by (bit_vector)
            requires
                v < 0x80_0000_0000u64,
        ;
    }
    lemma_stores_lookup(fresh, ws, pml4, 0);
    lemma_last_store_at(ws, pml4, 0, 513);
    let e3 = pdpt | PRESENT | WRITABLE;
    assert(built(pml4, 0) == e3);
    assert(e3 & PRESENT != 0 && e3 & ADDR_MASK == pdpt) by (bit_vector)
        requires
            e3 == pdpt | 1 | 2,
            pdpt & 0x000F_FFFF_FFFF_F000 == pdpt,
    ;
    assert(i2 != 0) by {
        assert((v >> 30u64) & 0x1FF != 0) by (bit_vector)
            requires
                0x4000_0000u64 <= v < 0x80_0000_0000u64,
        ;
    }
    lemma_index_bound(v, 2);
    lemma_stores_lookup(fresh, ws, pdpt, i2);
    assert forall|j: int| 0 <= j < ws.len() implies !(#[trigger] ws[j].table == pdpt && ws[j].index
        as int == i2) by {}
    lemma_last_store_none(ws, pdpt, i2);
    assert(built(pdpt, i2) == 0);
    assert(0u64 & PRESENT == 0) by (bit_vector);
    assert(present_tables(built, pdpt, v, 2) == seq![pdpt]);
    assert(present_tables(built, pml4, v, 3) =~= seq![pml4, pdpt]);
}

/// A table a map walk creates is linked in writable: the entry that points
/// at the fresh table `t` is present, writable, not a huge page, names `t`,
/// and is reachable from ring 3 exactly when the mapping is for ring 3. The
/// CPU ANDs the writable bit along the walk, so a mapping asked for writable
/// stays writable through the tables the walk adds.
pub proof fn law_created_tables_writable(w: MapWalk, t: u64)
    requires
        w.waiting(),
        t & 0x000F_FFFF_FFFF_F000 == t,
    ensures
        ({
            let (d, ws, n) = w.on_table_spec(Some(t));
            &&& ws.len() >= 1
            &&& ws[0].table == w.table()
            &&& ws[0].index == index_spec(w.virt(), w.level()) as usize
            &&& ws[0].value & 0x000F_FFFF_FFFF_F000 == t
            &&& ws[0].value & 1 != 0
            &&& ws[0].value & 2 != 0
            &&& ws[0].value & 0x80 == 0
            &&& (ws[0].value & 4 != 0) == w.user()
            &&& d.table() == t
            &&& d.level() == w.level() - 1
        }),
{
    lemma_link_bits(t, w.user());
    w.lemma_down(t);
}

/// The leaf a map walk stores at the page table maps the walk's frame with
/// every flag it was asked for, present, and reachable from ring 3 for a ring-3
/// mapping; in particular a mapping asked for writable is writable at the leaf.
pub proof fn law_leaf_keeps_flags(w: MapWalk)
    requires
        w.level() == 0,
        w.phys() & 0x000F_FFFF_FFFF_F000 == w.phys(),
        w.flags() & 0x000F_FFFF_FFFF_F000 == 0,
    ensures
        ({
            let (ws, n) = w.arrive_spec();
            &&& n == MapNext::Mapped
            &&& ws.len() == 1
            &&& ws[0].table == w.table()
            &&& ws[0].index == index_spec(w.virt(), 0) as usize
            &&& ws[0].value & 0x000F_FFFF_FFFF_F000 == w.phys()
            &&& ws[0].value & 1 != 0
            &&& ws[0].value & w.flags() == w.flags()
            &&& w.user() ==> ws[0].value & 4 != 0
        }),
{
    lemma_leaf_bits(w.phys(), w.flags(), w.user());
}

} // verus!
