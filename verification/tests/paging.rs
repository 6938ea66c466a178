use std::collections::HashMap;
use ziran::paging::{
    identity_map_writes, map_page, map_user_page, table_index, translate, unmap_page, user_accessible, user_range_ok, EntryWrite, MapError,
    MapNext, MapWalk, UnmapNext, UnmapWalk, HUGE, PRESENT, USER, WRITABLE,
};

const PML4: u64 = 0x1000;
const PDPT: u64 = 0x2000;
const PD: u64 = 0x3000;

/// Page tables as plain data: (table frame, index) -> entry.
struct Memory {
    entries: HashMap<(u64, usize), u64>,
}

impl Memory {
    /// The boot-style map: the first 1 GiB identity-mapped with 2 MiB pages.
    fn identity() -> Memory {
        let mut entries = HashMap::new();
        entries.insert((PML4, 0), PDPT | PRESENT | WRITABLE);
        entries.insert((PDPT, 0), PD | PRESENT | WRITABLE);
        for i in 0..512u64 {
            entries.insert((PD, i as usize), (i * 0x20_0000) | PRESENT | WRITABLE | HUGE);
        }
        Memory { entries }
    }

    fn read(&self, t: u64, i: usize) -> u64 {
        *self.entries.get(&(t, i)).unwrap_or(&0)
    }

    fn apply(&mut self, writes: &[EntryWrite]) {
        for w in writes {
            self.entries.insert((w.table, w.index), w.value);
        }
    }

    fn zero(&mut self, t: u64) {
        self.entries.retain(|k, _| k.0 != t);
    }

    fn translate(&self, virt: u64) -> Option<u64> {
        translate(&|t: u64, i: usize| self.read(t, i), PML4, virt)
    }

    fn run_map(&mut self, start: (MapWalk, MapNext), fresh: &mut Vec<u64>) -> MapNext {
        let (mut walk, mut next) = start;
        loop {
            match next {
                MapNext::ReadEntry { table, index } => {
                    let step = walk.on_entry(self.read(table, index));
                    self.apply(&step.writes);
                    next = step.next;
                }
                MapNext::AllocTable => {
                    let t = if fresh.is_empty() { None } else { Some(fresh.remove(0)) };
                    if let Some(t) = t {
                        self.zero(t);
                    }
                    let step = walk.on_table(t);
                    self.apply(&step.writes);
                    next = step.next;
                }
                done => return done,
            }
        }
    }

    fn run_unmap(&mut self, start: (UnmapWalk, UnmapNext)) -> bool {
        let (mut walk, mut next) = start;
        loop {
            match next {
                UnmapNext::ReadEntry { table, index } => {
                    let step = walk.on_entry(self.read(table, index));
                    if let Some(w) = step.write {
                        self.apply(&[w]);
                    }
                    next = step.next;
                }
                UnmapNext::Done(b) => return b,
            }
        }
    }
}

#[test]
fn identity_window_translates_through_huge_pages() {
    let m = Memory::identity();
    assert_eq!(m.translate(0x1234), Some(0x1234));
    assert_eq!(m.translate(0x3FFF_FFFF), Some(0x3FFF_FFFF));
    assert_eq!(m.translate(0x4000_0000), None);
}

#[test]
fn table_index_splits_the_address() {
    let v = 0x0000_7F12_3456_7ABCu64;
    assert_eq!(table_index(v, 3), ((v >> 39) & 0x1FF) as usize);
    assert_eq!(table_index(v, 2), ((v >> 30) & 0x1FF) as usize);
    assert_eq!(table_index(v, 1), ((v >> 21) & 0x1FF) as usize);
    assert_eq!(table_index(v, 0), ((v >> 12) & 0x1FF) as usize);
}

#[test]
fn map_translate_unmap_above_identity_window() {
    let mut m = Memory::identity();
    let virt = 0x4000_0000u64;
    let phys = 0x0050_0000u64;
    assert_eq!(m.translate(virt), None);
    let mut fresh = vec![0x10_0000, 0x11_0000];
    let done = m.run_map(map_page(PML4, virt, phys, WRITABLE), &mut fresh);
    assert_eq!(done, MapNext::Mapped);
    // Two intermediate tables were needed: a PD and a PT.
    assert!(fresh.is_empty());
    assert_eq!(m.translate(virt), Some(phys));
    assert_eq!(m.translate(virt + 0x123), Some(phys + 0x123));
    assert!(m.run_unmap(unmap_page(PML4, virt)));
    assert_eq!(m.translate(virt), None);
    // Unmapping again finds nothing to clear.
    assert!(!m.run_unmap(unmap_page(PML4, virt)));
}

#[test]
fn map_into_huge_page_is_refused() {
    let mut m = Memory::identity();
    let mut fresh = vec![0x10_0000];
    let done = m.run_map(map_page(PML4, 0x20_0000, 0x50_0000, WRITABLE), &mut fresh);
    assert_eq!(done, MapNext::Failed(MapError::HugePage));
    assert_eq!(m.translate(0x20_0000), Some(0x20_0000));
    assert!(!m.run_unmap(unmap_page(PML4, 0x20_0000)));
}

#[test]
fn map_without_frames_fails() {
    let mut m = Memory::identity();
    let mut fresh = vec![];
    let done = m.run_map(map_page(PML4, 0x4000_0000, 0x50_0000, WRITABLE), &mut fresh);
    assert_eq!(done, MapNext::Failed(MapError::OutOfFrames));
    assert_eq!(m.translate(0x4000_0000), None);
}

#[test]
fn second_mapping_reuses_existing_tables() {
    let mut m = Memory::identity();
    let mut fresh = vec![0x10_0000, 0x11_0000, 0x12_0000];
    assert_eq!(m.run_map(map_page(PML4, 0x4000_0000, 0x50_0000, WRITABLE), &mut fresh), MapNext::Mapped);
    assert_eq!(m.run_map(map_page(PML4, 0x4000_1000, 0x60_0000, WRITABLE), &mut fresh), MapNext::Mapped);
    assert_eq!(fresh, vec![0x12_0000]);
    assert_eq!(m.translate(0x4000_1ABC), Some(0x60_0ABC));
    assert_eq!(m.translate(0x4000_0ABC), Some(0x50_0ABC));
}

#[test]
fn user_mapping_is_user_accessible_at_every_level() {
    let mut m = Memory::identity();
    let uva = 0x8000_0000u64;
    let mut fresh = vec![0x10_0000, 0x11_0000];
    let done = m.run_map(map_user_page(PML4, uva, 0x70_0000, WRITABLE), &mut fresh);
    assert_eq!(done, MapNext::Mapped);
    let read = |t: u64, i: usize| m.read(t, i);
    assert!(user_accessible(&read, PML4, uva));
    // The walk also set U/S on the PML4 entry it shares with the kernel.
    assert_ne!(m.read(PML4, 0) & USER, 0);
    // The kernel's identity window stays supervisor-only below the PML4.
    assert!(!user_accessible(&read, PML4, 0xb8000));
    assert_eq!(m.translate(uva), Some(0x70_0000));
}

#[test]
fn user_range_check_rejects_kernel_memory() {
    let mut m = Memory::identity();
    let uva = 0x8000_0000u64;
    let mut fresh = vec![0x10_0000, 0x11_0000];
    m.run_map(map_user_page(PML4, uva, 0x70_0000, WRITABLE), &mut fresh);
    let read = |t: u64, i: usize| m.read(t, i);
    assert!(user_range_ok(&read, PML4, uva, 16));
    assert!(user_range_ok(&read, PML4, uva + 0xFF0, 16));
    // Crossing into the next, unmapped page.
    assert!(!user_range_ok(&read, PML4, uva + 0xFF8, 16));
    // A kernel-only page.
    assert!(!user_range_ok(&read, PML4, 0xb8000, 1));
    // An empty range is trivially readable; one past the lower half is not.
    assert!(user_range_ok(&read, PML4, 0xb8000, 0));
    assert!(!user_range_ok(&read, PML4, 0x7FFF_FFFF_FFFF, 2));
}

#[test]
fn identity_map_writes_build_the_boot_window() {
    let mut m = Memory { entries: HashMap::new() };
    let w = identity_map_writes(0x7000, 0x8000, 0x9000);
    assert_eq!(w.len(), 514);
    m.apply(&w);
    let read = |t: u64, i: usize| m.read(t, i);
    for virt in [0u64, 0x1234, 0xb8000, 0x20_0000, 0x3FFF_FFFF] {
        assert_eq!(translate(&read, 0x7000, virt), Some(virt));
    }
    assert_eq!(translate(&read, 0x7000, 0x4000_0000), None);
    assert_eq!(translate(&read, 0x7000, 0x7F_FFFF_FFFF), None);
}
