//! QEMU's `fw_cfg` channel: a 16-bit selector port picks an item, and
//! successive reads of the data port stream its bytes. The file directory
//! (item 0x19) is a big-endian `u32` count followed by 64-byte entries of
//! { size: be u32, select: be u16, reserved: u16, name: 56 bytes NUL-padded }.
//! Looking a file up by name is a step machine: each step names the item to
//! select, if any, and how many bytes to read next; the port accesses are the
//! caller's part. The count and each size are capped, so a device reporting
//! garbage cannot make the lookup read without bound.
use vstd::prelude::*;

verus! {

/// The selector port (16-bit writes).
pub const SELECTOR: u16 = 0x510;
/// The data port (byte reads).
pub const DATA: u16 = 0x511;
/// The selector of the file directory.
pub const FILE_DIR: u16 = 0x0019;
/// Bytes of a directory entry's name field.
pub const DIR_NAME_LEN: usize = 56;
/// Bytes of a directory entry.
pub const ENTRY_LEN: usize = 64;
/// At most this many directory entries are read.
pub const MAX_ENTRIES: usize = 4096;
/// At most this many bytes of an item are read.
pub const MAX_ITEM_BYTES: usize = 65536;

/// The big-endian `u32` of the four bytes at `off`.
pub open spec fn be_u32_at(s: Seq<u8>, off: int) -> int {
    16777216 * (s[off] as int) + 65536 * (s[off + 1] as int) + 256 * (s[off + 2] as int) + s[off
        + 3] as int
}

/// The big-endian `u16` of the two bytes at `off`.
pub open spec fn be_u16_at(s: Seq<u8>, off: int) -> int {
    256 * (s[off] as int) + s[off + 1] as int
}

/// The big-endian `u32` at the start of `b`.
pub fn be_u32(b: &[u8]) -> (v: u32)
    requires
        b@.len() >= 4,
    ensures
        v == be_u32_at(b@, 0),
{
    (b[0] as u32) * 16777216 + (b[1] as u32) * 65536 + (b[2] as u32) * 256 + b[3] as u32
}

/// The big-endian `u16` at `off` in `b`.
pub fn be_u16(b: &[u8], off: usize) -> (v: u16)
    requires
        off + 2 <= b@.len(),
    ensures
        v == be_u16_at(b@, off as int),
{
    (b[off] as u16) * 256 + b[off + 1] as u16
}

/// `n` capped at `cap`.
pub open spec fn capped(n: int, cap: int) -> int {
    if n < cap {
        n
    } else {
        cap
    }
}

/// The length of `s` up to its first NUL byte, all of it if it has none.
pub open spec fn nul_terminated_len(s: Seq<u8>) -> int
    decreases s.len(),
{
    if s.len() == 0 {
        0
    } else if s[0] == 0 {
        0
    } else {
        1 + nul_terminated_len(s.skip(1))
    }
}

/// The name an entry's 56-byte name field holds: the bytes before its first
/// NUL.
pub open spec fn field_name(field: Seq<u8>) -> Seq<u8> {
    field.take(nul_terminated_len(field))
}

/// The name field of the 64-byte directory entry `e`.
pub open spec fn entry_field(e: Seq<u8>) -> Seq<u8> {
    e.subrange(8, 64)
}

proof fn lemma_nul_len(s: Seq<u8>, i: int)
    requires
        0 <= i <= s.len(),
        forall|j: int| 0 <= j < i ==> s[j] != 0,
        i == s.len() || s[i] == 0,
    ensures
        nul_terminated_len(s) == i,
    decreases i,
{
    if i > 0 {
        lemma_nul_len(s.skip(1), i - 1);
    }
}

/// The length of the name in the field of `e` starting at `off`.
fn name_len(e: &[u8], off: usize) -> (n: usize)
    requires
        off <= e@.len(),
    ensures
        n == nul_terminated_len(e@.subrange(off as int, e@.len() as int)),
        off + n <= e@.len(),
{
    let mut i: usize = off;
    while i < e.len() && e[i] != 0
        invariant
            off <= i <= e@.len(),
            forall|j: int| off <= j < i ==> e@[j] != 0,
        decreases e@.len() - i,
    {
        i = i + 1;
    }
    proof {
        lemma_nul_len(e@.subrange(off as int, e@.len() as int), i - off);
    }
    i - off
}

/// Whether `e[off..off + n]` equals `name`.
fn bytes_eq(e: &[u8], off: usize, n: usize, name: &Vec<u8>) -> (b: bool)
    requires
        off + n <= e@.len(),
    ensures
        b == (e@.subrange(off as int, off + n) == name@),
{
    if n != name.len() {
        proof {
            assert(e@.subrange(off as int, off + n).len() != name@.len());
        }
        return false;
    }
    let _total = e.len();
    let mut i: usize = 0;
    while i < n
        invariant
            i <= n,
            e@.len() <= usize::MAX,
            n == name@.len(),
            off + n <= e@.len(),
            forall|j: int| 0 <= j < i ==> e@[off + j] == name@[j],
        decreases n - i,
    {
        if e[off + i] != name[i] {
            proof {
                assert(e@.subrange(off as int, off + n)[i as int] != name@[i as int]);
            }
            return false;
        }
        i = i + 1;
    }
    proof {
        assert(e@.subrange(off as int, off + n) =~= name@);
    }
    true
}

/// What a lookup needs next.
#[derive(Debug)]
pub enum FwStep {
    /// Select item `select` first, if one is named, then read `len` bytes
    /// from the data port and hand them to `on_data`.
    Read { select: Option<u16>, len: usize },
    /// The lookup is over: the item's bytes, or `None` if the directory has
    /// no file of that name.
    Done(Option<Vec<u8>>),
}

/// Where a lookup stands.
#[derive(Clone, Copy, Debug, PartialEq, Eq, Structural)]
pub enum Phase {
    /// Waiting for the directory's entry count.
    Count,
    /// Waiting for the next directory entry; `left` entries may still be read.
    Entry { left: usize },
    /// Waiting for the found item's bytes.
    Item,
    /// Finished.
    Finished,
}

/// A lookup of one file by name in the `fw_cfg` directory.
pub struct FileLookup {
    name: Vec<u8>,
    phase: Phase,
}

/// How many more steps a lookup in `phase` can take at most.
pub open spec fn steps_left(phase: Phase) -> nat {
    match phase {
        Phase::Count => (MAX_ENTRIES + 2) as nat,
        Phase::Entry { left } => (left + 1) as nat,
        Phase::Item => 1,
        Phase::Finished => 0,
    }
}

impl FileLookup {
    /// The name looked for.
    pub closed spec fn name(&self) -> Seq<u8> {
        self.name@
    }

    /// Where the lookup stands.
    pub closed spec fn phase(&self) -> Phase {
        self.phase
    }

    /// The well-formed phases: an entry phase has at least one entry left.
    pub open spec fn wf(&self) -> bool {
        match self.phase() {
            Phase::Entry { left } => 1 <= left <= MAX_ENTRIES,
            _ => true,
        }
    }

    /// The step `step` asks for `len` bytes, selecting `select` first if named.
    pub open spec fn asks(step: &FwStep, select: Option<u16>, len: int) -> bool {
        step matches FwStep::Read { select: s, len: l } && s == select && l == len
    }

    /// The step `step` ends the lookup without a file.
    pub open spec fn not_found(step: &FwStep) -> bool {
        step matches FwStep::Done(None)
    }

    /// The step `step` ends the lookup with the file's bytes `data`.
    pub open spec fn found(step: &FwStep, data: Seq<u8>) -> bool {
        step matches FwStep::Done(Some(v)) && v@ == data
    }

    /// Take the bytes the last step asked for and decide the next step.
    /// The count comes first, capped at `MAX_ENTRIES`; an empty directory ends
    /// the lookup. Each entry's name is compared with the one looked for: on a
    /// match the entry's item is selected and its size, capped at
    /// `MAX_ITEM_BYTES`, read; otherwise the next entry is read, until the
    /// capped count is exhausted. The item's bytes end the lookup.
    pub fn on_data(&mut self, bytes: Vec<u8>) -> (step: FwStep)
        requires
            old(self).wf(),
            !(old(self).phase() is Finished),
            old(self).phase() is Count ==> bytes@.len() == 4,
            old(self).phase() is Entry ==> bytes@.len() == ENTRY_LEN,
        ensures
            final(self).wf(),
            final(self).name() == old(self).name(),
            steps_left(final(self).phase()) < steps_left(old(self).phase()),
            step is Done <==> final(self).phase() is Finished,
            step matches FwStep::Read { len, .. } ==> len <= MAX_ITEM_BYTES,
            old(self).phase() is Count ==> {
                let count = capped(be_u32_at(bytes@, 0), MAX_ENTRIES as int);
                &&& count == 0 ==> Self::not_found(&step)
                &&& count > 0 ==> final(self).phase() == (Phase::Entry { left: count as usize })
                    && Self::asks(&step, None, ENTRY_LEN as int)
            },
            old(self).phase() matches Phase::Entry { left } ==> {
                let e = bytes@;
                let size = capped(be_u32_at(e, 0), MAX_ITEM_BYTES as int);
                let sel = be_u16_at(e, 4) as u16;
                &&& field_name(entry_field(e)) == old(self).name() ==> final(self).phase() is Item
                    && Self::asks(&step, Some(sel), size)
                &&& field_name(entry_field(e)) != old(self).name() && left == 1 ==> Self::not_found(&step)
                &&& field_name(entry_field(e)) != old(self).name() && left > 1 ==> final(self).phase()
                    == (Phase::Entry { left: (left - 1) as usize }) && Self::asks(&step, None, ENTRY_LEN as int)
            },
            old(self).phase() is Item ==> Self::found(&step, bytes@),
    {
        match self.phase {
            Phase::Count => {
                let raw = be_u32(bytes.as_slice());
                let count: usize = if (raw as usize) < MAX_ENTRIES {
                    raw as usize
                } else {
                    MAX_ENTRIES
                };
                if count == 0 {
                    self.phase = Phase::Finished;
                    FwStep::Done(None)
                } else {
                    self.phase = Phase::Entry { left: count };
                    FwStep::Read { select: None, len: ENTRY_LEN }
                }
            },
            Phase::Entry { left } => {
                let e = bytes.as_slice();
                let raw_size = be_u32(e);
                let size: usize = if (raw_size as usize) < MAX_ITEM_BYTES {
                    raw_size as usize
                } else {
                    MAX_ITEM_BYTES
                };
                let sel = be_u16(e, 4);
                let n = name_len(e, 8);
                let matched = bytes_eq(e, 8, n, &self.name);
                proof {
                    assert(e@.subrange(8, e@.len() as int) =~= entry_field(e@));
                    assert(e@.subrange(8, 8 + n) =~= field_name(entry_field(e@)));
                }
                if matched {
                    self.phase = Phase::Item;
                    FwStep::Read { select: Some(sel), len: size }
                } else if left == 1 {
                    self.phase = Phase::Finished;
                    FwStep::Done(None)
                } else {
                    self.phase = Phase::Entry { left: left - 1 };
                    FwStep::Read { select: None, len: ENTRY_LEN }
                }
            },
            _ => {
                self.phase = Phase::Finished;
                FwStep::Done(Some(bytes))
            },
        }
    }
}

/// Begin looking `name` up: select the directory and read its count.
pub fn read_file(name: &[u8]) -> (r: (FileLookup, FwStep))
    ensures
        r.0.name() == name@,
        r.0.phase() == Phase::Count,
        r.0.wf(),
        FileLookup::asks(&r.1, Some(FILE_DIR), 4),
{
    let mut owned: Vec<u8> = Vec::new();
    let mut i: usize = 0;
    while i < name.len()
        invariant
            i <= name@.len(),
            owned@ == name@.take(i as int),
        decreases name@.len() - i,
    {
        owned.push(name[i]);
        proof {
            assert(owned@ =~= name@.take(i + 1));
        }
        i = i + 1;
    }
    proof {
        assert(owned@ =~= name@);
    }
    (FileLookup { name: owned, phase: Phase::Count }, FwStep::Read { select: Some(FILE_DIR), len: 4 })
}

/// Begin looking up the per-session flag a host may inject as `opt/flag`.
pub fn read_flag() -> (r: (FileLookup, FwStep))
    ensures
        r.0.name() == "opt/flag"@.map_values(|c: char| c as u8),
        r.0.phase() == Phase::Count,
        r.0.wf(),
        FileLookup::asks(&r.1, Some(FILE_DIR), 4),
{
    let name: Vec<u8> = vec![0x6fu8, 0x70, 0x74, 0x2f, 0x66, 0x6c, 0x61, 0x67];
    proof {
        reveal_strlit("opt/flag");
        assert(name@ =~= "opt/flag"@.map_values(|c: char| c as u8));
    }
    read_file(name.as_slice())
}

} // verus!
