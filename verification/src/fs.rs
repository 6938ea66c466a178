//! ZranFS: a minimal read-only filesystem over a RAM-disk image. A small
//! directory table says "the bytes `[offset, offset + length)` are a file named
//! N"; a directory entry's region is itself an array of entries. [`Fs::mount`]
//! checks the whole tree once, so the lookups after it are total.
use vstd::prelude::*;
use vstd::slice::slice_subrange;
use vstd::string::*;
use vstd::utf8::{valid_utf8, decode_utf8};

verus! {

/// The only on-disk format version this reader understands.
pub const VERSION: u16 = 2;
/// Superblock size, in bytes. The root directory table starts right after it.
pub const SUPERBLOCK_LEN: usize = 16;
/// Directory-entry size, in bytes.
pub const DIRENT_LEN: usize = 32;
/// Filename field width within a directory entry (NUL-padded).
pub const NAME_LEN: usize = 20;
/// Offset of the `u32` region offset within an entry.
pub const ENT_OFFSET: usize = 0x14;
/// Offset of the `u32` region length within an entry.
pub const ENT_LENGTH: usize = 0x18;
/// Offset of the `u32` kind within an entry.
pub const ENT_KIND: usize = 0x1C;
/// A directory entry names a plain file.
pub const KIND_FILE: u32 = 0;
/// A directory entry names a subdirectory.
pub const KIND_DIR: u32 = 1;
/// Deepest directory nesting `mount` will follow.
pub const MAX_DEPTH: usize = 32;

/// Why an image failed to mount, or why a path did not resolve.
#[derive(Clone, Copy, Debug, PartialEq, Eq, Structural)]
pub enum FsError {
    /// The first four bytes are not `ZRFS`.
    BadMagic,
    /// The version field is not one this reader supports.
    UnsupportedVersion,
    /// The image is too short for the superblock or for the root table.
    Truncated,
    /// The header's `total_size` field disagrees with the image length.
    SizeMismatch,
    /// A directory entry's region runs past the end of the image.
    EntryOutOfBounds,
    /// A subdirectory's region length is not a whole number of entries.
    BadDirLength,
    /// A subdirectory's table starts inside, or before, a table already
    /// validated: a cycle, a back-edge, or a second entry naming a table again.
    DirNotForward,
    /// A directory entry's `kind` field is neither file (0) nor directory (1).
    BadKind,
    /// The directory tree nests deeper than `MAX_DEPTH`.
    TooDeep,
    /// A path component names nothing in its directory.
    NotFound,
    /// A path descended through a file, or a directory was expected.
    NotADirectory,
    /// A file was expected but the path names a directory.
    IsADirectory,
}

/// What a path resolves to: a file's byte region, or a directory's entry region.
#[derive(Clone, Copy, Debug, PartialEq, Eq, Structural)]
pub enum Node {
    File { offset: usize, length: usize },
    Dir { offset: usize, length: usize },
}

/// Little-endian `u16` at `off`.
pub open spec fn le_u16(s: Seq<u8>, off: int) -> int {
    s[off] as int + 256 * (s[off + 1] as int)
}

/// Little-endian `u32` at `off`.
pub open spec fn le_u32(s: Seq<u8>, off: int) -> int {
    s[off] as int + 256 * (s[off + 1] as int) + 65536 * (s[off + 2] as int) + 16777216 * (
    s[off + 3] as int)
}

/// The region offset of the entry at `base`.
pub open spec fn ent_off(s: Seq<u8>, base: int) -> int {
    le_u32(s, base + 0x14)
}

/// The region length of the entry at `base`.
pub open spec fn ent_len(s: Seq<u8>, base: int) -> int {
    le_u32(s, base + 0x18)
}

/// The kind of the entry at `base`.
pub open spec fn ent_kind(s: Seq<u8>, base: int) -> int {
    le_u32(s, base + 0x1C)
}

/// The mark a directory table `[off, off + len)` leaves behind once it is
/// validated: its end, or one past its start for an empty table, so that every
/// table, empty ones included, is consumed and cannot be named a second time.
pub open spec fn table_mark(off: int, len: int) -> int {
    if len == 0 {
        off + 1
    } else {
        off + len
    }
}

/// Whether the table `[off, off + len)` at nesting `depth` passes the checks
/// made before any of its entries is read: the nesting limit, the high-water
/// mark `hw`, a whole number of entries, and lying inside the image `s`. A
/// table refused here leaves the high-water mark as it was.
pub open spec fn table_accepted(s: Seq<u8>, off: int, len: int, hw: int, depth: int) -> bool {
    &&& depth <= MAX_DEPTH
    &&& off >= hw
    &&& len % 32 == 0
    &&& table_mark(off, len) <= usize::MAX
    &&& off + len <= s.len()
}

/// Validation of one directory table `[off, off + len)` at nesting `depth`,
/// given the high-water mark `hw` (the mark of every table seen so far). On
/// success it gives the new high-water mark. A table that starts below `hw`
/// (one already seen, an empty one included, or one that overlaps it) fails
/// with `DirNotForward`.
pub open spec fn validate_dir_spec(s: Seq<u8>, off: int, len: int, hw: int, depth: int) -> Result<
    int,
    FsError,
>
    decreases MAX_DEPTH + 1 - depth, 1int, 0int,
{
    if depth > MAX_DEPTH {
        Err(FsError::TooDeep)
    } else if off < hw {
        Err(FsError::DirNotForward)
    } else if len % 32 != 0 {
        Err(FsError::BadDirLength)
    } else if table_mark(off, len) > usize::MAX {
        Err(FsError::EntryOutOfBounds)
    } else if off + len > s.len() {
        Err(FsError::EntryOutOfBounds)
    } else {
        validate_entries_spec(
            s,
            off,
            len / 32,
            0,
            if hw > table_mark(off, len) {
                hw
            } else {
                table_mark(off, len)
            },
            depth,
        )
    }
}

/// Validation of the entries `i..n` of the table at `off`, threading the
/// high-water mark through the subdirectories it recurses into.
pub open spec fn validate_entries_spec(
    s: Seq<u8>,
    off: int,
    n: int,
    i: int,
    hw: int,
    depth: int,
) -> Result<int, FsError>
    decreases MAX_DEPTH + 1 - depth, 0int, n - i,
{
    if depth > MAX_DEPTH {
        Err(FsError::TooDeep)
    } else if i >= n {
        Ok(hw)
    } else {
        let base = off + i * 32;
        let c_off = ent_off(s, base);
        let c_len = ent_len(s, base);
        if c_off + c_len > usize::MAX {
            Err(FsError::EntryOutOfBounds)
        } else if c_off + c_len > s.len() {
            Err(FsError::EntryOutOfBounds)
        } else if ent_kind(s, base) == 0 {
            validate_entries_spec(s, off, n, i + 1, hw, depth)
        } else if ent_kind(s, base) == 1 {
            match validate_dir_spec(s, c_off, c_len, hw, depth + 1) {
                Ok(h) => validate_entries_spec(s, off, n, i + 1, h, depth),
                Err(e) => Err(e),
            }
        } else {
            Err(FsError::BadKind)
        }
    }
}

/// What mounting the image `s` gives: the root's entry count, or the first
/// check it fails.
pub open spec fn mount_spec(s: Seq<u8>) -> Result<int, FsError> {
    if s.len() < 16 {
        Err(FsError::Truncated)
    } else if !(s[0] == 0x5A && s[1] == 0x52 && s[2] == 0x46 && s[3] == 0x53) {
        Err(FsError::BadMagic)
    } else if le_u16(s, 4) != 2 {
        Err(FsError::UnsupportedVersion)
    } else if le_u32(s, 8) != s.len() {
        Err(FsError::SizeMismatch)
    } else if 16 + le_u16(s, 6) * 32 > s.len() {
        Err(FsError::Truncated)
    } else {
        match validate_dir_spec(s, 16, le_u16(s, 6) * 32, 16, 0) {
            Ok(_) => Ok(le_u16(s, 6)),
            Err(e) => Err(e),
        }
    }
}

/// Read a little-endian `u16` at `off`.
fn read_u16_le(buf: &[u8], off: usize) -> (r: u16)
    requires
        off + 2 <= buf@.len(),
    ensures
        r == le_u16(buf@, off as int),
{
    buf[off] as u16 + (buf[off + 1] as u16) * 256
}

/// Read a little-endian `u32` at `off`.
fn read_u32_le(buf: &[u8], off: usize) -> (r: u32)
    requires
        off + 4 <= buf@.len(),
    ensures
        r == le_u32(buf@, off as int),
{
    buf[off] as u32 + (buf[off + 1] as u32) * 256 + (buf[off + 2] as u32) * 65536 + (buf[off
        + 3] as u32) * 16777216
}

/// The high-water mark never goes down while a table is validated, and a
/// validated table leaves it at or past the table's own mark.
proof fn lemma_dir_mark(s: Seq<u8>, off: int, len: int, hw: int, depth: int)
    ensures
        validate_dir_spec(s, off, len, hw, depth) matches Ok(h) ==> h >= hw && h >= table_mark(
            off,
            len,
        ),
    decreases MAX_DEPTH + 1 - depth, 1int, 0int,
{
    if depth <= MAX_DEPTH && off >= hw && len % 32 == 0 && table_mark(off, len) <= usize::MAX
        && off + len <= s.len() {
        let h0 = if hw > table_mark(off, len) {
            hw
        } else {
            table_mark(off, len)
        };
        lemma_entries_mark(s, off, len / 32, 0, h0, depth);
    }
}

proof fn lemma_entries_mark(s: Seq<u8>, off: int, n: int, i: int, hw: int, depth: int)
    ensures
        validate_entries_spec(s, off, n, i, hw, depth) matches Ok(h) ==> h >= hw,
    decreases MAX_DEPTH + 1 - depth, 0int, n - i,
{
    if depth <= MAX_DEPTH && i < n {
        let base = off + i * 32;
        if ent_kind(s, base) == 0 {
            lemma_entries_mark(s, off, n, i + 1, hw, depth);
        } else if ent_kind(s, base) == 1 {
            lemma_dir_mark(s, ent_off(s, base), ent_len(s, base), hw, depth + 1);
            if let Ok(h) = validate_dir_spec(s, ent_off(s, base), ent_len(s, base), hw, depth + 1) {
                lemma_entries_mark(s, off, n, i + 1, h, depth);
            }
        }
    }
}

/// Each directory table is validated at most once: once a table, empty or
/// not, has passed, a second entry that names it again fails with
/// `DirNotForward`.
pub proof fn law_table_validated_once(s: Seq<u8>, off: int, len: int, hw: int, depth: int, again: int)
    requires
        0 <= len,
        validate_dir_spec(s, off, len, hw, depth) is Ok,
        again <= MAX_DEPTH,
    ensures
        validate_dir_spec(s, off, len, validate_dir_spec(s, off, len, hw, depth)->Ok_0, again)
            == Err::<int, FsError>(FsError::DirNotForward),
{
    lemma_dir_mark(s, off, len, hw, depth);
}

/// How many directory entries validating the table `[off, off + len)` reads,
/// its subdirectories' entries included, up to the first error.
pub open spec fn dir_work(s: Seq<u8>, off: int, len: int, hw: int, depth: int) -> nat
    decreases MAX_DEPTH + 1 - depth, 1int, 0int,
{
    if !table_accepted(s, off, len, hw, depth) {
        0
    } else {
        entries_work(
            s,
            off,
            len / 32,
            0,
            if hw > table_mark(off, len) {
                hw
            } else {
                table_mark(off, len)
            },
            depth,
        )
    }
}

/// How many directory entries validating the entries `i..n` of the table at
/// `off` reads, with their subdirectories' entries, up to the first error.
pub open spec fn entries_work(s: Seq<u8>, off: int, n: int, i: int, hw: int, depth: int) -> nat
    decreases MAX_DEPTH + 1 - depth, 0int, n - i,
{
    if depth > MAX_DEPTH || i >= n {
        0
    } else {
        let base = off + i * 32;
        let c_off = ent_off(s, base);
        let c_len = ent_len(s, base);
        if c_off + c_len > usize::MAX || c_off + c_len > s.len() {
            1
        } else if ent_kind(s, base) == 0 {
            1 + entries_work(s, off, n, i + 1, hw, depth)
        } else if ent_kind(s, base) == 1 {
            1 + dir_work(s, c_off, c_len, hw, depth + 1) + match validate_dir_spec(
                s,
                c_off,
                c_len,
                hw,
                depth + 1,
            ) {
                Ok(h) => entries_work(s, off, n, i + 1, h, depth),
                Err(_) => 0,
            }
        } else {
            1
        }
    }
}

proof fn lemma_dir_work(s: Seq<u8>, off: int, len: int, hw: int, depth: int)
    requires
        0 <= len,
        hw <= s.len() + 1,
    ensures
        32 * dir_work(s, off, len, hw, depth) <= s.len() + 1 - hw,
        validate_dir_spec(s, off, len, hw, depth) matches Ok(h) ==> h <= s.len() + 1 && 32
            * dir_work(s, off, len, hw, depth) <= h - hw,
    decreases MAX_DEPTH + 1 - depth, 1int, 0int,
{
    if table_accepted(s, off, len, hw, depth) {
        let m = table_mark(off, len);
        let h0 = if hw > m {
            hw
        } else {
            m
        };
        lemma_entries_work(s, off, len / 32, 0, h0, depth);
        assert(32 * (len / 32) == len) by {
            vstd::arithmetic::div_mod::lemma_fundamental_div_mod(len, 32);
        }
    }
}

proof fn lemma_entries_work(s: Seq<u8>, off: int, n: int, i: int, hw: int, depth: int)
    requires
        hw <= s.len() + 1,
        i <= n,
    ensures
        32 * entries_work(s, off, n, i, hw, depth) <= 32 * (n - i) + s.len() + 1 - hw,
        validate_entries_spec(s, off, n, i, hw, depth) matches Ok(h) ==> h <= s.len() + 1 && 32
            * entries_work(s, off, n, i, hw, depth) <= 32 * (n - i) + h - hw,
    decreases MAX_DEPTH + 1 - depth, 0int, n - i,
{
    if depth <= MAX_DEPTH && i < n {
        let base = off + i * 32;
        let c_off = ent_off(s, base);
        let c_len = ent_len(s, base);
        if c_off + c_len <= usize::MAX && c_off + c_len <= s.len() {
            if ent_kind(s, base) == 0 {
                lemma_entries_work(s, off, n, i + 1, hw, depth);
            } else if ent_kind(s, base) == 1 {
                lemma_dir_work(s, c_off, c_len, hw, depth + 1);
                lemma_dir_mark(s, c_off, c_len, hw, depth + 1);
                if let Ok(h1) = validate_dir_spec(s, c_off, c_len, hw, depth + 1) {
                    lemma_entries_work(s, off, n, i + 1, h1, depth);
                }
            }
        }
    }
}

/// Validation does bounded work: it reads at most one directory entry per
/// 32 bytes of the image past the high-water mark it starts from, however the
/// entries point, since every table it reads lies past all those read before.
/// Mounting an image of `L` bytes reads at most `(L - 15) / 32` entries.
pub proof fn law_validation_work(s: Seq<u8>, off: int, len: int, hw: int, depth: int)
    requires
        0 <= len,
        hw <= s.len() + 1,
    ensures
        32 * dir_work(s, off, len, hw, depth) <= s.len() + 1 - hw,
{
    lemma_dir_work(s, off, len, hw, depth);
}

proof fn lemma_entry_in_table(off: int, len: int, i: int)
    requires
        0 <= i < len / 32,
        0 <= len,
    ensures
        off + i * 32 + 32 <= off + len,
{
    assert(i * 32 + 32 <= len) by (nonlinear_arith)
        requires
            0 <= i < len / 32,
            0 <= len,
    ;
}

/// Recursively validate the directory table `[off, off + len)`: every entry's
/// region must lie in the image, every subdirectory must start at or after
/// `*high_water` before it is recursed into, and nesting stops at `MAX_DEPTH`.
/// The high-water mark only moves forward, and not at all when the table is
/// refused before its entries are read. The ghost count is the number of
/// entries read, which `law_validation_work` bounds by the image's size.
fn validate_dir(image: &[u8], off: usize, len: usize, high_water: &mut usize, depth: usize) -> (r: (
    Result<(), FsError>,
    Ghost<nat>,
))
    ensures
        match r.0 {
            Ok(()) => validate_dir_spec(image@, off as int, len as int, *old(high_water) as int, depth as int)
                == Ok::<int, FsError>(*final(high_water) as int),
            Err(e) => validate_dir_spec(image@, off as int, len as int, *old(high_water) as int, depth as int)
                == Err::<int, FsError>(e),
        },
        *final(high_water) >= *old(high_water),
        !table_accepted(image@, off as int, len as int, *old(high_water) as int, depth as int)
            ==> *final(high_water) == *old(high_water),
        r.1@ == dir_work(image@, off as int, len as int, *old(high_water) as int, depth as int),
    decreases MAX_DEPTH + 1 - depth,
{
    if depth > MAX_DEPTH {
        return (Err(FsError::TooDeep), Ghost(0));
    }
    if off < *high_water {
        return (Err(FsError::DirNotForward), Ghost(0));
    }
    if len % DIRENT_LEN != 0 {
        return (Err(FsError::BadDirLength), Ghost(0));
    }
    let span: usize = if len == 0 {
        1
    } else {
        len
    };
    let mark = match off.checked_add(span) {
        Some(e) => e,
        None => {
            return (Err(FsError::EntryOutOfBounds), Ghost(0));
        },
    };
    let end = off + len;
    if end > image.len() {
        return (Err(FsError::EntryOutOfBounds), Ghost(0));
    }
    // An empty table consumes its first byte, so no second entry can name it.
    if *high_water < mark {
        *high_water = mark;
    }
    let n = len / DIRENT_LEN;
    let mut i: usize = 0;
    let ghost mut examined: nat = 0;
    while i < n
        invariant
            dir_work(image@, off as int, len as int, *old(high_water) as int, depth as int)
                == examined + entries_work(
                image@,
                off as int,
                n as int,
                i as int,
                *high_water as int,
                depth as int,
            ),
            n == len / 32,
            i <= n,
            *high_water >= *old(high_water),
            table_accepted(image@, off as int, len as int, *old(high_water) as int, depth as int),
            off + len == end,
            end <= image@.len(),
            depth <= MAX_DEPTH,
            validate_dir_spec(image@, off as int, len as int, *old(high_water) as int, depth as int)
                == validate_entries_spec(
                image@,
                off as int,
                n as int,
                i as int,
                *high_water as int,
                depth as int,
            ),
        decreases n - i,
    {
        proof {
            lemma_entry_in_table(off as int, len as int, i as int);
            assert(off + i * 32 + 32 <= image@.len());
        }
        let base = off + i * DIRENT_LEN;
        let c_off = read_u32_le(image, base + ENT_OFFSET) as usize;
        let c_len = read_u32_le(image, base + ENT_LENGTH) as usize;
        let c_end = match c_off.checked_add(c_len) {
            Some(e) => e,
            None => {
                return (Err(FsError::EntryOutOfBounds), Ghost(examined + 1));
            },
        };
        if c_end > image.len() {
            return (Err(FsError::EntryOutOfBounds), Ghost(examined + 1));
        }
        let kind = read_u32_le(image, base + ENT_KIND);
        if kind == KIND_FILE {
            proof {
                examined = examined + 1;
            }
        } else if kind == KIND_DIR {
            let (res, child) = validate_dir(image, c_off, c_len, high_water, depth + 1);
            match res {
                Ok(()) => {
                    proof {
                        examined = examined + 1 + child@;
                    }
                },
                Err(e) => {
                    return (Err(e), Ghost(examined + 1 + child@));
                },
            }
        } else {
            return (Err(FsError::BadKind), Ghost(examined + 1));
        }
        i = i + 1;
    }
    (Ok(()), Ghost(examined))
}


/// Names what `String::from_utf8_lossy` makes of a byte string that is not
/// well-formed UTF-8: its decoding with each invalid sequence replaced by U+FFFD.
pub uninterp spec fn utf8_lossy(bytes: Seq<u8>) -> Seq<char>;

/// The characters a lossy decoding gives: the plain UTF-8 decoding for
/// well-formed bytes, the named lossy decoding otherwise.
pub open spec fn lossy_decode(bytes: Seq<u8>) -> Seq<char> {
    if valid_utf8(bytes) {
        decode_utf8(bytes)
    } else {
        utf8_lossy(bytes)
    }
}

/// `String::from_utf8_lossy` (std), taken as an owned `String`. The contract
/// claims that well-formed UTF-8 decodes to its characters, as std documents,
/// and that any other input gives the named lossy decoding of the bytes.
#[verifier::external_body]
fn decode_lossy(bytes: &[u8]) -> (s: String)
    ensures
        valid_utf8(bytes@) ==> s@ == decode_utf8(bytes@),
        !valid_utf8(bytes@) ==> s@ == utf8_lossy(bytes@),
{
    String::from_utf8_lossy(bytes).into_owned()
}

/// Index of the first NUL byte of `raw` at or after `j`, or `raw.len()`.
pub open spec fn first_nul(raw: Seq<u8>, j: int) -> int
    decreases raw.len() - j,
{
    if j >= raw.len() {
        raw.len() as int
    } else if raw[j] == 0 {
        j
    } else {
        first_nul(raw, j + 1)
    }
}

/// The name a NUL-padded name field decodes to.
pub open spec fn field_name(raw: Seq<u8>) -> Seq<char> {
    lossy_decode(raw.take(first_nul(raw, 0)))
}

/// The name of the entry at `base`.
pub open spec fn entry_name_spec(s: Seq<u8>, base: int) -> Seq<char> {
    field_name(s.subrange(base, base + 20))
}

/// The node the entry at `base` names.
pub open spec fn entry_node(s: Seq<u8>, base: int) -> Node {
    if ent_kind(s, base) == 1 {
        Node::Dir { offset: ent_off(s, base) as usize, length: ent_len(s, base) as usize }
    } else {
        Node::File { offset: ent_off(s, base) as usize, length: ent_len(s, base) as usize }
    }
}

/// The first of the entries `i..n` of the table at `off` whose name is `name`.
pub open spec fn find_child_spec(s: Seq<u8>, off: int, n: int, i: int, name: Seq<char>) -> Option<
    Node,
>
    decreases n - i,
{
    if i >= n {
        None
    } else if entry_name_spec(s, off + i * 32) == name {
        Some(entry_node(s, off + i * 32))
    } else {
        find_child_spec(s, off, n, i + 1, name)
    }
}

/// Index of the first `/` of `p` at or after `pos`, or `p.len()`.
pub open spec fn find_slash(p: Seq<char>, pos: int) -> int
    decreases p.len() - pos,
{
    if pos >= p.len() {
        p.len() as int
    } else if p[pos] == '/' {
        pos
    } else {
        find_slash(p, pos + 1)
    }
}

/// `find_slash` finds the first `/` at or after `pos`, or the end.
pub proof fn lemma_find_slash(p: Seq<char>, pos: int)
    requires
        0 <= pos <= p.len(),
    ensures
        pos <= find_slash(p, pos) <= p.len(),
        find_slash(p, pos) < p.len() ==> p[find_slash(p, pos)] == '/',
        forall|j: int| pos <= j < find_slash(p, pos) ==> p[j] != '/',
    decreases p.len() - pos,
{
    if pos < p.len() && p[pos] != '/' {
        lemma_find_slash(p, pos + 1);
    }
}

/// One step of a path walk: a non-empty component `comp` descends from `node`
/// into the child of that name.
pub open spec fn walk_step(s: Seq<u8>, node: Node, comp: Seq<char>) -> Result<Node, FsError> {
    if comp.len() == 0 {
        Ok(node)
    } else {
        match node {
            Node::File { .. } => Err(FsError::NotADirectory),
            Node::Dir { offset, length } => match find_child_spec(
                s,
                offset as int,
                length as int / 32,
                0,
                comp,
            ) {
                Some(c) => Ok(c),
                None => Err(FsError::NotFound),
            },
        }
    }
}

/// Resolve the components of `p` from position `pos` on, starting at `node`.
/// Components are the runs between `/` characters; empty ones are skipped.
pub open spec fn resolve_walk(s: Seq<u8>, node: Node, p: Seq<char>, pos: int) -> Result<
    Node,
    FsError,
>
    decreases p.len() + 1 - pos,
{
    if pos < 0 || pos > p.len() {
        Err(FsError::NotFound)
    } else {
        let k = find_slash(p, pos);
        match walk_step(s, node, p.subrange(pos, k)) {
            Err(e) => Err(e),
            Ok(n2) => if k >= p.len() {
                Ok(n2)
            } else {
                proof {
                    lemma_find_slash(p, pos);
                }
                resolve_walk(s, n2, p, k + 1)
            },
        }
    }
}

/// A path walk fails only because a component names nothing or descends
/// through a file.
pub proof fn lemma_resolve_errors(s: Seq<u8>, node: Node, p: Seq<char>, pos: int)
    ensures
        resolve_walk(s, node, p, pos) matches Err(e) ==> (e == FsError::NotFound || e
            == FsError::NotADirectory),
    decreases p.len() + 1 - pos,
{
    if 0 <= pos <= p.len() {
        let k = find_slash(p, pos);
        lemma_find_slash(p, pos);
        match walk_step(s, node, p.subrange(pos, k)) {
            Err(e) => {},
            Ok(n2) => if k < p.len() {
                lemma_resolve_errors(s, n2, p, k + 1);
            },
        }
    }
}

/// The root directory of a mounted image with `count` root entries.
pub open spec fn root_node(count: int) -> Node {
    Node::Dir { offset: 16, length: (count * 32) as usize }
}

/// Whether the directory table `[off, off + len)` passed validation at some
/// depth and high-water mark.
pub open spec fn dir_valid(s: Seq<u8>, off: int, len: int) -> bool {
    exists|hw: int, d: int| #[trigger] validate_dir_spec(s, off, len, hw, d) is Ok
}

/// Whether a node is safe to use: a file's region lies in the image, a
/// directory's table passed validation.
pub open spec fn node_ok(s: Seq<u8>, node: Node) -> bool {
    match node {
        Node::File { offset, length } => offset + length <= s.len(),
        Node::Dir { offset, length } => dir_valid(s, offset as int, length as int),
    }
}

proof fn lemma_dir_ok(s: Seq<u8>, off: int, len: int, hw: int, depth: int)
    requires
        validate_dir_spec(s, off, len, hw, depth) is Ok,
    ensures
        depth <= MAX_DEPTH,
        len % 32 == 0,
        off + len <= s.len(),
        validate_entries_spec(
            s,
            off,
            len / 32,
            0,
            if hw > table_mark(off, len) {
                hw
            } else {
                table_mark(off, len)
            },
            depth,
        ) is Ok,
{
}

proof fn lemma_entries_ok(s: Seq<u8>, off: int, n: int, i: int, hw: int, depth: int, j: int)
    requires
        validate_entries_spec(s, off, n, i, hw, depth) is Ok,
        0 <= i <= j < n,
    ensures
        ent_off(s, off + j * 32) + ent_len(s, off + j * 32) <= s.len(),
        ent_kind(s, off + j * 32) == 0 || ent_kind(s, off + j * 32) == 1,
        ent_kind(s, off + j * 32) == 1 ==> dir_valid(
            s,
            ent_off(s, off + j * 32),
            ent_len(s, off + j * 32),
        ),
    decreases n - i,
{
    let base = off + i * 32;
    if j == i {
        if ent_kind(s, base) == 1 {
            assert(validate_dir_spec(s, ent_off(s, base), ent_len(s, base), hw, depth + 1) is Ok);
        }
    } else if ent_kind(s, base) == 0 {
        lemma_entries_ok(s, off, n, i + 1, hw, depth, j);
    } else {
        let h = validate_dir_spec(s, ent_off(s, base), ent_len(s, base), hw, depth + 1)->Ok_0;
        lemma_entries_ok(s, off, n, i + 1, h, depth, j);
    }
}

proof fn lemma_bytes_bound(s: Seq<u8>, off: int)
    requires
        0 <= off && off + 4 <= s.len(),
    ensures
        0 <= le_u32(s, off) <= u32::MAX,
{
}

proof fn lemma_child_ok(s: Seq<u8>, off: int, len: int, i: int)
    requires
        dir_valid(s, off, len),
        0 <= off,
        0 <= i < len / 32,
    ensures
        off + i * 32 + 32 <= s.len(),
        node_ok(s, entry_node(s, off + i * 32)),
        ent_kind(s, off + i * 32) == 0 || ent_kind(s, off + i * 32) == 1,
{
    let (hw, d) = choose|hw: int, d: int| #[trigger] validate_dir_spec(s, off, len, hw, d) is Ok;
    lemma_dir_ok(s, off, len, hw, d);
    lemma_entry_in_table(off, len, i);
    let h0 = if hw > table_mark(off, len) {
        hw
    } else {
        table_mark(off, len)
    };
    lemma_entries_ok(s, off, len / 32, 0, h0, d, i);
    let base = off + i * 32;
    lemma_bytes_bound(s, base + 0x14);
    lemma_bytes_bound(s, base + 0x18);
}

/// One directory entry, as `ls` renders it.
#[derive(Debug)]
pub struct DirEntry {
    pub name: String,
    pub offset: usize,
    pub length: usize,
    pub is_dir: bool,
}

/// Whether `e` renders the entry at `base` of image `s`.
pub open spec fn renders(e: DirEntry, s: Seq<u8>, base: int) -> bool {
    &&& e.name@ == entry_name_spec(s, base)
    &&& e.offset == ent_off(s, base)
    &&& e.length == ent_len(s, base)
    &&& e.is_dir == (ent_kind(s, base) == 1)
}

/// Decode a fixed-width, NUL-padded name field: the bytes before the first NUL
/// (or the whole field), decoded lossily.
fn entry_name(raw: &[u8]) -> (name: String)
    ensures
        name@ == field_name(raw@),
{
    let mut end: usize = 0;
    while end < raw.len() && raw[end] != 0
        invariant
            end <= raw@.len(),
            first_nul(raw@, 0) == first_nul(raw@, end as int),
        decreases raw@.len() - end,
    {
        end = end + 1;
    }
    let field = slice_subrange(raw, 0, end);
    proof {
        assert(field@ =~= raw@.take(first_nul(raw@, 0)));
    }
    decode_lossy(field)
}

/// A validated, read-only view over a RAM-disk image.
pub struct Fs<'a> {
    image: &'a [u8],
    file_count: usize,
}

impl<'a> Fs<'a> {
    #[verifier::type_invariant]
    spec fn inv(self) -> bool {
        mount_spec(self.image@) == Ok::<int, FsError>(self.file_count as int)
    }

    /// The image this view reads.
    pub closed spec fn bytes(self) -> Seq<u8> {
        self.image@
    }

    /// The number of entries in the root directory.
    pub closed spec fn root_count(self) -> int {
        self.file_count as int
    }

    /// Parse and fully validate an image: superblock, root table, and the whole
    /// directory tree. Every bound is checked here, in order.
    pub fn mount(image: &'a [u8]) -> (r: Result<Fs<'a>, FsError>)
        ensures
            match r {
                Ok(fs) => mount_spec(image@) == Ok::<int, FsError>(fs.root_count()) && fs.bytes()
                    == image@,
                Err(e) => mount_spec(image@) == Err::<int, FsError>(e),
            },
    {
        if image.len() < SUPERBLOCK_LEN {
            return Err(FsError::Truncated);
        }
        if !(image[0] == 0x5A && image[1] == 0x52 && image[2] == 0x46 && image[3] == 0x53) {
            return Err(FsError::BadMagic);
        }
        if read_u16_le(image, 0x04) != VERSION {
            return Err(FsError::UnsupportedVersion);
        }
        if read_u32_le(image, 0x08) as usize != image.len() {
            return Err(FsError::SizeMismatch);
        }
        let file_count = read_u16_le(image, 0x06) as usize;
        let dir_bytes = match file_count.checked_mul(DIRENT_LEN) {
            Some(b) => b,
            None => {
                return Err(FsError::Truncated);
            },
        };
        let dir_end = match SUPERBLOCK_LEN.checked_add(dir_bytes) {
            Some(e) => e,
            None => {
                return Err(FsError::Truncated);
            },
        };
        if dir_end > image.len() {
            return Err(FsError::Truncated);
        }
        let mut high_water = SUPERBLOCK_LEN;
        match validate_dir(image, SUPERBLOCK_LEN, file_count * DIRENT_LEN, &mut high_water, 0).0 {
            Ok(()) => {},
            Err(e) => {
                return Err(e);
            },
        }
        Ok(Fs { image, file_count })
    }

    /// Find a named entry within the directory table `[doff, doff + dlen)`.
    fn find_child(&self, doff: usize, dlen: usize, name: &str) -> (r: Option<Node>)
        requires
            dir_valid(self.bytes(), doff as int, dlen as int),
        ensures
            r == find_child_spec(self.bytes(), doff as int, dlen as int / 32, 0, name@),
            r matches Some(c) ==> node_ok(self.bytes(), c),
    {
        let ghost s = self.image@;
        let n = dlen / DIRENT_LEN;
        let wanted = String::from_str(name);
        let mut i: usize = 0;
        while i < n
            invariant
                s == self.image@,
                n == dlen / 32,
                i <= n,
                dir_valid(s, doff as int, dlen as int),
                wanted@ == name@,
                find_child_spec(s, doff as int, n as int, 0, name@) == find_child_spec(
                    s,
                    doff as int,
                    n as int,
                    i as int,
                    name@,
                ),
            decreases n - i,
        {
            proof {
                lemma_child_ok(s, doff as int, dlen as int, i as int);
            }
            let base = doff + i * DIRENT_LEN;
            let raw = slice_subrange(self.image, base, base + NAME_LEN);
            let ename = entry_name(raw);
            if ename == wanted {
                let offset = read_u32_le(self.image, base + ENT_OFFSET) as usize;
                let length = read_u32_le(self.image, base + ENT_LENGTH) as usize;
                let kind = read_u32_le(self.image, base + ENT_KIND);
                if kind == KIND_DIR {
                    return Some(Node::Dir { offset, length });
                } else {
                    return Some(Node::File { offset, length });
                }
            }
            i = i + 1;
        }
        None
    }

    /// Resolve an absolute path (`"/"`, `"/docs"`, `"/docs/x.txt"`) to the node
    /// it names, descending one `/`-separated component at a time.
    pub fn resolve(&self, abs: &str) -> (r: Result<Node, FsError>)
        ensures
            r == resolve_walk(self.bytes(), root_node(self.root_count()), abs@, 0),
            r matches Ok(n) ==> node_ok(self.bytes(), n),
    {
        proof {
            use_type_invariant(self);
        }
        let ghost s = self.image@;
        let ghost p = abs@;
        let len = abs.unicode_len();
        let mut node = Node::Dir { offset: SUPERBLOCK_LEN, length: self.file_count * DIRENT_LEN };
        proof {
            assert(validate_dir_spec(s, 16, self.file_count * 32, 16, 0) is Ok);
            assert(node_ok(s, node));
        }
        let mut pos: usize = 0;
        loop
            invariant
                s == self.image@,
                p == abs@,
                len == p.len(),
                pos <= len,
                node_ok(s, node),
                resolve_walk(s, root_node(self.file_count as int), p, 0) == resolve_walk(
                    s,
                    node,
                    p,
                    pos as int,
                ),
            decreases len + 1 - pos,
        {
            let mut k = pos;
            while k < len && abs.get_char(k) != '/'
                invariant
                    p == abs@,
                    len == p.len(),
                    pos <= k <= len,
                    find_slash(p, pos as int) == find_slash(p, k as int),
                decreases len - k,
            {
                k = k + 1;
            }
            proof {
                lemma_find_slash(p, pos as int);
            }
            if k > pos {
                let comp = abs.substring_char(pos, k);
                match node {
                    Node::File { .. } => {
                        return Err(FsError::NotADirectory);
                    },
                    Node::Dir { offset, length } => {
                        match self.find_child(offset, length, comp) {
                            Some(c) => {
                                node = c;
                            },
                            None => {
                                return Err(FsError::NotFound);
                            },
                        }
                    },
                }
            }
            if k >= len {
                return Ok(node);
            }
            pos = k + 1;
        }
    }

    /// List the directory at `abs`: name, region and kind of each entry.
    pub fn list_dir(&self, abs: &str) -> (r: Result<Vec<DirEntry>, FsError>)
        ensures
            match resolve_walk(self.bytes(), root_node(self.root_count()), abs@, 0) {
                Err(e) => r matches Err(e2) && e2 == e,
                Ok(Node::File { .. }) => r matches Err(e2) && e2 == FsError::NotADirectory,
                Ok(Node::Dir { offset, length }) => r matches Ok(v) && v.len() == length / 32
                    && forall|i: int|
                    0 <= i < v.len() ==> renders(#[trigger] v[i], self.bytes(), offset + i * 32),
            },
    {
        let (off, len) = match self.resolve(abs) {
            Ok(Node::Dir { offset, length }) => (offset, length),
            Ok(Node::File { .. }) => {
                return Err(FsError::NotADirectory);
            },
            Err(e) => {
                return Err(e);
            },
        };
        let ghost s = self.image@;
        let n = len / DIRENT_LEN;
        let mut out: Vec<DirEntry> = Vec::new();
        let mut i: usize = 0;
        while i < n
            invariant
                s == self.image@,
                n == len / 32,
                i <= n,
                dir_valid(s, off as int, len as int),
                out.len() == i,
                forall|j: int| 0 <= j < i ==> renders(#[trigger] out[j], s, off + j * 32),
            decreases n - i,
        {
            proof {
                lemma_child_ok(s, off as int, len as int, i as int);
            }
            let base = off + i * DIRENT_LEN;
            let raw = slice_subrange(self.image, base, base + NAME_LEN);
            let name = entry_name(raw);
            let e = DirEntry {
                name,
                offset: read_u32_le(self.image, base + ENT_OFFSET) as usize,
                length: read_u32_le(self.image, base + ENT_LENGTH) as usize,
                is_dir: read_u32_le(self.image, base + ENT_KIND) == KIND_DIR,
            };
            out.push(e);
            i = i + 1;
        }
        Ok(out)
    }

    /// Read the file at `abs`: a zero-copy slice of the image.
    pub fn read_path(&self, abs: &str) -> (r: Result<&'a [u8], FsError>)
        ensures
            match resolve_walk(self.bytes(), root_node(self.root_count()), abs@, 0) {
                Err(e) => r matches Err(e2) && e2 == e,
                Ok(Node::Dir { .. }) => r matches Err(e2) && e2 == FsError::IsADirectory,
                Ok(Node::File { offset, length }) => r matches Ok(b) && b@ == self.bytes().subrange(
                    offset as int,
                    offset + length,
                ),
            },
    {
        match self.resolve(abs) {
            Ok(Node::File { offset, length }) => {
                let image = self.image;
                let _total = image.len();
                Ok(slice_subrange(image, offset, offset + length))
            },
            Ok(Node::Dir { .. }) => Err(FsError::IsADirectory),
            Err(e) => Err(e),
        }
    }
}


/// The four little-endian bytes of `v`.
pub open spec fn le32_bytes(v: u32) -> Seq<u8> {
    seq![
        (v % 256) as u8,
        ((v / 256) % 256) as u8,
        ((v / 65536) % 256) as u8,
        (v / 16777216) as u8,
    ]
}

/// The two little-endian bytes of `v`.
pub open spec fn le16_bytes(v: u16) -> Seq<u8> {
    seq![(v % 256) as u8, (v / 256) as u8]
}

/// A 20-byte name field holding the first 20 bytes of `nb`, NUL-padded.
pub open spec fn name_field(nb: Seq<u8>) -> Seq<u8> {
    Seq::new(20, |j: int| if j < nb.len() { nb[j] } else { 0u8 })
}

/// The 32 bytes of a directory entry.
pub open spec fn entry_bytes(nb: Seq<u8>, offset: u32, length: u32, kind: u32) -> Seq<u8> {
    name_field(nb) + le32_bytes(offset) + le32_bytes(length) + le32_bytes(kind)
}

/// Append the little-endian bytes of `v`.
fn push_le32(img: &mut Vec<u8>, v: u32)
    ensures
        final(img)@ == old(img)@ + le32_bytes(v),
{
    img.push((v % 256) as u8);
    img.push(((v / 256) % 256) as u8);
    img.push(((v / 65536) % 256) as u8);
    img.push((v / 16777216) as u8);
    proof {
        assert(img@ =~= old(img)@ + le32_bytes(v));
    }
}

/// Append the little-endian bytes of `v`.
fn push_le16(img: &mut Vec<u8>, v: u16)
    ensures
        final(img)@ == old(img)@ + le16_bytes(v),
{
    img.push((v % 256) as u8);
    img.push((v / 256) as u8);
    proof {
        assert(img@ =~= old(img)@ + le16_bytes(v));
    }
}

/// Append the bytes of `data`.
fn push_bytes(img: &mut Vec<u8>, data: &[u8])
    ensures
        final(img)@ == old(img)@ + data@,
{
    let mut i: usize = 0;
    while i < data.len()
        invariant
            i <= data@.len(),
            img@ == old(img)@ + data@.take(i as int),
        decreases data@.len() - i,
    {
        img.push(data[i]);
        i = i + 1;
        proof {
            assert(img@ =~= old(img)@ + data@.take(i as int));
        }
    }
    proof {
        assert(data@.take(data@.len() as int) =~= data@);
    }
}

/// Write one 32-byte directory entry (name, offset, length, kind) to `img`. A
/// name longer than the field is cut to its first 20 bytes.
fn write_entry(img: &mut Vec<u8>, name: &str, offset: u32, length: u32, kind: u32)
    ensures
        final(img)@ == old(img)@ + entry_bytes(name.spec_bytes(), offset, length, kind),
{
    let nb = name.as_bytes();
    let take = if nb.len() < NAME_LEN {
        nb.len()
    } else {
        NAME_LEN
    };
    let mut j: usize = 0;
    while j < NAME_LEN
        invariant
            j <= NAME_LEN,
            take <= NAME_LEN,
            take <= nb@.len(),
            take == nb@.len() || take == NAME_LEN,
            img@ == old(img)@ + name_field(nb@).take(j as int),
        decreases NAME_LEN - j,
    {
        if j < take {
            img.push(nb[j]);
        } else {
            img.push(0u8);
        }
        j = j + 1;
        proof {
            assert(img@ =~= old(img)@ + name_field(nb@).take(j as int));
        }
    }
    proof {
        assert(name_field(nb@).take(20) =~= name_field(nb@));
    }
    push_le32(img, offset);
    push_le32(img, length);
    push_le32(img, kind);
    proof {
        assert(img@ =~= old(img)@ + entry_bytes(name.spec_bytes(), offset, length, kind));
    }
}

proof fn lemma_le32_roundtrip(s: Seq<u8>, off: int, v: u32)
    requires
        0 <= off,
        off + 4 <= s.len(),
        s.subrange(off, off + 4) == le32_bytes(v),
    ensures
        le_u32(s, off) == v,
{
    assert(s[off] == le32_bytes(v)[0]);
    assert(s[off + 1] == le32_bytes(v)[1]);
    assert(s[off + 2] == le32_bytes(v)[2]);
    assert(s[off + 3] == le32_bytes(v)[3]);
    let b0 = (v % 256) as int;
    let b1 = ((v / 256) % 256) as int;
    let b2 = ((v / 65536) % 256) as int;
    let b3 = (v / 16777216) as int;
    assert(b0 + 256 * b1 + 65536 * b2 + 16777216 * b3 == v) by (nonlinear_arith)
        requires
            b0 == v % 256,
            b1 == (v / 256) % 256,
            b2 == (v / 65536) % 256,
            b3 == v / 16777216,
            0 <= v <= u32::MAX,
    ;
}

proof fn lemma_first_nul_of_field(nb: Seq<u8>, j: int)
    requires
        nb.len() <= 20,
        forall|i: int| 0 <= i < nb.len() ==> nb[i] != 0,
        0 <= j <= nb.len(),
    ensures
        first_nul(name_field(nb), j) == nb.len(),
    decreases 20 - j,
{
    if j < nb.len() {
        lemma_first_nul_of_field(nb, j + 1);
    }
}

/// Round trip of the entry writer and the entry reader: the entry that
/// `write_entry` lays down after any prefix reads back, through the same field
/// decoders `mount` and the lookups use, as the offset, length and kind it was
/// given, and, for a name of at most 20 bytes with no NUL, as that very name.
pub proof fn law_entry_roundtrip(prefix: Seq<u8>, name: Seq<char>, offset: u32, length: u32, kind: u32)
    ensures
        ({
            let s = prefix + entry_bytes(vstd::utf8::encode_utf8(name), offset, length, kind);
            let base = prefix.len() as int;
            &&& ent_off(s, base) == offset
            &&& ent_len(s, base) == length
            &&& ent_kind(s, base) == kind
            &&& (vstd::utf8::encode_utf8(name).len() <= 20 && (forall|i: int|
                0 <= i < vstd::utf8::encode_utf8(name).len() ==> vstd::utf8::encode_utf8(name)[i]
                    != 0)) ==> entry_name_spec(s, base) == name
        }),
{
    let nb = vstd::utf8::encode_utf8(name);
    let e = entry_bytes(nb, offset, length, kind);
    let s = prefix + e;
    let base = prefix.len() as int;
    assert(s.subrange(base + 20, base + 24) =~= le32_bytes(offset));
    assert(s.subrange(base + 24, base + 28) =~= le32_bytes(length));
    assert(s.subrange(base + 28, base + 32) =~= le32_bytes(kind));
    lemma_le32_roundtrip(s, base + 20, offset);
    lemma_le32_roundtrip(s, base + 24, length);
    lemma_le32_roundtrip(s, base + 28, kind);
    if nb.len() <= 20 && (forall|i: int| 0 <= i < nb.len() ==> nb[i] != 0) {
        let field = s.subrange(base, base + 20);
        assert(field =~= name_field(nb));
        lemma_first_nul_of_field(nb, 0);
        assert(field.take(nb.len() as int) =~= nb);
        vstd::utf8::encode_utf8_valid_utf8(name);
        vstd::utf8::encode_utf8_decode_utf8(name);
        assert(valid_utf8(nb));
        assert(decode_utf8(nb) == name);
    }
}


/// The 16-byte superblock: magic `ZRFS`, version, root entry count, total size.
pub open spec fn superblock_bytes(count: u16, total: u32) -> Seq<u8> {
    seq![0x5Au8, 0x52u8, 0x46u8, 0x53u8] + le16_bytes(2) + le16_bytes(count) + le32_bytes(total)
        + le32_bytes(0)
}

/// The boot image's `/motd.txt`.
pub open spec fn motd_text() -> &'static str {
    "Hello, Ziran!"
}

/// The boot image's `/readme`.
pub open spec fn readme_text() -> &'static str {
    "Ziran OS -- a from-scratch x86_64 kernel.\n"
}

/// The boot image's `/ziran.txt`.
pub open spec fn ziran_text() -> &'static str {
    "\u{81ea}\u{7136} (ziran): that which arises without external forcing.\n"
}

/// The boot image's `/docs/filesystem.txt`.
pub open spec fn filesystem_text() -> &'static str {
    "A file is a lie a header tells about bytes.\n"
}

/// The boot image's `/docs/shell.txt`.
pub open spec fn shell_text() -> &'static str {
    "cd, pwd, ls, cat -- navigation over ZranFS v2.\n"
}

/// The secret the boot image holds with no directory entry naming it.
pub open spec fn secret_text() -> &'static str {
    "FLAG{ziran-boundary-leak}"
}

/// The boot RAM disk: superblock, the root table (`motd.txt`, `readme`,
/// `ziran.txt`, `docs/`), the `docs/` table (`filesystem.txt`, `shell.txt`),
/// the file data in that order, and last the secret, which no entry names.
#[verifier::opaque]
pub open spec fn boot_image_spec() -> Seq<u8> {
    let m = motd_text().spec_bytes();
    let r = readme_text().spec_bytes();
    let z = ziran_text().spec_bytes();
    let f = filesystem_text().spec_bytes();
    let h = shell_text().spec_bytes();
    let x = secret_text().spec_bytes();
    let total = 208 + m.len() + r.len() + z.len() + f.len() + h.len() + x.len();
    superblock_bytes(4, total as u32) + entry_bytes("motd.txt".spec_bytes(), 208, m.len() as u32, 0)
        + entry_bytes("readme".spec_bytes(), (208 + m.len()) as u32, r.len() as u32, 0)
        + entry_bytes("ziran.txt".spec_bytes(), (208 + m.len() + r.len()) as u32, z.len() as u32, 0)
        + entry_bytes("docs".spec_bytes(), 144, 64, 1) + entry_bytes(
        "filesystem.txt".spec_bytes(),
        (208 + m.len() + r.len() + z.len()) as u32,
        f.len() as u32,
        0,
    ) + entry_bytes(
        "shell.txt".spec_bytes(),
        (208 + m.len() + r.len() + z.len() + f.len()) as u32,
        h.len() as u32,
        0,
    ) + m + r + z + f + h + x
}

proof fn lemma_encode_len_bound(c: Seq<char>)
    ensures
        vstd::utf8::encode_utf8(c).len() <= 4 * c.len(),
    decreases c.len(),
{
    if c.len() > 0 {
        lemma_encode_len_bound(c.drop_first());
    }
}

proof fn lemma_text_len(t: &str)
    ensures
        t.spec_bytes().len() <= 4 * t@.len(),
{
    lemma_encode_len_bound(t@);
}

/// Build the boot RAM disk, a valid two-level ZranFS tree. This is the writer:
/// it shares no structs with [`Fs`], it only lays down little-endian bytes.
#[verifier::rlimit(60)]
pub fn boot_image() -> (img: Vec<u8>)
    ensures
        img@ == boot_image_spec(),
{
    let motd = "Hello, Ziran!".as_bytes();
    let readme = "Ziran OS -- a from-scratch x86_64 kernel.\n".as_bytes();
    let ziran = "\u{81ea}\u{7136} (ziran): that which arises without external forcing.\n".as_bytes();
    let fsdoc = "A file is a lie a header tells about bytes.\n".as_bytes();
    let shdoc = "cd, pwd, ls, cat -- navigation over ZranFS v2.\n".as_bytes();
    let secret = "FLAG{ziran-boundary-leak}".as_bytes();
    proof {
        reveal_strlit("Hello, Ziran!");
        reveal_strlit("Ziran OS -- a from-scratch x86_64 kernel.\n");
        reveal_strlit("\u{81ea}\u{7136} (ziran): that which arises without external forcing.\n");
        reveal_strlit("A file is a lie a header tells about bytes.\n");
        reveal_strlit("cd, pwd, ls, cat -- navigation over ZranFS v2.\n");
        reveal_strlit("FLAG{ziran-boundary-leak}");
        lemma_text_len("Hello, Ziran!");
        lemma_text_len("Ziran OS -- a from-scratch x86_64 kernel.\n");
        lemma_text_len("\u{81ea}\u{7136} (ziran): that which arises without external forcing.\n");
        lemma_text_len("A file is a lie a header tells about bytes.\n");
        lemma_text_len("cd, pwd, ls, cat -- navigation over ZranFS v2.\n");
        lemma_text_len("FLAG{ziran-boundary-leak}");
    }
    let root_count: usize = 4;
    let docs_count: usize = 2;
    let root_table_off = SUPERBLOCK_LEN;
    let docs_table_off = root_table_off + root_count * DIRENT_LEN;
    let data_off = docs_table_off + docs_count * DIRENT_LEN;
    let data_total = motd.len() + readme.len() + ziran.len() + fsdoc.len() + shdoc.len();
    let total = data_off + data_total + secret.len();

    let mut img: Vec<u8> = Vec::with_capacity(total);

    // Superblock.
    img.push(0x5A);
    img.push(0x52);
    img.push(0x46);
    img.push(0x53);
    push_le16(&mut img, VERSION);
    push_le16(&mut img, root_count as u16);
    push_le32(&mut img, total as u32);
    push_le32(&mut img, 0);
    let ghost sb = img@;
    proof {
        assert(sb =~= superblock_bytes(4, total as u32));
    }

    // Root table; data offsets accumulate as we go.
    let mut cursor = data_off;
    write_entry(&mut img, "motd.txt", cursor as u32, motd.len() as u32, KIND_FILE);
    cursor = cursor + motd.len();
    write_entry(&mut img, "readme", cursor as u32, readme.len() as u32, KIND_FILE);
    cursor = cursor + readme.len();
    write_entry(&mut img, "ziran.txt", cursor as u32, ziran.len() as u32, KIND_FILE);
    cursor = cursor + ziran.len();
    write_entry(
        &mut img,
        "docs",
        docs_table_off as u32,
        (docs_count * DIRENT_LEN) as u32,
        KIND_DIR,
    );

    // docs/ child table; its files' data follows the root files' data.
    write_entry(&mut img, "filesystem.txt", cursor as u32, fsdoc.len() as u32, KIND_FILE);
    cursor = cursor + fsdoc.len();
    write_entry(&mut img, "shell.txt", cursor as u32, shdoc.len() as u32, KIND_FILE);

    // Data region, then the secret that no entry names.
    push_bytes(&mut img, motd);
    push_bytes(&mut img, readme);
    push_bytes(&mut img, ziran);
    push_bytes(&mut img, fsdoc);
    push_bytes(&mut img, shdoc);
    push_bytes(&mut img, secret);
    proof {
        reveal(boot_image_spec);
        assert(img@ =~= boot_image_spec());
    }
    img
}


/// A walk from a safe node ends in an error or in a safe node.
proof fn lemma_walk_ok(s: Seq<u8>, node: Node, p: Seq<char>, pos: int)
    requires
        node_ok(s, node),
    ensures
        resolve_walk(s, node, p, pos) matches Ok(n) ==> node_ok(s, n),
    decreases p.len() + 1 - pos,
{
    if 0 <= pos <= p.len() {
        let k = find_slash(p, pos);
        lemma_find_slash(p, pos);
        let comp = p.subrange(pos, k);
        if comp.len() > 0 {
            if let Node::Dir { offset, length } = node {
                if find_child_spec(s, offset as int, length as int / 32, 0, comp) is Some {
                    let j = lemma_find_child_some(s, offset as int, length as int / 32, 0, comp);
                    lemma_child_ok(s, offset as int, length as int, j);
                }
            }
        }
        if let Ok(n2) = walk_step(s, node, comp) {
            if k < p.len() {
                lemma_walk_ok(s, n2, p, k + 1);
            }
        }
    }
}

/// Mounting is the whole trust boundary: in an image that mounts, every path
/// resolves to an error, to a file whose bytes lie inside the image, or to a
/// directory whose table is a whole number of entries inside the image. So
/// the lookups that follow a mount never read outside the image.
pub proof fn law_mounted_paths_in_bounds(s: Seq<u8>, p: Seq<char>)
    requires
        mount_spec(s) is Ok,
    ensures
        match resolve_walk(s, root_node(mount_spec(s)->Ok_0), p, 0) {
            Ok(Node::File { offset, length }) => offset + length <= s.len(),
            Ok(Node::Dir { offset, length }) => length % 32 == 0 && offset + length <= s.len(),
            Err(e) => e == FsError::NotFound || e == FsError::NotADirectory,
        },
{
    let c = mount_spec(s)->Ok_0;
    assert(validate_dir_spec(s, 16, c * 32, 16, 0) is Ok);
    assert(root_node(c) == Node::Dir { offset: 16, length: (c * 32) as usize });
    assert((c * 32) as usize == c * 32);
    lemma_walk_ok(s, root_node(c), p, 0);
    lemma_resolve_errors(s, root_node(c), p, 0);
    if let Ok(Node::Dir { offset, length }) = resolve_walk(s, root_node(c), p, 0) {
        let (hw, d) = choose|hw: int, d: int|
            #[trigger] validate_dir_spec(s, offset as int, length as int, hw, d) is Ok;
        lemma_dir_ok(s, offset as int, length as int, hw, d);
    }
}

/// The entry at `base` of `s` is the one `entry_bytes` lays down for `name`:
/// its fields and its name read back as written.
proof fn lemma_entry_at(s: Seq<u8>, base: int, name: Seq<char>, offset: u32, length: u32, kind: u32)
    requires
        0 <= base,
        base + 32 <= s.len(),
        s.subrange(base, base + 32) == entry_bytes(vstd::utf8::encode_utf8(name), offset, length, kind),
        vstd::utf8::encode_utf8(name).len() <= 20,
        forall|i: int|
            0 <= i < vstd::utf8::encode_utf8(name).len() ==> vstd::utf8::encode_utf8(name)[i] != 0,
    ensures
        ent_off(s, base) == offset,
        ent_len(s, base) == length,
        ent_kind(s, base) == kind,
        entry_name_spec(s, base) == name,
{
    let e = entry_bytes(vstd::utf8::encode_utf8(name), offset, length, kind);
    let t = Seq::<u8>::empty() + e;
    law_entry_roundtrip(Seq::<u8>::empty(), name, offset, length, kind);
    assert(t =~= e);
    assert forall|k: int| 0 <= k < 32 implies s[base + k] == t[k] by {
        assert(s.subrange(base, base + 32)[k] == s[base + k]);
    }
    assert(s.subrange(base, base + 20) =~= t.subrange(0, 20));
}

/// An ASCII name of at most 20 characters fits an entry's name field and
/// holds no NUL byte, unless it holds a NUL character.
proof fn lemma_ascii_name(t: &str)
    requires
        vstd::string::is_ascii(t),
        t@.len() <= 20,
        forall|i: int| 0 <= i < t@.len() ==> t@[i] != '\0',
    ensures
        t.spec_bytes() == vstd::utf8::encode_utf8(t@),
        t.spec_bytes().len() <= 20,
        forall|i: int| 0 <= i < t.spec_bytes().len() ==> t.spec_bytes()[i] != 0,
{
    vstd::string::is_ascii_spec_bytes(t);
    assert forall|i: int| 0 <= i < t.spec_bytes().len() implies t.spec_bytes()[i] != 0 by {
        assert(t@[i] != '\0');
        assert(t.spec_bytes()[i] == t@[i] as u8);
    }
}

/// Where the boot image puts `/motd.txt`: at 208, right after the two
/// tables. Each next file follows the one before, and the secret comes last.
pub open spec fn motd_at() -> int {
    208
}

/// Where the boot image puts `/readme`: right after the file before it.
pub open spec fn readme_at() -> int {
    motd_at() + motd_text().spec_bytes().len()
}

/// Where the boot image puts `/ziran.txt`: right after the file before it.
pub open spec fn ziran_at() -> int {
    readme_at() + readme_text().spec_bytes().len()
}

/// Where the boot image puts `/docs/filesystem.txt`: right after the file before it.
pub open spec fn filesystem_at() -> int {
    ziran_at() + ziran_text().spec_bytes().len()
}

/// Where the boot image puts `/docs/shell.txt`: right after the file before it.
pub open spec fn shell_at() -> int {
    filesystem_at() + filesystem_text().spec_bytes().len()
}

/// Where the secret starts: after every named file's data.
pub open spec fn secret_at() -> int {
    shell_at() + shell_text().spec_bytes().len()
}

/// The node of the boot image's `/docs` directory.
pub open spec fn docs_node() -> Node {
    Node::Dir { offset: 144, length: 64 }
}

/// The five files the boot image names, as the nodes the lookups give.
pub open spec fn boot_files() -> Seq<Node> {
    seq![
        Node::File { offset: motd_at() as usize, length: motd_text().spec_bytes().len() as usize },
        Node::File {
            offset: readme_at() as usize,
            length: readme_text().spec_bytes().len() as usize,
        },
        Node::File { offset: ziran_at() as usize, length: ziran_text().spec_bytes().len() as usize },
        Node::File {
            offset: filesystem_at() as usize,
            length: filesystem_text().spec_bytes().len() as usize,
        },
        Node::File { offset: shell_at() as usize, length: shell_text().spec_bytes().len() as usize },
    ]
}

/// The UTF-8 encoding of an ASCII text has one byte per character.
proof fn lemma_ascii_len(t: &str)
    requires
        vstd::string::is_ascii(t),
    ensures
        t.spec_bytes().len() == t@.len(),
{
    vstd::string::is_ascii_spec_bytes(t);
}

/// The byte lengths of the boot image's texts. All are ASCII but
/// `/ziran.txt`, whose first two characters take three bytes each.
#[verifier::rlimit(80)]
#[verifier::spinoff_prover]
proof fn lemma_boot_lens()
    ensures
        motd_text().spec_bytes().len() == 13,
        readme_text().spec_bytes().len() == 42,
        ziran_text().spec_bytes().len() == 60,
        filesystem_text().spec_bytes().len() == 44,
        shell_text().spec_bytes().len() == 47,
        secret_text().spec_bytes().len() == 25,
{
    reveal_strlit("Hello, Ziran!");
    reveal_strlit("Ziran OS -- a from-scratch x86_64 kernel.\n");
    reveal_strlit("\u{81ea}\u{7136} (ziran): that which arises without external forcing.\n");
    reveal_strlit("A file is a lie a header tells about bytes.\n");
    reveal_strlit("cd, pwd, ls, cat -- navigation over ZranFS v2.\n");
    reveal_strlit("FLAG{ziran-boundary-leak}");
    lemma_ascii_len(motd_text());
    lemma_ascii_len(readme_text());
    lemma_ascii_len(filesystem_text());
    lemma_ascii_len(shell_text());
    lemma_ascii_len(secret_text());
    let c = ziran_text()@;
    let tail = c.drop_first().drop_first();
    assert(vstd::utf8::is_ascii_chars(tail));
    vstd::utf8::is_ascii_chars_encode_utf8(tail);
    assert(vstd::utf8::encode_utf8(c.drop_first()) == vstd::utf8::encode_scalar(
        c.drop_first()[0] as u32,
    ) + vstd::utf8::encode_utf8(tail));
    assert(vstd::utf8::encode_scalar(c[0] as u32).len() == 3);
    assert(vstd::utf8::encode_scalar(c.drop_first()[0] as u32).len() == 3);
}

/// `b` sits in `a + b + c` right after `a`.
proof fn lemma_middle(a: Seq<u8>, b: Seq<u8>, c: Seq<u8>)
    ensures
        (a + b + c).subrange(a.len() as int, (a.len() + b.len()) as int) == b,
        (a + b + c).subrange(0, a.len() as int) == a,
{
    assert((a + b + c).subrange(a.len() as int, (a.len() + b.len()) as int) =~= b);
    assert((a + b + c).subrange(0, a.len() as int) =~= a);
}

/// A window inside the first part of `a + b` is a window of `a`.
proof fn lemma_front(a: Seq<u8>, b: Seq<u8>, i: int, j: int)
    requires
        0 <= i <= j <= a.len(),
    ensures
        (a + b).subrange(i, j) == a.subrange(i, j),
{
    assert((a + b).subrange(i, j) =~= a.subrange(i, j));
}

/// The boot image, cut into its superblock, its six entries and its data.
#[verifier::rlimit(80)]
#[verifier::spinoff_prover]
proof fn lemma_boot_split()
    ensures
        ({
            let s = boot_image_spec();
            let m = motd_text().spec_bytes();
            let r = readme_text().spec_bytes();
            let z = ziran_text().spec_bytes();
            let f = filesystem_text().spec_bytes();
            let h = shell_text().spec_bytes();
            let x = secret_text().spec_bytes();
            &&& s.len() == secret_at() + x.len()
            &&& s.subrange(0, 16) == superblock_bytes(4, s.len() as u32)
            &&& s.subrange(16, 48) == entry_bytes("motd.txt".spec_bytes(), 208, m.len() as u32, 0)
            &&& s.subrange(48, 80) == entry_bytes(
                "readme".spec_bytes(),
                readme_at() as u32,
                r.len() as u32,
                0,
            )
            &&& s.subrange(80, 112) == entry_bytes(
                "ziran.txt".spec_bytes(),
                ziran_at() as u32,
                z.len() as u32,
                0,
            )
            &&& s.subrange(112, 144) == entry_bytes("docs".spec_bytes(), 144, 64, 1)
            &&& s.subrange(144, 176) == entry_bytes(
                "filesystem.txt".spec_bytes(),
                filesystem_at() as u32,
                f.len() as u32,
                0,
            )
            &&& s.subrange(176, 208) == entry_bytes(
                "shell.txt".spec_bytes(),
                shell_at() as u32,
                h.len() as u32,
                0,
            )
            &&& s.subrange(motd_at(), readme_at()) == m
            &&& s.subrange(readme_at(), ziran_at()) == r
            &&& s.subrange(ziran_at(), filesystem_at()) == z
            &&& s.subrange(filesystem_at(), shell_at()) == f
            &&& s.subrange(shell_at(), secret_at()) == h
            &&& s.subrange(secret_at(), s.len() as int) == x
        }),
{
    let m = motd_text().spec_bytes();
    let r = readme_text().spec_bytes();
    let z = ziran_text().spec_bytes();
    let f = filesystem_text().spec_bytes();
    let h = shell_text().spec_bytes();
    let x = secret_text().spec_bytes();
    let total = 208 + m.len() + r.len() + z.len() + f.len() + h.len() + x.len();
    let sb = superblock_bytes(4, total as u32);
    let e0 = entry_bytes("motd.txt".spec_bytes(), 208, m.len() as u32, 0);
    let e1 = entry_bytes("readme".spec_bytes(), (208 + m.len()) as u32, r.len() as u32, 0);
    let e2 = entry_bytes("ziran.txt".spec_bytes(), (208 + m.len() + r.len()) as u32, z.len() as u32, 0);
    let e3 = entry_bytes("docs".spec_bytes(), 144, 64, 1);
    let e4 = entry_bytes(
        "filesystem.txt".spec_bytes(),
        (208 + m.len() + r.len() + z.len()) as u32,
        f.len() as u32,
        0,
    );
    let e5 = entry_bytes(
        "shell.txt".spec_bytes(),
        (208 + m.len() + r.len() + z.len() + f.len()) as u32,
        h.len() as u32,
        0,
    );
    let a1 = sb + e0;
    let a2 = a1 + e1;
    let a3 = a2 + e2;
    let a4 = a3 + e3;
    let a5 = a4 + e4;
    let a6 = a5 + e5;
    let b1 = a6 + m;
    let b2 = b1 + r;
    let b3 = b2 + z;
    let b4 = b3 + f;
    let b5 = b4 + h;
    let s = boot_image_spec();
    assert(s == b5 + x) by {
        reveal(boot_image_spec);
    }
    assert(a6.len() == 208);
    // Every window below lies in the part before the last piece; peel the
    // pieces off from the right.
    lemma_front(b5, x, 0, 208);
    lemma_front(b4, h, 0, 208);
    lemma_front(b3, f, 0, 208);
    lemma_front(b2, z, 0, 208);
    lemma_front(b1, r, 0, 208);
    lemma_front(a6, m, 0, 208);
    assert(s.subrange(0, 208) == a6);
    assert(a6.subrange(0, 208) =~= a6);
    assert forall|i: int, j: int| 0 <= i <= j <= 208 implies #[trigger] s.subrange(i, j)
        == a6.subrange(i, j) by {
        assert(s.subrange(i, j) =~= a6.subrange(i, j));
    }
    lemma_middle(a5, e5, Seq::<u8>::empty());
    assert(a5 + e5 + Seq::<u8>::empty() =~= a6);
    lemma_middle(a4, e4, e5);
    lemma_middle(a3, e3, e4 + e5);
    assert(a3 + e3 + (e4 + e5) =~= a6);
    lemma_middle(a2, e2, e3 + e4 + e5);
    assert(a2 + e2 + (e3 + e4 + e5) =~= a6);
    lemma_middle(a1, e1, e2 + e3 + e4 + e5);
    assert(a1 + e1 + (e2 + e3 + e4 + e5) =~= a6);
    lemma_middle(sb, e0, e1 + e2 + e3 + e4 + e5);
    assert(sb + e0 + (e1 + e2 + e3 + e4 + e5) =~= a6);
    assert(s.subrange(0, 16) == sb);
    assert(s.subrange(16, 48) == e0);
    assert(s.subrange(48, 80) == e1);
    assert(s.subrange(80, 112) == e2);
    assert(s.subrange(112, 144) == e3);
    assert(s.subrange(144, 176) == e4);
    assert(s.subrange(176, 208) == e5);
    assert(s.subrange(motd_at(), readme_at()) =~= m);
    assert(s.subrange(readme_at(), ziran_at()) =~= r);
    assert(s.subrange(ziran_at(), filesystem_at()) =~= z);
    assert(s.subrange(filesystem_at(), shell_at()) =~= f);
    assert(s.subrange(shell_at(), secret_at()) =~= h);
    assert(s.subrange(secret_at(), s.len() as int) =~= x);
}

/// The boot image's superblock and entries read back as written.
#[verifier::rlimit(80)]
#[verifier::spinoff_prover]
proof fn lemma_boot_layout()
    ensures
        ({
            let s = boot_image_spec();
            &&& s.len() == secret_at() + secret_text().spec_bytes().len()
            &&& secret_at() < s.len() < 0x1_0000
            &&& s.subrange(0, 16) == superblock_bytes(4, s.len() as u32)
            &&& ent_off(s, 16) == motd_at() && ent_len(s, 16) == motd_text().spec_bytes().len()
            &&& ent_kind(s, 16) == 0 && entry_name_spec(s, 16) == "motd.txt"@
            &&& ent_off(s, 48) == readme_at() && ent_len(s, 48) == readme_text().spec_bytes().len()
            &&& ent_kind(s, 48) == 0 && entry_name_spec(s, 48) == "readme"@
            &&& ent_off(s, 80) == ziran_at() && ent_len(s, 80) == ziran_text().spec_bytes().len()
            &&& ent_kind(s, 80) == 0 && entry_name_spec(s, 80) == "ziran.txt"@
            &&& ent_off(s, 112) == 144 && ent_len(s, 112) == 64
            &&& ent_kind(s, 112) == 1 && entry_name_spec(s, 112) == "docs"@
            &&& ent_off(s, 144) == filesystem_at() && ent_len(s, 144)
                == filesystem_text().spec_bytes().len()
            &&& ent_kind(s, 144) == 0 && entry_name_spec(s, 144) == "filesystem.txt"@
            &&& ent_off(s, 176) == shell_at() && ent_len(s, 176) == shell_text().spec_bytes().len()
            &&& ent_kind(s, 176) == 0 && entry_name_spec(s, 176) == "shell.txt"@
        }),
{
    lemma_boot_lens();
    lemma_boot_split();
    let s = boot_image_spec();
    assert(secret_at() == 414);
    reveal_strlit("motd.txt");
    reveal_strlit("readme");
    reveal_strlit("ziran.txt");
    reveal_strlit("docs");
    reveal_strlit("filesystem.txt");
    reveal_strlit("shell.txt");
    lemma_ascii_name("motd.txt");
    lemma_ascii_name("readme");
    lemma_ascii_name("ziran.txt");
    lemma_ascii_name("docs");
    lemma_ascii_name("filesystem.txt");
    lemma_ascii_name("shell.txt");
    lemma_entry_at(s, 16, "motd.txt"@, 208, motd_text().spec_bytes().len() as u32, 0);
    lemma_entry_at(
        s,
        48,
        "readme"@,
        readme_at() as u32,
        readme_text().spec_bytes().len() as u32,
        0,
    );
    lemma_entry_at(s, 80, "ziran.txt"@, ziran_at() as u32, ziran_text().spec_bytes().len() as u32, 0);
    lemma_entry_at(s, 112, "docs"@, 144, 64, 1);
    lemma_entry_at(
        s,
        144,
        "filesystem.txt"@,
        filesystem_at() as u32,
        filesystem_text().spec_bytes().len() as u32,
        0,
    );
    lemma_entry_at(
        s,
        176,
        "shell.txt"@,
        shell_at() as u32,
        shell_text().spec_bytes().len() as u32,
        0,
    );
}

/// The superblock of the boot image reads back as written.
#[verifier::rlimit(80)]
#[verifier::spinoff_prover]
proof fn lemma_boot_superblock()
    ensures
        ({
            let s = boot_image_spec();
            &&& s.len() == 439
            &&& s[0] == 0x5A && s[1] == 0x52 && s[2] == 0x46 && s[3] == 0x53
            &&& le_u16(s, 4) == 2
            &&& le_u16(s, 6) == 4
            &&& le_u32(s, 8) == 439
        }),
{
    lemma_boot_lens();
    lemma_boot_split();
    let s = boot_image_spec();
    let sb = superblock_bytes(4, 439);
    assert forall|k: int| 0 <= k < 16 implies s[k] == sb[k] by {
        assert(s.subrange(0, 16)[k] == s[k]);
    }
    assert(s.subrange(8, 12) =~= le32_bytes(439));
    lemma_le32_roundtrip(s, 8, 439);
}

/// The boot image mounts, with four entries in its root.
#[verifier::rlimit(80)]
#[verifier::spinoff_prover]
proof fn lemma_boot_mount()
    ensures
        mount_spec(boot_image_spec()) == Ok::<int, FsError>(4),
{
    lemma_boot_lens();
    lemma_boot_layout();
    lemma_boot_superblock();
    let s = boot_image_spec();
    assert(validate_entries_spec(s, 144, 2, 2, 208, 1) == Ok::<int, FsError>(208));
    assert(validate_entries_spec(s, 144, 2, 1, 208, 1) == Ok::<int, FsError>(208));
    assert(validate_entries_spec(s, 144, 2, 0, 208, 1) == Ok::<int, FsError>(208));
    assert(validate_dir_spec(s, 144, 64, 144, 1) == Ok::<int, FsError>(208));
    assert(validate_entries_spec(s, 16, 4, 4, 208, 0) == Ok::<int, FsError>(208));
    assert(validate_entries_spec(s, 16, 4, 3, 144, 0) == Ok::<int, FsError>(208));
    assert(validate_entries_spec(s, 16, 4, 2, 144, 0) == Ok::<int, FsError>(208));
    assert(validate_entries_spec(s, 16, 4, 1, 144, 0) == Ok::<int, FsError>(208));
    assert(validate_entries_spec(s, 16, 4, 0, 144, 0) == Ok::<int, FsError>(208));
    assert(validate_dir_spec(s, 16, 128, 16, 0) == Ok::<int, FsError>(208));
}

/// `find_slash` from `pos` stops at `k` when no `/` lies in between and `k`
/// is a `/` or the end.
pub proof fn lemma_find_slash_at(p: Seq<char>, pos: int, k: int)
    requires
        0 <= pos <= k <= p.len(),
        forall|j: int| pos <= j < k ==> p[j] != '/',
        k == p.len() || p[k] == '/',
    ensures
        find_slash(p, pos) == k,
    decreases k - pos,
{
    if pos < k {
        lemma_find_slash_at(p, pos + 1, k);
    }
}

/// One step of a walk: the component `p[pos..k)` takes `node` to `next`.
proof fn lemma_walk_step(s: Seq<u8>, node: Node, p: Seq<char>, pos: int, k: int, next: Node)
    requires
        0 <= pos <= k <= p.len(),
        forall|j: int| pos <= j < k ==> p[j] != '/',
        k == p.len() || p[k] == '/',
        walk_step(s, node, p.subrange(pos, k)) == Ok::<Node, FsError>(next),
    ensures
        resolve_walk(s, node, p, pos) == (if k == p.len() {
            Ok::<Node, FsError>(next)
        } else {
            resolve_walk(s, next, p, k + 1)
        }),
{
    lemma_find_slash_at(p, pos, k);
}

/// The first entry named `name` is one of the entries `i..n`: the one at the
/// index this gives.
proof fn lemma_find_child_some(s: Seq<u8>, off: int, n: int, i: int, name: Seq<char>) -> (j: int)
    requires
        find_child_spec(s, off, n, i, name) is Some,
    ensures
        i <= j < n,
        find_child_spec(s, off, n, i, name) == Some(entry_node(s, off + j * 32)),
    decreases n - i,
{
    if entry_name_spec(s, off + i * 32) == name {
        i
    } else {
        lemma_find_child_some(s, off, n, i + 1, name)
    }
}

/// Where the region named by the entry at `base` ends.
pub open spec fn entry_end(s: Seq<u8>, base: int) -> int {
    ent_off(s, base) + ent_len(s, base)
}

/// Whether `node` is one the boot image's tree holds: its root, `/docs`, or
/// one of its five files.
pub open spec fn boot_reachable(node: Node) -> bool {
    node == root_node(4) || node == docs_node() || boot_files().contains(node)
}

/// Walking from a node of the boot tree ends in an error or in a node of the
/// tree.
#[verifier::rlimit(80)]
#[verifier::spinoff_prover]
proof fn lemma_walk_reachable(node: Node, p: Seq<char>, pos: int)
    requires
        boot_reachable(node),
    ensures
        resolve_walk(boot_image_spec(), node, p, pos) matches Ok(n2) ==> boot_reachable(n2),
    decreases p.len() + 1 - pos,
{
    let s = boot_image_spec();
    if 0 <= pos <= p.len() {
        let k = find_slash(p, pos);
        lemma_find_slash(p, pos);
        let comp = p.subrange(pos, k);
        if comp.len() > 0 {
            match node {
                Node::Dir { offset, length } => {
                    lemma_boot_layout();
                    lemma_boot_lens();
                    if let Some(c) = find_child_spec(s, offset as int, length as int / 32, 0, comp) {
                        let j = lemma_find_child_some(s, offset as int, length as int / 32, 0, comp);
                        assert(boot_files()[0] == entry_node(s, 16));
                        assert(boot_files()[1] == entry_node(s, 48));
                        assert(boot_files()[2] == entry_node(s, 80));
                        assert(boot_files()[3] == entry_node(s, 144));
                        assert(boot_files()[4] == entry_node(s, 176));
                        if node == root_node(4) {
                            assert(j == 0 || j == 1 || j == 2 || j == 3);
                        } else if node == docs_node() {
                            assert(j == 0 || j == 1);
                        } else {
                            assert(boot_files().contains(node));
                            let q = choose|q: int| 0 <= q < 5 && boot_files()[q] == node;
                            assert(false);
                        }
                        assert(boot_reachable(c));
                    }
                },
                Node::File { .. } => {},
            }
        }
        if let Ok(n2) = walk_step(s, node, comp) {
            assert(boot_reachable(n2));
            if k < p.len() {
                lemma_walk_reachable(n2, p, k + 1);
            }
        }
    }
}

/// The walks of `/` and of the three files in the root.
#[verifier::rlimit(80)]
#[verifier::spinoff_prover]
proof fn lemma_boot_walk_root()
    ensures
        ({
            let s = boot_image_spec();
            let root = root_node(4);
            &&& resolve_walk(s, root, "/"@, 0) == Ok::<Node, FsError>(root)
            &&& resolve_walk(s, root, "/motd.txt"@, 0) == Ok::<Node, FsError>(entry_node(s, 16))
            &&& resolve_walk(s, root, "/readme"@, 0) == Ok::<Node, FsError>(entry_node(s, 48))
            &&& resolve_walk(s, root, "/ziran.txt"@, 0) == Ok::<Node, FsError>(entry_node(s, 80))
        }),
{
    lemma_boot_layout();
    let s = boot_image_spec();
    let root = root_node(4);
    reveal_strlit("/");
    reveal_strlit("/motd.txt");
    reveal_strlit("/readme");
    reveal_strlit("/ziran.txt");
    reveal_strlit("motd.txt");
    reveal_strlit("readme");
    reveal_strlit("ziran.txt");
    let p = "/"@;
    assert(p.subrange(0, 0).len() == 0);
    lemma_walk_step(s, root, p, 0, 0, root);
    assert(p.subrange(1, 1).len() == 0);
    lemma_walk_step(s, root, p, 1, 1, root);
    let p = "/motd.txt"@;
    lemma_walk_step(s, root, p, 0, 0, root);
    assert(p.subrange(1, 9) =~= "motd.txt"@);
    lemma_walk_step(s, root, p, 1, 9, entry_node(s, 16));
    let p = "/readme"@;
    lemma_walk_step(s, root, p, 0, 0, root);
    assert(p.subrange(1, 7) =~= "readme"@);
    assert(entry_name_spec(s, 16) != "readme"@);
    assert(find_child_spec(s, 16, 4, 1, "readme"@) == Some(entry_node(s, 48)));
    lemma_walk_step(s, root, p, 1, 7, entry_node(s, 48));
    let p = "/ziran.txt"@;
    lemma_walk_step(s, root, p, 0, 0, root);
    assert(p.subrange(1, 10) =~= "ziran.txt"@);
    assert(entry_name_spec(s, 16) != "ziran.txt"@);
    assert(entry_name_spec(s, 48) != "ziran.txt"@);
    assert(find_child_spec(s, 16, 4, 2, "ziran.txt"@) == Some(entry_node(s, 80)));
    assert(find_child_spec(s, 16, 4, 1, "ziran.txt"@) == Some(entry_node(s, 80)));
    lemma_walk_step(s, root, p, 1, 10, entry_node(s, 80));
}

/// The root's entry named `docs` is the `/docs` table.
#[verifier::rlimit(80)]
#[verifier::spinoff_prover]
proof fn lemma_boot_find_docs()
    ensures
        find_child_spec(boot_image_spec(), 16, 4, 0, "docs"@) == Some(docs_node()),
{
    lemma_boot_layout();
    let s = boot_image_spec();
    reveal_strlit("motd.txt");
    reveal_strlit("readme");
    reveal_strlit("ziran.txt");
    reveal_strlit("docs");
    assert(entry_name_spec(s, 16).len() != "docs"@.len());
    assert(entry_name_spec(s, 48).len() != "docs"@.len());
    assert(entry_name_spec(s, 80).len() != "docs"@.len());
    assert(find_child_spec(s, 16, 4, 3, "docs"@) == Some(docs_node()));
    assert(find_child_spec(s, 16, 4, 2, "docs"@) == Some(docs_node()));
    assert(find_child_spec(s, 16, 4, 1, "docs"@) == Some(docs_node()));
}

/// A walk `/docs/<name>`: it first reaches the `/docs` table.
proof fn lemma_boot_walk_into_docs(p: Seq<char>)
    requires
        p.len() >= 6,
        p.subrange(0, 6) == "/docs/"@,
    ensures
        resolve_walk(boot_image_spec(), root_node(4), p, 0) == resolve_walk(
            boot_image_spec(),
            docs_node(),
            p,
            6,
        ),
{
    lemma_boot_find_docs();
    reveal_strlit("/docs/");
    reveal_strlit("docs");
    let s = boot_image_spec();
    let root = root_node(4);
    assert(p[0] == "/docs/"@[0]);
    assert(p[5] == "/docs/"@[5]);
    assert forall|j: int| 1 <= j < 5 implies p[j] != '/' by {
        assert(p[j] == "/docs/"@[j]);
    }
    lemma_walk_step(s, root, p, 0, 0, root);
    assert(p.subrange(1, 5) =~= "docs"@) by {
        assert forall|j: int| 0 <= j < 4 implies p.subrange(1, 5)[j] == "docs"@[j] by {
            assert(p[j + 1] == "/docs/"@[j + 1]);
        }
    }
    lemma_walk_step(s, root, p, 1, 5, docs_node());
}

/// The walks of `/docs` and of the two files in it.
proof fn lemma_boot_walk_docs()
    ensures
        ({
            let s = boot_image_spec();
            let root = root_node(4);
            &&& resolve_walk(s, root, "/docs"@, 0) == Ok::<Node, FsError>(docs_node())
            &&& resolve_walk(s, root, "/docs/filesystem.txt"@, 0) == Ok::<Node, FsError>(
                entry_node(s, 144),
            )
            &&& resolve_walk(s, root, "/docs/shell.txt"@, 0) == Ok::<Node, FsError>(
                entry_node(s, 176),
            )
        }),
{
    lemma_boot_find_docs();
    let s = boot_image_spec();
    let root = root_node(4);
    let docs = docs_node();
    reveal_strlit("/docs");
    reveal_strlit("docs");
    let p = "/docs"@;
    lemma_walk_step(s, root, p, 0, 0, root);
    assert(p.subrange(1, 5) =~= "docs"@);
    lemma_walk_step(s, root, p, 1, 5, docs);
    lemma_boot_walk_files_in_docs();
}

/// The walks of the two files in `/docs`.
proof fn lemma_boot_walk_files_in_docs()
    ensures
        ({
            let s = boot_image_spec();
            let root = root_node(4);
            &&& resolve_walk(s, root, "/docs/filesystem.txt"@, 0) == Ok::<Node, FsError>(
                entry_node(s, 144),
            )
            &&& resolve_walk(s, root, "/docs/shell.txt"@, 0) == Ok::<Node, FsError>(
                entry_node(s, 176),
            )
        }),
{
    lemma_boot_walk_filesystem();
    lemma_boot_walk_shell();
}

/// The walk of `/docs/filesystem.txt`.
#[verifier::rlimit(80)]
#[verifier::spinoff_prover]
proof fn lemma_boot_walk_filesystem()
    ensures
        resolve_walk(boot_image_spec(), root_node(4), "/docs/filesystem.txt"@, 0) == Ok::<
            Node,
            FsError,
        >(entry_node(boot_image_spec(), 144)),
{
    lemma_boot_layout();
    let s = boot_image_spec();
    reveal_strlit("/docs/");
    reveal_strlit("/docs/filesystem.txt");
    reveal_strlit("filesystem.txt");
    let p = "/docs/filesystem.txt"@;
    assert(p.subrange(0, 6) =~= "/docs/"@);
    lemma_boot_walk_into_docs(p);
    assert(p.subrange(6, 20) =~= "filesystem.txt"@);
    lemma_walk_step(s, docs_node(), p, 6, 20, entry_node(s, 144));
}

/// The walk of `/docs/shell.txt`.
#[verifier::rlimit(80)]
#[verifier::spinoff_prover]
proof fn lemma_boot_walk_shell()
    ensures
        resolve_walk(boot_image_spec(), root_node(4), "/docs/shell.txt"@, 0) == Ok::<
            Node,
            FsError,
        >(entry_node(boot_image_spec(), 176)),
{
    lemma_boot_layout();
    let s = boot_image_spec();
    reveal_strlit("/docs/");
    reveal_strlit("/docs/shell.txt");
    reveal_strlit("filesystem.txt");
    reveal_strlit("shell.txt");
    let p = "/docs/shell.txt"@;
    assert(p.subrange(0, 6) =~= "/docs/"@);
    lemma_boot_walk_into_docs(p);
    assert(p.subrange(6, 15) =~= "shell.txt"@);
    assert(entry_name_spec(s, 144).len() != "shell.txt"@.len());
    assert(find_child_spec(s, 144, 2, 2, "shell.txt"@) is None);
    assert(find_child_spec(s, 144, 2, 1, "shell.txt"@) == Some(entry_node(s, 176)));
    lemma_walk_step(s, docs_node(), p, 6, 15, entry_node(s, 176));
}

/// Round trip of the boot image: what [`boot_image`] writes, [`Fs::mount`]
/// accepts with four root entries, and every file it wrote resolves by its path
/// to the very bytes it was written with. The root lists `motd.txt`, `readme`,
/// `ziran.txt` and the directory `docs`; `/docs` lists `filesystem.txt` and
/// `shell.txt`.
#[verifier::rlimit(80)]
#[verifier::spinoff_prover]
pub proof fn law_boot_image_round_trip()
    ensures
        ({
            let s = boot_image_spec();
            let root = root_node(4);
            &&& mount_spec(s) == Ok::<int, FsError>(4)
            &&& resolve_walk(s, root, "/"@, 0) == Ok::<Node, FsError>(root)
            &&& resolve_walk(s, root, "/motd.txt"@, 0) == Ok::<Node, FsError>(
                Node::File { offset: 208, length: 13 },
            )
            &&& resolve_walk(s, root, "/readme"@, 0) == Ok::<Node, FsError>(
                Node::File { offset: 221, length: 42 },
            )
            &&& resolve_walk(s, root, "/ziran.txt"@, 0) == Ok::<Node, FsError>(
                Node::File { offset: 263, length: 60 },
            )
            &&& resolve_walk(s, root, "/docs"@, 0) == Ok::<Node, FsError>(
                Node::Dir { offset: 144, length: 64 },
            )
            &&& resolve_walk(s, root, "/docs/filesystem.txt"@, 0) == Ok::<Node, FsError>(
                Node::File { offset: 323, length: 44 },
            )
            &&& resolve_walk(s, root, "/docs/shell.txt"@, 0) == Ok::<Node, FsError>(
                Node::File { offset: 367, length: 47 },
            )
            &&& s.subrange(208, 221) == motd_text().spec_bytes()
            &&& s.subrange(221, 263) == readme_text().spec_bytes()
            &&& s.subrange(263, 323) == ziran_text().spec_bytes()
            &&& s.subrange(323, 367) == filesystem_text().spec_bytes()
            &&& s.subrange(367, 414) == shell_text().spec_bytes()
            &&& s.subrange(414, 439) == secret_text().spec_bytes()
            &&& s.len() == 439
            &&& entry_name_spec(s, 16) == "motd.txt"@ && ent_kind(s, 16) == 0
            &&& entry_name_spec(s, 48) == "readme"@ && ent_kind(s, 48) == 0
            &&& entry_name_spec(s, 80) == "ziran.txt"@ && ent_kind(s, 80) == 0
            &&& entry_name_spec(s, 112) == "docs"@ && ent_kind(s, 112) == 1
            &&& entry_name_spec(s, 144) == "filesystem.txt"@ && ent_kind(s, 144) == 0
            &&& entry_name_spec(s, 176) == "shell.txt"@ && ent_kind(s, 176) == 0
        }),
{
    lemma_boot_lens();
    lemma_boot_split();
    lemma_boot_layout();
    lemma_boot_mount();
    lemma_boot_walk_root();
    lemma_boot_walk_docs();
}

/// What the boot image keeps secret stays secret: every path resolves to an
/// error, to one of its two directories, or to one of its five files, and
/// no file a path reaches, nor any entry a listing shows, touches the bytes
/// `[414, 439)` where the secret lies.
#[verifier::rlimit(80)]
#[verifier::spinoff_prover]
pub proof fn law_boot_secret_unreachable(p: Seq<char>)
    ensures
        ({
            let s = boot_image_spec();
            match resolve_walk(s, root_node(4), p, 0) {
                Err(_) => true,
                Ok(Node::Dir { offset, length }) => (offset == 16 && length == 128) || (offset
                    == 144 && length == 64),
                Ok(Node::File { offset, length }) => boot_files().contains(
                    Node::File { offset, length },
                ) && offset + length <= 414,
            }
        }),
        forall|base: int|
            16 <= base < 208 && (base - 16) % 32 == 0 ==> #[trigger] entry_end(
                boot_image_spec(),
                base,
            ) <= 414,
        secret_text().spec_bytes() == boot_image_spec().subrange(414, 439),
{
    lemma_boot_lens();
    lemma_boot_split();
    lemma_boot_layout();
    let s = boot_image_spec();
    lemma_walk_reachable(root_node(4), p, 0);
    if let Ok(Node::File { offset, length }) = resolve_walk(s, root_node(4), p, 0) {
        let q = choose|q: int| 0 <= q < 5 && boot_files()[q] == Node::File { offset, length };
        assert(0 <= q < 5 && boot_files()[q] == Node::File { offset, length });
    }
    assert forall|base: int| 16 <= base < 208 && (base - 16) % 32 == 0 implies #[trigger] entry_end(
        s,
        base,
    ) <= 414 by {
        assert(base == 16 || base == 48 || base == 80 || base == 112 || base == 144 || base == 176);
    }
}

/// The names of the boot image's entries, by length and, for `docs`, by its
/// first character.
proof fn lemma_boot_names()
    ensures
        ({
            let s = boot_image_spec();
            &&& entry_name_spec(s, 16).len() == 8
            &&& entry_name_spec(s, 48).len() == 6
            &&& entry_name_spec(s, 80).len() == 9
            &&& entry_name_spec(s, 112).len() == 4 && entry_name_spec(s, 112)[0] == 'd'
            &&& entry_name_spec(s, 144).len() == 14
            &&& entry_name_spec(s, 176).len() == 9
        }),
{
    lemma_boot_layout();
    reveal_strlit("motd.txt");
    reveal_strlit("readme");
    reveal_strlit("ziran.txt");
    reveal_strlit("docs");
    reveal_strlit("filesystem.txt");
    reveal_strlit("shell.txt");
}

/// A walk whose step from `node` over `p[pos..k)` fails ends in that error.
proof fn lemma_walk_fail(s: Seq<u8>, node: Node, p: Seq<char>, pos: int, k: int, e: FsError)
    requires
        0 <= pos <= k <= p.len(),
        forall|j: int| pos <= j < k ==> p[j] != '/',
        k == p.len() || p[k] == '/',
        walk_step(s, node, p.subrange(pos, k)) == Err::<Node, FsError>(e),
    ensures
        resolve_walk(s, node, p, pos) == Err::<Node, FsError>(e),
{
    lemma_find_slash_at(p, pos, k);
}

/// A one-component path whose name matches no entry of the root names
/// nothing.
#[verifier::rlimit(80)]
#[verifier::spinoff_prover]
proof fn lemma_boot_miss_root(p: Seq<char>)
    requires
        p.len() == 5,
        p[0] == '/',
        forall|j: int| 1 <= j < 5 ==> p[j] != '/',
        p[1] != 'd',
    ensures
        resolve_walk(boot_image_spec(), root_node(4), p, 0) == Err::<Node, FsError>(
            FsError::NotFound,
        ),
{
    lemma_boot_names();
    let s = boot_image_spec();
    let root = root_node(4);
    let c = p.subrange(1, 5);
    assert(entry_name_spec(s, 112)[0] != c[0]);
    assert(find_child_spec(s, 16, 4, 4, c) is None);
    assert(find_child_spec(s, 16, 4, 3, c) is None);
    assert(find_child_spec(s, 16, 4, 2, c) is None);
    assert(find_child_spec(s, 16, 4, 1, c) is None);
    assert(find_child_spec(s, 16, 4, 0, c) is None);
    lemma_walk_step(s, root, p, 0, 0, root);
    lemma_walk_fail(s, root, p, 1, 5, FsError::NotFound);
}

/// `/docs/FLAG` names nothing.
#[verifier::rlimit(80)]
#[verifier::spinoff_prover]
proof fn lemma_boot_miss_docs()
    ensures
        resolve_walk(boot_image_spec(), root_node(4), "/docs/FLAG"@, 0) == Err::<Node, FsError>(
            FsError::NotFound,
        ),
{
    lemma_boot_names();
    let s = boot_image_spec();
    reveal_strlit("/docs/FLAG");
    reveal_strlit("/docs/");
    let p = "/docs/FLAG"@;
    assert(p.subrange(0, 6) =~= "/docs/"@);
    lemma_boot_walk_into_docs(p);
    let c = p.subrange(6, 10);
    assert(find_child_spec(s, 144, 2, 2, c) is None);
    assert(find_child_spec(s, 144, 2, 1, c) is None);
    assert(find_child_spec(s, 144, 2, 0, c) is None);
    lemma_walk_fail(s, docs_node(), p, 6, 10, FsError::NotFound);
}

/// Paths that name nothing in the boot image: `/nope`, and the secret under
/// the names one might guess for it.
proof fn lemma_boot_misses()
    ensures
        ({
            let s = boot_image_spec();
            let root = root_node(4);
            &&& resolve_walk(s, root, "/nope"@, 0) == Err::<Node, FsError>(FsError::NotFound)
            &&& resolve_walk(s, root, "/FLAG"@, 0) == Err::<Node, FsError>(FsError::NotFound)
            &&& resolve_walk(s, root, "/docs/FLAG"@, 0) == Err::<Node, FsError>(FsError::NotFound)
        }),
{
    reveal_strlit("/nope");
    reveal_strlit("/FLAG");
    lemma_boot_miss_root("/nope"@);
    lemma_boot_miss_root("/FLAG"@);
    lemma_boot_miss_docs();
}

/// Whether some entry of `list` has the name `name`, the length `length` and
/// the kind `is_dir`.
pub open spec fn lists(list: Seq<DirEntry>, name: Seq<char>, length: usize, is_dir: bool) -> bool {
    exists|i: int|
        0 <= i < list.len() && (#[trigger] list[i]).name@ == name && list[i].length == length
            && list[i].is_dir == is_dir
}

/// Look for an entry with the given name, length and kind in a listing.
fn find_listed(list: &Vec<DirEntry>, name: &str, length: usize, is_dir: bool) -> (r: bool)
    ensures
        r == lists(list@, name@, length, is_dir),
{
    let wanted = String::from_str(name);
    let mut i: usize = 0;
    while i < list.len()
        invariant
            i <= list@.len(),
            wanted@ == name@,
            forall|j: int|
                0 <= j < i ==> !((#[trigger] list@[j]).name@ == name@ && list@[j].length == length
                    && list@[j].is_dir == is_dir),
        decreases list@.len() - i,
    {
        let e = &list[i];
        if e.name == wanted && e.length == length && e.is_dir == is_dir {
            return true;
        }
        i = i + 1;
    }
    false
}

/// Copy a byte slice into a vector of its own.
fn to_vec(b: &[u8]) -> (v: Vec<u8>)
    ensures
        v@ == b@,
{
    let mut v: Vec<u8> = Vec::new();
    push_bytes(&mut v, b);
    v
}

/// Overwrite the four bytes at `at` with the little-endian bytes of `v`.
fn patch_le32(img: &mut Vec<u8>, at: usize, v: u32)
    requires
        at + 4 <= old(img)@.len(),
    ensures
        final(img)@.len() == old(img)@.len(),
        forall|i: int|
            0 <= i < old(img)@.len() && !(at <= i < at + 4) ==> #[trigger] final(img)@[i]
                == old(img)@[i],
        le_u32(final(img)@, at as int) == v,
{
    let n = img.len();
    assert(at + 4 <= n);
    img.set(at, (v % 256) as u8);
    img.set(at + 1, ((v / 256) % 256) as u8);
    img.set(at + 2, ((v / 65536) % 256) as u8);
    img.set(at + 3, (v / 16777216) as u8);
    proof {
        assert(img@.subrange(at as int, at + 4) =~= le32_bytes(v));
        lemma_le32_roundtrip(img@, at as int, v);
    }
}

/// An image of the boot image's length that keeps its superblock mounts or
/// fails exactly as its root table validates.
proof fn lemma_header_kept(s2: Seq<u8>)
    requires
        s2.len() == 439,
        forall|i: int| 0 <= i < 16 ==> #[trigger] s2[i] == boot_image_spec()[i],
    ensures
        mount_spec(s2) == (match validate_entries_spec(s2, 16, 4, 0, 144, 0) {
            Ok(_) => Ok::<int, FsError>(4),
            Err(e) => Err::<int, FsError>(e),
        }),
{
    lemma_boot_superblock();
    let s = boot_image_spec();
    assert(s2[0] == s[0] && s2[1] == s[1] && s2[2] == s[2] && s2[3] == s[3]);
    assert(s2[4] == s[4] && s2[5] == s[5] && s2[6] == s[6] && s2[7] == s[7]);
    assert(s2[8] == s[8] && s2[9] == s[9] && s2[10] == s[10] && s2[11] == s[11]);
}

/// The fields of the entry at `base` of `s` are those `entry_bytes` lays down.
proof fn lemma_entry_fields(s: Seq<u8>, base: int, nb: Seq<u8>, offset: u32, length: u32, kind: u32)
    requires
        0 <= base,
        base + 32 <= s.len(),
        s.subrange(base, base + 32) == entry_bytes(nb, offset, length, kind),
    ensures
        ent_off(s, base) == offset,
        ent_len(s, base) == length,
        ent_kind(s, base) == kind,
{
    let e = entry_bytes(nb, offset, length, kind);
    assert forall|k: int| 0 <= k < 32 implies s[base + k] == e[k] by {
        assert(s.subrange(base, base + 32)[k] == s[base + k]);
    }
    assert(e.subrange(20, 24) =~= le32_bytes(offset));
    assert(e.subrange(24, 28) =~= le32_bytes(length));
    assert(e.subrange(28, 32) =~= le32_bytes(kind));
    lemma_le32_roundtrip(e, 20, offset);
    lemma_le32_roundtrip(e, 24, length);
    lemma_le32_roundtrip(e, 28, kind);
}

/// A "diamond": two root directories `a` and `b` that share one table of two
/// one-byte files `x` and `y`.
pub open spec fn diamond_spec() -> Seq<u8> {
    superblock_bytes(2, 145) + entry_bytes("a".spec_bytes(), 80, 64, 1) + entry_bytes(
        "b".spec_bytes(),
        80,
        64,
        1,
    ) + entry_bytes("x".spec_bytes(), 144, 1, 0) + entry_bytes("y".spec_bytes(), 144, 1, 0) + seq![
        0u8,
    ]
}

/// Build the diamond image.
fn diamond_image() -> (img: Vec<u8>)
    ensures
        img@ == diamond_spec(),
{
    let mut img: Vec<u8> = Vec::new();
    img.push(0x5A);
    img.push(0x52);
    img.push(0x46);
    img.push(0x53);
    push_le16(&mut img, VERSION);
    push_le16(&mut img, 2);
    push_le32(&mut img, 145);
    push_le32(&mut img, 0);
    proof {
        assert(img@ =~= superblock_bytes(2, 145));
    }
    write_entry(&mut img, "a", 80, 64, KIND_DIR);
    write_entry(&mut img, "b", 80, 64, KIND_DIR);
    write_entry(&mut img, "x", 144, 1, KIND_FILE);
    write_entry(&mut img, "y", 144, 1, KIND_FILE);
    img.push(0);
    proof {
        assert(img@ =~= diamond_spec());
    }
    img
}

/// The diamond's superblock and entries read back as written.
#[verifier::rlimit(80)]
#[verifier::spinoff_prover]
proof fn lemma_diamond_layout()
    ensures
        ({
            let s = diamond_spec();
            &&& s.len() == 145
            &&& s[0] == 0x5A && s[1] == 0x52 && s[2] == 0x46 && s[3] == 0x53
            &&& le_u16(s, 4) == 2 && le_u16(s, 6) == 2 && le_u32(s, 8) == 145
            &&& ent_off(s, 16) == 80 && ent_len(s, 16) == 64 && ent_kind(s, 16) == 1
            &&& ent_off(s, 48) == 80 && ent_len(s, 48) == 64 && ent_kind(s, 48) == 1
            &&& ent_off(s, 80) == 144 && ent_len(s, 80) == 1 && ent_kind(s, 80) == 0
            &&& ent_off(s, 112) == 144 && ent_len(s, 112) == 1 && ent_kind(s, 112) == 0
        }),
{
    let s = diamond_spec();
    let sb = superblock_bytes(2, 145);
    let ea = entry_bytes("a".spec_bytes(), 80, 64, 1);
    let eb = entry_bytes("b".spec_bytes(), 80, 64, 1);
    let ex = entry_bytes("x".spec_bytes(), 144, 1, 0);
    let ey = entry_bytes("y".spec_bytes(), 144, 1, 0);
    assert(sb.len() == 16);
    assert(ea.len() == 32 && eb.len() == 32 && ex.len() == 32 && ey.len() == 32);
    let tail = seq![0u8];
    assert(tail.len() == 1);
    assert(s == sb + ea + eb + ex + ey + tail);
    assert(s.len() == 145);
    assert(s.subrange(0, 16) =~= sb);
    assert(s.subrange(16, 48) =~= ea);
    assert(s.subrange(48, 80) =~= eb);
    assert(s.subrange(80, 112) =~= ex);
    assert(s.subrange(112, 144) =~= ey);
    lemma_entry_fields(s, 16, "a".spec_bytes(), 80, 64, 1);
    lemma_entry_fields(s, 48, "b".spec_bytes(), 80, 64, 1);
    lemma_entry_fields(s, 80, "x".spec_bytes(), 144, 1, 0);
    lemma_entry_fields(s, 112, "y".spec_bytes(), 144, 1, 0);
    assert forall|k: int| 0 <= k < 16 implies s[k] == sb[k] by {
        assert(s.subrange(0, 16)[k] == s[k]);
    }
    assert(sb.subrange(8, 12) =~= le32_bytes(145));
    lemma_le32_roundtrip(sb, 8, 145);
}

/// The diamond is refused: its shared table is validated once, under `a`, and
/// `b`'s second pointer to it fails with `DirNotForward`.
#[verifier::rlimit(80)]
#[verifier::spinoff_prover]
proof fn lemma_diamond_mount()
    ensures
        mount_spec(diamond_spec()) == Err::<int, FsError>(FsError::DirNotForward),
{
    lemma_diamond_layout();
    let s = diamond_spec();
    assert(validate_entries_spec(s, 80, 2, 2, 144, 1) == Ok::<int, FsError>(144));
    assert(validate_entries_spec(s, 80, 2, 1, 144, 1) == Ok::<int, FsError>(144));
    assert(validate_entries_spec(s, 80, 2, 0, 144, 1) == Ok::<int, FsError>(144));
    assert(validate_dir_spec(s, 80, 64, 80, 1) == Ok::<int, FsError>(144));
    assert(validate_dir_spec(s, 80, 64, 144, 1) == Err::<int, FsError>(FsError::DirNotForward));
    assert(validate_entries_spec(s, 16, 2, 1, 144, 0) == Err::<int, FsError>(
        FsError::DirNotForward,
    ));
    assert(validate_entries_spec(s, 16, 2, 0, 80, 0) == Err::<int, FsError>(
        FsError::DirNotForward,
    ));
    assert(validate_dir_spec(s, 16, 64, 16, 0) == Err::<int, FsError>(FsError::DirNotForward));
}

/// Entry `k` of a chain of directories one level deeper than `MAX_DEPTH + 1`:
/// each of the first 33 a directory whose one-entry table is the next entry,
/// the last a one-byte file.
pub open spec fn chain_entry(k: int) -> Seq<u8> {
    if k < 33 {
        entry_bytes("d".spec_bytes(), (16 + 32 * (k + 1)) as u32, 32, 1)
    } else {
        entry_bytes("d".spec_bytes(), 1104, 1, 0)
    }
}

/// The first `n` entries of the chain.
pub open spec fn chain(n: nat) -> Seq<u8>
    decreases n,
{
    if n == 0 {
        Seq::empty()
    } else {
        chain((n - 1) as nat) + chain_entry(n - 1)
    }
}

/// The deep-chain image: one root entry, then the chain, then a byte.
pub open spec fn deep_spec() -> Seq<u8> {
    superblock_bytes(1, 1105) + chain(34) + seq![0u8]
}

proof fn lemma_chain(n: nat, j: int)
    requires
        0 <= j < n,
    ensures
        chain(n).len() == 32 * n,
        chain(n).subrange(32 * j, 32 * j + 32) == chain_entry(j),
    decreases n,
{
    let prev = chain((n - 1) as nat);
    if j < n - 1 {
        lemma_chain((n - 1) as nat, j);
        assert(chain(n).subrange(32 * j, 32 * j + 32) =~= prev.subrange(32 * j, 32 * j + 32));
    } else {
        if n > 1 {
            lemma_chain((n - 1) as nat, 0);
        }
        assert(prev.len() == 32 * (n - 1));
        assert(chain(n).subrange(32 * j, 32 * j + 32) =~= chain_entry(j));
    }
}

/// Build the deep-chain image.
fn deep_image() -> (img: Vec<u8>)
    ensures
        img@ == deep_spec(),
{
    let mut img: Vec<u8> = Vec::new();
    img.push(0x5A);
    img.push(0x52);
    img.push(0x46);
    img.push(0x53);
    push_le16(&mut img, VERSION);
    push_le16(&mut img, 1);
    push_le32(&mut img, 1105);
    push_le32(&mut img, 0);
    proof {
        assert(img@ =~= superblock_bytes(1, 1105));
    }
    let levels: usize = MAX_DEPTH + 2;
    let mut k: usize = 0;
    while k < levels
        invariant
            levels == 34,
            k <= levels,
            img@ == superblock_bytes(1, 1105) + chain(k as nat),
        decreases levels - k,
    {
        if k == levels - 1 {
            write_entry(&mut img, "d", 1104, 1, KIND_FILE);
        } else {
            let next = SUPERBLOCK_LEN + (k + 1) * DIRENT_LEN;
            write_entry(&mut img, "d", next as u32, DIRENT_LEN as u32, KIND_DIR);
        }
        proof {
            assert(img@ =~= superblock_bytes(1, 1105) + chain((k + 1) as nat));
        }
        k = k + 1;
    }
    img.push(0);
    proof {
        assert(img@ =~= deep_spec());
    }
    img
}

/// Every level of the chain from `k` on fails: the nesting passes `MAX_DEPTH`.
#[verifier::rlimit(80)]
proof fn lemma_deep_levels(k: int)
    requires
        0 <= k <= 33,
        forall|j: int|
            0 <= j < 34 ==> #[trigger] deep_spec().subrange(16 + 32 * j, 48 + 32 * j) == chain_entry(j),
        deep_spec().len() == 1105,
    ensures
        validate_dir_spec(deep_spec(), 16 + 32 * k, 32, 16 + 32 * k, k) == Err::<int, FsError>(
            FsError::TooDeep,
        ),
    decreases 33 - k,
{
    if k < 33 {
        let s = deep_spec();
        assert(s.subrange(16 + 32 * k, 48 + 32 * k) == chain_entry(k));
        lemma_entry_fields(s, 16 + 32 * k, "d".spec_bytes(), (16 + 32 * (k + 1)) as u32, 32, 1);
        lemma_deep_levels(k + 1);
        assert(validate_entries_spec(s, 16 + 32 * k, 1, 0, 48 + 32 * k, k) == Err::<int, FsError>(
            FsError::TooDeep,
        ));
    }
}

/// The deep chain is refused with `TooDeep` before it can exhaust the stack.
#[verifier::rlimit(80)]
#[verifier::spinoff_prover]
proof fn lemma_deep_mount()
    ensures
        mount_spec(deep_spec()) == Err::<int, FsError>(FsError::TooDeep),
{
    let s = deep_spec();
    let sb = superblock_bytes(1, 1105);
    let c = chain(34);
    lemma_chain(34, 0);
    assert(sb.len() == 16);
    assert(s.len() == 1105);
    assert forall|j: int| 0 <= j < 34 implies #[trigger] s.subrange(16 + 32 * j, 48 + 32 * j)
        == chain_entry(j) by {
        lemma_chain(34, j);
        assert(s.subrange(16 + 32 * j, 48 + 32 * j) =~= c.subrange(32 * j, 32 * j + 32));
    }
    assert forall|k: int| 0 <= k < 16 implies s[k] == sb[k] by {}
    assert(sb.subrange(8, 12) =~= le32_bytes(1105));
    lemma_le32_roundtrip(sb, 8, 1105);
    assert(le_u32(s, 8) == 1105);
    assert(le_u16(s, 4) == 2);
    assert(le_u16(s, 6) == 1);
    lemma_deep_levels(0);
}

/// What the filesystem self-test saw on the boot image.
pub struct SelfTestReport {
    /// How many entries `/` lists.
    pub root_entries: usize,
    /// Whether `/` lists `motd.txt`, a 13-byte file.
    pub motd_listed: bool,
    /// Whether `/` lists `docs`, a directory.
    pub docs_listed: bool,
    /// The bytes `/motd.txt` reads.
    pub motd: Vec<u8>,
    /// Whether `/docs` resolves to a directory.
    pub docs_is_dir: bool,
    /// How many entries `/docs` lists.
    pub docs_entries: usize,
    /// The bytes `/docs/filesystem.txt` reads.
    pub filesystem_doc: Vec<u8>,
    /// Reading the directory `/docs` as a file.
    pub read_dir: Option<FsError>,
    /// Resolving `/nope`, which names nothing.
    pub missing: Option<FsError>,
    /// Listing the file `/motd.txt` as a directory.
    pub list_file: Option<FsError>,
    /// Reading `/FLAG`.
    pub secret_in_root: Option<FsError>,
    /// Reading `/docs/FLAG`.
    pub secret_in_docs: Option<FsError>,
    /// Mounting the image with its magic broken.
    pub bad_magic: Option<FsError>,
    /// Mounting the image with an unknown version.
    pub bad_version: Option<FsError>,
    /// Mounting the image's first eight bytes.
    pub truncated: Option<FsError>,
    /// Mounting the image with a `total_size` one too large.
    pub bad_size: Option<FsError>,
    /// Mounting the image with the first entry's region past the end.
    pub out_of_bounds: Option<FsError>,
    /// Mounting the image with the first entry made a directory whose table
    /// is the root table itself.
    pub cycle: Option<FsError>,
    /// Mounting the image with the first entry made a directory of 33 bytes.
    pub bad_dir_length: Option<FsError>,
    /// Mounting the image with the first entry of kind 99.
    pub bad_kind: Option<FsError>,
    /// Mounting a chain of directories nested past `MAX_DEPTH`.
    pub too_deep: Option<FsError>,
    /// Mounting two directories that share one table.
    pub diamond: Option<FsError>,
}

/// Mount the boot image and read it back: the root lists `motd.txt` and
/// `docs/`, both files read back byte for byte, `/docs` is a directory of two
/// files, each misuse gets its specific error, and the secret is reachable by
/// no path. Then ten corrupt images, each refused with its specific error,
/// among them a directory cycle, a chain nested too deep and a diamond.
#[verifier::rlimit(80)]
#[verifier::spinoff_prover]
pub fn self_test() -> (r: SelfTestReport)
    ensures
        r.root_entries == 4,
        r.motd_listed,
        r.docs_listed,
        r.motd@ == motd_text().spec_bytes(),
        r.motd@ == boot_image_spec().subrange(208, 221),
        r.docs_is_dir,
        r.docs_entries == 2,
        r.filesystem_doc@ == filesystem_text().spec_bytes(),
        r.filesystem_doc@ == boot_image_spec().subrange(323, 367),
        r.read_dir == Some(FsError::IsADirectory),
        r.missing == Some(FsError::NotFound),
        r.list_file == Some(FsError::NotADirectory),
        r.secret_in_root == Some(FsError::NotFound),
        r.secret_in_docs == Some(FsError::NotFound),
        r.bad_magic == Some(FsError::BadMagic),
        r.bad_version == Some(FsError::UnsupportedVersion),
        r.truncated == Some(FsError::Truncated),
        r.bad_size == Some(FsError::SizeMismatch),
        r.out_of_bounds == Some(FsError::EntryOutOfBounds),
        r.cycle == Some(FsError::DirNotForward),
        r.bad_dir_length == Some(FsError::BadDirLength),
        r.bad_kind == Some(FsError::BadKind),
        r.too_deep == Some(FsError::TooDeep),
        r.diamond == Some(FsError::DirNotForward),
{
    let image = boot_image();
    proof {
        law_boot_image_round_trip();
        lemma_boot_misses();
        lemma_boot_layout();
        lemma_boot_lens();
        reveal_strlit("motd.txt");
        reveal_strlit("docs");
    }
    let ghost s = boot_image_spec();
    let fs = match Fs::mount(image.as_slice()) {
        Ok(fs) => fs,
        Err(_) => {
            proof {
                assert(false);
            }
            return SelfTestReport {
                root_entries: 0,
                motd_listed: false,
                docs_listed: false,
                motd: Vec::new(),
                docs_is_dir: false,
                docs_entries: 0,
                filesystem_doc: Vec::new(),
                read_dir: None,
                missing: None,
                list_file: None,
                secret_in_root: None,
                secret_in_docs: None,
                bad_magic: None,
                bad_version: None,
                truncated: None,
                bad_size: None,
                out_of_bounds: None,
                cycle: None,
                bad_dir_length: None,
                bad_kind: None,
                too_deep: None,
                diamond: None,
            };
        },
    };
    assert(fs.bytes() == s && fs.root_count() == 4);
    let root = fs.list_dir("/");
    let (root_entries, motd_listed, docs_listed) = match &root {
        Ok(v) => {
            let m = find_listed(v, "motd.txt", 13, false);
            let d = find_listed(v, "docs", 64, true);
            proof {
                assert(renders(v@[0], s, 16));
                assert(renders(v@[3], s, 112));
                assert(lists(v@, "motd.txt"@, 13, false));
                assert(lists(v@, "docs"@, 64, true));
            }
            (v.len(), m, d)
        },
        Err(_) => (0, false, false),
    };
    let motd = match fs.read_path("/motd.txt") {
        Ok(b) => to_vec(b),
        Err(_) => Vec::new(),
    };
    let docs_is_dir = match fs.resolve("/docs") {
        Ok(Node::Dir { .. }) => true,
        _ => false,
    };
    let docs_entries = match fs.list_dir("/docs") {
        Ok(v) => v.len(),
        Err(_) => 0,
    };
    let filesystem_doc = match fs.read_path("/docs/filesystem.txt") {
        Ok(b) => to_vec(b),
        Err(_) => Vec::new(),
    };
    let read_dir = fs.read_path("/docs").err();
    let missing = fs.resolve("/nope").err();
    let list_file = fs.list_dir("/motd.txt").err();
    let secret_in_root = fs.read_path("/FLAG").err();
    let secret_in_docs = fs.read_path("/docs/FLAG").err();
    let (bad_magic, bad_version, truncated, bad_size) = corrupt_headers(&image);
    let (out_of_bounds, cycle, bad_dir_length, bad_kind) = corrupt_entries(&image);
    let deep = deep_image();
    let diamond_img = diamond_image();
    proof {
        lemma_deep_mount();
        lemma_diamond_mount();
    }
    let too_deep = Fs::mount(deep.as_slice()).err();
    let diamond = Fs::mount(diamond_img.as_slice()).err();
    SelfTestReport {
        root_entries,
        motd_listed,
        docs_listed,
        motd,
        docs_is_dir,
        docs_entries,
        filesystem_doc,
        read_dir,
        missing,
        list_file,
        secret_in_root,
        secret_in_docs,
        bad_magic,
        bad_version,
        truncated,
        bad_size,
        out_of_bounds,
        cycle,
        bad_dir_length,
        bad_kind,
        too_deep,
        diamond,
    }
}

/// Mount the boot image with its superblock broken four ways: the magic, the
/// version, the length, the `total_size` field.
fn corrupt_headers(image: &Vec<u8>) -> (r: (
    Option<FsError>,
    Option<FsError>,
    Option<FsError>,
    Option<FsError>,
))
    requires
        image@ == boot_image_spec(),
    ensures
        r.0 == Some(FsError::BadMagic),
        r.1 == Some(FsError::UnsupportedVersion),
        r.2 == Some(FsError::Truncated),
        r.3 == Some(FsError::SizeMismatch),
{
    proof {
        lemma_boot_superblock();
        lemma_boot_split();
        assert(image@[8] == image@.subrange(0, 16)[8]);
        assert(image@[5] == image@.subrange(0, 16)[5]);
    }
    let mut bad_magic = to_vec(image.as_slice());
    bad_magic.set(0, 0x58);
    let mut bad_version = to_vec(image.as_slice());
    bad_version.set(4, 99);
    let short = slice_subrange(image.as_slice(), 0, 8);
    let mut bad_size = to_vec(image.as_slice());
    let b8 = bad_size[8];
    bad_size.set(8, b8.wrapping_add(1));
    (
        Fs::mount(bad_magic.as_slice()).err(),
        Fs::mount(bad_version.as_slice()).err(),
        Fs::mount(short).err(),
        Fs::mount(bad_size.as_slice()).err(),
    )
}

/// Mount the boot image with its first root entry broken four ways: its
/// region past the end, a directory whose table is the root table again, a
/// directory of 33 bytes, a kind of 99.
#[verifier::rlimit(80)]
#[verifier::spinoff_prover]
fn corrupt_entries(image: &Vec<u8>) -> (r: (
    Option<FsError>,
    Option<FsError>,
    Option<FsError>,
    Option<FsError>,
))
    requires
        image@ == boot_image_spec(),
    ensures
        r.0 == Some(FsError::EntryOutOfBounds),
        r.1 == Some(FsError::DirNotForward),
        r.2 == Some(FsError::BadDirLength),
        r.3 == Some(FsError::BadKind),
{
    proof {
        lemma_boot_superblock();
        lemma_boot_layout();
        lemma_boot_lens();
    }
    let kind0 = SUPERBLOCK_LEN + ENT_KIND;
    let off0 = SUPERBLOCK_LEN + ENT_OFFSET;
    let len0 = SUPERBLOCK_LEN + ENT_LENGTH;
    let mut oob = to_vec(image.as_slice());
    patch_le32(&mut oob, off0, 0xFFFF_FFFF);
    proof {
        lemma_header_kept(oob@);
        assert(ent_len(oob@, 16) == 13);
        assert(validate_entries_spec(oob@, 16, 4, 0, 144, 0) == Err::<int, FsError>(
            FsError::EntryOutOfBounds,
        ));
    }
    let mut cycle = to_vec(image.as_slice());
    patch_le32(&mut cycle, kind0, KIND_DIR);
    patch_le32(&mut cycle, off0, SUPERBLOCK_LEN as u32);
    patch_le32(&mut cycle, len0, DIRENT_LEN as u32);
    proof {
        lemma_header_kept(cycle@);
        assert(validate_dir_spec(cycle@, 16, 32, 144, 1) == Err::<int, FsError>(
            FsError::DirNotForward,
        ));
        assert(validate_entries_spec(cycle@, 16, 4, 0, 144, 0) == Err::<int, FsError>(
            FsError::DirNotForward,
        ));
    }
    let mut bad_len = to_vec(image.as_slice());
    patch_le32(&mut bad_len, kind0, KIND_DIR);
    patch_le32(&mut bad_len, off0, 144);
    patch_le32(&mut bad_len, len0, 33);
    proof {
        lemma_header_kept(bad_len@);
        assert(validate_dir_spec(bad_len@, 144, 33, 144, 1) == Err::<int, FsError>(
            FsError::BadDirLength,
        ));
        assert(validate_entries_spec(bad_len@, 16, 4, 0, 144, 0) == Err::<int, FsError>(
            FsError::BadDirLength,
        ));
    }
    let mut bad_kind = to_vec(image.as_slice());
    patch_le32(&mut bad_kind, kind0, 99);
    proof {
        lemma_header_kept(bad_kind@);
        assert(ent_off(bad_kind@, 16) == 208);
        assert(ent_len(bad_kind@, 16) == 13);
        assert(validate_entries_spec(bad_kind@, 16, 4, 0, 144, 0) == Err::<int, FsError>(
            FsError::BadKind,
        ));
    }
    (
        Fs::mount(oob.as_slice()).err(),
        Fs::mount(cycle.as_slice()).err(),
        Fs::mount(bad_len.as_slice()).err(),
        Fs::mount(bad_kind.as_slice()).err(),
    )
}

} // verus!
