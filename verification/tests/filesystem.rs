use ziran::fs::{boot_image, self_test, Fs, FsError, Node, DIRENT_LEN, ENT_KIND, ENT_LENGTH, ENT_OFFSET, KIND_DIR, KIND_FILE, MAX_DEPTH, SUPERBLOCK_LEN};

fn put_u32(img: &mut Vec<u8>, at: usize, v: u32) {
    img[at..at + 4].copy_from_slice(&v.to_le_bytes());
}

fn push_entry(img: &mut Vec<u8>, name: &str, offset: u32, length: u32, kind: u32) {
    let mut field = [0u8; 20];
    field[..name.len()].copy_from_slice(name.as_bytes());
    img.extend_from_slice(&field);
    img.extend_from_slice(&offset.to_le_bytes());
    img.extend_from_slice(&length.to_le_bytes());
    img.extend_from_slice(&kind.to_le_bytes());
}

fn superblock(img: &mut Vec<u8>, root_count: u16, total: u32) {
    img.extend_from_slice(b"ZRFS");
    img.extend_from_slice(&2u16.to_le_bytes());
    img.extend_from_slice(&root_count.to_le_bytes());
    img.extend_from_slice(&total.to_le_bytes());
    img.extend_from_slice(&0u32.to_le_bytes());
}

#[test]
fn boot_image_mounts_and_lists_root() {
    let image = boot_image();
    let fs = Fs::mount(&image).expect("boot image mounts");
    let root = fs.list_dir("/").expect("root lists");
    assert!(root.iter().any(|e| e.name == "motd.txt" && e.length == 13 && !e.is_dir));
    assert!(root.iter().any(|e| e.name == "docs" && e.is_dir));
}

#[test]
fn reads_motd_bytes() {
    let image = boot_image();
    let fs = Fs::mount(&image).unwrap();
    assert_eq!(fs.read_path("/motd.txt").unwrap(), &b"Hello, Ziran!"[..]);
}

#[test]
fn navigates_into_docs() {
    let image = boot_image();
    let fs = Fs::mount(&image).unwrap();
    assert!(matches!(fs.resolve("/docs"), Ok(Node::Dir { .. })));
    let docs = fs.list_dir("/docs").unwrap();
    assert_eq!(docs.len(), 2);
    assert_eq!(
        fs.read_path("/docs/filesystem.txt").unwrap(),
        &b"A file is a lie a header tells about bytes.\n"[..]
    );
}

#[test]
fn resolution_errors_are_specific() {
    let image = boot_image();
    let fs = Fs::mount(&image).unwrap();
    assert_eq!(fs.read_path("/docs").err(), Some(FsError::IsADirectory));
    assert_eq!(fs.resolve("/nope").err(), Some(FsError::NotFound));
    assert_eq!(fs.list_dir("/motd.txt").err(), Some(FsError::NotADirectory));
}

#[test]
fn secret_is_unreachable() {
    let image = boot_image();
    let fs = Fs::mount(&image).unwrap();
    assert_eq!(fs.read_path("/FLAG").err(), Some(FsError::NotFound));
    assert!(fs.read_path("/docs/FLAG").is_err());
}

#[test]
fn rejects_bad_magic() {
    let mut img = boot_image();
    img[0] = b'X';
    assert_eq!(Fs::mount(&img).err(), Some(FsError::BadMagic));
}

#[test]
fn rejects_bad_version() {
    let mut img = boot_image();
    img[4] = 99;
    assert_eq!(Fs::mount(&img).err(), Some(FsError::UnsupportedVersion));
}

#[test]
fn rejects_truncated() {
    let img = boot_image();
    assert_eq!(Fs::mount(&img[..8]).err(), Some(FsError::Truncated));
}

#[test]
fn rejects_size_mismatch() {
    let mut img = boot_image();
    img[8] = img[8].wrapping_add(1);
    assert_eq!(Fs::mount(&img).err(), Some(FsError::SizeMismatch));
}

#[test]
fn rejects_entry_out_of_bounds() {
    let mut img = boot_image();
    put_u32(&mut img, SUPERBLOCK_LEN + ENT_OFFSET, 0xFFFF_FFFF);
    assert_eq!(Fs::mount(&img).err(), Some(FsError::EntryOutOfBounds));
}

#[test]
fn rejects_directory_cycle() {
    let mut img = boot_image();
    put_u32(&mut img, SUPERBLOCK_LEN + ENT_KIND, KIND_DIR);
    put_u32(&mut img, SUPERBLOCK_LEN + ENT_OFFSET, SUPERBLOCK_LEN as u32);
    put_u32(&mut img, SUPERBLOCK_LEN + ENT_LENGTH, DIRENT_LEN as u32);
    assert_eq!(Fs::mount(&img).err(), Some(FsError::DirNotForward));
}

#[test]
fn rejects_bad_dir_length() {
    let mut img = boot_image();
    let file_count = u16::from_le_bytes([img[6], img[7]]) as usize;
    let root_end = (SUPERBLOCK_LEN + file_count * DIRENT_LEN) as u32;
    put_u32(&mut img, SUPERBLOCK_LEN + ENT_KIND, KIND_DIR);
    put_u32(&mut img, SUPERBLOCK_LEN + ENT_OFFSET, root_end);
    put_u32(&mut img, SUPERBLOCK_LEN + ENT_LENGTH, 33);
    assert_eq!(Fs::mount(&img).err(), Some(FsError::BadDirLength));
}

#[test]
fn rejects_bad_kind() {
    let mut img = boot_image();
    put_u32(&mut img, SUPERBLOCK_LEN + ENT_KIND, 99);
    assert_eq!(Fs::mount(&img).err(), Some(FsError::BadKind));
}

#[test]
fn rejects_too_deep_chain() {
    let levels = MAX_DEPTH + 2;
    let total = SUPERBLOCK_LEN + levels * DIRENT_LEN + 1;
    let mut img = Vec::new();
    superblock(&mut img, 1, total as u32);
    for k in 0..levels {
        if k == levels - 1 {
            push_entry(&mut img, "d", (total - 1) as u32, 1, KIND_FILE);
        } else {
            let next = SUPERBLOCK_LEN + (k + 1) * DIRENT_LEN;
            push_entry(&mut img, "d", next as u32, DIRENT_LEN as u32, KIND_DIR);
        }
    }
    img.push(0);
    assert_eq!(Fs::mount(&img).err(), Some(FsError::TooDeep));
}

#[test]
fn rejects_diamond() {
    let child = SUPERBLOCK_LEN + 2 * DIRENT_LEN;
    let data = child + 2 * DIRENT_LEN;
    let total = data + 1;
    let mut img = Vec::new();
    superblock(&mut img, 2, total as u32);
    push_entry(&mut img, "a", child as u32, (2 * DIRENT_LEN) as u32, KIND_DIR);
    push_entry(&mut img, "b", child as u32, (2 * DIRENT_LEN) as u32, KIND_DIR);
    push_entry(&mut img, "x", data as u32, 1, KIND_FILE);
    push_entry(&mut img, "y", data as u32, 1, KIND_FILE);
    img.push(0);
    assert_eq!(Fs::mount(&img).err(), Some(FsError::DirNotForward));
}

#[test]
fn hand_built_tree_resolves() {
    // root: "a" (dir of one file "f"), "g" (a 2-byte file)
    let child = SUPERBLOCK_LEN + 2 * DIRENT_LEN;
    let data = child + DIRENT_LEN;
    let total = data + 5;
    let mut img = Vec::new();
    superblock(&mut img, 2, total as u32);
    push_entry(&mut img, "a", child as u32, DIRENT_LEN as u32, KIND_DIR);
    push_entry(&mut img, "g", (data + 3) as u32, 2, KIND_FILE);
    push_entry(&mut img, "f", data as u32, 3, KIND_FILE);
    img.extend_from_slice(b"abcxy");
    let fs = Fs::mount(&img).expect("mounts");
    assert_eq!(fs.read_path("/a/f").unwrap(), &b"abc"[..]);
    assert_eq!(fs.read_path("/g").unwrap(), &b"xy"[..]);
    assert_eq!(fs.read_path("a/f").unwrap(), &b"abc"[..]);
    assert_eq!(fs.resolve("/a/f/x").err(), Some(FsError::NotADirectory));
    assert_eq!(fs.resolve("/"), Ok(Node::Dir { offset: SUPERBLOCK_LEN, length: 2 * DIRENT_LEN }));
    let names: Vec<String> = fs.list_dir("/a").unwrap().into_iter().map(|e| e.name).collect();
    assert_eq!(names, vec!["f".to_string()]);
}

#[test]
fn non_utf8_names_are_shown_lossily() {
    let data = SUPERBLOCK_LEN + DIRENT_LEN;
    let total = data + 1;
    let mut img = Vec::new();
    superblock(&mut img, 1, total as u32);
    let mut field = [0u8; 20];
    field[0] = 0xFF;
    field[1] = b'a';
    img.extend_from_slice(&field);
    img.extend_from_slice(&(data as u32).to_le_bytes());
    img.extend_from_slice(&1u32.to_le_bytes());
    img.extend_from_slice(&KIND_FILE.to_le_bytes());
    img.push(b'z');
    let fs = Fs::mount(&img).unwrap();
    let entries = fs.list_dir("/").unwrap();
    assert_eq!(entries[0].name, "\u{FFFD}a");
    assert_eq!(entries[0].length, 1);
}

#[test]
fn self_test_reports_round_trip() {
    let r = self_test();
    assert_eq!(r.root_entries, 4);
    assert!(r.motd_listed);
    assert!(r.docs_listed);
    assert_eq!(r.motd, b"Hello, Ziran!".to_vec());
    assert!(r.docs_is_dir);
    assert_eq!(r.docs_entries, 2);
    assert_eq!(r.filesystem_doc, b"A file is a lie a header tells about bytes.\n".to_vec());
    assert_eq!(r.read_dir, Some(FsError::IsADirectory));
    assert_eq!(r.missing, Some(FsError::NotFound));
    assert_eq!(r.list_file, Some(FsError::NotADirectory));
    assert_eq!(r.secret_in_root, Some(FsError::NotFound));
    assert_eq!(r.secret_in_docs, Some(FsError::NotFound));
    assert_eq!(r.bad_magic, Some(FsError::BadMagic));
    assert_eq!(r.bad_version, Some(FsError::UnsupportedVersion));
    assert_eq!(r.truncated, Some(FsError::Truncated));
    assert_eq!(r.bad_size, Some(FsError::SizeMismatch));
    assert_eq!(r.out_of_bounds, Some(FsError::EntryOutOfBounds));
    assert_eq!(r.cycle, Some(FsError::DirNotForward));
    assert_eq!(r.bad_dir_length, Some(FsError::BadDirLength));
    assert_eq!(r.bad_kind, Some(FsError::BadKind));
    assert_eq!(r.too_deep, Some(FsError::TooDeep));
    assert_eq!(r.diamond, Some(FsError::DirNotForward));
}

#[test]
fn boot_image_files_read_back_at_their_extents() {
    let image = boot_image();
    assert_eq!(image.len(), 439);
    let fs = Fs::mount(&image).unwrap();
    assert_eq!(fs.resolve("/motd.txt"), Ok(Node::File { offset: 208, length: 13 }));
    assert_eq!(fs.resolve("/readme"), Ok(Node::File { offset: 221, length: 42 }));
    assert_eq!(fs.resolve("/ziran.txt"), Ok(Node::File { offset: 263, length: 60 }));
    assert_eq!(fs.resolve("/docs"), Ok(Node::Dir { offset: 144, length: 64 }));
    assert_eq!(fs.resolve("/docs/filesystem.txt"), Ok(Node::File { offset: 323, length: 44 }));
    assert_eq!(fs.resolve("/docs/shell.txt"), Ok(Node::File { offset: 367, length: 47 }));
    assert_eq!(&image[414..439], &b"FLAG{ziran-boundary-leak}"[..]);
    assert_eq!(fs.read_path("/docs/shell.txt").unwrap(), &b"cd, pwd, ls, cat -- navigation over ZranFS v2.\n"[..]);
    for e in fs.list_dir("/").unwrap().iter().chain(fs.list_dir("/docs").unwrap().iter()) {
        assert!(e.offset + e.length <= 414);
    }
}

#[test]
fn rejects_second_pointer_to_empty_table() {
    // Root: two directory entries naming the same empty table at 80.
    let table = SUPERBLOCK_LEN + 2 * DIRENT_LEN;
    let total = table;
    let mut img = Vec::new();
    superblock(&mut img, 2, total as u32);
    push_entry(&mut img, "a", table as u32, 0, KIND_DIR);
    push_entry(&mut img, "b", table as u32, 0, KIND_DIR);
    assert_eq!(Fs::mount(&img).err(), Some(FsError::DirNotForward));
}

#[test]
fn one_pointer_to_empty_table_mounts() {
    let table = SUPERBLOCK_LEN + DIRENT_LEN;
    let total = table;
    let mut img = Vec::new();
    superblock(&mut img, 1, total as u32);
    push_entry(&mut img, "a", table as u32, 0, KIND_DIR);
    let fs = Fs::mount(&img).expect("mounts");
    assert_eq!(fs.list_dir("/a").unwrap().len(), 0);
}
