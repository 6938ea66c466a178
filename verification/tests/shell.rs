use ziran::fs::{boot_image, Fs};
use ziran::shell::{canonicalize, cmd_cat, cmd_cd, cmd_ls, normalize_input, parse, CatOutcome, CdOutcome, Command, Edit, Line, LINE_MAX};

#[test]
fn line_editing_builds_hat() {
    let mut line = Line::new();
    assert_eq!(line.edit(b'h'), Edit::Echo(b'h'));
    assert_eq!(line.edit(b'i'), Edit::Echo(b'i'));
    assert_eq!(line.edit(0x08), Edit::Erase);
    assert_eq!(line.edit(b'a'), Edit::Echo(b'a'));
    assert_eq!(line.edit(b't'), Edit::Echo(b't'));
    assert_eq!(line.as_str(), "hat");
}

#[test]
fn backspace_on_empty_line_is_ignored() {
    let mut empty = Line::new();
    assert_eq!(empty.edit(0x08), Edit::Ignored);
    assert_eq!(empty.len(), 0);
}

#[test]
fn enter_submits_and_clear_resets() {
    let mut line = Line::new();
    line.edit(b'x');
    assert_eq!(line.edit(b'\n'), Edit::Submit);
    line.clear();
    assert_eq!(line.len(), 0);
    assert_eq!(line.as_str(), "");
}

#[test]
fn full_line_ignores_more_input() {
    let mut line = Line::new();
    for _ in 0..LINE_MAX {
        assert_eq!(line.edit(b'a'), Edit::Echo(b'a'));
    }
    assert_eq!(line.edit(b'b'), Edit::Ignored);
    assert_eq!(line.len(), LINE_MAX);
}

#[test]
fn control_bytes_are_ignored() {
    let mut line = Line::new();
    assert_eq!(line.edit(0x01), Edit::Ignored);
    assert_eq!(line.edit(0x7f), Edit::Ignored);
    assert_eq!(line.len(), 0);
}

#[test]
fn terminal_input_is_normalized() {
    assert_eq!(normalize_input(b'\r'), b'\n');
    assert_eq!(normalize_input(0x7f), 0x08);
    assert_eq!(normalize_input(b'q'), b'q');
}

#[test]
fn parse_classifies_verbs() {
    assert_eq!(parse(""), Command::Empty);
    assert_eq!(parse("   "), Command::Empty);
    assert_eq!(parse("help"), Command::Help);
    assert_eq!(parse("clear"), Command::Clear);
    assert_eq!(parse("mem"), Command::Mem);
    assert_eq!(parse("ps"), Command::Ps);
    assert_eq!(parse("pwd"), Command::Pwd);
    assert_eq!(parse("cd"), Command::Cd(""));
    assert_eq!(parse("cd /docs"), Command::Cd("/docs"));
    assert_eq!(parse("cd .."), Command::Cd(".."));
    assert_eq!(parse("ls"), Command::Ls(""));
    assert_eq!(parse("ls /docs"), Command::Ls("/docs"));
    assert_eq!(parse("cat docs/x"), Command::Cat("docs/x"));
    assert_eq!(parse("cat"), Command::Cat(""));
    assert_eq!(parse("cat a b"), Command::Cat("a"));
}

#[test]
fn parse_keeps_echo_tail_and_reports_unknown() {
    assert_eq!(parse("echo hello  world"), Command::Echo("hello  world"));
    assert_eq!(parse("echo"), Command::Echo(""));
    assert_eq!(parse("  echo  x  "), Command::Echo("x"));
    assert_eq!(parse("bogus xyz"), Command::Unknown("bogus"));
}

#[test]
fn canonicalize_cases() {
    assert_eq!(canonicalize("/docs", ".."), "/");
    assert_eq!(canonicalize("/", ".."), "/");
    assert_eq!(canonicalize("/", "docs"), "/docs");
    assert_eq!(canonicalize("/a/b", "../c"), "/a/c");
    assert_eq!(canonicalize("/a/b", "/x/y"), "/x/y");
    assert_eq!(canonicalize("/docs", "."), "/docs");
    assert_eq!(canonicalize("/docs", "x/"), "/docs/x");
    assert_eq!(canonicalize("/a", "../../b"), "/b");
    assert_eq!(canonicalize("/docs", ""), "/docs");
    assert_eq!(canonicalize("/", "//x//"), "/x");
}

#[test]
fn canonical_form_on_odd_inputs() {
    for (cwd, arg) in [("/", "./././"), ("/a/b/c", "../../.."), ("/q", "..//r/./s/"), ("/", "")] {
        let out = canonicalize(cwd, arg);
        assert!(out.starts_with('/'));
        assert!(out == "/" || !out.ends_with('/'));
        assert!(!out.split('/').any(|p| p == "." || p == ".."));
        assert!(!out.contains("//"));
    }
    assert_eq!(canonicalize("/q", "..//r/./s/"), "/r/s");
}

#[test]
fn cd_ls_cat_against_boot_image() {
    let image = boot_image();
    let fs = Fs::mount(&image).unwrap();
    let mut cwd = String::from("/");
    assert_eq!(cmd_cd(&mut cwd, "docs", &fs), CdOutcome::Changed);
    assert_eq!(cwd, "/docs");
    assert_eq!(cmd_cd(&mut cwd, "/motd.txt", &fs), CdOutcome::NotADirectory(String::from("/motd.txt")));
    assert_eq!(cwd, "/docs");
    assert_eq!(cmd_cd(&mut cwd, "nope", &fs), CdOutcome::NoSuchDirectory(String::from("/docs/nope")));
    let (target, entries) = cmd_ls(&cwd, "", &fs).unwrap();
    assert_eq!(target, "/docs");
    assert_eq!(entries.len(), 2);
    assert_eq!(cmd_ls(&cwd, "/nope", &fs).err(), Some(String::from("/nope")));
    assert_eq!(
        cmd_cat(&cwd, "filesystem.txt", &fs),
        CatOutcome::Contents(&b"A file is a lie a header tells about bytes.\n"[..])
    );
    assert_eq!(cmd_cat(&cwd, "", &fs), CatOutcome::Usage);
    assert_eq!(cmd_cat("/", "docs", &fs), CatOutcome::IsADirectory(String::from("/docs")));
    assert_eq!(cmd_cat("/", "x", &fs), CatOutcome::NoSuchFile(String::from("/x")));
    assert_eq!(cmd_cd(&mut cwd, "", &fs), CdOutcome::Root);
    assert_eq!(cwd, "/");
}

#[test]
fn canonical_paths_are_fixed_points() {
    for (cwd, arg) in [("/docs", ".."), ("/a/b", "../c"), ("/", "x//y/./z/.."), ("/a", "../../b"), ("/docs", "x/")] {
        let r = canonicalize(cwd, arg);
        assert_eq!(canonicalize("/", &r), r);
    }
}

#[test]
fn absolute_argument_ignores_cwd() {
    assert_eq!(canonicalize("/a/b", "/x/../y"), canonicalize("/", "/x/../y"));
    assert_eq!(canonicalize("/deep/dir", "/"), "/");
}
