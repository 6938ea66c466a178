//! The shell's pure logic: the line editor, the command parser, and the path
//! normalizer. Reading keystrokes, printing, and the filesystem calls behind
//! each command are the caller's; everything here is a function of its inputs.
use vstd::prelude::*;
use crate::fs::{find_slash, lemma_find_slash, lemma_find_slash_at, lemma_resolve_errors, resolve_walk, root_node, DirEntry, Fs, FsError, Node, renders};
use vstd::string::*;
use vstd::utf8::{valid_utf8, decode_utf8, encode_utf8, is_ascii_chars, is_ascii_chars_encode_utf8};

verus! {

/// Maximum length of one input line.
pub const LINE_MAX: usize = 128;

/// A printable ASCII byte: the only bytes the line editor stores.
pub open spec fn printable(b: u8) -> bool {
    0x20 <= b <= 0x7e
}

/// The characters of a string of ASCII bytes.
pub open spec fn ascii_chars(b: Seq<u8>) -> Seq<char> {
    b.map_values(|x: u8| x as char)
}

/// `core::str::from_utf8` (std). The contract claims what std documents: the
/// slice viewed as a `&str` when it is well-formed UTF-8, and an error
/// otherwise.
#[verifier::external_body]
fn str_from_utf8(b: &[u8]) -> (out: Option<&str>)
    ensures
        valid_utf8(b@) ==> out is Some && out->0@ == decode_utf8(b@),
        !valid_utf8(b@) ==> out is None,
{
    core::str::from_utf8(b).ok()
}

proof fn lemma_ascii_decode(b: Seq<u8>)
    requires
        forall|i: int| 0 <= i < b.len() ==> printable(#[trigger] b[i]),
    ensures
        valid_utf8(b),
        decode_utf8(b) == ascii_chars(b),
{
    let c = ascii_chars(b);
    assert(is_ascii_chars(c));
    is_ascii_chars_encode_utf8(c);
    assert(encode_utf8(c) =~= b);
    vstd::utf8::encode_utf8_valid_utf8(c);
    vstd::utf8::encode_utf8_decode_utf8(c);
}

/// Map a terminal's conventions onto the line editor's: a serial Enter is a
/// carriage return and a terminal's Backspace is DEL; they become a line feed
/// and a backspace.
pub fn normalize_input(raw: u8) -> (b: u8)
    ensures
        b == if raw == 13 {
            10
        } else if raw == 0x7f {
            8
        } else {
            raw
        },
{
    if raw == 13 {
        10
    } else if raw == 0x7f {
        8
    } else {
        raw
    }
}

/// What a byte did to the line.
#[derive(Clone, Copy, PartialEq, Eq, Structural, Debug)]
pub enum Edit {
    /// A printable byte was appended; echo it.
    Echo(u8),
    /// A character was erased; echo a backspace.
    Erase,
    /// Enter was pressed; the line is complete.
    Submit,
    /// Nothing happened: buffer full, backspace on an empty line, or a stray
    /// control byte.
    Ignored,
}

/// The shell's editable input line: a fixed byte buffer, all printable ASCII.
pub struct Line {
    buf: [u8; 128],
    len: usize,
}

impl View for Line {
    type V = Seq<u8>;

    closed spec fn view(&self) -> Seq<u8> {
        self.buf@.take(self.len as int)
    }
}

impl Line {
    /// The buffer holds the line and every stored byte is printable ASCII.
    pub closed spec fn wf(&self) -> bool {
        &&& self.len <= LINE_MAX
        &&& self.buf@.len() == LINE_MAX
        &&& forall|i: int| 0 <= i < self.len ==> printable(#[trigger] self.buf@[i])
    }

    /// A well-formed line holds at most `LINE_MAX` bytes, each printable ASCII.
    pub proof fn lemma_wf_bounds(&self)
        requires
            self.wf(),
        ensures
            self@.len() <= LINE_MAX,
            forall|i: int| 0 <= i < self@.len() ==> printable(#[trigger] self@[i]),
    {
    }

    /// An empty line.
    pub fn new() -> (l: Line)
        ensures
            l.wf(),
            l@ == Seq::<u8>::empty(),
    {
        let l = Line { buf: [0u8; 128], len: 0 };
        proof {
            assert(l@ =~= Seq::<u8>::empty());
        }
        l
    }

    /// The number of bytes on the line.
    pub fn len(&self) -> (n: usize)
        requires
            self.wf(),
        ensures
            n == self@.len(),
    {
        self.len
    }

    /// Fold one input byte into the line and report what happened: Enter
    /// submits, backspace erases the last byte if there is one, a printable
    /// byte is appended while there is room, and anything else is ignored.
    pub fn edit(&mut self, byte: u8) -> (e: Edit)
        requires
            old(self).wf(),
        ensures
            final(self).wf(),
            byte == 0x0a ==> e == Edit::Submit && final(self)@ == old(self)@,
            byte == 0x08 ==> if old(self)@.len() > 0 {
                e == Edit::Erase && final(self)@ == old(self)@.drop_last()
            } else {
                e == Edit::Ignored && final(self)@ == old(self)@
            },
            printable(byte) ==> if old(self)@.len() < LINE_MAX {
                e == Edit::Echo(byte) && final(self)@ == old(self)@.push(byte)
            } else {
                e == Edit::Ignored && final(self)@ == old(self)@
            },
            byte != 0x0a && byte != 0x08 && !printable(byte) ==> e == Edit::Ignored && final(self)@ == old(self)@,
    {
        if byte == 0x0a {
            Edit::Submit
        } else if byte == 0x08 {
            if self.len > 0 {
                self.len = self.len - 1;
                proof {
                    assert(self@ =~= old(self)@.drop_last());
                }
                Edit::Erase
            } else {
                Edit::Ignored
            }
        } else if 0x20 <= byte && byte <= 0x7e {
            if self.len < LINE_MAX {
                self.buf[self.len] = byte;
                self.len = self.len + 1;
                proof {
                    assert(self@ =~= old(self)@.push(byte));
                }
                Edit::Echo(byte)
            } else {
                Edit::Ignored
            }
        } else {
            Edit::Ignored
        }
    }

    /// The current line as a string slice: its bytes, as characters.
    pub fn as_str(&self) -> (s: &str)
        requires
            self.wf(),
        ensures
            s@ == ascii_chars(self@),
    {
        let bytes = vstd::slice::slice_subrange(self.buf.as_slice(), 0, self.len);
        proof {
            assert(bytes@ =~= self@);
            lemma_ascii_decode(bytes@);
        }
        match str_from_utf8(bytes) {
            Some(s) => s,
            None => "",
        }
    }

    /// Empty the line.
    pub fn clear(&mut self)
        requires
            old(self).wf(),
        ensures
            final(self).wf(),
            final(self)@ == Seq::<u8>::empty(),
    {
        self.len = 0;
        proof {
            assert(self@ =~= Seq::<u8>::empty());
        }
    }
}


/// Unicode White_Space, the set `char::is_whitespace` tests.
pub open spec fn is_ws(c: char) -> bool {
    ||| '\u{9}' <= c <= '\u{d}'
    ||| c == ' '
    ||| c == '\u{85}'
    ||| c == '\u{a0}'
    ||| c == '\u{1680}'
    ||| '\u{2000}' <= c <= '\u{200a}'
    ||| c == '\u{2028}'
    ||| c == '\u{2029}'
    ||| c == '\u{202f}'
    ||| c == '\u{205f}'
    ||| c == '\u{3000}'
}

/// Whether `c` is whitespace.
fn is_whitespace(c: char) -> (b: bool)
    ensures
        b == is_ws(c),
{
    ('\u{9}' <= c && c <= '\u{d}') || c == ' ' || c == '\u{85}' || c == '\u{a0}' || c
        == '\u{1680}' || ('\u{2000}' <= c && c <= '\u{200a}') || c == '\u{2028}' || c
        == '\u{2029}' || c == '\u{202f}' || c == '\u{205f}' || c == '\u{3000}'
}

/// First index at or after `i`, below `end`, whose character is not
/// whitespace, or `end`.
pub open spec fn skip_ws(p: Seq<char>, i: int, end: int) -> int
    decreases end - i,
{
    if i >= end {
        end
    } else if !is_ws(p[i]) {
        i
    } else {
        skip_ws(p, i + 1, end)
    }
}

/// First index at or after `i`, below `end`, whose character is whitespace,
/// or `end`.
pub open spec fn find_ws(p: Seq<char>, i: int, end: int) -> int
    decreases end - i,
{
    if i >= end {
        end
    } else if is_ws(p[i]) {
        i
    } else {
        find_ws(p, i + 1, end)
    }
}

/// One past the last non-whitespace character at or after `lo`, scanning back
/// from `e`.
pub open spec fn trim_end(p: Seq<char>, lo: int, e: int) -> int
    decreases e - lo,
{
    if e > lo && is_ws(p[e - 1]) {
        trim_end(p, lo, e - 1)
    } else {
        e
    }
}

/// The shape of a parsed command, without its text.
#[derive(Clone, Copy, PartialEq, Eq, Structural, Debug)]
pub enum CommandKind {
    Empty,
    Help,
    Echo,
    Clear,
    Mem,
    Ps,
    Pwd,
    Cd,
    Ls,
    Cat,
    Unknown,
}

/// A parsed command line: the verb, plus the argument text where relevant.
#[derive(PartialEq, Eq, Debug)]
pub enum Command<'a> {
    Empty,
    Help,
    Echo(&'a str),
    Clear,
    Mem,
    Ps,
    Pwd,
    Cd(&'a str),
    Ls(&'a str),
    Cat(&'a str),
    Unknown(&'a str),
}

/// A command's shape and text.
pub open spec fn command_view(c: Command) -> (CommandKind, Seq<char>) {
    match c {
        Command::Empty => (CommandKind::Empty, Seq::empty()),
        Command::Help => (CommandKind::Help, Seq::empty()),
        Command::Echo(s) => (CommandKind::Echo, s@),
        Command::Clear => (CommandKind::Clear, Seq::empty()),
        Command::Mem => (CommandKind::Mem, Seq::empty()),
        Command::Ps => (CommandKind::Ps, Seq::empty()),
        Command::Pwd => (CommandKind::Pwd, Seq::empty()),
        Command::Cd(s) => (CommandKind::Cd, s@),
        Command::Ls(s) => (CommandKind::Ls, s@),
        Command::Cat(s) => (CommandKind::Cat, s@),
        Command::Unknown(s) => (CommandKind::Unknown, s@),
    }
}

/// What a line parses to. The line is trimmed; its first whitespace character
/// separates the verb from the rest, whose leading whitespace is dropped.
/// `echo` keeps the whole rest; `cd`, `ls` and `cat` take its first token; an
/// unrecognized verb is reported with its text.
pub open spec fn parse_spec(p: Seq<char>) -> (CommandKind, Seq<char>) {
    let ts = skip_ws(p, 0, p.len() as int);
    let te = trim_end(p, ts, p.len() as int);
    if ts == te {
        (CommandKind::Empty, Seq::empty())
    } else {
        let k = find_ws(p, ts, te);
        let verb = p.subrange(ts, k);
        let rs = if k < te {
            skip_ws(p, k + 1, te)
        } else {
            te
        };
        let rest = p.subrange(rs, te);
        let token = p.subrange(rs, find_ws(p, rs, te));
        if verb == "help"@ {
            (CommandKind::Help, Seq::empty())
        } else if verb == "echo"@ {
            (CommandKind::Echo, rest)
        } else if verb == "clear"@ {
            (CommandKind::Clear, Seq::empty())
        } else if verb == "mem"@ {
            (CommandKind::Mem, Seq::empty())
        } else if verb == "ps"@ {
            (CommandKind::Ps, Seq::empty())
        } else if verb == "pwd"@ {
            (CommandKind::Pwd, Seq::empty())
        } else if verb == "cd"@ {
            (CommandKind::Cd, token)
        } else if verb == "ls"@ {
            (CommandKind::Ls, token)
        } else if verb == "cat"@ {
            (CommandKind::Cat, token)
        } else {
            (CommandKind::Unknown, verb)
        }
    }
}

/// Whether `s` spells `lit`.
fn str_eq(s: &str, lit: &str) -> (b: bool)
    ensures
        b == (s@ == lit@),
{
    String::from_str(s) == String::from_str(lit)
}

/// Split a line into a command and its argument text.
pub fn parse(line: &str) -> (c: Command<'_>)
    ensures
        command_view(c) == parse_spec(line@),
{
    let ghost p = line@;
    let n = line.unicode_len();
    // Trim the start.
    let mut ts: usize = 0;
    while ts < n && is_whitespace(line.get_char(ts))
        invariant
            n == p.len(),
            ts <= n,
            p == line@,
            skip_ws(p, 0, n as int) == skip_ws(p, ts as int, n as int),
        decreases n - ts,
    {
        ts = ts + 1;
    }
    // Trim the end.
    let mut te: usize = n;
    while te > ts && is_whitespace(line.get_char(te - 1))
        invariant
            n == p.len(),
            ts <= te <= n,
            p == line@,
            trim_end(p, ts as int, n as int) == trim_end(p, ts as int, te as int),
        decreases te - ts,
    {
        te = te - 1;
    }
    if ts == te {
        return Command::Empty;
    }
    // The verb runs to the first whitespace.
    let mut k: usize = ts;
    while k < te && !is_whitespace(line.get_char(k))
        invariant
            n == p.len(),
            ts <= k <= te <= n,
            p == line@,
            find_ws(p, ts as int, te as int) == find_ws(p, k as int, te as int),
        decreases te - k,
    {
        k = k + 1;
    }
    // The rest starts after that whitespace character, less leading whitespace.
    let mut rs: usize = te;
    if k < te {
        rs = k + 1;
        while rs < te && is_whitespace(line.get_char(rs))
            invariant
                n == p.len(),
                k < te <= n,
                k + 1 <= rs <= te,
                p == line@,
                skip_ws(p, k + 1, te as int) == skip_ws(p, rs as int, te as int),
            decreases te - rs,
        {
            rs = rs + 1;
        }
    }
    let mut tk: usize = rs;
    while tk < te && !is_whitespace(line.get_char(tk))
        invariant
            n == p.len(),
            rs <= tk <= te <= n,
            p == line@,
            find_ws(p, rs as int, te as int) == find_ws(p, tk as int, te as int),
        decreases te - tk,
    {
        tk = tk + 1;
    }
    let verb = line.substring_char(ts, k);
    let rest = line.substring_char(rs, te);
    let token = line.substring_char(rs, tk);
    if str_eq(verb, "help") {
        Command::Help
    } else if str_eq(verb, "echo") {
        Command::Echo(rest)
    } else if str_eq(verb, "clear") {
        Command::Clear
    } else if str_eq(verb, "mem") {
        Command::Mem
    } else if str_eq(verb, "ps") {
        Command::Ps
    } else if str_eq(verb, "pwd") {
        Command::Pwd
    } else if str_eq(verb, "cd") {
        Command::Cd(token)
    } else if str_eq(verb, "ls") {
        Command::Ls(token)
    } else if str_eq(verb, "cat") {
        Command::Cat(token)
    } else {
        Command::Unknown(verb)
    }
}


/// The directory stack after one path piece: an empty piece or `.` changes
/// nothing, `..` pops (a no-op at the root), any other name is pushed.
pub open spec fn norm_step(stack: Seq<Seq<char>>, piece: Seq<char>) -> Seq<Seq<char>> {
    if piece.len() == 0 || piece == seq!['.'] {
        stack
    } else if piece == seq!['.', '.'] {
        if stack.len() > 0 {
            stack.drop_last()
        } else {
            stack
        }
    } else {
        stack.push(piece)
    }
}

/// Fold the `/`-separated pieces of `s` from position `pos` on into `stack`.
pub open spec fn norm_pieces(stack: Seq<Seq<char>>, s: Seq<char>, pos: int) -> Seq<Seq<char>>
    decreases s.len() + 1 - pos,
{
    if pos < 0 || pos > s.len() {
        stack
    } else {
        let k = find_slash(s, pos);
        let st = norm_step(stack, s.subrange(pos, k));
        if k >= s.len() {
            st
        } else {
            proof {
                lemma_find_slash(s, pos);
            }
            norm_pieces(st, s, k + 1)
        }
    }
}

/// The path a directory stack spells: `/` then the names joined by `/`.
pub open spec fn render_names(stack: Seq<Seq<char>>) -> Seq<char>
    decreases stack.len(),
{
    if stack.len() == 0 {
        Seq::empty()
    } else {
        render_names(stack.drop_last()) + seq!['/'] + stack.last()
    }
}

/// The canonical absolute path `arg` names from the directory `cwd`: an
/// absolute `arg` ignores `cwd`; `.`, `..` and empty pieces are resolved; the
/// root is `/`.
pub open spec fn canonical_spec(cwd: Seq<char>, arg: Seq<char>) -> Seq<char> {
    let base = if arg.len() > 0 && arg[0] == '/' {
        Seq::<char>::empty()
    } else {
        cwd
    };
    let stack = norm_pieces(norm_pieces(Seq::empty(), base, 0), arg, 0);
    if stack.len() == 0 {
        seq!['/']
    } else {
        render_names(stack)
    }
}

/// The views of a stack of string slices.
pub open spec fn views(v: Seq<&str>) -> Seq<Seq<char>> {
    v.map_values(|x: &str| x@)
}

/// Fold the pieces of `s` into `stack`.
fn push_pieces<'a>(stack: &mut Vec<&'a str>, s: &'a str)
    ensures
        views(final(stack)@) == norm_pieces(views(old(stack)@), s@, 0),
{
    let ghost p = s@;
    let n = s.unicode_len();
    let mut pos: usize = 0;
    loop
        invariant
            n == p.len(),
            p == s@,
            pos <= n,
            norm_pieces(views(old(stack)@), p, 0) == norm_pieces(views(stack@), p, pos as int),
        decreases n + 1 - pos,
    {
        let mut k = pos;
        while k < n && s.get_char(k) != '/'
            invariant
                n == p.len(),
                p == s@,
                pos <= k <= n,
                find_slash(p, pos as int) == find_slash(p, k as int),
            decreases n - k,
        {
            k = k + 1;
        }
        proof {
            lemma_find_slash(p, pos as int);
        }
        let piece = s.substring_char(pos, k);
        let len = k - pos;
        let ghost before = views(stack@);
        if len == 0 || (len == 1 && piece.get_char(0) == '.') {
            proof {
                if len == 1 {
                    assert(piece@ =~= seq!['.']);
                }
            }
        } else if len == 2 && piece.get_char(0) == '.' && piece.get_char(1) == '.' {
            proof {
                assert(piece@ =~= seq!['.', '.']);
            }
            if stack.len() > 0 {
                let _ = stack.pop();
                proof {
                    assert(views(stack@) =~= before.drop_last());
                }
            }
        } else {
            proof {
                if len == 1 {
                    assert(piece@ != seq!['.']) by {
                        assert(piece@[0] != '.');
                    }
                }
                if len == 2 {
                    assert(piece@ != seq!['.', '.']) by {
                        assert(piece@[0] != '.' || piece@[1] != '.');
                    }
                }
            }
            stack.push(piece);
            proof {
                assert(views(stack@) =~= before.push(piece@));
            }
        }
        if k >= n {
            return;
        }
        pos = k + 1;
    }
}

/// Join `arg` onto `cwd` and normalize `.`, `..` and repeated slashes into a
/// canonical absolute path: leading `/`, no `.` or `..`, and no trailing
/// slash except the root, which is `/`.
pub fn canonicalize(cwd: &str, arg: &str) -> (out: String)
    ensures
        out@ == canonical_spec(cwd@, arg@),
{
    let mut stack: Vec<&str> = Vec::new();
    let absolute = arg.unicode_len() > 0 && arg.get_char(0) == '/';
    let base = if absolute {
        ""
    } else {
        cwd
    };
    proof {
        reveal_strlit("");
        assert(views(stack@) =~= Seq::<Seq<char>>::empty());
    }
    push_pieces(&mut stack, base);
    push_pieces(&mut stack, arg);
    if stack.len() == 0 {
        let root = String::from_str("/");
        proof {
            reveal_strlit("/");
        }
        return root;
    }
    let mut out = String::new();
    let mut i: usize = 0;
    while i < stack.len()
        invariant
            i <= stack@.len(),
            out@ == render_names(views(stack@).take(i as int)),
        decreases stack@.len() - i,
    {
        out.append("/");
        out.append(stack[i]);
        proof {
            reveal_strlit("/");
            let v = views(stack@);
            assert(v.take(i + 1).drop_last() =~= v.take(i as int));
        }
        i = i + 1;
    }
    proof {
        assert(views(stack@).take(stack@.len() as int) =~= views(stack@));
    }
    out
}


/// A proper directory name: not empty, without `/`, and neither `.` nor `..`.
pub open spec fn proper_name(n: Seq<char>) -> bool {
    n.len() > 0 && !n.contains('/') && n != seq!['.'] && n != seq!['.', '.']
}

/// Every name of the stack is proper.
pub open spec fn proper_names(st: Seq<Seq<char>>) -> bool {
    forall|i: int| 0 <= i < st.len() ==> #[trigger] proper_name(st[i])
}

/// A canonical absolute path: the root `/`, or `/` followed by proper names
/// joined by `/`.
pub open spec fn is_canonical(p: Seq<char>) -> bool {
    p == seq!['/'] || exists|names: Seq<Seq<char>>|
        names.len() > 0 && proper_names(names) && p == #[trigger] render_names(names)
}

proof fn lemma_norm_proper(stack: Seq<Seq<char>>, s: Seq<char>, pos: int)
    requires
        proper_names(stack),
        0 <= pos <= s.len(),
    ensures
        proper_names(norm_pieces(stack, s, pos)),
    decreases s.len() + 1 - pos,
{
    let k = find_slash(s, pos);
    lemma_find_slash(s, pos);
    let piece = s.subrange(pos, k);
    assert(!piece.contains('/')) by {
        if piece.contains('/') {
            let j = choose|j: int| 0 <= j < piece.len() && piece[j] == '/';
            assert(s[pos + j] == '/');
        }
    }
    let st = norm_step(stack, piece);
    assert(proper_names(st)) by {
        if !(piece.len() == 0 || piece == seq!['.']) && piece == seq!['.', '.'] && stack.len() > 0 {
            assert forall|i: int| 0 <= i < st.len() implies #[trigger] proper_name(st[i]) by {
                assert(st[i] == stack[i]);
            }
        } else if !(piece.len() == 0 || piece == seq!['.']) && piece != seq!['.', '.'] {
            assert forall|i: int| 0 <= i < st.len() implies #[trigger] proper_name(st[i]) by {
                if i < stack.len() {
                    assert(st[i] == stack[i]);
                }
            }
        }
    }
    if k < s.len() {
        lemma_norm_proper(st, s, k + 1);
    }
}

proof fn lemma_render_ends(names: Seq<Seq<char>>)
    requires
        names.len() > 0,
        proper_names(names),
    ensures
        render_names(names).len() >= 2,
        render_names(names)[0] == '/',
        render_names(names).last() != '/',
    decreases names.len(),
{
    let last = names.last();
    assert(proper_name(names[names.len() - 1]));
    assert(last[last.len() - 1] != '/') by {
        if last[last.len() - 1] == '/' {
            assert(last.contains('/'));
        }
    }
    let front = names.drop_last();
    if front.len() > 0 {
        assert(proper_names(front)) by {
            assert forall|i: int| 0 <= i < front.len() implies #[trigger] proper_name(front[i]) by {
                assert(front[i] == names[i]);
            }
        }
        lemma_render_ends(front);
    } else {
        assert(render_names(front) =~= Seq::<char>::empty());
    }
}

/// Whatever the working directory and argument, `canonicalize` gives a
/// canonical absolute path: the root `/`, or `/` followed by names joined by
/// `/`, none of them empty, `.` or `..`. So it starts with `/` and ends in a
/// slash only when it is the root.
pub proof fn law_canonical_form(cwd: Seq<char>, arg: Seq<char>)
    ensures
        is_canonical(canonical_spec(cwd, arg)),
        canonical_spec(cwd, arg).len() >= 1,
        canonical_spec(cwd, arg)[0] == '/',
        canonical_spec(cwd, arg).len() > 1 ==> canonical_spec(cwd, arg).last() != '/',
{
    let base = if arg.len() > 0 && arg[0] == '/' {
        Seq::<char>::empty()
    } else {
        cwd
    };
    lemma_norm_proper(Seq::empty(), base, 0);
    let s1 = norm_pieces(Seq::empty(), base, 0);
    lemma_norm_proper(s1, arg, 0);
    let stack = norm_pieces(s1, arg, 0);
    if stack.len() > 0 {
        lemma_render_ends(stack);
        assert(is_canonical(render_names(stack)));
    }
}

/// An absolute argument does not depend on the working directory: it names
/// what it names from the root.
pub proof fn law_absolute_ignores_cwd(cwd: Seq<char>, arg: Seq<char>)
    requires
        arg.len() > 0,
        arg[0] == '/',
    ensures
        canonical_spec(cwd, arg) == canonical_spec(seq!['/'], arg),
{
}

/// Folding the pieces of `s` from `pos` on is folding those before the `/`
/// at `k`, then those after it.
proof fn lemma_norm_split(stack: Seq<Seq<char>>, s: Seq<char>, pos: int, k: int)
    requires
        0 <= pos <= k < s.len(),
        s[k] == '/',
    ensures
        norm_pieces(stack, s, pos) == norm_pieces(norm_pieces(stack, s.subrange(0, k), pos), s, k + 1),
    decreases k - pos,
{
    let t = s.subrange(0, k);
    let j = find_slash(s, pos);
    lemma_find_slash(s, pos);
    assert(j <= k) by {
        if j > k {
            assert(s[k] != '/');
        }
    }
    if j < k {
        lemma_find_slash_at(t, pos, j);
    } else {
        lemma_find_slash_at(t, pos, k);
    }
    assert(s.subrange(pos, j) =~= t.subrange(pos, j));
    let st = norm_step(stack, s.subrange(pos, j));
    if j < k {
        lemma_norm_split(st, s, j + 1, k);
    }
}

/// The path a stack of proper names spells folds back to that stack.
proof fn lemma_norm_render(pre: Seq<Seq<char>>, names: Seq<Seq<char>>)
    requires
        proper_names(names),
    ensures
        norm_pieces(pre, render_names(names), 0) == pre + names,
    decreases names.len(),
{
    let r = render_names(names);
    if names.len() == 0 {
        assert(r.len() == 0);
        assert(r.subrange(0, 0).len() == 0);
        assert(pre + names =~= pre);
    } else {
        let front = names.drop_last();
        let last = names.last();
        assert(proper_names(front)) by {
            assert forall|i: int| 0 <= i < front.len() implies #[trigger] proper_name(front[i]) by {
                assert(front[i] == names[i]);
            }
        }
        assert(proper_name(names[names.len() - 1]));
        let rf = render_names(front);
        let k = rf.len() as int;
        assert(r == rf + seq!['/'] + last);
        assert(r[k] == '/');
        lemma_norm_split(pre, r, 0, k);
        assert(r.subrange(0, k) =~= rf);
        lemma_norm_render(pre, front);
        assert forall|j: int| k + 1 <= j < r.len() implies r[j] != '/' by {
            assert(r[j] == last[j - k - 1]);
            if last[j - k - 1] == '/' {
                assert(last.contains('/'));
            }
        }
        lemma_find_slash_at(r, k + 1, r.len() as int);
        assert(r.subrange(k + 1, r.len() as int) =~= last);
        assert((pre + front).push(last) =~= pre + names);
    }
}

/// Canonicalising is idempotent: a path `canonicalize` gave, taken from the
/// root, names itself.
pub proof fn law_canonical_idempotent(cwd: Seq<char>, arg: Seq<char>)
    ensures
        canonical_spec(seq!['/'], canonical_spec(cwd, arg)) == canonical_spec(cwd, arg),
{
    law_canonical_form(cwd, arg);
    let base = if arg.len() > 0 && arg[0] == '/' {
        Seq::<char>::empty()
    } else {
        cwd
    };
    lemma_norm_proper(Seq::empty(), base, 0);
    let s1 = norm_pieces(Seq::empty(), base, 0);
    lemma_norm_proper(s1, arg, 0);
    let stack = norm_pieces(s1, arg, 0);
    let r = canonical_spec(cwd, arg);
    if stack.len() == 0 {
        let root = seq!['/'];
        lemma_find_slash_at(root, 0, 0);
        lemma_find_slash_at(root, 1, 1);
        assert(root.subrange(0, 0).len() == 0);
        assert(root.subrange(1, 1).len() == 0);
        let e = Seq::<Seq<char>>::empty();
        assert(norm_step(e, root.subrange(1, 1)) == e);
        assert(norm_pieces(e, root, 1) == e);
        assert(norm_step(e, root.subrange(0, 0)) == e);
        assert(norm_pieces(e, root, 0) == e);
    } else {
        lemma_norm_render(Seq::empty(), stack);
        assert(Seq::<Seq<char>>::empty() + stack =~= stack);
        lemma_render_ends(stack);
    }
}

/// What `cd` did.
#[derive(Debug, PartialEq, Eq)]
pub enum CdOutcome {
    /// No argument: the working directory is now the root.
    Root,
    /// The working directory is now this directory.
    Changed,
    /// The path names a file; the working directory is unchanged.
    NotADirectory(String),
    /// The path names nothing; the working directory is unchanged.
    NoSuchDirectory(String),
}

/// `cd [path]`: change the working directory. No argument goes to the root; a
/// path that does not name a directory leaves `cwd` unchanged.
pub fn cmd_cd(cwd: &mut String, arg: &str, fs: &Fs) -> (r: CdOutcome)
    ensures
        arg@.len() == 0 ==> r == CdOutcome::Root && final(cwd)@ == seq!['/'],
        arg@.len() > 0 ==> ({
            let target = canonical_spec(old(cwd)@, arg@);
            match resolve_walk(fs.bytes(), root_node(fs.root_count()), target, 0) {
                Ok(Node::Dir { .. }) => r == CdOutcome::Changed && final(cwd)@ == target,
                Ok(Node::File { .. }) => r matches CdOutcome::NotADirectory(t) && t@ == target
                    && final(cwd)@ == old(cwd)@,
                Err(_) => r matches CdOutcome::NoSuchDirectory(t) && t@ == target && final(cwd)@
                    == old(cwd)@,
            }
        }),
{
    if arg.unicode_len() == 0 {
        *cwd = String::from_str("/");
        proof {
            reveal_strlit("/");
        }
        return CdOutcome::Root;
    }
    let target = canonicalize(cwd.as_str(), arg);
    match fs.resolve(target.as_str()) {
        Ok(Node::Dir { .. }) => {
            *cwd = target;
            CdOutcome::Changed
        },
        Ok(Node::File { .. }) => CdOutcome::NotADirectory(target),
        Err(_) => CdOutcome::NoSuchDirectory(target),
    }
}

/// `ls [path]`: the directory to list (the working directory if no path is
/// given) and its entries, or that directory's path when it cannot be listed.
pub fn cmd_ls(cwd: &str, arg: &str, fs: &Fs) -> (r: Result<(String, Vec<DirEntry>), String>)
    ensures
        ({
            let target = if arg@.len() == 0 {
                cwd@
            } else {
                canonical_spec(cwd@, arg@)
            };
            match resolve_walk(fs.bytes(), root_node(fs.root_count()), target, 0) {
                Ok(Node::Dir { offset, length }) => r matches Ok((t, v)) && t@ == target && v.len()
                    == length / 32 && forall|i: int|
                    0 <= i < v.len() ==> renders(#[trigger] v[i], fs.bytes(), offset + i * 32),
                _ => r matches Err(t) && t@ == target,
            }
        }),
{
    let target = if arg.unicode_len() == 0 {
        String::from_str(cwd)
    } else {
        canonicalize(cwd, arg)
    };
    match fs.list_dir(target.as_str()) {
        Ok(entries) => Ok((target, entries)),
        Err(_) => Err(target),
    }
}

/// What `cat` found.
#[derive(Debug, PartialEq, Eq)]
pub enum CatOutcome<'a> {
    /// No path was given.
    Usage,
    /// The file's bytes.
    Contents(&'a [u8]),
    /// The path names a directory.
    IsADirectory(String),
    /// The path names nothing.
    NoSuchFile(String),
}

/// `cat <path>`: the bytes of the file the path names, resolved from `cwd`.
pub fn cmd_cat<'a>(cwd: &str, arg: &str, fs: &Fs<'a>) -> (r: CatOutcome<'a>)
    ensures
        arg@.len() == 0 ==> r == CatOutcome::Usage,
        arg@.len() > 0 ==> ({
            let target = canonical_spec(cwd@, arg@);
            match resolve_walk(fs.bytes(), root_node(fs.root_count()), target, 0) {
                Ok(Node::File { offset, length }) => r matches CatOutcome::Contents(b) && b@
                    == fs.bytes().subrange(offset as int, offset + length),
                Ok(Node::Dir { .. }) => r matches CatOutcome::IsADirectory(t) && t@ == target,
                Err(_) => r matches CatOutcome::NoSuchFile(t) && t@ == target,
            }
        }),
{
    if arg.unicode_len() == 0 {
        return CatOutcome::Usage;
    }
    let target = canonicalize(cwd, arg);
    proof {
        lemma_resolve_errors(fs.bytes(), root_node(fs.root_count()), target@, 0);
    }
    match fs.read_path(target.as_str()) {
        Ok(bytes) => CatOutcome::Contents(bytes),
        Err(FsError::IsADirectory) => CatOutcome::IsADirectory(target),
        Err(_) => CatOutcome::NoSuchFile(target),
    }
}

} // verus!
