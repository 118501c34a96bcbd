//! The rules for compressed files: which tool reads or writes a file by
//! its suffix, the signature its contents start with, and the shell
//! command that runs the tool on the file.
use vstd::prelude::*;
use vstd::string::StrSliceExecFns;
use crate::text::push_str;

verus! {

/// The compression formats read and written through external tools.
#[derive(Clone, Copy, PartialEq, Eq, Debug, Structural)]
pub enum Compression {
    Bzip2,
    Gzip,
    Lzma,
    SevenZip,
    Xz,
    Compress,
}

/// Whether `s` ends with `suffix`.
pub open spec fn ends_with(s: Seq<char>, suffix: Seq<char>) -> bool {
    suffix.len() <= s.len() && s.skip(s.len() - suffix.len()) == suffix
}

/// Whether `s` ends with `suffix`.
pub fn has_suffix(s: &str, suffix: &str) -> (r: bool)
    ensures
        r == ends_with(s@, suffix@),
{
    let n = s.unicode_len();
    let m = suffix.unicode_len();
    if m > n {
        return false;
    }
    let mut i: usize = 0;
    while i < m
        invariant
            m <= n,
            n == s@.len(),
            m == suffix@.len(),
            i <= m,
            forall|j: int| 0 <= j < i ==> s@[n - m + j] == suffix@[j],
        decreases m - i,
    {
        if s.get_char(n - m + i) != suffix.get_char(i) {
            proof {
                assert(s@.skip(n - m)[i as int] != suffix@[i as int]);
            }
            return false;
        }
        i += 1;
    }
    proof {
        assert(s@.skip(n - m) =~= suffix@);
    }
    true
}

/// The suffix of files in `c`.
pub open spec fn suffix_of(c: Compression) -> Seq<char> {
    match c {
        Compression::Bzip2 => ".bz2"@,
        Compression::Gzip => ".gz"@,
        Compression::Lzma => ".lzma"@,
        Compression::SevenZip => ".7z"@,
        Compression::Xz => ".xz"@,
        Compression::Compress => ".Z"@,
    }
}

/// The suffix of files in `c`.
pub fn suffix(c: Compression) -> (r: &'static str)
    ensures
        r@ == suffix_of(c),
{
    match c {
        Compression::Bzip2 => ".bz2",
        Compression::Gzip => ".gz",
        Compression::Lzma => ".lzma",
        Compression::SevenZip => ".7z",
        Compression::Xz => ".xz",
        Compression::Compress => ".Z",
    }
}

/// The format a file to read is in, by the first suffix of the list
/// `.bz2`, `.gz`, `.lzma`, `.7z`, `.xz`, `.Z` that it has.
pub open spec fn reading_compression(path: Seq<char>) -> Option<Compression> {
    if ends_with(path, ".bz2"@) {
        Some(Compression::Bzip2)
    } else if ends_with(path, ".gz"@) {
        Some(Compression::Gzip)
    } else if ends_with(path, ".lzma"@) {
        Some(Compression::Lzma)
    } else if ends_with(path, ".7z"@) {
        Some(Compression::SevenZip)
    } else if ends_with(path, ".xz"@) {
        Some(Compression::Xz)
    } else if ends_with(path, ".Z"@) {
        Some(Compression::Compress)
    } else {
        None
    }
}

/// The suffixes of the formats end differently: no path ends with two of
/// them.
proof fn lemma_one_suffix(path: Seq<char>, c: Compression, e: Compression)
    requires
        ends_with(path, suffix_of(c)),
        ends_with(path, suffix_of(e)),
    ensures
        c == e,
{
    reveal_strlit(".bz2");
    reveal_strlit(".gz");
    reveal_strlit(".lzma");
    reveal_strlit(".7z");
    reveal_strlit(".xz");
    reveal_strlit(".Z");
    let n = path.len();
    let a = suffix_of(c);
    let b = suffix_of(e);
    assert(path[n - 1] == a[a.len() - 1]) by {
        assert(path.skip(n - a.len())[a.len() - 1] == a[a.len() - 1]);
    }
    assert(path[n - 1] == b[b.len() - 1]) by {
        assert(path.skip(n - b.len())[b.len() - 1] == b[b.len() - 1]);
    }
    assert(path[n - 2] == a[a.len() - 2]) by {
        assert(path.skip(n - a.len())[a.len() - 2] == a[a.len() - 2]);
    }
    assert(path[n - 2] == b[b.len() - 2]) by {
        assert(path.skip(n - b.len())[b.len() - 2] == b[b.len() - 2]);
    }
}

/// A file is read through the tool of format `c` exactly when its path
/// ends with the suffix of `c`, and as plain text when it ends with none
/// of them.
pub proof fn lemma_reading_by_suffix(path: Seq<char>, c: Compression)
    ensures
        reading_compression(path) == Some(c) <==> ends_with(path, suffix_of(c)),
        reading_compression(path) is None <==> forall|e: Compression| !ends_with(path, #[trigger] suffix_of(e)),
{
    if ends_with(path, suffix_of(c)) {
        match reading_compression(path) {
            Some(e) => {
                assert(ends_with(path, suffix_of(e)));
                lemma_one_suffix(path, c, e);
            },
            None => {},
        }
    }
    match reading_compression(path) {
        Some(e) => {
            assert(ends_with(path, suffix_of(e)));
        },
        None => {
            assert forall|e: Compression| !ends_with(path, #[trigger] suffix_of(e)) by {
                match e {
                    Compression::Bzip2 => {},
                    Compression::Gzip => {},
                    Compression::Lzma => {},
                    Compression::SevenZip => {},
                    Compression::Xz => {},
                    Compression::Compress => {},
                }
            }
        },
    }
}

/// Appending `.gz` to any name makes a file read through gzip, and
/// likewise for each other format's suffix.
pub proof fn lemma_reading_appended_suffix(name: Seq<char>, c: Compression)
    ensures
        reading_compression(name + suffix_of(c)) == Some(c),
        reading_compression(name + ".gz"@) == Some(Compression::Gzip),
{
    let p = name + suffix_of(c);
    assert(p.skip(p.len() - suffix_of(c).len()) =~= suffix_of(c));
    lemma_reading_by_suffix(p, c);
    let q = name + ".gz"@;
    assert(q.skip(q.len() - ".gz"@.len()) =~= ".gz"@);
    lemma_reading_by_suffix(q, Compression::Gzip);
}

/// The format a file to read is in, by its suffix.
pub fn compression_for_reading(path: &str) -> (r: Option<Compression>)
    ensures
        r == reading_compression(path@),
{
    if has_suffix(path, ".bz2") {
        Some(Compression::Bzip2)
    } else if has_suffix(path, ".gz") {
        Some(Compression::Gzip)
    } else if has_suffix(path, ".lzma") {
        Some(Compression::Lzma)
    } else if has_suffix(path, ".7z") {
        Some(Compression::SevenZip)
    } else if has_suffix(path, ".xz") {
        Some(Compression::Xz)
    } else if has_suffix(path, ".Z") {
        Some(Compression::Compress)
    } else {
        None
    }
}

/// The format a file to write is in, by its suffix; `.Z` files are written
/// uncompressed.
pub fn compression_for_writing(path: &str) -> (r: Option<Compression>)
    ensures
        r == (match reading_compression(path@) {
            Some(Compression::Compress) => None,
            other => other,
        }),
{
    match compression_for_reading(path) {
        Some(Compression::Compress) => None,
        other => other,
    }
}

/// The command that decompresses a file of format `c` to standard output,
/// with `%s` for the file.
pub fn read_command(c: Compression) -> (r: &'static str)
    ensures
        r@ == (match c {
            Compression::Bzip2 => "bzip2 -c -d %s"@,
            Compression::Gzip => "gzip -c -d %s"@,
            Compression::Lzma => "lzma -c -d %s"@,
            Compression::SevenZip => "7z x -so %s 2>/dev/null"@,
            Compression::Xz => "xz -c -d %s"@,
            Compression::Compress => "gzip -c -d %s"@,
        }),
{
    match c {
        Compression::Bzip2 => "bzip2 -c -d %s",
        Compression::Gzip => "gzip -c -d %s",
        Compression::Lzma => "lzma -c -d %s",
        Compression::SevenZip => "7z x -so %s 2>/dev/null",
        Compression::Xz => "xz -c -d %s",
        Compression::Compress => "gzip -c -d %s",
    }
}

/// The command that compresses standard input into a file of format `c`,
/// with `%s` for the file (`.Z` files are not written compressed).
pub fn write_command(c: Compression) -> (r: Option<&'static str>)
    ensures
        r == (match c {
            Compression::Bzip2 => Some("bzip2 -c > %s"),
            Compression::Gzip => Some("gzip -c > %s"),
            Compression::Lzma => Some("lzma -c > %s"),
            Compression::SevenZip => Some("7z a -si %s 2>/dev/null"),
            Compression::Xz => Some("xz -c > %s"),
            Compression::Compress => None,
        }),
{
    match c {
        Compression::Bzip2 => Some("bzip2 -c > %s"),
        Compression::Gzip => Some("gzip -c > %s"),
        Compression::Lzma => Some("lzma -c > %s"),
        Compression::SevenZip => Some("7z a -si %s 2>/dev/null"),
        Compression::Xz => Some("xz -c > %s"),
        Compression::Compress => None,
    }
}

/// The bytes files of format `c` start with.
pub fn signature(c: Compression) -> (r: Vec<u8>)
    ensures
        r@ == (match c {
            Compression::Bzip2 => seq![0x42u8, 0x5A, 0x68],
            Compression::Gzip => seq![0x1Fu8, 0x8B],
            Compression::Lzma => seq![0x5Du8, 0x00, 0x00, 0x80, 0x00],
            Compression::SevenZip => seq![0x37u8, 0x7A, 0xBC, 0xAF, 0x27, 0x1C],
            Compression::Xz => seq![0xFDu8, 0x37, 0x7A, 0x58, 0x5A, 0x00, 0x00],
            Compression::Compress => seq![0x1Fu8, 0x9D, 0x90],
        }),
{
    match c {
        Compression::Bzip2 => vec![0x42u8, 0x5A, 0x68],
        Compression::Gzip => vec![0x1Fu8, 0x8B],
        Compression::Lzma => vec![0x5Du8, 0x00, 0x00, 0x80, 0x00],
        Compression::SevenZip => vec![0x37u8, 0x7A, 0xBC, 0xAF, 0x27, 0x1C],
        Compression::Xz => vec![0xFDu8, 0x37, 0x7A, 0x58, 0x5A, 0x00, 0x00],
        Compression::Compress => vec![0x1Fu8, 0x9D, 0x90],
    }
}

/// Whether the first bytes read from a file are the signature `sig`.
pub fn matches_signature(head: &[u8], sig: &[u8]) -> (r: bool)
    ensures
        r == (head@ == sig@),
{
    if head.len() != sig.len() {
        return false;
    }
    let mut i: usize = 0;
    while i < sig.len()
        invariant
            head@.len() == sig@.len(),
            i <= sig@.len(),
            forall|j: int| 0 <= j < i ==> head@[j] == sig@[j],
        decreases sig@.len() - i,
    {
        if head[i] != sig[i] {
            return false;
        }
        i += 1;
    }
    proof {
        assert(head@ =~= sig@);
    }
    true
}

/// The position of the first space in `s`, or its length.
pub open spec fn first_space(s: Seq<char>) -> int {
    if s.contains(' ') { choose|i: int| 0 <= i < s.len() && s[i] == ' ' && forall|j: int| 0 <= j < i ==> s[j] != ' ' } else { s.len() as int }
}

/// The name of the tool a command runs: everything before its first
/// space.
pub fn tool_name(cmd: &str) -> (r: String)
    ensures
        r@ == cmd@.take(first_space(cmd@)),
{
    let n = cmd.unicode_len();
    let mut i: usize = 0;
    while i < n && cmd.get_char(i) != ' '
        invariant
            n == cmd@.len(),
            i <= n,
            forall|j: int| 0 <= j < i ==> cmd@[j] != ' ',
        decreases n - i,
    {
        i += 1;
    }
    proof {
        if cmd@.contains(' ') {
            let f = first_space(cmd@);
            assert(0 <= f < cmd@.len() && cmd@[f] == ' ' && forall|j: int| 0 <= j < f ==> cmd@[j] != ' ');
            if f < i {
                assert(cmd@[f] != ' ');
            }
            if i < f {
                assert(cmd@[i as int] == ' ');
            }
        } else if i < n {
            assert(cmd@.contains(' ')) by {
                assert(cmd@[i as int] == ' ');
            }
        }
    }
    let mut r = String::new();
    push_str(&mut r, cmd.substring_char(0, i));
    r
}

/// The first position from `i` on where `%s` starts, or -1.
pub open spec fn first_placeholder(s: Seq<char>, i: int) -> int
    decreases s.len() - i,
{
    if i < 0 || i + 1 >= s.len() {
        -1
    } else if s[i] == '%' && s[i + 1] == 's' {
        i
    } else {
        first_placeholder(s, i + 1)
    }
}

/// The command `fmt` with its first `%s` replaced by `path`.
pub open spec fn instantiate(fmt: Seq<char>, path: Seq<char>) -> Seq<char> {
    let k = first_placeholder(fmt, 0);
    if k < 0 { fmt } else { fmt.take(k) + path + fmt.skip(k + 2) }
}

/// The command `fmt` with its first `%s` replaced by `path`.
pub fn pipe_command(fmt: &str, path: &str) -> (r: String)
    ensures
        r@ == instantiate(fmt@, path@),
{
    let n = fmt.unicode_len();
    let m = if n == 0 { 0 } else { n - 1 };
    let mut i: usize = 0;
    let mut found = false;
    while i < m && !found
        invariant
            n == fmt@.len(),
            m == (if n == 0 { 0 } else { n - 1 }),
            i <= m,
            !found ==> first_placeholder(fmt@, i as int) == first_placeholder(fmt@, 0),
            found ==> first_placeholder(fmt@, 0) == i && i + 1 < n,
        decreases m - i, if found { 0int } else { 1int },
    {
        if fmt.get_char(i) == '%' && fmt.get_char(i + 1) == 's' {
            found = true;
        } else {
            i += 1;
        }
    }
    let mut r = String::new();
    if found {
        push_str(&mut r, fmt.substring_char(0, i));
        push_str(&mut r, path);
        push_str(&mut r, fmt.substring_char(i + 2, n));
        proof {
            assert(r@ =~= fmt@.take(i as int) + path@ + fmt@.skip(i + 2));
        }
    } else {
        push_str(&mut r, fmt);
    }
    r
}

} // verus!
