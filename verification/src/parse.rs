//! Helpers of the DIMACS parser.
use vstd::prelude::*;
use crate::literal::EXTERNAL_MAX_VAR;

verus! {

/// How strictly DIMACS input is checked.
#[derive(Clone, Copy, PartialEq, Eq, Debug, Structural)]
pub enum Strictness {
    RelaxedParsing,
    NormalParsing,
    PedanticParsing,
}

pub const SIZE_BUFFER: usize = 0x10_0000;

/// A read buffer of `SIZE_BUFFER` bytes with a read position and an end.
pub struct ReadBuffer {
    pub chars: Vec<u8>,
    pub pos: usize,
    pub end: usize,
}

impl ReadBuffer {
    /// An empty, zero-filled buffer.
    pub fn new() -> (r: ReadBuffer)
        ensures
            r.chars@.len() == SIZE_BUFFER,
            forall|i: int| 0 <= i < SIZE_BUFFER ==> r.chars@[i] == 0,
            r.pos == 0,
            r.end == 0,
    {
        ReadBuffer { chars: vec![0u8; SIZE_BUFFER], pos: 0, end: 0 }
    }
}

/// Reports `msg` at the line of `ch`: a newline belongs to the line before
/// it, so the line number is taken back by one first; the line number is
/// then published through `lineno_ptr`.
pub fn nonl(msg: &'static str, ch: i32, lineno: &mut u64, lineno_ptr: &mut u64) -> (r: Option<&'static str>)
    requires
        ch == 10 ==> *old(lineno) > 0,
    ensures
        *final(lineno) == (if ch == 10 { (*old(lineno) - 1) as u64 } else { *old(lineno) }),
        *final(lineno_ptr) == *final(lineno),
        r == Some(msg),
{
    if ch == 10 {
        *lineno -= 1;
    }
    *lineno_ptr = *lineno;
    Some(msg)
}

/// Whether `ch` is an ASCII digit.
pub fn faster_is_digit(ch: i32) -> (r: bool)
    ensures
        r == (48 <= ch <= 57),
{
    48 <= ch && ch <= 57
}


/*------------------------------------------------------------------------*/
// Reading DIMACS: the text is read byte by byte; past its end every read
// gives `-1`.

/// The character at `i`, or `-1` past the end.
pub open spec fn chr(s: Seq<u8>, i: int) -> int {
    if 0 <= i < s.len() { s[i] as int } else { -1 }
}

/// The number of new-lines among the first `n` bytes.
pub open spec fn count_nl(s: Seq<u8>, n: int) -> int
    decreases n,
{
    if n <= 0 || n > s.len() {
        0
    } else {
        count_nl(s, n - 1) + if s[n - 1] == 10 { 1int } else { 0int }
    }
}

/// The read position is within the text and the line number counts the
/// new-lines read.
pub open spec fn reader_ok(s: Seq<u8>, pos: int, lineno: int) -> bool {
    &&& s.len() < u64::MAX
    &&& 0 <= pos <= s.len()
    &&& lineno == 1 + count_nl(s, pos)
    &&& lineno >= 1
}

/// The position after reading the character at `q`.
pub open spec fn after(s: Seq<u8>, q: int) -> int {
    if q < s.len() { q + 1 } else { s.len() as int }
}

proof fn lemma_count_nl_bound(s: Seq<u8>, n: int)
    requires
        0 <= n <= s.len(),
    ensures
        0 <= count_nl(s, n) <= n,
    decreases n,
{
    if n > 0 {
        lemma_count_nl_bound(s, n - 1);
    }
}

/// Reads the next character: the byte at the read position, or `-1` at
/// the end; a new-line counts a line.
fn next_char(s: &[u8], pos: &mut usize, lineno: &mut u64) -> (ch: i32)
    requires
        reader_ok(s@, *old(pos) as int, *old(lineno) as int),
    ensures
        ch == chr(s@, *old(pos) as int),
        *final(pos) == after(s@, *old(pos) as int),
        reader_ok(s@, *final(pos) as int, *final(lineno) as int),
{
    if *pos == s.len() {
        return -1;
    }
    let c = s[*pos];
    proof {
        lemma_count_nl_bound(s@, *pos as int);
        assert(count_nl(s@, *pos + 1) == count_nl(s@, *pos as int) + if c == 10 { 1int } else { 0int });
    }
    *pos = *pos + 1;
    if c == 10 {
        *lineno = *lineno + 1;
    }
    proof {
        lemma_count_nl_bound(s@, *pos as int);
    }
    c as i32
}

/// Whether `c` is a decimal digit.
pub open spec fn is_digit(c: int) -> bool {
    48 <= c <= 57
}

/// The end of the run of digits from `i` on.
pub open spec fn digits_end(s: Seq<u8>, i: int) -> int
    decreases s.len() - i,
{
    if 0 <= i < s.len() && is_digit(s[i] as int) { digits_end(s, i + 1) } else { i }
}

/// The number the digits from `a` up to `b` denote.
pub open spec fn num(s: Seq<u8>, a: int, b: int) -> int
    decreases b - a,
{
    if b <= a { 0 } else { num(s, a, b - 1) * 10 + (s[b - 1] - 48) }
}

/// The end of the blanks (spaces and tabs) from `i` on.
pub open spec fn skip_ws(s: Seq<u8>, i: int) -> int
    decreases s.len() - i,
{
    if 0 <= i < s.len() && (s[i] == 32 || s[i] == 9) { skip_ws(s, i + 1) } else { i }
}

/// Where the next field starts: after the blanks, unless parsing is
/// pedantic.
pub open spec fn skip_blanks(s: Seq<u8>, i: int, strict: Strictness) -> int {
    if strict == Strictness::PedanticParsing { i } else { skip_ws(s, i) }
}

/// The position after the first new-line from `i` on (the end if none).
pub open spec fn after_newline(s: Seq<u8>, i: int) -> int
    decreases s.len() - i,
{
    if i < 0 {
        0
    } else if i >= s.len() {
        s.len() as int
    } else if s[i] == 10 {
        i + 1
    } else {
        after_newline(s, i + 1)
    }
}

proof fn lemma_digits_end(s: Seq<u8>, i: int)
    requires
        0 <= i <= s.len(),
    ensures
        i <= digits_end(s, i) <= s.len(),
        forall|j: int| i <= j < digits_end(s, i) ==> is_digit(#[trigger] s[j] as int),
        !is_digit(chr(s, digits_end(s, i))),
    decreases s.len() - i,
{
    if i < s.len() && is_digit(s[i] as int) {
        lemma_digits_end(s, i + 1);
    }
}

proof fn lemma_skip_ws(s: Seq<u8>, i: int)
    requires
        0 <= i <= s.len(),
    ensures
        i <= skip_ws(s, i) <= s.len(),
        chr(s, skip_ws(s, i)) != 32 && chr(s, skip_ws(s, i)) != 9,
    decreases s.len() - i,
{
    if i < s.len() && (s[i] == 32 || s[i] == 9) {
        lemma_skip_ws(s, i + 1);
    }
}

proof fn lemma_after_newline(s: Seq<u8>, i: int)
    requires
        0 <= i,
    ensures
        i <= after_newline(s, i) || i > s.len(),
        after_newline(s, i) <= s.len(),
    decreases s.len() - i,
{
    if 0 <= i < s.len() && s[i] != 10 {
        lemma_after_newline(s, i + 1);
    }
}

/// Reads the rest of a number whose first digit `ch` was read at `q`:
/// the digits from `q` on, as long as the number stays at most `max`.
/// Returns the number and the character after its digits, or `None` as
/// soon as it would exceed `max`.
fn read_number(s: &[u8], pos: &mut usize, lineno: &mut u64, ch: i32, max: u64, Ghost(q): Ghost<int>) -> (r: Option<(u64, i32)>)
    requires
        reader_ok(s@, *old(pos) as int, *old(lineno) as int),
        0 <= q < s@.len(),
        *old(pos) == q + 1,
        ch == chr(s@, q),
        is_digit(ch as int),
        max >= 9,
    ensures
        reader_ok(s@, *final(pos) as int, *final(lineno) as int),
        match r {
            Some((v, c)) => {
                &&& v as int == num(s@, q, digits_end(s@, q))
                &&& v <= max
                &&& c == chr(s@, digits_end(s@, q))
                &&& *final(pos) == after(s@, digits_end(s@, q))
            },
            None => num(s@, q, digits_end(s@, q)) > max,
        },
{
    proof {
        lemma_digits_end(s@, q);
    }
    let mut v: u64 = (ch - 48) as u64;
    if v > max {
        proof {
            lemma_num_grows(s@, q, q + 1, digits_end(s@, q));
        }
        return None;
    }
    let ghost mut e: int = q + 1;
    proof {
        assert(num(s@, q, q + 1) == num(s@, q, q) * 10 + (s@[q] - 48));
    }
    let mut c = next_char(s, pos, lineno);
    while 48 <= c && c <= 57
        invariant
            reader_ok(s@, *pos as int, *lineno as int),
            q < e <= digits_end(s@, q),
            digits_end(s@, q) <= s@.len(),
            forall|j: int| q <= j < digits_end(s@, q) ==> is_digit(#[trigger] s@[j] as int),
            !is_digit(chr(s@, digits_end(s@, q))),
            v as int == num(s@, q, e),
            v <= max,
            max >= 9,
            c == chr(s@, e),
            *pos == after(s@, e),
        decreases s@.len() - e,
    {
        proof {
            assert(e < digits_end(s@, q)) by {
                if e == digits_end(s@, q) {
                    assert(!is_digit(c as int));
                }
            }
        }
        let d = (c - 48) as u64;
        if max / 10 < v {
            proof {
                lemma_num_grows(s@, q, e + 1, digits_end(s@, q));
                assert(num(s@, q, e + 1) == v * 10 + d);
                assert(v * 10 + d > max) by (nonlinear_arith)
                    requires
                        max / 10 < v,
                ;
            }
            return None;
        }
        proof {
            assert(v * 10 <= max) by (nonlinear_arith)
                requires
                    v <= max / 10,
            ;
        }
        v = v * 10;
        if max - d < v {
            proof {
                lemma_num_grows(s@, q, e + 1, digits_end(s@, q));
            }
            return None;
        }
        v = v + d;
        proof {
            e = e + 1;
        }
        c = next_char(s, pos, lineno);
    }
    proof {
        if e < digits_end(s@, q) {
            assert(is_digit(s@[e] as int));
        }
    }
    Some((v, c))
}

/// The number of more digits is at least the number of fewer.
proof fn lemma_num_grows(s: Seq<u8>, a: int, b: int, c: int)
    requires
        a <= b <= c,
        forall|j: int| a <= j < c ==> is_digit(#[trigger] s[j] as int),
    ensures
        num(s, a, b) <= num(s, a, c),
        num(s, a, b) >= 0,
    decreases c - b,
{
    lemma_num_nonneg(s, a, b);
    if b < c {
        lemma_num_grows(s, a, b, c - 1);
        lemma_num_nonneg(s, a, c - 1);
        assert(num(s, a, c) == num(s, a, c - 1) * 10 + (s[c - 1] - 48));
    }
}

proof fn lemma_num_nonneg(s: Seq<u8>, a: int, b: int)
    requires
        forall|j: int| a <= j < b ==> is_digit(#[trigger] s[j] as int),
    ensures
        num(s, a, b) >= 0,
    decreases b - a,
{
    if b > a {
        lemma_num_nonneg(s, a, b - 1);
    }
}


/// The position of the `p` of the header line, which empty lines and
/// comment lines may precede.
pub open spec fn header_start(s: Seq<u8>, i: int) -> int
    decreases s.len() + 2 - i,
{
    if i < 0 || i >= s.len() {
        i
    } else if s[i] == 112 {
        i
    } else if s[i] == 13 {
        header_start(s, i + 2)
    } else if s[i] == 10 {
        header_start(s, i + 1)
    } else if s[i] == 99 {
        let j = after_newline(s, i + 1);
        if j <= i || j > s.len() { i } else { header_start(s, j) }
    } else {
        i
    }
}

/// The fields of the header `p cnf <variables> <clauses>`: the maximum
/// variable, the number of clauses and where the clauses start.
pub open spec fn header_fields(s: Seq<u8>, strict: Strictness) -> (int, int, int) {
    let p = header_start(s, 0);
    let a = skip_blanks(s, p + 2, strict);
    let b = skip_blanks(s, a + 4, strict);
    let ve = digits_end(s, b);
    let c0 = skip_blanks(s, ve + 1, strict);
    let ce = digits_end(s, c0);
    let t = skip_blanks(s, ce, strict);
    let body = if chr(s, t) == 13 { t + 2 } else { t + 1 };
    (num(s, b, ve), num(s, c0, ce), body)
}

/// The first new-line or carriage-return from `i` on (the end if none).
pub open spec fn line_break(s: Seq<u8>, i: int) -> int
    decreases s.len() - i,
{
    if i < 0 || i >= s.len() {
        s.len() as int
    } else if s[i] == 10 || s[i] == 13 {
        i
    } else {
        line_break(s, i + 1)
    }
}

/// A comment line in the header whose text starts at `i` ends with a
/// new-line, a carriage-return only directly before it.
pub open spec fn header_comment_ok(s: Seq<u8>, i: int) -> bool {
    let k = line_break(s, i);
    k < s.len() && (s[k] == 10 || chr(s, k + 1) == 10)
}

/// Whether the lines from `i` on up to the header line are empty lines
/// (not when parsing is pedantic) and comment lines, and the header line
/// starts with `p`.
pub open spec fn preamble_ok(s: Seq<u8>, i: int, strict: Strictness) -> bool
    decreases s.len() + 2 - i,
{
    if i < 0 || i >= s.len() {
        false
    } else if s[i] == 112 {
        true
    } else if s[i] == 13 {
        chr(s, i + 1) == 10 && strict != Strictness::PedanticParsing && preamble_ok(s, i + 2, strict)
    } else if s[i] == 10 {
        strict != Strictness::PedanticParsing && preamble_ok(s, i + 1, strict)
    } else if s[i] == 99 {
        header_comment_ok(s, i + 1) && i < after_newline(s, i + 1) <= s.len() && preamble_ok(s, after_newline(s, i + 1), strict)
    } else {
        false
    }
}

/// Whether the text starts with a well-formed header: the preamble, then
/// `p cnf <variables> <clauses>` (blanks allowed between the fields unless
/// parsing is pedantic, the maximum variable at most the largest one, the
/// clause count fitting in 64 bits) ended by a new-line.
pub open spec fn header_ok(s: Seq<u8>, strict: Strictness) -> bool {
    let p = header_start(s, 0);
    let a = skip_blanks(s, p + 2, strict);
    let b = skip_blanks(s, a + 4, strict);
    let ve = digits_end(s, b);
    let c0 = skip_blanks(s, ve + 1, strict);
    let ce = digits_end(s, c0);
    let t = skip_blanks(s, ce, strict);
    &&& preamble_ok(s, 0, strict)
    &&& chr(s, p + 1) == 32
    &&& chr(s, a) == 99 && chr(s, a + 1) == 110 && chr(s, a + 2) == 102 && chr(s, a + 3) == 32
    &&& is_digit(chr(s, b))
    &&& num(s, b, ve) <= EXTERNAL_MAX_VAR
    &&& chr(s, ve) == 32
    &&& is_digit(chr(s, c0))
    &&& num(s, c0, ce) <= u64::MAX
    &&& chr(s, ce) != -1
    &&& ((chr(s, t) == 13 && chr(s, t + 1) == 10) || chr(s, t) == 10)
}

/// The first error in the lines before the header line from `i` on, or
/// none; `first` tells whether nothing was read yet.
pub open spec fn preamble_error(s: Seq<u8>, i: int, strict: Strictness, first: bool) -> Option<&'static str>
    decreases s.len() + 2 - i,
{
    if i < 0 || i >= s.len() {
        if first { Some("empty file") } else { Some("end-of-file before header") }
    } else if s[i] == 112 {
        None
    } else if s[i] == 13 {
        if chr(s, i + 1) != 10 {
            Some("expected new-line after carriage-return")
        } else if strict == Strictness::PedanticParsing {
            Some("unexpected empty line")
        } else {
            preamble_error(s, i + 2, strict, false)
        }
    } else if s[i] == 10 {
        if strict == Strictness::PedanticParsing {
            Some("unexpected empty line")
        } else {
            preamble_error(s, i + 1, strict, false)
        }
    } else if s[i] == 99 {
        let k = line_break(s, i + 1);
        if k >= s.len() {
            Some("end-of-file in header comment")
        } else if s[k] == 13 && chr(s, k + 1) != 10 {
            Some("expected new-line after carriage-return")
        } else if i < after_newline(s, i + 1) <= s.len() {
            preamble_error(s, after_newline(s, i + 1), strict, false)
        } else {
            Some("end-of-file in header comment")
        }
    } else {
        Some("expected 'c' or 'p' at start of line")
    }
}

/// The first error in the header, or none.
pub open spec fn header_error(s: Seq<u8>, strict: Strictness) -> Option<&'static str> {
    let p = header_start(s, 0);
    let a = skip_blanks(s, p + 2, strict);
    let b = skip_blanks(s, a + 4, strict);
    let ve = digits_end(s, b);
    let c0 = skip_blanks(s, ve + 1, strict);
    let ce = digits_end(s, c0);
    let t = skip_blanks(s, ce, strict);
    if preamble_error(s, 0, strict, true) is Some {
        preamble_error(s, 0, strict, true)
    } else if chr(s, p + 1) != 32 {
        Some("expected space after 'p'")
    } else if chr(s, a) != 99 {
        Some("expected 'c' after 'p '")
    } else if chr(s, a + 1) != 110 {
        Some("expected 'n' after 'p c'")
    } else if chr(s, a + 2) != 102 {
        Some("expected 'n' after 'p cn'")
    } else if chr(s, a + 3) != 32 {
        Some("expected space after 'p cnf'")
    } else if !is_digit(chr(s, b)) {
        Some("expected digit after 'p cnf '")
    } else if num(s, b, ve) > EXTERNAL_MAX_VAR {
        Some("maximum variable too large")
    } else if chr(s, ve) == -1 {
        Some("unexpected end-of-file while parsing maximum variable")
    } else if chr(s, ve) == 13 && chr(s, ve + 1) != 10 {
        Some("expected new-line after carriage-return")
    } else if chr(s, ve) == 13 || chr(s, ve) == 10 {
        Some("unexpected new-line after maximum variable")
    } else if chr(s, ve) != 32 {
        Some("expected space after maximum variable")
    } else if !is_digit(chr(s, c0)) {
        Some("expected number of clauses after maximum variable")
    } else if num(s, c0, ce) > u64::MAX {
        Some("number of clauses too large")
    } else if chr(s, ce) == -1 {
        Some("unexpected end-of-file while parsing number of clauses")
    } else if chr(s, t) == 13 && chr(s, t + 1) != 10 {
        Some("expected new-line after carriage-return")
    } else if chr(s, t) == -1 {
        Some("unexpected end-of-file after parsing number of clauses")
    } else if chr(s, t) != 10 && chr(s, t) != 13 {
        Some("expected new-line after parsing number of clauses")
    } else {
        None
    }
}

/// The error parsing DIMACS text under `strict` gives, or none.
pub open spec fn dimacs_error(s: Seq<u8>, strict: Strictness) -> Option<&'static str> {
    let (v, c, body) = header_fields(s, strict);
    if header_error(s, strict) is Some { header_error(s, strict) } else { body_error(s, body, strict, v, c, 0, 0) }
}

/// The text is well-formed DIMACS exactly when parsing it gives no error.
proof fn lemma_dimacs_error(s: Seq<u8>, strict: Strictness)
    ensures
        dimacs_ok(s, strict) == (dimacs_error(s, strict) is None),
{
    lemma_preamble_error(s, 0, strict, true);
    let (v, c, body) = header_fields(s, strict);
    lemma_body_error(s, body, strict, v, c, 0, 0);
}

/// The clauses are well formed exactly when reading them gives no error.
proof fn lemma_body_error(s: Seq<u8>, i: int, strict: Strictness, vars: int, clauses: int, parsed: int, lit: int)
    ensures
        body_ok(s, i, strict, vars, clauses, parsed, lit) == (body_error(s, i, strict, vars, clauses, parsed, lit) is None),
    decreases s.len() + 2 - i,
{
    if 0 <= i < s.len() {
        let c = s[i] as int;
        if c == 32 || c == 9 || c == 10 {
            lemma_body_error(s, i + 1, strict, vars, clauses, parsed, lit);
        } else if c == 13 {
            lemma_body_error(s, i + 2, strict, vars, clauses, parsed, lit);
        } else if c == 99 {
            if nl_found(s, i + 1) && i < after_newline(s, i + 1) <= s.len() {
                lemma_body_error(s, after_newline(s, i + 1), strict, vars, clauses, parsed, lit);
            }
        } else if (c == 45 && is_digit(chr(s, i + 1)) && chr(s, i + 1) != 48) || (c != 45 && is_digit(c)) {
            let d0 = if c == 45 { i + 1 } else { i };
            let e = digits_end(s, d0);
            let v = num(s, d0, e);
            let t = chr(s, e);
            let n = if t == -1 {
                s.len() as int
            } else if t == 13 {
                e + 2
            } else if t == 99 {
                comment_next(s, e + 1)
            } else {
                e + 1
            };
            if i < n <= s.len() + 1 {
                lemma_body_error(s, n, strict, vars, clauses, if v == 0 { parsed + 1 } else { parsed },
                    if v == 0 { 0 } else if c == 45 { -v } else { v });
            }
        }
    }
}

proof fn lemma_line_break(s: Seq<u8>, i: int)
    ensures
        line_break(s, i) < s.len() ==> s[line_break(s, i)] == 10 || s[line_break(s, i)] == 13,
        line_break(s, i) >= 0,
    decreases s.len() - i,
{
    if 0 <= i < s.len() && !(s[i] == 10 || s[i] == 13) {
        lemma_line_break(s, i + 1);
    }
}

/// The preamble is well formed exactly when reading it gives no error.
proof fn lemma_preamble_error(s: Seq<u8>, i: int, strict: Strictness, first: bool)
    ensures
        preamble_ok(s, i, strict) == (preamble_error(s, i, strict, first) is None),
    decreases s.len() + 2 - i,
{
    if 0 <= i < s.len() {
        if s[i] == 13 {
            lemma_preamble_error(s, i + 2, strict, false);
        } else if s[i] == 10 {
            lemma_preamble_error(s, i + 1, strict, false);
        } else if s[i] == 99 {
            lemma_line_break(s, i + 1);
            if i < after_newline(s, i + 1) <= s.len() {
                lemma_preamble_error(s, after_newline(s, i + 1), strict, false);
            }
        }
    }
}

/// Whether the text is well-formed DIMACS under `strict`.
pub open spec fn dimacs_ok(s: Seq<u8>, strict: Strictness) -> bool {
    let (v, c, body) = header_fields(s, strict);
    header_ok(s, strict) && body_ok(s, body, strict, v, c, 0, 0)
}

/// Skips blanks from the character `ch` read at `q` on (unless parsing is
/// pedantic); returns the first other character.
fn skip_blank_chars(s: &[u8], pos: &mut usize, lineno: &mut u64, ch: i32, strict: Strictness, Ghost(q): Ghost<int>) -> (c: i32)
    requires
        reader_ok(s@, *old(pos) as int, *old(lineno) as int),
        0 <= q <= s@.len(),
        ch == chr(s@, q),
        *old(pos) == after(s@, q),
    ensures
        reader_ok(s@, *final(pos) as int, *final(lineno) as int),
        c == chr(s@, skip_blanks(s@, q, strict)),
        *final(pos) == after(s@, skip_blanks(s@, q, strict)),
        q <= skip_blanks(s@, q, strict) <= s@.len(),
{
    proof {
        lemma_skip_ws(s@, q);
    }
    if strict == Strictness::PedanticParsing {
        return ch;
    }
    let mut c = ch;
    let ghost mut i = q;
    while c == 32 || c == 9
        invariant
            reader_ok(s@, *pos as int, *lineno as int),
            q <= i <= s@.len(),
            skip_ws(s@, i) == skip_ws(s@, q),
            c == chr(s@, i),
            *pos == after(s@, i),
        decreases s@.len() - i,
    {
        c = next_char(s, pos, lineno);
        proof {
            i = i + 1;
        }
    }
    c
}

/// Skips the rest of a comment line in the header, up to and including
/// the new-line.
fn skip_header_comment(s: &[u8], pos: &mut usize, lineno: &mut u64) -> (r: Result<(), &'static str>)
    requires
        reader_ok(s@, *old(pos) as int, *old(lineno) as int),
    ensures
        reader_ok(s@, *final(pos) as int, *final(lineno) as int),
        r is Ok ==> *final(pos) == after_newline(s@, *old(pos) as int),
        r is Ok <==> header_comment_ok(s@, *old(pos) as int),
        r is Err ==> r->Err_0 == (if line_break(s@, *old(pos) as int) >= s@.len() { "end-of-file in header comment" } else { "expected new-line after carriage-return" }),
{
    loop
        invariant
            reader_ok(s@, *pos as int, *lineno as int),
            after_newline(s@, *pos as int) == after_newline(s@, *old(pos) as int),
            line_break(s@, *pos as int) == line_break(s@, *old(pos) as int),
        decreases s@.len() - *pos,
    {
        let ghost p0 = *pos as int;
        let ch = next_char(s, pos, lineno);
        if ch == 10 {
            return Ok(());
        }
        if ch == -1 {
            return Err("end-of-file in header comment");
        }
        if ch == 13 {
            let c2 = next_char(s, pos, lineno);
            if c2 != 10 {
                return Err("expected new-line after carriage-return");
            }
            proof {
                assert(after_newline(s@, p0) == after_newline(s@, p0 + 1));
                assert(after_newline(s@, p0 + 1) == p0 + 2);
            }
            return Ok(());
        }
    }
}

/// The header of the DIMACS text: empty and comment lines, then
/// `p cnf <variables> <clauses>`. On success the reader is at the first
/// clause. Errors give their message; `reported` is the line the caller
/// reports for them.
#[verifier::rlimit(80)]
fn parse_header(s: &[u8], pos: &mut usize, lineno: &mut u64, reported: &mut u64, strict: Strictness) -> (r: Result<(i32, u64), &'static str>)
    requires
        reader_ok(s@, *old(pos) as int, *old(lineno) as int),
        *old(pos) == 0,
    ensures
        r is Ok <==> header_ok(s@, strict),
        r is Err ==> Some(r->Err_0) == header_error(s@, strict),
        r is Ok ==> header_error(s@, strict) is None,
        r is Ok ==> {
            &&& reader_ok(s@, *final(pos) as int, *final(lineno) as int)
            &&& r->Ok_0.0 as int == header_fields(s@, strict).0
            &&& r->Ok_0.1 as int == header_fields(s@, strict).1
            &&& *final(pos) as int == header_fields(s@, strict).2
            &&& 0 <= r->Ok_0.0 <= EXTERNAL_MAX_VAR
            &&& *final(reported) == *old(reported)
        },
{
    let mut first = true;
    let mut ch: i32;
    loop
        invariant_except_break
            header_start(s@, *pos as int) == header_start(s@, 0),
            preamble_ok(s@, *pos as int, strict) == preamble_ok(s@, 0, strict),
            preamble_error(s@, *pos as int, strict, first) == preamble_error(s@, 0, strict, true),
        invariant
            reader_ok(s@, *pos as int, *lineno as int),
            *reported == *old(reported),
        ensures
            preamble_ok(s@, 0, strict),
            preamble_error(s@, 0, strict, true) is None,
            reader_ok(s@, *pos as int, *lineno as int),
            *pos >= 1,
            header_start(s@, 0) == *pos - 1,
            chr(s@, *pos - 1) == 112,
            *reported == *old(reported),
        decreases s@.len() - *pos,
    {
        let ghost p0 = *pos as int;
        ch = next_char(s, pos, lineno);
        if ch == 112 {
            break;
        }
        if ch == -1 {
            if first {
                return Err("empty file");
            } else {
                return Err("end-of-file before header");
            }
        }
        first = false;
        if ch == 13 {
            ch = next_char(s, pos, lineno);
            if ch != 10 {
                return Err("expected new-line after carriage-return");
            }
            if strict == Strictness::PedanticParsing {
                return Err(nonl("unexpected empty line", ch, lineno, reported).unwrap());
            }
        } else if ch == 10 {
            if strict == Strictness::PedanticParsing {
                return Err(nonl("unexpected empty line", ch, lineno, reported).unwrap());
            }
        } else if ch == 99 {
            match skip_header_comment(s, pos, lineno) {
                Ok(()) => {},
                Err(e) => {
                    proof {
                        lemma_line_break(s@, p0 + 1);
                    }
                    return Err(e);
                },
            }
            proof {
                lemma_after_newline(s@, p0 + 1);
            }
        } else {
            return Err("expected 'c' or 'p' at start of line");
        }
    }
    let ghost p = *pos - 1;
    ch = next_char(s, pos, lineno);
    if ch != 32 {
        return Err(nonl("expected space after 'p'", ch, lineno, reported).unwrap());
    }
    ch = next_char(s, pos, lineno);
    ch = skip_blank_chars(s, pos, lineno, ch, strict, Ghost(p + 2));
    let ghost a = skip_blanks(s@, p + 2, strict);
    if ch != 99 {
        return Err(nonl("expected 'c' after 'p '", ch, lineno, reported).unwrap());
    }
    ch = next_char(s, pos, lineno);
    if ch != 110 {
        return Err(nonl("expected 'n' after 'p c'", ch, lineno, reported).unwrap());
    }
    ch = next_char(s, pos, lineno);
    if ch != 102 {
        return Err(nonl("expected 'n' after 'p cn'", ch, lineno, reported).unwrap());
    }
    ch = next_char(s, pos, lineno);
    if ch != 32 {
        return Err(nonl("expected space after 'p cnf'", ch, lineno, reported).unwrap());
    }
    ch = next_char(s, pos, lineno);
    ch = skip_blank_chars(s, pos, lineno, ch, strict, Ghost(a + 4));
    let ghost b = skip_blanks(s@, a + 4, strict);
    if !faster_is_digit(ch) {
        return Err(nonl("expected digit after 'p cnf '", ch, lineno, reported).unwrap());
    }
    let variables: i32;
    match read_number(s, pos, lineno, ch, EXTERNAL_MAX_VAR as u64, Ghost(b)) {
        None => {
            return Err("maximum variable too large");
        },
        Some((v, c)) => {
            variables = v as i32;
            ch = c;
        },
    }
    let ghost ve = digits_end(s@, b);
    if ch == -1 {
        return Err("unexpected end-of-file while parsing maximum variable");
    }
    if ch == 13 {
        ch = next_char(s, pos, lineno);
        if ch != 10 {
            return Err("expected new-line after carriage-return");
        }
    }
    if ch == 10 {
        return Err(nonl("unexpected new-line after maximum variable", ch, lineno, reported).unwrap());
    }
    if ch != 32 {
        return Err("expected space after maximum variable");
    }
    ch = next_char(s, pos, lineno);
    ch = skip_blank_chars(s, pos, lineno, ch, strict, Ghost(ve + 1));
    let ghost c0 = skip_blanks(s@, ve + 1, strict);
    if !faster_is_digit(ch) {
        return Err("expected number of clauses after maximum variable");
    }
    let clauses: u64;
    match read_number(s, pos, lineno, ch, u64::MAX, Ghost(c0)) {
        None => {
            return Err("number of clauses too large");
        },
        Some((v, c)) => {
            clauses = v;
            ch = c;
        },
    }
    let ghost ce = digits_end(s@, c0);
    if ch == -1 {
        return Err("unexpected end-of-file while parsing number of clauses");
    }
    ch = skip_blank_chars(s, pos, lineno, ch, strict, Ghost(ce));
    let ghost t = skip_blanks(s@, ce, strict);
    if ch == 13 {
        ch = next_char(s, pos, lineno);
        if ch != 10 {
            return Err("expected new-line after carriage-return");
        }
    }
    if ch == -1 {
        return Err("unexpected end-of-file after parsing number of clauses");
    }
    if ch != 10 {
        return Err("expected new-line after parsing number of clauses");
    }
    Ok((variables, clauses))
}


/// The literals of the clauses from `i` on: blanks, new-lines and comment
/// lines are skipped; a literal is an optional `-` and digits, and a
/// comment may follow it directly.
pub open spec fn tokens(s: Seq<u8>, i: int) -> Seq<int>
    decreases s.len() + 2 - i,
{
    if i < 0 || i >= s.len() {
        Seq::empty()
    } else {
        let c = s[i];
        if c == 32 || c == 9 || c == 10 {
            tokens(s, i + 1)
        } else if c == 13 {
            tokens(s, i + 2)
        } else if c == 99 {
            let j = after_newline(s, i + 1);
            if j <= i || j > s.len() { Seq::empty() } else { tokens(s, j) }
        } else {
            let d0 = if c == 45 { i + 1 } else { i };
            let e = digits_end(s, d0);
            let v = num(s, d0, e);
            let l = if c == 45 { -v } else { v };
            let n = if chr(s, e) == 99 {
                after_newline(s, e + 1)
            } else if chr(s, e) == 13 {
                e + 2
            } else {
                e + 1
            };
            if n <= i || n > s.len() + 1 { seq![l] } else { seq![l] + tokens(s, n) }
        }
    }
}

/// The number of zeros, that is of clauses ended.
pub open spec fn zeros(lits: Seq<i32>) -> int
    decreases lits.len(),
{
    if lits.len() == 0 {
        0
    } else {
        zeros(lits.drop_last()) + if lits.last() == 0 { 1int } else { 0int }
    }
}

/// The literals as integers.
pub open spec fn as_ints(lits: Seq<i32>) -> Seq<int> {
    lits.map_values(|l: i32| l as int)
}

/// What parsing DIMACS text gives: an error message or none, the line
/// reported with it (the last line on success), the maximum variable of
/// the header once it was read, and the literals of the clauses read, each
/// clause ended by a zero.
pub struct DimacsParse {
    pub error: Option<&'static str>,
    pub lineno: u64,
    pub max_var: Option<i32>,
    pub lits: Vec<i32>,
}

/// A new-line follows at or after `i`.
pub open spec fn nl_found(s: Seq<u8>, i: int) -> bool {
    after_newline(s, i) > i && chr(s, after_newline(s, i) - 1) == 10
}

/// Where reading goes on after a comment whose text starts at `i`: after
/// its new-line, or at the end of the text.
pub open spec fn comment_next(s: Seq<u8>, i: int) -> int {
    if nl_found(s, i) { after_newline(s, i) } else { s.len() as int }
}

/// The text after the header is over: the last clause is ended and,
/// unless parsing is relaxed, all announced clauses are there.
pub open spec fn body_end_ok(strict: Strictness, clauses: int, parsed: int, lit: int) -> bool {
    &&& lit == 0
    &&& (strict == Strictness::RelaxedParsing || parsed >= clauses)
}

/// The error at the end of the clauses, if any: the last clause is not
/// ended, or (unless parsing is relaxed) clauses are missing.
pub open spec fn body_end_error(strict: Strictness, clauses: int, parsed: int, lit: int) -> Option<&'static str> {
    if lit != 0 {
        Some("trailing zero missing")
    } else if strict != Strictness::RelaxedParsing && parsed < clauses {
        if parsed + 1 == clauses {
            Some("one clause missing (try '--relaxed' parsing)")
        } else {
            Some("more than one clause missing (try '--relaxed' parsing)")
        }
    } else {
        None
    }
}

/// The first error in the clauses from `i` on, or none: the message the
/// reader gives for the first malformed place, reading as `body_ok`
/// describes.
pub open spec fn body_error(s: Seq<u8>, i: int, strict: Strictness, vars: int, clauses: int, parsed: int, lit: int) -> Option<&'static str>
    decreases s.len() + 2 - i,
{
    if i < 0 || i >= s.len() {
        body_end_error(strict, clauses, parsed, lit)
    } else {
        let c = s[i] as int;
        if c == 32 || c == 9 || c == 10 {
            body_error(s, i + 1, strict, vars, clauses, parsed, lit)
        } else if c == 13 {
            if chr(s, i + 1) != 10 {
                Some("expected new-line after carriage-return")
            } else {
                body_error(s, i + 2, strict, vars, clauses, parsed, lit)
            }
        } else if c == 99 {
            if nl_found(s, i + 1) {
                if i < after_newline(s, i + 1) <= s.len() {
                    body_error(s, after_newline(s, i + 1), strict, vars, clauses, parsed, lit)
                } else {
                    Some("unexpected end-of-file in comment after header")
                }
            } else if strict == Strictness::PedanticParsing {
                Some("unexpected end-of-file in comment after header")
            } else {
                body_end_error(strict, clauses, parsed, lit)
            }
        } else if c == 45 && chr(s, i + 1) == -1 {
            Some("unexpected end-of-file after '-'")
        } else if c == 45 && chr(s, i + 1) == 10 {
            Some("unexpected new-line after '-'")
        } else if c == 45 && !is_digit(chr(s, i + 1)) {
            Some("expected digit after '-'")
        } else if c == 45 && chr(s, i + 1) == 48 {
            Some("expected non-zero digit after '-'")
        } else if c != 45 && !is_digit(c) {
            Some("expected digit or '-'")
        } else {
            let d0 = if c == 45 { i + 1 } else { i };
            let e = digits_end(s, d0);
            let v = num(s, d0, e);
            let t = chr(s, e);
            let n = if t == -1 {
                s.len() as int
            } else if t == 13 {
                e + 2
            } else if t == 99 {
                comment_next(s, e + 1)
            } else {
                e + 1
            };
            if v > EXTERNAL_MAX_VAR {
                Some("variable index too large")
            } else if t == -1 && strict == Strictness::PedanticParsing {
                if v != 0 {
                    Some("unexpected end-of-file after literal")
                } else {
                    Some("unexpected end-of-file after trailing zero")
                }
            } else if t == 13 && chr(s, e + 1) != 10 {
                Some("expected new-line after carriage-return")
            } else if t == 99 && !nl_found(s, e + 1) && strict == Strictness::PedanticParsing {
                Some("unexpected end-of-file in comment after literal")
            } else if t != -1 && t != 13 && t != 99 && t != 32 && t != 9 && t != 10 {
                Some("expected white space after literal")
            } else if strict != Strictness::RelaxedParsing && v > vars {
                Some("maximum variable index exceeded (try '--relaxed' parsing)")
            } else if v == 0 && strict != Strictness::RelaxedParsing && parsed >= clauses {
                Some("too many clauses (try '--relaxed' parsing)")
            } else if i < n <= s.len() + 1 {
                body_error(s, n, strict, vars, clauses, if v == 0 { parsed + 1 } else { parsed },
                    if v == 0 { 0 } else if c == 45 { -v } else { v })
            } else {
                Some("expected white space after literal")
            }
        }
    }
}

/// Whether the clauses from `i` on are well formed, given the header's
/// maximum variable and clause count, the clauses ended so far and the
/// last literal read: blanks, new-lines (a carriage-return only before a
/// new-line) and comment lines between literals; a literal is a number of
/// at most the largest variable, negated by `-` before a non-zero digit,
/// followed by a blank, a new-line, a comment or (unless parsing is
/// pedantic) the end; unless parsing is relaxed, no variable exceeds the
/// maximum and no more clauses than announced are ended.
pub open spec fn body_ok(s: Seq<u8>, i: int, strict: Strictness, vars: int, clauses: int, parsed: int, lit: int) -> bool
    decreases s.len() + 2 - i,
{
    if i < 0 || i >= s.len() {
        body_end_ok(strict, clauses, parsed, lit)
    } else {
        let c = s[i] as int;
        if c == 32 || c == 9 || c == 10 {
            body_ok(s, i + 1, strict, vars, clauses, parsed, lit)
        } else if c == 13 {
            chr(s, i + 1) == 10 && body_ok(s, i + 2, strict, vars, clauses, parsed, lit)
        } else if c == 99 {
            if nl_found(s, i + 1) {
                i < after_newline(s, i + 1) <= s.len() && body_ok(s, after_newline(s, i + 1), strict, vars, clauses, parsed, lit)
            } else {
                strict != Strictness::PedanticParsing && body_end_ok(strict, clauses, parsed, lit)
            }
        } else if c == 45 && !(is_digit(chr(s, i + 1)) && chr(s, i + 1) != 48) {
            false
        } else if c != 45 && !is_digit(c) {
            false
        } else {
            let d0 = if c == 45 { i + 1 } else { i };
            let e = digits_end(s, d0);
            let v = num(s, d0, e);
            let t = chr(s, e);
            let n = if t == -1 {
                s.len() as int
            } else if t == 13 {
                e + 2
            } else if t == 99 {
                comment_next(s, e + 1)
            } else {
                e + 1
            };
            let well_ended = if t == -1 {
                strict != Strictness::PedanticParsing
            } else if t == 13 {
                chr(s, e + 1) == 10
            } else if t == 99 {
                nl_found(s, e + 1) || strict != Strictness::PedanticParsing
            } else {
                t == 32 || t == 9 || t == 10
            };
            &&& v <= EXTERNAL_MAX_VAR
            &&& well_ended
            &&& (strict == Strictness::RelaxedParsing || v <= vars)
            &&& (v == 0 ==> strict == Strictness::RelaxedParsing || parsed < clauses)
            &&& i < n <= s.len() + 1
            &&& body_ok(s, n, strict, vars, clauses, if v == 0 { parsed + 1 } else { parsed },
                if v == 0 { 0 } else if c == 45 { -v } else { v })
        }
    }
}

/// Skips a comment after the header up to and including its new-line;
/// the end of the text ends it too unless parsing is pedantic. Returns the
/// last character read.
fn skip_body_comment(s: &[u8], pos: &mut usize, lineno: &mut u64, strict: Strictness, msg: &'static str) -> (r: Result<i32, &'static str>)
    requires
        reader_ok(s@, *old(pos) as int, *old(lineno) as int),
    ensures
        reader_ok(s@, *final(pos) as int, *final(lineno) as int),
        r is Ok ==> *final(pos) == after_newline(s@, *old(pos) as int),
        r is Ok ==> r->Ok_0 == 10 || (r->Ok_0 == -1 && *final(pos) == s@.len()),
        r is Ok <==> nl_found(s@, *old(pos) as int) || strict != Strictness::PedanticParsing,
        r is Ok ==> (r->Ok_0 == 10 <==> nl_found(s@, *old(pos) as int)),
        r is Err ==> r->Err_0 == msg,
{
    loop
        invariant
            reader_ok(s@, *pos as int, *lineno as int),
            after_newline(s@, *pos as int) == after_newline(s@, *old(pos) as int),
            *old(pos) <= *pos,
            forall|j: int| *old(pos) <= j < *pos ==> s@[j] != 10,
        decreases s@.len() - *pos,
    {
        let ghost p0 = *pos as int;
        let ch = next_char(s, pos, lineno);
        if ch == 10 {
            return Ok(ch);
        }
        if ch == -1 {
            if strict != Strictness::PedanticParsing {
                return Ok(ch);
            }
            return Err(msg);
        }
    }
}

/// Parses DIMACS text: the header, then the literals of the clauses, each
/// clause ended by a zero. Unless parsing is relaxed, variables beyond the
/// header's maximum and more or fewer clauses than it announces are
/// errors. Parsing succeeds exactly on well-formed text (`dimacs_ok`), and
/// the error is the one `dimacs_error` names for the first malformed
/// place. On success the literals are those of the text after the header,
/// the last is a zero, and the line is the last one.
#[verifier::rlimit(100)]
pub fn parse_dimacs(s: &[u8], strict: Strictness) -> (r: DimacsParse)
    requires
        s@.len() < u64::MAX,
    ensures
        r.error == dimacs_error(s@, strict),
        r.error is None <==> dimacs_ok(s@, strict),
        r.error is None ==> {
            let (v, c, body) = header_fields(s@, strict);
            &&& r.max_var == Some(v as i32)
            &&& 0 <= v <= EXTERNAL_MAX_VAR
            &&& as_ints(r.lits@) == tokens(s@, body)
            &&& r.lits@.len() > 0 ==> r.lits@.last() == 0
            &&& r.lineno == 1 + count_nl(s@, s@.len() as int)
            &&& strict != Strictness::RelaxedParsing ==> {
                &&& zeros(r.lits@) == c
                &&& forall|i: int| 0 <= i < r.lits@.len() ==> -v <= #[trigger] r.lits@[i] <= v
            }
        },
{
    proof {
        lemma_dimacs_error(s@, strict);
    }
    let mut pos: usize = 0;
    let mut lineno: u64 = 1;
    let mut reported: u64 = 1;
    let mut lits: Vec<i32> = Vec::new();
    let (variables, clauses) = match parse_header(s, &mut pos, &mut lineno, &mut reported, strict) {
        Ok(h) => h,
        Err(e) => {
            return DimacsParse { error: Some(e), lineno: reported, max_var: None, lits };
        },
    };
    let ghost body = pos as int;
    let mut parsed: u64 = 0;
    let mut lit: i32 = 0;
    loop
        invariant_except_break
            pos <= s@.len(),
        invariant
            reader_ok(s@, pos as int, lineno as int),
            0 <= variables <= EXTERNAL_MAX_VAR,
            variables as int == header_fields(s@, strict).0,
            clauses as int == header_fields(s@, strict).1,
            body == header_fields(s@, strict).2,
            as_ints(lits@) + tokens(s@, pos as int) == tokens(s@, body),
            parsed as int == zeros(lits@),
            header_ok(s@, strict),
            header_error(s@, strict) is None,
            dimacs_ok(s@, strict) == (dimacs_error(s@, strict) is None),
            body_error(s@, pos as int, strict, variables as int, clauses as int, parsed as int, lit as int)
                == body_error(s@, body, strict, variables as int, clauses as int, 0, 0),
            parsed <= pos,
            lits@.len() > 0 ==> lits@.last() == lit,
            lits@.len() == 0 ==> lit == 0,
            strict != Strictness::RelaxedParsing ==> parsed <= clauses,
            strict != Strictness::RelaxedParsing ==> forall|i: int| 0 <= i < lits@.len() ==> -variables <= #[trigger] lits@[i] <= variables,
        ensures
            pos == s@.len(),
            tokens(s@, pos as int) == Seq::<int>::empty(),
        decreases s@.len() - pos,
    {
        let ghost q = pos as int;
        let mut ch = next_char(s, &mut pos, &mut lineno);
        if ch == 32 || ch == 9 || ch == 10 {
            continue;
        }
        if ch == 13 {
            ch = next_char(s, &mut pos, &mut lineno);
            if ch != 10 {
                return DimacsParse { error: Some("expected new-line after carriage-return"), lineno: reported, max_var: Some(variables), lits };
            }
            continue;
        }
        if ch == 99 {
            match skip_body_comment(s, &mut pos, &mut lineno, strict, "unexpected end-of-file in comment after header") {
                Ok(c) => {
                    ch = c;
                },
                Err(e) => {
                    return DimacsParse { error: Some(e), lineno: reported, max_var: Some(variables), lits };
                },
            }
            proof {
                lemma_after_newline(s@, q + 1);
            }
            if ch == -1 {
                break;
            }
            continue;
        }
        if ch == -1 {
            break;
        }
        let sign: i32;
        let ghost d0: int;
        if ch == 45 {
            ch = next_char(s, &mut pos, &mut lineno);
            if ch == -1 {
                return DimacsParse { error: Some("unexpected end-of-file after '-'"), lineno: reported, max_var: Some(variables), lits };
            }
            if ch == 10 {
                let e = nonl("unexpected new-line after '-'", ch, &mut lineno, &mut reported);
                return DimacsParse { error: e, lineno: reported, max_var: Some(variables), lits };
            }
            if !faster_is_digit(ch) {
                return DimacsParse { error: Some("expected digit after '-'"), lineno: reported, max_var: Some(variables), lits };
            }
            if ch == 48 {
                return DimacsParse { error: Some("expected non-zero digit after '-'"), lineno: reported, max_var: Some(variables), lits };
            }
            sign = -1;
            proof {
                d0 = q + 1;
            }
        } else if !faster_is_digit(ch) {
            return DimacsParse { error: Some("expected digit or '-'"), lineno: reported, max_var: Some(variables), lits };
        } else {
            sign = 1;
            proof {
                d0 = q;
            }
        }
        let idx: i32;
        match read_number(s, &mut pos, &mut lineno, ch, EXTERNAL_MAX_VAR as u64, Ghost(d0)) {
            None => {
                return DimacsParse { error: Some("variable index too large"), lineno: reported, max_var: Some(variables), lits };
            },
            Some((v, c)) => {
                idx = v as i32;
                ch = c;
            },
        }
        let ghost e = digits_end(s@, d0);
        proof {
            lemma_digits_end(s@, d0);
        }
        if ch == -1 {
            if strict == Strictness::PedanticParsing {
                if idx != 0 {
                    return DimacsParse { error: Some("unexpected end-of-file after literal"), lineno: reported, max_var: Some(variables), lits };
                } else {
                    return DimacsParse { error: Some("unexpected end-of-file after trailing zero"), lineno: reported, max_var: Some(variables), lits };
                }
            }
        } else if ch == 13 {
            ch = next_char(s, &mut pos, &mut lineno);
            if ch != 10 {
                return DimacsParse { error: Some("expected new-line after carriage-return"), lineno: reported, max_var: Some(variables), lits };
            }
        } else if ch == 99 {
            match skip_body_comment(s, &mut pos, &mut lineno, strict, "unexpected end-of-file in comment after literal") {
                Ok(c) => {
                    ch = c;
                },
                Err(m) => {
                    return DimacsParse { error: Some(m), lineno: reported, max_var: Some(variables), lits };
                },
            }
            proof {
                lemma_after_newline(s@, e + 1);
            }
        } else if ch != 32 && ch != 9 && ch != 10 {
            return DimacsParse { error: Some("expected white space after literal"), lineno: reported, max_var: Some(variables), lits };
        }
        if strict != Strictness::RelaxedParsing && idx > variables {
            let m = nonl("maximum variable index exceeded (try '--relaxed' parsing)", ch, &mut lineno, &mut reported);
            return DimacsParse { error: m, lineno: reported, max_var: Some(variables), lits };
        }
        if idx != 0 {
            lit = sign * idx;
        } else {
            if strict != Strictness::RelaxedParsing && parsed == clauses {
                return DimacsParse { error: Some("too many clauses (try '--relaxed' parsing)"), lineno: reported, max_var: Some(variables), lits };
            }
            parsed = parsed + 1;
            lit = 0;
        }
        let ghost l0 = lits@;
        lits.push(lit);
        proof {
            let n = if chr(s@, e) == 99 {
                after_newline(s@, e + 1)
            } else if chr(s@, e) == 13 {
                e + 2
            } else {
                e + 1
            };
            assert(tokens(s@, q) == seq![lit as int] + tokens(s@, n));
            assert(tokens(s@, n) == tokens(s@, pos as int));
            assert(as_ints(lits@) =~= as_ints(l0).push(lit as int));
            assert(lits@.drop_last() =~= l0);
        }
    }
    if lit != 0 {
        return DimacsParse { error: Some("trailing zero missing"), lineno: reported, max_var: Some(variables), lits };
    }
    if strict != Strictness::RelaxedParsing && parsed < clauses {
        if parsed + 1 == clauses {
            return DimacsParse { error: Some("one clause missing (try '--relaxed' parsing)"), lineno: reported, max_var: Some(variables), lits };
        }
        return DimacsParse { error: Some("more than one clause missing (try '--relaxed' parsing)"), lineno: reported, max_var: Some(variables), lits };
    }
    proof {
        assert(as_ints(lits@) =~= tokens(s@, body));
    }
    DimacsParse { error: None, lineno, max_var: Some(variables), lits }
}

} // verus!
