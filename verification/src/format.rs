//! Formatting of counts, option values, byte sizes, sign vectors and
//! ordinals, with a ring of the most recently formatted strings.
use vstd::prelude::*;
use vstd::string::StringExecFns;
use crate::text::{decimal, push_decimal, push_char, push_str};

verus! {

pub const NUM_FORMAT_STRINGS: usize = 16;
pub const FORMAT_STRING_SIZE: usize = 128;

/// The ring of formatted strings and the slot written next.
pub struct Format {
    pub pos: usize,
    pub str_: Vec<String>,
}

impl Format {
    /// The ring has its slots and the position is one of them.
    pub open spec fn wf(&self) -> bool {
        &&& self.pos < NUM_FORMAT_STRINGS
        &&& self.str_@.len() == NUM_FORMAT_STRINGS
    }
}

impl Default for Format {
    /// Sixteen empty slots, writing at the first.
    fn default() -> (r: Format)
        ensures
            r.wf(),
            r.pos == 0,
            forall|i: int| 0 <= i < NUM_FORMAT_STRINGS ==> (#[trigger] r.str_@[i])@ == Seq::<char>::empty(),
    {
        let mut str_: Vec<String> = Vec::new();
        let mut i: usize = 0;
        while i < NUM_FORMAT_STRINGS
            invariant
                i <= NUM_FORMAT_STRINGS,
                str_@.len() == i,
                forall|j: int| 0 <= j < i ==> (#[trigger] str_@[j])@ == Seq::<char>::empty(),
            decreases NUM_FORMAT_STRINGS - i,
        {
            str_.push(String::new());
            i += 1;
        }
        Format { pos: 0, str_ }
    }
}

/// Whether `w` is a power of two.
pub open spec fn is_pow2(w: nat) -> bool
    decreases w,
{
    if w == 0 {
        false
    } else if w == 1 {
        true
    } else {
        w % 2 == 0 && is_pow2(w / 2)
    }
}

/// The binary logarithm, rounded down.
pub open spec fn log2(w: nat) -> nat
    decreases w,
{
    if w <= 1 { 0 } else { 1 + log2(w / 2) }
}

/// `w` with its trailing decimal zeros removed, and their number.
pub open spec fn strip_tens(w: nat) -> (nat, nat)
    decreases w,
{
    if w != 0 && w % 10 == 0 {
        let (m, z) = strip_tens(w / 10);
        (m, z + 1)
    } else {
        (w, 0)
    }
}

/// How a count is written: powers of two from 128 on as `2^N`, multiples
/// of 1000 as `<m>e<z>` with all trailing zeros moved into the exponent,
/// anything else in decimal.
pub open spec fn count_text(w: nat) -> Seq<char> {
    if w >= 128 && is_pow2(w) {
        seq!['2', '^'] + decimal(log2(w))
    } else if w >= 1000 && w % 1000 == 0 {
        decimal(strip_tens(w).0) + seq!['e'] + decimal(strip_tens(w).1)
    } else {
        decimal(w)
    }
}

/// How an option value is written.
pub open spec fn value_text(boolean: bool, value: i32) -> Seq<char> {
    if boolean && value != 0 {
        "true"@
    } else if boolean {
        "false"@
    } else if value == i32::MAX {
        "INT_MAX"@
    } else if value == i32::MIN {
        "INT_MIN"@
    } else if value < 0 {
        seq!['-'] + count_text((-value) as nat)
    } else {
        count_text(value as nat)
    }
}

/// Whether `value` is written without using the ring.
pub open spec fn value_is_constant(boolean: bool, value: i32) -> bool {
    boolean || value == i32::MAX || value == i32::MIN
}

/// A byte size, with kilo-, mega- or gigabytes rounded to nearest.
pub open spec fn bytes_text(bytes: nat) -> Seq<char> {
    if bytes < 0x400 {
        decimal(bytes) + " bytes"@
    } else if bytes < 0x10_0000 {
        decimal(bytes) + " bytes ("@ + decimal((bytes + 0x200) / 0x400) + " KB)"@
    } else if bytes < 0x4000_0000 {
        decimal(bytes) + " bytes ("@ + decimal((bytes + 0x8_0000) / 0x10_0000) + " MB)"@
    } else {
        decimal(bytes) + " bytes ("@ + decimal((bytes + 0x2000_0000) / 0x4000_0000) + " GB)"@
    }
}

/// The sign character of position `i`: bit `i` of `signs`.
pub open spec fn sign_char(signs: u64, i: int) -> char {
    if i < 64 && (signs >> (i as u64)) & 1 == 1 { '1' } else { '0' }
}

/// The ordinal suffix of `n`.
pub open spec fn ordinal_suffix(n: nat) -> Seq<char> {
    let m = n % 100;
    if 10 <= m <= 19 {
        "th"@
    } else if m % 10 == 1 {
        "st"@
    } else if m % 10 == 2 {
        "nd"@
    } else if m % 10 == 3 {
        "rd"@
    } else {
        "th"@
    }
}

proof fn lemma_pow2_bits(w: u64)
    ensures
        (w != 0 && w & ((w - 1) as u64) == 0) == is_pow2(w as nat),
    decreases w,
{
    if w == 0 {
    } else if w == 1 {
        assert(1u64 & ((1u64 - 1) as u64) == 0) by (bit_vector);
    } else if w % 2 == 0 {
        assert((w & ((w - 1) as u64) == 0) == ((w / 2) & ((w / 2 - 1) as u64) == 0)) by (bit_vector)
            requires
                w % 2 == 0,
                w >= 2,
        ;
        lemma_pow2_bits(w / 2);
    } else {
        assert(w & ((w - 1) as u64) != 0) by (bit_vector)
            requires
                w % 2 == 1,
                w > 1,
        ;
    }
}

/// Whether `w` is a power of two.
pub fn is_power_of_two(w: u64) -> (r: bool)
    ensures
        r == is_pow2(w as nat),
{
    proof {
        lemma_pow2_bits(w);
    }
    w != 0 && (w & w.wrapping_sub(1)) == 0
}

/// Advances the ring and returns the slot to write into.
pub fn next_format_string(format: &mut Format) -> (r: usize)
    requires
        old(format).pos < usize::MAX,
    ensures
        r == old(format).pos,
        final(format).pos == (if old(format).pos + 1 == NUM_FORMAT_STRINGS { 0 } else { old(format).pos + 1 }),
        final(format).str_ == old(format).str_,
{
    let res = format.pos;
    format.pos += 1;
    if format.pos == NUM_FORMAT_STRINGS {
        format.pos = 0;
    }
    res
}

/// Writes a count (see `count_text`).
pub fn format_count_str(w: u64) -> (r: String)
    ensures
        r@ == count_text(w as nat),
{
    let mut res = String::new();
    if w >= 128 && is_power_of_two(w) {
        let mut v = w;
        let mut l: u64 = 0;
        proof {
            lemma_log2_le(w as nat);
        }
        while v != 1
            invariant
                is_pow2(v as nat),
                log2(w as nat) == log2(v as nat) + l,
                log2(w as nat) <= w,
            decreases v,
        {
            assert(log2(v as nat) == 1 + log2((v / 2) as nat));
            v = v / 2;
            l += 1;
        }
        push_char(&mut res, '2');
        push_char(&mut res, '^');
        push_decimal(&mut res, l);
        assert(res@ =~= seq!['2', '^'] + decimal(log2(w as nat)));
    } else if w >= 1000 && w % 1000 == 0 {
        let mut v = w;
        let mut l: u64 = 0;
        proof {
            lemma_strip_tens_le(w as nat);
        }
        while v % 10 == 0
            invariant
                v != 0,
                strip_tens(w as nat).0 == strip_tens(v as nat).0,
                strip_tens(w as nat).1 == strip_tens(v as nat).1 + l,
                strip_tens(w as nat).1 <= w,
            decreases v,
        {
            v = v / 10;
            l += 1;
        }
        push_decimal(&mut res, v);
        push_char(&mut res, 'e');
        push_decimal(&mut res, l);
        assert(res@ =~= decimal(strip_tens(w as nat).0) + seq!['e'] + decimal(strip_tens(w as nat).1));
    } else {
        push_decimal(&mut res, w);
        assert(res@ =~= decimal(w as nat));
    }
    res
}

proof fn lemma_log2_le(w: nat)
    ensures
        log2(w) <= w,
    decreases w,
{
    if w > 1 {
        lemma_log2_le(w / 2);
    }
}

proof fn lemma_strip_tens_le(w: nat)
    ensures
        strip_tens(w).1 <= w,
    decreases w,
{
    if w != 0 && w % 10 == 0 {
        lemma_strip_tens_le(w / 10);
    }
}

/// Writes an option value (see `value_text`) without touching a ring.
pub fn format_value_str(boolean: bool, value: i32) -> (r: String)
    ensures
        r@ == value_text(boolean, value),
{
    if boolean && value != 0 {
        return String::from_str("true");
    }
    if boolean {
        return String::from_str("false");
    }
    if value == i32::MAX {
        return String::from_str("INT_MAX");
    }
    if value == i32::MIN {
        return String::from_str("INT_MIN");
    }
    if value < 0 {
        let mut res = String::new();
        push_char(&mut res, '-');
        let w: u64 = (-(value as i64)) as u64;
        let count = format_count_str(w);
        push_str(&mut res, count.as_str());
        assert(res@ =~= seq!['-'] + count_text((-value) as nat));
        res
    } else {
        format_count_str(value as u64)
    }
}

/// Stores `s` in ring slot `i` and returns a copy of it.
fn store(format: &mut Format, i: usize, s: String) -> (r: String)
    requires
        old(format).wf(),
        i < NUM_FORMAT_STRINGS,
    ensures
        r@ == s@,
        final(format).pos == old(format).pos,
        final(format).str_@ == old(format).str_@.update(i as int, s),
{
    let r = s.clone();
    format.str_.set(i, s);
    r
}

/// Writes a count into the next ring slot and returns it.
pub fn format_count(format: &mut Format, w: u64) -> (r: String)
    requires
        old(format).wf(),
    ensures
        final(format).wf(),
        r@ == count_text(w as nat),
        final(format).pos == (old(format).pos + 1) % (NUM_FORMAT_STRINGS as int),
        final(format).str_@.len() == NUM_FORMAT_STRINGS,
        final(format).str_@[old(format).pos as int]@ == r@,
        forall|j: int| 0 <= j < NUM_FORMAT_STRINGS && j != old(format).pos ==> #[trigger] final(format).str_@[j] == old(format).str_@[j],
{
    let i = next_format_string(format);
    let s = format_count_str(w);
    store(format, i, s)
}

/// Writes an option value; the constant texts leave the ring untouched.
pub fn format_value(format: &mut Format, boolean: bool, value: i32) -> (r: String)
    requires
        old(format).wf(),
    ensures
        final(format).wf(),
        r@ == value_text(boolean, value),
        value_is_constant(boolean, value) ==> *final(format) == *old(format),
        !value_is_constant(boolean, value) ==> {
            &&& final(format).pos == (old(format).pos + 1) % (NUM_FORMAT_STRINGS as int)
            &&& final(format).str_@[old(format).pos as int]@ == r@
            &&& forall|j: int| 0 <= j < NUM_FORMAT_STRINGS && j != old(format).pos ==> #[trigger] final(format).str_@[j] == old(format).str_@[j]
        },
{
    if boolean || value == i32::MAX || value == i32::MIN {
        return format_value_str(boolean, value);
    }
    let i = next_format_string(format);
    let s = format_value_str(boolean, value);
    store(format, i, s)
}

/// Writes a byte size into the next ring slot and returns it.
pub fn format_bytes(format: &mut Format, bytes: u64) -> (r: String)
    requires
        old(format).wf(),
        bytes <= u64::MAX - 0x2000_0000,
    ensures
        final(format).wf(),
        r@ == bytes_text(bytes as nat),
        final(format).pos == (old(format).pos + 1) % (NUM_FORMAT_STRINGS as int),
        final(format).str_@[old(format).pos as int]@ == r@,
        forall|j: int| 0 <= j < NUM_FORMAT_STRINGS && j != old(format).pos ==> #[trigger] final(format).str_@[j] == old(format).str_@[j],
{
    let i = next_format_string(format);
    let mut s = String::new();
    push_decimal(&mut s, bytes);
    if bytes < 0x400u64 {
        push_str(&mut s, " bytes");
    } else if bytes < 0x10_0000u64 {
        push_str(&mut s, " bytes (");
        push_decimal(&mut s, (bytes + 0x200u64) >> 10);
        push_str(&mut s, " KB)");
    } else if bytes < 0x4000_0000u64 {
        push_str(&mut s, " bytes (");
        push_decimal(&mut s, (bytes + 0x8_0000u64) >> 20);
        push_str(&mut s, " MB)");
    } else {
        push_str(&mut s, " bytes (");
        push_decimal(&mut s, (bytes + 0x2000_0000u64) >> 30);
        push_str(&mut s, " GB)");
    }
    proof {
        let b = bytes;
        assert(forall|x: u64| #[trigger] (x >> 10u64) == x / 0x400) by (bit_vector);
        assert(forall|x: u64| #[trigger] (x >> 20u64) == x / 0x10_0000) by (bit_vector);
        assert(forall|x: u64| #[trigger] (x >> 30u64) == x / 0x4000_0000) by (bit_vector);
        assert(s@ =~= bytes_text(b as nat));
    }
    store(format, i, s)
}

/// Writes the lowest `size` bits of `signs`, least significant first, as
/// `0` and `1` into the next ring slot and returns them.
pub fn format_signs(format: &mut Format, size: u32, signs: u64) -> (r: String)
    requires
        old(format).wf(),
        size + 1 < FORMAT_STRING_SIZE,
    ensures
        final(format).wf(),
        r@ == Seq::new(size as nat, |i: int| sign_char(signs, i)),
        final(format).pos == (old(format).pos + 1) % (NUM_FORMAT_STRINGS as int),
        final(format).str_@[old(format).pos as int]@ == r@,
        forall|j: int| 0 <= j < NUM_FORMAT_STRINGS && j != old(format).pos ==> #[trigger] final(format).str_@[j] == old(format).str_@[j],
{
    let i = next_format_string(format);
    let mut s = String::new();
    let mut k: u32 = 0;
    while k < size
        invariant
            k <= size,
            s@ =~= Seq::new(k as nat, |j: int| sign_char(signs, j)),
        decreases size - k,
    {
        let c = if k < 64 && (signs >> (k as u64)) & 1 == 1 { '1' } else { '0' };
        push_char(&mut s, c);
        k += 1;
    }
    store(format, i, s)
}

/// Writes `n` with its English ordinal suffix into the next ring slot and
/// returns it.
pub fn format_ordinal(format: &mut Format, ordinal: u64) -> (r: String)
    requires
        old(format).wf(),
    ensures
        final(format).wf(),
        r@ == decimal(ordinal as nat) + ordinal_suffix(ordinal as nat),
        final(format).pos == (old(format).pos + 1) % (NUM_FORMAT_STRINGS as int),
        final(format).str_@[old(format).pos as int]@ == r@,
        forall|j: int| 0 <= j < NUM_FORMAT_STRINGS && j != old(format).pos ==> #[trigger] final(format).str_@[j] == old(format).str_@[j],
{
    let mod100 = ordinal % 100;
    let suffix: &str = if 10 <= mod100 && mod100 <= 19 {
        "th"
    } else if mod100 % 10 == 1 {
        "st"
    } else if mod100 % 10 == 2 {
        "nd"
    } else if mod100 % 10 == 3 {
        "rd"
    } else {
        "th"
    };
    proof {
        assert(mod100 % 10 == ordinal % 10);
    }
    let i = next_format_string(format);
    let mut s = String::new();
    push_decimal(&mut s, ordinal);
    push_str(&mut s, suffix);
    assert(s@ =~= decimal(ordinal as nat) + ordinal_suffix(ordinal as nat));
    store(format, i, s)
}


/// A component of a duration: `n` followed by `unit`, after a space unless
/// it comes first; nothing when `n` is zero.
pub open spec fn time_part(prefix: Seq<char>, n: nat, unit: char) -> Seq<char> {
    if n == 0 {
        prefix
    } else if prefix.len() == 0 {
        decimal(n).push(unit)
    } else {
        prefix.push(' ') + decimal(n).push(unit)
    }
}

/// A duration of `secs` whole seconds in days, hours, minutes and seconds,
/// leaving out the zero ones (empty for no time).
pub open spec fn time_text(secs: nat) -> Seq<char> {
    let s = secs % 60;
    let m = (secs / 60) % 60;
    let h = (secs / 3600) % 24;
    let d = secs / 86400;
    time_part(time_part(time_part(time_part(Seq::empty(), d, 'd'), h, 'h'), m, 'm'), s, 's')
}

fn push_time_part(res: &mut String, n: u64, unit: char, empty: bool)
    requires
        empty == (old(res)@.len() == 0),
    ensures
        final(res)@ == time_part(old(res)@, n as nat, unit),
        (final(res)@.len() == 0) == (empty && n == 0),
{
    if n != 0 {
        if !empty {
            push_char(res, ' ');
        }
        push_decimal(res, n);
        push_char(res, unit);
        proof {
            if old(res)@.len() == 0 {
                assert(final(res)@ =~= decimal(n as nat).push(unit));
            } else {
                assert(final(res)@ =~= old(res)@.push(' ') + decimal(n as nat).push(unit));
            }
        }
    }
}

/// Formats a duration of `seconds` whole seconds into the next ring slot.
pub fn format_time_secs(format: &mut Format, seconds: u64) -> (r: String)
    requires
        old(format).wf(),
    ensures
        final(format).wf(),
        r@ == time_text(seconds as nat),
        final(format).pos == (old(format).pos + 1) % (NUM_FORMAT_STRINGS as int),
        final(format).str_@[old(format).pos as int]@ == r@,
        forall|j: int| 0 <= j < NUM_FORMAT_STRINGS && j != old(format).pos ==> #[trigger] final(format).str_@[j] == old(format).str_@[j],
{
    let i = next_format_string(format);
    let mut rounded = seconds;
    let mut minutes = rounded / 60;
    rounded = rounded % 60;
    let mut hours = minutes / 60;
    minutes = minutes % 60;
    let days = hours / 24;
    hours = hours % 24;
    let mut res = String::new();
    let mut empty = true;
    push_time_part(&mut res, days, 'd', empty);
    empty = empty && days == 0;
    push_time_part(&mut res, hours, 'h', empty);
    empty = empty && hours == 0;
    push_time_part(&mut res, minutes, 'm', empty);
    empty = empty && minutes == 0;
    push_time_part(&mut res, rounded, 's', empty);
    proof {
        let x = seconds as nat;
        assert((x / 60) / 60 == x / 3600) by (nonlinear_arith);
        assert(((x / 60) / 60) / 24 == x / 86400) by (nonlinear_arith);
    }
    store(format, i, res)
}

/// A duration text names the duration: for `d` days, `h < 24` hours,
/// `m < 60` minutes and `s < 60` seconds, the text of
/// `86400 * d + 3600 * h + 60 * m + s` seconds is made of exactly those
/// components, in that order, the zero ones left out.
pub proof fn lemma_time_text_components(d: nat, h: nat, m: nat, s: nat)
    requires
        h < 24,
        m < 60,
        s < 60,
    ensures
        time_text(86400 * d + 3600 * h + 60 * m + s)
            == time_part(time_part(time_part(time_part(Seq::empty(), d, 'd'), h, 'h'), m, 'm'), s, 's'),
{
    let x = 86400 * d + 3600 * h + 60 * m + s;
    assert(x % 60 == s && x / 60 == 1440 * d + 60 * h + m) by (nonlinear_arith)
        requires
            x == 86400 * d + 3600 * h + 60 * m + s,
            s < 60,
    ;
    let y = 1440 * d + 60 * h + m;
    assert(y % 60 == m && y / 60 == 24 * d + h) by (nonlinear_arith)
        requires
            y == 1440 * d + 60 * h + m,
            m < 60,
    ;
    assert((24 * d + h) % 24 == h && (24 * d + h) / 24 == d) by (nonlinear_arith)
        requires
            h < 24,
    ;
    assert(x / 3600 == (x / 60) / 60) by (nonlinear_arith);
    assert(x / 86400 == ((x / 60) / 60) / 24) by (nonlinear_arith);
}

/// A duration with every component present: days, hours, minutes and
/// seconds, each followed by its unit, separated by spaces.
#[verifier::spinoff_prover]
#[verifier::rlimit(50)]
pub proof fn lemma_time_text_full(d: nat, h: nat, m: nat, s: nat)
    requires
        0 < d,
        0 < h < 24,
        0 < m < 60,
        0 < s < 60,
    ensures
        time_text(86400 * d + 3600 * h + 60 * m + s)
            == decimal(d) + seq!['d', ' '] + decimal(h) + seq!['h', ' '] + decimal(m) + seq!['m', ' '] + decimal(s) + seq!['s'],
{
    lemma_time_text_components(d, h, m, s);
    let p1 = decimal(d).push('d');
    let p2 = p1.push(' ') + decimal(h).push('h');
    let p3 = p2.push(' ') + decimal(m).push('m');
    let p4 = p3.push(' ') + decimal(s).push('s');
    assert(time_part(Seq::empty(), d, 'd') == p1);
    assert(time_part(p1, h, 'h') == p2);
    assert(time_part(p2, m, 'm') == p3);
    assert(time_part(p3, s, 's') == p4);
    assert(p4 =~= decimal(d) + seq!['d', ' '] + decimal(h) + seq!['h', ' '] + decimal(m) + seq!['m', ' '] + decimal(s) + seq!['s']);
}

/// Zero components are left out with their space: days and seconds alone
/// are the days, a space and the seconds.
#[verifier::spinoff_prover]
#[verifier::rlimit(50)]
pub proof fn lemma_time_text_gap(d: nat, s: nat)
    requires
        0 < d,
        0 < s < 60,
    ensures
        time_text(86400 * d + s) == decimal(d) + seq!['d', ' '] + decimal(s) + seq!['s'],
{
    lemma_time_text_components(d, 0, 0, s);
    assert(86400 * d + 3600 * 0 + 60 * 0 + s == 86400 * d + s);
    let p1 = decimal(d).push('d');
    assert(p1.push(' ') + decimal(s).push('s') =~= decimal(d) + seq!['d', ' '] + decimal(s) + seq!['s']);
}

/// Under a minute, just the seconds; no time, no text.
#[verifier::spinoff_prover]
#[verifier::rlimit(50)]
pub proof fn lemma_time_text_short(s: nat)
    requires
        s < 60,
    ensures
        0 < s ==> time_text(s) == decimal(s) + seq!['s'],
        time_text(0) == Seq::<char>::empty(),
{
    lemma_time_text_components(0, 0, 0, s);
    lemma_time_text_components(0, 0, 0, 0);
    assert(decimal(s).push('s') =~= decimal(s) + seq!['s']);
}

} // verus!
