//! Option values written by `format_value` read back through
//! `parse_option_value` as the same number.
use vstd::prelude::*;
use vstd::utf8::{encode_utf8, is_ascii_chars, is_ascii_chars_encode_utf8};
use crate::text::{decimal, digit_char};
use crate::format::{count_text, value_text, strip_tens, is_pow2, log2};
use crate::options::{option_value, value_divides_by_zero, at, is_digit, digit_end, digits_value, power, magnitude_limit,
    mantissa_start, suffix_magnitude};

verus! {

/// The byte of the digit character of `d`.
proof fn lemma_digit_char(d: nat)
    requires
        d < 10,
    ensures
        digit_char(d) as u8 == 48 + d,
        48 <= digit_char(d) as nat <= 57,
{
}

/// `decimal(n)` is one or more digit characters, the first not `0` from
/// ten on, one of them below ten and two below a hundred.
proof fn lemma_decimal_shape(n: nat)
    ensures
        decimal(n).len() >= 1,
        forall|i: int| 0 <= i < decimal(n).len() ==> 48 <= (#[trigger] decimal(n)[i]) as nat <= 57,
        forall|i: int| 0 <= i < decimal(n).len() ==> 48 <= (#[trigger] decimal(n)[i]) as u8 <= 57,
        n >= 1 ==> decimal(n)[0] as u8 != 48,
        n < 10 ==> decimal(n).len() == 1,
        10 <= n < 100 ==> decimal(n).len() == 2,
    decreases n,
{
    if n >= 10 {
        lemma_decimal_shape(n / 10);
        lemma_digit_char(n % 10);
        let d = decimal(n / 10);
        assert(decimal(n) == d.push(digit_char(n % 10)));
        assert forall|i: int| 0 <= i < decimal(n).len() implies 48 <= (#[trigger] decimal(n)[i]) as nat <= 57
            && 48 <= decimal(n)[i] as u8 <= 57 by {
            if i < d.len() {
                assert(decimal(n)[i] == d[i]);
            }
        }
        assert(decimal(n)[0] == d[0]);
    } else {
        lemma_digit_char(n);
    }
}

/// Bytes that spell `decimal(n)` from `from` on are digits worth `n`.
proof fn lemma_decimal_value(b: Seq<u8>, from: int, n: nat)
    requires
        0 <= from,
        from + decimal(n).len() <= b.len(),
        forall|i: int| 0 <= i < decimal(n).len() ==> b[from + i] == (#[trigger] decimal(n)[i]) as u8,
    ensures
        digits_value(b, from, from + decimal(n).len()) == n,
        forall|k: int| from <= k < from + decimal(n).len() ==> is_digit(#[trigger] b[k]),
    decreases n,
{
    lemma_decimal_shape(n);
    if n >= 10 {
        let d = decimal(n / 10);
        lemma_decimal_shape(n / 10);
        assert(decimal(n) == d.push(digit_char(n % 10)));
        assert forall|i: int| 0 <= i < d.len() implies b[from + i] == (#[trigger] d[i]) as u8 by {
            assert(decimal(n)[i] == d[i]);
            assert(b[from + i] == decimal(n)[i] as u8);
        }
        lemma_decimal_value(b, from, n / 10);
        assert(b[from + d.len()] == decimal(n)[d.len() as int] as u8);
        lemma_digit_char(n % 10);
        assert(decimal(n)[d.len() as int] == digit_char(n % 10));
        assert(b[from + d.len()] == 48 + n % 10);
        let to = from + decimal(n).len();
        assert(to - 1 == from + d.len());
        assert(digits_value(b, from, from + d.len()) == n / 10);
        assert(digits_value(b, from, to) == digits_value(b, from, to - 1) * 10 + (b[to - 1] - 48) as nat);
        assert(digits_value(b, from, to) == n);
        assert forall|k: int| from <= k < from + decimal(n).len() implies is_digit(#[trigger] b[k]) by {
            assert(b[from + (k - from)] == decimal(n)[k - from] as u8);
        }
    } else {
        lemma_digit_char(n);
        assert(b[from + 0] == decimal(n)[0] as u8);
        assert(digits_value(b, from, from) == 0);
    }
}

/// Digits from `i` up to a non-digit or the end at `j` end there.
proof fn lemma_digit_end_at(b: Seq<u8>, i: int, j: int)
    requires
        0 <= i <= j <= b.len(),
        forall|k: int| i <= k < j ==> is_digit(#[trigger] b[k]),
        j == b.len() || !is_digit(b[j]),
    ensures
        digit_end(b, i) == j,
    decreases j - i,
{
    if i < j {
        lemma_digit_end_at(b, i + 1, j);
    }
}

/// Stripping the trailing zeros of `w` keeps its value, and leaves a
/// nonzero mantissa of a nonzero `w`.
proof fn lemma_strip_tens(w: nat)
    ensures
        strip_tens(w).0 * power(10, strip_tens(w).1) == w,
        w != 0 ==> strip_tens(w).0 >= 1,
    decreases w,
{
    if w != 0 && w % 10 == 0 {
        lemma_strip_tens(w / 10);
        let m = strip_tens(w / 10).0;
        let z = strip_tens(w / 10).1;
        let p = power(10, z);
        assert(strip_tens(w) == (m, z + 1));
        assert(power(10, z + 1) == 10 * p);
        assert(m * p == w / 10);
        assert(m * (10 * p) == 10 * (m * p)) by (nonlinear_arith);
        assert(m * power(10, z + 1) == w);
    } else {
        assert(strip_tens(w) == (w, 0nat));
        assert(power(10, 0) == 1);
        assert(w * 1 == w);
    }
}

/// Powers of `base` from exponent `k` on reach `power(base, k)`.
proof fn lemma_power_grows(base: nat, k: nat, x: nat)
    requires
        base >= 1,
        x >= k,
    ensures
        power(base, x) >= power(base, k),
    decreases x - k,
{
    if x > k {
        lemma_power_grows(base, k, (x - 1) as nat);
        let p = power(base, (x - 1) as nat);
        assert(base * p >= p) by (nonlinear_arith)
            requires
                base >= 1,
        ;
    }
}

/// A power of two is two to its logarithm.
proof fn lemma_pow2_log2(w: nat)
    requires
        is_pow2(w),
    ensures
        power(2, log2(w)) == w,
    decreases w,
{
    if w > 1 {
        lemma_pow2_log2(w / 2);
    }
}

/// Bytes `2^<x>` from `off` to their end: the mantissa 2 and the
/// suffix `^x` read back as two to the `x`.
proof fn lemma_reads_pow2(b: Seq<u8>, off: int, x: nat)
    requires
        1 <= x <= 30,
        power(2, x) <= magnitude_limit(),
        0 <= off,
        b.len() == off + 2 + decimal(x).len(),
        b[off] == 50,
        b[off + 1] == 94,
        forall|i: int| 0 <= i < decimal(x).len() ==> b[off + 2 + i] == (#[trigger] decimal(x)[i]) as u8,
    ensures
        is_digit(at(b, off)),
        at(b, off) != 48,
        digit_end(b, off) == off + 1,
        digits_value(b, off, off + 1) == 2,
        suffix_magnitude(b, off + 1, 2) == Some(power(2, x)),
{
    let d = decimal(x);
    lemma_decimal_shape(x);
    assert forall|i: int| 0 <= i < d.len() implies b[(off + 2) + i] == (#[trigger] d[i]) as u8 by {
        assert(b[off + 2 + i] == d[i] as u8);
    }
    lemma_decimal_value(b, off + 2, x);
    lemma_digit_end_at(b, off, off + 1);
    assert(digits_value(b, off, off) == 0);
    assert(digits_value(b, off, off + 1) == 2);
    assert(at(b, off + 1) == 94);
    assert(digits_value(b, off + 2, off + 2) == 0);
    assert(digits_value(b, off + 2, off + 3) == (b[off + 2] - 48));
    if x >= 10 {
        assert(d.len() == 2);
        assert(digits_value(b, off + 2, off + 4) == digits_value(b, off + 2, off + 3) * 10 + (b[off + 3] - 48));
        assert(is_digit(b[off + 3]));
        assert(at(b, off + 4) == 0);
    } else {
        assert(d.len() == 1);
        assert(at(b, off + 3) == 0);
    }
}

/// Bytes `<m>e<z>` from `off` to their end, with one exponent digit: the
/// mantissa `m` and the suffix read back as `m * 10^z`.
proof fn lemma_reads_tens(b: Seq<u8>, off: int, m: nat, z: nat)
    requires
        m >= 1,
        z < 10,
        m * power(10, z) <= magnitude_limit(),
        0 <= off,
        b.len() == off + decimal(m).len() + 2,
        forall|i: int| 0 <= i < decimal(m).len() ==> b[off + i] == (#[trigger] decimal(m)[i]) as u8,
        b[off + decimal(m).len()] == 101,
        b[off + decimal(m).len() + 1] == decimal(z)[0] as u8,
    ensures
        is_digit(at(b, off)),
        !(digit_end(b, off) - off >= 2 && at(b, off) == 48 && at(b, off + 1) == 48),
        digit_end(b, off) == off + decimal(m).len(),
        digits_value(b, off, off + decimal(m).len()) == m,
        suffix_magnitude(b, off + decimal(m).len(), m) == Some(m * power(10, z)),
        at(b, off + decimal(m).len()) != 94,
{
    let dm = decimal(m);
    let e = off + dm.len();
    lemma_decimal_shape(m);
    lemma_decimal_shape(z);
    lemma_decimal_value(b, off, m);
    lemma_digit_end_at(b, off, e);
    lemma_digit_char(z);
    assert(decimal(z)[0] == digit_char(z));
    assert(at(b, e + 1) == 48 + z);
    assert(at(b, e + 2) == 0);
    if dm.len() >= 2 {
        assert(m >= 10);
        assert(b[off + 0] == dm[0] as u8);
    }
}

/// Bytes of `decimal(w)` from `off` to their end read back as `w`.
proof fn lemma_reads_decimal(b: Seq<u8>, off: int, w: nat)
    requires
        0 <= off,
        b.len() == off + decimal(w).len(),
        forall|i: int| 0 <= i < decimal(w).len() ==> b[off + i] == (#[trigger] decimal(w)[i]) as u8,
    ensures
        is_digit(at(b, off)),
        !(digit_end(b, off) - off >= 2 && at(b, off) == 48 && at(b, off + 1) == 48),
        digit_end(b, off) == b.len(),
        digits_value(b, off, b.len() as int) == w,
        at(b, b.len() as int) == 0,
{
    let d = decimal(w);
    lemma_decimal_shape(w);
    lemma_decimal_value(b, off, w);
    lemma_digit_end_at(b, off, b.len() as int);
    if d.len() >= 2 {
        assert(w >= 10);
        assert(b[off + 0] == d[0] as u8);
    }
}

/// Bytes that spell `count_text(w)` from `off` to their end hold a
/// mantissa and a suffix that read back as `w`.
proof fn lemma_count_text_reads(b: Seq<u8>, off: int, w: nat)
    requires
        w < 0x8000_0000,
        0 <= off,
        off + count_text(w).len() == b.len(),
        forall|i: int| 0 <= i < count_text(w).len() ==> b[off + i] == (#[trigger] count_text(w)[i]) as u8,
    ensures
        is_digit(at(b, off)),
        !(digit_end(b, off) - off >= 2 && at(b, off) == 48 && at(b, off + 1) == 48),
        digits_value(b, off, digit_end(b, off)) <= magnitude_limit(),
        suffix_magnitude(b, digit_end(b, off), digits_value(b, off, digit_end(b, off))) == Some(w),
        !(at(b, off) == 48 && at(b, digit_end(b, off)) == 94),
{
    let t = count_text(w);
    if w >= 128 && is_pow2(w) {
        let x = log2(w);
        let d = decimal(x);
        lemma_pow2_log2(w);
        assert(x >= 1);
        assert(x <= 30) by {
            if x > 30 {
                lemma_power_grows(2, 31, x);
                assert(power(2, 31) == 0x8000_0000) by {
                    reveal_with_fuel(power, 32);
                }
            }
        }
        assert(t == seq!['2', '^'] + d);
        assert(b[off + 0] == t[0] as u8);
        assert(b[off + 1] == t[1] as u8);
        assert forall|i: int| 0 <= i < d.len() implies b[off + 2 + i] == (#[trigger] d[i]) as u8 by {
            assert(t[2 + i] == d[i]);
            assert(b[off + (2 + i)] == t[2 + i] as u8);
        }
        lemma_reads_pow2(b, off, x);
    } else if w >= 1000 && w % 1000 == 0 {
        let m = strip_tens(w).0;
        let z = strip_tens(w).1;
        let dm = decimal(m);
        let dz = decimal(z);
        lemma_strip_tens(w);
        let p = power(10, z);
        assert(p >= 1) by {
            lemma_power_grows(10, 0, z);
        }
        assert(m * p >= p && m <= m * p) by (nonlinear_arith)
            requires
                m >= 1,
                p >= 1,
        ;
        assert(z < 10) by {
            if z >= 10 {
                lemma_power_grows(10, 10, z);
                assert(power(10, 10) == 10_000_000_000) by {
                    reveal_with_fuel(power, 11);
                }
            }
        }
        lemma_decimal_shape(z);
        assert(t == dm + seq!['e'] + dz);
        let e = off + dm.len();
        assert forall|i: int| 0 <= i < dm.len() implies b[off + i] == (#[trigger] dm[i]) as u8 by {
            assert(t[i] == dm[i]);
        }
        assert(b[off + dm.len()] == t[dm.len() as int] as u8);
        assert(b[off + dm.len() + 1] == t[dm.len() + 1int] as u8);
        assert(t[dm.len() + 1int] == dz[0]);
        lemma_reads_tens(b, off, m, z);
    } else {
        assert(t == decimal(w));
        lemma_reads_decimal(b, off, w);
    }
}

/// A character below 128 is ASCII.
proof fn lemma_ascii_char(c: char)
    requires
        (c as nat) < 128,
    ensures
        '\0' <= c <= '\u{7f}',
{
}

/// The texts of `count_text` are ASCII.
proof fn lemma_count_text_ascii(w: nat)
    ensures
        is_ascii_chars(count_text(w)),
        count_text(w).len() >= 1,
        48 <= count_text(w)[0] as nat <= 57,
{
    let t = count_text(w);
    if w >= 128 && is_pow2(w) {
        let d = decimal(log2(w));
        lemma_decimal_shape(log2(w));
        assert(t == seq!['2', '^'] + d);
        assert(t[0] == '2' && t[1] == '^');
        assert forall|i: int| 0 <= i < t.len() implies '\0' <= #[trigger] t[i] <= '\u{7f}' by {
            if i >= 2 {
                assert(t[i] == d[i - 2]);
                assert(48 <= d[i - 2] as nat <= 57);
            }
            lemma_ascii_char(t[i]);
        }
    } else if w >= 1000 && w % 1000 == 0 {
        let dm = decimal(strip_tens(w).0);
        let dz = decimal(strip_tens(w).1);
        lemma_decimal_shape(strip_tens(w).0);
        lemma_decimal_shape(strip_tens(w).1);
        assert(t == dm + seq!['e'] + dz);
        assert forall|i: int| 0 <= i < t.len() implies '\0' <= #[trigger] t[i] <= '\u{7f}' by {
            if i < dm.len() {
                assert(t[i] == dm[i]);
                assert(48 <= dm[i] as nat <= 57);
            } else if i > dm.len() {
                assert(t[i] == dz[i - dm.len() - 1]);
                assert(48 <= dz[i - dm.len() - 1] as nat <= 57);
            } else {
                assert(t[i] == 'e');
            }
            lemma_ascii_char(t[i]);
        }
        assert(t[0] == dm[0]);
        assert(48 <= dm[0] as nat <= 57);
    } else {
        lemma_decimal_shape(w);
        assert(t == decimal(w));
        assert forall|i: int| 0 <= i < t.len() implies '\0' <= #[trigger] t[i] <= '\u{7f}' by {
            assert(48 <= decimal(w)[i] as nat <= 57);
            lemma_ascii_char(t[i]);
        }
        assert(48 <= decimal(w)[0] as nat <= 57);
    }
}

/// Parsing back the text that `format_value` writes for a number other
/// than the two extremes gives that number: the decimal, `<m>e<z>` and
/// `2^k` texts, negative ones behind a `-`, read back exactly, and none
/// of them is an input on which parsing divides by zero.
pub proof fn lemma_value_text_reads_back(v: i32)
    requires
        i32::MIN < v < i32::MAX,
    ensures
        !value_divides_by_zero(value_text(false, v)),
        option_value(value_text(false, v)) == Some(v),
{
    let w: nat = if v < 0 { (-v) as nat } else { v as nat };
    let ct = count_text(w);
    let t = value_text(false, v);
    let off: int = if v < 0 { 1 } else { 0 };
    lemma_count_text_ascii(w);
    if v < 0 {
        assert(t == seq!['-'] + ct);
        assert forall|i: int| 0 <= i < t.len() implies '\0' <= #[trigger] t[i] <= '\u{7f}' by {
            if i >= 1 {
                assert(t[i] == ct[i - 1]);
            }
        }
    } else {
        assert(t == ct);
    }
    assert(is_ascii_chars(t));
    is_ascii_chars_encode_utf8(t);
    let b = encode_utf8(t);
    assert(b.len() == off + ct.len());
    assert forall|i: int| 0 <= i < ct.len() implies b[off + i] == (#[trigger] ct[i]) as u8 by {
        assert(t[off + i] == ct[i]);
        assert(b[off + i] == t[off + i] as u8);
    }
    lemma_count_text_reads(b, off, w);
    assert(b[0] == t[0] as u8);
    assert(mantissa_start(b) == off);
    reveal_strlit("true");
    reveal_strlit("false");
    assert(t != "true"@) by {
        assert(t[0] != "true"@[0]);
    }
    assert(t != "false"@) by {
        assert(t[0] != "false"@[0]);
    }
}

} // verus!
