//! Text as sequences of characters: digits, padding, trimming and byte lengths.

use vstd::arithmetic::div_mod::{lemma_basic_div, lemma_div_denominator, lemma_fundamental_div_mod};
use vstd::arithmetic::power::{
    lemma_pow0, lemma_pow1, lemma_pow_increases, lemma_pow_positive, pow,
};
use vstd::prelude::*;
use vstd::utf8::{encode_scalar, encode_utf8};

verus! {

/// `String::push` appends one character to the end of the string.
pub assume_specification[ String::push ](s: &mut String, c: char)
    ensures
        final(s)@ == old(s)@.push(c),
;

// ---------------------------------------------------------------------------
// Digits
// ---------------------------------------------------------------------------

/// The character for the digit `d`, in upper case.
pub open spec fn digit_char(d: int) -> char {
    if d < 10 {
        (('0' as int) + d) as char
    } else {
        (('A' as int) + d - 10) as char
    }
}

/// The number `v` written in base `radix`, most significant digit first, without leading zeros.
pub open spec fn digits(v: nat, radix: nat) -> Seq<char>
    decreases v,
    when radix >= 2
{
    if v < radix {
        seq![digit_char(v as int)]
    } else {
        proof {
            assert(v / radix < v) by (nonlinear_arith)
                requires
                    radix >= 2,
                    v >= radix,
            ;
        }
        digits(v / radix, radix).push(digit_char((v % radix) as int))
    }
}

/// 256 to the power of `n`.
pub open spec fn pow256(n: nat) -> nat
    decreases n,
{
    if n == 0 {
        1
    } else {
        256 * pow256((n - 1) as nat)
    }
}

/// `n` copies of `c`.
pub open spec fn repeated(c: char, n: nat) -> Seq<char> {
    Seq::new(n, |i: int| c)
}

/// `s` with zeros in front of it, up to a width of `width`.
pub open spec fn zero_padded(s: Seq<char>, width: nat) -> Seq<char> {
    if s.len() < width {
        repeated('0', (width - s.len()) as nat) + s
    } else {
        s
    }
}

/// `s` with spaces behind it, up to a width of `width`.
pub open spec fn space_padded(s: Seq<char>, width: nat) -> Seq<char> {
    if s.len() < width {
        s + repeated(' ', (width - s.len()) as nat)
    } else {
        s
    }
}

/// `v` in hexadecimal, in upper case, with at least `width` digits.
pub open spec fn hex(v: nat, width: nat) -> Seq<char> {
    zero_padded(digits(v, 16), width)
}

/// `v` in decimal.
pub open spec fn decimal(v: nat) -> Seq<char> {
    digits(v, 10)
}

/// `v` in decimal, with a minus sign where it is negative.
pub open spec fn signed_decimal(v: int) -> Seq<char> {
    if v < 0 {
        seq!['-'] + decimal((-v) as nat)
    } else {
        decimal(v as nat)
    }
}

fn digit_to_char(d: u8) -> (c: char)
    requires
        d < 36,
    ensures
        c == digit_char(d as int),
{
    if d < 10 {
        (48u8 + d) as char
    } else {
        (65u8 + (d - 10)) as char
    }
}

/// Writes `v` in base `radix` with at least `width` digits.
fn write_digits(v: u128, radix: u128, width: usize) -> (out: String)
    requires
        2 <= radix <= 36,
    ensures
        out@ == zero_padded(digits(v as nat, radix as nat), width as nat),
{
    // Least significant digit first.
    let mut rev: Vec<char> = Vec::new();
    let mut rest: u128 = v;
    while rest >= radix
        invariant
            2 <= radix <= 36,
            digits(v as nat, radix as nat) == digits(rest as nat, radix as nat) + rev@.reverse(),
        decreases rest,
    {
        let d: u8 = (rest % radix) as u8;
        let ghost before: Seq<char> = rev@;
        let ghost last: char = digit_char((rest as nat % radix as nat) as int);
        rev.push(digit_to_char(d));
        proof {
            assert(rev@.reverse() =~= seq![last] + before.reverse());
            assert(digits(rest as nat, radix as nat) =~= digits(
                (rest as nat) / (radix as nat),
                radix as nat,
            ) + seq![last]);
            assert((rest / radix) < rest) by (nonlinear_arith)
                requires
                    radix >= 2,
                    rest >= radix,
            ;
        }
        rest = rest / radix;
    }
    let d: u8 = rest as u8;
    let ghost before: Seq<char> = rev@;
    rev.push(digit_to_char(d));
    proof {
        assert(rev@.reverse() =~= seq![digit_char(rest as int)] + before.reverse());
    }
    let ghost body: Seq<char> = digits(v as nat, radix as nat);
    assert(rev@.reverse() == body);
    let mut out: String = String::new();
    let mut n: usize = rev.len();
    while n < width
        invariant
            rev@.reverse() == body,
            rev@.len() <= n,
            rev@.len() < width ==> n <= width,
            rev@.len() >= width ==> n == rev@.len(),
            out@ == repeated('0', (n - rev@.len()) as nat),
        decreases width - n,
    {
        out.push('0');
        n = n + 1;
        assert(out@ =~= repeated('0', (n - rev@.len()) as nat));
    }
    let ghost pad: Seq<char> = out@;
    let ghost all: Seq<char> = rev@;
    assert(pad + all.subrange(rev@.len() as int, all.len() as int).reverse() =~= pad);
    while rev.len() > 0
        invariant
            rev@.len() <= all.len(),
            rev@ == all.subrange(0, rev@.len() as int),
            out@ == pad + all.subrange(rev@.len() as int, all.len() as int).reverse(),
        decreases rev@.len(),
    {
        let ghost k: int = rev@.len() as int;
        match rev.pop() {
            Some(c) => {
                out.push(c);
                assert(c == all[k - 1]);
                assert(all.subrange(k - 1, all.len() as int).reverse() =~= all.subrange(
                    k,
                    all.len() as int,
                ).reverse().push(c));
            },
            None => {},
        }
    }
    assert(all.subrange(0, all.len() as int) =~= all);
    assert(out@ =~= zero_padded(body, width as nat));
    out
}

/// `v` in hexadecimal, in upper case, with at least `width` digits.
pub fn format_hex(v: u64, width: usize) -> (out: String)
    ensures
        out@ == hex(v as nat, width as nat),
{
    write_digits(v as u128, 16, width)
}

/// `v` in decimal.
pub fn format_decimal(v: u128) -> (out: String)
    ensures
        out@ == decimal(v as nat),
{
    proof {
        lemma_digits_nonempty(v as nat, 10);
    }
    write_digits(v, 10, 1)
}

/// `v` in decimal, with a minus sign where it is negative.
pub fn format_signed(v: i64) -> (out: String)
    ensures
        out@ == signed_decimal(v as int),
{
    if v < 0 {
        let magnitude: u128 = (-(v as i128)) as u128;
        let mut out: String = String::new();
        out.push('-');
        out.append(format_decimal(magnitude).as_str());
        assert(out@ =~= seq!['-'] + decimal((-v) as nat));
        out
    } else {
        format_decimal(v as u128)
    }
}

/// Every number has at least one digit.
proof fn lemma_digits_nonempty(v: nat, radix: nat)
    requires
        radix >= 2,
    ensures
        digits(v, radix).len() >= 1,
{
}

// ---------------------------------------------------------------------------
// Byte lengths and shortened names
// ---------------------------------------------------------------------------

/// The longest name, in bytes, that is shown whole.
pub const NAME_MAX: usize = 40;

/// How many bytes `c` takes in UTF-8.
pub open spec fn byte_width(c: char) -> nat {
    encode_scalar(c as u32).len()
}

/// As many whole characters from the start of `s` as fit in `room` bytes.
pub open spec fn prefix_within(s: Seq<char>, room: nat) -> Seq<char>
    decreases s.len(),
{
    if s.len() == 0 || byte_width(s[0]) > room {
        Seq::empty()
    } else {
        seq![s[0]] + prefix_within(s.drop_first(), (room - byte_width(s[0])) as nat)
    }
}

/// The name as it is shown: one that is too long is cut and ends with an ellipsis.
pub open spec fn shortened(name: Seq<char>) -> Seq<char> {
    if encode_utf8(name).len() <= NAME_MAX {
        name
    } else {
        prefix_within(name, (NAME_MAX - 1) as nat).push('…')
    }
}

fn width_of(c: char) -> (w: usize)
    ensures
        w == byte_width(c),
        1 <= w <= 4,
{
    let u: u32 = c as u32;
    if u <= 0x7F {
        1
    } else if u <= 0x7FF {
        2
    } else if u <= 0xFFFF {
        3
    } else {
        4
    }
}

/// Trims an over-long symbol name (mangled C++ names can be huge) for display.
pub fn short_name(name: &str) -> (out: String)
    ensures
        out@ == shortened(name@),
{
    if name.as_bytes().len() <= NAME_MAX {
        return name.to_owned();
    }
    let mut out: String = String::new();
    let mut room: usize = NAME_MAX - 1;
    let n: usize = name.unicode_len();
    let mut i: usize = 0;
    assert(name@.skip(0) =~= name@);
    assert(out@ + prefix_within(name@, room as nat) =~= prefix_within(name@, room as nat));
    while i < n && width_of(name.get_char(i)) <= room
        invariant
            n == name@.len(),
            i <= n,
            room < NAME_MAX,
            prefix_within(name@, (NAME_MAX - 1) as nat) == out@ + prefix_within(
                name@.skip(i as int),
                room as nat,
            ),
        decreases n - i,
    {
        let c: char = name.get_char(i);
        let ghost before: Seq<char> = out@;
        let ghost rest: Seq<char> = name@.skip(i as int);
        let ghost old_room: nat = room as nat;
        out.push(c);
        room = room - width_of(c);
        proof {
            assert(rest[0] == c);
            assert(rest.drop_first() =~= name@.skip(i + 1));
            assert(before + (seq![c] + prefix_within(name@.skip(i + 1), room as nat)) =~= out@
                + prefix_within(name@.skip(i + 1), room as nat));
        }
        i = i + 1;
    }
    proof {
        let rest = name@.skip(i as int);
        if i < n {
            assert(rest[0] == name@[i as int]);
        }
        assert(out@ =~= prefix_within(name@, (NAME_MAX - 1) as nat));
    }
    out.push('…');
    out
}

// ---------------------------------------------------------------------------
// Laws
// ---------------------------------------------------------------------------

/// A character adds its bytes to those of a text.
pub proof fn lemma_push_bytes(s: Seq<char>, c: char)
    ensures
        encode_utf8(s.push(c)).len() == encode_utf8(s).len() + byte_width(c),
    decreases s.len(),
{
    if s.len() == 0 {
        assert(s.push(c).drop_first() =~= Seq::empty());
        reveal_with_fuel(encode_utf8, 2);
    } else {
        assert(s.push(c).drop_first() =~= s.drop_first().push(c));
        lemma_push_bytes(s.drop_first(), c);
    }
}

/// The prefix that fits is the longest that does.
proof fn lemma_prefix_within(s: Seq<char>, room: nat)
    ensures
        prefix_within(s, room).len() <= s.len(),
        prefix_within(s, room) == s.take(prefix_within(s, room).len() as int),
        encode_utf8(prefix_within(s, room)).len() <= room,
        prefix_within(s, room).len() < s.len() ==> encode_utf8(prefix_within(s, room)).len()
            + byte_width(s[prefix_within(s, room).len() as int]) > room,
    decreases s.len(),
{
    let p = prefix_within(s, room);
    if s.len() == 0 || byte_width(s[0]) > room {
        assert(p =~= s.take(0));
        assert(encode_utf8(p).len() == 0);
    } else {
        let rest = (room - byte_width(s[0])) as nat;
        lemma_prefix_within(s.drop_first(), rest);
        let q = prefix_within(s.drop_first(), rest);
        assert(p.drop_first() =~= q);
        assert(p =~= s.take(p.len() as int));
        assert(encode_utf8(p).len() == byte_width(s[0]) + encode_utf8(q).len());
        if p.len() < s.len() {
            assert(s[p.len() as int] == s.drop_first()[q.len() as int]);
        }
    }
}

/// A name of up to 40 bytes is shown whole. Of a longer one the longest prefix of whole
/// characters that leaves one byte less than that is shown, and an ellipsis.
pub proof fn lemma_short_name(name: Seq<char>)
    ensures
        encode_utf8(name).len() <= 40 ==> shortened(name) == name,
        encode_utf8(name).len() > 40 ==> {
            let kept = shortened(name).drop_last();
            &&& shortened(name).last() == '…'
            &&& kept.len() < name.len()
            &&& kept == name.take(kept.len() as int)
            &&& encode_utf8(kept).len() < 40
            &&& encode_utf8(name.take(kept.len() as int + 1)).len() >= 40
        },
{
    if encode_utf8(name).len() > NAME_MAX {
        let room = (NAME_MAX - 1) as nat;
        let p = prefix_within(name, room);
        lemma_prefix_within(name, room);
        assert(shortened(name).drop_last() =~= p);
        if p.len() == name.len() {
            assert(p =~= name);
        }
        assert(name.take(p.len() as int + 1) =~= p.push(name[p.len() as int]));
        lemma_push_bytes(p, name[p.len() as int]);
    }
}

/// Two hexadecimal digits are enough for each byte of a number.
pub proof fn lemma_hex_digit_count(v: nat, bytes: nat)
    requires
        bytes >= 1,
        v < pow256(bytes),
    ensures
        1 <= digits(v, 16).len() <= 2 * bytes,
        hex(v, 2 * bytes).len() == 2 * bytes,
    decreases bytes,
{
    if v >= 16 {
        assert(digits(v, 16).len() == digits(v / 16, 16).len() + 1);
        if v >= 256 {
            assert(bytes > 1) by {
                reveal_with_fuel(pow256, 2);
            }
            assert(v / 16 / 16 == v / 256);
            assert(v / 256 < pow256((bytes - 1) as nat));
            lemma_hex_digit_count(v / 256, (bytes - 1) as nat);
            assert(digits(v / 16, 16).len() == digits(v / 256, 16).len() + 1);
        } else {
            assert(digits(v / 16, 16).len() == 1);
        }
    }
}

/// The digits of base 16, in order.
pub proof fn lemma_digit_chars(d: int)
    requires
        0 <= d < 16,
    ensures
        digit_char(d) == seq!['0', '1', '2', '3', '4', '5', '6', '7', '8', '9', 'A', 'B', 'C', 'D', 'E', 'F'][d],
{
    assert(d == 0 || d == 1 || d == 2 || d == 3 || d == 4 || d == 5 || d == 6 || d == 7 || d == 8 || d
        == 9 || d == 10 || d == 11 || d == 12 || d == 13 || d == 14 || d == 15);
}

/// How many digits a number has: those that it needs, and at least one.
proof fn lemma_digits_bounds(v: nat, radix: nat)
    requires
        2 <= radix,
    ensures
        digits(v, radix).len() >= 1,
        v < pow(radix as int, digits(v, radix).len()),
        digits(v, radix).len() > 1 ==> v >= pow(radix as int, (digits(v, radix).len() - 1) as nat),
    decreases v,
{
    let r = radix as int;
    lemma_pow0(r);
    lemma_pow1(r);
    if v >= radix {
        assert(v / radix < v) by (nonlinear_arith)
            requires
                radix >= 2,
                v >= radix,
        ;
        let q = (v / radix) as int;
        let n = digits(v / radix, radix).len();
        lemma_digits_bounds(v / radix, radix);
        lemma_fundamental_div_mod(v as int, r);
        reveal(pow);
        assert(pow(r, n + 1) == r * pow(r, n));
        assert(v < r * pow(r, n)) by (nonlinear_arith)
            requires
                v == r * q + v as int % r,
                v as int % r < r,
                q + 1 <= pow(r, n),
                r >= 2,
        ;
        if n > 1 {
            assert(pow(r, n) == r * pow(r, (n - 1) as nat));
            assert(v >= r * pow(r, (n - 1) as nat)) by (nonlinear_arith)
                requires
                    v == r * q + v as int % r,
                    v as int % r >= 0,
                    q >= pow(r, (n - 1) as nat),
                    r >= 2,
            ;
        }
    }
}

/// Each digit of a number counts the power of the base that belongs to its place.
proof fn lemma_digit_places(v: nat, radix: nat, i: int)
    requires
        2 <= radix,
        0 <= i < digits(v, radix).len(),
    ensures
        digits(v, radix)[digits(v, radix).len() - 1 - i] == digit_char(
            (v as int / pow(radix as int, i as nat)) % radix as int,
        ),
    decreases v,
{
    let r = radix as int;
    lemma_pow0(r);
    if v < radix {
        assert(v as int / 1 == v);
        vstd::arithmetic::div_mod::lemma_small_mod(v, radix);
    } else {
        assert(v / radix < v) by (nonlinear_arith)
            requires
                radix >= 2,
                v >= radix,
        ;
        if i > 0 {
            lemma_digit_places(v / radix, radix, i - 1);
            lemma_pow_positive(r, (i - 1) as nat);
            lemma_div_denominator(v as int, r, pow(r, (i - 1) as nat));
            assert(pow(r, i as nat) == r * pow(r, (i - 1) as nat)) by {
                reveal(pow);
            }
        } else {
            assert(v as int / 1 == v);
        }
    }
}

/// What a number in hexadecimal looks like: at least `width` digits and at least one, no more than
/// that unless the number needs them, and the digit `i` places from the end is the one for the number
/// of `16^i`s.
pub proof fn lemma_hex_digits(v: nat, width: nat, i: int)
    ensures
        ({
            let h = hex(v, width);
            &&& h.len() >= width
            &&& h.len() >= 1
            &&& v < pow(16, h.len())
            &&& h.len() > width && h.len() > 1 ==> v >= pow(16, (h.len() - 1) as nat)
            &&& 0 <= i < h.len() ==> h[h.len() - 1 - i]
                == seq!['0', '1', '2', '3', '4', '5', '6', '7', '8', '9', 'A', 'B', 'C', 'D', 'E', 'F'][(v as int / pow(16, i as nat)) % 16]
        }),
{
    let h = hex(v, width);
    let d = digits(v, 16);
    lemma_digits_bounds(v, 16);
    if h.len() > d.len() {
        lemma_pow_increases(16, d.len(), h.len());
    }
    if 0 <= i < h.len() {
        lemma_pow_positive(16, i as nat);
        lemma_digit_chars((v as int / pow(16, i as nat)) % 16);
        if i < d.len() {
            lemma_digit_places(v, 16, i);
            assert(h[h.len() - 1 - i] == d[d.len() - 1 - i]);
        } else {
            lemma_pow_increases(16, d.len(), i as nat);
            lemma_basic_div(v as int, pow(16, i as nat));
        }
    }
}

/// What a number in decimal looks like: no more digits than it needs, at least one, and the digit `i`
/// places from the end is the one for the number of `10^i`s. A negative number has a minus sign before
/// the digits of its magnitude.
pub proof fn lemma_decimal_digits(v: nat, i: int)
    ensures
        ({
            let d = decimal(v);
            &&& d.len() >= 1
            &&& v < pow(10, d.len())
            &&& d.len() > 1 ==> v >= pow(10, (d.len() - 1) as nat)
            &&& 0 <= i < d.len() ==> d[d.len() - 1 - i]
                == seq!['0', '1', '2', '3', '4', '5', '6', '7', '8', '9'][(v as int / pow(
                10,
                i as nat,
            )) % 10]
        }),
        signed_decimal(v as int) == decimal(v),
        v > 0 ==> signed_decimal(-(v as int)) == seq!['-'] + decimal(v),
{
    let d = decimal(v);
    lemma_digits_bounds(v, 10);
    if 0 <= i < d.len() {
        lemma_pow_positive(10, i as nat);
        lemma_digit_places(v, 10, i);
        let x = (v as int / pow(10, i as nat)) % 10;
        lemma_digit_chars(x);
        assert(x == 0 || x == 1 || x == 2 || x == 3 || x == 4 || x == 5 || x == 6 || x == 7 || x == 8
            || x == 9);
    }
}

/// Padding with blanks leaves the text in front and fills up to the width.
pub proof fn lemma_space_padding(s: Seq<char>, width: nat, i: int)
    ensures
        space_padded(s, width).len() == if s.len() < width {
            width
        } else {
            s.len()
        },
        0 <= i < s.len() ==> space_padded(s, width)[i] == s[i],
        s.len() <= i < width ==> space_padded(s, width)[i] == ' ',
{
}

/// A number of one more byte is written as the number without that byte, then the byte.
pub proof fn lemma_hex_of_bytes(high: nat, low: nat, bytes: nat)
    requires
        bytes >= 1,
        high < pow256(bytes),
        low < 256,
    ensures
        hex(256 * high + low, 2 * (bytes + 1)) == hex(high, 2 * bytes) + hex(low, 2),
{
    let v = 256 * high + low;
    let a = hex(high, 2 * bytes);
    let b = hex(low, 2);
    let h = hex(v, 2 * (bytes + 1));
    assert(pow256(bytes + 1) == 256 * pow256(bytes));
    assert(pow256(1) == 256) by {
        reveal_with_fuel(pow256, 2);
    }
    lemma_hex_digit_count(high, bytes);
    lemma_hex_digit_count(low, 1);
    lemma_hex_digit_count(v, bytes + 1);
    assert forall|k: int| 0 <= k < h.len() implies #[trigger] h[k] == (a + b)[k] by {
        let i = h.len() - 1 - k;
        lemma_hex_digits(v, 2 * (bytes + 1), i);
        reveal(pow);
        lemma_pow0(16);
        lemma_pow1(16);
        if i < 2 {
            lemma_hex_digits(low, 2, i);
            if i == 0 {
                assert(v as int / 1 == v && low as int / 1 == low);
                assert(v % 16 == low % 16);
            } else {
                assert(v as int / 16 == 16 * high + low as int / 16);
                assert((v as int / 16) % 16 == (low as int / 16) % 16);
            }
        } else {
            lemma_hex_digits(high, 2 * bytes, i - 2);
            let p = pow(16, (i - 2) as nat);
            assert(pow(16, i as nat) == 16 * (16 * p)) by {
                assert(pow(16, i as nat) == 16 * pow(16, (i - 1) as nat));
                assert(pow(16, (i - 1) as nat) == 16 * p);
            }
            lemma_pow_positive(16, (i - 2) as nat);
            lemma_div_denominator(v as int, 256, p);
            assert(v as int / 256 == high);
            assert(256 * p == pow(16, i as nat));
        }
    }
    assert(h =~= a + b);
}

} // verus!
