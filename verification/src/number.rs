//! Reading numbers from text, as they are given on the command line and in the go-to prompt.

use crate::text::{decimal, digit_char, digits, hex, repeated};
use vstd::prelude::*;

verus! {

// ---------------------------------------------------------------------------
// White space
// ---------------------------------------------------------------------------

/// Does `c` have the Unicode property White_Space?
pub open spec fn is_white(c: char) -> bool {
    let u = c as int;
    ||| 0x09 <= u <= 0x0D
    ||| u == 0x20
    ||| u == 0x85
    ||| u == 0xA0
    ||| u == 0x1680
    ||| 0x2000 <= u <= 0x200A
    ||| u == 0x2028
    ||| u == 0x2029
    ||| u == 0x202F
    ||| u == 0x205F
    ||| u == 0x3000
}

/// `s` without its leading white space.
pub open spec fn trimmed_start(s: Seq<char>) -> Seq<char>
    decreases s.len(),
{
    if s.len() > 0 && is_white(s[0]) {
        trimmed_start(s.drop_first())
    } else {
        s
    }
}

/// `s` without its trailing white space.
pub open spec fn trimmed_end(s: Seq<char>) -> Seq<char>
    decreases s.len(),
{
    if s.len() > 0 && is_white(s.last()) {
        trimmed_end(s.drop_last())
    } else {
        s
    }
}

/// `s` without its leading and trailing white space.
pub open spec fn trimmed(s: Seq<char>) -> Seq<char> {
    trimmed_end(trimmed_start(s))
}

/// Does `c` have the Unicode property White_Space?
pub fn is_white_space(c: char) -> (b: bool)
    ensures
        b == is_white(c),
{
    let u: u32 = c as u32;
    (0x09 <= u && u <= 0x0D) || u == 0x20 || u == 0x85 || u == 0xA0 || u == 0x1680 || (0x2000 <= u
        && u <= 0x200A) || u == 0x2028 || u == 0x2029 || u == 0x202F || u == 0x205F || u == 0x3000
}

/// The characters of `s`.
pub fn chars_of(s: &str) -> (out: Vec<char>)
    ensures
        out@ == s@,
{
    let mut out: Vec<char> = Vec::new();
    for c in it: s.chars()
        invariant
            it.seq() == s@,
            out@ == s@.take(it.index() as int),
    {
        out.push(c);
        assert(out@ =~= s@.take(it.index() + 1));
    }
    assert(s@.take(s@.len() as int) =~= s@);
    out
}

/// `s` without its leading and trailing white space.
pub fn trim(s: &str) -> (out: &str)
    ensures
        out@ == trimmed(s@),
{
    let cs: Vec<char> = chars_of(s);
    let mut from: usize = 0;
    assert(s@.subrange(0, s@.len() as int) =~= s@);
    while from < cs.len() && is_white_space(cs[from])
        invariant
            cs@ == s@,
            from <= cs.len(),
            trimmed_start(s@) == trimmed_start(s@.subrange(from as int, s@.len() as int)),
        decreases cs.len() - from,
    {
        assert(s@.subrange(from as int, s@.len() as int).drop_first() =~= s@.subrange(
            from + 1,
            s@.len() as int,
        ));
        from = from + 1;
    }
    let mut to: usize = cs.len();
    let ghost start: Seq<char> = s@.subrange(from as int, s@.len() as int);
    assert(trimmed_start(s@) == start);
    while to > from && is_white_space(cs[to - 1])
        invariant
            cs@ == s@,
            from <= to <= cs.len(),
            trimmed_end(start) == trimmed_end(s@.subrange(from as int, to as int)),
        decreases to,
    {
        assert(s@.subrange(from as int, to as int).drop_last() =~= s@.subrange(
            from as int,
            to - 1,
        ));
        to = to - 1;
    }
    s.substring_char(from, to)
}

// ---------------------------------------------------------------------------
// Numbers
// ---------------------------------------------------------------------------

/// Why a text is not a number.
#[derive(Clone, Copy, Debug, PartialEq, Eq, Structural)]
pub enum NumberError {
    /// There is nothing to read.
    Empty,
    /// A character is not a digit of the base.
    InvalidDigit,
    /// The number does not fit.
    TooLarge,
}

/// The value of `c` as a digit of base `radix`.
pub open spec fn digit_value(c: char, radix: nat) -> Option<nat> {
    let d = if '0' <= c <= '9' {
        c as int - '0' as int
    } else if 'a' <= c <= 'z' {
        c as int - 'a' as int + 10
    } else if 'A' <= c <= 'Z' {
        c as int - 'A' as int + 10
    } else {
        36
    };
    if d < radix {
        Some(d as nat)
    } else {
        None
    }
}

/// Are all characters of `s` digits of base `radix`?
pub open spec fn all_digits(s: Seq<char>, radix: nat) -> bool {
    forall|i: int| 0 <= i < s.len() ==> digit_value(#[trigger] s[i], radix) is Some
}

/// The number that a sequence of digits stands for.
pub open spec fn value(s: Seq<char>, radix: nat) -> nat
    decreases s.len(),
{
    if s.len() == 0 {
        0
    } else {
        value(s.drop_last(), radix) * radix + digit_value(s.last(), radix)->0
    }
}

/// How many characters at the start of `s` are digits.
pub open spec fn digit_run(s: Seq<char>, radix: nat) -> nat
    decreases s.len(),
{
    if s.len() > 0 && digit_value(s[0], radix) is Some {
        1 + digit_run(s.drop_first(), radix)
    } else {
        0
    }
}

/// `s` without a plus sign in front of it; a plus sign alone stays.
pub open spec fn without_plus(s: Seq<char>) -> Seq<char> {
    if s.len() > 1 && s[0] == '+' {
        s.drop_first()
    } else {
        s
    }
}

/// The 32-bit number that `s` stands for in base `radix`: an optional plus sign and digits.
/// Where digits that do not fit come before a character that is no digit, they are the error.
pub open spec fn number(s: Seq<char>, radix: nat) -> Result<u32, NumberError> {
    let body = without_plus(s);
    let run = digit_run(body, radix);
    if s.len() == 0 {
        Err(NumberError::Empty)
    } else if value(body.take(run as int), radix) > u32::MAX {
        Err(NumberError::TooLarge)
    } else if run < body.len() {
        Err(NumberError::InvalidDigit)
    } else {
        Ok(value(body, radix) as u32)
    }
}

proof fn lemma_digit_run(s: Seq<char>, radix: nat)
    ensures
        digit_run(s, radix) <= s.len(),
        all_digits(s.take(digit_run(s, radix) as int), radix),
        digit_run(s, radix) < s.len() ==> digit_value(s[digit_run(s, radix) as int], radix) is None,
    decreases s.len(),
{
    if s.len() > 0 && digit_value(s[0], radix) is Some {
        lemma_digit_run(s.drop_first(), radix);
        let run = digit_run(s, radix) as int;
        assert forall|i: int| 0 <= i < run implies digit_value(
            #[trigger] s.take(run)[i],
            radix,
        ) is Some by {
            if i > 0 {
                assert(s.drop_first().take(run - 1)[i - 1] == s[i]);
            }
        }
    }
}

/// The leading run is the longest one: a position up to which all are digits lies within it.
proof fn lemma_run_covers(s: Seq<char>, radix: nat, k: int)
    requires
        0 <= k <= s.len(),
        all_digits(s.take(k), radix),
    ensures
        k <= digit_run(s, radix),
    decreases s.len(),
{
    if k > 0 {
        assert(s.take(k)[0] == s[0]);
        assert forall|i: int| 0 <= i < k - 1 implies digit_value(
            #[trigger] s.drop_first().take(k - 1)[i],
            radix,
        ) is Some by {
            assert(s.take(k)[i + 1] == s.drop_first().take(k - 1)[i]);
        }
        lemma_run_covers(s.drop_first(), radix, k - 1);
    }
}

/// More digits make no smaller number.
proof fn lemma_value_monotonic(s: Seq<char>, radix: nat, k: int, n: int)
    requires
        radix >= 1,
        0 <= k <= n <= s.len(),
    ensures
        value(s.take(k), radix) <= value(s.take(n), radix),
    decreases n - k,
{
    if k < n {
        lemma_value_monotonic(s, radix, k, n - 1);
        assert(s.take(n).drop_last() =~= s.take(n - 1));
        let v = value(s.take(n - 1), radix);
        assert(v <= v * radix) by (nonlinear_arith)
            requires
                radix >= 1,
        ;
    }
}

fn digit_of(c: char, radix: u32) -> (d: Option<u32>)
    requires
        radix <= 36,
    ensures
        d is Some <==> digit_value(c, radix as nat) is Some,
        d matches Some(x) ==> x == digit_value(c, radix as nat)->0 && x < radix,
{
    let d: u32 = if '0' <= c && c <= '9' {
        c as u32 - 48
    } else if 'a' <= c && c <= 'z' {
        c as u32 - 97 + 10
    } else if 'A' <= c && c <= 'Z' {
        c as u32 - 65 + 10
    } else {
        36
    };
    if d < radix {
        Some(d)
    } else {
        None
    }
}

/// Reads a 32-bit number in base `radix` from the whole of `s`.
pub fn parse_radix(s: &str, radix: u32) -> (r: Result<u32, NumberError>)
    requires
        2 <= radix <= 36,
    ensures
        r == number(s@, radix as nat),
{
    let cs: Vec<char> = chars_of(s);
    if cs.len() == 0 {
        return Err(NumberError::Empty);
    }
    let start: usize = if cs.len() > 1 && cs[0] == '+' {
        1
    } else {
        0
    };
    let ghost body: Seq<char> = without_plus(s@);
    assert(body =~= cs@.subrange(start as int, cs@.len() as int));
    let mut acc: u32 = 0;
    let mut i: usize = start;
    proof {
        lemma_digit_run(body, radix as nat);
    }
    while i < cs.len()
        invariant
            2 <= radix <= 36,
            start <= i <= cs.len(),
            body == cs@.subrange(start as int, cs@.len() as int),
            all_digits(body.take(i - start), radix as nat),
            acc == value(body.take(i - start), radix as nat),
            s@.len() > 0,
            body == without_plus(s@),
        decreases cs.len() - i,
    {
        let ghost k: int = i - start;
        proof {
            lemma_digit_run(body, radix as nat);
            assert(body[k] == cs@[i as int]);
            assert(body.take(k + 1).drop_last() =~= body.take(k));
            assert(body.take(k + 1).last() == body[k]);
            lemma_run_covers(body, radix as nat, k);
        }
        match digit_of(cs[i], radix) {
            None => {
                assert(digit_run(body, radix as nat) == k) by {
                    if digit_run(body, radix as nat) > k {
                        assert(body.take(digit_run(body, radix as nat) as int)[k] == body[k]);
                    }
                }
                return Err(NumberError::InvalidDigit);
            },
            Some(d) => {
                assert(all_digits(body.take(k + 1), radix as nat)) by {
                    assert forall|j: int| 0 <= j < k + 1 implies digit_value(
                        #[trigger] body.take(k + 1)[j],
                        radix as nat,
                    ) is Some by {
                        if j < k {
                            assert(body.take(k)[j] == body.take(k + 1)[j]);
                        }
                    }
                }
                assert(acc * radix <= 0xFFFF_FFFF * 36) by (nonlinear_arith)
                    requires
                        acc <= 0xFFFF_FFFF,
                        radix <= 36,
                ;
                let next: u64 = (acc as u64) * (radix as u64) + (d as u64);
                assert(next == value(body.take(k + 1), radix as nat));
                if next > 0xFFFF_FFFF {
                    proof {
                        lemma_run_covers(body, radix as nat, k + 1);
                        lemma_value_monotonic(
                            body,
                            radix as nat,
                            k + 1,
                            digit_run(body, radix as nat) as int,
                        );
                    }
                    return Err(NumberError::TooLarge);
                }
                acc = next as u32;
            },
        }
        i = i + 1;
    }
    proof {
        assert(body.take(body.len() as int) =~= body);
        lemma_run_covers(body, radix as nat, body.len() as int);
    }
    Ok(acc)
}

// ---------------------------------------------------------------------------
// Command line numbers and prompt addresses
// ---------------------------------------------------------------------------

/// What follows a leading `0x` or `0X`, if `s` has one.
pub open spec fn after_hex_prefix(s: Seq<char>) -> Option<Seq<char>> {
    if s.len() >= 2 && s[0] == '0' && (s[1] == 'x' || s[1] == 'X') {
        Some(s.skip(2))
    } else {
        None
    }
}

/// The number that a command line argument stands for: hexadecimal behind `0x` or `0X`, decimal
/// without. White space around it does not count.
pub open spec fn argument_number(s: Seq<char>) -> Result<u32, NumberError> {
    match after_hex_prefix(trimmed(s)) {
        Some(h) => number(h, 16),
        None => number(trimmed(s), 10),
    }
}

/// The address that a text in the go-to prompt stands for: hexadecimal, with or without `0x` or
/// `0X`. White space around it does not count.
pub open spec fn prompt_address(s: Seq<char>) -> Result<u32, NumberError> {
    match after_hex_prefix(trimmed(s)) {
        Some(h) => number(h, 16),
        None => number(trimmed(s), 16),
    }
}

/// The words for a `NumberError`.
pub open spec fn number_error_text(e: NumberError) -> Seq<char> {
    match e {
        NumberError::Empty => "cannot parse integer from empty string"@,
        NumberError::InvalidDigit => "invalid digit found in string"@,
        NumberError::TooLarge => "number too large to fit in target type"@,
    }
}

/// The message about an argument that is no number.
pub open spec fn invalid_number_text(s: Seq<char>, e: NumberError) -> Seq<char> {
    "invalid number `"@ + trimmed(s) + "`: "@ + number_error_text(e)
}

impl NumberError {
    /// The words for this error.
    pub fn message(&self) -> (out: &'static str)
        ensures
            out@ == number_error_text(*self),
    {
        match self {
            NumberError::Empty => "cannot parse integer from empty string",
            NumberError::InvalidDigit => "invalid digit found in string",
            NumberError::TooLarge => "number too large to fit in target type",
        }
    }
}

fn strip_hex_prefix(s: &str) -> (out: Option<&str>)
    ensures
        match out {
            Some(h) => after_hex_prefix(s@) == Some(h@),
            None => after_hex_prefix(s@) is None,
        },
{
    let n: usize = s.unicode_len();
    if n >= 2 && s.get_char(0) == '0' && (s.get_char(1) == 'x' || s.get_char(1) == 'X') {
        let h: &str = s.substring_char(2, n);
        assert(h@ =~= s@.skip(2));
        Some(h)
    } else {
        None
    }
}

/// Reads a number with an optional `0x` or `0X` prefix (hexadecimal) or plain decimal.
pub fn parse_u32(s: &str) -> (r: Result<u32, String>)
    ensures
        match r {
            Ok(v) => argument_number(s@) == Ok::<u32, NumberError>(v),
            Err(text) => argument_number(s@) is Err && text@ == invalid_number_text(
                s@,
                argument_number(s@)->Err_0,
            ),
        },
{
    let t: &str = trim(s);
    let v: Result<u32, NumberError> = match strip_hex_prefix(t) {
        Some(h) => parse_radix(h, 16),
        None => parse_radix(t, 10),
    };
    match v {
        Ok(v) => Ok(v),
        Err(e) => {
            let mut text: String = "invalid number `".to_owned();
            text.append(t);
            text.append("`: ");
            text.append(e.message());
            Err(text)
        },
    }
}

/// Reads a number as [`parse_u32`] does, for a count of bytes.
pub fn parse_usize(s: &str) -> (r: Result<usize, String>)
    ensures
        match r {
            Ok(v) => argument_number(s@) is Ok && v == argument_number(s@)->Ok_0,
            Err(text) => argument_number(s@) is Err && text@ == invalid_number_text(
                s@,
                argument_number(s@)->Err_0,
            ),
        },
{
    match parse_u32(s) {
        Ok(v) => Ok(v as usize),
        Err(text) => Err(text),
    }
}

/// Reads a hexadecimal address, with or without a `0x` or `0X` prefix.
pub fn parse_address(s: &str) -> (r: Result<u32, NumberError>)
    ensures
        r == prompt_address(s@),
{
    let t: &str = trim(s);
    match strip_hex_prefix(t) {
        Some(h) => parse_radix(h, 16),
        None => parse_radix(t, 16),
    }
}

// ---------------------------------------------------------------------------
// Laws
// ---------------------------------------------------------------------------

/// A digit that was written is read back.
proof fn lemma_digit_back(d: int, radix: nat)
    requires
        0 <= d < radix <= 36,
    ensures
        digit_value(digit_char(d), radix) == Some(d as nat),
        !is_white(digit_char(d)),
        digit_char(d) != '+',
        digit_char(d) != 'x',
        digit_char(d) != 'X' || d == 33,
{
}

/// The digits of a number stand for that number.
pub proof fn lemma_digits_back(v: nat, radix: nat)
    requires
        2 <= radix <= 36,
    ensures
        digits(v, radix).len() >= 1,
        all_digits(digits(v, radix), radix),
        value(digits(v, radix), radix) == v,
    decreases v,
{
    let s = digits(v, radix);
    if v < radix {
        lemma_digit_back(v as int, radix);
        assert(s.drop_last() =~= Seq::empty());
        assert(value(Seq::empty(), radix) == 0);
        assert(0 * radix == 0);
    } else {
        assert(v / radix < v) by (nonlinear_arith)
            requires
                radix >= 2,
                v >= radix,
        ;
        lemma_digits_back(v / radix, radix);
        lemma_digit_back((v % radix) as int, radix);
        assert(s.drop_last() =~= digits(v / radix, radix));
        vstd::arithmetic::div_mod::lemma_fundamental_div_mod(v as int, radix as int);
        assert((v / radix) * radix == radix * (v / radix)) by (nonlinear_arith);
        assert forall|i: int| 0 <= i < s.len() implies digit_value(
            #[trigger] s[i],
            radix,
        ) is Some by {
            if i < s.len() - 1 {
                assert(s[i] == digits(v / radix, radix)[i]);
            }
        }
    }
}

/// Zeros in front of digits change nothing.
proof fn lemma_leading_zeros(n: nat, s: Seq<char>, radix: nat)
    requires
        radix >= 1,
        all_digits(s, radix),
    ensures
        all_digits(repeated('0', n) + s, radix),
        value(repeated('0', n) + s, radix) == value(s, radix),
    decreases n + s.len(),
{
    let t = repeated('0', n) + s;
    lemma_digit_back(0, if radix <= 36 { radix } else { 36 });
    if s.len() > 0 {
        assert(all_digits(s.drop_last(), radix)) by {
            assert forall|i: int| 0 <= i < s.len() - 1 implies digit_value(
                #[trigger] s.drop_last()[i],
                radix,
            ) is Some by {
                assert(s.drop_last()[i] == s[i]);
            }
        }
        lemma_leading_zeros(n, s.drop_last(), radix);
        assert(t.drop_last() =~= repeated('0', n) + s.drop_last());
        assert(t.last() == s.last());
    } else if n > 0 {
        lemma_leading_zeros((n - 1) as nat, s, radix);
        assert(t.drop_last() =~= repeated('0', (n - 1) as nat) + s);
        assert(t.last() == '0');
        assert(0 * radix == 0);
    }
    assert forall|i: int| 0 <= i < t.len() implies digit_value(#[trigger] t[i], radix) is Some by {
        if i < n {
            assert(t[i] == '0');
        } else {
            assert(t[i] == s[i - n]);
        }
    }
}

/// Digits without a sign are read as the number that they stand for, if it fits.
proof fn lemma_digits_number(s: Seq<char>, radix: nat)
    requires
        1 <= radix <= 36,
        s.len() > 0,
        all_digits(s, radix),
        value(s, radix) <= u32::MAX,
    ensures
        number(s, radix) == Ok::<u32, NumberError>(value(s, radix) as u32),
{
    assert(digit_value(s[0], radix) is Some);
    assert(without_plus(s) == s);
    assert(s.take(s.len() as int) =~= s);
    lemma_run_covers(s, radix, s.len() as int);
    lemma_digit_run(s, radix);
}

/// Text that neither begins nor ends with white space is left alone by trimming.
proof fn lemma_trimmed_same(s: Seq<char>)
    requires
        s.len() > 0,
        !is_white(s[0]),
        !is_white(s.last()),
    ensures
        trimmed(s) == s,
{
}

/// Trimmed text neither begins nor ends with white space.
proof fn lemma_trimmed_ends(s: Seq<char>)
    ensures
        trimmed(s).len() > 0 ==> !is_white(trimmed(s)[0]) && !is_white(trimmed(s).last()),
{
    lemma_start_end(s);
    lemma_end_end(trimmed_start(s));
}

proof fn lemma_start_end(s: Seq<char>)
    ensures
        trimmed_start(s).len() > 0 ==> !is_white(trimmed_start(s)[0]),
    decreases s.len(),
{
    if s.len() > 0 && is_white(s[0]) {
        lemma_start_end(s.drop_first());
    }
}

proof fn lemma_end_end(s: Seq<char>)
    ensures
        trimmed_end(s).len() > 0 ==> !is_white(trimmed_end(s).last()) && s.len() > 0
            && trimmed_end(s)[0] == s[0],
    decreases s.len(),
{
    if s.len() > 0 && is_white(s.last()) {
        lemma_end_end(s.drop_last());
    }
}

/// Trimming twice is trimming once, so white space around a number does not count.
pub proof fn lemma_white_space_does_not_count(s: Seq<char>)
    ensures
        trimmed(trimmed(s)) == trimmed(s),
        argument_number(trimmed(s)) == argument_number(s),
        prompt_address(trimmed(s)) == prompt_address(s),
{
    lemma_trimmed_ends(s);
    if trimmed(s).len() > 0 {
        lemma_trimmed_same(trimmed(s));
    }
}

/// A number written in hexadecimal, with any padding, has digits only, and they stand for it.
proof fn lemma_hex_back(v: u32, width: nat)
    ensures
        hex(v as nat, width).len() > 0,
        all_digits(hex(v as nat, width), 16),
        number(hex(v as nat, width), 16) == Ok::<u32, NumberError>(v),
{
    let d = digits(v as nat, 16);
    lemma_digits_back(v as nat, 16);
    if d.len() < width {
        lemma_leading_zeros((width - d.len()) as nat, d, 16);
    }
    lemma_digits_number(hex(v as nat, width), 16);
}

/// A digit of base 16 is neither white space nor the letter of a prefix.
proof fn lemma_hex_digit(c: char)
    requires
        digit_value(c, 16) is Some,
    ensures
        !is_white(c),
        c != 'x',
        c != 'X',
{
}

/// A number in decimal is read back as it was written.
pub proof fn lemma_decimal_round_trip(v: u32)
    ensures
        argument_number(decimal(v as nat)) == Ok::<u32, NumberError>(v),
{
    let d = decimal(v as nat);
    lemma_digits_back(v as nat, 10);
    assert(digit_value(d[0], 10) is Some);
    assert(digit_value(d.last(), 10) is Some);
    lemma_trimmed_same(d);
    if d.len() >= 2 {
        assert(digit_value(d[1], 10) is Some);
    }
    lemma_digits_number(d, 10);
}

/// A number in hexadecimal behind `0x` or `0X`, with any padding, is read back as it was written:
/// on the command line and in the prompt.
pub proof fn lemma_prefixed_hex_round_trip(v: u32, width: nat, x: char)
    requires
        x == 'x' || x == 'X',
    ensures
        argument_number(seq!['0', x] + hex(v as nat, width)) == Ok::<u32, NumberError>(v),
        prompt_address(seq!['0', x] + hex(v as nat, width)) == Ok::<u32, NumberError>(v),
{
    let h = hex(v as nat, width);
    let s = seq!['0', x] + h;
    lemma_hex_back(v, width);
    assert(digit_value(h.last(), 16) is Some);
    lemma_hex_digit(h.last());
    assert(s.last() == h.last());
    lemma_trimmed_same(s);
    assert(s.skip(2) =~= h);
}

/// The prompt reads an address in hexadecimal without a prefix, too, with any padding.
pub proof fn lemma_bare_hex_round_trip(v: u32, width: nat)
    ensures
        prompt_address(hex(v as nat, width)) == Ok::<u32, NumberError>(v),
{
    let h = hex(v as nat, width);
    lemma_hex_back(v, width);
    assert(digit_value(h[0], 16) is Some);
    assert(digit_value(h.last(), 16) is Some);
    lemma_hex_digit(h[0]);
    lemma_hex_digit(h.last());
    lemma_trimmed_same(h);
    if h.len() >= 2 {
        assert(digit_value(h[1], 16) is Some);
        lemma_hex_digit(h[1]);
    }
}

/// `c` as a small letter, if it is a capital letter of the alphabet.
pub open spec fn lower_char(c: char) -> char {
    if 'A' <= c <= 'Z' {
        (c as int - 'A' as int + 'a' as int) as char
    } else {
        c
    }
}

/// `s` with small letters for the capital letters of the alphabet.
pub open spec fn lowered(s: Seq<char>) -> Seq<char> {
    s.map_values(|c: char| lower_char(c))
}

/// A letter stands for the same digit in either case, and neither case is white space.
proof fn lemma_lower_char(c: char, radix: nat)
    ensures
        digit_value(lower_char(c), radix) == digit_value(c, radix),
        is_white(lower_char(c)) == is_white(c),
        (lower_char(c) == '+') == (c == '+'),
        (lower_char(c) == '0') == (c == '0'),
        (lower_char(c) == 'x') == (c == 'x' || c == 'X'),
        lower_char(c) != 'X',
{
}

proof fn lemma_lowered_trimmed_start(s: Seq<char>)
    ensures
        trimmed_start(lowered(s)) == lowered(trimmed_start(s)),
    decreases s.len(),
{
    if s.len() > 0 {
        lemma_lower_char(s[0], 10);
        lemma_lowered_trimmed_start(s.drop_first());
        assert(lowered(s).drop_first() =~= lowered(s.drop_first()));
    }
}

proof fn lemma_lowered_trimmed_end(s: Seq<char>)
    ensures
        trimmed_end(lowered(s)) == lowered(trimmed_end(s)),
    decreases s.len(),
{
    if s.len() > 0 {
        lemma_lower_char(s.last(), 10);
        lemma_lowered_trimmed_end(s.drop_last());
        assert(lowered(s).drop_last() =~= lowered(s.drop_last()));
    }
}

proof fn lemma_lowered_run(s: Seq<char>, radix: nat)
    ensures
        digit_run(lowered(s), radix) == digit_run(s, radix),
    decreases s.len(),
{
    if s.len() > 0 {
        lemma_lower_char(s[0], radix);
        lemma_lowered_run(s.drop_first(), radix);
        assert(lowered(s).drop_first() =~= lowered(s.drop_first()));
    }
}

proof fn lemma_lowered_value(s: Seq<char>, radix: nat)
    ensures
        value(lowered(s), radix) == value(s, radix),
    decreases s.len(),
{
    if s.len() > 0 {
        lemma_lower_char(s.last(), radix);
        lemma_lowered_value(s.drop_last(), radix);
        assert(lowered(s).drop_last() =~= lowered(s.drop_last()));
    }
}

proof fn lemma_lowered_number(s: Seq<char>, radix: nat)
    ensures
        number(lowered(s), radix) == number(s, radix),
{
    let body = without_plus(s);
    if s.len() > 0 {
        lemma_lower_char(s[0], radix);
    }
    assert(without_plus(lowered(s)) =~= lowered(body));
    lemma_lowered_run(body, radix);
    lemma_digit_run(body, radix);
    let run = digit_run(body, radix) as int;
    assert(lowered(body).take(run) =~= lowered(body.take(run)));
    lemma_lowered_value(body.take(run), radix);
    lemma_lowered_value(body, radix);
}

/// Small and capital letters are read alike: on the command line and in the prompt.
pub proof fn lemma_case_does_not_count(s: Seq<char>)
    ensures
        argument_number(lowered(s)) == argument_number(s),
        prompt_address(lowered(s)) == prompt_address(s),
{
    let t = trimmed(s);
    lemma_lowered_trimmed_start(s);
    lemma_lowered_trimmed_end(trimmed_start(s));
    assert(trimmed(lowered(s)) == lowered(t));
    if t.len() >= 2 {
        lemma_lower_char(t[0], 10);
        lemma_lower_char(t[1], 10);
        assert(lowered(t).skip(2) =~= lowered(t.skip(2)));
        lemma_lowered_number(t.skip(2), 16);
    }
    lemma_lowered_number(t, 10);
    lemma_lowered_number(t, 16);
}

/// A number in hexadecimal with small letters, behind `0x` or `0X` and with any padding, is read back
/// as it was written, and in the prompt without the prefix, too.
pub proof fn lemma_lower_hex_round_trip(v: u32, width: nat, x: char)
    requires
        x == 'x' || x == 'X',
    ensures
        argument_number(seq!['0', x] + lowered(hex(v as nat, width))) == Ok::<u32, NumberError>(v),
        prompt_address(seq!['0', x] + lowered(hex(v as nat, width))) == Ok::<u32, NumberError>(v),
        prompt_address(lowered(hex(v as nat, width))) == Ok::<u32, NumberError>(v),
{
    let h = hex(v as nat, width);
    let s = seq!['0', x] + lowered(h);
    lemma_prefixed_hex_round_trip(v, width, x);
    lemma_bare_hex_round_trip(v, width);
    lemma_case_does_not_count(h);
    lemma_case_does_not_count(s);
    lemma_case_does_not_count(seq!['0', x] + h);
    assert forall|i: int| 0 <= i < h.len() implies lower_char(lower_char(#[trigger] h[i]))
        == lower_char(h[i]) by {}
    assert(lowered(s) =~= lowered(seq!['0', x] + h));
}

/// Trimming takes white space away at both ends, all of it and nothing else.
pub proof fn lemma_trimmed_is_middle(s: Seq<char>)
    ensures
        exists|a: int, b: int|
            {
                &&& 0 <= a <= b <= s.len()
                &&& trimmed(s) == #[trigger] s.subrange(a, b)
                &&& forall|i: int| 0 <= i < a ==> is_white(#[trigger] s[i])
                &&& forall|i: int| b <= i < s.len() ==> is_white(#[trigger] s[i])
                &&& a < b ==> !is_white(s[a]) && !is_white(s[b - 1])
            },
{
    let a = lemma_start_cut(s);
    let t = s.subrange(a, s.len() as int);
    let n = lemma_end_cut(t);
    let b = a + n;
    assert(trimmed(s) =~= s.subrange(a, b));
    assert forall|i: int| b <= i < s.len() implies is_white(#[trigger] s[i]) by {
        assert(t[i - a] == s[i]);
    }
    if a < b {
        assert(t[n - 1] == s[b - 1]);
        assert(s.subrange(a, s.len() as int)[0] == s[a]);
    }
}

proof fn lemma_start_cut(s: Seq<char>) -> (a: int)
    ensures
        0 <= a <= s.len(),
        trimmed_start(s) == s.subrange(a, s.len() as int),
        forall|i: int| 0 <= i < a ==> is_white(#[trigger] s[i]),
        a < s.len() ==> !is_white(s[a]),
    decreases s.len(),
{
    if s.len() > 0 && is_white(s[0]) {
        let t = s.drop_first();
        let a = lemma_start_cut(t);
        assert(s.subrange(a + 1, s.len() as int) =~= t.subrange(a, t.len() as int));
        assert forall|i: int| 0 <= i < a + 1 implies is_white(#[trigger] s[i]) by {
            if i > 0 {
                assert(t[i - 1] == s[i]);
            }
        }
        a + 1
    } else {
        assert(s.subrange(0, s.len() as int) =~= s);
        0
    }
}

proof fn lemma_end_cut(s: Seq<char>) -> (b: int)
    ensures
        0 <= b <= s.len(),
        trimmed_end(s) == s.subrange(0, b),
        forall|i: int| b <= i < s.len() ==> is_white(#[trigger] s[i]),
        b > 0 ==> !is_white(s[b - 1]),
    decreases s.len(),
{
    if s.len() > 0 && is_white(s.last()) {
        let t = s.drop_last();
        let b = lemma_end_cut(t);
        assert(s.subrange(0, b) =~= t.subrange(0, b));
        assert forall|i: int| b <= i < s.len() implies is_white(#[trigger] s[i]) by {
            if i < t.len() {
                assert(t[i] == s[i]);
            }
        }
        b
    } else {
        assert(s.subrange(0, s.len() as int) =~= s);
        s.len() as int
    }
}

/// A digit of a base stands for its place among the ten digits and the letters, in either case, as
/// far as the base goes.
pub proof fn lemma_digit_values(c: char, radix: nat)
    requires
        radix <= 36,
    ensures
        digit_value(c, radix) matches Some(d) ==> d < radix && (if d < 10 {
            c as int == 0x30 + d
        } else {
            c as int == 0x41 + (d - 10) || c as int == 0x61 + (d - 10)
        }),
        0x30 <= c as int <= 0x39 && c as int - 0x30 < radix ==> digit_value(c, radix) is Some,
        0x41 <= c as int <= 0x5A && c as int - 0x41 + 10 < radix ==> digit_value(c, radix) is Some,
        0x61 <= c as int <= 0x7A && c as int - 0x61 + 10 < radix ==> digit_value(c, radix) is Some,
{
}

/// Another digit makes a number its base times as large, and adds the digit.
pub proof fn lemma_value_grows(s: Seq<char>, c: char, radix: nat)
    ensures
        value(Seq::empty(), radix) == 0,
        digit_value(c, radix) matches Some(d) ==> value(s.push(c), radix) == value(s, radix) * radix
            + d,
{
    assert(s.push(c).drop_last() =~= s);
}

/// What is read as a number: digits, at least one, behind a plus sign or not, that stand for no more
/// than 32 bits hold. If digits that do not fit come first, that is the error, whatever follows them;
/// otherwise it is a character that is no digit. No text at all is an error of its own.
pub proof fn lemma_number_reads(s: Seq<char>, body: Seq<char>, radix: nat)
    requires
        1 <= radix,
        s.len() > 1 && s[0] == '+' ==> s == seq!['+'] + body,
        !(s.len() > 1 && s[0] == '+') ==> s == body,
    ensures
        ({
            let digits_only = forall|i: int|
                0 <= i < body.len() ==> digit_value(#[trigger] body[i], radix) is Some;
            let overflows = exists|k: int| #[trigger] overflows_at(body, radix, k);
            match number(s, radix) {
                Ok(v) => s.len() > 0 && digits_only && !overflows && v == value(body, radix),
                Err(NumberError::Empty) => s.len() == 0,
                Err(NumberError::TooLarge) => s.len() > 0 && overflows,
                Err(NumberError::InvalidDigit) => s.len() > 0 && !digits_only && !overflows,
            }
        }),
{
    assert(without_plus(s) =~= body);
    let run = digit_run(body, radix) as int;
    lemma_digit_run(body, radix);
    if value(body.take(run), radix) > u32::MAX {
        assert forall|i: int| 0 <= i < run implies digit_value(
            #[trigger] body[i],
            radix,
        ) is Some by {
            assert(body.take(run)[i] == body[i]);
        }
        assert(overflows_at(body, radix, run));
    } else {
        assert forall|k: int| !#[trigger] overflows_at(body, radix, k) by {
            if overflows_at(body, radix, k) {
                assert(all_digits(body.take(k), radix)) by {
                    assert forall|i: int| 0 <= i < k implies digit_value(
                        #[trigger] body.take(k)[i],
                        radix,
                    ) is Some by {
                        assert(body.take(k)[i] == body[i]);
                    }
                }
                lemma_run_covers(body, radix, k);
                lemma_value_monotonic(body, radix, k, run);
            }
        }
        if run == body.len() {
            assert(body.take(run) =~= body);
            assert forall|i: int| 0 <= i < body.len() implies digit_value(
                #[trigger] body[i],
                radix,
            ) is Some by {
                assert(body.take(run)[i] == body[i]);
            }
        } else {
            assert(digit_value(body[run], radix) is None);
        }
    }
}

/// Are the first `k` characters of `s` digits that stand for more than 32 bits hold?
pub open spec fn overflows_at(s: Seq<char>, radix: nat, k: int) -> bool {
    &&& 0 <= k <= s.len()
    &&& forall|i: int| 0 <= i < k ==> digit_value(#[trigger] s[i], radix) is Some
    &&& value(s.take(k), radix) > 0xFFFF_FFFF
}

/// Behind `0x` or `0X` a number is hexadecimal, on the command line and in the prompt. Without, it is
/// decimal on the command line and hexadecimal in the prompt.
pub proof fn lemma_number_forms(s: Seq<char>, x: char)
    requires
        s.len() > 0 ==> !is_white(s[0]) && !is_white(s.last()),
        x == 'x' || x == 'X',
    ensures
        argument_number(seq!['0', x] + s) == number(s, 16),
        prompt_address(seq!['0', x] + s) == number(s, 16),
        !(s.len() >= 2 && s[0] == '0' && (s[1] == 'x' || s[1] == 'X')) ==> argument_number(s)
            == number(s, 10) && prompt_address(s) == number(s, 16),
{
    let t = seq!['0', x] + s;
    if s.len() > 0 {
        assert(t.last() == s.last());
        lemma_trimmed_same(s);
    } else {
        assert(t.last() == x);
    }
    lemma_trimmed_same(t);
    assert(t.skip(2) =~= s);
}

/// What is said of a text that is no number: the text, without the white space around it, and why.
pub proof fn lemma_number_messages(s: Seq<char>, e: NumberError)
    ensures
        invalid_number_text(s, e) == "invalid number `"@ + trimmed(s) + "`: "@ + match e {
            NumberError::Empty => "cannot parse integer from empty string"@,
            NumberError::InvalidDigit => "invalid digit found in string"@,
            NumberError::TooLarge => "number too large to fit in target type"@,
        },
{
}

} // verus!
