//! Words: the values that groups of bytes stand for, and their text.

use crate::app::Endian;
use crate::text::{
    digits, format_hex, hex, lemma_digit_chars, lemma_hex_digit_count, lemma_hex_of_bytes, pow256,
    repeated,
};
use vstd::prelude::*;

verus! {

/// The number that `bytes` stand for, least significant first.
pub open spec fn little_endian(bytes: Seq<u8>) -> nat
    decreases bytes.len(),
{
    if bytes.len() == 0 {
        0
    } else {
        bytes[0] as nat + 256 * little_endian(bytes.drop_first())
    }
}

/// The number that `bytes` stand for, most significant first.
pub open spec fn big_endian(bytes: Seq<u8>) -> nat
    decreases bytes.len(),
{
    if bytes.len() == 0 {
        0
    } else {
        256 * big_endian(bytes.drop_last()) + bytes.last() as nat
    }
}

/// The number that `bytes` stand for.
pub open spec fn word_value(bytes: Seq<u8>, endian: Endian) -> nat {
    match endian {
        Endian::Little => little_endian(bytes),
        Endian::Big => big_endian(bytes),
    }
}

/// The bytes one by one, two digits each.
pub open spec fn byte_digits(bytes: Seq<u8>) -> Seq<char>
    decreases bytes.len(),
{
    if bytes.len() == 0 {
        Seq::empty()
    } else {
        byte_digits(bytes.drop_last()) + hex(bytes.last() as nat, 2)
    }
}

/// The text of a word: the value of its bytes for words of 1, 2, 4 and 8 bytes, the bytes one by
/// one for others.
pub open spec fn word_text(bytes: Seq<u8>, word_size: nat, endian: Endian) -> Seq<char> {
    if word_size == 1 {
        hex(bytes[0] as nat, 2)
    } else if word_size == 2 || word_size == 4 || word_size == 8 {
        hex(word_value(bytes, endian), 2 * word_size)
    } else {
        byte_digits(bytes)
    }
}

proof fn lemma_little_endian_push(s: Seq<u8>, b: u8)
    ensures
        little_endian(s.push(b)) == little_endian(s) + pow256(s.len()) * b,
    decreases s.len(),
{
    if s.len() == 0 {
        assert(s.push(b).drop_first() =~= Seq::empty());
        reveal_with_fuel(little_endian, 2);
        assert(pow256(0) * b == b) by {
            assert(pow256(0) == 1);
        }
    } else {
        let t = s.drop_first();
        lemma_little_endian_push(t, b);
        assert(s.push(b).drop_first() =~= t.push(b));
        let p = pow256(t.len());
        assert(s.push(b)[0] == s[0]);
        assert(pow256(s.len()) == 256 * p);
        assert(256 * (little_endian(t) + p * b) == 256 * little_endian(t) + (256 * p) * b)
            by (nonlinear_arith);
    }
}

proof fn lemma_little_endian_bound(s: Seq<u8>)
    ensures
        little_endian(s) < pow256(s.len()),
    decreases s.len(),
{
    if s.len() > 0 {
        lemma_little_endian_bound(s.drop_first());
    }
}

proof fn lemma_big_endian_bound(s: Seq<u8>)
    ensures
        big_endian(s) < pow256(s.len()),
    decreases s.len(),
{
    if s.len() > 0 {
        lemma_big_endian_bound(s.drop_last());
    }
}

proof fn lemma_pow256_values()
    ensures
        pow256(0) == 1,
        pow256(1) == 0x100,
        pow256(2) == 0x1_0000,
        pow256(3) == 0x100_0000,
        pow256(4) == 0x1_0000_0000,
        pow256(5) == 0x100_0000_0000,
        pow256(6) == 0x1_0000_0000_0000,
        pow256(7) == 0x100_0000_0000_0000,
        pow256(8) == 0x1_0000_0000_0000_0000,
{
    reveal_with_fuel(pow256, 9);
}

fn little_endian_value(bytes: &[u8]) -> (v: u64)
    requires
        bytes@.len() <= 8,
    ensures
        v == little_endian(bytes@),
{
    let mut v: u64 = 0;
    let mut scale: u128 = 1;
    let mut i: usize = 0;
    assert(bytes@.take(0) =~= Seq::empty());
    while i < bytes.len()
        invariant
            i <= bytes@.len() <= 8,
            v == little_endian(bytes@.take(i as int)),
            scale == pow256(i as nat),
        decreases bytes.len() - i,
    {
        proof {
            lemma_pow256_values();
            assert(bytes@.take(i + 1) =~= bytes@.take(i as int).push(bytes@[i as int]));
            lemma_little_endian_push(bytes@.take(i as int), bytes@[i as int]);
            lemma_little_endian_bound(bytes@.take(i + 1));
            assert(pow256((i + 1) as nat) <= 0x1_0000_0000_0000_0000) by {
                assert(i + 1 == 1 || i + 1 == 2 || i + 1 == 3 || i + 1 == 4 || i + 1 == 5 || i + 1
                    == 6 || i + 1 == 7 || i + 1 == 8);
            }
        }
        let add: u64 = (scale as u64) * (bytes[i] as u64);
        v = v + add;
        scale = scale * 256;
        i = i + 1;
    }
    assert(bytes@.take(bytes@.len() as int) =~= bytes@);
    v
}

fn big_endian_value(bytes: &[u8]) -> (v: u64)
    requires
        bytes@.len() <= 8,
    ensures
        v == big_endian(bytes@),
{
    let mut v: u64 = 0;
    let mut i: usize = 0;
    assert(bytes@.take(0) =~= Seq::empty());
    while i < bytes.len()
        invariant
            i <= bytes@.len() <= 8,
            v == big_endian(bytes@.take(i as int)),
        decreases bytes.len() - i,
    {
        proof {
            lemma_pow256_values();
            assert(bytes@.take(i + 1).drop_last() =~= bytes@.take(i as int));
            lemma_big_endian_bound(bytes@.take(i + 1));
            assert(pow256((i + 1) as nat) <= 0x1_0000_0000_0000_0000) by {
                assert(i + 1 == 1 || i + 1 == 2 || i + 1 == 3 || i + 1 == 4 || i + 1 == 5 || i + 1
                    == 6 || i + 1 == 7 || i + 1 == 8);
            }
        }
        v = v * 256 + bytes[i] as u64;
        i = i + 1;
    }
    assert(bytes@.take(bytes@.len() as int) =~= bytes@);
    v
}

/// Formats `word_size` bytes as the J-Link viewer does: a grouped value. For multi-byte words the
/// bytes are interpreted with the configured endianness.
pub fn format_word(bytes: &[u8], word_size: usize, endian: Endian) -> (out: String)
    requires
        word_size == 1 ==> bytes@.len() >= 1,
        word_size == 2 || word_size == 4 || word_size == 8 ==> bytes@.len() <= 8,
    ensures
        out@ == word_text(bytes@, word_size as nat, endian),
{
    if word_size == 1 {
        format_hex(bytes[0] as u64, 2)
    } else if word_size == 2 || word_size == 4 || word_size == 8 {
        let v: u64 = match endian {
            Endian::Little => little_endian_value(bytes),
            Endian::Big => big_endian_value(bytes),
        };
        format_hex(v, word_size * 2)
    } else {
        let mut out: String = String::new();
        let mut i: usize = 0;
        assert(bytes@.take(0) =~= Seq::empty());
        while i < bytes.len()
            invariant
                i <= bytes@.len(),
                out@ == byte_digits(bytes@.take(i as int)),
            decreases bytes.len() - i,
        {
            assert(bytes@.take(i + 1).drop_last() =~= bytes@.take(i as int));
            out.append(format_hex(bytes[i] as u64, 2).as_str());
            i = i + 1;
        }
        assert(bytes@.take(bytes@.len() as int) =~= bytes@);
        out
    }
}

// ---------------------------------------------------------------------------
// Laws
// ---------------------------------------------------------------------------

/// The same bytes the other way round stand for the same number in the other byte order.
pub proof fn lemma_byte_order(bytes: Seq<u8>)
    ensures
        big_endian(bytes.reverse()) == little_endian(bytes),
        little_endian(bytes.reverse()) == big_endian(bytes),
    decreases bytes.len(),
{
    if bytes.len() > 0 {
        lemma_byte_order(bytes.drop_first());
        assert(bytes.reverse().drop_last() =~= bytes.drop_first().reverse());
        assert(bytes.reverse().last() == bytes[0]);
        lemma_byte_order(bytes.drop_last());
        assert(bytes.reverse().drop_first() =~= bytes.drop_last().reverse());
        assert(bytes.reverse()[0] == bytes.last());
    }
}

/// The text of a word of 1, 2, 4 or 8 bytes has two digits for each byte of the word, also where
/// the region ends within the word.
pub proof fn lemma_word_text_width(bytes: Seq<u8>, word_size: nat, endian: Endian)
    requires
        word_size == 1 || word_size == 2 || word_size == 4 || word_size == 8,
        1 <= bytes.len() <= word_size,
    ensures
        word_text(bytes, word_size, endian).len() == 2 * word_size,
{
    lemma_pow256_values();
    if word_size == 1 {
        lemma_hex_digit_count(bytes[0] as nat, 1);
    } else {
        lemma_little_endian_bound(bytes);
        lemma_big_endian_bound(bytes);
        lemma_pow256_grows(bytes.len(), word_size);
        lemma_hex_digit_count(word_value(bytes, endian), word_size);
    }
}

proof fn lemma_pow256_grows(m: nat, n: nat)
    requires
        m <= n,
    ensures
        pow256(m) <= pow256(n),
    decreases n,
{
    if m < n {
        lemma_pow256_grows(m, (n - 1) as nat);
    }
}

/// The two digits of a byte.
pub proof fn lemma_byte_text(b: u8)
    ensures
        hex(b as nat, 2).len() == 2,
        hex(b as nat, 2)[0] == seq!['0', '1', '2', '3', '4', '5', '6', '7', '8', '9', 'A', 'B', 'C', 'D', 'E', 'F'][b as int / 16],
        hex(b as nat, 2)[1] == seq!['0', '1', '2', '3', '4', '5', '6', '7', '8', '9', 'A', 'B', 'C', 'D', 'E', 'F'][b as int % 16],
{
    lemma_pow256_values();
    lemma_hex_digit_count(b as nat, 1);
    lemma_digit_chars(b as int / 16);
    lemma_digit_chars(b as int % 16);
    if b < 16 {
        assert(digits(b as nat, 16).len() == 1);
    } else {
        assert(digits(b as nat / 16, 16).len() == 1);
    }
}

/// The value of bytes, most significant first, is written as the bytes are, one after another.
proof fn lemma_big_endian_text(bytes: Seq<u8>)
    requires
        bytes.len() >= 1,
    ensures
        hex(big_endian(bytes), 2 * bytes.len()) == byte_digits(bytes),
    decreases bytes.len(),
{
    let front = bytes.drop_last();
    if bytes.len() == 1 {
        assert(big_endian(front) == 0);
        assert(byte_digits(front) =~= Seq::empty());
        assert(byte_digits(bytes) =~= hex(bytes.last() as nat, 2));
    } else {
        lemma_big_endian_text(front);
        lemma_big_endian_bound(front);
        lemma_hex_of_bytes(big_endian(front), bytes.last() as nat, front.len());
    }
}

/// Bytes one by one: byte `i` has the digits `2i` and `2i + 1`.
pub proof fn lemma_byte_digits(bytes: Seq<u8>, i: int)
    requires
        0 <= i < bytes.len(),
    ensures
        byte_digits(bytes).len() == 2 * bytes.len(),
        byte_digits(bytes)[2 * i] == seq!['0', '1', '2', '3', '4', '5', '6', '7', '8', '9', 'A', 'B', 'C', 'D', 'E', 'F'][bytes[i] as int / 16],
        byte_digits(bytes)[2 * i + 1] == seq!['0', '1', '2', '3', '4', '5', '6', '7', '8', '9', 'A', 'B', 'C', 'D', 'E', 'F'][bytes[i] as int % 16],
    decreases bytes.len(),
{
    let front = bytes.drop_last();
    lemma_byte_text(bytes.last());
    lemma_byte_digits_len(front);
    if i < front.len() {
        lemma_byte_digits(front, i);
    }
}

proof fn lemma_byte_digits_len(bytes: Seq<u8>)
    ensures
        byte_digits(bytes).len() == 2 * bytes.len(),
    decreases bytes.len(),
{
    if bytes.len() > 0 {
        lemma_byte_digits_len(bytes.drop_last());
        lemma_byte_text(bytes.last());
    }
}

/// A number written wider than it has to be has zeros in front.
proof fn lemma_hex_widened(v: nat, bytes: nat, wider: nat)
    requires
        1 <= bytes <= wider,
        v < pow256(bytes),
    ensures
        hex(v, 2 * wider) == repeated('0', (2 * (wider - bytes)) as nat) + hex(v, 2 * bytes),
{
    lemma_hex_digit_count(v, bytes);
    assert(hex(v, 2 * wider) =~= repeated('0', (2 * (wider - bytes)) as nat) + hex(v, 2 * bytes));
}

/// The text of a word of 1, 2, 4 or 8 bytes shows every byte of it with two digits. In big-endian
/// order byte `i` of a full word has the digits `2i` and `2i + 1`; in little-endian order the bytes come
/// the other way round. Where the region ends within the word, the bytes that are there stand at the
/// end of the text, and in front of them are zeros.
pub proof fn lemma_word_digits(bytes: Seq<u8>, word_size: nat, endian: Endian, i: int)
    requires
        word_size == 1 || word_size == 2 || word_size == 4 || word_size == 8,
        0 <= i < bytes.len() <= word_size,
    ensures
        ({
            let text = word_text(bytes, word_size, endian);
            let at = match endian {
                Endian::Big => 2 * (word_size - bytes.len() + i),
                Endian::Little => 2 * (word_size - 1 - i),
            };
            &&& text.len() == 2 * word_size
            &&& text[at] == seq!['0', '1', '2', '3', '4', '5', '6', '7', '8', '9', 'A', 'B', 'C', 'D', 'E', 'F'][bytes[i] as int / 16]
            &&& text[at + 1] == seq!['0', '1', '2', '3', '4', '5', '6', '7', '8', '9', 'A', 'B', 'C', 'D', 'E', 'F'][bytes[i] as int % 16]
            &&& forall|j: int| 0 <= j < 2 * (word_size - bytes.len()) ==> #[trigger] text[j] == '0'
        }),
{
    let m = bytes.len();
    if word_size == 1 {
        lemma_byte_text(bytes[0]);
    } else {
        let ordered = match endian {
            Endian::Big => bytes,
            Endian::Little => bytes.reverse(),
        };
        let k = match endian {
            Endian::Big => i,
            Endian::Little => m - 1 - i,
        };
        lemma_byte_order(bytes);
        assert(word_value(bytes, endian) == big_endian(ordered));
        lemma_big_endian_bound(ordered);
        lemma_big_endian_text(ordered);
        lemma_hex_widened(big_endian(ordered), m, word_size);
        assert(ordered[k] == bytes[i]);
        lemma_byte_digits(ordered, k);
    }
}

/// The text of a word of another size shows its bytes one after another, with two digits each.
pub proof fn lemma_odd_word_digits(bytes: Seq<u8>, word_size: nat, endian: Endian, i: int)
    requires
        word_size != 1,
        word_size != 2,
        word_size != 4,
        word_size != 8,
        0 <= i < bytes.len(),
    ensures
        ({
            let text = word_text(bytes, word_size, endian);
            &&& text.len() == 2 * bytes.len()
            &&& text[2 * i] == seq!['0', '1', '2', '3', '4', '5', '6', '7', '8', '9', 'A', 'B', 'C', 'D', 'E', 'F'][bytes[i] as int / 16]
            &&& text[2 * i + 1] == seq!['0', '1', '2', '3', '4', '5', '6', '7', '8', '9', 'A', 'B', 'C', 'D', 'E', 'F'][bytes[i] as int % 16]
        }),
{
    lemma_byte_digits(bytes, i);
}

/// A word of 2, 4 or 8 bytes of which the region has none is all zeros.
pub proof fn lemma_no_bytes(word_size: nat, endian: Endian, j: int)
    requires
        word_size == 2 || word_size == 4 || word_size == 8,
        0 <= j < 2 * word_size,
    ensures
        word_text(Seq::empty(), word_size, endian).len() == 2 * word_size,
        word_text(Seq::empty(), word_size, endian)[j] == '0',
{
    assert(word_value(Seq::empty(), endian) == 0);
    assert(digits(0, 16).len() == 1);
}

/// The text of a full word tells its bytes: words of different bytes have different texts.
pub proof fn lemma_word_texts_differ(a: Seq<u8>, b: Seq<u8>, word_size: nat, endian: Endian)
    requires
        word_size == 1 || word_size == 2 || word_size == 4 || word_size == 8,
        a.len() == word_size,
        b.len() == word_size,
        word_text(a, word_size, endian) == word_text(b, word_size, endian),
    ensures
        a == b,
{
    assert forall|i: int| 0 <= i < word_size implies a[i] == b[i] by {
        lemma_word_digits(a, word_size, endian, i);
        lemma_word_digits(b, word_size, endian, i);
        lemma_digits_apart(a[i] as int / 16, b[i] as int / 16);
        lemma_digits_apart(a[i] as int % 16, b[i] as int % 16);
    }
    assert(a =~= b);
}

proof fn lemma_digits_apart(x: int, y: int)
    requires
        0 <= x < 16,
        0 <= y < 16,
        seq!['0', '1', '2', '3', '4', '5', '6', '7', '8', '9', 'A', 'B', 'C', 'D', 'E', 'F'][x] == seq!['0', '1', '2', '3', '4', '5', '6', '7', '8', '9', 'A', 'B', 'C', 'D', 'E', 'F'][y],
    ensures
        x == y,
{
    lemma_digit_chars(x);
    lemma_digit_chars(y);
}

} // verus!
