//! Memory-read backends.
//!
//! `MemReader` is the abstraction the monitor reads through. `MockReader` is a synthetic region
//! that mutates itself, for exercising the display and the change highlight without hardware.

use crate::text::{decimal, format_decimal};
use crate::word::little_endian;
use std::collections::HashMap;
use vstd::prelude::*;

verus! {

broadcast use vstd::std_specs::hash::group_hash_axioms;

/// Anything that can fill a byte buffer from a target address.
pub trait MemReader {
    /// May a read of `before.len()` bytes at `addr`, into a buffer that holds `before`, take the
    /// reader from `pre` to `post` and end with `outcome`: the bytes read, or an error's text? Of a
    /// reader that says no more, any read may end in any way.
    open spec fn may_read(
        pre: &Self,
        addr: u32,
        before: Seq<u8>,
        post: &Self,
        outcome: Result<Seq<u8>, Seq<char>>,
    ) -> bool {
        true
    }

    /// May the connection be described by `text`? Of a reader that says no more, by any.
    open spec fn may_describe(&self, text: Seq<char>) -> bool {
        true
    }

    /// Reads `buf.len()` bytes starting at `addr` into `buf`.
    fn read(&mut self, addr: u32, buf: &mut [u8]) -> (r: Result<(), String>)
        ensures
            final(buf)@.len() == old(buf)@.len(),
            match r {
                Ok(_) => Self::may_read(old(self), addr, old(buf)@, final(self), Ok(final(buf)@)),
                Err(e) => Self::may_read(old(self), addr, old(buf)@, final(self), Err(e@)),
            },
    ;

    /// Short human-readable description of the connection.
    fn describe(&self) -> (s: String)
        ensures
            self.may_describe(s@),
    ;
}

// ---------------------------------------------------------------------------
// Mock backend (no hardware)
// ---------------------------------------------------------------------------

/// Procedural synthetic memory for exercising the display without hardware.
///
/// Every address has a stable base value derived from a hash, so the whole 32-bit space is
/// readable and a jump works anywhere. A small overlay of mutated words is layered on top and
/// grown each read so highlights fire.
pub struct MockReader {
    /// Sparse mutations: word-aligned address -> overriding value.
    overlay: HashMap<u32, u32>,
    /// The state of the random number generator.
    rng: u64,
}

/// The state of a `MockReader`.
pub struct MockModel {
    pub overlay: Map<u32, u32>,
    pub rng: u64,
}

impl View for MockReader {
    type V = MockModel;

    closed spec fn view(&self) -> MockModel {
        MockModel { overlay: self.overlay@, rng: self.rng }
    }
}

/// The golden ratio, as a fraction of 2^64.
pub const GOLDEN: u64 = 0x9E37_79B9_7F4A_7C15;

/// The generator's next state: one step of xorshift.
pub open spec fn rng_step(x: u64) -> u64 {
    let a = x ^ (x >> 12);
    let b = a ^ (a << 25);
    b ^ (b >> 27)
}

/// The random number that the generator gives out in state `x`.
pub open spec fn rng_output(x: u64) -> u64 {
    vstd::wrapping::u64_specs::wrapping_mul(x, 0x2545_F491_4F6C_DD1D)
}

/// The base byte at `addr`, where no overlay word lies: a splitmix finalizer over the address.
pub open spec fn base_byte_at(addr: u32) -> u8 {
    let a = vstd::wrapping::u64_specs::wrapping_add(addr as u64, GOLDEN);
    let b = vstd::wrapping::u64_specs::wrapping_mul(a ^ (a >> 30), 0xBF58_476D_1CE4_E5B9);
    let c = vstd::wrapping::u64_specs::wrapping_mul(b ^ (b >> 27), 0x94D0_49BB_1331_11EB);
    (c ^ (c >> 31)) as u8
}

/// The address of the word that holds `addr`.
pub open spec fn word_of(addr: u32) -> u32 {
    (addr - addr % 4) as u32
}

/// Byte `k` of the word `v`, least significant first.
pub open spec fn word_byte(v: u32, k: int) -> u8 {
    if k == 0 {
        (v % 256) as u8
    } else if k == 1 {
        (v / 256 % 256) as u8
    } else if k == 2 {
        (v / 0x1_0000 % 256) as u8
    } else {
        (v / 0x100_0000) as u8
    }
}

/// The low 32 bits of `x`.
pub open spec fn low32(x: u64) -> u32 {
    (x % 0x1_0000_0000) as u32
}

/// The address `n` bytes behind `addr`, around the end of the 32-bit space.
pub open spec fn address_after(addr: u32, n: int) -> u32 {
    ((addr + n) % 0x1_0000_0000) as u32
}

/// How many words a read of `len` bytes may touch.
pub open spec fn window_words(len: u32) -> u32 {
    if len / 4 > 1 {
        len / 4
    } else {
        1
    }
}

impl MockModel {
    /// The byte at `addr`: the overlay's where it has one, the base byte elsewhere.
    pub open spec fn byte(self, addr: u32) -> u8 {
        if self.overlay.contains_key(word_of(addr)) {
            word_byte(self.overlay[word_of(addr)], addr as int % 4)
        } else {
            base_byte_at(addr)
        }
    }

    /// `len` bytes from `addr` on.
    pub open spec fn bytes(self, addr: u32, len: nat) -> Seq<u8> {
        Seq::new(len, |i: int| self.byte(address_after(addr, i)))
    }

    /// One random word of the window overwritten with a random value.
    pub open spec fn poked(self, addr: u32, words: u32) -> MockModel {
        let a = rng_step(self.rng);
        let b = rng_step(a);
        let w = low32(rng_output(a)) % words;
        MockModel {
            overlay: self.overlay.insert(
                address_after(word_of(addr), w * 4),
                low32(rng_output(b)),
            ),
            rng: b,
        }
    }

    /// `n` words overwritten.
    pub open spec fn poked_times(self, addr: u32, words: u32, n: nat) -> MockModel
        decreases n,
    {
        if n == 0 {
            self
        } else {
            self.poked_times(addr, words, (n - 1) as nat).poked(addr, words)
        }
    }

    /// The state after the mutations of one read of `len` bytes: one to four words.
    pub open spec fn mutated(self, addr: u32, len: u32) -> MockModel {
        let a = rng_step(self.rng);
        let n = 1 + rng_output(a) % 4;
        (MockModel { rng: a, ..self }).poked_times(addr, window_words(len), n as nat)
    }
}

impl MockReader {
    /// A region whose mutations are seeded by its base address.
    pub fn new(base: u32, _len: usize) -> (r: MockReader)
        ensures
            r@.overlay == Map::<u32, u32>::empty(),
            r@.rng == GOLDEN ^ (base as u64),
    {
        MockReader { overlay: HashMap::new(), rng: GOLDEN ^ (base as u64) }
    }

    /// The generator's next random number.
    pub fn next_rand(&mut self) -> (x: u64)
        ensures
            x == rng_output(rng_step(old(self)@.rng)),
            final(self)@ == (MockModel { rng: rng_step(old(self)@.rng), ..old(self)@ }),
    {
        // xorshift64*
        let mut x: u64 = self.rng;
        x = x ^ (x >> 12);
        x = x ^ (x << 25);
        x = x ^ (x >> 27);
        self.rng = x;
        x.wrapping_mul(0x2545_F491_4F6C_DD1D)
    }

    /// Stable base byte for any address (no overlay applied).
    pub fn base_byte(addr: u32) -> (b: u8)
        ensures
            b == base_byte_at(addr),
    {
        let mut z: u64 = (addr as u64).wrapping_add(GOLDEN);
        z = (z ^ (z >> 30)).wrapping_mul(0xBF58_476D_1CE4_E5B9);
        z = (z ^ (z >> 27)).wrapping_mul(0x94D0_49BB_1331_11EB);
        #[verifier::truncate]
        let b: u8 = (z ^ (z >> 31)) as u8;
        b
    }

    /// Value of one byte: the base value, overridden by any overlay word.
    pub fn byte_at(&self, addr: u32) -> (b: u8)
        ensures
            b == self@.byte(addr),
    {
        let word_addr: u32 = addr - addr % 4;
        match self.overlay.get(&word_addr) {
            Some(v) => {
                let v: u32 = *v;
                let k: u32 = addr % 4;
                if k == 0 {
                    (v % 256) as u8
                } else if k == 1 {
                    (v / 256 % 256) as u8
                } else if k == 2 {
                    (v / 0x1_0000 % 256) as u8
                } else {
                    (v / 0x100_0000) as u8
                }
            },
            None => MockReader::base_byte(addr),
        }
    }
}

fn wrapping_address(addr: u32, n: u32) -> (r: u32)
    ensures
        r == address_after(addr, n as int),
{
    addr.wrapping_add(n)
}

fn truncated(x: u64) -> (r: u32)
    ensures
        r == low32(x),
{
    (x % 0x1_0000_0000) as u32
}

impl MemReader for MockReader {
    /// A read mutates a few words of the window and gives the bytes as they then are. A length of
    /// which the low 32 bits are zero reads nothing.
    open spec fn may_read(
        pre: &MockReader,
        addr: u32,
        before: Seq<u8>,
        post: &MockReader,
        outcome: Result<Seq<u8>, Seq<char>>,
    ) -> bool {
        let len = (before.len() % 0x1_0000_0000) as u32;
        if len == 0 {
            &&& post@ == pre@
            &&& outcome == Ok::<Seq<u8>, Seq<char>>(before)
        } else {
            &&& post@ == pre@.mutated(addr, len)
            &&& outcome == Ok::<Seq<u8>, Seq<char>>(post@.bytes(addr, before.len()))
        }
    }

    open spec fn may_describe(&self, text: Seq<char>) -> bool {
        text == "MOCK procedural memory, "@ + decimal(self@.overlay.len())
            + " mutated words [no hardware]"@
    }

    fn read(&mut self, addr: u32, buf: &mut [u8]) -> (r: Result<(), String>) {
        let size: usize = buf.len();
        let len: u32 = truncated(size as u64);
        if len == 0 {
            return Ok(());
        }
        // Mutate a handful of random words within the visible window so highlights fire.
        let words: u32 = if len / 4 > 1 {
            len / 4
        } else {
            1
        };
        let n_changes: u64 = 1 + self.next_rand() % 4;
        let ghost seeded: MockModel = self@;
        let mut k: u64 = 0;
        while k < n_changes
            invariant
                k <= n_changes,
                words == window_words(len),
                self@ == seeded.poked_times(addr, words, k as nat),
            decreases n_changes - k,
        {
            let w: u32 = truncated(self.next_rand()) % words;
            let base: u32 = addr - addr % 4;
            let word_addr: u32 = wrapping_address(base, w * 4);
            let val: u32 = truncated(self.next_rand());
            self.overlay.insert(word_addr, val);
            k = k + 1;
        }
        let ghost done: MockModel = self@;
        let mut i: usize = 0;
        while i < size
            invariant
                i <= size,
                size == buf@.len(),
                self@ == done,
                forall|j: int|
                    0 <= j < i ==> #[trigger] buf@[j] == done.byte(address_after(addr, j)),
            decreases size - i,
        {
            let at: u32 = wrapping_address(addr, truncated(i as u64));
            assert(at == address_after(addr, i as int));
            let b: u8 = self.byte_at(at);
            buf[i] = b;
            i = i + 1;
        }
        assert(buf@ =~= done.bytes(addr, size as nat));
        Ok(())
    }

    fn describe(&self) -> (s: String) {
        let mut s: String = "MOCK procedural memory, ".to_owned();
        s.append(format_decimal(self.overlay.len() as u128).as_str());
        s.append(" mutated words [no hardware]");
        s
    }
}

// ---------------------------------------------------------------------------
// Laws
// ---------------------------------------------------------------------------

/// Is `a` the address of one of `words` words, from the one that holds `addr` on?
pub open spec fn in_window(addr: u32, words: u32, a: u32) -> bool {
    exists|w: u32| w < words && a == #[trigger] address_after(word_of(addr), w * 4)
}

/// The words that the next `n` overwrites hit.
spec fn poked_words(m: MockModel, addr: u32, words: u32, n: nat) -> Set<u32>
    decreases n,
{
    if n == 0 {
        Set::empty()
    } else {
        let before = m.poked_times(addr, words, (n - 1) as nat);
        let w = low32(rng_output(rng_step(before.rng))) % words;
        poked_words(m, addr, words, (n - 1) as nat).insert(address_after(word_of(addr), w * 4))
    }
}

/// Overwriting hits words of the window, as many as are overwritten or fewer, and no other word
/// changes.
proof fn lemma_poked_words(m: MockModel, addr: u32, words: u32, n: nat)
    requires
        words > 0,
    ensures
        ({
            let hit = poked_words(m, addr, words, n);
            let post = m.poked_times(addr, words, n);
            &&& hit.finite()
            &&& hit.len() <= n
            &&& n > 0 ==> hit.len() > 0
            &&& forall|a: u32| #[trigger] hit.contains(a) ==> in_window(addr, words, a)
            &&& post.overlay.dom() == m.overlay.dom().union(hit)
            &&& forall|a: u32|
                #![trigger post.overlay[a]]
                m.overlay.contains_key(a) && !hit.contains(a) ==> post.overlay[a] == m.overlay[a]
        }),
    decreases n,
{
    let hit = poked_words(m, addr, words, n);
    let post = m.poked_times(addr, words, n);
    if n > 0 {
        let mid = m.poked_times(addr, words, (n - 1) as nat);
        let earlier = poked_words(m, addr, words, (n - 1) as nat);
        lemma_poked_words(m, addr, words, (n - 1) as nat);
        let w = low32(rng_output(rng_step(mid.rng))) % words;
        let key = address_after(word_of(addr), w * 4);
        assert(in_window(addr, words, key));
        assert(hit.contains(key));
        assert(post.overlay.dom() =~= m.overlay.dom().union(hit));
        assert forall|a: u32|
            #![trigger post.overlay[a]]
            m.overlay.contains_key(a) && !hit.contains(a) implies post.overlay[a]
            == m.overlay[a] by {
            assert(!earlier.contains(a));
            assert(mid.overlay[a] == m.overlay[a]);
        }
    } else {
        assert(post.overlay.dom() =~= m.overlay.dom().union(hit));
    }
}

/// Is `hit` a set of words that a read of `len` bytes at `addr` may have written, on the way from
/// `pre` to `post`? They are one to four aligned words of the window, they are in the overlay then,
/// with the words that were there before, and no other word and no byte of another word changes.
pub open spec fn written(
    pre: MockModel,
    addr: u32,
    len: u32,
    post: MockModel,
    hit: Set<u32>,
) -> bool {
    &&& hit.finite()
    &&& 1 <= hit.len() <= 4
    &&& forall|a: u32| #[trigger]
        hit.contains(a) ==> a % 4 == 0 && in_window(addr, window_words(len), a)
    &&& post.overlay.dom() == pre.overlay.dom().union(hit)
    &&& forall|a: u32|
        #![trigger post.overlay[a]]
        pre.overlay.contains_key(a) && !hit.contains(a) ==> post.overlay[a] == pre.overlay[a]
    &&& forall|a: u32| !hit.contains(word_of(a)) ==> #[trigger] post.byte(a) == pre.byte(a)
}

/// A read of the synthetic region writes a set of one to four aligned words of the window that is
/// read, and nothing else changes.
pub proof fn lemma_mutations(m: MockModel, addr: u32, len: u32)
    requires
        len > 0,
    ensures
        exists|hit: Set<u32>| #[trigger] written(m, addr, len, m.mutated(addr, len), hit),
{
    let next = rng_step(m.rng);
    let n = (1 + rng_output(next) % 4) as nat;
    let start = MockModel { rng: next, ..m };
    let words = window_words(len);
    let post = m.mutated(addr, len);
    let hit = poked_words(start, addr, words, n);
    lemma_poked_words(start, addr, words, n);
    assert forall|a: u32| #[trigger] hit.contains(a) implies a % 4 == 0 && in_window(
        addr,
        words,
        a,
    ) by {
        lemma_window(addr, len, a);
    }
    assert forall|a: u32| !hit.contains(word_of(a)) implies #[trigger] post.byte(a) == m.byte(
        a,
    ) by {
        assert(post.overlay.contains_key(word_of(a)) == m.overlay.contains_key(word_of(a)));
        if m.overlay.contains_key(word_of(a)) {
            assert(post.overlay[word_of(a)] == m.overlay[word_of(a)]);
        }
    }
    assert(written(m, addr, len, post, hit));
}

/// What a read writes makes the overlay grow by at most four words, and leaves memory outside the
/// window as it is.
pub proof fn lemma_written(
    pre: MockModel,
    addr: u32,
    len: u32,
    post: MockModel,
    hit: Set<u32>,
    a: u32,
)
    requires
        pre.overlay.dom().finite(),
        written(pre, addr, len, post, hit),
    ensures
        post.overlay.dom().finite(),
        pre.overlay.len() <= post.overlay.len() <= pre.overlay.len() + 4,
        pre.overlay.contains_key(a) ==> post.overlay.contains_key(a),
        !in_window(addr, window_words(len), word_of(a)) ==> post.byte(a) == pre.byte(a),
{
    vstd::set_lib::lemma_len_union(pre.overlay.dom(), hit);
    vstd::set_lib::lemma_len_subset(pre.overlay.dom(), post.overlay.dom());
    if !in_window(addr, window_words(len), word_of(a)) {
        assert(!hit.contains(word_of(a)));
    }
}

/// The words that a read may mutate are aligned and begin within the bytes that are read, counted
/// from the word that holds the first of them.
pub proof fn lemma_window(addr: u32, len: u32, a: u32)
    requires
        len > 0,
        in_window(addr, window_words(len), a),
    ensures
        a % 4 == 0,
        exists|d: int|
            0 <= d < len && d % 4 == 0 && a == #[trigger] address_after(word_of(addr), d),
{
    let w = choose|w: u32|
        w < window_words(len) && a == #[trigger] address_after(word_of(addr), w * 4);
    let d = w * 4;
    assert(d < len);
    assert(a == address_after(word_of(addr), d));
}

/// Where nothing was overwritten, memory keeps its base value, at every address.
pub proof fn lemma_base_memory(m: MockModel, addr: u32, len: nat)
    requires
        m.overlay == Map::<u32, u32>::empty(),
    ensures
        m.bytes(addr, len) == Seq::new(len, |i: int| base_byte_at(address_after(addr, i))),
{
    assert(m.bytes(addr, len) =~= Seq::new(len, |i: int| base_byte_at(address_after(addr, i))));
}

/// A word that was overwritten reads back as its value, least significant byte first.
pub proof fn lemma_overlay_reads_back(m: MockModel, a: u32)
    requires
        a % 4 == 0,
        m.overlay.contains_key(a),
    ensures
        little_endian(m.bytes(a, 4)) == m.overlay[a],
{
    let v = m.overlay[a];
    let b = m.bytes(a, 4);
    assert forall|i: int| 0 <= i < 4 implies #[trigger] b[i] == word_byte(v, i) by {
        assert(address_after(a, i) == a + i);
        assert(word_of(address_after(a, i)) == a);
        assert((a + i) % 4 == i);
    }
    let b1 = b.drop_first();
    let b2 = b1.drop_first();
    let b3 = b2.drop_first();
    assert(b3.drop_first() =~= Seq::empty());
    assert(b1[0] == b[1] && b2[0] == b[2] && b3[0] == b[3]);
    assert(little_endian(b3) == b[3]) by {
        assert(little_endian(b3.drop_first()) == 0);
    }
    assert(little_endian(b2) == b[2] + 256 * little_endian(b3));
    assert(little_endian(b1) == b[1] + 256 * little_endian(b2));
    assert(little_endian(b) == b[0] + 256 * little_endian(b1));
    assert(v % 256 + 256 * (v / 256 % 256 + 256 * (v / 0x1_0000 % 256 + 256 * (v / 0x100_0000)))
        == v) by (bit_vector);
}

/// An address a number of bytes behind another goes round the end of the 32-bit space.
pub proof fn lemma_address_after(addr: u32, n: int)
    requires
        0 <= n,
    ensures
        addr + n < 0x1_0000_0000 ==> address_after(addr, n) == addr + n,
        addr + n >= 0x1_0000_0000 ==> address_after(addr, n) == address_after(
            addr,
            n - 0x1_0000_0000,
        ),
{
    assert((addr + n) % 0x1_0000_0000 == (addr + n - 0x1_0000_0000) % 0x1_0000_0000);
}

/// The base byte of an address comes from these steps of 64-bit arithmetic.
pub proof fn lemma_base_byte(addr: u32, a: u64, b: u64, c: u64)
    requires
        a == (addr + 0x9E37_79B9_7F4A_7C15) % 0x1_0000_0000_0000_0000,
        b == ((a ^ (a >> 30)) * 0xBF58_476D_1CE4_E5B9) % 0x1_0000_0000_0000_0000,
        c == ((b ^ (b >> 27)) * 0x94D0_49BB_1331_11EB) % 0x1_0000_0000_0000_0000,
    ensures
        base_byte_at(addr) == (c ^ (c >> 31)) % 256,
{
    let d = c ^ (c >> 31);
    assert(d as u8 == d % 256) by (bit_vector);
}

/// The generator steps by xorshift, and gives out the low 64 bits of a multiple of its state.
pub proof fn lemma_generator(x: u64)
    ensures
        ({
            let a = x ^ (x >> 12);
            let b = a ^ (a << 25);
            rng_step(x) == b ^ (b >> 27)
        }),
        rng_output(x) == (x * 0x2545_F491_4F6C_DD1D) % 0x1_0000_0000_0000_0000,
{
}

/// A mutation takes two numbers from the generator: the first picks a word of the window, the second,
/// by its low 32 bits, is what the word becomes.
pub proof fn lemma_poke(m: MockModel, addr: u32, words: u32)
    requires
        words > 0,
    ensures
        ({
            let first = rng_step(m.rng);
            let second = rng_step(first);
            let w = rng_output(first) as int % 0x1_0000_0000 % words as int;
            let post = m.poked(addr, words);
            &&& post.rng == second
            &&& post.overlay == m.overlay.insert(
                ((addr - addr % 4 + 4 * w) % 0x1_0000_0000) as u32,
                (rng_output(second) % 0x1_0000_0000) as u32,
            )
        }),
{
}

/// A read takes a number from the generator and makes as many mutations as its remainder by four, and
/// one more, in a window of a quarter as many words as bytes are read, and at least one.
pub proof fn lemma_mutations_of_a_read(m: MockModel, addr: u32, len: u32, n: nat, words: u32)
    requires
        words == len / 4 || (words == 1 && len < 4),
        len >= 4 ==> words == len / 4,
        words > 0,
    ensures
        ({
            let first = rng_step(m.rng);
            let start = MockModel { rng: first, ..m };
            let count = 1 + rng_output(first) % 4;
            &&& m.mutated(addr, len) == start.poked_times(addr, words, count as nat)
            &&& start.poked_times(addr, words, 0) == start
            &&& start.poked_times(addr, words, n + 1) == start.poked_times(addr, words, n).poked(
                addr,
                words,
            )
        }),
{
}

/// A read of the synthetic region succeeds, and gives every byte as it is after the read's mutations.
/// An empty read changes nothing.
pub proof fn lemma_mock_read(
    pre: &MockReader,
    addr: u32,
    before: Seq<u8>,
    post: &MockReader,
    outcome: Result<Seq<u8>, Seq<char>>,
    i: int,
)
    requires
        MockReader::may_read(pre, addr, before, post, outcome),
        before.len() < 0x1_0000_0000,
    ensures
        outcome matches Ok(bytes) && bytes.len() == before.len() && (0 <= i < before.len()
            ==> bytes[i] == post@.byte(((addr + i) % 0x1_0000_0000) as u32)),
        before.len() == 0 ==> post@ == pre@,
        before.len() > 0 ==> post@ == pre@.mutated(addr, before.len() as u32),
{
}

/// A byte of the synthetic region is the overlay's, where the overlay has the word that holds it, and
/// the base byte elsewhere. A word in the overlay has its low byte first.
pub proof fn lemma_mock_byte(m: MockModel, word: u32, k: int)
    requires
        word % 4 == 0,
        0 <= k < 4,
    ensures
        m.overlay.contains_key(word) ==> m.byte((word + k) as u32) == if k == 0 {
            m.overlay[word] as int % 256
        } else if k == 1 {
            m.overlay[word] as int / 256 % 256
        } else if k == 2 {
            m.overlay[word] as int / 0x1_0000 % 256
        } else {
            m.overlay[word] as int / 0x100_0000
        },
        !m.overlay.contains_key(word) ==> m.byte((word + k) as u32) == base_byte_at(
            (word + k) as u32,
        ),
{
    assert(word_of((word + k) as u32) == word);
    assert((word + k) as u32 as int % 4 == k);
}

/// The synthetic region describes itself by the number of words in its overlay.
pub proof fn lemma_mock_description(r: &MockReader, text: Seq<char>)
    ensures
        r.may_describe(text) <==> text == "MOCK procedural memory, "@ + decimal(r@.overlay.len())
            + " mutated words [no hardware]"@,
{
}

} // verus!
