use vstd::prelude::*;

use crate::error::DecodeFailed;

verus! {

/// The bit at index `k` of `data`. The input is a sequence of 16-bit little-endian words, and
/// each word is read from its most significant bit down.
pub open spec fn bit_at(data: Seq<u8>, k: int) -> nat {
    let byte = 2 * (k / 16) + if k % 16 < 8 { 1int } else { 0int };
    ((data[byte] >> ((7 - k % 8) as u8)) & 1u8) as nat
}

/// The value of the `n` bits starting at bit index `pos`, first bit most significant.
pub open spec fn bits_value(data: Seq<u8>, pos: int, n: nat) -> nat
    decreases n,
{
    if n == 0 {
        0
    } else {
        2 * bits_value(data, pos, (n - 1) as nat) + bit_at(data, pos + n - 1)
    }
}

/// The number of bits that `data` holds: only whole 16-bit words count.
pub open spec fn total_bits(data: Seq<u8>) -> int {
    16 * (data.len() / 2) as int
}

/// Two to the power `n`.
pub open spec fn exp2(n: nat) -> nat
    decreases n,
{
    if n == 0 {
        1
    } else {
        2 * exp2((n - 1) as nat)
    }
}

pub proof fn lemma_exp2_monotone(a: nat, b: nat)
    requires
        a <= b,
    ensures
        0 < exp2(a) <= exp2(b),
    decreases b,
{
    if b > a {
        lemma_exp2_monotone(a, (b - 1) as nat);
    } else if a > 0 {
        lemma_exp2_monotone((a - 1) as nat, (a - 1) as nat);
    }
}

/// Two to the power `l`, for `l` up to 17.
pub fn exp2_exec(l: usize) -> (r: u32)
    requires
        l <= 17,
    ensures
        r == exp2(l as nat),
{
    let mut r: u32 = 1;
    let mut i: usize = 0;
    while i < l
        invariant
            i <= l <= 17,
            r == exp2(i as nat),
        decreases l - i,
    {
        proof {
            lemma_exp2_monotone(i as nat + 1, 17);
            lemma_exp2_small();
        }
        r = 2 * r;
        i = i + 1;
    }
    r
}

pub proof fn lemma_exp2_small()
    ensures
        exp2(1) == 2,
        exp2(3) == 8,
        exp2(8) == 0x100,
        exp2(14) == 0x4000,
        exp2(16) == 0x1_0000,
        exp2(17) == 0x2_0000,
{
    reveal_with_fuel(exp2, 18);
}

pub proof fn lemma_bit_at_bound(data: Seq<u8>, k: int)
    ensures
        bit_at(data, k) <= 1,
{
    let byte = 2 * (k / 16) + if k % 16 < 8 { 1int } else { 0int };
    let b = data[byte];
    let s = (7 - k % 8) as u8;
    assert((b >> s) & 1u8 <= 1u8) by (bit_vector);
}

pub proof fn lemma_bits_value_bound(data: Seq<u8>, pos: int, n: nat)
    ensures
        bits_value(data, pos, n) < exp2(n),
    decreases n,
{
    if n > 0 {
        lemma_bits_value_bound(data, pos, (n - 1) as nat);
        lemma_bit_at_bound(data, pos + n - 1);
    }
}

/// The first `l1` of the `l2` bits at `pos` are the high bits of their value.
pub proof fn lemma_bits_prefix(data: Seq<u8>, pos: int, l1: nat, l2: nat)
    requires
        l1 <= l2,
    ensures
        bits_value(data, pos, l2) / exp2((l2 - l1) as nat) == bits_value(data, pos, l1),
    decreases l2,
{
    if l2 == l1 {
        assert(exp2(0) == 1);
        assert(bits_value(data, pos, l2) / 1 == bits_value(data, pos, l2));
    } else {
        lemma_bits_prefix(data, pos, l1, (l2 - 1) as nat);
        let x = bits_value(data, pos, l2);
        let y = bits_value(data, pos, (l2 - 1) as nat);
        let b = bit_at(data, pos + l2 - 1);
        let e = exp2((l2 - 1 - l1) as nat);
        lemma_bit_at_bound(data, pos + l2 - 1);
        lemma_exp2_monotone(0, (l2 - 1 - l1) as nat);
        assert(exp2((l2 - l1) as nat) == 2 * e);
        assert(x / 2 == y) by (nonlinear_arith)
            requires
                x == 2 * y + b,
                b <= 1,
        ;
        vstd::arithmetic::div_mod::lemma_div_denominator(x as int, 2, e as int);
        assert(x / 2 / e == x / (2 * e));
        assert(y / e == bits_value(data, pos, l1));
    }
}

/// A reader of bits over an in-memory input.
pub struct Bitstream {
    data: Vec<u8>,
    pos: usize,
}

impl Bitstream {
    /// The input bytes.
    pub closed spec fn data(&self) -> Seq<u8> {
        self.data@
    }

    /// The index of the next bit to read.
    pub closed spec fn pos(&self) -> int {
        self.pos as int
    }

    pub closed spec fn wf(&self) -> bool {
        &&& self.pos <= total_bits(self.data@)
        &&& self.data@.len() <= usize::MAX / 16
    }

    /// A reader never stands past the end of its input.
    pub proof fn lemma_pos_bound(&self)
        requires
            self.wf(),
        ensures
            0 <= self.pos() <= total_bits(self.data()),
    {
    }

    /// Makes a reader positioned at the first bit of `buffer`.
    pub fn new(buffer: &[u8]) -> (r: Bitstream)
        requires
            buffer@.len() <= usize::MAX / 16,
        ensures
            r.wf(),
            r.data() == buffer@,
            r.pos() == 0,
    {
        let mut data: Vec<u8> = Vec::new();
        let mut i: usize = 0;
        while i < buffer.len()
            invariant
                i <= buffer@.len(),
                data@ == buffer@.subrange(0, i as int),
            decreases buffer@.len() - i,
        {
            data.push(buffer[i]);
            i = i + 1;
        }
        assert(data@ == buffer@);
        Bitstream { data, pos: 0 }
    }

    /// The index of the next bit to read.
    pub fn position(&self) -> (r: usize)
        ensures
            r == self.pos(),
    {
        self.pos
    }

    /// Whether only padding is left: no whole 16-bit word remains past the current one.
    pub fn at_end(&self) -> (r: bool)
        requires
            self.wf(),
        ensures
            r == (total_bits(self.data()) <= crate::stream::word_aligned(self.pos())),
    {
        let a = if self.pos % 16 == 0 {
            self.pos
        } else {
            self.pos + 16 - self.pos % 16
        };
        16 * (self.data.len() / 2) <= a
    }

    /// The number of bits not read yet.
    pub fn remaining(&self) -> (r: usize)
        requires
            self.wf(),
        ensures
            r == total_bits(self.data()) - self.pos(),
    {
        16 * (self.data.len() / 2) - self.pos
    }

    /// Reads one bit.
    pub fn read_bit(&mut self) -> (r: Result<u32, DecodeFailed>)
        requires
            old(self).wf(),
        ensures
            final(self).wf(),
            final(self).data() == old(self).data(),
            old(self).pos() < total_bits(old(self).data()) ==> r == Ok::<u32, DecodeFailed>(
                bit_at(old(self).data(), old(self).pos()) as u32,
            ) && final(self).pos() == old(self).pos() + 1,
            old(self).pos() >= total_bits(old(self).data()) ==> r == Err::<u32, DecodeFailed>(
                DecodeFailed::InputExhausted,
            ) && final(self).pos() == old(self).pos(),
    {
        if self.pos >= 16 * (self.data.len() / 2) {
            return Err(DecodeFailed::InputExhausted);
        }
        let b = self.bit(self.pos);
        self.pos = self.pos + 1;
        Ok(b)
    }

    /// Reads the next `n` bits as an unsigned integer, first bit most significant. Reads
    /// nothing when fewer than `n` bits remain.
    pub fn read_bits(&mut self, n: u32) -> (r: Result<u32, DecodeFailed>)
        requires
            old(self).wf(),
            n <= 16,
        ensures
            final(self).wf(),
            final(self).data() == old(self).data(),
            old(self).pos() + n <= total_bits(old(self).data()) ==> r == Ok::<u32, DecodeFailed>(
                bits_value(old(self).data(), old(self).pos(), n as nat) as u32,
            ) && final(self).pos() == old(self).pos() + n,
            old(self).pos() + n > total_bits(old(self).data()) ==> r == Err::<u32, DecodeFailed>(
                DecodeFailed::InputExhausted,
            ) && final(self).pos() == old(self).pos(),
            r is Ok ==> r->Ok_0 < exp2(n as nat),
    {
        if self.remaining() < n as usize {
            return Err(DecodeFailed::InputExhausted);
        }
        let ghost start = self.pos as int;
        let mut v: u32 = 0;
        let mut i: u32 = 0;
        while i < n
            invariant
                self.wf(),
                self.data() == old(self).data(),
                start == old(self).pos(),
                start + n <= total_bits(self.data()),
                i <= n <= 16,
                self.pos() == start + i,
                v == bits_value(self.data(), start, i as nat),
            decreases n - i,
        {
            proof {
                lemma_bits_value_bound(self.data@, start, i as nat);
                lemma_exp2_monotone(i as nat, 16);
                lemma_exp2_small();
            }
            let b = match self.read_bit() {
                Ok(b) => b,
                Err(e) => return Err(e),
            };
            v = 2 * v + b;
            i = i + 1;
        }
        proof {
            lemma_bits_value_bound(self.data@, start, n as nat);
        }
        Ok(v)
    }

    /// Returns the next `n` bits as `read_bits` would, without consuming them.
    pub fn peek_bits(&self, n: u32) -> (r: Result<u32, DecodeFailed>)
        requires
            self.wf(),
            n <= 16,
        ensures
            self.pos() + n <= total_bits(self.data()) ==> r == Ok::<u32, DecodeFailed>(
                bits_value(self.data(), self.pos(), n as nat) as u32,
            ),
            self.pos() + n > total_bits(self.data()) ==> r == Err::<u32, DecodeFailed>(
                DecodeFailed::InputExhausted,
            ),
    {
        if self.remaining() < n as usize {
            return Err(DecodeFailed::InputExhausted);
        }
        let mut v: u32 = 0;
        let mut i: u32 = 0;
        while i < n
            invariant
                self.wf(),
                self.pos() + n <= total_bits(self.data()),
                i <= n <= 16,
                v == bits_value(self.data(), self.pos(), i as nat),
            decreases n - i,
        {
            proof {
                lemma_bits_value_bound(self.data@, self.pos as int, i as nat);
                lemma_exp2_monotone(i as nat, 16);
                lemma_exp2_small();
            }
            let b = self.bit(self.pos + i as usize);
            v = 2 * v + b;
            i = i + 1;
        }
        Ok(v)
    }

    /// The bit at index `k`.
    fn bit(&self, k: usize) -> (r: u32)
        requires
            self.wf(),
            k < total_bits(self.data()),
        ensures
            r == bit_at(self.data(), k as int),
            r <= 1,
    {
        let byte = 2 * (k / 16) + if k % 16 < 8 { 1 } else { 0 };
        let shift = (7 - k % 8) as u8;
        let b = (self.data[byte] >> shift) & 1u8;
        proof {
            lemma_bit_at_bound(self.data@, k as int);
        }
        b as u32
    }

    /// Discards the bits that remain in the current 16-bit word, if it was begun.
    pub fn align_to_word(&mut self)
        requires
            old(self).wf(),
        ensures
            final(self).wf(),
            final(self).data() == old(self).data(),
            final(self).pos() % 16 == 0,
            old(self).pos() <= final(self).pos() < old(self).pos() + 16,
            final(self).pos() == crate::stream::word_aligned(old(self).pos()),
    {
        let r = self.pos % 16;
        if r != 0 {
            proof {
                let p = self.pos as int;
                let q = p / 16;
                let m = (self.data@.len() / 2) as int;
                vstd::arithmetic::div_mod::lemma_fundamental_div_mod(p, 16);
                vstd::arithmetic::div_mod::lemma_mod_multiples_basic(q + 1, 16);
                assert(p + (16 - r) == 16 * (q + 1));
                assert(16 * (q + 1) <= 16 * m);
            }
            self.pos = self.pos + (16 - r);
        }
    }

    /// Reads one whole byte, at a byte boundary. Bytes are taken in their order in the input.
    pub fn read_byte(&mut self) -> (r: Result<u8, DecodeFailed>)
        requires
            old(self).wf(),
            old(self).pos() % 8 == 0,
        ensures
            final(self).wf(),
            final(self).data() == old(self).data(),
            final(self).pos() % 8 == 0,
            old(self).pos() + 8 <= total_bits(old(self).data()) ==> r == Ok::<u8, DecodeFailed>(
                old(self).data()[old(self).pos() / 8],
            ) && final(self).pos() == old(self).pos() + 8,
            old(self).pos() + 8 > total_bits(old(self).data()) ==> r == Err::<u8, DecodeFailed>(
                DecodeFailed::InputExhausted,
            ) && final(self).pos() == old(self).pos(),
    {
        if self.remaining() < 8 {
            return Err(DecodeFailed::InputExhausted);
        }
        let b = self.data[self.pos / 8];
        self.pos = self.pos + 8;
        Ok(b)
    }
}

} // verus!
