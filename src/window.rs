use vstd::prelude::*;

use crate::error::DecodeFailed;
use crate::window_size::WindowSize;

verus! {

/// The output after a match of `n` bytes at distance `offset` is appended to `h`: each byte
/// is copied from `offset` places before it, so a copy may read bytes it has just written.
pub open spec fn copy_match(h: Seq<u8>, offset: int, n: nat) -> Seq<u8>
    decreases n,
{
    if n == 0 {
        h
    } else {
        let p = copy_match(h, offset, (n - 1) as nat);
        p.push(p[p.len() - offset])
    }
}

proof fn lemma_mod_distinct(a: int, b: int, cap: int)
    requires
        0 <= a < b,
        b - a < cap,
    ensures
        a % cap != b % cap,
{
    vstd::arithmetic::div_mod::lemma_fundamental_div_mod(a, cap);
    vstd::arithmetic::div_mod::lemma_fundamental_div_mod(b, cap);
    if a % cap == b % cap {
        let qa = a / cap;
        let qb = b / cap;
        assert(b - a == cap * (qb - qa)) by (nonlinear_arith)
            requires
                a == cap * qa + a % cap,
                b == cap * qb + b % cap,
                a % cap == b % cap,
        ;
        assert(false) by (nonlinear_arith)
            requires
                b - a == cap * (qb - qa),
                0 < b - a < cap,
        ;
    }
}

proof fn lemma_mod_next(a: int, cap: int)
    requires
        0 <= a,
        0 < cap,
    ensures
        (a + 1) % cap == if a % cap + 1 == cap {
            0
        } else {
            a % cap + 1
        },
{
    vstd::arithmetic::div_mod::lemma_add_mod_noop(a, 1, cap);
    vstd::arithmetic::div_mod::lemma_mod_bound(a, cap);
    if cap > 1 {
        vstd::arithmetic::div_mod::lemma_small_mod(1nat, cap as nat);
    }
    vstd::arithmetic::div_mod::lemma_mod_self_0(cap);
    if a % cap + 1 < cap {
        vstd::arithmetic::div_mod::lemma_small_mod((a % cap + 1) as nat, cap as nat);
    }
}

proof fn lemma_mod_back(a: int, o: int, c: int)
    requires
        0 <= o <= a,
        o <= c,
        0 < c,
    ensures
        (a % c + c - o) % c == (a - o) % c,
{
    vstd::arithmetic::div_mod::lemma_fundamental_div_mod(a, c);
    let q = a / c;
    let x = a % c + c - o;
    assert(c * (q - 1) == c * q - c) by (nonlinear_arith);
    vstd::arithmetic::div_mod::lemma_mod_multiples_vanish(q - 1, x, c);
}

/// The three most recently used match offsets, most recent first.
#[derive(Debug, Clone, Copy, PartialEq, Eq, Structural)]
pub struct OffsetCache {
    pub r0: u32,
    pub r1: u32,
    pub r2: u32,
}

/// The offset that a repeated-offset slot (0, 1 or 2) names.
pub open spec fn slot_offset(c: OffsetCache, slot: int) -> u32 {
    if slot == 0 {
        c.r0
    } else if slot == 1 {
        c.r1
    } else {
        c.r2
    }
}

/// The cache after a repeated-offset slot is used: the offset it names moves to the front
/// and the ones before it move down a place.
pub open spec fn after_reuse(c: OffsetCache, slot: int) -> OffsetCache {
    if slot == 0 {
        c
    } else if slot == 1 {
        OffsetCache { r0: c.r1, r1: c.r0, r2: c.r2 }
    } else {
        OffsetCache { r0: c.r2, r1: c.r0, r2: c.r1 }
    }
}

/// The cache after a match with a new offset.
pub open spec fn after_push(c: OffsetCache, offset: u32) -> OffsetCache {
    OffsetCache { r0: offset, r1: c.r0, r2: c.r1 }
}

/// The offsets that `n` matches in a row with slot 0 use, and the cache after them.
pub open spec fn reuse_slot_zero(c: OffsetCache, n: nat) -> (Seq<u32>, OffsetCache)
    decreases n,
{
    if n == 0 {
        (Seq::empty(), c)
    } else {
        let (offs, c1) = reuse_slot_zero(c, (n - 1) as nat);
        (offs.push(slot_offset(c1, 0)), after_reuse(c1, 0))
    }
}

/// After any match, the cache's first offset is the one that match used; so any number of
/// matches in a row with slot 0 all use the offset of the match before them, and leave the
/// cache as it was.
pub proof fn lemma_slot_zero_repeats(c: OffsetCache, slot: int, new_offset: u32, n: nat)
    requires
        0 <= slot,
    ensures
        slot < 3 ==> after_reuse(c, slot).r0 == slot_offset(c, slot),
        after_push(c, new_offset).r0 == new_offset,
        reuse_slot_zero(c, n).1 == c,
        forall|i: int| 0 <= i < n ==> #[trigger] reuse_slot_zero(c, n).0[i] == c.r0,
        reuse_slot_zero(c, n).0.len() == n,
    decreases n,
{
    if n > 0 {
        lemma_slot_zero_repeats(c, slot, new_offset, (n - 1) as nat);
        let (offs, c1) = reuse_slot_zero(c, (n - 1) as nat);
        assert forall|i: int| 0 <= i < n implies #[trigger] reuse_slot_zero(c, n).0[i] == c.r0 by {
            if i < n - 1 {
                assert(offs[i] == c.r0);
            }
        }
    }
}

impl OffsetCache {
    /// The cache at the start of a stream: every offset is 1.
    pub fn new() -> (r: OffsetCache)
        ensures
            r == (OffsetCache { r0: 1, r1: 1, r2: 1 }),
    {
        OffsetCache { r0: 1, r1: 1, r2: 1 }
    }

    /// Returns the offset that repeated-offset slot `slot` names, and moves it to the front.
    pub fn reuse(&mut self, slot: u32) -> (r: u32)
        requires
            slot < 3,
        ensures
            r == slot_offset(*old(self), slot as int),
            *final(self) == after_reuse(*old(self), slot as int),
            final(self).r0 == r,
    {
        if slot == 0 {
            self.r0
        } else if slot == 1 {
            let r = self.r1;
            self.r1 = self.r0;
            self.r0 = r;
            r
        } else {
            let r = self.r2;
            self.r2 = self.r1;
            self.r1 = self.r0;
            self.r0 = r;
            r
        }
    }

    /// Records a new offset as the most recent one.
    pub fn push(&mut self, offset: u32)
        ensures
            *final(self) == after_push(*old(self), offset),
            final(self).r0 == offset,
    {
        self.r2 = self.r1;
        self.r1 = self.r0;
        self.r0 = offset;
    }
}

/// The sliding window: a circular buffer that holds the most recent output.
pub struct Window {
    buffer: Vec<u8>,
    /// Where the next byte goes.
    pos: usize,
    /// How many bytes of the buffer hold output: all that was produced, up to the capacity.
    filled: usize,
    /// Every byte produced so far.
    history: Ghost<Seq<u8>>,
}

impl Window {
    /// Every byte produced so far, oldest first.
    pub closed spec fn history(&self) -> Seq<u8> {
        self.history@
    }

    /// The window's capacity in bytes.
    pub closed spec fn capacity(&self) -> nat {
        self.buffer@.len()
    }

    pub closed spec fn wf(&self) -> bool {
        let cap = self.buffer@.len() as int;
        let len = self.history@.len() as int;
        &&& 0 < cap <= 0x20_0000
        &&& self.pos == len % cap
        &&& self.filled == if len < cap {
            len
        } else {
            cap
        }
        &&& forall|k: int| len - self.filled <= k < len ==> #[trigger] self.buffer@[k % cap] == self.history@[k]
    }

    /// How many past bytes a match may reach back to.
    pub open spec fn reach(&self) -> nat {
        if self.history().len() < self.capacity() {
            self.history().len()
        } else {
            self.capacity()
        }
    }

    /// An empty window of the given size.
    pub fn new(size: WindowSize) -> (r: Window)
        ensures
            r.wf(),
            r.history() == Seq::<u8>::empty(),
            r.capacity() == size.spec_value(),
    {
        let cap = size.value();
        let mut buffer: Vec<u8> = Vec::new();
        while buffer.len() < cap
            invariant
                buffer@.len() <= cap,
                cap == size.spec_value(),
            decreases cap - buffer@.len(),
        {
            buffer.push(0);
        }
        proof {
            vstd::arithmetic::div_mod::lemma_small_mod(0nat, cap as nat);
        }
        Window { buffer, pos: 0, filled: 0, history: Ghost(Seq::empty()) }
    }

    /// Appends one byte to the output, and to `out`.
    pub fn emit_literal(&mut self, b: u8, out: &mut Vec<u8>)
        requires
            old(self).wf(),
        ensures
            final(self).wf(),
            final(self).capacity() == old(self).capacity(),
            final(self).history() == old(self).history().push(b),
            final(out)@ == old(out)@.push(b),
    {
        let ghost cap = self.buffer@.len() as int;
        let ghost len = self.history@.len() as int;
        let ghost old_buf = self.buffer@;
        let ghost old_filled = self.filled as int;
        self.buffer.set(self.pos, b);
        proof {
            lemma_mod_next(len, cap);
            assert forall|k: int|
                len + 1 - (if len + 1 < cap { len + 1 } else { cap }) <= k < len + 1 implies #[trigger] self.buffer@[k % cap]
                == self.history@.push(b)[k] by {
                if k < len {
                    lemma_mod_distinct(k, len, cap);
                    assert(old_buf[k % cap] == self.history@[k]);
                }
            }
        }
        self.pos = if self.pos + 1 == self.buffer.len() {
            0
        } else {
            self.pos + 1
        };
        if self.filled < self.buffer.len() {
            self.filled = self.filled + 1;
        }
        self.history = Ghost(self.history@.push(b));
        out.push(b);
    }

    /// How many past bytes a match may reach back to.
    pub fn reach_exec(&self) -> (r: usize)
        requires
            self.wf(),
        ensures
            r == self.reach(),
    {
        self.filled
    }

    /// Appends a match: `length` bytes, each copied from `offset` bytes before it, one at a
    /// time in order, so that the copy may overlap what it writes. Fails with `InvalidOffset`,
    /// changing nothing, when `offset` is 0 or reaches back past the bytes produced or past
    /// the window.
    pub fn emit_match(&mut self, offset: usize, length: usize, out: &mut Vec<u8>) -> (r: Result<
        (),
        DecodeFailed,
    >)
        requires
            old(self).wf(),
        ensures
            final(self).wf(),
            final(self).capacity() == old(self).capacity(),
            offset == 0 || offset > old(self).reach() ==> r == Err::<(), DecodeFailed>(
                DecodeFailed::InvalidOffset,
            ) && final(self).history() == old(self).history() && final(out)@ == old(out)@,
            0 < offset <= old(self).reach() ==> final(self).history().len() == old(self).history().len()
                + length && final(self).history().subrange(0, old(self).history().len() as int)
                == old(self).history(),
            0 < offset <= old(self).reach() ==> r is Ok && final(self).history() == copy_match(
                old(self).history(),
                offset as int,
                length as nat,
            ) && final(out)@ == old(out)@ + final(self).history().subrange(
                old(self).history().len() as int,
                final(self).history().len() as int,
            ),
    {
        if offset == 0 || offset > self.filled {
            return Err(DecodeFailed::InvalidOffset);
        }
        let ghost h0 = self.history@;
        let ghost out0 = out@;
        let mut i: usize = 0;
        while i < length
            invariant
                self.wf(),
                self.capacity() == old(self).capacity(),
                h0 == old(self).history(),
                out0 == old(out)@,
                0 < offset <= self.filled,
                i <= length,
                self.history() == copy_match(h0, offset as int, i as nat),
                self.history().len() == h0.len() + i,
                self.history().subrange(0, h0.len() as int) == h0,
                out@ == out0 + self.history().subrange(h0.len() as int, self.history().len() as int),
            decreases length - i,
        {
            let ghost cap = self.buffer@.len() as int;
            let ghost len = self.history@.len() as int;
            let src = (self.pos + self.buffer.len() - offset) % self.buffer.len();
            proof {
                lemma_mod_back(len, offset as int, cap);
                assert(self.buffer@[(len - offset) % cap] == self.history@[len - offset]);
            }
            let b = self.buffer[src];
            self.emit_literal(b, out);
            i = i + 1;
            proof {
                assert(out@ =~= out0 + self.history().subrange(h0.len() as int, self.history().len() as int));
                assert(self.history().subrange(0, h0.len() as int) =~= h0);
            }
        }
        Ok(())
    }
}

} // verus!
