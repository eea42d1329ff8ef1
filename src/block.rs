use vstd::prelude::*;

use crate::bitstream::{Bitstream, bits_value, lemma_bits_value_bound, total_bits, exp2, exp2_exec, lemma_exp2_monotone, lemma_exp2_small};
use crate::error::DecodeFailed;
use crate::tree::{Tree, decode_result, kraft_ok};

verus! {

/// The size of the pretree's alphabet.
pub const PRETREE_SIZE: usize = 20;

/// The size of the length tree's alphabet.
pub const LENGTH_TREE_SIZE: usize = 249;

/// The size of the aligned-offset tree's alphabet.
pub const ALIGNED_TREE_SIZE: usize = 8;

/// One instruction of a pretree-coded update to a code-length array.
#[derive(Debug, Clone, Copy, PartialEq, Eq, Structural)]
pub enum LengthOp {
    /// Pretree symbols 0 to 16: the next length becomes `(previous + 17 - z) mod 17`.
    Delta(u8),
    /// Pretree symbols 17 and 18: the next `n` lengths become 0.
    Zeros(u32),
    /// Pretree symbol 19: the next `n` lengths all become `(previous + 17 - z) mod 17`, where
    /// the previous length is that of the first of them.
    Same(u32, u8),
}

/// A code length updated by a delta symbol `z`.
pub open spec fn delta_length(prev: u8, z: u8) -> u8 {
    ((prev as int + 17 - z as int) % 17) as u8
}

/// `lens` with the `n` entries from `i` on set to `v`.
pub open spec fn fill(lens: Seq<u8>, i: int, n: int, v: u8) -> Seq<u8> {
    Seq::new(lens.len(), |k: int| if i <= k < i + n { v } else { lens[k] })
}

/// Whether `op` is one that a pretree symbol can give.
pub open spec fn op_ok(op: LengthOp) -> bool {
    match op {
        LengthOp::Delta(z) => z <= 16,
        LengthOp::Zeros(n) => 4 <= n <= 51,
        LengthOp::Same(n, z) => 4 <= n <= 5 && z <= 16,
    }
}

/// How many entries `op` sets.
pub open spec fn op_count(op: LengthOp) -> int {
    match op {
        LengthOp::Delta(_) => 1,
        LengthOp::Zeros(n) => n as int,
        LengthOp::Same(n, _) => n as int,
    }
}

/// Applies `op` at entry `i` of `lens`. The result is `None` when the op would run past `end`.
pub open spec fn apply_op(lens: Seq<u8>, i: int, end: int, op: LengthOp) -> Option<Seq<u8>> {
    if i + op_count(op) > end {
        None
    } else {
        match op {
            LengthOp::Delta(z) => Some(lens.update(i, delta_length(lens[i], z))),
            LengthOp::Zeros(n) => Some(fill(lens, i, n as int, 0)),
            LengthOp::Same(n, z) => Some(fill(lens, i, n as int, delta_length(lens[i], z))),
        }
    }
}

/// Every entry is a code length.
pub open spec fn lengths_ok(lens: Seq<u8>) -> bool {
    forall|k: int| 0 <= k < lens.len() ==> lens[k] <= 16
}

/// Applies one update op at entry `i` of `lens`, and returns the index after it. Fails with
/// `InvalidLength`, changing nothing, when the op runs past `end`.
pub fn apply_length_op(lens: &mut Vec<u8>, i: usize, end: usize, op: LengthOp) -> (r: Result<
    usize,
    DecodeFailed,
>)
    requires
        i < end <= old(lens)@.len(),
        op_ok(op),
        lengths_ok(old(lens)@),
    ensures
        lengths_ok(final(lens)@),
        apply_op(old(lens)@, i as int, end as int, op) is None ==> r == Err::<usize, DecodeFailed>(
            DecodeFailed::InvalidLength,
        ) && final(lens)@ == old(lens)@,
        apply_op(old(lens)@, i as int, end as int, op) is Some ==> r == Ok::<usize, DecodeFailed>(
            (i + op_count(op)) as usize,
        ) && final(lens)@ == apply_op(old(lens)@, i as int, end as int, op)->Some_0,
{
    let (n, v) = match op {
        LengthOp::Delta(z) => (1u32, ((lens[i] as u32 + 17 - z as u32) % 17) as u8),
        LengthOp::Zeros(n) => (n, 0u8),
        LengthOp::Same(n, z) => (n, ((lens[i] as u32 + 17 - z as u32) % 17) as u8),
    };
    if n as usize > end - i {
        return Err(DecodeFailed::InvalidLength);
    }
    let ghost old_lens = lens@;
    let mut k: usize = i;
    while k < i + n as usize
        invariant
            i <= k <= i + n <= end <= lens@.len(),
            old_lens == old(lens)@,
            v <= 16,
            lens@ == fill(old_lens, i as int, k - i, v),
        decreases i + n - k,
    {
        lens.set(k, v);
        proof {
            assert(lens@ =~= fill(old_lens, i as int, k + 1 - i, v));
        }
        k = k + 1;
    }
    proof {
        if op is Delta {
            assert(lens@ =~= old_lens.update(i as int, v));
        }
    }
    Ok(i + n as usize)
}

/// What reading one update op at `p` with a pretree of code lengths `plens` gives: the op
/// and the position after it. Symbols 0 to 16 are deltas; 17 is a run of `4 + 3 bits` zeros;
/// 18 a run of `20 + 5 bits` zeros; 19 a run of `4 + 1 bit` copies of a length that one more
/// pretree symbol gives as a delta.
pub open spec fn length_op_result(plens: Seq<u8>, d: Seq<u8>, p: int) -> Result<
    (LengthOp, int),
    DecodeFailed,
> {
    match decode_result(plens, d, p) {
        Err(e) => Err(e),
        Ok((sym, q)) => if sym <= 16 {
            Ok((LengthOp::Delta(sym as u8), q))
        } else if sym == 17 {
            if q + 3 > total_bits(d) {
                Err(DecodeFailed::InputExhausted)
            } else {
                Ok((LengthOp::Zeros((4 + bits_value(d, q, 3)) as u32), q + 3))
            }
        } else if sym == 18 {
            if q + 5 > total_bits(d) {
                Err(DecodeFailed::InputExhausted)
            } else {
                Ok((LengthOp::Zeros((20 + bits_value(d, q, 5)) as u32), q + 5))
            }
        } else if q + 1 > total_bits(d) {
            Err(DecodeFailed::InputExhausted)
        } else {
            match decode_result(plens, d, q + 1) {
                Err(e) => Err(e),
                Ok((z, q2)) => if z > 16 {
                    Err(DecodeFailed::InvalidLength)
                } else {
                    Ok((LengthOp::Same((4 + bits_value(d, q, 1)) as u32, z as u8), q2))
                },
            }
        },
    }
}

/// Reads one pretree-coded update op.
pub fn read_length_op(reader: &mut Bitstream, pretree: &Tree) -> (r: Result<LengthOp, DecodeFailed>)
    requires
        pretree.wf(),
        pretree.lengths().len() == PRETREE_SIZE,
        old(reader).wf(),
    ensures
        final(reader).wf(),
        final(reader).data() == old(reader).data(),
        final(reader).pos() >= old(reader).pos(),
        r is Ok ==> op_ok(r->Ok_0),
        r is Ok ==> length_op_result(pretree.lengths(), old(reader).data(), old(reader).pos())
            == Ok::<(LengthOp, int), DecodeFailed>((r->Ok_0, final(reader).pos())),
        r is Err ==> length_op_result(pretree.lengths(), old(reader).data(), old(reader).pos())
            == Err::<(LengthOp, int), DecodeFailed>(r->Err_0),
{
    proof {
        reveal_with_fuel(exp2, 6);
    }
    let ghost d = reader.data();
    let sym = pretree.decode(reader)?;
    let ghost q = reader.pos();
    proof {
        lemma_bits_value_bound(d, q, 1);
        lemma_bits_value_bound(d, q, 3);
        lemma_bits_value_bound(d, q, 5);
    }
    if sym <= 16 {
        Ok(LengthOp::Delta(sym as u8))
    } else if sym == 17 {
        let b = reader.read_bits(3)?;
        Ok(LengthOp::Zeros(4 + b))
    } else if sym == 18 {
        let b = reader.read_bits(5)?;
        Ok(LengthOp::Zeros(20 + b))
    } else {
        let b = reader.read_bits(1)?;
        let z = pretree.decode(reader)?;
        if z > 16 {
            Err(DecodeFailed::InvalidLength)
        } else {
            Ok(LengthOp::Same(4 + b, z as u8))
        }
    }
}

/// The pretree's code lengths: twenty 4-bit fields at `p`.
pub open spec fn pretree_lengths(d: Seq<u8>, p: int) -> Seq<u8> {
    Seq::new(PRETREE_SIZE as nat, |k: int| bits_value(d, p + 4 * k, 4) as u8)
}

/// What reading update ops at `p`, applied to `lens` from entry `i` up to `end`, gives: the
/// updated lengths and the position after the last op.
pub open spec fn ops_result(plens: Seq<u8>, d: Seq<u8>, p: int, lens: Seq<u8>, i: int, end: int) -> Result<
    (Seq<u8>, int),
    DecodeFailed,
>
    decreases end - i,
{
    if i >= end {
        Ok((lens, p))
    } else {
        match length_op_result(plens, d, p) {
            Err(e) => Err(e),
            Ok((op, q)) => match apply_op(lens, i, end, op) {
                None => Err(DecodeFailed::InvalidLength),
                Some(l2) => if op_count(op) >= 1 {
                    ops_result(plens, d, q, l2, i + op_count(op), end)
                } else {
                    Ok((l2, q))
                },
            },
        }
    }
}

/// Whether the `n` update ops read from `p` on are all deltas of 0.
pub open spec fn zero_updates(plens: Seq<u8>, d: Seq<u8>, p: int, n: nat) -> bool
    decreases n,
{
    if n == 0 {
        true
    } else {
        match length_op_result(plens, d, p) {
            Ok((LengthOp::Delta(0), q)) => zero_updates(plens, d, q, (n - 1) as nat),
            _ => false,
        }
    }
}

/// A block whose pretree-coded update transmits no change, a delta of 0 for every entry,
/// leaves the code lengths, and so the tree rebuilt from them, exactly as the previous block
/// had them.
pub proof fn lemma_unchanged_update_keeps_lengths(
    plens: Seq<u8>,
    d: Seq<u8>,
    p: int,
    lens: Seq<u8>,
    i: int,
    end: int,
)
    requires
        0 <= i <= end <= lens.len(),
        lengths_ok(lens),
        zero_updates(plens, d, p, (end - i) as nat),
    ensures
        ops_result(plens, d, p, lens, i, end) is Ok,
        ops_result(plens, d, p, lens, i, end)->Ok_0.0 == lens,
    decreases end - i,
{
    if i < end {
        let q = length_op_result(plens, d, p)->Ok_0.1;
        assert(delta_length(lens[i], 0) == lens[i]);
        assert(lens.update(i, lens[i]) =~= lens);
        lemma_unchanged_update_keeps_lengths(plens, d, q, lens, i + 1, end);
    }
}

/// What reading a pretree at `p` and then the update of entries `start..end` of `lens`
/// gives: the updated lengths and the position after them.
pub open spec fn lengths_result(d: Seq<u8>, p: int, lens: Seq<u8>, start: int, end: int) -> Result<
    (Seq<u8>, int),
    DecodeFailed,
> {
    if p + 4 * PRETREE_SIZE > total_bits(d) {
        Err(DecodeFailed::InputExhausted)
    } else if !kraft_ok(pretree_lengths(d, p)) {
        Err(DecodeFailed::InvalidCode)
    } else {
        ops_result(pretree_lengths(d, p), d, p + 4 * PRETREE_SIZE, lens, start, end)
    }
}

/// Reading a block's pretree and an update whose every op is a delta of 0 gives back the
/// previous block's code lengths unchanged: the tree rebuilt from them is the same tree.
pub proof fn lemma_unchanged_block_keeps_lengths(
    d: Seq<u8>,
    p: int,
    lens: Seq<u8>,
    start: int,
    end: int,
)
    requires
        0 <= start <= end <= lens.len(),
        lengths_ok(lens),
        p + 4 * PRETREE_SIZE <= total_bits(d),
        kraft_ok(pretree_lengths(d, p)),
        zero_updates(pretree_lengths(d, p), d, p + 4 * PRETREE_SIZE, (end - start) as nat),
    ensures
        lengths_result(d, p, lens, start, end) is Ok,
        lengths_result(d, p, lens, start, end)->Ok_0.0 == lens,
{
    lemma_unchanged_update_keeps_lengths(
        pretree_lengths(d, p),
        d,
        p + 4 * PRETREE_SIZE,
        lens,
        start,
        end,
    );
}

/// Reads a pretree, then the pretree-coded update of the entries `start..end` of `lens`.
/// The update is applied in place: each length is given relative to the one before.
pub fn read_lengths(reader: &mut Bitstream, lens: &mut Vec<u8>, start: usize, end: usize) -> (r:
    Result<(), DecodeFailed>)
    requires
        old(reader).wf(),
        start <= end <= old(lens)@.len(),
        lengths_ok(old(lens)@),
    ensures
        final(reader).wf(),
        final(reader).data() == old(reader).data(),
        final(reader).pos() >= old(reader).pos(),
        final(lens)@.len() == old(lens)@.len(),
        lengths_ok(final(lens)@),
        r is Ok ==> lengths_result(
            old(reader).data(),
            old(reader).pos(),
            old(lens)@,
            start as int,
            end as int,
        ) == Ok::<(Seq<u8>, int), DecodeFailed>((final(lens)@, final(reader).pos())),
        r is Err ==> lengths_result(
            old(reader).data(),
            old(reader).pos(),
            old(lens)@,
            start as int,
            end as int,
        ) == Err::<(Seq<u8>, int), DecodeFailed>(r->Err_0),
{
    let ghost d = reader.data();
    let ghost p0 = reader.pos();
    let mut pre: Vec<u8> = Vec::new();
    let mut k: usize = 0;
    while k < PRETREE_SIZE
        invariant
            reader.wf(),
            reader.data() == old(reader).data(),
            d == old(reader).data(),
            p0 == old(reader).pos(),
            reader.pos() == p0 + 4 * k,
            lens@ == old(lens)@,
            lengths_ok(lens@),
            k <= PRETREE_SIZE,
            pre@ =~= pretree_lengths(d, p0).subrange(0, k as int),
            lengths_ok(pre@),
        decreases PRETREE_SIZE - k,
    {
        proof {
            reveal_with_fuel(exp2, 5);
            lemma_bits_value_bound(d, p0 + 4 * k, 4);
        }
        let v = reader.read_bits(4)?;
        pre.push(v as u8);
        k = k + 1;
        proof {
            assert(pre@ =~= pretree_lengths(d, p0).subrange(0, k as int));
        }
    }
    proof {
        assert(pre@ =~= pretree_lengths(d, p0));
        reader.lemma_pos_bound();
    }
    let pretree = Tree::new(pre)?;
    let ghost old_lens = lens@;
    let ghost pl = pretree_lengths(d, p0);
    let mut i: usize = start;
    while i < end
        invariant
            reader.wf(),
            reader.data() == old(reader).data(),
            reader.pos() >= old(reader).pos(),
            pretree.wf(),
            pretree.lengths().len() == PRETREE_SIZE,
            old_lens == old(lens)@,
            start <= i <= end <= lens@.len(),
            lens@.len() == old_lens.len(),
            lengths_ok(lens@),
            pretree.lengths() == pl,
            d == old(reader).data(),
            p0 == old(reader).pos(),
            p0 + 4 * PRETREE_SIZE <= total_bits(d),
            kraft_ok(pl),
            lengths_result(d, p0, old_lens, start as int, end as int) == ops_result(
                pl,
                d,
                reader.pos(),
                lens@,
                i as int,
                end as int,
            ),
        decreases end - i,
    {
        let op = read_length_op(reader, &pretree)?;
        i = apply_length_op(lens, i, end, op)?;
    }
    Ok(())
}

/// The aligned-offset tree's code lengths: eight 3-bit fields at `p`.
pub open spec fn aligned_lengths(d: Seq<u8>, p: int) -> Seq<u8> {
    Seq::new(ALIGNED_TREE_SIZE as nat, |k: int| bits_value(d, p + 3 * k, 3) as u8)
}

/// What reading the aligned-offset tree at `p` gives: its code lengths.
pub open spec fn aligned_result(d: Seq<u8>, p: int) -> Result<Seq<u8>, DecodeFailed> {
    if p + 3 * ALIGNED_TREE_SIZE > total_bits(d) {
        Err(DecodeFailed::InputExhausted)
    } else if !kraft_ok(aligned_lengths(d, p)) {
        Err(DecodeFailed::InvalidCode)
    } else {
        Ok(aligned_lengths(d, p))
    }
}

/// Reads the aligned-offset tree: eight lengths of 3 bits each, with no pretree.
pub fn read_aligned_tree(reader: &mut Bitstream) -> (r: Result<Tree, DecodeFailed>)
    requires
        old(reader).wf(),
    ensures
        final(reader).wf(),
        final(reader).data() == old(reader).data(),
        final(reader).pos() >= old(reader).pos(),
        r is Ok ==> r->Ok_0.wf() && r->Ok_0.lengths().len() == ALIGNED_TREE_SIZE,
        r is Ok ==> aligned_result(old(reader).data(), old(reader).pos()) == Ok::<
            Seq<u8>,
            DecodeFailed,
        >(r->Ok_0.lengths()) && final(reader).pos() == old(reader).pos() + 3 * ALIGNED_TREE_SIZE,
        r is Err ==> aligned_result(old(reader).data(), old(reader).pos()) == Err::<
            Seq<u8>,
            DecodeFailed,
        >(r->Err_0),
{
    let ghost d = reader.data();
    let ghost p0 = reader.pos();
    let mut lens: Vec<u8> = Vec::new();
    let mut k: usize = 0;
    while k < ALIGNED_TREE_SIZE
        invariant
            reader.wf(),
            reader.data() == old(reader).data(),
            reader.pos() >= old(reader).pos(),
            k <= ALIGNED_TREE_SIZE,
            d == old(reader).data(),
            p0 == old(reader).pos(),
            reader.pos() == p0 + 3 * k,
            lens@ =~= aligned_lengths(d, p0).subrange(0, k as int),
            lengths_ok(lens@),
        decreases ALIGNED_TREE_SIZE - k,
    {
        proof {
            reveal_with_fuel(exp2, 4);
            lemma_bits_value_bound(d, p0 + 3 * k, 3);
        }
        let v = reader.read_bits(3)?;
        lens.push(v as u8);
        k = k + 1;
        proof {
            assert(lens@ =~= aligned_lengths(d, p0).subrange(0, k as int));
        }
    }
    proof {
        assert(lens@ =~= aligned_lengths(d, p0));
        reader.lemma_pos_bound();
    }
    Tree::new(lens)
}

/// The number of footer bits that follow a match in position slot `slot`.
pub open spec fn footer_bits(slot: int) -> nat {
    if slot < 4 {
        0
    } else if slot < 36 {
        (slot / 2 - 1) as nat
    } else {
        17
    }
}

/// The smallest formatted offset of position slot `slot`: each slot covers `2^footer_bits`
/// offsets, right after the slot before it.
pub open spec fn position_base(slot: int) -> nat
    decreases slot,
{
    if slot <= 0 {
        0
    } else {
        position_base(slot - 1) + exp2(footer_bits(slot - 1))
    }
}

/// The number of footer bits of position slot `slot`.
pub fn footer_bits_exec(slot: u32) -> (r: u32)
    ensures
        r == footer_bits(slot as int),
        r <= 17,
{
    if slot < 4 {
        0
    } else if slot < 36 {
        slot / 2 - 1
    } else {
        17
    }
}

/// The base of position slot `slot`.
pub fn position_base_exec(slot: u32) -> (r: u32)
    requires
        slot <= 64,
    ensures
        r == position_base(slot as int),
        slot <= r <= slot * 0x2_0000,
{
    let mut base: u32 = 0;
    let mut s: u32 = 0;
    while s < slot
        invariant
            s <= slot <= 64,
            base == position_base(s as int),
            s <= base <= s * 0x2_0000,
        decreases slot - s,
    {
        let f = footer_bits_exec(s);
        proof {
            lemma_exp2_monotone(0, f as nat);
            lemma_exp2_monotone(f as nat, 17);
            reveal_with_fuel(exp2, 2);
            lemma_exp2_small();
        }
        base = base + exp2_exec(f as usize);
        s = s + 1;
    }
    base
}

} // verus!
