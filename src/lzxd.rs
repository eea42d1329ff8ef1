use vstd::prelude::*;

use crate::bitstream::{Bitstream, bits_value, exp2, total_bits};
use crate::block::{
    ALIGNED_TREE_SIZE,
    LENGTH_TREE_SIZE,
    footer_bits_exec,
    lengths_ok,
    position_base_exec,
    read_aligned_tree,
    read_lengths,
};
use crate::error::DecodeFailed;
use crate::tree::Tree;
use crate::window::{OffsetCache, Window, copy_match};
use crate::window_size::WindowSize;
use crate::stream::{
    DecoderState,
    decode_from,
    initial_state,
    step,
    block_start,
    footer_result,
    offset_result,
    reach_of,
    stored_offsets_result,
    trees_result,
    word_aligned,
    stored_byte_step,
    symbol_step,
};

verus! {

/// The most bytes of output that one chunk holds.
pub const CHUNK_SIZE: usize = 0x8000;

/// The bits of a block header: a 3-bit type and a 24-bit length.
pub const BLOCK_HEADER_BITS: usize = 27;

/// The kinds of block a stream is made of.
#[derive(Debug, Clone, Copy, PartialEq, Eq, Structural)]
pub enum BlockType {
    Verbatim,
    AlignedOffset,
    Uncompressed,
}

/// The block type that a 3-bit header field names, if any.
pub open spec fn block_type_of(bits: int) -> Option<BlockType> {
    if bits == 1 {
        Some(BlockType::Verbatim)
    } else if bits == 2 {
        Some(BlockType::AlignedOffset)
    } else if bits == 3 {
        Some(BlockType::Uncompressed)
    } else {
        None
    }
}

/// The block type that a 3-bit header field names; `InvalidBlockType` for the others.
pub fn parse_block_type(bits: u32) -> (r: Result<BlockType, DecodeFailed>)
    ensures
        block_type_of(bits as int) is Some ==> r == Ok::<BlockType, DecodeFailed>(
            block_type_of(bits as int)->Some_0,
        ),
        block_type_of(bits as int) is None ==> r == Err::<BlockType, DecodeFailed>(
            DecodeFailed::InvalidBlockType,
        ),
{
    if bits == 1 {
        Ok(BlockType::Verbatim)
    } else if bits == 2 {
        Ok(BlockType::AlignedOffset)
    } else if bits == 3 {
        Ok(BlockType::Uncompressed)
    } else {
        Err(DecodeFailed::InvalidBlockType)
    }
}

/// A little-endian 32-bit value from four bytes.
pub open spec fn u32_le(b0: u8, b1: u8, b2: u8, b3: u8) -> int {
    b0 + 0x100 * b1 + 0x1_0000 * b2 + 0x100_0000 * b3
}

/// The match length that a length header gives: 2 to 8 directly, or 9 plus a length-tree
/// symbol for header 7.
pub open spec fn match_length(header: int, length_symbol: int) -> int {
    if header < 7 {
        header + 2
    } else {
        9 + length_symbol
    }
}

/// Reads a 32-bit little-endian value as four whole bytes.
fn read_u32_le(reader: &mut Bitstream) -> (r: Result<u32, DecodeFailed>)
    requires
        old(reader).wf(),
        old(reader).pos() % 8 == 0,
    ensures
        final(reader).wf(),
        final(reader).data() == old(reader).data(),
        final(reader).pos() % 8 == 0,
        final(reader).pos() >= old(reader).pos(),
        r is Ok ==> final(reader).pos() == old(reader).pos() + 32 && r->Ok_0 == u32_le(
            old(reader).data()[old(reader).pos() / 8],
            old(reader).data()[old(reader).pos() / 8 + 1],
            old(reader).data()[old(reader).pos() / 8 + 2],
            old(reader).data()[old(reader).pos() / 8 + 3],
        ),
        old(reader).pos() + 32 > total_bits(old(reader).data()) ==> r is Err,
        r is Err ==> r == Err::<u32, DecodeFailed>(DecodeFailed::InputExhausted)
            && old(reader).pos() + 32 > total_bits(old(reader).data()),
{
    let b0 = reader.read_byte()?;
    let b1 = reader.read_byte()?;
    let b2 = reader.read_byte()?;
    let b3 = reader.read_byte()?;
    Ok(b0 as u32 + 0x100 * b1 as u32 + 0x1_0000 * b2 as u32 + 0x100_0000 * b3 as u32)
}

/// Reads `n` footer bits, `n` up to 17.
fn read_footer(reader: &mut Bitstream, n: u32) -> (r: Result<u32, DecodeFailed>)
    requires
        old(reader).wf(),
        n <= 17,
    ensures
        final(reader).wf(),
        final(reader).data() == old(reader).data(),
        final(reader).pos() >= old(reader).pos(),
        r is Ok ==> r->Ok_0 < exp2(n as nat),
        r is Ok ==> footer_result(old(reader).data(), old(reader).pos(), n as int) == Ok::<
            (int, int),
            DecodeFailed,
        >((r->Ok_0 as int, final(reader).pos())),
        r is Err ==> footer_result(old(reader).data(), old(reader).pos(), n as int) == Err::<
            (int, int),
            DecodeFailed,
        >(r->Err_0),
{
    let ghost d = reader.data();
    let ghost p = reader.pos();
    proof {
        crate::bitstream::lemma_bits_value_bound(d, p, 1);
        crate::bitstream::lemma_bits_value_bound(d, p + 1, 16);
        crate::bitstream::lemma_bits_value_bound(d, p, 16);
        crate::bitstream::lemma_exp2_monotone(0, n as nat);
        if n <= 16 {
            crate::bitstream::lemma_bits_value_bound(d, p, n as nat);
            crate::bitstream::lemma_exp2_monotone(n as nat, 16);
        }
        reader.lemma_pos_bound();
    }
    proof {
        crate::bitstream::lemma_exp2_small();
    }
    if n <= 16 {
        proof {
            crate::bitstream::lemma_exp2_monotone(n as nat, 16);
        }
        reader.read_bits(n)
    } else {
        let hi = reader.read_bits(n - 16)?;
        let lo = reader.read_bits(16)?;
        Ok(hi * 0x1_0000 + lo)
    }
}

/// Reads the offset of a match in position slot `slot`, and updates the repeated offsets.
fn read_offset(
    reader: &mut Bitstream,
    offsets: &mut OffsetCache,
    kind: BlockType,
    aligned: &Option<Tree>,
    slot: u32,
    st: Ghost<DecoderState>,
) -> (r: Result<u32, DecodeFailed>)
    requires
        old(reader).wf(),
        slot < 50,
        st@.offsets == *old(offsets),
        st@.kind == kind,
        kind == BlockType::AlignedOffset ==> aligned is Some && aligned->Some_0.wf()
            && aligned->Some_0.lengths().len() == ALIGNED_TREE_SIZE && st@.aligned_lengths
            == aligned->Some_0.lengths(),
    ensures
        final(reader).wf(),
        final(reader).data() == old(reader).data(),
        final(reader).pos() >= old(reader).pos(),
        r is Ok ==> offset_result(old(reader).data(), st@, slot as int, old(reader).pos()) == Ok::<
            (int, OffsetCache, int),
            DecodeFailed,
        >((r->Ok_0 as int, *final(offsets), final(reader).pos())),
        r is Ok ==> final(offsets).r0 == r->Ok_0,
        r is Err ==> offset_result(old(reader).data(), st@, slot as int, old(reader).pos())
            == Err::<(int, OffsetCache, int), DecodeFailed>(r->Err_0),
{
    proof {
        reveal(offset_result);
    }
    if slot < 3 {
        return Ok(offsets.reuse(slot));
    }
    let f = footer_bits_exec(slot);
    let base = position_base_exec(slot);
    let extra: u32 = if kind == BlockType::AlignedOffset && f >= 3 {
        let hi = read_footer(reader, f - 3)?;
        let at = aligned.as_ref().unwrap();
        let lo = at.decode(reader)?;
        proof {
            crate::bitstream::lemma_exp2_monotone((f - 3) as nat, 14);
            crate::bitstream::lemma_exp2_small();
        }
        hi * 8 + lo as u32
    } else {
        let v = read_footer(reader, f)?;
        proof {
            crate::bitstream::lemma_exp2_monotone(f as nat, 17);
            crate::bitstream::lemma_exp2_small();
        }
        v
    };
    let o = base + extra - 2;
    offsets.push(o);
    Ok(o)
}

/// Reads the padding and the three offsets before an uncompressed block's bytes.
#[verifier::rlimit(60)]
fn read_stored(reader: &mut Bitstream) -> (r: Result<OffsetCache, DecodeFailed>)
    requires
        old(reader).wf(),
    ensures
        final(reader).wf(),
        final(reader).data() == old(reader).data(),
        final(reader).pos() >= old(reader).pos(),
        r is Ok ==> final(reader).pos() % 32 == 0,
        r is Ok ==> stored_offsets_result(old(reader).data(), old(reader).pos()) == Ok::<
            (OffsetCache, int),
            DecodeFailed,
        >((r->Ok_0, final(reader).pos())),
        r is Err ==> stored_offsets_result(old(reader).data(), old(reader).pos()) == Err::<
            (OffsetCache, int),
            DecodeFailed,
        >(r->Err_0),
{
    proof {
        reveal(stored_offsets_result);
    }
    reader.align_to_word();
    if reader.position() % 32 != 0 {
        reader.read_bits(16)?;
    }
    let r0 = read_u32_le(reader)?;
    let r1 = read_u32_le(reader)?;
    let r2 = read_u32_le(reader)?;
    Ok(OffsetCache { r0, r1, r2 })
}

/// Cuts `v` down to its first `n` bytes and returns the rest.
fn split_tail(v: &mut Vec<u8>, n: usize) -> (r: Vec<u8>)
    requires
        n <= old(v)@.len(),
    ensures
        final(v)@ == old(v)@.subrange(0, n as int),
        r@ == old(v)@.subrange(n as int, old(v)@.len() as int),
{
    let mut tail: Vec<u8> = Vec::new();
    let mut i: usize = n;
    while i < v.len()
        invariant
            n <= i <= v@.len(),
            v@ == old(v)@,
            tail@ == v@.subrange(n as int, i as int),
        decreases v@.len() - i,
    {
        tail.push(v[i]);
        i = i + 1;
    }
    v.truncate(n);
    tail
}

/// Where the stream has not ended, decoding the rest of it is one step followed by decoding
/// what is left after that step.
proof fn reader_bound_unfold(d: Seq<u8>, ws: WindowSize, st: DecoderState)
    requires
        !(st.remaining == 0 && total_bits(d) <= word_aligned(st.pos)),
    ensures
        step(d, ws, st) is Err ==> decode_from(d, ws, st) == Err::<Seq<u8>, DecodeFailed>(
            step(d, ws, st)->Err_0,
        ),
        step(d, ws, st) is Ok && st.pos < step(d, ws, st)->Ok_0.pos <= total_bits(d) ==> decode_from(
            d,
            ws,
            st,
        ) == decode_from(d, ws, step(d, ws, st)->Ok_0),
{
}

/// A decoder of one LZXD stream, which hands out its output a chunk at a time.
pub struct Lzxd {
    window_size: WindowSize,
    reader: Bitstream,
    window: Window,
    offsets: OffsetCache,
    /// The code lengths of the main tree, kept from block to block as the base of updates.
    main_lengths: Vec<u8>,
    /// The code lengths of the length tree, kept likewise.
    length_lengths: Vec<u8>,
    /// The type of the block being decoded.
    kind: BlockType,
    /// The bytes of output that the block being decoded still owes; 0 between blocks.
    remaining: u32,
    main_tree: Option<Tree>,
    length_tree: Option<Tree>,
    aligned_tree: Option<Tree>,
    /// Set once decoding failed: the session then yields nothing more.
    failed: bool,
    /// Bytes decoded but not handed out yet: the end of a match that ran past a chunk.
    carry: Vec<u8>,
}

impl Lzxd {
    /// Every byte decoded so far.
    pub closed spec fn output(&self) -> Seq<u8> {
        self.window.history()
    }

    /// Whether a block is being decoded.
    pub closed spec fn in_block(&self) -> bool {
        self.remaining > 0
    }

    /// Whether only padding remains, between blocks: no whole 16-bit word past the current one.
    pub closed spec fn input_ended(&self) -> bool {
        total_bits(self.reader.data()) <= word_aligned(self.reader.pos())
    }

    /// The input.
    pub closed spec fn data(&self) -> Seq<u8> {
        self.reader.data()
    }

    /// What the decoder holds between steps.
    pub closed spec fn state(&self) -> DecoderState {
        DecoderState {
            pos: self.reader.pos(),
            output: self.window.history(),
            offsets: self.offsets,
            main_lengths: self.main_lengths@,
            length_lengths: self.length_lengths@,
            aligned_lengths: match self.aligned_tree {
                Some(t) => t.lengths(),
                None => Seq::empty(),
            },
            kind: self.kind,
            remaining: self.remaining as int,
        }
    }

    /// The three repeated offsets, most recent first.
    pub closed spec fn repeated_offsets(&self) -> OffsetCache {
        self.offsets
    }

    /// The three repeated offsets, most recent first.
    pub fn offsets(&self) -> (r: OffsetCache)
        ensures
            r == self.repeated_offsets(),
    {
        self.offsets
    }

    /// Whether the session failed.
    pub closed spec fn has_failed(&self) -> bool {
        self.failed
    }

    /// A measure of the work left: it falls with every chunk handed out.
    pub closed spec fn budget(&self) -> nat {
        if self.failed {
            0
        } else {
            ((total_bits(self.reader.data()) - self.reader.pos()) * 512 + self.carry@.len() + 1) as nat
        }
    }

    /// The output handed out so far: all of it but the bytes carried to the next chunk.
    pub closed spec fn delivered(&self) -> Seq<u8> {
        self.window.history().subrange(0, self.window.history().len() - self.carry@.len())
    }

    /// The window size the session decodes with.
    pub closed spec fn size(&self) -> WindowSize {
        self.window_size
    }

    /// The bytes carried to the next chunk are the last ones decoded.
    pub closed spec fn carry_ok(&self) -> bool {
        self.window.history().subrange(
            self.window.history().len() - self.carry@.len(),
            self.window.history().len() as int,
        ) == self.carry@
    }

    proof fn lemma_no_carry(&self)
        requires
            self.carry@.len() == 0,
        ensures
            self.carry_ok(),
    {
        assert(self.window.history().subrange(
            self.window.history().len() as int,
            self.window.history().len() as int,
        ) =~= self.carry@);
    }

    pub closed spec fn wf(&self) -> bool {
        let main_size = 256 + 8 * self.window_size.spec_position_slots();
        &&& self.reader.wf()
        &&& self.window.wf()
        &&& self.carry@.len() < 512
        &&& self.carry@.len() <= self.window.history().len()
        &&& self.window.capacity() == self.window_size.spec_value()
        &&& self.main_lengths@.len() == main_size
        &&& lengths_ok(self.main_lengths@)
        &&& self.length_lengths@.len() == LENGTH_TREE_SIZE
        &&& lengths_ok(self.length_lengths@)
        &&& self.remaining > 0 && self.kind != BlockType::Uncompressed ==> {
            &&& self.main_tree is Some
            &&& self.main_tree->Some_0.wf()
            &&& self.main_tree->Some_0.lengths() == self.main_lengths@
            &&& self.length_tree is Some
            &&& self.length_tree->Some_0.wf()
            &&& self.length_tree->Some_0.lengths() == self.length_lengths@
        }
        &&& self.remaining > 0 && self.kind == BlockType::AlignedOffset ==> {
            &&& self.aligned_tree is Some
            &&& self.aligned_tree->Some_0.wf()
            &&& self.aligned_tree->Some_0.lengths().len() == ALIGNED_TREE_SIZE
        }
        &&& self.remaining > 0 && self.kind == BlockType::Uncompressed ==> self.reader.pos() % 8
            == 0
    }

    /// A decoder for `buffer`, compressed with a window of `window_size`. All code lengths
    /// start at 0, and the three repeated offsets at 1.
    pub fn new(window_size: WindowSize, buffer: &[u8]) -> (r: Lzxd)
        requires
            buffer@.len() <= usize::MAX / 16,
        ensures
            r.wf(),
            r.output() == Seq::<u8>::empty(),
            r.repeated_offsets() == (OffsetCache { r0: 1, r1: 1, r2: 1 }),
            r.state() == initial_state(window_size),
            r.carry_ok(),
            r.delivered() == Seq::<u8>::empty(),
            r.data() == buffer@,
            r.input_ended() == (total_bits(buffer@) == 0),
            !r.in_block(),
            !r.has_failed(),
            r.size() == window_size,
    {
        let main_size = window_size.main_tree_size();
        let mut main_lengths: Vec<u8> = Vec::new();
        while main_lengths.len() < main_size
            invariant
                main_lengths@.len() <= main_size,
                main_size == 256 + 8 * window_size.spec_position_slots(),
                lengths_ok(main_lengths@),
                forall|k: int| 0 <= k < main_lengths@.len() ==> main_lengths@[k] == 0,
            decreases main_size - main_lengths@.len(),
        {
            main_lengths.push(0);
        }
        let mut length_lengths: Vec<u8> = Vec::new();
        while length_lengths.len() < LENGTH_TREE_SIZE
            invariant
                length_lengths@.len() <= LENGTH_TREE_SIZE,
                lengths_ok(length_lengths@),
                forall|k: int| 0 <= k < length_lengths@.len() ==> length_lengths@[k] == 0,
            decreases LENGTH_TREE_SIZE - length_lengths@.len(),
        {
            length_lengths.push(0);
        }
        proof {
            assert(main_lengths@ =~= initial_state(window_size).main_lengths);
            assert(length_lengths@ =~= initial_state(window_size).length_lengths);
        }
        let r = Lzxd {
            window_size,
            reader: Bitstream::new(buffer),
            window: Window::new(window_size),
            offsets: OffsetCache::new(),
            main_lengths,
            length_lengths,
            kind: BlockType::Verbatim,
            remaining: 0,
            main_tree: None,
            length_tree: None,
            aligned_tree: None,
            failed: false,
            carry: Vec::new(),
        };
        proof {
            r.lemma_no_carry();
        }
        r
    }

    /// Reads what precedes an uncompressed block's bytes: padding up to a 16-bit word, then
    /// up to a 32-bit boundary, then R0, R1 and R2 as little-endian 32-bit values.
    fn read_stored_offsets(&mut self) -> (r: Result<(), DecodeFailed>)
        requires
            old(self).wf(),
            !old(self).in_block(),
        ensures
            final(self).wf(),
            !final(self).in_block(),
            final(self).output() == old(self).output(),
            final(self).window_size == old(self).window_size,
            final(self).failed == old(self).failed,
            final(self).carry@ == old(self).carry@,
            final(self).reader.data() == old(self).reader.data(),
            final(self).reader.pos() >= old(self).reader.pos(),
            r is Ok ==> final(self).reader.pos() % 32 == 0,
            r is Ok ==> stored_offsets_result(old(self).reader.data(), old(self).reader.pos())
                == Ok::<(OffsetCache, int), DecodeFailed>((final(self).offsets, final(self).reader.pos())),
            r is Err ==> stored_offsets_result(old(self).reader.data(), old(self).reader.pos())
                == Err::<(OffsetCache, int), DecodeFailed>(r->Err_0),
            final(self).main_lengths@ == old(self).main_lengths@,
            final(self).length_lengths@ == old(self).length_lengths@,
            final(self).aligned_tree == old(self).aligned_tree,
            final(self).kind == old(self).kind,
    {
        let offs = read_stored(&mut self.reader)?;
        self.offsets = offs;
        Ok(())
    }

    /// Reads the trees of an entropy-coded block: the aligned-offset tree for an
    /// aligned-offset block, then updates of the main and length trees' code lengths.
    fn read_block_trees(&mut self, kind: BlockType) -> (r: Result<(), DecodeFailed>)
        requires
            old(self).wf(),
            !old(self).in_block(),
            kind != BlockType::Uncompressed,
        ensures
            final(self).wf(),
            !final(self).in_block(),
            final(self).output() == old(self).output(),
            final(self).window_size == old(self).window_size,
            final(self).failed == old(self).failed,
            final(self).carry@ == old(self).carry@,
            final(self).reader.data() == old(self).reader.data(),
            final(self).reader.pos() >= old(self).reader.pos(),
            r is Ok ==> {
                &&& final(self).main_tree is Some
                &&& final(self).main_tree->Some_0.wf()
                &&& final(self).main_tree->Some_0.lengths() == final(self).main_lengths@
                &&& final(self).length_tree is Some
                &&& final(self).length_tree->Some_0.wf()
                &&& final(self).length_tree->Some_0.lengths() == final(self).length_lengths@
                &&& kind == BlockType::AlignedOffset ==> {
                    &&& final(self).aligned_tree is Some
                    &&& final(self).aligned_tree->Some_0.wf()
                    &&& final(self).aligned_tree->Some_0.lengths().len() == ALIGNED_TREE_SIZE
                }
            },
            r is Ok ==> trees_result(
                old(self).reader.data(),
                old(self).state().aligned_lengths,
                old(self).main_lengths@,
                old(self).length_lengths@,
                kind,
                old(self).reader.pos(),
            )
                == Ok::<(Seq<u8>, Seq<u8>, Seq<u8>, int), DecodeFailed>(
                (
                    final(self).state().aligned_lengths,
                    final(self).main_lengths@,
                    final(self).length_lengths@,
                    final(self).reader.pos(),
                ),
            ),
            r is Err ==> trees_result(
                old(self).reader.data(),
                old(self).state().aligned_lengths,
                old(self).main_lengths@,
                old(self).length_lengths@,
                kind,
                old(self).reader.pos(),
            )
                == Err::<(Seq<u8>, Seq<u8>, Seq<u8>, int), DecodeFailed>(r->Err_0),
            final(self).offsets == old(self).offsets,
            final(self).kind == old(self).kind,
    {
        proof {
            reveal(trees_result);
        }
        let ghost st0 = self.state();
        if kind == BlockType::AlignedOffset {
            let t = read_aligned_tree(&mut self.reader)?;
            self.aligned_tree = Some(t);
        }
        let main_size = self.window_size.main_tree_size();
        read_lengths(&mut self.reader, &mut self.main_lengths, 0, 256)?;
        read_lengths(&mut self.reader, &mut self.main_lengths, 256, main_size)?;
        read_lengths(&mut self.reader, &mut self.length_lengths, 0, LENGTH_TREE_SIZE)?;
        let main = Tree::new(self.main_lengths.clone())?;
        let length = Tree::new(self.length_lengths.clone())?;
        self.main_tree = Some(main);
        self.length_tree = Some(length);
        Ok(())
    }

    /// Reads the header of the next block and what comes before its data: the trees of an
    /// entropy-coded block, or the three offsets of an uncompressed one.
    fn start_block(&mut self) -> (r: Result<(), DecodeFailed>)
        requires
            old(self).wf(),
            !old(self).in_block(),
        ensures
            final(self).wf(),
            final(self).output() == old(self).output(),
            final(self).window_size == old(self).window_size,
            final(self).failed == old(self).failed,
            final(self).carry@ == old(self).carry@,
            final(self).reader.data() == old(self).reader.data(),
            final(self).reader.pos() >= old(self).reader.pos(),
            r is Ok ==> final(self).reader.pos() >= old(self).reader.pos() + BLOCK_HEADER_BITS,
            r is Ok ==> {
                let d = old(self).reader.data();
                let p = old(self).reader.pos();
                &&& block_type_of(bits_value(d, p, 3) as int) == Some(final(self).kind)
                &&& final(self).remaining == bits_value(d, p + 3, 8) * 0x1_0000 + bits_value(
                    d,
                    p + 11,
                    16,
                )
            },
            old(self).reader.pos() + 3 <= total_bits(old(self).reader.data()) && block_type_of(
                bits_value(old(self).reader.data(), old(self).reader.pos(), 3) as int,
            ) is None ==> r == Err::<(), DecodeFailed>(DecodeFailed::InvalidBlockType),
            r is Ok ==> block_start(old(self).data(), old(self).state()) == Ok::<
                DecoderState,
                DecodeFailed,
            >(final(self).state()),
            r is Err ==> block_start(old(self).data(), old(self).state()) == Err::<
                DecoderState,
                DecodeFailed,
            >(r->Err_0),
    {
        proof {
            reveal(block_start);
        }
        let ghost d = self.reader.data();
        let ghost p = self.reader.pos();
        proof {
            crate::bitstream::lemma_bits_value_bound(d, p, 3);
            crate::bitstream::lemma_exp2_small();
        }
        let bits = self.reader.read_bits(3)?;
        let kind = parse_block_type(bits)?;
        let hi = self.reader.read_bits(8)?;
        let lo = self.reader.read_bits(16)?;
        proof {
            crate::bitstream::lemma_exp2_small();
            crate::bitstream::lemma_bits_value_bound(d, p, 3);
            crate::bitstream::lemma_bits_value_bound(d, p + 3, 8);
            crate::bitstream::lemma_bits_value_bound(d, p + 11, 16);
        }
        let size = hi * 0x1_0000 + lo;
        if kind == BlockType::Uncompressed {
            self.read_stored_offsets()?;
        } else {
            self.read_block_trees(kind)?;
        }
        self.kind = kind;
        self.remaining = size;
        Ok(())
    }

    /// Copies one byte of an uncompressed block to the output. After the block's last byte
    /// the input is realigned to a 16-bit word.
    fn copy_stored_byte(&mut self, out: &mut Vec<u8>) -> (r: Result<(), DecodeFailed>)
        requires
            old(self).wf(),
            old(self).in_block(),
            old(self).kind == BlockType::Uncompressed,
        ensures
            final(self).wf(),
            final(self).window_size == old(self).window_size,
            final(self).failed == old(self).failed,
            final(self).carry@ == old(self).carry@,
            final(self).reader.data() == old(self).reader.data(),
            final(self).reader.pos() >= old(self).reader.pos(),
            final(self).output().len() >= old(self).output().len(),
            final(self).output().subrange(0, old(self).output().len() as int) == old(self).output(),
            final(out)@ == old(out)@ + final(self).output().subrange(
                old(self).output().len() as int,
                final(self).output().len() as int,
            ),
            r is Ok ==> final(self).reader.pos() > old(self).reader.pos(),
            r is Ok ==> final(self).output().len() == old(self).output().len() + 1,
            r is Ok ==> stored_byte_step(old(self).data(), old(self).state()) == Ok::<
                DecoderState,
                DecodeFailed,
            >(final(self).state()),
            r is Err ==> stored_byte_step(old(self).data(), old(self).state()) == Err::<
                DecoderState,
                DecodeFailed,
            >(r->Err_0),
    {
        proof {
            reveal(stored_byte_step);
        }
        let b = self.reader.read_byte()?;
        let ghost h = self.window.history();
        self.window.emit_literal(b, out);
        proof {
            assert(self.window.history().subrange(0, h.len() as int) =~= h);
            assert(out@ =~= old(out)@ + self.window.history().subrange(
                h.len() as int,
                self.window.history().len() as int,
            ));
        }
        self.remaining = self.remaining - 1;
        if self.remaining == 0 {
            self.reader.align_to_word();
        }
        Ok(())
    }

    /// Decodes one symbol of an entropy-coded block, a literal or a match, into the output.
    #[verifier::rlimit(80)]
    fn decode_symbol(&mut self, out: &mut Vec<u8>) -> (r: Result<(), DecodeFailed>)
        requires
            old(self).wf(),
            old(self).in_block(),
            old(self).kind != BlockType::Uncompressed,
        ensures
            final(self).wf(),
            final(self).window_size == old(self).window_size,
            final(self).failed == old(self).failed,
            final(self).carry@ == old(self).carry@,
            final(self).reader.data() == old(self).reader.data(),
            final(self).reader.pos() >= old(self).reader.pos(),
            final(self).output().len() >= old(self).output().len(),
            final(self).output().subrange(0, old(self).output().len() as int) == old(self).output(),
            final(out)@ == old(out)@ + final(self).output().subrange(
                old(self).output().len() as int,
                final(self).output().len() as int,
            ),
            r is Ok ==> final(self).reader.pos() > old(self).reader.pos(),
            r is Ok ==> final(self).output().len() > old(self).output().len(),
            final(self).output().len() <= old(self).output().len() + 257,
            r is Ok ==> final(self).remaining == old(self).remaining - (final(self).output().len()
                - old(self).output().len()),
            r is Ok ==> symbol_step(old(self).data(), old(self).window_size, old(self).state())
                == Ok::<DecoderState, DecodeFailed>(final(self).state()),
            r is Err ==> symbol_step(old(self).data(), old(self).window_size, old(self).state())
                == Err::<DecoderState, DecodeFailed>(r->Err_0),
            r is Ok ==> final(self).output().len() == old(self).output().len() + 1 || exists|
                o: int,
                n: nat,
            |
                #![trigger copy_match(old(self).output(), o, n)]
                {
                    &&& 2 <= n <= 257
                    &&& 0 < o <= old(self).window.reach()
                    &&& final(self).output() == copy_match(old(self).output(), o, n)
                    &&& final(self).offsets.r0 == o
                },
    {
        proof {
            reveal(symbol_step);
        }
        let ghost st0 = self.state();
        let ghost d = self.reader.data();
        let ghost h = self.window.history();
        let main = self.main_tree.as_ref().unwrap();
        let sym = main.decode(&mut self.reader)?;
        if sym < 256 {
            self.window.emit_literal(sym as u8, out);
            proof {
                assert(self.window.history().subrange(0, h.len() as int) =~= h);
                assert(out@ =~= old(out)@ + self.window.history().subrange(
                    h.len() as int,
                    self.window.history().len() as int,
                ));
            }
            self.remaining = self.remaining - 1;
            return Ok(());
        }
        let s = (sym - 256) as u32;
        let slot = s / 8;
        let header = s % 8;
        let length: u32 = if header == 7 {
            let lt = self.length_tree.as_ref().unwrap();
            let ls = lt.decode(&mut self.reader)?;
            9 + ls as u32
        } else {
            header + 2
        };
        let offset = read_offset(
            &mut self.reader,
            &mut self.offsets,
            self.kind,
            &self.aligned_tree,
            slot,
            Ghost(st0),
        )?;
        if offset == 0 || offset as usize > self.window.reach_exec() {
            return Err(DecodeFailed::InvalidOffset);
        }
        if length > self.remaining {
            return Err(DecodeFailed::InvalidLength);
        }
        self.window.emit_match(offset as usize, length as usize, out)?;
        proof {
            assert(self.window.history() == copy_match(h, offset as int, length as nat));
        }
        self.remaining = self.remaining - length;
        Ok(())
    }

    /// Decodes the next chunk of output: `CHUNK_SIZE` bytes, or fewer when the input ends at
    /// a block boundary first. Blocks, and a match that runs past the end of a chunk, run on
    /// into the next chunk. Returns `None` once the input has ended,
    /// or once decoding failed; a failure ends the session.
    pub fn next_chunk(&mut self) -> (r: Option<Result<Vec<u8>, DecodeFailed>>)
        requires
            old(self).wf(),
            old(self).carry_ok(),
        ensures
            final(self).wf(),
            final(self).carry_ok(),
            final(self).size() == old(self).size(),
            final(self).data() == old(self).data(),
            old(self).has_failed() ==> r is None,
            !old(self).in_block() && old(self).input_ended() && old(self).delivered() == old(
                self,
            ).output() ==> r is None,
            r is None ==> final(self).output() == old(self).output(),
            r is None && !old(self).has_failed() ==> {
                &&& final(self).input_ended()
                &&& !final(self).in_block()
                &&& !final(self).has_failed()
                &&& final(self).delivered() == final(self).output()
                &&& old(self).delivered() == old(self).output()
                &&& decode_from(old(self).data(), old(self).size(), old(self).state()) == Ok::<
                    Seq<u8>,
                    DecodeFailed,
                >(final(self).output())
            },
            r matches Some(Ok(c)) ==> {
                &&& final(self).delivered() == old(self).delivered() + c@
                &&& 0 < c@.len() <= CHUNK_SIZE
                &&& !final(self).has_failed()
                &&& c@.len() < CHUNK_SIZE ==> !final(self).in_block() && final(self).input_ended()
                    && final(self).delivered() == final(self).output()
            },
            r matches Some(Err(_)) ==> final(self).has_failed(),
            r is Some ==> final(self).budget() < old(self).budget(),
            !final(self).has_failed() ==> decode_from(final(self).data(), final(self).size(), final(self).state())
                == decode_from(old(self).data(), old(self).size(), old(self).state()),
            r matches Some(Err(e)) ==> decode_from(old(self).data(), old(self).size(), old(self).state())
                == Err::<Seq<u8>, DecodeFailed>(e),
    {
        if self.failed {
            return None;
        }
        let ghost ws = self.window_size;
        let ghost h0 = old(self).delivered();
        let ghost pos0 = self.reader.pos();
        let ghost data = self.reader.data();
        proof {
            self.reader.lemma_pos_bound();
            assert(self.window.history() =~= h0 + self.carry@);
        }
        let mut out: Vec<u8> = Vec::new();
        std::mem::swap(&mut out, &mut self.carry);
        let mut at_end = false;
        while out.len() < CHUNK_SIZE
            invariant
                self.wf(),
                !self.failed,
                !old(self).failed,
                self.window_size == old(self).window_size,
                h0 == old(self).delivered(),
                self.carry@.len() == 0,
                out@.len() < CHUNK_SIZE + 512,
                pos0 == old(self).reader.pos(),
                data == old(self).reader.data(),
                self.reader.data() == data,
                self.reader.pos() >= pos0,
                self.reader.pos() == pos0 ==> out@ == old(self).carry@,
                old(self).carry@.len() <= out@.len(),
                self.output() == h0 + out@,
                pos0 <= total_bits(data),
                self.reader.pos() <= total_bits(data),
                !old(self).in_block() && old(self).input_ended() ==> out@ == old(self).carry@
                    && !self.in_block() && self.reader.pos() == pos0,
                at_end ==> !self.in_block() && self.input_ended() && out@.len() == 0,
                ws == old(self).window_size,
                decode_from(data, ws, self.state()) == decode_from(data, ws, old(self).state()),
            ensures
                out@.len() == 0 ==> at_end,
                out@.len() < CHUNK_SIZE ==> !self.in_block() && self.input_ended(),
            decreases
                (if out@.len() < CHUNK_SIZE {
                    CHUNK_SIZE - out@.len()
                } else {
                    0
                }),
                total_bits(data) - self.reader.pos(),
        {
            let ghost out_before = out@;
            let ghost h_before = self.output();
            let ghost pos_before = self.reader.pos();
            let ghost st_before = self.state();
            proof {
                reveal(step);
            }
            if self.remaining == 0 {
                if self.reader.at_end() {
                    if out.len() == 0 {
                        at_end = true;
                    }
                    break;
                }
                if let Err(e) = self.start_block() {
                    proof {
                        reader_bound_unfold(data, ws, st_before);
                    }
                    self.failed = true;
                    proof {
                        self.lemma_no_carry();
                    }
                    return Some(Err(e));
                }
            } else if self.kind == BlockType::Uncompressed {
                if let Err(e) = self.copy_stored_byte(&mut out) {
                    proof {
                        reader_bound_unfold(data, ws, st_before);
                    }
                    self.failed = true;
                    proof {
                        self.lemma_no_carry();
                    }
                    return Some(Err(e));
                }
            } else {
                if let Err(e) = self.decode_symbol(&mut out) {
                    proof {
                        reader_bound_unfold(data, ws, st_before);
                    }
                    self.failed = true;
                    proof {
                        self.lemma_no_carry();
                    }
                    return Some(Err(e));
                }
            }
            proof {
                self.reader.lemma_pos_bound();
                assert(self.output() =~= h0 + out@) by {
                    let n0 = h_before.len() as int;
                    assert(self.output() =~= self.output().subrange(0, n0) + self.output().subrange(
                        n0,
                        self.output().len() as int,
                    ));
                }
                assert(out@.len() > out_before.len() || (out@ == out_before && self.reader.pos()
                    > pos_before));
                reader_bound_unfold(data, ws, st_before);
            }
        }
        if out.len() == 0 {
            proof {
                assert(self.output() =~= h0);
                assert(self.delivered() =~= self.output());
                self.lemma_no_carry();
            }
            return None;
        }
        if out.len() > CHUNK_SIZE {
            self.carry = split_tail(&mut out, CHUNK_SIZE);
        }
        proof {
            self.reader.lemma_pos_bound();
            assert(self.delivered() =~= h0 + out@);
            assert(self.carry_ok()) by {
                assert(self.window.history().subrange(
                    self.window.history().len() - self.carry@.len(),
                    self.window.history().len() as int,
                ) =~= self.carry@);
            }
        }
        Some(Ok(out))
    }
}

} // verus!
