use vstd::prelude::*;

use crate::bitstream::{bits_value, total_bits};
use crate::block::{aligned_result, footer_bits, lengths_result, position_base, LENGTH_TREE_SIZE};
use crate::error::DecodeFailed;
use crate::lzxd::{BlockType, BLOCK_HEADER_BITS, block_type_of, match_length, u32_le};
use crate::tree::{decode_result, kraft_ok};
use crate::window::{OffsetCache, after_push, after_reuse, copy_match, slot_offset};
use crate::window_size::WindowSize;

verus! {

/// What a decoder holds between steps.
pub struct DecoderState {
    /// The index of the next bit of input.
    pub pos: int,
    /// Every byte decoded so far.
    pub output: Seq<u8>,
    pub offsets: OffsetCache,
    pub main_lengths: Seq<u8>,
    pub length_lengths: Seq<u8>,
    pub aligned_lengths: Seq<u8>,
    /// The type of the block being decoded.
    pub kind: BlockType,
    /// The bytes the block being decoded still owes; 0 between blocks.
    pub remaining: int,
}

/// The state at the start of a stream: no output, all code lengths 0, offsets 1.
pub open spec fn initial_state(ws: WindowSize) -> DecoderState {
    DecoderState {
        pos: 0,
        output: Seq::empty(),
        offsets: OffsetCache { r0: 1, r1: 1, r2: 1 },
        main_lengths: Seq::new(256 + 8 * ws.spec_position_slots(), |k: int| 0u8),
        length_lengths: Seq::new(LENGTH_TREE_SIZE as nat, |k: int| 0u8),
        aligned_lengths: Seq::empty(),
        kind: BlockType::Verbatim,
        remaining: 0,
    }
}

/// `p` rounded up to a multiple of 16.
pub open spec fn word_aligned(p: int) -> int {
    if p % 16 == 0 {
        p
    } else {
        p + 16 - p % 16
    }
}

/// Reading the padding and the three offsets before an uncompressed block's bytes, at `p`:
/// padding to a 16-bit word, 16 more bits where that is not a 32-bit boundary, then three
/// little-endian 32-bit values.
#[verifier::opaque]
pub open spec fn stored_offsets_result(d: Seq<u8>, p: int) -> Result<(OffsetCache, int), DecodeFailed> {
    let a = word_aligned(p);
    let b = if a % 32 != 0 {
        a + 16
    } else {
        a
    };
    if b > total_bits(d) || b + 96 > total_bits(d) {
        Err(DecodeFailed::InputExhausted)
    } else {
        let q = b / 8;
        Ok(
            (
                OffsetCache {
                    r0: u32_le(d[q], d[q + 1], d[q + 2], d[q + 3]) as u32,
                    r1: u32_le(d[q + 4], d[q + 5], d[q + 6], d[q + 7]) as u32,
                    r2: u32_le(d[q + 8], d[q + 9], d[q + 10], d[q + 11]) as u32,
                },
                b + 96,
            ),
        )
    }
}

/// Reading the trees of an entropy-coded block at `p`: the aligned-offset tree when there is
/// one, then the updates of the main tree's two parts and of the length tree. The trees are
/// rebuilt from the updated lengths, which must satisfy the Kraft inequality.
#[verifier::opaque]
pub open spec fn trees_result(
    d: Seq<u8>,
    aligned_prev: Seq<u8>,
    main_prev: Seq<u8>,
    length_prev: Seq<u8>,
    kind: BlockType,
    p: int,
) -> Result<
    (Seq<u8>, Seq<u8>, Seq<u8>, int),
    DecodeFailed,
> {
    let a: Result<(Seq<u8>, int), DecodeFailed> = if kind == BlockType::AlignedOffset {
        match aligned_result(d, p) {
            Err(e) => Err(e),
            Ok(al) => Ok((al, p + 24)),
        }
    } else {
        Ok((aligned_prev, p))
    };
    match a {
        Err(e) => Err(e),
        Ok((al, p1)) => match lengths_result(d, p1, main_prev, 0, 256) {
            Err(e) => Err(e),
            Ok((m1, p2)) => match lengths_result(d, p2, m1, 256, main_prev.len() as int) {
                Err(e) => Err(e),
                Ok((m2, p3)) => match lengths_result(
                    d,
                    p3,
                    length_prev,
                    0,
                    LENGTH_TREE_SIZE as int,
                ) {
                    Err(e) => Err(e),
                    Ok((l, p4)) => if !kraft_ok(m2) || !kraft_ok(l) {
                        Err(DecodeFailed::InvalidCode)
                    } else {
                        Ok((al, m2, l, p4))
                    },
                },
            },
        },
    }
}

/// Reading a block header at the state's position, and what comes before the block's data.
#[verifier::opaque]
pub open spec fn block_start(d: Seq<u8>, st: DecoderState) -> Result<DecoderState, DecodeFailed> {
    let p = st.pos;
    if p + 3 > total_bits(d) {
        Err(DecodeFailed::InputExhausted)
    } else {
        match block_type_of(bits_value(d, p, 3) as int) {
            None => Err(DecodeFailed::InvalidBlockType),
            Some(kind) => if p + BLOCK_HEADER_BITS > total_bits(d) {
                Err(DecodeFailed::InputExhausted)
            } else {
                let size = (bits_value(d, p + 3, 8) * 0x1_0000 + bits_value(d, p + 11, 16)) as int;
                let q = p + BLOCK_HEADER_BITS;
                if kind == BlockType::Uncompressed {
                    match stored_offsets_result(d, q) {
                        Err(e) => Err(e),
                        Ok((offs, q2)) => Ok(
                            DecoderState { pos: q2, offsets: offs, kind, remaining: size, ..st },
                        ),
                    }
                } else {
                    match trees_result(
                        d,
                        st.aligned_lengths,
                        st.main_lengths,
                        st.length_lengths,
                        kind,
                        q,
                    ) {
                        Err(e) => Err(e),
                        Ok((al, m, l, q2)) => Ok(
                            DecoderState {
                                pos: q2,
                                main_lengths: m,
                                length_lengths: l,
                                aligned_lengths: al,
                                kind,
                                remaining: size,
                                ..st
                            },
                        ),
                    }
                }
            },
        }
    }
}

/// Copying one byte of an uncompressed block; after the last one the input is realigned to a
/// 16-bit word.
#[verifier::opaque]
pub open spec fn stored_byte_step(d: Seq<u8>, st: DecoderState) -> Result<DecoderState, DecodeFailed> {
    if st.pos + 8 > total_bits(d) {
        Err(DecodeFailed::InputExhausted)
    } else {
        let q = if st.remaining - 1 == 0 {
            word_aligned(st.pos + 8)
        } else {
            st.pos + 8
        };
        Ok(
            DecoderState {
                pos: q,
                output: st.output.push(d[st.pos / 8]),
                remaining: st.remaining - 1,
                ..st
            },
        )
    }
}

/// Reading `n` footer bits at `p`, `n` up to 17.
pub open spec fn footer_result(d: Seq<u8>, p: int, n: int) -> Result<(int, int), DecodeFailed> {
    if p + n > total_bits(d) {
        Err(DecodeFailed::InputExhausted)
    } else if n <= 16 {
        Ok((bits_value(d, p, n as nat) as int, p + n))
    } else {
        Ok(
            (
                (bits_value(d, p, (n - 16) as nat) * 0x1_0000 + bits_value(d, p + n - 16, 16)) as int,
                p + n,
            ),
        )
    }
}

/// Reading the offset of a match in position slot `slot` at `p`: a repeated offset for slots
/// 0 to 2; otherwise the slot's base plus its footer, less 2. In an aligned-offset block a
/// footer of 3 bits or more takes its low 3 bits from the aligned-offset tree.
#[verifier::opaque]
pub open spec fn offset_result(d: Seq<u8>, st: DecoderState, slot: int, p: int) -> Result<
    (int, OffsetCache, int),
    DecodeFailed,
> {
    if slot < 3 {
        Ok((slot_offset(st.offsets, slot) as int, after_reuse(st.offsets, slot), p))
    } else {
        let f = footer_bits(slot) as int;
        let extra: Result<(int, int), DecodeFailed> = if st.kind == BlockType::AlignedOffset && f
            >= 3 {
            match footer_result(d, p, f - 3) {
                Err(e) => Err(e),
                Ok((hi, p1)) => match decode_result(st.aligned_lengths, d, p1) {
                    Err(e) => Err(e),
                    Ok((lo, p2)) => Ok((hi * 8 + lo, p2)),
                },
            }
        } else {
            footer_result(d, p, f)
        };
        match extra {
            Err(e) => Err(e),
            Ok((x, p1)) => {
                let o = position_base(slot) + x - 2;
                Ok((o, after_push(st.offsets, o as u32), p1))
            },
        }
    }
}

/// How far back a match may reach: the bytes produced, up to the window's capacity.
pub open spec fn reach_of(output: Seq<u8>, ws: WindowSize) -> int {
    if output.len() < ws.spec_value() {
        output.len() as int
    } else {
        ws.spec_value() as int
    }
}

/// Decoding one main-tree symbol of an entropy-coded block: symbols below 256 are literal
/// bytes; the others are matches, `256 + 8 * slot + length_header`.
#[verifier::opaque]
pub open spec fn symbol_step(d: Seq<u8>, ws: WindowSize, st: DecoderState) -> Result<
    DecoderState,
    DecodeFailed,
> {
    match decode_result(st.main_lengths, d, st.pos) {
        Err(e) => Err(e),
        Ok((sym, q)) => if sym < 256 {
            Ok(
                DecoderState {
                    pos: q,
                    output: st.output.push(sym as u8),
                    remaining: st.remaining - 1,
                    ..st
                },
            )
        } else {
            let slot = (sym - 256) / 8;
            let header = (sym - 256) % 8;
            let lr: Result<(int, int), DecodeFailed> = if header == 7 {
                match decode_result(st.length_lengths, d, q) {
                    Err(e) => Err(e),
                    Ok((ls, q2)) => Ok((match_length(header, ls), q2)),
                }
            } else {
                Ok((match_length(header, 0), q))
            };
            match lr {
                Err(e) => Err(e),
                Ok((len, q2)) => match offset_result(d, st, slot, q2) {
                    Err(e) => Err(e),
                    Ok((o, offs, q3)) => if o <= 0 || o > reach_of(st.output, ws) {
                        Err(DecodeFailed::InvalidOffset)
                    } else if len > st.remaining {
                        Err(DecodeFailed::InvalidLength)
                    } else {
                        Ok(
                            DecoderState {
                                pos: q3,
                                output: copy_match(st.output, o, len as nat),
                                offsets: offs,
                                remaining: st.remaining - len,
                                ..st
                            },
                        )
                    },
                },
            }
        },
    }
}

/// One step of decoding: a block header between blocks, else one byte of an uncompressed
/// block or one symbol of an entropy-coded one.
#[verifier::opaque]
pub open spec fn step(d: Seq<u8>, ws: WindowSize, st: DecoderState) -> Result<DecoderState, DecodeFailed> {
    if st.remaining == 0 {
        block_start(d, st)
    } else if st.kind == BlockType::Uncompressed {
        stored_byte_step(d, st)
    } else {
        symbol_step(d, ws, st)
    }
}

/// Decoding the rest of the stream from `st`: the whole output, or the first error. The
/// stream ends between blocks where no whole 16-bit word remains past the current one: the
/// bits left are padding. A header cut short anywhere else is an error.
pub open spec fn decode_from(d: Seq<u8>, ws: WindowSize, st: DecoderState) -> Result<
    Seq<u8>,
    DecodeFailed,
>
    decreases total_bits(d) - st.pos,
{
    if st.remaining == 0 && total_bits(d) <= word_aligned(st.pos) {
        Ok(st.output)
    } else {
        match step(d, ws, st) {
            Err(e) => Err(e),
            Ok(st2) => if st.pos < st2.pos <= total_bits(d) {
                decode_from(d, ws, st2)
            } else {
                Err(DecodeFailed::InvalidCode)
            },
        }
    }
}

/// Decoding a whole stream compressed with a window of `ws`.
pub open spec fn decode_stream(d: Seq<u8>, ws: WindowSize) -> Result<Seq<u8>, DecodeFailed> {
    decode_from(d, ws, initial_state(ws))
}

/// A match in position slot 0 copies from the most recent offset, R0, and leaves the
/// repeated offsets as they were. Literals leave them too (`lemma_literal_keeps_offsets`), and
/// every other match leaves its own offset as R0 (`after_reuse`, `after_push`); so a run of
/// slot-0 matches, literals between them or not, all use the offset of the match before them.
pub proof fn lemma_slot_zero_match(d: Seq<u8>, ws: WindowSize, st: DecoderState)
    requires
        decode_result(st.main_lengths, d, st.pos) is Ok,
        256 <= decode_result(st.main_lengths, d, st.pos)->Ok_0.0 < 264,
        symbol_step(d, ws, st) is Ok,
    ensures
        symbol_step(d, ws, st)->Ok_0.offsets == st.offsets,
        exists|n: nat|
            symbol_step(d, ws, st)->Ok_0.output == #[trigger] copy_match(
                st.output,
                st.offsets.r0 as int,
                n,
            ),
{
    reveal(symbol_step);
    reveal(offset_result);
    let sym = decode_result(st.main_lengths, d, st.pos)->Ok_0.0;
    let q = decode_result(st.main_lengths, d, st.pos)->Ok_0.1;
    let header = (sym - 256) % 8;
    let len = if header == 7 {
        match_length(header, decode_result(st.length_lengths, d, q)->Ok_0.0)
    } else {
        match_length(header, 0)
    };
    assert(symbol_step(d, ws, st)->Ok_0.output == copy_match(
        st.output,
        st.offsets.r0 as int,
        len as nat,
    ));
}

/// Literal 'A' (main-tree symbol 65) followed by symbol 258 (position slot 0, length header
/// 2) appends 'A' and then copies 4 bytes, one at a time, from R0 bytes back; the repeated
/// offsets stay as they were.
pub proof fn lemma_literal_then_slot_zero_match(d: Seq<u8>, ws: WindowSize, st: DecoderState)
    requires
        st.remaining >= 5,
        decode_result(st.main_lengths, d, st.pos) is Ok,
        decode_result(st.main_lengths, d, st.pos)->Ok_0.0 == 65,
        decode_result(st.main_lengths, d, decode_result(st.main_lengths, d, st.pos)->Ok_0.1) is Ok,
        decode_result(st.main_lengths, d, decode_result(st.main_lengths, d, st.pos)->Ok_0.1)->Ok_0.0
            == 258,
        1 <= st.offsets.r0 <= reach_of(st.output.push(65u8), ws),
    ensures
        symbol_step(d, ws, st) is Ok,
        symbol_step(d, ws, st)->Ok_0.output == st.output.push(65u8),
        symbol_step(d, ws, symbol_step(d, ws, st)->Ok_0) is Ok,
        symbol_step(d, ws, symbol_step(d, ws, st)->Ok_0)->Ok_0.output == copy_match(
            st.output.push(65u8),
            st.offsets.r0 as int,
            4,
        ),
        symbol_step(d, ws, symbol_step(d, ws, st)->Ok_0)->Ok_0.offsets == st.offsets,
{
    reveal(symbol_step);
    reveal(offset_result);
    let st1 = symbol_step(d, ws, st)->Ok_0;
    assert(st1.main_lengths == st.main_lengths);
    assert(st1.offsets == st.offsets);
}

/// An uncompressed block's header sets the repeated offsets to the three values stored in
/// it and produces no output; each of its bytes is then copied to the output as it stands,
/// leaving the offsets as they are.
pub proof fn lemma_uncompressed_block(d: Seq<u8>, st: DecoderState)
    ensures
        st.remaining == 0 && block_start(d, st) is Ok && block_start(d, st)->Ok_0.kind
            == BlockType::Uncompressed ==> {
            &&& block_start(d, st)->Ok_0.offsets == stored_offsets_result(
                d,
                st.pos + BLOCK_HEADER_BITS,
            )->Ok_0.0
            &&& block_start(d, st)->Ok_0.output == st.output
        },
        stored_byte_step(d, st) is Ok ==> {
            &&& stored_byte_step(d, st)->Ok_0.offsets == st.offsets
            &&& stored_byte_step(d, st)->Ok_0.output == st.output.push(d[st.pos / 8])
        },
{
    reveal(block_start);
    reveal(stored_byte_step);
}

/// A literal leaves the repeated offsets as they are.
pub proof fn lemma_literal_keeps_offsets(d: Seq<u8>, ws: WindowSize, st: DecoderState)
    requires
        decode_result(st.main_lengths, d, st.pos) is Ok,
        decode_result(st.main_lengths, d, st.pos)->Ok_0.0 < 256,
    ensures
        symbol_step(d, ws, st) is Ok,
        symbol_step(d, ws, st)->Ok_0.offsets == st.offsets,
        symbol_step(d, ws, st)->Ok_0.output == st.output.push(
            decode_result(st.main_lengths, d, st.pos)->Ok_0.0 as u8,
        ),
{
    reveal(symbol_step);
}

/// `n` main-tree symbols decoded one after the other from `st`.
pub open spec fn run_symbols(d: Seq<u8>, ws: WindowSize, st: DecoderState, n: nat) -> Result<
    DecoderState,
    DecodeFailed,
>
    decreases n,
{
    if n == 0 {
        Ok(st)
    } else {
        match run_symbols(d, ws, st, (n - 1) as nat) {
            Err(e) => Err(e),
            Ok(s1) => symbol_step(d, ws, s1),
        }
    }
}

/// Whether the next main-tree symbol is a literal or a match in position slot 0.
pub open spec fn literal_or_slot_zero(d: Seq<u8>, st: DecoderState) -> bool {
    &&& decode_result(st.main_lengths, d, st.pos) is Ok
    &&& decode_result(st.main_lengths, d, st.pos)->Ok_0.0 < 264
}

/// Over any run of literals and slot-0 matches the repeated offsets do not change, so every
/// slot-0 match in the run copies from the R0 that the match before the run left behind.
pub proof fn lemma_slot_zero_run(d: Seq<u8>, ws: WindowSize, st: DecoderState, n: nat)
    requires
        run_symbols(d, ws, st, n) is Ok,
        forall|k: nat| k < n ==> #[trigger] literal_or_slot_zero(d, run_symbols(d, ws, st, k)->Ok_0),
    ensures
        run_symbols(d, ws, st, n)->Ok_0.offsets == st.offsets,
        forall|k: nat|
            k < n && decode_result(
                run_symbols(d, ws, st, k)->Ok_0.main_lengths,
                d,
                run_symbols(d, ws, st, k)->Ok_0.pos,
            )->Ok_0.0 >= 256 ==> exists|m: nat|
                run_symbols(d, ws, st, k + 1)->Ok_0.output == #[trigger] copy_match(
                    run_symbols(d, ws, st, k)->Ok_0.output,
                    st.offsets.r0 as int,
                    m,
                ),
    decreases n,
{
    if n > 0 {
        let prev = run_symbols(d, ws, st, (n - 1) as nat);
        lemma_run_prefix_ok(d, ws, st, (n - 1) as nat);
        lemma_slot_zero_run(d, ws, st, (n - 1) as nat);
        let s1 = prev->Ok_0;
        assert(literal_or_slot_zero(d, s1));
        if decode_result(s1.main_lengths, d, s1.pos)->Ok_0.0 < 256 {
            lemma_literal_keeps_offsets(d, ws, s1);
        } else {
            lemma_slot_zero_match(d, ws, s1);
        }
        assert forall|k: nat|
            k < n && decode_result(
                run_symbols(d, ws, st, k)->Ok_0.main_lengths,
                d,
                run_symbols(d, ws, st, k)->Ok_0.pos,
            )->Ok_0.0 >= 256 implies exists|m: nat|
            run_symbols(d, ws, st, k + 1)->Ok_0.output == #[trigger] copy_match(
                run_symbols(d, ws, st, k)->Ok_0.output,
                st.offsets.r0 as int,
                m,
            ) by {
            if k == n - 1 {
                lemma_slot_zero_match(d, ws, s1);
            }
        }
    }
}

/// A run that succeeds succeeds on every shorter prefix.
proof fn lemma_run_prefix_ok(d: Seq<u8>, ws: WindowSize, st: DecoderState, n: nat)
    requires
        run_symbols(d, ws, st, n + 1) is Ok,
    ensures
        run_symbols(d, ws, st, n) is Ok,
{
}

} // verus!
