use lzxd::bitstream::Bitstream;
use lzxd::block::{apply_length_op, footer_bits_exec, position_base_exec, LengthOp};
use lzxd::lzxd::parse_block_type;
use lzxd::{decompress, BlockType, DecodeFailed, Lzxd, OffsetCache, Tree, Window, WindowSize};

/// Packs bits most significant first into 16-bit little-endian words.
struct BitWriter {
    out: Vec<u8>,
    word: u16,
    n: u32,
}

impl BitWriter {
    fn new() -> BitWriter {
        BitWriter { out: Vec::new(), word: 0, n: 0 }
    }

    fn bits(&mut self, v: u32, n: u32) {
        for i in (0..n).rev() {
            let b = ((v >> i) & 1) as u16;
            self.word = (self.word << 1) | b;
            self.n += 1;
            if self.n == 16 {
                self.out.push((self.word & 0xff) as u8);
                self.out.push((self.word >> 8) as u8);
                self.word = 0;
                self.n = 0;
            }
        }
    }

    fn align(&mut self) {
        while self.n != 0 {
            self.bits(0, 1);
        }
    }

    fn bytes(&mut self, b: &[u8]) {
        assert_eq!(self.n, 0);
        self.out.extend_from_slice(b);
    }

    fn finish(mut self) -> Vec<u8> {
        self.align();
        self.out
    }
}

fn header(w: &mut BitWriter, kind: u32, size: u32) {
    w.bits(kind, 3);
    w.bits(size >> 16, 8);
    w.bits(size & 0xffff, 16);
}

fn uncompressed_block(w: &mut BitWriter, offsets: [u32; 3], data: &[u8]) {
    header(w, 3, data.len() as u32);
    w.align();
    if (w.out.len() * 8) % 32 != 0 {
        w.bits(0, 16);
    }
    for r in offsets {
        w.bytes(&r.to_le_bytes());
    }
    w.bytes(data);
    if data.len() % 2 == 1 {
        w.bytes(&[0]);
    }
}

/// A pretree in which symbols 0, 16, 17 and 18 have 2-bit codes 00, 01, 10 and 11.
fn pretree(w: &mut BitWriter) {
    for s in 0..20u32 {
        let len = if s == 0 || s == 16 || s == 17 || s == 18 { 2 } else { 0 };
        w.bits(len, 4);
    }
}

/// Writes `n` zero lengths with runs of symbols 18, 17 and 0.
fn zeros(w: &mut BitWriter, mut n: u32) {
    while n >= 20 {
        let k = if n > 51 { 51 } else { n };
        w.bits(0b11, 2);
        w.bits(k - 20, 5);
        n -= k;
    }
    while n >= 4 {
        let k = if n > 11 { 11 } else { n };
        w.bits(0b10, 2);
        w.bits(k - 4, 3);
        n -= k;
    }
    for _ in 0..n {
        w.bits(0b00, 2);
    }
}

/// Pretree-coded lengths for `start..end` where `ones` get length 1 and the rest 0, from
/// all-zero previous lengths.
fn lengths(w: &mut BitWriter, start: u32, end: u32, ones: &[u32]) {
    pretree(w);
    let mut i = start;
    for &o in ones {
        zeros(w, o - i);
        w.bits(0b01, 2);
        i = o + 1;
    }
    zeros(w, end - i);
}

/// A verbatim block whose main tree gives 'A' the code 0 and symbol 258 (slot 0, length
/// header 2) the code 1, for a 64 KiB window.
fn verbatim_trees(w: &mut BitWriter, size: u32) {
    header(w, 1, size);
    lengths(w, 0, 256, &[65]);
    lengths(w, 256, 512, &[258]);
    lengths(w, 0, 249, &[]);
}

#[test]
fn run() {
    let mut w = BitWriter::new();
    uncompressed_block(&mut w, [1, 1, 1], b"hello");
    let data = w.finish();
    let mut lzxd = Lzxd::new(WindowSize::KB64, &data);
    let mut all = Vec::new();
    while let Some(chunk) = lzxd.next_chunk() {
        all.extend(chunk.unwrap());
    }
    assert_eq!(all, b"hello".to_vec());
}

#[test]
fn uncompressed_block_gives_its_bytes() {
    let mut w = BitWriter::new();
    uncompressed_block(&mut w, [1, 1, 1], &[0x41, 0x42, 0x43, 0x44]);
    let data = w.finish();
    let mut lzxd = Lzxd::new(WindowSize::KB64, &data);
    let chunk = lzxd.next_chunk().unwrap().unwrap();
    assert_eq!(chunk, b"ABCD".to_vec());
    assert_eq!(lzxd.offsets(), OffsetCache { r0: 1, r1: 1, r2: 1 });
    assert!(lzxd.next_chunk().is_none());
}

#[test]
fn uncompressed_block_sets_offsets() {
    let mut w = BitWriter::new();
    uncompressed_block(&mut w, [7, 8, 9], b"xyz");
    let data = w.finish();
    let mut lzxd = Lzxd::new(WindowSize::KB32, &data);
    assert_eq!(lzxd.next_chunk().unwrap().unwrap(), b"xyz".to_vec());
    assert_eq!(lzxd.offsets(), OffsetCache { r0: 7, r1: 8, r2: 9 });
}

#[test]
fn verbatim_literal_then_repeated_match() {
    let mut w = BitWriter::new();
    verbatim_trees(&mut w, 5);
    w.bits(0, 1); // 'A'
    w.bits(1, 1); // slot 0, length 4
    let data = w.finish();
    assert_eq!(decompress(&data, WindowSize::KB64), Ok(b"AAAAA".to_vec()));
}

#[test]
fn second_block_with_no_changes_keeps_trees() {
    let mut w = BitWriter::new();
    verbatim_trees(&mut w, 5);
    w.bits(0, 1);
    w.bits(1, 1);
    // A second verbatim block whose updates are all "delta 0".
    header(&mut w, 1, 6);
    for (start, end) in [(0u32, 256u32), (256, 512), (0, 249)] {
        for s in 0..20u32 {
            w.bits(if s == 0 { 1 } else { 0 }, 4);
        }
        for _ in start..end {
            w.bits(0, 1);
        }
    }
    w.bits(1, 1);
    w.bits(0, 1);
    w.bits(0, 1);
    let data = w.finish();
    assert_eq!(decompress(&data, WindowSize::KB64), Ok(b"AAAAAAAAAAA".to_vec()));
}

#[test]
fn uncompressed_then_verbatim_blocks() {
    let mut w = BitWriter::new();
    uncompressed_block(&mut w, [1, 1, 1], b"B");
    verbatim_trees(&mut w, 5);
    w.bits(0, 1);
    w.bits(1, 1);
    let data = w.finish();
    assert_eq!(decompress(&data, WindowSize::KB64), Ok(b"BAAAAA".to_vec()));
}

#[test]
fn match_past_the_output_is_invalid_offset() {
    let mut w = BitWriter::new();
    uncompressed_block(&mut w, [3, 1, 1], b"");
    verbatim_trees(&mut w, 4);
    w.bits(1, 1); // slot 0 with R0 = 3, but nothing was produced
    let data = w.finish();
    assert_eq!(decompress(&data, WindowSize::KB64), Err(DecodeFailed::InvalidOffset));
}

#[test]
fn match_longer_than_block_is_invalid_length() {
    let mut w = BitWriter::new();
    verbatim_trees(&mut w, 3);
    w.bits(0, 1);
    w.bits(1, 1);
    let data = w.finish();
    assert_eq!(decompress(&data, WindowSize::KB64), Err(DecodeFailed::InvalidLength));
}

#[test]
fn reserved_block_type_is_rejected() {
    let mut w = BitWriter::new();
    header(&mut w, 5, 4);
    w.bits(0, 16);
    let data = w.finish();
    assert_eq!(decompress(&data, WindowSize::KB64), Err(DecodeFailed::InvalidBlockType));
    let mut lzxd = Lzxd::new(WindowSize::KB64, &data);
    assert_eq!(lzxd.next_chunk(), Some(Err(DecodeFailed::InvalidBlockType)));
    assert_eq!(lzxd.next_chunk(), None);
}

#[test]
fn truncated_block_is_input_exhausted() {
    let mut w = BitWriter::new();
    header(&mut w, 3, 10);
    w.bits(0, 5);
    w.bytes(&[1, 0, 0, 0, 1, 0, 0, 0, 1, 0, 0, 0, b'a', b'b']);
    let data = w.finish();
    let mut lzxd = Lzxd::new(WindowSize::KB64, &data);
    assert_eq!(lzxd.next_chunk(), Some(Err(DecodeFailed::InputExhausted)));
}

#[test]
fn short_input_decodes_to_nothing() {
    assert_eq!(decompress(&[], WindowSize::KB32), Ok(Vec::new()));
    assert_eq!(decompress(&[7], WindowSize::MB2), Ok(Vec::new()));
    let mut lzxd = Lzxd::new(WindowSize::KB64, &[]);
    assert!(lzxd.next_chunk().is_none());
}

#[test]
fn long_block_spans_chunks() {
    let data_bytes: Vec<u8> = (0..40000u32).map(|i| (i % 251) as u8).collect();
    let mut w = BitWriter::new();
    uncompressed_block(&mut w, [1, 1, 1], &data_bytes);
    let data = w.finish();
    let mut lzxd = Lzxd::new(WindowSize::KB64, &data);
    let first = lzxd.next_chunk().unwrap().unwrap();
    assert_eq!(first.len(), 0x8000);
    let second = lzxd.next_chunk().unwrap().unwrap();
    assert_eq!(second.len(), 40000 - 0x8000);
    assert!(lzxd.next_chunk().is_none());
    let mut all = first;
    all.extend(second);
    assert_eq!(all, data_bytes);
}

#[test]
fn bitstream_reads_words_most_significant_bit_first() {
    // The word 0x1234 is stored as 34 12.
    let data = [0x34, 0x12, 0xcd, 0xab];
    let mut b = Bitstream::new(&data);
    assert_eq!(b.read_bits(4), Ok(0x1));
    assert_eq!(b.read_bits(8), Ok(0x23));
    assert_eq!(b.read_bit(), Ok(0));
    assert_eq!(b.remaining(), 19);
    b.align_to_word();
    assert_eq!(b.position(), 16);
    assert_eq!(b.read_bits(16), Ok(0xabcd));
    assert_eq!(b.read_bits(1), Err(DecodeFailed::InputExhausted));
    assert_eq!(b.read_bit(), Err(DecodeFailed::InputExhausted));
}

#[test]
fn bitstream_reads_bytes_in_order() {
    let data = [0x34, 0x12, 0xcd, 0xab];
    let mut b = Bitstream::new(&data);
    assert_eq!(b.read_byte(), Ok(0x34));
    assert_eq!(b.read_byte(), Ok(0x12));
    assert_eq!(b.read_byte(), Ok(0xcd));
    assert_eq!(b.read_byte(), Ok(0xab));
    assert_eq!(b.read_byte(), Err(DecodeFailed::InputExhausted));
}

#[test]
fn odd_trailing_byte_is_not_read() {
    let data = [0xff, 0xff, 0x01];
    let mut b = Bitstream::new(&data);
    assert_eq!(b.remaining(), 16);
    assert_eq!(b.read_bits(16), Ok(0xffff));
    assert_eq!(b.read_bit(), Err(DecodeFailed::InputExhausted));
}

#[test]
fn canonical_codes_follow_length_then_symbol() {
    // Lengths 2, 1, 3, 3: codes B = 0, A = 10, C = 110, D = 111.
    let tree = Tree::new(vec![2, 1, 3, 3]).unwrap();
    assert_eq!(tree.num_symbols(), 4);
    // Bits: 0 | 10 | 110 | 111 | 0000000 -> 0101 1011 1000 0000 = 0x5b80.
    let data = [0x80, 0x5b];
    let mut b = Bitstream::new(&data);
    assert_eq!(tree.decode(&mut b), Ok(1));
    assert_eq!(tree.decode(&mut b), Ok(0));
    assert_eq!(tree.decode(&mut b), Ok(2));
    assert_eq!(tree.decode(&mut b), Ok(3));
    assert_eq!(b.position(), 9);
}

#[test]
fn over_subscribed_lengths_are_invalid_code() {
    assert!(matches!(Tree::new(vec![1, 1, 1]), Err(DecodeFailed::InvalidCode)));
    assert!(Tree::new(vec![1, 1]).is_ok());
    assert!(Tree::new(vec![0, 0, 0]).is_ok());
}

#[test]
fn unmatched_bits_are_invalid_code() {
    // A single code "0": sixteen 1 bits match nothing.
    let tree = Tree::new(vec![0, 1]).unwrap();
    let data = [0xff, 0xff];
    let mut b = Bitstream::new(&data);
    assert_eq!(tree.decode(&mut b), Err(DecodeFailed::InvalidCode));
    let empty = Tree::new(vec![0, 0]).unwrap();
    let mut b = Bitstream::new(&[0, 0, 0, 0]);
    assert_eq!(empty.decode(&mut b), Err(DecodeFailed::InvalidCode));
    let mut b = Bitstream::new(&[]);
    assert_eq!(tree.decode(&mut b), Err(DecodeFailed::InputExhausted));
}

#[test]
fn window_copies_overlapping_matches_byte_by_byte() {
    let mut win = Window::new(WindowSize::KB32);
    let mut out = Vec::new();
    win.emit_literal(b'a', &mut out);
    win.emit_literal(b'b', &mut out);
    assert_eq!(win.reach_exec(), 2);
    assert_eq!(win.emit_match(2, 5, &mut out), Ok(()));
    assert_eq!(out, b"abababa".to_vec());
    assert_eq!(win.emit_match(1, 2, &mut out), Ok(()));
    assert_eq!(out, b"abababaaa".to_vec());
}

#[test]
fn window_rejects_offsets_past_the_output() {
    let mut win = Window::new(WindowSize::KB32);
    let mut out = Vec::new();
    assert_eq!(win.emit_match(1, 1, &mut out), Err(DecodeFailed::InvalidOffset));
    win.emit_literal(b'z', &mut out);
    assert_eq!(win.emit_match(2, 1, &mut out), Err(DecodeFailed::InvalidOffset));
    assert_eq!(win.emit_match(0, 1, &mut out), Err(DecodeFailed::InvalidOffset));
    assert_eq!(out, b"z".to_vec());
}

#[test]
fn window_wraps_at_capacity() {
    let mut win = Window::new(WindowSize::KB32);
    let mut out = Vec::new();
    for i in 0..0x8000u32 {
        win.emit_literal((i % 200) as u8, &mut out);
    }
    win.emit_literal(b'q', &mut out);
    assert_eq!(win.reach_exec(), 0x8000);
    assert_eq!(win.emit_match(0x8001, 1, &mut out), Err(DecodeFailed::InvalidOffset));
    assert_eq!(win.emit_match(0x8000, 1, &mut out), Ok(()));
    assert_eq!(*out.last().unwrap(), 1);
}

#[test]
fn offset_cache_moves_used_offset_to_front() {
    let mut c = OffsetCache { r0: 10, r1: 20, r2: 30 };
    assert_eq!(c.reuse(0), 10);
    assert_eq!(c, OffsetCache { r0: 10, r1: 20, r2: 30 });
    assert_eq!(c.reuse(1), 20);
    assert_eq!(c, OffsetCache { r0: 20, r1: 10, r2: 30 });
    assert_eq!(c.reuse(2), 30);
    assert_eq!(c, OffsetCache { r0: 30, r1: 20, r2: 10 });
    c.push(99);
    assert_eq!(c, OffsetCache { r0: 99, r1: 30, r2: 20 });
    assert_eq!(OffsetCache::new(), OffsetCache { r0: 1, r1: 1, r2: 1 });
}

#[test]
fn slot_zero_repeats_the_last_offset() {
    let mut c = OffsetCache::new();
    c.push(42);
    for _ in 0..5 {
        assert_eq!(c.reuse(0), 42);
    }
    assert_eq!(c.reuse(2), 1);
    for _ in 0..3 {
        assert_eq!(c.reuse(0), 1);
    }
}

#[test]
fn length_ops_update_in_place() {
    let mut lens = vec![3, 0, 5, 5, 5, 5, 0];
    assert_eq!(apply_length_op(&mut lens, 0, 7, LengthOp::Delta(1)), Ok(1));
    assert_eq!(lens[0], 2);
    assert_eq!(apply_length_op(&mut lens, 1, 7, LengthOp::Delta(16)), Ok(2));
    assert_eq!(lens[1], 1);
    assert_eq!(apply_length_op(&mut lens, 2, 7, LengthOp::Same(4, 2)), Ok(6));
    assert_eq!(lens, vec![2, 1, 3, 3, 3, 3, 0]);
    assert_eq!(apply_length_op(&mut lens, 2, 7, LengthOp::Zeros(5)), Ok(7));
    assert_eq!(lens, vec![2, 1, 0, 0, 0, 0, 0]);
    assert_eq!(apply_length_op(&mut lens, 3, 7, LengthOp::Zeros(5)), Err(DecodeFailed::InvalidLength));
    assert_eq!(lens, vec![2, 1, 0, 0, 0, 0, 0]);
    assert_eq!(apply_length_op(&mut lens, 0, 7, LengthOp::Delta(0)), Ok(1));
    assert_eq!(lens[0], 2);
}

#[test]
fn block_types_from_header_bits() {
    assert_eq!(parse_block_type(1), Ok(BlockType::Verbatim));
    assert_eq!(parse_block_type(2), Ok(BlockType::AlignedOffset));
    assert_eq!(parse_block_type(3), Ok(BlockType::Uncompressed));
    assert_eq!(parse_block_type(0), Err(DecodeFailed::InvalidBlockType));
    assert_eq!(parse_block_type(7), Err(DecodeFailed::InvalidBlockType));
}

#[test]
fn position_slot_geometry() {
    let bases: Vec<u32> = (0..10).map(position_base_exec).collect();
    assert_eq!(bases, vec![0, 1, 2, 3, 4, 6, 8, 12, 16, 24]);
    assert_eq!(footer_bits_exec(3), 0);
    assert_eq!(footer_bits_exec(4), 1);
    assert_eq!(footer_bits_exec(35), 16);
    assert_eq!(footer_bits_exec(49), 17);
    assert_eq!(position_base_exec(36), 0x4_0000);
    assert_eq!(position_base_exec(37), 0x6_0000);
}

#[test]
fn window_sizes() {
    assert_eq!(WindowSize::KB32.value(), 0x8000);
    assert_eq!(WindowSize::MB2.value(), 0x20_0000);
    assert_eq!(WindowSize::KB32.position_slots(), 30);
    assert_eq!(WindowSize::MB2.position_slots(), 50);
    assert_eq!(WindowSize::KB64.main_tree_size(), 512);
}

/// Trees where 'A' has code 0 and symbol 321 (slot 8, length header 1: a match of 3 bytes
/// whose offset has 3 footer bits on a base of 16) has code 1.
fn slot_eight_trees(w: &mut BitWriter) {
    lengths(w, 0, 256, &[65]);
    lengths(w, 256, 512, &[321]);
    lengths(w, 0, 249, &[]);
}

#[test]
fn aligned_block_reads_low_offset_bits_from_aligned_tree() {
    let mut w = BitWriter::new();
    uncompressed_block(&mut w, [1, 1, 1], b"abcdefghijklmn");
    header(&mut w, 2, 3);
    for _ in 0..8 {
        w.bits(3, 3);
    }
    slot_eight_trees(&mut w);
    w.bits(1, 1); // symbol 321
    w.bits(0, 3); // aligned symbol 0: offset 16 + 0 - 2 = 14
    let data = w.finish();
    let mut lzxd = Lzxd::new(WindowSize::KB64, &data);
    assert_eq!(lzxd.next_chunk(), Some(Ok(b"abcdefghijklmnabc".to_vec())));
    assert_eq!(lzxd.offsets(), OffsetCache { r0: 14, r1: 1, r2: 1 });
    assert_eq!(lzxd.next_chunk(), None);
}

#[test]
fn verbatim_block_reads_footer_bits_literally() {
    let mut w = BitWriter::new();
    uncompressed_block(&mut w, [1, 1, 1], b"abcdefghijklmnop");
    header(&mut w, 1, 3);
    slot_eight_trees(&mut w);
    w.bits(1, 1); // symbol 321
    w.bits(0b011, 3); // footer 3: offset 16 + 3 - 2 = 17, one past the output
    let data = w.finish();
    assert_eq!(decompress(&data, WindowSize::KB64), Err(DecodeFailed::InvalidOffset));

    let mut w = BitWriter::new();
    uncompressed_block(&mut w, [1, 1, 1], b"abcdefghijklmnop");
    header(&mut w, 1, 3);
    slot_eight_trees(&mut w);
    w.bits(1, 1);
    w.bits(0b010, 3); // offset 16
    let data = w.finish();
    let mut lzxd = Lzxd::new(WindowSize::KB64, &data);
    assert_eq!(lzxd.next_chunk(), Some(Ok(b"abcdefghijklmnopabc".to_vec())));
    assert_eq!(lzxd.offsets(), OffsetCache { r0: 16, r1: 1, r2: 1 });
}

#[test]
fn peek_does_not_consume() {
    let data = [0x34, 0x12];
    let mut b = Bitstream::new(&data);
    assert_eq!(b.peek_bits(8), Ok(0x12));
    assert_eq!(b.peek_bits(8), Ok(0x12));
    assert_eq!(b.read_bits(4), Ok(0x1));
    assert_eq!(b.peek_bits(12), Ok(0x234));
    assert_eq!(b.peek_bits(13), Err(DecodeFailed::InputExhausted));
    assert_eq!(b.position(), 4);
}

#[test]
fn match_past_a_chunk_boundary_is_carried_over() {
    let data_bytes: Vec<u8> = (0..0x7fffu32).map(|i| (i % 7) as u8).collect();
    let mut w = BitWriter::new();
    uncompressed_block(&mut w, [1, 1, 1], &data_bytes);
    verbatim_trees(&mut w, 5);
    w.bits(0, 1); // 'A'
    w.bits(1, 1); // slot 0, length 4
    let data = w.finish();
    let mut lzxd = Lzxd::new(WindowSize::KB64, &data);
    let first = lzxd.next_chunk().unwrap().unwrap();
    assert_eq!(first.len(), 0x8000);
    assert_eq!(first[0x7fff], b'A');
    let second = lzxd.next_chunk().unwrap().unwrap();
    assert_eq!(second, b"AAAA".to_vec());
    assert_eq!(lzxd.next_chunk(), None);
    let mut expected = data_bytes.clone();
    expected.extend_from_slice(b"AAAAA");
    assert_eq!(decompress(&data, WindowSize::KB64), Ok(expected));
}

#[test]
fn uncompressed_then_slot_zero_match_keeps_offsets() {
    let mut w = BitWriter::new();
    uncompressed_block(&mut w, [1, 1, 1], b"ABCD");
    header(&mut w, 1, 2);
    lengths(&mut w, 0, 256, &[]);
    lengths(&mut w, 256, 512, &[256]);
    lengths(&mut w, 0, 249, &[]);
    w.bits(0, 1); // symbol 256: slot 0, length 2
    let data = w.finish();
    assert_eq!(decompress(&data, WindowSize::KB64), Ok(b"ABCDDD".to_vec()));
}

#[test]
fn header_cut_short_is_input_exhausted() {
    let mut w = BitWriter::new();
    uncompressed_block(&mut w, [1, 1, 1], b"ABCD");
    let mut data = w.finish();
    assert_eq!(decompress(&data, WindowSize::KB64), Ok(b"ABCD".to_vec()));
    // The first 16 bits of a second uncompressed block's header.
    data.extend_from_slice(&[0x00, 0x60]);
    assert_eq!(decompress(&data, WindowSize::KB64), Err(DecodeFailed::InputExhausted));
    // A lone word of zeros is not padding either: its type bits name no block.
    assert_eq!(decompress(&[0, 0], WindowSize::KB64), Err(DecodeFailed::InvalidBlockType));
}

#[test]
fn out_of_window_offset_is_reported_before_block_length() {
    let mut w = BitWriter::new();
    verbatim_trees(&mut w, 2);
    w.bits(1, 1); // a match of 4 from R0 = 1, with nothing produced, in a block of 2
    let data = w.finish();
    assert_eq!(decompress(&data, WindowSize::KB64), Err(DecodeFailed::InvalidOffset));
}
