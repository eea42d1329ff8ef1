//! A decoder for the LZX / LZXD compressed data format.
use vstd::prelude::*;

pub mod bitstream;
pub mod block;
pub mod error;
pub mod lzxd;
pub mod tree;
pub mod stream;
pub mod window;
pub mod window_size;

pub use bitstream::Bitstream;
pub use error::DecodeFailed;
pub use lzxd::{BlockType, Lzxd};
pub use tree::Tree;
pub use window::{OffsetCache, Window};
pub use window_size::WindowSize;

verus! {

/// Decompresses a whole in-memory `buffer` of LZXD data, compressed with a window of
/// `window_size`, by decoding all of its chunks in turn. Fails with the first error met.
/// An input with no whole 16-bit word decodes to nothing.
pub fn decompress(buffer: &[u8], window_size: WindowSize) -> (r: Result<Vec<u8>, DecodeFailed>)
    requires
        buffer@.len() <= usize::MAX / 16,
    ensures
        bitstream::total_bits(buffer@) == 0 ==> r is Ok && r->Ok_0@.len() == 0,
        r is Ok == stream::decode_stream(buffer@, window_size) is Ok,
        r matches Ok(v) ==> stream::decode_stream(buffer@, window_size) == Ok::<
            Seq<u8>,
            DecodeFailed,
        >(v@),
        r matches Err(e) ==> stream::decode_stream(buffer@, window_size) == Err::<
            Seq<u8>,
            DecodeFailed,
        >(e),
{
    let mut lzxd = Lzxd::new(window_size, buffer);
    let ghost empty_input = bitstream::total_bits(buffer@) == 0;
    let mut result: Vec<u8> = Vec::new();
    loop
        invariant
            lzxd.wf(),
            !lzxd.has_failed(),
            lzxd.carry_ok(),
            result@ == lzxd.delivered(),
            empty_input == (bitstream::total_bits(buffer@) == 0),
            empty_input ==> result@.len() == 0 && !lzxd.in_block() && lzxd.input_ended()
                && lzxd.delivered() == lzxd.output(),
            lzxd.data() == buffer@,
            lzxd.size() == window_size,
            stream::decode_from(buffer@, window_size, lzxd.state()) == stream::decode_stream(
                buffer@,
                window_size,
            ),
        decreases lzxd.budget(),
    {
        match lzxd.next_chunk() {
            None => {
                return Ok(result);
            },
            Some(Err(e)) => {
                return Err(e);
            },
            Some(Ok(chunk)) => {
                let mut chunk = chunk;
                result.append(&mut chunk);
            },
        }
    }
}

} // verus!
