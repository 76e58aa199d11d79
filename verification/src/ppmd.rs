//! Decoder of PPMd (PPMII) streams.
//!
//! The variant is order 8 with a 32 MiB heap: a model that runs full is started
//! over. The range coder is carryless, with a bottom of 2 to the 15th and four
//! bytes of start. Past its end a stream reads as bytes of 255.
//!
//! Every step of the decoder is stated as a partial function on the model's
//! view. A step has no outcome where it would leave the heap, index past a
//! table, divide by zero, or not end; a stream that leads there is corrupt.
//! Registers wrap around.

use vstd::prelude::*;

pub mod allocator;
pub mod choosing;
pub mod climbing;
pub mod coder;
pub mod decode;
pub mod free;
pub mod gluing;
pub mod heap;
pub mod laws;
pub mod learning;
pub mod model;
pub mod numbers;
pub mod registers;
pub mod rescale;
pub mod scaling;
pub mod successors;
pub mod symbols;
pub mod tables;
pub mod taking;
pub mod update;
pub mod upkeep;

pub use heap::Heap;

use coder::InStream;
use decode::{decoded, overwritten};
use model::Model;

verus! {

/// Why a stream could not be decoded.
#[derive(Debug)]
pub enum PpmdError {
    Corrupt(&'static str),
}

impl PpmdError {
    /// The error in words.
    pub fn message(&self) -> (s: String)
        ensures
            self matches PpmdError::Corrupt(why) ==> s@ == "corrupt stream: "@ + why@,
    {
        match self {
            PpmdError::Corrupt(why) => {
                let mut s = "corrupt stream: ".to_string();
                s.append(why);
                s
            },
        }
    }
}

/// Decompresses the stream `src` into `dst`, which has the size of what is to
/// come. Where the stream ends early or is corrupt, what was decoded up to there
/// is in `dst`, and the rest of `dst` is left as it was.
pub fn decompress(src: &[u8], dst: &mut [u8]) -> (r: Result<(), PpmdError>)
    ensures
        r is Ok <==> decoded(src@, old(dst)@.len()).ok,
        decoded(src@, old(dst)@.len()).bytes.len() <= old(dst)@.len(),
        final(dst)@ == overwritten(old(dst)@, decoded(src@, old(dst)@.len()).bytes),
        final(dst)@.len() == old(dst)@.len(),
        forall|i: int|
            0 <= i < final(dst)@.len() ==> #[trigger] final(dst)@[i] == (if i < decoded(
                src@,
                old(dst)@.len(),
            ).bytes.len() {
                decoded(src@, old(dst)@.len()).bytes[i]
            } else {
                old(dst)@[i]
            }),
{
    let mut m = Model::new();
    let mut inp = InStream { data: src, pos: 0 };
    let (_, ok): (usize, bool) = m.decode_file(&mut inp, dst);
    if ok {
        Ok(())
    } else {
        Err(PpmdError::Corrupt("the model cannot follow it"))
    }
}

} // verus!
