//! MSX cassette-tape container library.
//!
//! A tape image is a raw byte buffer in which 8-byte synchronization
//! markers frame a sequence of blocks.  This crate scans such buffers
//! into blocks, interprets blocks as typed files, appends new files with
//! the alignment and padding rules the format demands, re-serializes a
//! tape to bytes, and renders tape blocks as the frequency-shift-keyed
//! audio signal the original cassette hardware expects, wrapped in a
//! RIFF/WAVE container.

pub mod args;
pub mod ascii;
pub mod file;
pub mod laws;
pub mod scan;
pub mod tape;
pub mod wav;

use vstd::prelude::*;

verus! {

/// The 8-byte synchronization marker that precedes every block.
pub open spec fn marker() -> Seq<u8> {
    seq![0x1fu8, 0xa6u8, 0xdeu8, 0xbau8, 0xccu8, 0x13u8, 0x7du8, 0x74u8]
}

/// True iff the marker occurs in `s` starting at offset `i`.
pub open spec fn is_marker_at(s: Seq<u8>, i: int) -> bool {
    &&& 0 <= i
    &&& i + 8 <= s.len()
    &&& s.subrange(i, i + 8) == marker()
}

/// True iff `s` contains no occurrence of the marker.
pub open spec fn marker_free(s: Seq<u8>) -> bool {
    forall|i: int| !is_marker_at(s, i)
}

} // verus!
