//! A codec that packs a byte buffer into a sequence of 11-bit groups and
//! maps each group to a word of a 2048-entry dictionary, and back.
//!
//! The byte buffer is read as one continuous big-endian bitstream.  Each
//! group of eleven consecutive bits becomes one dictionary word; a reserved
//! marker word followed by a designated padding word records how many bits
//! of the final group came from the input, so decoding recovers the exact
//! original byte count.

pub mod bits;
pub mod codec;
pub mod dictionary;
pub mod grouper;
pub mod text;
