//! The one-byte fragment header: a continuation flag in bit 7 and a 7-bit
//! sequence number in bits 0 to 6.
use vstd::prelude::*;

verus! {

/// The nominal ceiling on the data carried by one fragment. A continuation
/// fragment carries one byte less than this.
pub const MAX_FRAGMENT_DATA_LEN: usize = 245;

/// The longest frame that the fragmenter accepts.
pub const MAX_FRAME_LEN: usize = 600;

/// Header bit that says that more fragments of the same frame follow.
pub const MORE_FLAG: u8 = 0x80;

/// Header bits that hold the sequence number.
pub const SEQ_MASK: u8 = 0x7F;

/// Number of frame bytes carried by each continuation fragment.
pub open spec fn chunk_len() -> nat {
    (MAX_FRAGMENT_DATA_LEN - 1) as nat
}

/// The sequence number that a header byte carries.
pub open spec fn sequence_of(h: u8) -> nat {
    (h % 128) as nat
}

/// Whether a header byte has its continuation flag set.
pub open spec fn has_more(h: u8) -> bool {
    h >= 128
}

/// The header byte for sequence number `seq`, with or without the
/// continuation flag.
pub open spec fn header_byte(more: bool, seq: nat) -> u8
    recommends
        seq < 128,
{
    if more {
        (128 + seq) as u8
    } else {
        seq as u8
    }
}

/// Builds a header byte from its flag and its sequence number.
pub fn make_header(more: bool, seq: u8) -> (h: u8)
    requires
        seq < 128,
    ensures
        h == header_byte(more, seq as nat),
        sequence_of(h) == seq,
        has_more(h) == more,
{
    if more {
        MORE_FLAG + seq
    } else {
        seq
    }
}

/// Splits a header byte into its sequence number and its continuation flag.
pub fn parse_header(h: u8) -> (r: (u8, bool))
    ensures
        r.0 as nat == sequence_of(h),
        r.1 == has_more(h),
{
    let seq = h & SEQ_MASK;
    let more = h & MORE_FLAG;
    assert(h & 0x7f == h % 128) by (bit_vector);
    assert((h & 0x80 != 0) == (h >= 128)) by (bit_vector);
    (seq, more != 0)
}

} // verus!
