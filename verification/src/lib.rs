//! A segmented write-ahead log: an append-only store of opaque byte payloads
//! keyed by a monotonically increasing 64-bit index.
//!
//! The log engine works over an in-memory image of the log directory: each
//! segment file is a named byte vector.  Callers that persist the log to disk
//! read the directory into `SegFile` values before `Log::open` and write the
//! `Log::snapshot` image back out; everything in between — entry framing,
//! catalog recovery at open time, the append and read paths, and both
//! truncations — is verified here.

use vstd::prelude::*;

pub use crate::log::Log;

pub mod append;
pub mod batch;
pub mod codec;
pub mod digits;
pub mod error;
pub mod primitives;
pub mod log;
pub mod readpath;
pub mod recover;
pub mod runs;
pub mod truncate;

verus! {

/// Bound on the number of cached readers.
pub const MAX_READERS: usize = 8;

/// Buffered bytes above which an append flushes even at low durability.
pub const MAX_BUFFER_SIZE: usize = 8096;

/// The on-disk file name of the segment whose first entry has this index:
/// its 20-digit zero-padded decimal form.
pub fn segment_name(index: u64) -> (r: String)
    ensures
        r@ == crate::digits::chars_of(crate::digits::pad20(index)),
        r@.len() == 20,
{
    let v = crate::digits::pad20_bytes(index);
    proof {
        crate::digits::lemma_pad20_props(index);
        assert(forall|i: int| 0 <= i < v@.len() ==> v@[i] < 128);
    }
    crate::digits::ascii_to_string(v)
}

/// The conventional test payload for an index: `data-` followed by the
/// index in decimal.
pub fn data_str(i: u64) -> (r: String)
    ensures
        r@ == crate::digits::chars_of(
            seq![100u8, 97u8, 116u8, 97u8, 45u8] + crate::digits::dec_seq(i as nat),
        ),
{
    let mut v: Vec<u8> = Vec::new();
    v.push(100);
    v.push(97);
    v.push(116);
    v.push(97);
    v.push(45);
    proof {
        assert(v@ =~= seq![100u8, 97u8, 116u8, 97u8, 45u8]);
    }
    crate::digits::push_dec(&mut v, i);
    proof {
        crate::digits::lemma_dec_seq_digits(i as nat);
        assert(forall|j: int| 0 <= j < v@.len() ==> v@[j] < 128);
    }
    crate::digits::ascii_to_string(v)
}

} // verus!
