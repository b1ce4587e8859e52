//! Plain data carried through the log: configuration, entries, segments, the
//! directory image, and cached reader positions.

use vstd::prelude::*;

verus! {

/// How eagerly appended bytes reach the file and are synced.
#[derive(Debug, Clone, Copy, PartialEq, Eq)]
pub enum Durability {
    Low,
    Medium,
    High,
}

/// On-disk framing of entries.
#[derive(Debug, Clone, Copy, PartialEq, Eq)]
pub enum LogFormat {
    Binary,
    JSON,
}

/// Configuration of a log instance.
#[derive(Debug, Clone)]
pub struct Options {
    pub durability: Durability,
    pub segment_size: usize,
    pub log_format: LogFormat,
}

impl Default for Options {
    /// High durability, 50 MiB segments, binary framing.
    fn default() -> (r: Options)
        ensures
            r.durability is High,
            r.segment_size == 52428800,
            r.log_format is Binary,
    {
        Options { durability: Durability::High, segment_size: 52428800, log_format: LogFormat::Binary }
    }
}

/// One record: an index and an opaque payload.
#[derive(Debug, Clone)]
pub struct Entry {
    pub index: u64,
    pub data: Vec<u8>,
}

/// One segment of the log: the index of its first entry and the bytes of its
/// file as flushed to disk.
#[derive(Debug, Clone)]
pub struct Segment {
    pub index: u64,
    pub data: Vec<u8>,
}

/// A file of the log directory: its name and contents.  `Log::open` consumes
/// a directory image made of these, and `Log::snapshot` produces one.
#[derive(Debug, Clone)]
pub struct SegFile {
    pub name: Vec<u8>,
    pub data: Vec<u8>,
}

/// A cached read position: the catalog slot of its segment, the next index it
/// will decode, and its byte offset into the segment's flushed data.
#[derive(Debug, Clone, Copy)]
pub struct Reader {
    pub sindex: usize,
    pub nindex: u64,
    pub pos: usize,
}

} // verus!
