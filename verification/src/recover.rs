//! Open-time recovery: scan the directory image for segment files and
//! truncation markers, resolve an interrupted truncation, and validate every
//! kept segment before handing out an open log.

use crate::digits::{all_digits, is_digit, parse_digits_val};
use crate::error::Error;
use crate::log::Log;
use crate::primitives::{LogFormat, Options, SegFile, Segment};
use crate::runs::run_parse;
use vstd::prelude::*;
use vstd::string::StringSliceAdditionalSpecFns;

verus! {

/// A directory entry recognised by the scan: a segment file, or a `.START`
/// or `.END` marker left by an interrupted truncation.
pub struct ScanSeg {
    pub index: u64,
    pub kind: u8,
    pub data: Vec<u8>,
}

/// `.START` marker file.
pub const KIND_START: u8 = 1;

/// `.END` marker file.
pub const KIND_END: u8 = 2;

/// Order of scanned entries: by start index, markers after the plain file of
/// the same index.
pub open spec fn scan_le(a: ScanSeg, b: ScanSeg) -> bool {
    a.index < b.index || (a.index == b.index && a.kind <= b.kind)
}

/// The bytes of the `.START` suffix.
pub open spec fn start_suffix() -> Seq<u8> {
    seq![46u8, 83u8, 84u8, 65u8, 82u8, 84u8]
}

/// The bytes of the `.END` suffix.
pub open spec fn end_suffix() -> Seq<u8> {
    seq![46u8, 69u8, 78u8, 68u8]
}

/// A file name of the form `<20 digits><suffix>` naming a valid start index.
pub open spec fn name_marker(name: Seq<u8>, suffix: Seq<u8>) -> bool {
    &&& name.len() == 20 + suffix.len()
    &&& all_digits(name.subrange(0, 20))
    &&& 1 <= crate::digits::dec_val(name.subrange(0, 20)) <= u64::MAX
    &&& name.subrange(20, name.len() as int) == suffix
}

/// The image holds a `.START` marker.
pub open spec fn has_start(files: Seq<SegFile>) -> bool {
    exists|k: int| 0 <= k < files.len() && name_marker(#[trigger] files[k].name@, start_suffix())
}

/// The image holds an `.END` marker.
pub open spec fn has_end(files: Seq<SegFile>) -> bool {
    exists|k: int| 0 <= k < files.len() && name_marker(#[trigger] files[k].name@, end_suffix())
}

/// The image consists of exactly the plain files of catalog `cat`, in
/// ascending order: one file per segment, named by its zero-padded start
/// index, holding its bytes.  This is the shape `snapshot` writes.
pub open spec fn sorted_plain_image(files: Seq<SegFile>, cat: Seq<Segment>) -> bool {
    &&& files.len() == cat.len()
    &&& cat.len() >= 1
    &&& forall|k: int| 0 <= k < cat.len() ==> ((#[trigger] files[k]).name@ == crate::digits::pad20(
        cat[k].index,
    ) && files[k].data@ == cat[k].data@)
    &&& forall|k: int| 0 <= k < cat.len() ==> 1 <= (#[trigger] cat[k]).index
    &&& forall|k: int| 0 <= k < cat.len() - 1 ==> (#[trigger] cat[k]).index < cat[k + 1].index
}

/// The bytes of the reserved `:memory:` path.
pub open spec fn memory_path() -> Seq<u8> {
    seq![58u8, 109u8, 101u8, 109u8, 111u8, 114u8, 121u8, 58u8]
}

/// Whether `dir` is the reserved in-memory sentinel.
pub open spec fn is_memory_path(dir: &str) -> bool {
    dir.spec_bytes() == memory_path()
}

fn check_memory_path(dir: &str) -> (r: bool)
    ensures
        r == is_memory_path(dir),
{
    let b = dir.as_bytes();
    if b.len() != 8 {
        proof {
            assert(dir.spec_bytes() != memory_path());
        }
        return false;
    }
    let eq = b[0] == 58 && b[1] == 109 && b[2] == 101 && b[3] == 109 && b[4] == 111 && b[5] == 114
        && b[6] == 121 && b[7] == 58;
    proof {
        if eq {
            assert(dir.spec_bytes() =~= memory_path());
        } else {
            assert(dir.spec_bytes() != memory_path());
        }
    }
    eq
}

/// Parse a file name: a 20-digit decimal start index, optionally followed by
/// `.START` or `.END`.  Names of any other shape are ignored.
#[verifier::loop_isolation(false)]
fn parse_name(name: &Vec<u8>) -> (r: Option<(u64, u8)>)
    ensures
        r matches Some((idx, kind)) ==> idx >= 1 && kind <= 2,
        name_marker(name@, start_suffix()) ==> (r matches Some((idx, kind)) && kind
            == KIND_START),
        name_marker(name@, end_suffix()) ==> (r matches Some((idx, kind)) && kind == KIND_END),
        forall|px: u64| px >= 1 && name@ == crate::digits::pad20(px) ==> r == Some((px, 0u8)),
{
    proof {
        assert forall|px: u64| px >= 1 && name@ == crate::digits::pad20(px) implies (
        name@.len() == 20 && all_digits(name@.subrange(0, 20)) && crate::digits::dec_val(
            name@.subrange(0, 20),
        ) == px) by {
            crate::digits::lemma_pad20_props(px);
            assert(name@.subrange(0, 20) =~= name@);
        }
    }
    proof {
        if name_marker(name@, start_suffix()) {
            assert(name@.len() == 26);
        }
        if name_marker(name@, end_suffix()) {
            assert(name@.len() == 24);
        }
    }
    let n = name.len();
    if !(n == 20 || n == 24 || n == 26) {
        return None;
    }
    let mut j: usize = 0;
    while j < 20
        invariant
            j <= 20,
            20 <= name@.len(),
            forall|x: int| 0 <= x < j ==> is_digit(name@[x]),
        decreases 20 - j,
    {
        let c = name[j];
        if c < 48 || c > 57 {
            proof {
                if name_marker(name@, start_suffix()) || name_marker(name@, end_suffix()) {
                    assert(name@.subrange(0, 20)[j as int] == name@[j as int]);
                    assert(false);
                }
            }
            return None;
        }
        j = j + 1;
    }
    proof {
        assert(all_digits(name@.subrange(0, 20)));
    }
    let idx = match parse_digits_val(name, 0, 20) {
        None => {
            proof {
                if name_marker(name@, start_suffix()) || name_marker(name@, end_suffix()) {
                    assert(false);
                }
            }
            return None;
        },
        Some(v) => v,
    };
    if idx == 0 {
        proof {
            if name_marker(name@, start_suffix()) || name_marker(name@, end_suffix()) {
                assert(false);
            }
        }
        return None;
    }
    if n == 20 {
        return Some((idx, 0));
    }
    if n == 26 {
        // ".START"
        if name[20] == 46 && name[21] == 83 && name[22] == 84 && name[23] == 65 && name[24] == 82
            && name[25] == 84 {
            return Some((idx, KIND_START));
        }
        proof {
            if name_marker(name@, start_suffix()) {
                assert(name@.subrange(20, 26)[0] == name@[20]);
                assert(name@.subrange(20, 26)[1] == name@[21]);
                assert(name@.subrange(20, 26)[2] == name@[22]);
                assert(name@.subrange(20, 26)[3] == name@[23]);
                assert(name@.subrange(20, 26)[4] == name@[24]);
                assert(name@.subrange(20, 26)[5] == name@[25]);
                assert(false);
            }
        }
        return None;
    }
    // n == 24: ".END"
    if name[20] == 46 && name[21] == 69 && name[22] == 78 && name[23] == 68 {
        return Some((idx, KIND_END));
    }
    proof {
        if name_marker(name@, end_suffix()) {
            assert(name@.subrange(20, 24)[0] == name@[20]);
            assert(name@.subrange(20, 24)[1] == name@[21]);
            assert(name@.subrange(20, 24)[2] == name@[22]);
            assert(name@.subrange(20, 24)[3] == name@[23]);
            assert(false);
        }
    }
    None
}

/// Inserting an entry at its place keeps the scan sorted and in bounds.
proof fn lemma_scan_insert(pre: Seq<ScanSeg>, post: Seq<ScanSeg>, ent: ScanSeg, j: int)
    requires
        0 <= j <= pre.len(),
        post == pre.insert(j, ent),
        forall|a: int, b: int| 0 <= a < b < pre.len() ==> scan_le(#[trigger] pre[a], #[trigger] pre[b]),
        forall|a: int| 0 <= a < pre.len() ==> (#[trigger] pre[a]).index >= 1 && pre[a].kind <= 2,
        ent.index >= 1,
        ent.kind <= 2,
        forall|x: int| 0 <= x < j ==> scan_le(#[trigger] pre[x], ent),
        j < pre.len() ==> scan_le(ent, pre[j]),
    ensures
        forall|a: int, b: int| 0 <= a < b < post.len() ==> scan_le(
            #[trigger] post[a],
            #[trigger] post[b],
        ),
        forall|a: int| 0 <= a < post.len() ==> (#[trigger] post[a]).index >= 1 && post[a].kind
            <= 2,
        forall|x: int| 0 <= x < pre.len() ==> exists|jj: int| 0 <= jj < post.len() && (
        #[trigger] post[jj]) == (#[trigger] pre[x]),
{
    pre.insert_ensures(j, ent);
    assert forall|a: int, b: int| 0 <= a < b < post.len() implies scan_le(post[a], post[b]) by {
        if a < j && b == j {
            assert(post[a] == pre[a]);
        } else if a == j && b > j {
            assert(post[b] == pre[b - 1]);
            assert(scan_le(ent, pre[j]) || b - 1 == j);
            if b - 1 > j {
                assert(scan_le(pre[j], pre[b - 1]));
            }
        } else if a < j && b > j {
            assert(post[a] == pre[a]);
            assert(post[b] == pre[b - 1]);
        } else if a > j && b > j {
            assert(post[a] == pre[a - 1]);
            assert(post[b] == pre[b - 1]);
        }
    }
    assert forall|a: int| 0 <= a < post.len() implies (#[trigger] post[a]).index >= 1
        && post[a].kind <= 2 by {
        if a < j {
            assert(post[a] == pre[a]);
        } else if a > j {
            assert(post[a] == pre[a - 1]);
        }
    }
    assert forall|x: int| 0 <= x < pre.len() implies exists|jj: int| 0 <= jj < post.len() && (
    #[trigger] post[jj]) == (#[trigger] pre[x]) by {
        if x < j {
            assert(post[x] == pre[x]);
        } else {
            assert(post[x + 1] == pre[x]);
        }
    }
}

/// Scan a directory image for segment files and markers, sorted ascending by
/// start index (markers after the plain file of the same index).
#[verifier::rlimit(100)]
pub fn load_segments(files: Vec<SegFile>) -> (r: Vec<ScanSeg>)
    ensures
        forall|a: int, b: int| 0 <= a < b < r@.len() ==> scan_le(r@[a], r@[b]),
        forall|a: int| 0 <= a < r@.len() ==> (#[trigger] r@[a]).index >= 1 && r@[a].kind <= 2,
        r@.len() <= files@.len(),
        has_start(files@) ==> exists|j: int| 0 <= j < r@.len() && (#[trigger] r@[j]).kind
            == KIND_START,
        has_end(files@) ==> exists|j: int| 0 <= j < r@.len() && (#[trigger] r@[j]).kind
            == KIND_END,
        forall|cat: Seq<Segment>| sorted_plain_image(files@, cat) ==> (r@.len() == cat.len()
            && forall|k: int| 0 <= k < cat.len() ==> ((#[trigger] r@[k]).index == cat[k].index
            && r@[k].kind == 0 && r@[k].data@ == cat[k].data@)),
{
    let ghost files0 = files@;
    let ghost total = files@.len();
    let mut files = files;
    let mut out: Vec<ScanSeg> = Vec::new();
    proof {
        assert(files0.take(files0.len() as int) =~= files0);
    }
    while files.len() > 0
        invariant
            total == files0.len(),
            out@.len() + files@.len() <= total,
            files@ == files0.take(files@.len() as int),
            forall|a: int, b: int| 0 <= a < b < out@.len() ==> scan_le(out@[a], out@[b]),
            forall|a: int| 0 <= a < out@.len() ==> (#[trigger] out@[a]).index >= 1 && out@[a].kind
                <= 2,
            (exists|k: int| files@.len() <= k < files0.len() && name_marker(
                #[trigger] files0[k].name@,
                start_suffix(),
            )) ==> exists|j: int| 0 <= j < out@.len() && (#[trigger] out@[j]).kind == KIND_START,
            (exists|k: int| files@.len() <= k < files0.len() && name_marker(
                #[trigger] files0[k].name@,
                end_suffix(),
            )) ==> exists|j: int| 0 <= j < out@.len() && (#[trigger] out@[j]).kind == KIND_END,
            forall|cat: Seq<Segment>| sorted_plain_image(files0, cat) ==> (out@.len()
                == files0.len() - files@.len() && forall|x: int| 0 <= x < out@.len() ==> ((
            #[trigger] out@[x]).index == cat[files@.len() + x].index && out@[x].kind == 0
                && out@[x].data@ == cat[files@.len() + x].data@)),
        decreases files@.len(),
    {
        let ghost pre_files = files@;
        let ghost nf = pre_files.len() - 1;
        let f = files.pop().unwrap();
        proof {
            assert(f == pre_files[nf]);
            assert(pre_files == files0.take(nf + 1));
            assert(files0.take(nf + 1)[nf] == files0[nf]);
            assert(f == files0[nf]);
            assert(files@ == pre_files.subrange(0, nf));
            assert(files@ =~= files0.take(nf));
        }
        let parsed = parse_name(&f.name);
        match parsed {
            None => {
                proof {
                    assert(!name_marker(files0[nf].name@, start_suffix()));
                    assert(!name_marker(files0[nf].name@, end_suffix()));
                    assert forall|cat: Seq<Segment>| sorted_plain_image(files0, cat) implies (
                    out@.len() == files0.len() - files@.len() && forall|x: int|
                        0 <= x < out@.len() ==> ((#[trigger] out@[x]).index == cat[files@.len()
                            + x].index && out@[x].kind == 0 && out@[x].data@ == cat[files@.len()
                            + x].data@)) by {
                        assert(files0[nf].name@ == crate::digits::pad20(cat[nf].index));
                        assert(false);
                    }
                }
            },
            Some((idx, kind)) => {
                let ent = ScanSeg { index: idx, kind, data: f.data };
                // insertion keeping the order
                let mut j: usize = 0;
                while j < out.len() && !(out[j].index > ent.index || (out[j].index == ent.index
                    && out[j].kind > ent.kind))
                    invariant
                        j <= out@.len(),
                        forall|x: int| 0 <= x < j ==> scan_le(#[trigger] out@[x], ent),
                    decreases out@.len() - j,
                {
                    proof {
                        assert(scan_le(out@[j as int], ent));
                    }
                    j = j + 1;
                }
                proof {
                    assert(j < out@.len() ==> scan_le(ent, out@[j as int]));
                }
                let ghost pre = out@;
                proof {
                    assert forall|cat: Seq<Segment>| sorted_plain_image(files0, cat) implies (
                    idx == cat[nf].index && kind == 0 && ent.data@ == cat[nf].data@ && j
                        == 0) by {
                        assert(files0[nf].name@ == crate::digits::pad20(cat[nf].index));
                        assert(parsed == Some((cat[nf].index, 0u8)));
                        if j > 0 {
                            assert(scan_le(pre[0], ent));
                            assert(pre[0].index == cat[nf + 1].index);
                        }
                    }
                }
                out.insert(j, ent);
                proof {
                    assert(out@[j as int] == ent);
                    lemma_scan_insert(pre, out@, ent, j as int);
                    assert forall|cat: Seq<Segment>| sorted_plain_image(files0, cat) implies (
                    out@.len() == files0.len() - files@.len() && forall|x: int|
                        0 <= x < out@.len() ==> ((#[trigger] out@[x]).index == cat[files@.len()
                            + x].index && out@[x].kind == 0 && out@[x].data@ == cat[files@.len()
                            + x].data@)) by {
                        assert(j == 0);
                        assert(out@[0] == ent);
                        assert(idx == cat[nf].index && ent.data@ == cat[nf].data@);
                        assert forall|x: int| 0 <= x < out@.len() implies ((#[trigger] out@[
                        x]).index == cat[files@.len() + x].index && out@[x].kind == 0 && out@[
                        x].data@ == cat[files@.len() + x].data@) by {
                            if x > 0 {
                                assert(out@[x] == pre[x - 1]);
                                assert(pre[x - 1].index == cat[nf + x].index);
                            }
                        }
                    }
                }
            },
        }
    }
    out
}

/// A catalog whose every segment decodes as the gap-free run its place
/// requires: non-last segments cover exactly up to the next base, the last
/// decodes cleanly, and a lone empty segment can only be the fresh one.
pub open spec fn catalog_ok(fmt: LogFormat, segs: Seq<Segment>) -> bool {
    &&& segs.len() >= 1
    &&& forall|a: int| 0 <= a < segs.len() - 1 ==> (#[trigger] run_parse(
        fmt,
        segs[a].data@,
        0,
        segs[a].index as int,
    ) matches Some(q) && q.len() == segs[a + 1].index - segs[a].index)
    &&& run_parse(fmt, segs[segs.len() - 1].data@, 0, segs[segs.len() - 1].index as int) is Some
    &&& (segs.len() == 1 && run_parse(
        fmt,
        segs[0].data@,
        0,
        segs[0].index as int,
    )->Some_0.len() == 0 ==> segs[0].index == 1)
}

/// Validate every segment of a sorted catalog: each must hold the gap-free
/// run its place requires.  Yields the index of the last decoded entry.
#[verifier::loop_isolation(false)]
#[verifier::rlimit(100)]
fn validate_catalog(fmt_e: LogFormat, segs: &Vec<Segment>) -> (r: Result<u64, Error>)
    requires
        segs@.len() >= 1,
        forall|a: int| 0 <= a < segs@.len() ==> 1 <= (#[trigger] segs@[a]).index,
        forall|a: int| 0 <= a < segs@.len() - 1 ==> (#[trigger] segs@[a]).index < segs@[a
            + 1].index,
    ensures
        r matches Err(e) ==> e is Corrupt,
        segs@.len() == 1 && segs@[0].index == 1 && segs@[0].data@.len() == 0 ==> r is Ok,
        catalog_ok(fmt_e, segs@) ==> r is Ok,
        r matches Ok(last) ==> {
            &&& forall|a: int| 0 <= a < segs@.len() - 1 ==> (#[trigger] run_parse(
                fmt_e,
                segs@[a].data@,
                0,
                segs@[a].index as int,
            ) matches Some(q) && q.len() == segs@[a + 1].index - segs@[a].index)
            &&& (run_parse(
                fmt_e,
                segs@[segs@.len() - 1].data@,
                0,
                segs@[segs@.len() - 1].index as int,
            ) matches Some(q) && last as int == segs@[segs@.len() - 1].index - 1 + q.len())
            &&& (segs@.len() == 1 && last == 0 ==> segs@[0].index == 1)
            &&& (segs@.len() == 1 ==> (last as int >= segs@[0].index || segs@[0].index == 1))
            &&& (segs@.len() > 1 ==> last as int >= segs@[segs@.len() - 1].index - 1)
        },
{
    let n = segs.len();
    let mut last_index: u64 = 0;
    let mut k: usize = 0;
    while k < n
        invariant
            k <= n,
            forall|a: int| 0 <= a < k && a < n - 1 ==> (#[trigger] run_parse(
                fmt_e,
                segs@[a].data@,
                0,
                segs@[a].index as int,
            ) matches Some(q) && q.len() == segs@[a + 1].index - segs@[a].index),
            k == n ==> (run_parse(
                fmt_e,
                segs@[n - 1].data@,
                0,
                segs@[n - 1].index as int,
            ) matches Some(q) && last_index as int == segs@[n - 1].index - 1 + q.len()),
            k == n && n == 1 && last_index == 0 ==> segs@[0].index == 1,
            k == n && n == 1 ==> (last_index as int >= segs@[0].index || segs@[0].index == 1),
            k == n && n > 1 ==> last_index as int >= segs@[n - 1].index - 1,
        decreases n - k,
    {
        let cnt = match Log::check_run(fmt_e, &segs[k].data, segs[k].index) {
            None => {
                proof {
                    if segs@[k as int].data@.len() == 0 {
                        crate::runs::lemma_run_empty(
                            fmt_e,
                            segs@[k as int].data@,
                            segs@[k as int].index as int,
                        );
                        assert(false);
                    }
                    if catalog_ok(fmt_e, segs@) {
                        assert(run_parse(
                            fmt_e,
                            segs@[k as int].data@,
                            0,
                            segs@[k as int].index as int,
                        ) is Some);
                        assert(false);
                    }
                }
                return Err(Error::Corrupt);
            },
            Some(c) => c,
        };
        if k < n - 1 {
            if cnt != segs[k + 1].index - segs[k].index {
                proof {
                    if catalog_ok(fmt_e, segs@) {
                        assert(run_parse(
                            fmt_e,
                            segs@[k as int].data@,
                            0,
                            segs@[k as int].index as int,
                        ) matches Some(q) && q.len() == segs@[k + 1].index - segs@[k as int].index);
                        assert(false);
                    }
                }
                return Err(Error::Corrupt);
            }
        } else {
            let base = segs[k].index;
            last_index = base - 1 + cnt;
            if n == 1 && cnt == 0 && base != 1 {
                proof {
                    if catalog_ok(fmt_e, segs@) {
                        assert(false);
                    }
                }
                return Err(Error::Corrupt);
            }
        }
        k = k + 1;
    }
    Ok(last_index)
}

/// A scan catalog of plain segment files only, strictly ascending.
pub open spec fn plain_sorted_cat(cat: Seq<ScanSeg>) -> bool {
    &&& cat.len() >= 1
    &&& forall|j: int| 0 <= j < cat.len() ==> ((#[trigger] cat[j]).kind == 0 && cat[j].index >= 1)
    &&& forall|j: int| 0 <= j < cat.len() - 1 ==> (#[trigger] cat[j]).index < cat[j + 1].index
}

/// Resolve an interrupted truncation from its marker and hand back the kept
/// catalog, strictly sorted.
#[verifier::loop_isolation(false)]
#[verifier::rlimit(100)]
fn resolve_markers(cat: Vec<ScanSeg>) -> (r: Result<Vec<Segment>, Error>)
    ensures
        r matches Err(e) ==> e is Corrupt,
        r matches Ok(segs) ==> {
            &&& forall|a: int| 0 <= a < segs@.len() ==> 1 <= (#[trigger] segs@[a]).index
            &&& forall|a: int| 0 <= a < segs@.len() - 1 ==> (#[trigger] segs@[a]).index < segs@[a
                + 1].index
            &&& (cat@.len() == 0 ==> segs@.len() == 0)
        },
        cat@.len() == 0 ==> r is Ok,
        (exists|j: int| 0 <= j < cat@.len() && (#[trigger] cat@[j]).kind == KIND_START) && (exists|
            j: int,
        | 0 <= j < cat@.len() && (#[trigger] cat@[j]).kind == KIND_END) ==> r is Err,
        plain_sorted_cat(cat@) ==> (r matches Ok(segs) && segs@.len() == cat@.len() && forall|
            j: int,
        | 0 <= j < cat@.len() ==> ((#[trigger] segs@[j]).index == cat@[j].index && segs@[j].data@
            == cat@[j].data@)),
{
    let ghost cat0 = cat@;
    let mut cat = cat;
        // locate markers; more than one of a kind, or both kinds, is an
    // impossible catalog state
    let mut start_at: usize = 0;
    let mut end_at: usize = 0;
    let mut n_start: usize = 0;
    let mut n_end: usize = 0;
    let mut m: usize = 0;
    while m < cat.len()
        invariant
            cat@ == cat0,
            m <= cat@.len(),
            n_start <= m,
            n_end <= m,
            n_start > 0 ==> start_at < m,
            n_end > 0 ==> end_at < m,
            (exists|j: int| 0 <= j < m && (#[trigger] cat@[j]).kind == KIND_START) ==> n_start
                > 0,
            (exists|j: int| 0 <= j < m && (#[trigger] cat@[j]).kind == KIND_END) ==> n_end > 0,
            n_start > 0 ==> exists|j: int| 0 <= j < m && (#[trigger] cat@[j]).kind == KIND_START,
            n_end > 0 ==> exists|j: int| 0 <= j < m && (#[trigger] cat@[j]).kind == KIND_END,
        decreases cat@.len() - m,
    {
        let kd = cat[m].kind;
        if kd == KIND_START {
            start_at = m;
            if n_start == usize::MAX {
                return Err(Error::Corrupt);
            }
            n_start = n_start + 1;
        } else if kd == KIND_END {
            if n_end == 0 {
                end_at = m;
            }
            if n_end == usize::MAX {
                return Err(Error::Corrupt);
            }
            n_end = n_end + 1;
        }
        m = m + 1;
    }
    proof {
        if exists|j: int| 0 <= j < cat0.len() && (#[trigger] cat0[j]).kind == KIND_START {
            assert(n_start > 0);
        }
        if exists|j: int| 0 <= j < cat0.len() && (#[trigger] cat0[j]).kind == KIND_END {
            assert(n_end > 0);
        }
        if plain_sorted_cat(cat0) {
            assert(n_start == 0) by {
                if n_start > 0 {
                    let j = choose|j: int| 0 <= j < cat0.len() && cat0[j].kind == KIND_START;
                    assert(cat0[j].kind == 0);
                }
            }
            assert(n_end == 0) by {
                if n_end > 0 {
                    let j = choose|j: int| 0 <= j < cat0.len() && cat0[j].kind == KIND_END;
                    assert(cat0[j].kind == 0);
                }
            }
        }
    }
    if n_start > 0 && n_end > 0 {
        return Err(Error::Corrupt);
    }
    if n_start > 1 || n_end > 1 {
        return Err(Error::Corrupt);
    }
    if n_start == 1 {
        // resume an interrupted front truncation: everything before the
        // marker is already replaced by it
        let mut t: usize = 0;
        while t < start_at
            invariant
                t <= start_at,
                start_at < cat@.len() + t,
            decreases start_at - t,
        {
            if cat.len() == 0 {
                return Err(Error::Corrupt);
            }
            cat.remove(0);
            t = t + 1;
        }
        if cat.len() == 0 {
            return Err(Error::Corrupt);
        }
        let mut head = cat.remove(0);
        head.kind = 0;
        cat.insert(0, head);
    } else if n_end == 1 {
        // resume an interrupted back truncation: the marker replaces its
        // own segment, and everything after it goes
        if end_at + 1 > cat.len() {
            return Err(Error::Corrupt);
        }
        cat.truncate(end_at + 1);
        let mut tail = cat.pop().unwrap();
        tail.kind = 0;
        if cat.len() > 0 && cat[cat.len() - 1].index == tail.index {
            cat.pop();
        }
        cat.push(tail);
    }
    // a marker may not survive; duplicate or unordered start indices are
    // an impossible catalog state
    let mut segs: Vec<Segment> = Vec::new();
    let mut w: usize = 0;
    while w < cat.len()
        invariant
            w <= cat@.len(),
            segs@.len() == w,
            forall|a: int| 0 <= a < w ==> (#[trigger] segs@[a]).index == cat@[a].index
                && segs@[a].data@ == cat@[a].data@,
        decreases cat@.len() - w,
    {
        if cat[w].kind != 0 {
            return Err(Error::Corrupt);
        }
        let d = crate::codec::copy_range(&cat[w].data, 0, cat[w].data.len());
        proof {
            assert(cat@[w as int].data@.subrange(0, cat@[w as int].data@.len() as int)
                =~= cat@[w as int].data@);
        }
        segs.push(Segment { index: cat[w].index, data: d });
        w = w + 1;
    }
    let mut v: usize = 0;
    while v < segs.len()
        invariant
            v <= segs@.len(),
            forall|a: int| 0 <= a < v ==> 1 <= (#[trigger] segs@[a]).index,
            forall|a: int| 0 <= a < v - 1 ==> (#[trigger] segs@[a]).index < segs@[a + 1].index,
        decreases segs@.len() - v,
    {
        if segs[v].index == 0 {
            return Err(Error::Corrupt);
        }
        let prev_ok = v == 0 || segs[v - 1].index < segs[v].index;
        if !prev_ok {
            return Err(Error::Corrupt);
        }
        proof {
            assert forall|a: int| 0 <= a < v implies (#[trigger] segs@[a]).index
                < segs@[a + 1].index by {
                if a + 1 == v {
                    assert(segs@[v - 1].index < segs@[v as int].index);
                }
            }
        }
        v = v + 1;
    }
    Ok(segs)
}

/// `catalog_ok` depends only on the segments' indices and byte views.
proof fn lemma_catalog_ok_ext(fmt: LogFormat, a: Seq<Segment>, b: Seq<Segment>)
    requires
        a.len() == b.len(),
        forall|k: int| 0 <= k < a.len() ==> ((#[trigger] a[k]).index == b[k].index && a[k].data@
            == b[k].data@),
    ensures
        catalog_ok(fmt, a) == catalog_ok(fmt, b),
{
    if a.len() >= 1 {
        assert forall|k: int| 0 <= k < a.len() implies #[trigger] run_parse(
            fmt,
            a[k].data@,
            0,
            a[k].index as int,
        ) == run_parse(fmt, b[k].data@, 0, b[k].index as int) by {}
        if catalog_ok(fmt, a) {
            assert forall|x: int| 0 <= x < b.len() - 1 implies (#[trigger] run_parse(
                fmt,
                b[x].data@,
                0,
                b[x].index as int,
            ) matches Some(q) && q.len() == b[x + 1].index - b[x].index) by {
                assert(run_parse(fmt, a[x].data@, 0, a[x].index as int) matches Some(q2) && q2.len()
                    == a[x + 1].index - a[x].index);
            }
        }
        if catalog_ok(fmt, b) {
            assert forall|x: int| 0 <= x < a.len() - 1 implies (#[trigger] run_parse(
                fmt,
                a[x].data@,
                0,
                a[x].index as int,
            ) matches Some(q) && q.len() == a[x + 1].index - a[x].index) by {
                assert(run_parse(fmt, b[x].data@, 0, b[x].index as int) matches Some(q2) && q2.len()
                    == b[x + 1].index - b[x].index);
            }
        }
    }
}

impl Log {
    /// Open a log over a directory image.  Rejects the reserved `:memory:`
    /// path; creates the first segment when the image holds none; resolves an
    /// interrupted truncation from its `.START` or `.END` marker; validates
    /// every kept segment and reconstructs `first_index` and `last_index`
    /// from what the files decode to.
    #[verifier::loop_isolation(false)]
    #[verifier::rlimit(100)]
    pub fn open(dir: &str, files: Vec<SegFile>, opts: Option<&Options>) -> (r: Result<Log, Error>)
        ensures
            (r matches Err(e) && e is InMemoryLog) <==> is_memory_path(dir),
            r matches Err(e) ==> (e is InMemoryLog || e is Corrupt),
            r matches Ok(l) ==> {
                &&& l.inv()
                &&& l.consistent()
                &&& !l.closed
                &&& l.buffer@.len() == 0
                &&& l.readers@.len() == 0
                &&& l.path@ == dir@
                &&& (opts matches Some(o) ==> l.opts == *o)
                &&& (opts is None ==> (l.opts.durability is High && l.opts.segment_size
                    == 52428800 && l.opts.log_format is Binary))
            },
            !is_memory_path(dir) && files@.len() == 0 ==> (r matches Ok(l) && l.nseg() == 1
                && l.base(0) == 1 && l.first_index == 1 && l.last_index == 0
                && l.segments@[0].data@.len() == 0),
            !is_memory_path(dir) && has_start(files@) && has_end(files@) ==> (r matches Err(e)
                && e is Corrupt),
            forall|cat: Seq<Segment>| sorted_plain_image(files@, cat) && !is_memory_path(dir)
                ==> ({
                let fmt = (match opts {
                    Option::Some(o) => o.log_format,
                    Option::None => LogFormat::Binary,
                });
                &&& (catalog_ok(fmt, cat) ==> (r matches Ok(l) && l.segments@.len() == cat.len()
                    && (forall|k: int| 0 <= k < cat.len() ==> ((#[trigger] l.segments@[k]).index
                    == cat[k].index && l.segments@[k].data@ == cat[k].data@)) && l.first_index
                    == cat[0].index && l.last_index as int == cat[cat.len() - 1].index - 1
                    + run_parse(
                    fmt,
                    cat[cat.len() - 1].data@,
                    0,
                    cat[cat.len() - 1].index as int,
                )->Some_0.len()))
                &&& (!catalog_ok(fmt, cat) ==> (r matches Err(e) && e is Corrupt))
            }),
    {
        if check_memory_path(dir) {
            return Err(Error::InMemoryLog);
        }
        let options = match opts {
            None => Options::default(),
            Some(o) => Options {
                durability: o.durability,
                segment_size: o.segment_size,
                log_format: o.log_format,
            },
        };
        let ghost was_empty = files@.len() == 0;
        let ghost old_files = files@;
        let mut cat = load_segments(files);
        proof {
            if was_empty {
                assert(cat@.len() == 0);
            }
        }
        let ghost scan0 = cat@;
        proof {
            assert forall|catg: Seq<Segment>| sorted_plain_image(old_files, catg) implies (
            plain_sorted_cat(scan0) && scan0.len() == catg.len() && forall|k: int|
                0 <= k < catg.len() ==> ((#[trigger] scan0[k]).index == catg[k].index && scan0[
            k].kind == 0 && scan0[k].data@ == catg[k].data@)) by {}
        }
        let mut segs = match resolve_markers(cat) {
            Err(e) => {
                proof {
                    assert forall|catg: Seq<Segment>| sorted_plain_image(old_files, catg) implies
                        false by {
                        assert(plain_sorted_cat(scan0));
                    }
                }
                return Err(e);
            },
            Ok(v) => v,
        };
        proof {
            assert forall|catg: Seq<Segment>| sorted_plain_image(old_files, catg) implies (
            segs@.len() == catg.len() && forall|k: int| 0 <= k < catg.len() ==> ((
            #[trigger] segs@[k]).index == catg[k].index && segs@[k].data@ == catg[k].data@)) by {
                assert(plain_sorted_cat(scan0));
            }
        }
        let ghost had_segs = segs@.len() >= 1;
        if segs.len() == 0 {
            let data: Vec<u8> = Vec::new();
            segs.push(Segment { index: 1, data });
            proof {
                assert(segs@.len() == 1);
                assert(segs@[0].index == 1);
                assert(segs@[0].data@.len() == 0);
            }
        }
        proof {
            assert forall|catg: Seq<Segment>| sorted_plain_image(old_files, catg) implies (
            segs@.len() == catg.len() && (forall|k: int| 0 <= k < catg.len() ==> ((
            #[trigger] segs@[k]).index == catg[k].index && segs@[k].data@ == catg[k].data@))
                && (catalog_ok(options.log_format, segs@) == catalog_ok(
                options.log_format,
                catg,
            ))) by {
                assert(had_segs);
                lemma_catalog_ok_ext(options.log_format, segs@, catg);
            }
        }
        // validate every segment: each must hold the gap-free run its place
        // in the catalog requires
        let last_index = match validate_catalog(options.log_format, &segs) {
            Err(e) => {
                proof {
                    assert forall|catg: Seq<Segment>| sorted_plain_image(old_files, catg) implies
                        !catalog_ok(options.log_format, catg) by {
                        if catalog_ok(options.log_format, catg) {
                            assert(catalog_ok(options.log_format, segs@));
                            assert(false);
                        }
                    }
                }
                return Err(e);
            },
            Ok(v) => v,
        };
        proof {
            assert forall|catg: Seq<Segment>| sorted_plain_image(old_files, catg) implies
                catalog_ok(options.log_format, catg) by {
                assert(run_parse(
                    options.log_format,
                    segs@[segs@.len() - 1].data@,
                    0,
                    segs@[segs@.len() - 1].index as int,
                ) is Some);
                assert(catalog_ok(options.log_format, segs@));
            }
        }
        let n = segs.len();
        let first_index = segs[0].index;
        let fsize = segs[n - 1].data.len();
        let log = Log {
            path: dir.to_owned(),
            opts: options,
            closed: false,
            segments: segs,
            first_index,
            last_index,
            buffer: Vec::new(),
            file_size: fsize,
            readers: Vec::new(),
        };
        proof {
            let l = log;
            assert(l.active_content() =~= l.segments@[l.nseg() - 1].data@);
            assert(l.seg_sorted()) by {
                assert forall|a: int, b: int| 0 <= a < b < l.nseg() implies #[trigger] l.base(a)
                    < #[trigger] l.base(b) by {
                    lemma_sorted_chain(l, a, b);
                }
            }
            assert(l.fmt() == options.log_format);
            assert forall|a: int| 0 <= a < l.nseg() - 1 implies (#[trigger] l.seg_run(a)
                matches Some(q) && q.len() == l.base(a + 1) - l.base(a)) by {
                assert(l.seg_content(a) == l.segments@[a].data@);
                assert(run_parse(options.log_format, l.segments@[a].data@, 0, l.segments@[a].index
                    as int) matches Some(q2) && q2.len() == l.segments@[a + 1].index
                    - l.segments@[a].index);
            }
            assert(l.seg_content(l.nseg() - 1) == l.segments@[l.nseg() - 1].data@);
            assert(run_parse(
                options.log_format,
                l.segments@[l.nseg() - 1].data@,
                0,
                l.segments@[l.nseg() - 1].index as int,
            ) is Some);
            assert(l.seg_run(l.nseg() - 1) is Some);
            assert(l.active_ok());
            assert(l.nseg() == 1 ==> (l.last_index as int >= l.base(0) || l.base(0) == 1)) by {
                if l.nseg() == 1 {
                    let q = run_parse(
                        options.log_format,
                        l.segments@[0].data@,
                        0,
                        l.segments@[0].index as int,
                    )->Some_0;
                    assert(l.last_index as int == l.base(0) - 1 + q.len());
                    if q.len() == 0 {
                        assert(l.last_index == 0 ==> l.base(0) == 1);
                        assert(l.last_index as int == l.base(0) - 1);
                        if l.base(0) != 1 {
                            assert(l.last_index as int >= 1);
                        }
                    }
                }
            }
            assert(l.first_index as int == l.base(0));
            assert(l.file_size as int == l.active_content().len());
            assert(l.buffer_sep_ok());
            assert(l.nseg() > 1 ==> l.last_index as int >= l.base(l.nseg() - 1) - 1);
            assert(forall|j: int| 0 <= j < l.readers@.len() ==> l.reader_ok(
                #[trigger] l.readers@[j],
            ));
            assert(l.inv());
            assert(l.consistent());
            if was_empty {
                assert(l.nseg() == 1);
                assert(l.base(0) == 1);
                assert(l.segments@[0].data@.len() == 0);
                assert(l.last_index == 0);
            }
        }
        Ok(log)
    }
}

/// Reopen round trip, image half: the directory image a consistent, flushed
/// log stands for (what `snapshot` writes after `close`) is a sorted plain
/// image whose every segment parses — so `open`'s contract obliges it to
/// accept that image and rebuild the same catalog, first index, and last
/// index.
pub proof fn lemma_reopen_image(l: Log, files: Seq<SegFile>)
    requires
        l.inv(),
        l.consistent(),
        l.buffer@.len() == 0,
        l.dir_matches(files),
    ensures
        sorted_plain_image(files, l.segments@),
        catalog_ok(l.fmt(), l.segments@),
        l.last_index as int == l.segments@[l.nseg() - 1].index - 1 + run_parse(
            l.fmt(),
            l.segments@[l.nseg() - 1].data@,
            0,
            l.segments@[l.nseg() - 1].index as int,
        )->Some_0.len(),
{
    let n = l.nseg();
    assert(sorted_plain_image(files, l.segments@)) by {
        assert forall|k: int| 0 <= k < n - 1 implies (#[trigger] l.segments@[k]).index < l.segments@[
        k + 1].index by {
            assert(l.base(k) < l.base(k + 1));
        }
        assert forall|k: int| 0 <= k < n implies 1 <= (#[trigger] l.segments@[k]).index by {
            assert(1 <= l.base(k));
        }
    }
    assert(l.seg_content(n - 1) =~= l.segments@[n - 1].data@);
    assert(catalog_ok(l.fmt(), l.segments@)) by {
        assert forall|a: int| 0 <= a < n - 1 implies (#[trigger] run_parse(
            l.fmt(),
            l.segments@[a].data@,
            0,
            l.segments@[a].index as int,
        ) matches Some(q) && q.len() == l.segments@[a + 1].index - l.segments@[a].index) by {
            assert(l.seg_run(a) matches Some(q2) && q2.len() == l.base(a + 1) - l.base(a));
            assert(l.seg_content(a) == l.segments@[a].data@);
        }
        let qn = run_parse(
            l.fmt(),
            l.segments@[n - 1].data@,
            0,
            l.segments@[n - 1].index as int,
        )->Some_0;
        if n == 1 && qn.len() == 0 {
            assert(l.last_index as int == l.base(0) - 1);
            if l.base(0) != 1 {
                assert(l.last_index as int >= l.base(0));
            }
        }
    }
}

/// Reopen round trip, entry half: two logs with flushed buffers over
/// pointwise-equal catalogs hold exactly the same entries.
pub proof fn lemma_same_catalog_entries(a: Log, b: Log)
    requires
        a.nseg() == b.nseg(),
        a.nseg() >= 1,
        a.fmt() == b.fmt(),
        a.buffer@.len() == 0,
        b.buffer@.len() == 0,
        forall|k: int| 0 <= k < a.nseg() ==> ((#[trigger] a.segments@[k]).index
            == b.segments@[k].index && a.segments@[k].data@ == b.segments@[k].data@),
    ensures
        forall|i: int| #[trigger] a.entry_at(i) == b.entry_at(i),
{
    assert forall|k: int| 0 <= k < a.nseg() implies #[trigger] b.seg_content(k) == a.seg_content(
        k,
    ) by {
        if k == a.nseg() - 1 {
            assert(a.seg_content(k) =~= a.segments@[k].data@);
            assert(b.seg_content(k) =~= b.segments@[k].data@);
        }
    }
    assert forall|k: int| 0 <= k < a.nseg() implies #[trigger] b.base(k) == a.base(k) by {}
    crate::log::lemma_log_owner_ext(a, b);
}

/// Adjacent ascending start indices are ascending everywhere.
proof fn lemma_sorted_chain(l: Log, a: int, b: int)
    requires
        forall|x: int| 0 <= x < l.nseg() - 1 ==> (#[trigger] l.segments@[x]).index < l.segments@[x
            + 1].index,
        0 <= a < b < l.nseg(),
    ensures
        l.base(a) < l.base(b),
    decreases b - a,
{
    if b > a + 1 {
        lemma_sorted_chain(l, a + 1, b);
        assert(l.segments@[a].index < l.segments@[a + 1].index);
    } else {
        assert(l.segments@[a].index < l.segments@[b].index);
    }
}

} // verus!
