//! The loaded-segment view the loader hands the tool, and the two
//! selections made over it: the segment holding a virtual address, and
//! the default writable target address.

use vstd::prelude::*;

verus! {

/// One loaded segment, reduced to the fields the selections read.
#[derive(Clone, Copy, PartialEq, Eq, Structural, Debug)]
pub struct SegmentInfo {
    /// Virtual address the segment is mapped at.
    pub vaddr: u64,
    /// Size of the mapping in bytes.
    pub memsz: u64,
    /// Offset of the segment's bytes inside the file.
    pub offset: u64,
    /// Whether the segment is of the loadable kind.
    pub loadable: bool,
    pub writable: bool,
    pub executable: bool,
}

/// Whether an address lies inside a segment's mapping.
pub open spec fn segment_contains(s: SegmentInfo, address: u64) -> bool {
    s.vaddr <= address < s.vaddr + s.memsz
}

/// The first segment at or past index `j` whose mapping holds `address`.
pub open spec fn segment_for_address_from(
    segments: Seq<SegmentInfo>,
    address: u64,
    j: int,
) -> Option<int>
    decreases segments.len() - j,
{
    if j < 0 || j >= segments.len() {
        Option::None
    } else if segment_contains(segments[j], address) {
        Some(j)
    } else {
        segment_for_address_from(segments, address, j + 1)
    }
}

/// Whether a segment can serve as the default write target: loadable and
/// writable.
pub open spec fn is_writable_load(s: SegmentInfo) -> bool {
    s.loadable && s.writable
}

/// The lowest virtual address of any loadable, writable segment at or
/// past index `j`.
pub open spec fn lowest_writable_vaddr_from(segments: Seq<SegmentInfo>, j: int) -> Option<u64>
    decreases segments.len() - j,
{
    if j < 0 || j >= segments.len() {
        Option::None
    } else {
        let rest = lowest_writable_vaddr_from(segments, j + 1);
        if is_writable_load(segments[j]) {
            match rest {
                Some(b) => if segments[j].vaddr < b {
                    Some(segments[j].vaddr)
                } else {
                    Some(b)
                },
                Option::None => Some(segments[j].vaddr),
            }
        } else {
            rest
        }
    }
}

/// The lowest writable-load address is achieved by some such segment and
/// bounds every one; it is nothing exactly when no such segment exists.
proof fn lemma_lowest_writable_characterized(segments: Seq<SegmentInfo>, j: int)
    requires
        0 <= j,
    ensures
        match lowest_writable_vaddr_from(segments, j) {
            Some(a) => {
                &&& exists|k: int|
                    j <= k < segments.len() && is_writable_load(#[trigger] segments[k])
                        && segments[k].vaddr == a
                &&& forall|k: int|
                    j <= k < segments.len() && is_writable_load(#[trigger] segments[k])
                        ==> a <= segments[k].vaddr
            },
            Option::None => forall|k: int|
                j <= k < segments.len() ==> !is_writable_load(#[trigger] segments[k]),
        },
    decreases segments.len() - j,
{
    if !(j < 0 || j >= segments.len()) {
        lemma_lowest_writable_characterized(segments, j + 1);
        match lowest_writable_vaddr_from(segments, j + 1) {
            Some(b) => {
                let w = choose|k: int|
                    j + 1 <= k < segments.len() && is_writable_load(#[trigger] segments[k])
                        && segments[k].vaddr == b;
                assert(is_writable_load(segments[w]) && segments[w].vaddr == b);
            },
            Option::None => {},
        }
    }
}

/// Find the segment whose mapping holds `address`: the first such in
/// segment order, or nothing when no segment holds it.
#[verifier::loop_isolation(false)]
pub fn find_segment_for_address(segments: &Vec<SegmentInfo>, address: u64) -> (r: Option<usize>)
    ensures
        match r {
            Some(i) => i < segments@.len() && segment_for_address_from(segments@, address, 0)
                == Some(i as int),
            Option::None => segment_for_address_from(segments@, address, 0) is None,
        },
{
    let mut j: usize = 0;
    while j < segments.len()
        invariant
            j <= segments@.len(),
            segment_for_address_from(segments@, address, 0) == segment_for_address_from(
                segments@,
                address,
                j as int,
            ),
        decreases segments@.len() - j,
    {
        let s = segments[j];
        // `address - s.vaddr < s.memsz` states containment without the
        // wrap that `s.vaddr + s.memsz` could take.
        if address >= s.vaddr && address - s.vaddr < s.memsz {
            return Some(j);
        }
        j += 1;
    }
    Option::None
}

/// The default writable target address: the lowest virtual address of
/// any loadable, writable segment, or nothing when no such segment
/// exists.
#[verifier::loop_isolation(false)]
pub fn find_writable_address(segments: &Vec<SegmentInfo>) -> (r: Option<u64>)
    ensures
        r == lowest_writable_vaddr_from(segments@, 0),
        match r {
            Some(a) => {
                &&& exists|k: int|
                    0 <= k < segments@.len() && is_writable_load(#[trigger] segments@[k])
                        && segments@[k].vaddr == a
                &&& forall|k: int|
                    0 <= k < segments@.len() && is_writable_load(#[trigger] segments@[k])
                        ==> a <= segments@[k].vaddr
            },
            Option::None => forall|k: int|
                0 <= k < segments@.len() ==> !is_writable_load(#[trigger] segments@[k]),
        },
{
    let mut best: Option<u64> = Option::None;
    let mut j: usize = segments.len();
    while j > 0
        invariant
            j <= segments@.len(),
            best == lowest_writable_vaddr_from(segments@, j as int),
        decreases j,
    {
        j -= 1;
        let s = segments[j];
        if s.loadable && s.writable {
            best = match best {
                Some(b) => if s.vaddr < b {
                    Some(s.vaddr)
                } else {
                    Some(b)
                },
                Option::None => Some(s.vaddr),
            };
        }
    }
    proof {
        lemma_lowest_writable_characterized(segments@, 0);
    }
    best
}

} // verus!
