//! How many frames an operation on an address space takes from the allocator.
//!
//! A page table grows by directory pages: the walk to a page lacks two of
//! them, one, or none. What a walk lacks is all that decides how many frames
//! a mapping costs, so the functions here work on a map from page numbers to
//! that count, and say how it changes as pages are mapped.

use vstd::prelude::*;
use crate::config::VPN_LIMIT;

verus! {

/// What the walks lack in a page table that has only its root directory.
pub open spec fn bare_lacks() -> Map<int, nat> {
    Map::new(|v: int| 0 <= v < VPN_LIMIT, |v: int| 2nat)
}

/// How many directory pages the walk to page `v` lacks once the pages
/// `first .. last` have been mapped, if it lacked `m` of them before: none
/// where `v` shares its leaf directory with one of those pages, at most one
/// where it shares the directory above.
pub open spec fn missing_after(m: nat, v: int, first: int, last: int) -> nat {
    if first >= last {
        m
    } else if first / 512 <= v / 512 <= (last - 1) / 512 {
        0
    } else if first / 0x4_0000 <= v / 0x4_0000 <= (last - 1) / 0x4_0000 {
        if m < 1 {
            m
        } else {
            1
        }
    } else {
        m
    }
}

/// Mapping `first .. mid` and then `mid .. last` leaves a walk as mapping
/// `first .. last` does.
pub proof fn lemma_missing_after_joined(m: nat, v: int, first: int, mid: int, last: int)
    requires
        0 <= first <= mid <= last,
    ensures
        missing_after(missing_after(m, v, first, mid), v, mid, last) == missing_after(
            m,
            v,
            first,
            last,
        ),
{
}

/// What every walk lacks once the pages `first .. last` have been mapped, if
/// the walks lacked `lacks` before.
pub open spec fn lacks_after(lacks: Map<int, nat>, first: int, last: int) -> Map<int, nat> {
    Map::new(|v: int| lacks.contains_key(v), |v: int| missing_after(lacks[v], v, first, last))
}

/// The directory pages that mapping the pages `first .. last`, one after
/// the other, allocates.
pub open spec fn tables_needed(lacks: Map<int, nat>, first: int, last: int) -> nat
    decreases last - first,
{
    if first >= last {
        0
    } else {
        tables_needed(lacks, first, last - 1) + missing_after(
            lacks[last - 1],
            last - 1,
            first,
            last - 1,
        )
    }
}

/// The frames that mapping the pages `first .. last` takes: the directory
/// pages, and with `framed` one frame for each page.
pub open spec fn frames_needed(lacks: Map<int, nat>, framed: bool, first: int, last: int) -> nat {
    if first >= last {
        0
    } else if framed {
        tables_needed(lacks, first, last) + (last - first) as nat
    } else {
        tables_needed(lacks, first, last)
    }
}

/// A longer range needs at least the frames of a shorter one with the same start.
pub proof fn lemma_frames_needed_grow(
    lacks: Map<int, nat>,
    framed: bool,
    first: int,
    mid: int,
    last: int,
)
    requires
        first <= mid <= last,
    ensures
        frames_needed(lacks, framed, first, mid) <= frames_needed(lacks, framed, first, last),
        tables_needed(lacks, first, mid) <= tables_needed(lacks, first, last),
    decreases last - mid,
{
    if mid < last {
        lemma_frames_needed_grow(lacks, framed, first, mid, last - 1);
    }
}

/// Mapping takes at most three frames for each page.
pub proof fn lemma_frames_needed_bound(lacks: Map<int, nat>, framed: bool, first: int, last: int)
    requires
        forall|v: int| first <= v < last ==> lacks[v] <= 2,
    ensures
        first <= last ==> frames_needed(lacks, framed, first, last) <= 3 * (last - first),
        first <= last ==> tables_needed(lacks, first, last) <= 2 * (last - first),
        first > last ==> frames_needed(lacks, framed, first, last) == 0,
    decreases last - first,
{
    if first < last {
        lemma_frames_needed_grow(lacks, framed, first, last - 1, last);
        lemma_frames_needed_bound(lacks, framed, first, last - 1);
    }
}

/// Mapping `first .. mid` and then `mid .. last` leaves the walks as mapping
/// `first .. last` does.
pub proof fn lemma_lacks_after_joined(lacks: Map<int, nat>, first: int, mid: int, last: int)
    requires
        0 <= first <= mid <= last,
    ensures
        lacks_after(lacks_after(lacks, first, mid), mid, last) == lacks_after(lacks, first, last),
{
    assert forall|v: int| lacks.contains_key(v) implies #[trigger] lacks_after(
        lacks_after(lacks, first, mid),
        mid,
        last,
    )[v] == lacks_after(lacks, first, last)[v] by {
        lemma_missing_after_joined(lacks[v], v, first, mid, last);
    }
    assert(lacks_after(lacks_after(lacks, first, mid), mid, last) =~= lacks_after(
        lacks,
        first,
        last,
    ));
}

/// Mapping no page changes no walk.
pub proof fn lemma_lacks_after_none(lacks: Map<int, nat>, first: int, last: int)
    requires
        first >= last,
    ensures
        lacks_after(lacks, first, last) == lacks,
{
    assert(lacks_after(lacks, first, last) =~= lacks);
}

} // verus!
