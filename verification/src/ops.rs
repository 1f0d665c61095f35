//! The arithmetic of page operations: how a document is cut into parts of
//! `every` pages, and which page selections are acceptable.

use crate::text::{decimal, push_decimal, push_str, string_of};
use crate::Error;
pub use crate::builder::{delete_pages, extract_pages, merge, rotate, split};
pub use crate::pagetree::{pages, Page};
pub use crate::cleanup::{
    clean_dead_destinations, is_dead_action, is_dead_annotation, is_dead_dest, is_dead_target, sweep,
};
use core::ops::Range;
use vstd::prelude::*;

verus! {

/// Ranges of `every` pages covering `page_count` pages, the last one
/// shorter when the count is not a multiple. Empty when either is zero.
///
/// The ranges partition `0..page_count` in order: the first starts at 0,
/// each starts where the previous one ends, every range but the last holds
/// exactly `every` pages, and the last ends at `page_count`.
pub fn ranges_every(page_count: usize, every: usize) -> (r: Vec<Range<usize>>)
    ensures
        every == 0 || page_count == 0 ==> r@.len() == 0,
        every > 0 && page_count > 0 ==> {
            &&& r@.len() > 0
            &&& r@[0].start == 0
            &&& r@.last().end == page_count
        },
        forall|i: int|
            0 <= i < r@.len() ==> {
                &&& r@[i].start < r@[i].end
                &&& r@[i].end - r@[i].start <= every
                &&& i + 1 < r@.len() ==> r@[i].end - r@[i].start == every && r@[i + 1].start
                    == r@[i].end
            },
{
    let mut out: Vec<Range<usize>> = Vec::new();
    if every == 0 {
        return out;
    }
    let mut start: usize = 0;
    while start < page_count
        invariant
            every > 0,
            start <= page_count,
            out@.len() == 0 <==> start == 0,
            out@.len() > 0 ==> out@.last().end == start,
            out@.len() > 0 ==> out@[0].start == 0,
            forall|i: int|
                0 <= i < out@.len() ==> {
                    &&& out@[i].start < out@[i].end
                    &&& out@[i].end - out@[i].start == every
                    &&& i + 1 < out@.len() ==> out@[i + 1].start == out@[i].end
                },
        decreases page_count - start,
    {
        let end = if every >= page_count - start {
            page_count
        } else {
            start + every
        };
        if end < page_count {
            out.push(start..end);
            start = end;
        } else {
            out.push(start..end);
            return out;
        }
    }
    out
}

/// The first position from `i` on whose index is out of range or repeats
/// an earlier one, with `true` when it is out of range.
pub open spec fn first_bad_index(indices: Seq<usize>, count: usize, i: int) -> Option<(int, bool)>
    decreases indices.len() - i,
{
    if i < 0 || i >= indices.len() {
        None
    } else if indices[i] >= count {
        Some((i, true))
    } else if exists|j: int| 0 <= j < i && indices[j] == indices[i] {
        Some((i, false))
    } else {
        first_bad_index(indices, count, i + 1)
    }
}

proof fn lemma_first_bad_none(indices: Seq<usize>, count: usize, i: int)
    requires
        0 <= i <= indices.len(),
        first_bad_index(indices, count, i) is None,
    ensures
        forall|k: int| i <= k < indices.len() ==> indices[k] < count,
        forall|k: int, j: int|
            0 <= j < k && i <= k < indices.len() ==> indices[j] != indices[k],
    decreases indices.len() - i,
{
    if i < indices.len() {
        lemma_first_bad_none(indices, count, i + 1);
    }
}

/// A selection of pages out of `count` is accepted: every index exists
/// and appears once, and it is empty only when `allow_empty`.
pub open spec fn selection_ok(indices: Seq<usize>, count: int, allow_empty: bool) -> bool {
    &&& indices.len() > 0 || allow_empty
    &&& forall|k: int| 0 <= k < indices.len() ==> indices[k] < count
    &&& forall|j: int, k: int| 0 <= j < k < indices.len() ==> indices[j] != indices[k]
}

/// `e` is the refusal of a selection of pages out of `count`: no page
/// selected, the first index beyond the last page, or the first index
/// given twice.
pub open spec fn selection_refusal_is(e: Error, indices: Seq<usize>, count: usize, allow_empty: bool) -> bool {
    if indices.len() == 0 && !allow_empty {
        e matches Error::BadOperation { message } && message@ == "no page selected"@
    } else {
        match first_bad_index(indices, count, 0) {
            None => false,
            Some((i, true)) => e == Error::NoSuchPage { index: indices[i], count },
            Some((i, false)) => e matches Error::BadOperation { message } && message@ == "page "@ + decimal(
                indices[i] as nat,
            ) + " selected more than once"@,
        }
    }
}

/// Every index exists and appears once; a selection may be empty only
/// when `allow_empty`.
pub fn check_selection(indices: &[usize], count: usize, allow_empty: bool) -> (r: Result<(), Error>)
    ensures
        indices@.len() == 0 && !allow_empty ==> (r matches Err(Error::BadOperation { message })
            && message@ == "no page selected"@),
        indices@.len() > 0 || allow_empty ==> match first_bad_index(indices@, count, 0) {
            None => r is Ok,
            Some((i, true)) => r == Err::<(), Error>(
                Error::NoSuchPage { index: indices@[i], count },
            ),
            Some((i, false)) => r matches Err(Error::BadOperation { message }) && message@
                == "page "@ + decimal(indices@[i] as nat) + " selected more than once"@,
        },
        r is Ok ==> forall|k: int| 0 <= k < indices@.len() ==> indices@[k] < count,
        r is Ok ==> forall|j: int, k: int|
            0 <= j < k < indices@.len() ==> indices@[j] != indices@[k],
        r is Ok <==> selection_ok(indices@, count as int, allow_empty),
        r matches Err(e) ==> selection_refusal_is(e, indices@, count, allow_empty),
{
    if indices.len() == 0 && !allow_empty {
        return Err(Error::BadOperation { message: string_of("no page selected") });
    }
    let mut i: usize = 0;
    while i < indices.len()
        invariant
            i <= indices@.len(),
            first_bad_index(indices@, count, 0) == first_bad_index(indices@, count, i as int),
        decreases indices@.len() - i,
    {
        let index = indices[i];
        if index >= count {
            assert(!selection_ok(indices@, count as int, allow_empty)) by {
                assert(indices@[i as int] >= count);
            }
            return Err(Error::NoSuchPage { index, count });
        }
        let mut j: usize = 0;
        while j < i
            invariant
                j <= i < indices@.len(),
                index == indices@[i as int],
                index < count,
                first_bad_index(indices@, count, 0) == first_bad_index(indices@, count, i as int),
                forall|k: int| 0 <= k < j ==> indices@[k] != index,
            decreases i - j,
        {
            if indices[j] == index {
                assert(indices@[j as int] == indices@[i as int]);
                assert(!selection_ok(indices@, count as int, allow_empty)) by {
                    assert(indices@[j as int] == indices@[i as int] && 0 <= j < i < indices@.len());
                }
                assert(exists|jj: int| 0 <= jj < i && indices@[jj] == indices@[i as int]);
                assert(first_bad_index(indices@, count, i as int) == Some((i as int, false)));
                let mut message = string_of("page ");
                push_decimal(&mut message, index as u64);
                push_str(&mut message, " selected more than once");
                return Err(Error::BadOperation { message });
            }
            j = j + 1;
        }
        i = i + 1;
    }
    proof {
        lemma_first_bad_none(indices@, count, 0);
    }
    Ok(())
}

} // verus!

