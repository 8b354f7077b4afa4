//! A sequence of records of which only some are in memory, and the choice of the range of
//! records to fetch next for the part of the sequence that is in view.

use crate::blocks::{accepts, cell_at, cells, inserted, lemma_free_space_accepted, lemma_inserted,
    ordered, Block};
use crate::gap::{is_gap, is_scan_outcome, lemma_filled_gap_not_reported_again, lemma_scan_past_run,
    lemma_scan_past_value, load_end, load_start, longer_gap, populated, Span};
use crate::sparse_vec::SparseVec;
use std::ops::Range;
use vstd::prelude::*;

pub mod blocks;
pub mod gap;
pub mod sparse_vec;

verus! {

/// The indices of a range, as a span.
pub open spec fn span_of(range: Range<usize>) -> Span {
    (range.start as int, range.end as int)
}

/// The span of a range that may be absent.
pub open spec fn found_span(found: Option<Range<usize>>) -> Option<Span> {
    match found {
        Some(range) => Some(span_of(range)),
        None => None,
    }
}

/// The longer of a gap found earlier and a run that just ended; the earlier one where
/// they are equally long.
fn longer(longest: Option<Range<usize>>, run: Range<usize>) -> (r: Range<usize>)
    requires
        run.start <= run.end,
        longest matches Some(gap) ==> gap.start <= gap.end,
    ensures
        span_of(r) == longer_gap(found_span(longest), span_of(run)),
{
    match longest {
        Some(gap) => if gap.end - gap.start < run.end - run.start {
            run
        } else {
            gap
        },
        None => run,
    }
}

/// The range of records to request next, given the records `data` that are loaded and
/// the range `in_view` that is shown. The view is widened by half its length on each side
/// and cut to the sequence; of the gaps within that window the longest is returned, the
/// first of them where several are as long. Nothing is returned for an empty view, and
/// nothing when every record of the window is loaded.
///
/// Call this when the view or the data has changed and no request is under way.
pub fn next_request_for_view<T>(data: &SparseVec<T>, in_view: Range<usize>) -> (r: Option<
    Range<usize>,
>)
    ensures
        in_view.start >= in_view.end ==> r is None,
        in_view.start < in_view.end ==> is_scan_outcome(
            data@,
            load_start(in_view.start as int, in_view.end as int),
            load_end(data.spec_len() as int, in_view.start as int, in_view.end as int),
            found_span(r),
        ),
{
    if in_view.start >= in_view.end {
        return None;
    }
    let extra_load = (in_view.end - in_view.start) / 2;
    let start = in_view.start.saturating_sub(extra_load);
    let end = if in_view.end.saturating_add(extra_load) <= data.len() {
        in_view.end.saturating_add(extra_load)
    } else {
        data.len()
    };
    if start >= end {
        // the window lies beyond the sequence
        return None;
    }
    let ghost cells = data@;
    let mut longest_empty: Option<Range<usize>> = None;
    let mut current_empty: Option<usize> = None;
    let mut items = data.iter_range(start..end);
    let mut index = start;
    loop
        invariant
            start <= index <= end <= cells.len(),
            items.cells() == cells,
            items.position() == index,
            items.end() == end,
            match current_empty {
                Some(from) => {
                    &&& start <= from < index
                    &&& is_gap(cells, from as int, index as int)
                    &&& from == start || cells[from - 1] is Some
                    &&& is_scan_outcome(cells, start as int, from as int, found_span(longest_empty))
                },
                None => {
                    &&& index == start || cells[index - 1] is Some
                    &&& is_scan_outcome(
                        cells,
                        start as int,
                        index as int,
                        found_span(longest_empty),
                    )
                },
            },
            longest_empty matches Some(gap) ==> gap.start <= gap.end,
        ensures
            index == end,
        decreases end - index,
    {
        match items.next() {
            Some(item) => {
                if item.is_some() {
                    match current_empty {
                        Some(from) => {
                            proof {
                                lemma_scan_past_run(
                                    cells,
                                    start as int,
                                    index + 1,
                                    from as int,
                                    index as int,
                                    found_span(longest_empty),
                                );
                            }
                            longest_empty = Some(longer(longest_empty, from..index));
                            current_empty = None;
                        },
                        None => {
                            proof {
                                lemma_scan_past_value(
                                    cells,
                                    start as int,
                                    index as int,
                                    found_span(longest_empty),
                                );
                            }
                        },
                    }
                } else if current_empty.is_none() {
                    current_empty = Some(index);
                }
                index += 1;
            },
            None => {
                break ;
            },
        }
    }
    if let Some(from) = current_empty {
        proof {
            lemma_scan_past_run(
                cells,
                start as int,
                end as int,
                from as int,
                end as int,
                found_span(longest_empty),
            );
        }
        longest_empty = Some(longer(longest_empty, from..end));
    }
    longest_empty
}

/// In a container without empty blocks, the gap that a scan reports can be filled by one
/// insertion, and a scan of the same window then reports another gap or nothing.
pub proof fn lemma_reported_gap_can_be_filled<T>(
    blocks: Seq<Block<T>>,
    len: int,
    lo: int,
    hi: int,
    gap: Span,
    data: Seq<T>,
    next: Option<Span>,
)
    requires
        0 <= len,
        ordered(blocks, len),
        forall|k: int| 0 <= k < blocks.len() ==> (#[trigger] blocks[k]).1.len() > 0,
        is_scan_outcome(cells(blocks, len), lo, hi, Some(gap)),
        data.len() == gap.1 - gap.0,
        is_scan_outcome(cells(inserted(blocks, gap.0, data), len), lo, hi, next),
    ensures
        accepts(blocks, len, gap.0, data.len() as int),
        ordered(inserted(blocks, gap.0, data), len),
        populated(cells(inserted(blocks, gap.0, data), len), gap.0, gap.1),
        next != Some(gap),
{
    let before = cells(blocks, len);
    assert forall|i: int| gap.0 <= i < gap.1 implies cell_at(blocks, i) is None by {
        assert(before[i] is None);
    }
    lemma_free_space_accepted(blocks, len, gap.0, data.len() as int);
    lemma_inserted(blocks, len, gap.0, data);
    let after = cells(inserted(blocks, gap.0, data), len);
    lemma_filled_gap_not_reported_again(before, after, lo, hi, gap, next);
}

} // verus!
