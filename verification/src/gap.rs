//! Gaps in a sequence of cells, and what a scan for the longest of them reports.

use vstd::prelude::*;

verus! {

/// A run of indices, from the first until just before the second.
pub type Span = (int, int);

/// Whether `a..b` is a run of at least one index of `cells`, none of which holds a value.
pub open spec fn is_gap<T>(cells: Seq<Option<T>>, a: int, b: int) -> bool {
    &&& 0 <= a < b <= cells.len()
    &&& forall|i: int| a <= i < b ==> (#[trigger] cells[i]) is None
}

/// Whether every index of `lo..hi` holds a value.
pub open spec fn populated<T>(cells: Seq<Option<T>>, lo: int, hi: int) -> bool {
    forall|i: int| lo <= i < hi ==> (#[trigger] cells[i]) is Some
}

/// Whether `a..b` is the gap to report for the window `lo..hi`: a gap within the window
/// that no gap within the window exceeds in length, and the first of those that are as
/// long.
pub open spec fn is_first_longest_gap<T>(
    cells: Seq<Option<T>>,
    lo: int,
    hi: int,
    a: int,
    b: int,
) -> bool {
    &&& lo <= a
    &&& b <= hi
    &&& is_gap(cells, a, b)
    &&& forall|c: int, d: int|
        lo <= c && d <= hi && #[trigger] is_gap(cells, c, d) ==> d - c < b - a || (d - c == b - a
            && a <= c)
}

/// Whether `found` is the outcome of a scan of the window `lo..hi`: the first of its
/// longest gaps, or nothing where every index of the window holds a value.
pub open spec fn is_scan_outcome<T>(
    cells: Seq<Option<T>>,
    lo: int,
    hi: int,
    found: Option<Span>,
) -> bool {
    match found {
        Some(gap) => is_first_longest_gap(cells, lo, hi, gap.0, gap.1),
        None => populated(cells, lo, hi),
    }
}

/// The longer of two gaps; the earlier one, `longest`, where they are equally long.
pub open spec fn longer_gap(longest: Option<Span>, run: Span) -> Span {
    match longest {
        Some(gap) => if gap.1 - gap.0 < run.1 - run.0 {
            run
        } else {
            gap
        },
        None => run,
    }
}

/// How far a view is widened on each side: by half its length.
pub open spec fn extra_load(view_start: int, view_end: int) -> int {
    (view_end - view_start) / 2
}

/// Where the window to load for a view starts: `extra_load` before the view, or at 0.
pub open spec fn load_start(view_start: int, view_end: int) -> int {
    if view_start >= extra_load(view_start, view_end) {
        view_start - extra_load(view_start, view_end)
    } else {
        0
    }
}

/// Where the window to load for a view ends: `extra_load` after the view, or at the end
/// of a sequence of length `len`.
pub open spec fn load_end(len: int, view_start: int, view_end: int) -> int {
    if view_end + extra_load(view_start, view_end) <= len {
        view_end + extra_load(view_start, view_end)
    } else {
        len
    }
}

/// A window has one outcome.
pub proof fn lemma_scan_outcome_unique<T>(
    cells: Seq<Option<T>>,
    lo: int,
    hi: int,
    first: Option<Span>,
    second: Option<Span>,
)
    requires
        is_scan_outcome(cells, lo, hi, first),
        is_scan_outcome(cells, lo, hi, second),
    ensures
        first == second,
{
    match (first, second) {
        (Some(f), Some(s)) => {
            assert(is_gap(cells, f.0, f.1));
            assert(is_gap(cells, s.0, s.1));
        },
        (Some(f), None) => {
            assert(cells[f.0] is None);
        },
        (None, Some(s)) => {
            assert(cells[s.0] is None);
        },
        (None, None) => {},
    }
}

/// A scan that has dealt with `lo..m` and then meets a value at `m` has dealt with
/// `lo..m + 1`.
pub proof fn lemma_scan_past_value<T>(cells: Seq<Option<T>>, lo: int, m: int, found: Option<Span>)
    requires
        0 <= lo <= m < cells.len(),
        cells[m] is Some,
        is_scan_outcome(cells, lo, m, found),
    ensures
        is_scan_outcome(cells, lo, m + 1, found),
{
    match found {
        Some(gap) => {
            assert forall|c: int, d: int|
                lo <= c && d <= m + 1 && #[trigger] is_gap(cells, c, d) implies d - c < gap.1
                - gap.0 || (d - c == gap.1 - gap.0 && gap.0 <= c) by {
                if d == m + 1 {
                    assert(cells[m] is None);
                }
            }
        },
        None => {},
    }
}

/// A scan that has dealt with `lo..c`, and then meets the run `c..e` of empty cells that
/// ends the window or is followed by values up to its end, reports the longer of what it
/// had and the run.
pub proof fn lemma_scan_past_run<T>(
    cells: Seq<Option<T>>,
    lo: int,
    hi: int,
    c: int,
    e: int,
    found: Option<Span>,
)
    requires
        0 <= lo <= c < e <= hi <= cells.len(),
        is_gap(cells, c, e),
        c == lo || cells[c - 1] is Some,
        populated(cells, e, hi),
        is_scan_outcome(cells, lo, c, found),
    ensures
        is_scan_outcome(cells, lo, hi, Some(longer_gap(found, (c, e)))),
{
    let best = longer_gap(found, (c, e));
    assert forall|x: int, y: int|
        lo <= x && y <= hi && #[trigger] is_gap(cells, x, y) implies y - x < best.1 - best.0 || (y
        - x == best.1 - best.0 && best.0 <= x) by {
        if y > e {
            assert(cells[y - 1] is None);
        }
        if x < c {
            if y > c {
                assert(cells[c - 1] is None);
            }
            match found {
                Some(gap) => {},
                None => {
                    assert(cells[x] is None);
                },
            }
        }
    }
}

/// Once every cell of a reported gap holds a value, a scan of the same window reports
/// something else: a gap that shares no index with the old one, or nothing.
pub proof fn lemma_filled_gap_not_reported_again<T>(
    before: Seq<Option<T>>,
    after: Seq<Option<T>>,
    lo: int,
    hi: int,
    gap: Span,
    next: Option<Span>,
)
    requires
        is_scan_outcome(before, lo, hi, Some(gap)),
        after.len() == before.len(),
        populated(after, gap.0, gap.1),
        is_scan_outcome(after, lo, hi, next),
    ensures
        next != Some(gap),
        next matches Some(other) ==> other.1 <= gap.0 || gap.1 <= other.0,
{
    match next {
        Some(other) => {
            if other.0 < gap.1 && gap.0 < other.1 {
                let shared = if gap.0 <= other.0 {
                    other.0
                } else {
                    gap.0
                };
                assert(after[shared] is None);
            }
        },
        None => {},
    }
}

} // verus!
