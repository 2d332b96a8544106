//! How the bins of a spectrum are grouped into display buckets.
use vstd::prelude::*;

verus! {

/// `x` clamped to `[lo, hi]`.
pub open spec fn clamped(x: int, lo: int, hi: int) -> int {
    if x < lo {
        lo
    } else if x > hi {
        hi
    } else {
        x
    }
}

/// The end of bucket `i` before the first and last are adjusted: its rounded
/// logarithmic end `raw_ends[i]`, kept past the previous end and within the bins.
pub open spec fn raw_range_end(bin_count: int, raw_ends: Seq<usize>, i: int) -> int
    decreases i,
{
    if i <= 0 {
        clamped(raw_ends[0] as int, 2, bin_count)
    } else {
        clamped(raw_ends[i] as int, raw_range_end(bin_count, raw_ends, i - 1) + 1, bin_count)
    }
}

/// The start of bucket `i` before adjustment: the previous end (1 for the first).
pub open spec fn raw_range_start(bin_count: int, raw_ends: Seq<usize>, i: int) -> int {
    if i <= 0 {
        1
    } else {
        raw_range_end(bin_count, raw_ends, i - 1)
    }
}

/// The bin range `[start, end)` of bucket `i` of `bucket_count` over `bin_count`
/// bins: one bin per bucket (repeating the last) when there are at least as
/// many buckets as bins, else logarithmically widening ranges from bin 0 to the
/// last bin.
pub open spec fn bucket_range(bin_count: int, bucket_count: int, raw_ends: Seq<usize>, i: int) -> (int, int) {
    if bin_count == 1 {
        (0, 1)
    } else if bucket_count >= bin_count {
        let start = if i < bin_count - 1 {
            i
        } else {
            bin_count - 1
        };
        (start, start + 1)
    } else {
        let start = if i == 0 {
            0
        } else {
            let s = raw_range_start(bin_count, raw_ends, i);
            if s < bin_count - 1 {
                s
            } else {
                bin_count - 1
            }
        };
        let end = if i == bucket_count - 1 {
            bin_count
        } else {
            raw_range_end(bin_count, raw_ends, i)
        };
        (start, end)
    }
}

/// Whether the logarithmic ends leave room for every later bucket to end at
/// least one bin further (otherwise the grouping has no valid last bucket).
pub open spec fn ends_leave_room(bin_count: int, bucket_count: int, raw_ends: Seq<usize>) -> bool {
    forall|j: int| 0 <= j < bucket_count - 1 ==> #[trigger] raw_ends[j] + (bucket_count - 1 - j) <= bin_count
}

proof fn lemma_raw_end_bounds(bin_count: int, bucket_count: int, raw_ends: Seq<usize>, i: int)
    requires
        2 <= bin_count,
        bucket_count < bin_count,
        0 <= i < bucket_count - 1,
        raw_ends.len() == bucket_count,
        ends_leave_room(bin_count, bucket_count, raw_ends),
    ensures
        raw_range_end(bin_count, raw_ends, i) <= bin_count - (bucket_count - 1 - i),
        raw_range_end(bin_count, raw_ends, i) >= i + 2,
    decreases i,
{
    assert(raw_ends[i] + (bucket_count - 1 - i) <= bin_count);
    if i > 0 {
        lemma_raw_end_bounds(bin_count, bucket_count, raw_ends, i - 1);
    }
}

/// The bin range of each display bucket (see `bucket_range`); `raw_ends[i]` is the
/// rounded logarithmic end `bin_count^((i + 1) / bucket_count)` of bucket `i`.
pub fn log_bucket_ranges(bin_count: usize, bucket_count: usize, raw_ends: &Vec<usize>) -> (ranges: Vec<(usize, usize)>)
    requires
        raw_ends@.len() == bucket_count,
        2 <= bin_count && bucket_count < bin_count ==> ends_leave_room(
            bin_count as int,
            bucket_count as int,
            raw_ends@,
        ),
    ensures
        bucket_count == 0 || bin_count == 0 ==> ranges@.len() == 0,
        bucket_count > 0 && bin_count > 0 ==> ranges@.len() == bucket_count,
        bucket_count > 0 && bin_count > 0 ==> forall|i: int|
            0 <= i < bucket_count ==> ((#[trigger] ranges@[i]).0 as int, ranges@[i].1 as int)
                == bucket_range(bin_count as int, bucket_count as int, raw_ends@, i),
{
    let mut ranges: Vec<(usize, usize)> = Vec::new();
    if bucket_count == 0 || bin_count == 0 {
        return ranges;
    }
    if bin_count == 1 {
        let mut i: usize = 0;
        while i < bucket_count
            invariant
                i <= bucket_count,
                bin_count == 1,
                ranges@.len() == i,
                forall|k: int|
                    0 <= k < i ==> ((#[trigger] ranges@[k]).0 as int, ranges@[k].1 as int)
                        == bucket_range(bin_count as int, bucket_count as int, raw_ends@, k),
            decreases bucket_count - i,
        {
            ranges.push((0, 1));
            i += 1;
        }
        return ranges;
    }
    if bucket_count >= bin_count {
        let mut i: usize = 0;
        while i < bucket_count
            invariant
                i <= bucket_count,
                bucket_count >= bin_count >= 2,
                ranges@.len() == i,
                forall|k: int|
                    0 <= k < i ==> ((#[trigger] ranges@[k]).0 as int, ranges@[k].1 as int)
                        == bucket_range(bin_count as int, bucket_count as int, raw_ends@, k),
            decreases bucket_count - i,
        {
            let start = if i < bin_count - 1 {
                i
            } else {
                bin_count - 1
            };
            let end = if start + 1 < bin_count {
                start + 1
            } else {
                bin_count
            };
            ranges.push((start, end));
            i += 1;
        }
        return ranges;
    }
    let mut previous: usize = 1;
    let mut i: usize = 0;
    while i < bucket_count
        invariant
            i <= bucket_count < bin_count,
            2 <= bin_count,
            raw_ends@.len() == bucket_count,
            ends_leave_room(bin_count as int, bucket_count as int, raw_ends@),
            previous == raw_range_start(bin_count as int, raw_ends@, i as int),
            i < bucket_count ==> previous + 1 <= bin_count,
            ranges@.len() == i,
            forall|k: int|
                0 <= k < i ==> ((#[trigger] ranges@[k]).0 as int, ranges@[k].1 as int) == (
                    if k == 0 {
                        0
                    } else {
                        let s = raw_range_start(bin_count as int, raw_ends@, k);
                        if s < bin_count - 1 {
                            s
                        } else {
                            bin_count - 1
                        }
                    },
                    if k == bucket_count - 1 {
                        bin_count as int
                    } else {
                        raw_range_end(bin_count as int, raw_ends@, k)
                    },
                ),
        decreases bucket_count - i,
    {
        let raw = raw_ends[i];
        let low = previous + 1;
        let end = if raw < low {
            low
        } else if raw > bin_count {
            bin_count
        } else {
            raw
        };
        assert(end == raw_range_end(bin_count as int, raw_ends@, i as int));
        let start = if i == 0 {
            0
        } else if previous < bin_count - 1 {
            previous
        } else {
            bin_count - 1
        };
        let stored_end = if i == bucket_count - 1 {
            bin_count
        } else {
            end
        };
        ranges.push((start, stored_end));
        proof {
            if i + 1 < bucket_count {
                lemma_raw_end_bounds(bin_count as int, bucket_count as int, raw_ends@, i as int);
            }
        }
        previous = end;
        i += 1;
    }
    ranges
}

/// Every bucket range is a non-empty range of bins.
pub proof fn law_bucket_ranges_are_nonempty_bin_ranges(
    bin_count: int,
    bucket_count: int,
    raw_ends: Seq<usize>,
    i: int,
)
    requires
        1 <= bin_count,
        0 <= i < bucket_count,
        raw_ends.len() == bucket_count,
        2 <= bin_count && bucket_count < bin_count ==> ends_leave_room(
            bin_count,
            bucket_count,
            raw_ends,
        ),
    ensures
        0 <= bucket_range(bin_count, bucket_count, raw_ends, i).0 < bucket_range(
            bin_count,
            bucket_count,
            raw_ends,
            i,
        ).1 <= bin_count,
{
    if bin_count >= 2 && bucket_count < bin_count {
        if i < bucket_count - 1 {
            lemma_raw_end_bounds(bin_count, bucket_count, raw_ends, i);
        }
        if i > 0 {
            lemma_raw_end_bounds(bin_count, bucket_count, raw_ends, i - 1);
        }
    }
}

} // verus!
