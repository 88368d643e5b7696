//! What holds of the addresses that a scan finds: they rise, they lie in the
//! ranges that were read, and the number of reads is the least that covers a
//! range.

use vstd::prelude::*;
use crate::memory::{MemoryError, MemoryReader};
use crate::process::{is_inventory, is_page_range, region_views, MapRange};
use crate::searcher::walk::{
    asks, brought, ending, filter_said, found_all, found_in, least, outcome_of, picked, range_end,
    region_ranges, scanned, search_outcome, searched, shifted, state_after, state_before, stop_of,
    tiles, walked, ChunkRead,
};
use crate::searcher::{in_order, is_orderly, is_rising, lies_within, SearchError, SearchRule};

verus! {

/// Reads that follow one another from `start` end at `start` or above, and at
/// `start` only if there is none.
pub proof fn lemma_tiles_reach(start: int, at: int, reads: Seq<ChunkRead>)
    requires
        tiles(start, at, reads),
    ensures
        start <= at,
        at == start <==> reads.len() == 0,
    decreases reads.len(),
{
    if reads.len() > 0 {
        lemma_tiles_reach(start, reads.last().cursor as int, reads.drop_last());
    }
}

/// The addresses that a scan from `start` to `at` finds rise, and each is
/// that of an element that lies between `start` and `at` with all its bytes.
pub proof fn lemma_found_in_rises<R: SearchRule>(rule: R, start: int, at: int, reads: Seq<ChunkRead>)
    requires
        is_orderly(rule),
        tiles(start, at, reads),
        searched(rule, reads),
        at <= usize::MAX,
    ensures
        is_rising(found_in(reads)),
        lies_within(found_in(reads), start, at, rule.stride() as int),
    decreases reads.len(),
{
    if reads.len() > 0 {
        let last = reads.last();
        let head = reads.drop_last();
        let before = found_in(head);
        let here = shifted(last.found, last.cursor as int);
        let all = found_in(reads);
        assert forall|k: int| 0 <= k < head.len() implies rule.may_find(
            (#[trigger] head[k]).data,
            head[k].len as int,
            head[k].found,
        ) by {
            assert(head[k] == reads[k]);
        }
        lemma_tiles_reach(start, last.cursor as int, head);
        lemma_found_in_rises(rule, start, last.cursor as int, head);
        assert(rule.may_find(last.data, last.len as int, last.found));
        assert(in_order(last.found, last.data.len() as int, last.len as int, rule.stride() as int));
        let offsets = last.found;
        assert forall|k: int| 0 <= k < all.len() implies start <= #[trigger] all[k] && all[k]
            + rule.stride() <= at by {
            if k < before.len() {
                assert(all[k] == before[k]);
            } else {
                assert(all[k] == here[k - before.len()]);
                assert(offsets[k - before.len()] + rule.stride() <= last.len);
            }
        }
        assert forall|j: int, k: int| 0 <= j < k < all.len() implies all[j] < all[k] by {
            if k < before.len() {
                assert(all[j] == before[j] && all[k] == before[k]);
            } else if j < before.len() {
                assert(all[j] == before[j]);
                assert(all[k] == here[k - before.len()]);
                assert(before[j] + rule.stride() <= last.cursor);
            } else {
                assert(all[j] == here[j - before.len()]);
                assert(all[k] == here[k - before.len()]);
                assert(offsets[j - before.len()] < offsets[k - before.len()]);
                assert(offsets[k - before.len()] + rule.stride() <= last.len);
            }
        }
    }
}

/// A scan in which every read brings `chunk` bytes has come `chunk` bytes
/// forward with every read.
pub proof fn lemma_full_chunks(start: int, at: int, chunk: int, reads: Seq<ChunkRead>)
    requires
        tiles(start, at, reads),
        forall|k: int| 0 <= k < reads.len() ==> (#[trigger] reads[k]).len == chunk,
    ensures
        at - start == reads.len() * chunk,
    decreases reads.len(),
{
    if reads.len() > 0 {
        let head = reads.drop_last();
        assert forall|k: int| 0 <= k < head.len() implies (#[trigger] head[k]).len == chunk by {
            assert(head[k] == reads[k]);
        }
        lemma_full_chunks(start, reads.last().cursor as int, chunk, head);
        assert((reads.len() - 1) * chunk + chunk == reads.len() * chunk) by (nonlinear_arith);
    }
}

/// Of reads that follow one another and stop before `end`, each of which
/// brings what it asked for, every one brings a full chunk.
proof fn lemma_full_before_end(start: int, at: int, end: int, chunk: int, reads: Seq<ChunkRead>)
    requires
        tiles(start, at, reads),
        at < end,
        asks(end, chunk, reads),
        forall|k: int| 0 <= k < reads.len() ==> (#[trigger] reads[k]).len == reads[k].want,
    ensures
        forall|k: int| 0 <= k < reads.len() ==> (#[trigger] reads[k]).len == chunk,
    decreases reads.len(),
{
    if reads.len() > 0 {
        let head = reads.drop_last();
        let last = reads.last();
        lemma_tiles_reach(start, last.cursor as int, head);
        assert forall|k: int| 0 <= k < head.len() implies (#[trigger] head[k]).want == least(
            chunk,
            end - head[k].cursor,
        ) && head[k].len == head[k].want by {
            assert(head[k] == reads[k]);
        }
        lemma_full_before_end(start, last.cursor as int, end, chunk, head);
        assert forall|k: int| 0 <= k < reads.len() implies (#[trigger] reads[k]).len == chunk by {
            if k < head.len() {
                assert(head[k] == reads[k]);
            }
        }
    }
}

/// A scan of a range in which every read brings as many bytes as it asked
/// for (a chunk, or what is left of the range) makes as many reads as the
/// range has chunks, the last of which may be short: the length of the range
/// divided by the size of a chunk, rounded up.
pub proof fn lemma_read_count(start: int, end: int, chunk: int, reads: Seq<ChunkRead>)
    requires
        start < end,
        tiles(start, end, reads),
        asks(end, chunk, reads),
        forall|k: int| 0 <= k < reads.len() ==> (#[trigger] reads[k]).len == reads[k].want,
    ensures
        reads.len() > 0,
        (reads.len() - 1) * chunk < end - start <= reads.len() * chunk,
{
    lemma_tiles_reach(start, end, reads);
    let head = reads.drop_last();
    let last = reads.last();
    assert forall|k: int| 0 <= k < head.len() implies (#[trigger] head[k]).want == least(
        chunk,
        end - head[k].cursor,
    ) && head[k].len == head[k].want by {
        assert(head[k] == reads[k]);
    }
    lemma_full_before_end(start, last.cursor as int, end, chunk, head);
    lemma_full_chunks(start, last.cursor as int, chunk, head);
    assert((reads.len() - 1) * chunk + chunk == reads.len() * chunk) by (nonlinear_arith);
}

/// A reader that answers every read with nothing: no bytes and no error.
pub open spec fn answers_nothing<M: MemoryReader>() -> bool {
    forall|before: M, after: M, a: usize, l: nat, x: Result<Seq<u8>, MemoryError>| #[trigger]
        before.may_answer(after, a, l, x) ==> x == Ok::<Seq<u8>, MemoryError>(Seq::empty())
}

/// With a reader that answers every read with nothing, the scan of a range
/// that is not empty ends at its first address, for want of progress, after
/// no read that brought anything.
pub proof fn lemma_no_progress<M: MemoryReader, R: SearchRule>(
    before: M,
    states: Seq<M>,
    after: M,
    rule: R,
    start: int,
    end: int,
    chunk: int,
    reads: Seq<ChunkRead>,
    at: int,
    r: Result<(), SearchError>,
)
    requires
        answers_nothing::<M>(),
        start < end,
        scanned(before, states, after, rule, start, end, chunk, reads, at, r),
    ensures
        reads.len() == 0,
        r == Err::<(), SearchError>(SearchError::ScanNoProgress { address: start as usize }),
{
    if reads.len() > 0 {
        let first = reads[0];
        assert(states[0].may_answer(
            states[1],
            first.cursor,
            first.want as nat,
            Ok(brought(first)),
        ));
        lemma_first_read(start, at, reads);
        assert(brought(first).len() == first.len);
    }
    lemma_tiles_reach(start, at, reads);
}

/// The scan of a range without bytes makes no read and leaves the reader as
/// it was.
pub proof fn lemma_empty_range<M: MemoryReader, R: SearchRule>(
    before: M,
    states: Seq<M>,
    after: M,
    rule: R,
    start: int,
    end: int,
    chunk: int,
    reads: Seq<ChunkRead>,
    at: int,
    r: Result<(), SearchError>,
)
    requires
        start >= end,
        scanned(before, states, after, rule, start, end, chunk, reads, at, r),
    ensures
        r is Ok,
        reads.len() == 0,
        after == before,
{
    lemma_tiles_reach(start, at, reads);
}

/// The first of the reads that follow one another brings a byte.
proof fn lemma_first_read(start: int, at: int, reads: Seq<ChunkRead>)
    requires
        tiles(start, at, reads),
        reads.len() > 0,
    ensures
        0 < reads[0].len <= reads[0].data.len(),
    decreases reads.len(),
{
    if reads.len() > 1 {
        lemma_first_read(start, reads.last().cursor as int, reads.drop_last());
        assert(reads.drop_last()[0] == reads[0]);
    }
}

/// Each range ends before the next one starts.
pub open spec fn is_sorted(ranges: Seq<(usize, usize)>) -> bool {
    forall|i: int, j: int|
        0 <= i < j < ranges.len() ==> range_end(#[trigger] ranges[i]) <= (#[trigger] ranges[j]).0
}

/// The addresses found in the first `n` of the ranges rise, and each is that
/// of an element that lies below the place where the scan of the last of
/// these ranges stopped.
proof fn lemma_found_upto_rises<R: SearchRule>(
    rule: R,
    ranges: Seq<(usize, usize)>,
    traces: Seq<Seq<ChunkRead>>,
    stops: Seq<int>,
    n: int,
)
    requires
        is_orderly(rule),
        is_sorted(ranges),
        0 <= n <= traces.len() <= ranges.len(),
        stops.len() == traces.len(),
        forall|k: int|
            0 <= k < traces.len() ==> tiles(ranges[k].0 as int, stops[k], #[trigger] traces[k])
                && searched(rule, traces[k]) && stops[k] <= range_end(ranges[k]),
    ensures
        is_rising(found_all(traces.take(n))),
        n > 0 ==> lies_within(found_all(traces.take(n)), 0, stops[n - 1], rule.stride() as int),
        n == 0 ==> found_all(traces.take(n)).len() == 0,
    decreases n,
{
    if n > 0 {
        let upto = traces.take(n);
        let head = traces.take(n - 1);
        let last = traces[n - 1];
        assert(upto.drop_last() =~= head);
        assert(upto.last() == last);
        let before = found_all(head);
        let here = found_in(last);
        let all = found_all(upto);
        let start = ranges[n - 1].0 as int;
        assert(tiles(start, stops[n - 1], traces[n - 1]));
        lemma_tiles_reach(start, stops[n - 1], last);
        lemma_found_in_rises(rule, start, stops[n - 1], last);
        lemma_found_upto_rises(rule, ranges, traces, stops, n - 1);
        assert(rule.stride() >= 0);
        if n > 1 {
            assert(tiles(ranges[n - 2].0 as int, stops[n - 2], traces[n - 2]));
            assert(stops[n - 2] <= range_end(ranges[n - 2]));
            assert(range_end(ranges[n - 2]) <= ranges[n - 1].0);
        }
        assert forall|k: int| 0 <= k < all.len() implies 0 <= #[trigger] all[k] && all[k]
            + rule.stride() <= stops[n - 1] by {
            if k < before.len() {
                assert(all[k] == before[k]);
            } else {
                assert(all[k] == here[k - before.len()]);
            }
        }
        assert forall|j: int, k: int| 0 <= j < k < all.len() implies all[j] < all[k] by {
            if k < before.len() {
                assert(all[j] == before[j] && all[k] == before[k]);
            } else if j < before.len() {
                assert(all[j] == before[j]);
                assert(all[k] == here[k - before.len()]);
            } else {
                assert(all[j] == here[j - before.len()]);
                assert(all[k] == here[k - before.len()]);
            }
        }
    }
}

/// The addresses that a scan of sorted ranges finds rise.
pub proof fn lemma_found_all_rises<M: MemoryReader, R: SearchRule>(
    before: M,
    after: M,
    rule: R,
    ranges: Seq<(usize, usize)>,
    chunk: int,
    traces: Seq<Seq<ChunkRead>>,
    paths: Seq<Seq<M>>,
    at: int,
    r: Result<(), SearchError>,
)
    requires
        is_orderly(rule),
        is_sorted(ranges),
        walked(before, after, rule, ranges, chunk, traces, paths, at, r),
    ensures
        is_rising(found_all(traces)),
{
    let stops = Seq::new(traces.len(), |k: int| stop_of(ranges, traces.len() as int, at, r, k));
    assert forall|k: int| 0 <= k < traces.len() implies tiles(
        ranges[k].0 as int,
        stops[k],
        #[trigger] traces[k],
    ) && searched(rule, traces[k]) && stops[k] <= range_end(ranges[k]) by {
        assert(scanned(
            state_before(before, paths, k),
            paths[k],
            state_after(paths, after, k),
            rule,
            ranges[k].0 as int,
            ranges[k].1 as int,
            chunk,
            traces[k],
            stop_of(ranges, traces.len() as int, at, r, k),
            outcome_of(traces.len() as int, r, k),
        ));
    }
    lemma_found_upto_rises(rule, ranges, traces, stops, traces.len() as int);
    assert(traces.take(traces.len() as int) =~= traces);
}

/// The ranges picked out of sorted ranges are sorted, and each is one of
/// them.
pub proof fn lemma_picked_sorted(ranges: Seq<(usize, usize)>, picks: Seq<bool>)
    requires
        is_sorted(ranges),
        picks.len() == ranges.len(),
    ensures
        is_sorted(picked(ranges, picks)),
        forall|k: int|
            0 <= k < picked(ranges, picks).len() ==> ranges.contains(
                #[trigger] picked(ranges, picks)[k],
            ),
    decreases ranges.len(),
{
    if ranges.len() > 0 {
        let head = ranges.drop_last();
        let some = picked(head, picks.drop_last());
        let all = picked(ranges, picks);
        assert forall|i: int, j: int| 0 <= i < j < head.len() implies range_end(
            #[trigger] head[i],
        ) <= (#[trigger] head[j]).0 by {
            assert(head[i] == ranges[i] && head[j] == ranges[j]);
        }
        lemma_picked_sorted(head, picks.drop_last());
        assert forall|k: int| 0 <= k < all.len() implies ranges.contains(#[trigger] all[k]) by {
            if k < some.len() {
                assert(head.contains(some[k]));
                let i = choose|i: int| 0 <= i < head.len() && #[trigger] head[i] == some[k];
                assert(ranges[i] == all[k]);
            } else {
                assert(ranges[ranges.len() - 1] == all[k]);
            }
        }
        assert forall|i: int, j: int| 0 <= i < j < all.len() implies range_end(#[trigger] all[i])
            <= (#[trigger] all[j]).0 by {
            if j < some.len() {
                assert(all[i] == some[i] && all[j] == some[j]);
            } else {
                assert(all[i] == some[i]);
                assert(head.contains(some[i]));
                let x = choose|x: int| 0 <= x < head.len() && #[trigger] head[x] == some[i];
                assert(ranges[x] == all[i]);
                assert(all[j] == ranges[ranges.len() - 1]);
            }
        }
    }
}

/// A search of the regions of one address space finds addresses that rise.
pub proof fn lemma_search_rises<M: MemoryReader, R: SearchRule, F: Fn(&MapRange) -> bool>(
    before: M,
    after: M,
    regions: Seq<MapRange>,
    filter: Option<F>,
    rule: R,
    chunk: int,
    r: Result<Vec<usize>, SearchError>,
)
    requires
        is_orderly(rule),
        is_inventory(region_views(regions)),
        search_outcome(before, after, regions, filter, rule, chunk, r),
    ensures
        r matches Ok(found) ==> is_rising(found@),
{
    if let Ok(found) = r {
        let (picks, traces, paths, at) = choose|
            picks: Seq<bool>,
            traces: Seq<Seq<ChunkRead>>,
            paths: Seq<Seq<M>>,
            at: int,
        |
            {
                &&& #[trigger] filter_said(filter, regions, picks)
                &&& #[trigger] walked(
                    before,
                    after,
                    rule,
                    picked(region_ranges(regions), picks),
                    chunk,
                    traces,
                    paths,
                    at,
                    ending(r),
                )
                &&& r matches Ok(found) ==> found@ == found_all(traces)
            };
        let ranges = region_ranges(regions);
        let views = region_views(regions);
        assert forall|i: int, j: int| 0 <= i < j < ranges.len() implies range_end(
            #[trigger] ranges[i],
        ) <= (#[trigger] ranges[j]).0 by {
            assert(views[i].end <= views[j].start);
            assert(is_page_range(views[i].start as int, views[i].end as int));
        }
        lemma_picked_sorted(ranges, picks);
        lemma_found_all_rises(
            before,
            after,
            rule,
            picked(ranges, picks),
            chunk,
            traces,
            paths,
            at,
            Ok(()),
        );
    }
}

} // verus!
