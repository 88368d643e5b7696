//! Readers that a read leaves as they are, and what a scan is with one.

use vstd::prelude::*;
use crate::memory::{MemoryError, MemoryReader};
use crate::process::MapRange;
use crate::searcher::walk::{
    brought, ending, filter_said, found_all, outcome_of, picked, region_ranges, scanned,
    search_outcome, state_after, state_before, stop_of, walked, ChunkRead,
};
use crate::searcher::{SearchError, SearchRule};

verus! {

/// Every read leaves a reader of this type as it was, whatever it answers.
pub open spec fn is_steady<M: MemoryReader>() -> bool {
    forall|before: M, after: M, a: usize, l: nat, x: Result<Seq<u8>, MemoryError>| #[trigger]
        before.may_answer(after, a, l, x) ==> after == before
}

/// A steady reader is in its first state through all the reads of a scan.
proof fn lemma_states_same<M: MemoryReader, R: SearchRule>(
    before: M,
    states: Seq<M>,
    after: M,
    rule: R,
    start: int,
    end: int,
    chunk: int,
    reads: Seq<ChunkRead>,
    at: int,
    r: Result<(), SearchError>,
    k: int,
)
    requires
        is_steady::<M>(),
        scanned(before, states, after, rule, start, end, chunk, reads, at, r),
        0 <= k <= reads.len(),
    ensures
        states[k] == before,
    decreases k,
{
    if k > 0 {
        lemma_states_same(before, states, after, rule, start, end, chunk, reads, at, r, k - 1);
        let read = reads[k - 1];
        assert(states[k - 1].may_answer(states[k], read.cursor, read.want as nat, Ok(brought(read))));
    }
}

/// The scan of a range leaves a steady reader as it was.
pub proof fn lemma_scan_keeps_reader<M: MemoryReader, R: SearchRule>(
    before: M,
    states: Seq<M>,
    after: M,
    rule: R,
    start: int,
    end: int,
    chunk: int,
    reads: Seq<ChunkRead>,
    at: int,
    r: Result<(), SearchError>,
)
    requires
        is_steady::<M>(),
        scanned(before, states, after, rule, start, end, chunk, reads, at, r),
    ensures
        after == before,
{
    lemma_states_same(
        before,
        states,
        after,
        rule,
        start,
        end,
        chunk,
        reads,
        at,
        r,
        reads.len() as int,
    );
}

/// A steady reader is in its first state before each range of a scan.
proof fn lemma_ranges_same<M: MemoryReader, R: SearchRule>(
    before: M,
    after: M,
    rule: R,
    ranges: Seq<(usize, usize)>,
    chunk: int,
    traces: Seq<Seq<ChunkRead>>,
    paths: Seq<Seq<M>>,
    at: int,
    r: Result<(), SearchError>,
    k: int,
)
    requires
        is_steady::<M>(),
        walked(before, after, rule, ranges, chunk, traces, paths, at, r),
        0 <= k < traces.len(),
    ensures
        state_before(before, paths, k) == before,
        state_after(paths, after, k) == before,
    decreases k,
{
    if k > 0 {
        lemma_ranges_same(before, after, rule, ranges, chunk, traces, paths, at, r, k - 1);
    }
    lemma_scan_keeps_reader(
        state_before(before, paths, k),
        paths[k],
        state_after(paths, after, k),
        rule,
        ranges[k].0 as int,
        ranges[k].1 as int,
        chunk,
        traces[k],
        stop_of(ranges, traces.len() as int, at, r, k),
        outcome_of(traces.len() as int, r, k),
    );
}

/// The scan of some ranges leaves a steady reader as it was.
pub proof fn lemma_walk_keeps_reader<M: MemoryReader, R: SearchRule>(
    before: M,
    after: M,
    rule: R,
    ranges: Seq<(usize, usize)>,
    chunk: int,
    traces: Seq<Seq<ChunkRead>>,
    paths: Seq<Seq<M>>,
    at: int,
    r: Result<(), SearchError>,
)
    requires
        is_steady::<M>(),
        walked(before, after, rule, ranges, chunk, traces, paths, at, r),
    ensures
        after == before,
{
    if traces.len() > 0 {
        lemma_ranges_same(
            before,
            after,
            rule,
            ranges,
            chunk,
            traces,
            paths,
            at,
            r,
            traces.len() - 1,
        );
    }
}

/// A search leaves a steady reader as it was.
pub proof fn lemma_search_keeps_reader<M: MemoryReader, R: SearchRule, F: Fn(&MapRange) -> bool>(
    before: M,
    after: M,
    regions: Seq<MapRange>,
    filter: Option<F>,
    rule: R,
    chunk: int,
    r: Result<Vec<usize>, SearchError>,
)
    requires
        is_steady::<M>(),
        search_outcome(before, after, regions, filter, rule, chunk, r),
    ensures
        after == before,
{
    let (picks, traces, paths, at) = choose|
        picks: Seq<bool>,
        traces: Seq<Seq<ChunkRead>>,
        paths: Seq<Seq<M>>,
        at: int,
    |
        {
            &&& #[trigger] filter_said(filter, regions, picks)
            &&& #[trigger] walked(
                before,
                after,
                rule,
                picked(region_ranges(regions), picks),
                chunk,
                traces,
                paths,
                at,
                ending(r),
            )
            &&& r matches Ok(found) ==> found@ == found_all(traces)
        };
    lemma_walk_keeps_reader(
        before,
        after,
        rule,
        picked(region_ranges(regions), picks),
        chunk,
        traces,
        paths,
        at,
        ending(r),
    );
}

} // verus!
