//! The walk over ranges of addresses: reading them chunk by chunk and
//! handing each chunk to a rule.

use vstd::prelude::*;
use crate::memory::{read_answer, MemoryError, MemoryReader};
use crate::process::MapRange;
use crate::searcher::{SearchError, SearchRule};

verus! {

/// One read of a scan: the address it was made at, the number of bytes it
/// asked for, the buffer after it, the number of bytes of the buffer, from
/// its start on, that it brought, and the offsets of the matches that the
/// rule found in them.
pub struct ChunkRead {
    pub cursor: usize,
    pub want: usize,
    pub data: Seq<u8>,
    pub len: usize,
    pub found: Seq<usize>,
}

/// The bytes that a read brought.
pub open spec fn brought(read: ChunkRead) -> Seq<u8> {
    read.data.subrange(0, read.len as int)
}

/// The smaller of two numbers.
pub open spec fn least(a: int, b: int) -> int {
    if a < b {
        a
    } else {
        b
    }
}

/// The reads follow one another from `start` to `cursor`: the first is made
/// at `start`, each brings at least one byte and no more than it asked for,
/// the next is made at the address after the last byte it brought, and the
/// last byte that the last one brought lies before `cursor`.
pub open spec fn tiles(start: int, cursor: int, reads: Seq<ChunkRead>) -> bool
    decreases reads.len(),
{
    if reads.len() == 0 {
        cursor == start
    } else {
        let last = reads.last();
        &&& 0 < last.len <= last.want <= last.data.len() <= usize::MAX
        &&& last.cursor + last.len == cursor
        &&& tiles(start, last.cursor as int, reads.drop_last())
    }
}

/// Each read asked for a chunk, or for what was left up to `end` if that was
/// less.
pub open spec fn asks(end: int, chunk: int, reads: Seq<ChunkRead>) -> bool {
    forall|k: int|
        0 <= k < reads.len() ==> (#[trigger] reads[k]).want == least(chunk, end - reads[k].cursor)
}

/// The reader went through these states by these reads: each read took it
/// from one state to the next, and what the read brought is an answer of the
/// reader to what it asked for.
pub open spec fn answered<M: MemoryReader>(states: Seq<M>, reads: Seq<ChunkRead>) -> bool {
    &&& states.len() == reads.len() + 1
    &&& forall|k: int|
        0 <= k < reads.len() ==> states[k].may_answer(
            states[k + 1],
            (#[trigger] reads[k]).cursor,
            reads[k].want as nat,
            Ok(brought(reads[k])),
        )
}

/// What was found in the bytes that each read brought is what the rule may
/// find in them.
pub open spec fn searched<R: SearchRule>(rule: R, reads: Seq<ChunkRead>) -> bool {
    forall|k: int|
        0 <= k < reads.len() ==> rule.may_find(
            (#[trigger] reads[k]).data,
            reads[k].len as int,
            reads[k].found,
        )
}

/// A scan of the addresses from `start` to `end` made the reads `reads`, and
/// no others, with a reader that was `before`, went through `states` and is
/// `after`; it came to the address `at` and ended with `r`. It ended well at
/// the end of the range (or where it started, if the range is empty), or it
/// ended with the error of one more read, at `at`, which the reader answered
/// with nothing or with an error.
pub open spec fn scanned<M: MemoryReader, R: SearchRule>(
    before: M,
    states: Seq<M>,
    after: M,
    rule: R,
    start: int,
    end: int,
    chunk: int,
    reads: Seq<ChunkRead>,
    at: int,
    r: Result<(), SearchError>,
) -> bool {
    &&& tiles(start, at, reads)
    &&& asks(end, chunk, reads)
    &&& answered(states, reads)
    &&& states[0] == before
    &&& searched(rule, reads)
    &&& match r {
        Ok(_) => after == states[reads.len() as int] && at == if start < end {
            end
        } else {
            start
        },
        Err(SearchError::ScanNoProgress { address }) => address == at && at < end
            && states[reads.len() as int].may_answer(
            after,
            at as usize,
            least(chunk, end - at) as nat,
            Ok(Seq::empty()),
        ),
        Err(SearchError::ReadError(e)) => at < end && states[reads.len() as int].may_answer(
            after,
            at as usize,
            least(chunk, end - at) as nat,
            Err(e),
        ),
    }
}

/// The offsets, each moved up by `by`.
pub open spec fn shifted(offsets: Seq<usize>, by: int) -> Seq<usize> {
    Seq::new(offsets.len(), |k: int| (offsets[k] + by) as usize)
}

/// The addresses of the matches found in what the reads brought: for each
/// read in turn, its matches, each at the address of the read plus its offset
/// in the buffer.
pub open spec fn found_in(reads: Seq<ChunkRead>) -> Seq<usize>
    decreases reads.len(),
{
    if reads.len() == 0 {
        Seq::empty()
    } else {
        let last = reads.last();
        found_in(reads.drop_last()) + shifted(last.found, last.cursor as int)
    }
}

/// Appends to `out` the addresses of the matches of `rule` in the first `len`
/// bytes of `data`, which were read at the address `cursor`, and returns
/// their number.
pub fn scan_chunk<R: SearchRule>(
    rule: R,
    data: &[u8],
    len: usize,
    cursor: usize,
    out: &mut Vec<usize>,
) -> (n: usize)
    requires
        len <= data@.len(),
        cursor + len <= usize::MAX,
    ensures
        exists|offsets: Seq<usize>| #[trigger]
            rule.may_find(data@, len as int, offsets) && offsets.len() == n && final(out)@ == old(
                out,
            )@ + shifted(offsets, cursor as int),
{
    let offsets = rule.search(data, len);
    let ghost wanted = shifted(offsets@, cursor as int);
    let mut k: usize = 0;
    while k < offsets.len()
        invariant
            k <= offsets.len(),
            cursor + len <= usize::MAX,
            wanted == shifted(offsets@, cursor as int),
            forall|j: int| 0 <= j < offsets@.len() ==> (#[trigger] offsets@[j]) < len,
            out@ == old(out)@ + wanted.subrange(0, k as int),
        decreases offsets.len() - k,
    {
        out.push(cursor + offsets[k]);
        proof {
            assert(wanted.subrange(0, k + 1) =~= wanted.subrange(0, k as int).push(wanted[k as int]));
        }
        k += 1;
    }
    proof {
        assert(wanted.subrange(0, offsets@.len() as int) =~= wanted);
        assert(rule.may_find(data@, len as int, offsets@));
    }
    offsets.len()
}

/// Reads the addresses from `start` to `end` in chunks of at most as many
/// bytes as `chunk` has, and appends to `out` the addresses of the matches of
/// `rule` in what each read brings. The next read is made where the last one
/// stopped. A read that fails ends the scan with `ReadError`, a read that
/// brings no byte ends it with `ScanNoProgress`; `out` then holds the matches
/// of the reads before it. See [`scanned`].
pub fn scan_range<M: MemoryReader, R: SearchRule>(
    reader: &mut M,
    rule: R,
    start: usize,
    end: usize,
    chunk: &mut Vec<u8>,
    out: &mut Vec<usize>,
) -> (r: Result<(), SearchError>)
    ensures
        final(chunk)@.len() == old(chunk)@.len(),
        start >= end ==> r is Ok && final(out)@ == old(out)@ && *final(reader) == *old(reader),
        exists|reads: Seq<ChunkRead>, states: Seq<M>, at: int| #[trigger]
            scanned(
                *old(reader),
                states,
                *final(reader),
                rule,
                start as int,
                end as int,
                old(chunk)@.len() as int,
                reads,
                at,
                r,
            ) && final(out)@ == old(out)@ + found_in(reads),
{
    let size: usize = chunk.len();
    let mut cursor: usize = start;
    let ghost mut reads: Seq<ChunkRead> = Seq::empty();
    let ghost mut states: Seq<M> = seq![*reader];
    while cursor < end
        invariant
            start <= cursor,
            cursor <= end || cursor == start,
            chunk@.len() == size,
            size == old(chunk)@.len(),
            tiles(start as int, cursor as int, reads),
            asks(end as int, size as int, reads),
            answered(states, reads),
            states[0] == *old(reader),
            states[reads.len() as int] == *reader,
            searched(rule, reads),
            out@ == old(out)@ + found_in(reads),
            start >= end ==> out@ == old(out)@ && *reader == *old(reader),
        decreases end - cursor,
    {
        let left: usize = end - cursor;
        let want: usize = if left < size {
            left
        } else {
            size
        };
        let ghost asked = *reader;
        let (head, _) = chunk.as_mut_slice().split_at_mut(want);
        let answer = reader.readbuf(cursor, head);
        proof {
            assert(asked.may_answer(*reader, cursor, want as nat, read_answer(answer, head@)));
        }
        match answer {
            Err(e) => {
                proof {
                    assert(scanned(
                        *old(reader),
                        states,
                        *reader,
                        rule,
                        start as int,
                        end as int,
                        size as int,
                        reads,
                        cursor as int,
                        Err(SearchError::ReadError(e)),
                    ));
                }
                return Err(SearchError::ReadError(e));
            },
            Ok(n) => {
                if n == 0 {
                    proof {
                        assert(head@.subrange(0, 0) =~= Seq::<u8>::empty());
                        assert(scanned(
                            *old(reader),
                            states,
                            *reader,
                            rule,
                            start as int,
                            end as int,
                            size as int,
                            reads,
                            cursor as int,
                            Err(SearchError::ScanNoProgress { address: cursor }),
                        ));
                    }
                    return Err(SearchError::ScanNoProgress { address: cursor });
                }
                let ghost before = reads;
                let ghost before_states = states;
                let ghost held = out@;
                scan_chunk(rule, chunk.as_slice(), n, cursor, out);
                proof {
                    let found = choose|offsets: Seq<usize>| #[trigger]
                        rule.may_find(chunk@, n as int, offsets) && out@ == held + shifted(
                            offsets,
                            cursor as int,
                        );
                    let read = ChunkRead { cursor, want, data: chunk@, len: n, found };
                    reads = reads.push(read);
                    states = states.push(*reader);
                    assert(reads.drop_last() =~= before);
                    assert(brought(read) =~= head@.subrange(0, n as int));
                    assert forall|k: int| 0 <= k < reads.len() implies rule.may_find(
                        (#[trigger] reads[k]).data,
                        reads[k].len as int,
                        reads[k].found,
                    ) by {
                        if k < before.len() {
                            assert(reads[k] == before[k]);
                        }
                    }
                    assert forall|k: int| 0 <= k < reads.len() implies (#[trigger] reads[k]).want
                        == least(size as int, end - reads[k].cursor) by {
                        if k < before.len() {
                            assert(reads[k] == before[k]);
                        }
                    }
                    assert forall|k: int| 0 <= k < reads.len() implies states[k].may_answer(
                        states[k + 1],
                        (#[trigger] reads[k]).cursor,
                        reads[k].want as nat,
                        Ok(brought(reads[k])),
                    ) by {
                        if k < before.len() {
                            assert(reads[k] == before[k]);
                            assert(states[k] == before_states[k]);
                            assert(states[k + 1] == before_states[k + 1]);
                        }
                    }
                    assert(out@ =~= old(out)@ + found_in(reads));
                }
                cursor += n;
            },
        }
    }
    proof {
        assert(scanned(
            *old(reader),
            states,
            *reader,
            rule,
            start as int,
            end as int,
            size as int,
            reads,
            cursor as int,
            Ok(()),
        ));
    }
    Ok(())
}

/// Where the scan of a range ends when nothing goes wrong: at the end of the
/// range, or where it starts if the range is empty.
pub open spec fn range_end(range: (usize, usize)) -> int {
    if range.0 < range.1 {
        range.1 as int
    } else {
        range.0 as int
    }
}

/// Where the scan of the range with the index `k` stopped, in a scan of
/// ranges that came to `count` of them and ended with `r` at the address
/// `at`: at the end of the range, unless it is the last one and the scan
/// ended there with an error.
pub open spec fn stop_of(
    ranges: Seq<(usize, usize)>,
    count: int,
    at: int,
    r: Result<(), SearchError>,
    k: int,
) -> int {
    if k < count - 1 || r is Ok {
        range_end(ranges[k])
    } else {
        at
    }
}

/// The state of the reader before the scan of the range with the index `k`:
/// where the reader started, for the first range, and else the first state of
/// the range.
pub open spec fn state_before<M: MemoryReader>(before: M, paths: Seq<Seq<M>>, k: int) -> M {
    if k == 0 {
        before
    } else {
        paths[k][0]
    }
}

/// The state of the reader after the scan of the range with the index `k`:
/// where the reader ended, for the last range that the scan came to, and
/// else its state before the next range.
pub open spec fn state_after<M: MemoryReader>(paths: Seq<Seq<M>>, after: M, k: int) -> M {
    if k == paths.len() - 1 {
        after
    } else {
        paths[k + 1][0]
    }
}

/// The outcome of the scan of the range with the index `k`, in a scan of
/// ranges that came to `count` of them and ended with `r`.
pub open spec fn outcome_of(count: int, r: Result<(), SearchError>, k: int) -> Result<
    (),
    SearchError,
> {
    if k < count - 1 {
        Ok(())
    } else {
        r
    }
}

/// A scan of the ranges in turn, with a reader that was `before` and is
/// `after`, made the reads `traces`, those of each range it came to, and no
/// others, took the reader through the states `paths`, and ended with `r`:
/// well, after the last range, or with an error at the address `at` in the
/// last range it came to. Every range before that one was scanned to its end.
pub open spec fn walked<M: MemoryReader, R: SearchRule>(
    before: M,
    after: M,
    rule: R,
    ranges: Seq<(usize, usize)>,
    chunk: int,
    traces: Seq<Seq<ChunkRead>>,
    paths: Seq<Seq<M>>,
    at: int,
    r: Result<(), SearchError>,
) -> bool {
    &&& traces.len() <= ranges.len()
    &&& paths.len() == traces.len()
    &&& r is Ok ==> traces.len() == ranges.len()
    &&& r is Err ==> traces.len() > 0
    &&& traces.len() == 0 ==> after == before
    &&& forall|k: int|
        0 <= k < traces.len() ==> scanned(
            state_before(before, paths, k),
            paths[k],
            state_after(paths, after, k),
            rule,
            ranges[k].0 as int,
            ranges[k].1 as int,
            chunk,
            #[trigger] traces[k],
            stop_of(ranges, traces.len() as int, at, r, k),
            outcome_of(traces.len() as int, r, k),
        )
}

/// The addresses of the matches found in what the reads of each range
/// brought, range after range.
pub open spec fn found_all(traces: Seq<Seq<ChunkRead>>) -> Seq<usize>
    decreases traces.len(),
{
    if traces.len() == 0 {
        Seq::empty()
    } else {
        found_all(traces.drop_last()) + found_in(traces.last())
    }
}

/// Scans the ranges in turn, each as [`scan_range`] does, with a buffer of
/// `chunk_size` bytes, and appends the addresses of the matches to `out`. The
/// first error ends the scan; `out` then holds the matches found before it.
/// See [`walked`].
pub fn scan_ranges<M: MemoryReader, R: SearchRule>(
    reader: &mut M,
    rule: R,
    ranges: &Vec<(usize, usize)>,
    chunk_size: usize,
    out: &mut Vec<usize>,
) -> (r: Result<(), SearchError>)
    ensures
        exists|traces: Seq<Seq<ChunkRead>>, paths: Seq<Seq<M>>, at: int| #[trigger]
            walked(
                *old(reader),
                *final(reader),
                rule,
                ranges@,
                chunk_size as int,
                traces,
                paths,
                at,
                r,
            ) && final(out)@ == old(out)@ + found_all(traces),
{
    let mut chunk: Vec<u8> = vec![0u8; chunk_size];
    let ghost mut traces: Seq<Seq<ChunkRead>> = Seq::empty();
    let ghost mut paths: Seq<Seq<M>> = Seq::empty();
    let mut i: usize = 0;
    while i < ranges.len()
        invariant
            i <= ranges.len(),
            chunk@.len() == chunk_size,
            traces.len() == i,
            paths.len() == i,
            i == 0 ==> *reader == *old(reader),
            forall|k: int|
                0 <= k < i ==> scanned(
                    state_before(*old(reader), paths, k),
                    paths[k],
                    state_after(paths, *reader, k),
                    rule,
                    ranges@[k].0 as int,
                    ranges@[k].1 as int,
                    chunk_size as int,
                    #[trigger] traces[k],
                    range_end(ranges@[k]),
                    Ok(()),
                ),
            out@ == old(out)@ + found_all(traces),
        decreases ranges.len() - i,
    {
        let (start, end) = ranges[i];
        let ghost before = traces;
        let ghost before_paths = paths;
        let ghost found_before = out@;
        let ghost asked = *reader;
        let r = scan_range(reader, rule, start, end, &mut chunk, out);
        let ghost mut at: int = 0;
        proof {
            let (reads, states, stop) = choose|reads: Seq<ChunkRead>, states: Seq<M>, stop: int|
                #[trigger] scanned(
                    asked,
                    states,
                    *reader,
                    rule,
                    start as int,
                    end as int,
                    chunk_size as int,
                    reads,
                    stop,
                    r,
                ) && out@ == found_before + found_in(reads);
            traces = traces.push(reads);
            paths = paths.push(states);
            at = stop;
            assert(traces.drop_last() =~= before);
            assert(traces[i as int] == reads);
            assert(paths[i as int] == states);
            assert(out@ =~= old(out)@ + found_all(traces));
            assert forall|k: int| 0 <= k < i + 1 implies scanned(
                state_before(*old(reader), paths, k),
                paths[k],
                state_after(paths, *reader, k),
                rule,
                ranges@[k].0 as int,
                ranges@[k].1 as int,
                chunk_size as int,
                #[trigger] traces[k],
                if k < i {
                    range_end(ranges@[k])
                } else {
                    stop
                },
                if k < i {
                    Ok(())
                } else {
                    r
                },
            ) by {
                if k < i {
                    assert(traces[k] == before[k]);
                    assert(paths[k] == before_paths[k]);
                    assert(state_before(*old(reader), paths, k) == state_before(
                        *old(reader),
                        before_paths,
                        k,
                    ));
                    assert(state_after(paths, *reader, k) == state_after(before_paths, asked, k));
                    assert(scanned(
                        state_before(*old(reader), before_paths, k),
                        before_paths[k],
                        state_after(before_paths, asked, k),
                        rule,
                        ranges@[k].0 as int,
                        ranges@[k].1 as int,
                        chunk_size as int,
                        before[k],
                        range_end(ranges@[k]),
                        Ok(()),
                    ));
                } else {
                    assert(state_before(*old(reader), paths, k) == asked);
                }
            }
        }
        match r {
            Err(e) => {
                proof {
                    assert(walked(
                        *old(reader),
                        *reader,
                        rule,
                        ranges@,
                        chunk_size as int,
                        traces,
                        paths,
                        at,
                        Err(e),
                    ));
                }
                return Err(e);
            },
            Ok(unit) => {
                proof {
                    assert(unit == ());
                }
            },
        }
        i += 1;
    }
    proof {
        assert(walked(
            *old(reader),
            *reader,
            rule,
            ranges@,
            chunk_size as int,
            traces,
            paths,
            0,
            Ok(()),
        ));
    }
    Ok(())
}

/// The ranges of addresses of the regions.
pub open spec fn region_ranges(regions: Seq<MapRange>) -> Seq<(usize, usize)> {
    Seq::new(regions.len(), |i: int| regions[i].address)
}

/// Those of the ranges that were picked, in their order.
pub open spec fn picked(ranges: Seq<(usize, usize)>, picks: Seq<bool>) -> Seq<(usize, usize)>
    decreases ranges.len(),
{
    if ranges.len() == 0 || picks.len() != ranges.len() {
        Seq::empty()
    } else if picks.last() {
        picked(ranges.drop_last(), picks.drop_last()).push(ranges.last())
    } else {
        picked(ranges.drop_last(), picks.drop_last())
    }
}

/// `picks` says of each region what the filter said of it; without a filter
/// every region is picked.
pub open spec fn filter_said<F: Fn(&MapRange) -> bool>(
    filter: Option<F>,
    regions: Seq<MapRange>,
    picks: Seq<bool>,
) -> bool {
    &&& picks.len() == regions.len()
    &&& forall|i: int|
        0 <= i < regions.len() ==> match filter {
            Some(f) => call_ensures(f, (&regions[i],), #[trigger] picks[i]),
            None => picks[i],
        }
}

/// The ranges of addresses of the regions that pass the filter, or of all
/// regions if there is none, in the order of the regions.
pub fn select<F: Fn(&MapRange) -> bool>(regions: &Vec<MapRange>, filter: &Option<F>) -> (r: Vec<
    (usize, usize),
>)
    requires
        filter matches Some(f) ==> forall|m: &MapRange| call_requires(f, (m,)),
    ensures
        exists|picks: Seq<bool>| #[trigger]
            filter_said(*filter, regions@, picks) && r@ == picked(region_ranges(regions@), picks),
{
    let mut ranges: Vec<(usize, usize)> = Vec::new();
    let ghost mut picks: Seq<bool> = Seq::empty();
    let mut i: usize = 0;
    while i < regions.len()
        invariant
            i <= regions.len(),
            filter matches Some(f) ==> forall|m: &MapRange| call_requires(f, (m,)),
            picks.len() == i,
            forall|k: int|
                0 <= k < i ==> match *filter {
                    Some(f) => call_ensures(f, (&regions@[k],), #[trigger] picks[k]),
                    None => picks[k],
                },
            ranges@ == picked(region_ranges(regions@).subrange(0, i as int), picks),
        decreases regions.len() - i,
    {
        let region = &regions[i];
        let pick: bool = match filter {
            Some(f) => f(region),
            None => true,
        };
        proof {
            let before = picks;
            picks = picks.push(pick);
            let all = region_ranges(regions@);
            assert(picks.drop_last() =~= before);
            assert(all.subrange(0, i + 1).drop_last() =~= all.subrange(0, i as int));
            assert(all.subrange(0, i + 1).last() == region.address);
        }
        if pick {
            ranges.push((region.address.0, region.address.1));
        }
        i += 1;
    }
    proof {
        let all = region_ranges(regions@);
        assert(all.subrange(0, regions@.len() as int) =~= all);
        assert(filter_said(*filter, regions@, picks));
    }
    ranges
}

/// How a search that gave `r` ended.
pub open spec fn ending(r: Result<Vec<usize>, SearchError>) -> Result<(), SearchError> {
    match r {
        Ok(_) => Ok(()),
        Err(e) => Err(e),
    }
}

/// `r` is how a search of the regions ended, with a reader that was
/// `before` and is `after`: the filter was asked about each region, the
/// ranges of those it let pass were scanned in turn, see [`walked`], and `r`
/// holds the addresses of the matches in what was read, or the error that
/// ended the scan.
pub open spec fn search_outcome<M: MemoryReader, R: SearchRule, F: Fn(&MapRange) -> bool>(
    before: M,
    after: M,
    regions: Seq<MapRange>,
    filter: Option<F>,
    rule: R,
    chunk: int,
    r: Result<Vec<usize>, SearchError>,
) -> bool {
    exists|picks: Seq<bool>, traces: Seq<Seq<ChunkRead>>, paths: Seq<Seq<M>>, at: int|
        {
            &&& #[trigger] filter_said(filter, regions, picks)
            &&& #[trigger] walked(
                before,
                after,
                rule,
                picked(region_ranges(regions), picks),
                chunk,
                traces,
                paths,
                at,
                ending(r),
            )
            &&& r matches Ok(found) ==> found@ == found_all(traces)
        }
}

/// Searches the regions that pass the filter, or all regions if there is none,
/// for the matches of `rule`, reading from `reader` at most `chunk_size` bytes
/// at a time, and returns their addresses. See [`search_outcome`].
pub fn search_regions<M: MemoryReader, R: SearchRule, F: Fn(&MapRange) -> bool>(
    reader: &mut M,
    regions: &Vec<MapRange>,
    rule: R,
    filter: Option<F>,
    chunk_size: usize,
) -> (r: Result<Vec<usize>, SearchError>)
    requires
        filter matches Some(f) ==> forall|m: &MapRange| call_requires(f, (m,)),
    ensures
        search_outcome(*old(reader), *final(reader), regions@, filter, rule, chunk_size as int, r),
{
    let ranges = select(regions, &filter);
    let mut out: Vec<usize> = Vec::new();
    let ended = scan_ranges(reader, rule, &ranges, chunk_size, &mut out);
    proof {
        let picks = choose|picks: Seq<bool>| #[trigger]
            filter_said(filter, regions@, picks) && ranges@ == picked(
                region_ranges(regions@),
                picks,
            );
        let (traces, paths, at) = choose|
            traces: Seq<Seq<ChunkRead>>,
            paths: Seq<Seq<M>>,
            at: int,
        | #[trigger]
            walked(
                *old(reader),
                *reader,
                rule,
                ranges@,
                chunk_size as int,
                traces,
                paths,
                at,
                ended,
            ) && out@ == Seq::<usize>::empty() + found_all(traces);
        assert(out@ =~= found_all(traces));
        assert(filter_said(filter, regions@, picks));
        assert(walked(
            *old(reader),
            *reader,
            rule,
            picked(region_ranges(regions@), picks),
            chunk_size as int,
            traces,
            paths,
            at,
            ended,
        ));
        if let Ok(unit) = ended {
            assert(unit == ());
            assert(ended == Ok::<(), SearchError>(()));
        }
        assert(ended is Ok ==> ending(Ok::<Vec<usize>, SearchError>(out)) == ended);
        assert(ended matches Err(e) ==> ending(Err::<Vec<usize>, SearchError>(e)) == ended);
    }
    match ended {
        Ok(_) => Ok(out),
        Err(e) => Err(e),
    }
}

} // verus!
