//! A scan in chunks finds what a search of the whole range finds, where the
//! reads bring the bytes of a memory and the chunks hold whole elements.

use vstd::prelude::*;
use crate::memory::{memory_bytes, reads_memory, MemoryError, MemoryReader};
use crate::searcher::order::lemma_tiles_reach;
use crate::searcher::walk::{
    answered, brought, found_in, scanned, searched, shifted, tiles, ChunkRead,
};
use crate::searcher::{
    element_at, element_count, lemma_count, lemma_offsets_rise, lemma_step, match_offsets,
    offsets_upto, SearchError, SearchRule, SearchType,
};
use crate::value::Element;

verus! {

/// Each read but the last brought whole elements of `width` bytes.
pub open spec fn whole_elements(reads: Seq<ChunkRead>, width: int) -> bool {
    forall|k: int| 0 <= k < reads.len() - 1 ==> (#[trigger] reads[k]).len as int % width == 0
}

/// The matches among the first elements of a buffer depend on the bytes of
/// these elements alone.
proof fn lemma_offsets_local<T: Element>(rule: SearchType<T>, a: Seq<u8>, b: Seq<u8>, count: nat)
    requires
        count * T::width() <= a.len(),
        count * T::width() <= b.len(),
        forall|i: int| 0 <= i < count * T::width() ==> a[i] == b[i],
    ensures
        offsets_upto(rule, a, count) == offsets_upto(rule, b, count),
    decreases count,
{
    if count > 0 {
        let w = T::width() as int;
        T::lemma_width();
        lemma_step(count - 1, count as int, w);
        lemma_offsets_local(rule, a, b, (count - 1) as nat);
        assert(element_at(a, count - 1, T::width()) =~= element_at(b, count - 1, T::width()));
    }
}

/// The matches in two buffers, one after the other, where the first holds
/// whole elements, are the matches in the first and then those in the second,
/// further on by the length of the first.
proof fn lemma_offsets_joined<T: Element>(
    rule: SearchType<T>,
    a: Seq<u8>,
    b: Seq<u8>,
    ca: nat,
    cb: nat,
)
    requires
        a.len() == ca * T::width(),
        cb * T::width() <= b.len(),
        a.len() + b.len() <= usize::MAX,
    ensures
        offsets_upto(rule, a + b, ca + cb) == offsets_upto(rule, a, ca) + shifted(
            offsets_upto(rule, b, cb),
            a.len() as int,
        ),
    decreases cb,
{
    let w = T::width() as int;
    T::lemma_width();
    if cb == 0 {
        lemma_offsets_local(rule, a + b, a, ca);
        assert(offsets_upto(rule, a, ca) + shifted(offsets_upto(rule, b, 0), a.len() as int)
            =~= offsets_upto(rule, a, ca));
    } else {
        let i = cb - 1;
        lemma_step(i, cb as int, w);
        lemma_offsets_joined(rule, a, b, ca, i as nat);
        assert((ca + i) * w == ca * w + i * w) by (nonlinear_arith);
        assert(element_at(a + b, ca + i, T::width()) =~= element_at(b, i, T::width()));
        let left = offsets_upto(rule, a, ca);
        let before = offsets_upto(rule, b, i as nat);
        let all = offsets_upto(rule, b, cb);
        assert((ca + cb - 1) as nat == ca + i);
        if rule.accepts(element_at(b, i, T::width())) {
            assert(all == before.push((i * w) as usize));
            assert(shifted(all, a.len() as int) =~= shifted(before, a.len() as int).push(
                ((ca + i) * w) as usize,
            ));
            assert(left + shifted(all, a.len() as int) =~= (left + shifted(
                before,
                a.len() as int,
            )).push(((ca + i) * w) as usize));
        }
    }
}

/// Reads that bring whole elements have come a whole number of elements
/// forward.
proof fn lemma_whole_progress(start: int, at: int, reads: Seq<ChunkRead>, width: int)
    requires
        width > 0,
        tiles(start, at, reads),
        forall|k: int| 0 <= k < reads.len() ==> (#[trigger] reads[k]).len as int % width == 0,
    ensures
        (at - start) % width == 0,
        start <= at,
    decreases reads.len(),
{
    if reads.len() > 0 {
        let head = reads.drop_last();
        let last = reads.last();
        assert forall|k: int| 0 <= k < head.len() implies (#[trigger] head[k]).len as int % width
            == 0 by {
            assert(head[k] == reads[k]);
        }
        lemma_whole_progress(start, last.cursor as int, head, width);
        vstd::arithmetic::div_mod::lemma_add_mod_noop(
            last.cursor - start,
            last.len as int,
            width,
        );
        vstd::arithmetic::div_mod::lemma_small_mod(0, width as nat);
        assert(reads[reads.len() - 1].len as int % width == 0);
        assert(at - start == (last.cursor - start) + last.len);
    } else {
        vstd::arithmetic::div_mod::lemma_small_mod(0, width as nat);
    }
}

/// Moving offsets up twice is moving them up once by the sum.
proof fn lemma_shifted_twice(offsets: Seq<usize>, a: int, b: int)
    requires
        0 <= a,
        0 <= b,
        forall|k: int| 0 <= k < offsets.len() ==> (#[trigger] offsets[k]) + a + b <= usize::MAX,
    ensures
        shifted(shifted(offsets, a), b) == shifted(offsets, a + b),
{
    assert(shifted(shifted(offsets, a), b) =~= shifted(offsets, a + b));
}

/// Moving up offsets that follow one another is moving up each part.
proof fn lemma_shifted_joined(x: Seq<usize>, y: Seq<usize>, by: int)
    ensures
        shifted(x + y, by) == shifted(x, by) + shifted(y, by),
{
    assert(shifted(x + y, by) =~= shifted(x, by) + shifted(y, by));
}

/// Where the reads bring the bytes of a memory, and each read but the last
/// brings whole elements, a scan that has come from `start` to `at` has
/// found the matches of the condition in the bytes of the memory from `start`
/// to `at`, taken as one buffer, each at its address.
pub proof fn lemma_scan_is_search<M: MemoryReader, T: Element>(
    states: Seq<M>,
    rule: SearchType<T>,
    mem: spec_fn(int) -> u8,
    start: int,
    at: int,
    reads: Seq<ChunkRead>,
)
    requires
        reads_memory::<M>(mem),
        0 <= start,
        at <= usize::MAX,
        tiles(start, at, reads),
        answered(states, reads),
        searched(rule, reads),
        whole_elements(reads, T::width() as int),
    ensures
        found_in(reads) == shifted(
            match_offsets(rule, memory_bytes(mem, start, at), at - start),
            start,
        ),
    decreases reads.len(),
{
    let w = T::width() as int;
    T::lemma_width();
    lemma_tiles_reach(start, at, reads);
    if reads.len() == 0 {
        assert(match_offsets(rule, memory_bytes(mem, start, at), at - start) =~= Seq::<
            usize,
        >::empty());
        assert(found_in(reads) =~= shifted(Seq::<usize>::empty(), start));
    } else {
        let head = reads.drop_last();
        let last = reads.last();
        let c = last.cursor as int;
        let path = states.drop_last();
        assert forall|k: int| 0 <= k < head.len() implies (#[trigger] head[k]).len as int % w == 0
            && path[k].may_answer(
            path[k + 1],
            head[k].cursor,
            head[k].want as nat,
            Ok(brought(head[k])),
        ) && rule.may_find(head[k].data, head[k].len as int, head[k].found) by {
            assert(head[k] == reads[k]);
            assert(path[k] == states[k] && path[k + 1] == states[k + 1]);
        }
        lemma_tiles_reach(start, c, head);
        lemma_whole_progress(start, c, head, w);
        lemma_scan_is_search(path, rule, mem, start, c, head);
        let a = memory_bytes(mem, start, c);
        let b = memory_bytes(mem, c, at);
        let whole = memory_bytes(mem, start, at);
        assert(whole =~= a + b);
        assert(states[reads.len() - 1].may_answer(
            states[reads.len() as int],
            last.cursor,
            last.want as nat,
            Ok(brought(last)),
        ));
        assert(brought(last) == b);
        assert(rule.may_find(last.data, last.len as int, last.found));
        let ca = ((c - start) / w) as nat;
        let cb = (last.len as int / w) as nat;
        vstd::arithmetic::div_mod::lemma_fundamental_div_mod(c - start, w);
        assert(ca * w == w * ca) by (nonlinear_arith);
        assert(a.len() == ca * w);
        lemma_count(last.len as int, w);
        assert(element_count(last.data.len() as int, last.len as int, T::width()) == cb);
        assert(element_count(b.len() as int, last.len as int, T::width()) == cb);
        lemma_offsets_local(rule, last.data, b, cb);
        assert(last.found == offsets_upto(rule, b, cb));
        assert(element_count(a.len() as int, c - start, T::width()) == ca);
        assert((at - start) / w == ca + cb) by {
            vstd::arithmetic::div_mod::lemma_fundamental_div_mod(last.len as int, w);
            vstd::arithmetic::div_mod::lemma_fundamental_div_mod(at - start, w);
            lemma_div_of_sum(ca as int, last.len as int, w);
        }
        assert(element_count(whole.len() as int, at - start, T::width()) == ca + cb);
        lemma_offsets_joined(rule, a, b, ca, cb);
        let left = offsets_upto(rule, a, ca);
        let right = offsets_upto(rule, b, cb);
        lemma_shifted_joined(left, shifted(right, a.len() as int), start);
        lemma_offsets_rise(rule, b, cb);
        lemma_shifted_twice(right, a.len() as int, start);
        assert(a.len() + start == c);
    }
}

/// Dividing a whole number of parts and a rest gives the parts and what the
/// rest divides into.
proof fn lemma_div_of_sum(q: int, r: int, w: int)
    requires
        0 <= q,
        0 <= r,
        0 < w,
    ensures
        (q * w + r) / w == q + r / w,
{
    vstd::arithmetic::div_mod::lemma_fundamental_div_mod(r, w);
    let x = q * w + r;
    assert(x == w * (q + r / w) + r % w) by (nonlinear_arith)
        requires
            x == q * w + r,
            r == w * (r / w) + r % w,
    ;
    vstd::arithmetic::div_mod::lemma_fundamental_div_mod_converse(x, w, q + r / w, r % w);
}

/// Where the reads bring the bytes of a memory, and each read but the last
/// brings whole elements, a scan of a range that ended well has found the
/// addresses of the matches of the condition in the bytes of the range:
/// those of the elements that lie one after the other from the start of the
/// range and meet the condition, in rising order.
pub proof fn lemma_scan_finds_matches<M: MemoryReader, T: Element>(
    before: M,
    states: Seq<M>,
    after: M,
    rule: SearchType<T>,
    mem: spec_fn(int) -> u8,
    start: usize,
    end: usize,
    chunk: int,
    reads: Seq<ChunkRead>,
    at: int,
)
    requires
        reads_memory::<M>(mem),
        start <= end,
        scanned(before, states, after, rule, start as int, end as int, chunk, reads, at, Ok(())),
        whole_elements(reads, T::width() as int),
    ensures
        found_in(reads) == shifted(
            match_offsets(rule, memory_bytes(mem, start as int, end as int), end - start),
            start as int,
        ),
{
    lemma_scan_is_search(states, rule, mem, start as int, end as int, reads);
}

} // verus!
