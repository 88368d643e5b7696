//! Searching memory for values: the rules, the engine that applies a rule
//! to a buffer, and the walk over the regions of a process.

use vstd::prelude::*;
use crate::memory::MemoryError;
use crate::process::MapRange;
use crate::value::{decode, load_wide, Element};

pub mod order;
pub mod steady;
pub mod walk;
pub mod whole;

verus! {

/// Why a search ended early.
#[derive(Debug)]
pub enum SearchError {
    /// Memory could not be read.
    ReadError(MemoryError),
    /// A read at this address, of a range that is not empty, brought no byte.
    ScanNoProgress { address: usize },
}

/// A condition on a value of the type `T`.
#[derive(Debug, Copy)]
pub enum SearchType<T: Copy> {
    /// `Eq(a)`: the value is `a`.
    Eq(T),
    /// `Gt(a)`: the value is above `a`.
    Gt(T),
    /// `Ge(a)`: the value is `a` or above.
    Ge(T),
    /// `Lt(a)`: the value is below `a`.
    Lt(T),
    /// `Le(a)`: the value is `a` or below.
    Le(T),
    /// `Bte(a, b)`: the value lies in `[a, b]`.
    Bte(T, T),
    /// `Bter(a, b)`: the value lies in `[a, b)`.
    Bter(T, T),
    /// `Btel(a, b)`: the value lies in `(a, b]`.
    Btel(T, T),
}

impl<T: Copy> Clone for SearchType<T> {
    fn clone(&self) -> (r: SearchType<T>)
        ensures
            r == *self,
    {
        *self
    }
}

/// A rule that picks elements out of a buffer. The buffer is taken as
/// elements of one size that lie one after the other from its start.
pub trait SearchRule: Copy {
    /// The number of bytes of an element, or a lower bound of it: 1 for a
    /// rule that says nothing.
    open spec fn stride(&self) -> nat {
        1
    }

    /// Whether the rule may find the matches at `offsets` in `data[..len]`.
    /// A rule that says nothing may find anything.
    open spec fn may_find(&self, data: Seq<u8>, len: int, offsets: Seq<usize>) -> bool {
        true
    }

    /// The offsets of the matches of the rule in `data[..len]`. Each lies in
    /// `data[..len]`.
    fn search(self, data: &[u8], len: usize) -> (r: Vec<usize>)
        ensures
            self.may_find(data@, len as int, r@),
            forall|k: int| 0 <= k < r@.len() ==> (#[trigger] r@[k]) < len && r@[k] < data@.len(),
    ;
}

/// The offsets rise.
pub open spec fn is_rising(found: Seq<usize>) -> bool {
    forall|j: int, k: int| 0 <= j < k < found.len() ==> found[j] < found[k]
}

/// Every offset is that of an element of `stride` bytes that lies between
/// `low` and `high` with all its bytes.
pub open spec fn lies_within(found: Seq<usize>, low: int, high: int, stride: int) -> bool {
    forall|k: int| 0 <= k < found.len() ==> low <= #[trigger] found[k] && found[k] + stride <= high
}

/// Every offset is a multiple of `stride`.
pub open spec fn is_strided(found: Seq<usize>, stride: int) -> bool {
    forall|k: int| 0 <= k < found.len() ==> (#[trigger] found[k] as int) % stride == 0
}

/// The offsets of elements of `stride` bytes in the first `len` bytes of a
/// buffer of `size` bytes are in order: an element has at least one byte, and
/// the offsets rise, are multiples of the size of an element, and each is
/// that of an element that lies in the buffer, and in its first `len` bytes,
/// with all its bytes.
pub open spec fn in_order(offsets: Seq<usize>, size: int, len: int, stride: int) -> bool {
    &&& stride >= 1
    &&& is_rising(offsets)
    &&& is_strided(offsets, stride)
    &&& lies_within(offsets, 0, len, stride)
    &&& lies_within(offsets, 0, size, stride)
}

/// Whatever a rule may find, in whatever buffer, is in order.
pub open spec fn is_orderly<R: SearchRule>(rule: R) -> bool {
    forall|data: Seq<u8>, len: int, offsets: Seq<usize>|
        data.len() <= usize::MAX && #[trigger] rule.may_find(data, len, offsets) ==> in_order(
            offsets,
            data.len() as int,
            len,
            rule.stride() as int,
        )
}

/// The number of whole elements of `stride` bytes in the first `len` bytes of
/// a buffer of `size` bytes (in all of them, if it has fewer).
pub open spec fn element_count(size: int, len: int, stride: nat) -> nat {
    if len < 0 || stride == 0 {
        0
    } else if len < size {
        (len / stride as int) as nat
    } else {
        (size / stride as int) as nat
    }
}

/// The bytes of the element with the index `i`.
pub open spec fn element_at(data: Seq<u8>, i: int, stride: nat) -> Seq<u8> {
    data.subrange(i * stride, i * stride + stride)
}

/// The offsets of the matches among the first `count` elements of `data`, in
/// rising order.
pub open spec fn offsets_upto<T: Element>(rule: SearchType<T>, data: Seq<u8>, count: nat) -> Seq<
    usize,
>
    decreases count,
{
    if count == 0 {
        Seq::empty()
    } else {
        let before = offsets_upto(rule, data, (count - 1) as nat);
        if rule.accepts(element_at(data, count - 1, T::width())) {
            before.push(((count - 1) * T::width()) as usize)
        } else {
            before
        }
    }
}

/// The offsets of the matches of `rule` in `data[..len]`: the buffer is taken
/// as elements that lie one after the other from its start; what is left at
/// the end and is shorter than an element is not looked at. The offset of a
/// match is that of its first byte, and the offsets come in rising order.
pub open spec fn match_offsets<T: Element>(rule: SearchType<T>, data: Seq<u8>, len: int) -> Seq<
    usize,
> {
    offsets_upto(rule, data, element_count(data.len() as int, len, T::width()))
}

/// The offsets of the matches among the first `count` elements lie below the
/// end of these elements, an element's width or more below, and come in
/// rising order.
pub proof fn lemma_offsets_rise<T: Element>(rule: SearchType<T>, data: Seq<u8>, count: nat)
    requires
        count * T::width() <= usize::MAX,
    ensures
        forall|k: int|
            0 <= k < offsets_upto(rule, data, count).len() ==> (#[trigger] offsets_upto(
                rule,
                data,
                count,
            )[k]) + T::width() <= count * T::width(),
        forall|j: int, k: int|
            0 <= j < k < offsets_upto(rule, data, count).len() ==> offsets_upto(rule, data, count)[j]
                < offsets_upto(rule, data, count)[k],
    decreases count,
{
    let stride = T::width() as int;
    let all = offsets_upto(rule, data, count);
    T::lemma_width();
    if count > 0 {
        let before = offsets_upto(rule, data, (count - 1) as nat);
        let last = count - 1;
        lemma_step(last, count as int, stride);
        lemma_offsets_rise(rule, data, (count - 1) as nat);
        assert forall|k: int| 0 <= k < all.len() implies (#[trigger] all[k]) + stride <= count
            * stride by {
            if k < before.len() {
                assert(all[k] == before[k]);
            } else {
                assert(all[k] == (last * stride) as usize);
            }
        }
        assert forall|j: int, k: int| 0 <= j < k < all.len() implies all[j] < all[k] by {
            assert(all[j] == before[j]);
            if k < before.len() {
                assert(all[k] == before[k]);
            } else {
                assert(all[k] == (last * stride) as usize);
                assert(before[j] + stride <= last * stride);
            }
        }
    }
}

/// Every offset among the matches of the first `count` elements is that of
/// an element that is a match.
pub proof fn lemma_offsets_sound<T: Element>(rule: SearchType<T>, data: Seq<u8>, count: nat, k: int)
    requires
        count * T::width() <= usize::MAX,
        0 <= k < offsets_upto(rule, data, count).len(),
    ensures
        (offsets_upto(rule, data, count)[k] as int) % (T::width() as int) == 0,
        0 <= (offsets_upto(rule, data, count)[k] as int) / (T::width() as int) < count,
        rule.accepts(
            element_at(
                data,
                (offsets_upto(rule, data, count)[k] as int) / (T::width() as int),
                T::width(),
            ),
        ),
    decreases count,
{
    let stride = T::width() as int;
    let all = offsets_upto(rule, data, count);
    T::lemma_width();
    if count > 0 {
        let before = offsets_upto(rule, data, (count - 1) as nat);
        let last = count - 1;
        lemma_step(last, count as int, stride);
        if k < before.len() {
            assert(all[k] == before[k]);
            lemma_offsets_sound(rule, data, (count - 1) as nat, k);
        } else {
            assert(all[k] == (last * stride) as usize);
            vstd::arithmetic::div_mod::lemma_mod_multiples_basic(last, stride);
            vstd::arithmetic::div_mod::lemma_div_by_multiple(last, stride);
        }
    }
}

/// The offset of every match among the first `count` elements is among the
/// offsets.
pub proof fn lemma_offsets_complete<T: Element>(rule: SearchType<T>, data: Seq<u8>, count: nat, i: int)
    requires
        0 <= i < count,
        rule.accepts(element_at(data, i, T::width())),
    ensures
        offsets_upto(rule, data, count).contains((i * T::width()) as usize),
    decreases count,
{
    let all = offsets_upto(rule, data, count);
    let before = offsets_upto(rule, data, (count - 1) as nat);
    if i < count - 1 {
        lemma_offsets_complete(rule, data, (count - 1) as nat, i);
        let k = choose|k: int| 0 <= k < before.len() && before[k] == (i * T::width()) as usize;
        assert(all[k] == before[k]);
    } else {
        assert(all[all.len() - 1] == (i * T::width()) as usize);
    }
}

/// The first of the offsets that is `from` or above, if there is one.
pub open spec fn first_from(offsets: Seq<usize>, from: int) -> Option<usize>
    decreases offsets.len(),
{
    if offsets.len() == 0 {
        None
    } else if offsets[0] >= from {
        Some(offsets[0])
    } else {
        first_from(offsets.drop_first(), from)
    }
}

/// The first of the offsets that is `from` or above is one of them, and none
/// of them lies between `from` and it.
pub proof fn lemma_first_from(offsets: Seq<usize>, from: int)
    ensures
        match first_from(offsets, from) {
            Some(x) => offsets.contains(x) && x >= from && forall|k: int|
                0 <= k < offsets.len() && (#[trigger] offsets[k]) >= from ==> offsets[k] >= x
                    || exists|j: int| 0 <= j < k && #[trigger] offsets[j] >= from,
            None => forall|k: int| 0 <= k < offsets.len() ==> (#[trigger] offsets[k]) < from,
        },
    decreases offsets.len(),
{
    if offsets.len() > 0 {
        let rest = offsets.drop_first();
        if offsets[0] >= from {
            assert(offsets.contains(offsets[0]));
        } else {
            lemma_first_from(rest, from);
            match first_from(rest, from) {
                Some(x) => {
                    let i = choose|i: int| 0 <= i < rest.len() && rest[i] == x;
                    assert(offsets[i + 1] == x);
                    assert forall|k: int|
                        0 <= k < offsets.len() && (#[trigger] offsets[k]) >= from implies offsets[k]
                        >= x || exists|j: int| 0 <= j < k && #[trigger] offsets[j] >= from by {
                        assert(rest[k - 1] == offsets[k]);
                        if !(rest[k - 1] >= x) {
                            let j = choose|j: int| 0 <= j < k - 1 && #[trigger] rest[j] >= from;
                            assert(offsets[j + 1] >= from);
                        }
                    }
                },
                None => {
                    assert forall|k: int| 0 <= k < offsets.len() implies (#[trigger] offsets[k])
                        < from by {
                        if k > 0 {
                            assert(rest[k - 1] == offsets[k]);
                        }
                    }
                },
            }
        }
    }
}

impl<T: Element> SearchType<T> {
    /// Whether the number `v` meets the condition.
    pub open spec fn satisfied_by(self, v: int) -> bool {
        match self {
            SearchType::Eq(a) => v == a.value(),
            SearchType::Gt(a) => v > a.value(),
            SearchType::Ge(a) => v >= a.value(),
            SearchType::Lt(a) => v < a.value(),
            SearchType::Le(a) => v <= a.value(),
            SearchType::Bte(a, b) => a.value() <= v <= b.value(),
            SearchType::Bter(a, b) => a.value() <= v < b.value(),
            SearchType::Btel(a, b) => a.value() < v <= b.value(),
        }
    }

    /// Whether an element with these bytes is a match.
    pub open spec fn accepts(self, element: Seq<u8>) -> bool {
        self.satisfied_by(decode(element, T::signed()))
    }

    /// Whether the number `v` meets the condition.
    pub fn test(self, v: i128) -> (r: bool)
        ensures
            r == self.satisfied_by(v as int),
    {
        match self {
            SearchType::Eq(a) => v == a.to_wide(),
            SearchType::Gt(a) => v > a.to_wide(),
            SearchType::Ge(a) => v >= a.to_wide(),
            SearchType::Lt(a) => v < a.to_wide(),
            SearchType::Le(a) => v <= a.to_wide(),
            SearchType::Bte(a, b) => a.to_wide() <= v && v <= b.to_wide(),
            SearchType::Bter(a, b) => a.to_wide() <= v && v < b.to_wide(),
            SearchType::Btel(a, b) => a.to_wide() < v && v <= b.to_wide(),
        }
    }

    /// The offset of the first match in `data[..len]` that lies at the offset
    /// `from` or after it, if there is one. A caller that takes the matches
    /// one by one, each time from the end of the last one on, may stop where it
    /// likes.
    pub fn next_match(self, data: &[u8], len: usize, from: usize) -> (r: Option<usize>)
        ensures
            r == first_from(match_offsets(self, data@, len as int), from as int),
    {
        proof {
            T::lemma_width();
        }
        let size: usize = T::size();
        let signed: bool = T::is_signed();
        let usable: usize = if len < data.len() {
            len
        } else {
            data.len()
        };
        let count: usize = usable / size;
        let skipped: usize = from / size;
        let first: usize = if from % size == 0 {
            skipped
        } else {
            proof {
                lemma_count(from as int, size as int);
                assert(skipped < usize::MAX) by (nonlinear_arith)
                    requires
                        0 <= skipped * size <= from <= usize::MAX,
                        size >= 2,
                ;
            }
            skipped + 1
        };
        let ghost all = match_offsets(self, data@, len as int);
        proof {
            lemma_count(usable as int, size as int);
            lemma_count(from as int, size as int);
            assert(data@.len() == data.len());
            lemma_match_offsets(self, data@, len as int);
            lemma_first_from(all, from as int);
            vstd::arithmetic::div_mod::lemma_fundamental_div_mod(from as int, size as int);
            assert(skipped * size == size * skipped) by (nonlinear_arith);
        }
        if first >= count {
            proof {
                assert((skipped + 1) * size == skipped * size + size) by (nonlinear_arith);
                assert(count * size <= first * size) by (nonlinear_arith)
                    requires
                        count <= first,
                        0 < size,
                ;
                if let Some(x) = first_from(all, from as int) {
                    let k = choose|k: int| 0 <= k < all.len() && all[k] == x;
                    lemma_offsets_rise(self, data@, count as nat);
                    assert(all[k] + size <= count * size);
                }
            }
            return None;
        }
        let mut i: usize = first;
        proof {
            assert((skipped + 1) * size == skipped * size + size) by (nonlinear_arith);
            assert(first * size <= count * size) by (nonlinear_arith)
                requires
                    first <= count,
                    0 < size,
            ;
        }
        let mut offset: usize = first * size;
        while i < count
            invariant
                first <= i <= count,
                1 <= size <= 8,
                size == T::width(),
                signed == T::signed(),
                offset == i * size,
                count * size <= data.len(),
                count == element_count(data@.len() as int, len as int, T::width()),
                all == match_offsets(self, data@, len as int),
                from <= first * size < from + size,
                forall|j: int|
                    first <= j < i ==> !self.accepts(#[trigger] element_at(data@, j, T::width())),
            decreases count - i,
        {
            proof {
                lemma_step(i as int, count as int, size as int);
            }
            let v: i128 = load_wide(data, offset, size, signed);
            if self.test(v) {
                proof {
                    lemma_offsets_complete(self, data@, count as nat, i as int);
                    lemma_first_from(all, from as int);
                    lemma_first_is(self, data@, count as nat, from as int, first as int, i as int);
                }
                return Some(offset);
            }
            i += 1;
            offset += size;
        }
        proof {
            lemma_first_from(all, from as int);
            lemma_first_is(self, data@, count as nat, from as int, first as int, count as int);
        }
        None
    }

    /// The offsets of the matches in `data[..len]`, found by looking at one
    /// element after the other.
    pub fn search_scalar(self, data: &[u8], len: usize) -> (r: Vec<usize>)
        ensures
            r@ == match_offsets(self, data@, len as int),
    {
        proof {
            T::lemma_width();
        }
        let size: usize = T::size();
        let signed: bool = T::is_signed();
        let usable: usize = if len < data.len() {
            len
        } else {
            data.len()
        };
        let count: usize = usable / size;
        let mut found: Vec<usize> = Vec::new();
        let mut i: usize = 0;
        let mut offset: usize = 0;
        proof {
            lemma_count(usable as int, size as int);
        }
        while i < count
            invariant
                i <= count,
                1 <= size <= 8,
                size == T::width(),
                signed == T::signed(),
                offset == i * size,
                count * size <= data.len(),
                found@ == offsets_upto(self, data@, i as nat),
            decreases count - i,
        {
            proof {
                lemma_step(i as int, count as int, size as int);
            }
            let v: i128 = load_wide(data, offset, size, signed);
            if self.test(v) {
                found.push(offset);
            }
            i += 1;
            offset += size;
        }
        found
    }
}

/// Where no element from the index `first` to the index `i` is a match, and
/// `first` is the first element at the offset `from` or after it, the first
/// match from `from` on is the element with the index `i`, if that is a
/// match, and there is none if `i` is the number of elements.
pub proof fn lemma_first_is<T: Element>(
    rule: SearchType<T>,
    data: Seq<u8>,
    count: nat,
    from: int,
    first: int,
    i: int,
)
    requires
        count * T::width() <= usize::MAX,
        0 <= first <= i <= count,
        0 <= from <= first * T::width() < from + T::width(),
        forall|j: int| first <= j < i ==> !rule.accepts(#[trigger] element_at(data, j, T::width())),
        i < count ==> rule.accepts(element_at(data, i, T::width())),
    ensures
        first_from(offsets_upto(rule, data, count), from) == if i < count {
            Some((i * T::width()) as usize)
        } else {
            None
        },
{
    let size = T::width() as int;
    let all = offsets_upto(rule, data, count);
    T::lemma_width();
    lemma_first_from(all, from);
    lemma_offsets_rise(rule, data, count);
    assert forall|k: int| 0 <= k < all.len() && (#[trigger] all[k]) >= from implies all[k] >= i
        * size by {
        lemma_offsets_sound(rule, data, count, k);
        let j = all[k] as int / size;
        vstd::arithmetic::div_mod::lemma_fundamental_div_mod(all[k] as int, size);
        assert(all[k] == size * j);
        assert(size * j == j * size) by (nonlinear_arith);
        if j < first {
            assert(j * size + size <= first * size) by (nonlinear_arith)
                requires
                    j + 1 <= first,
                    0 < size,
            ;
        }
        if j < i {
            assert(!rule.accepts(element_at(data, j, T::width())));
        }
        assert(i * size <= j * size) by (nonlinear_arith)
            requires
                i <= j,
                0 < size,
        ;
    }
    if i < count {
        lemma_offsets_complete(rule, data, count, i);
        lemma_step(i, count as int, size);
        assert(first * size <= i * size) by (nonlinear_arith)
            requires
                first <= i,
                0 < size,
        ;
        let at = (i * size) as usize;
        let k = choose|k: int| 0 <= k < all.len() && all[k] == at;
        match first_from(all, from) {
            Some(x) => {
                let kx = choose|kx: int| 0 <= kx < all.len() && all[kx] == x;
                assert(all[kx] >= i * size);
                if x != at {
                    assert(kx != k);
                    if kx < k {
                        assert(all[kx] < all[k]);
                    } else {
                        assert(all[k] < all[kx]);
                        lemma_first_min(all, from, k);
                    }
                }
            },
            None => {
                assert(all[k] < from);
            },
        }
    } else {
        match first_from(all, from) {
            Some(x) => {
                let kx = choose|kx: int| 0 <= kx < all.len() && all[kx] == x;
                assert(all[kx] >= i * size);
                assert(all[kx] + size <= count * size);
            },
            None => {},
        }
    }
}

/// None of the offsets that are `from` or above lies below the first of
/// them.
pub proof fn lemma_first_min(offsets: Seq<usize>, from: int, k: int)
    requires
        0 <= k < offsets.len(),
        offsets[k] >= from,
        forall|a: int, b: int| 0 <= a < b < offsets.len() ==> offsets[a] < offsets[b],
    ensures
        first_from(offsets, from) matches Some(x) && x <= offsets[k],
    decreases offsets.len(),
{
    if offsets[0] >= from {
        if k > 0 {
            assert(offsets[0] < offsets[k]);
        }
    } else {
        let rest = offsets.drop_first();
        assert(rest[k - 1] == offsets[k]);
        assert forall|a: int, b: int| 0 <= a < b < rest.len() implies rest[a] < rest[b] by {
            assert(rest[a] == offsets[a + 1] && rest[b] == offsets[b + 1]);
        }
        lemma_first_min(rest, from, k - 1);
    }
}

/// The elements counted in a buffer fit the buffer.
pub proof fn lemma_count(usable: int, size: int)
    requires
        0 <= usable,
        0 < size,
    ensures
        0 <= (usable / size) * size <= usable,
{
    assert(0 <= (usable / size) * size <= usable) by (nonlinear_arith)
        requires
            0 <= usable,
            0 < size,
    ;
}

/// The element with the index `i` lies before the end of the element count.
pub proof fn lemma_step(i: int, count: int, size: int)
    requires
        0 <= i < count,
        0 < size,
    ensures
        0 <= i * size,
        (i + 1) * size == i * size + size,
        i * size + size <= count * size,
{
    assert(0 <= i * size && (i + 1) * size == i * size + size && i * size + size <= count * size)
        by (nonlinear_arith)
        requires
            0 <= i < count,
            0 < size,
    ;
}

impl<T: Element> SearchRule for SearchType<T> {
    open spec fn stride(&self) -> nat {
        T::width()
    }

    open spec fn may_find(&self, data: Seq<u8>, len: int, offsets: Seq<usize>) -> bool {
        offsets == match_offsets(*self, data, len)
    }

    /// The offsets of the matches in `data[..len]`, found by taking the
    /// elements in groups of [`LANE_BYTES`] bytes: the elements of a group are
    /// first all put to the test, which gives a mask with one lane for each,
    /// and then the offsets of the lanes that are set are handed out. The
    /// elements after the last whole group are looked at one by one.
    fn search(self, data: &[u8], len: usize) -> (r: Vec<usize>) {
        proof {
            T::lemma_width();
        }
        let size: usize = T::size();
        let signed: bool = T::is_signed();
        let usable: usize = if len < data.len() {
            len
        } else {
            data.len()
        };
        let count: usize = usable / size;
        let lanes: usize = LANE_BYTES / size;
        assert(2 <= lanes <= 16) by (nonlinear_arith)
            requires
                1 <= size <= 8,
                lanes == 16int / (size as int),
        ;
        let mut found: Vec<usize> = Vec::new();
        let mut i: usize = 0;
        let mut offset: usize = 0;
        proof {
            lemma_count(usable as int, size as int);
        }
        while count - i >= lanes
            invariant
                i <= count,
                1 <= size <= 8,
                2 <= lanes <= 16,
                size == T::width(),
                signed == T::signed(),
                offset == i * size,
                count * size <= data.len(),
                found@ == offsets_upto(self, data@, i as nat),
            decreases count - i,
        {
            let mut mask: [bool; 16] = [false; 16];
            let mut k: usize = 0;
            let mut at: usize = offset;
            while k < lanes
                invariant
                    k <= lanes <= 16,
                    i + lanes <= count,
                    1 <= size <= 8,
                    size == T::width(),
                    signed == T::signed(),
                    at == (i + k) * size,
                    count * size <= data.len(),
                    forall|j: int|
                        0 <= j < k ==> mask@[j] == self.accepts(
                            element_at(data@, i + j, T::width()),
                        ),
                decreases lanes - k,
            {
                proof {
                    lemma_step(i + k, count as int, size as int);
                }
                let v: i128 = load_wide(data, at, size, signed);
                mask[k] = self.test(v);
                k += 1;
                at += size;
            }
            let mut k: usize = 0;
            let mut at: usize = offset;
            while k < lanes
                invariant
                    k <= lanes <= 16,
                    i + lanes <= count,
                    1 <= size <= 8,
                    size == T::width(),
                    at == (i + k) * size,
                    count * size <= data.len(),
                    forall|j: int|
                        0 <= j < lanes ==> mask@[j] == self.accepts(
                            element_at(data@, i + j, T::width()),
                        ),
                    found@ == offsets_upto(self, data@, (i + k) as nat),
                decreases lanes - k,
            {
                proof {
                    lemma_step(i + k, count as int, size as int);
                }
                if mask[k] {
                    found.push(at);
                }
                k += 1;
                at += size;
            }
            i += lanes;
            offset = at;
        }
        while i < count
            invariant
                i <= count,
                1 <= size <= 8,
                size == T::width(),
                signed == T::signed(),
                offset == i * size,
                count * size <= data.len(),
                found@ == offsets_upto(self, data@, i as nat),
            decreases count - i,
        {
            proof {
                lemma_step(i as int, count as int, size as int);
            }
            let v: i128 = load_wide(data, offset, size, signed);
            if self.test(v) {
                found.push(offset);
            }
            i += 1;
            offset += size;
        }
        proof {
            assert(data@.len() == data.len());
            lemma_match_offsets(self, data@, len as int);
        }
        found
    }
}

/// The offsets of the matches of a condition in `data[..len]` rise, are
/// multiples of the width of a value, and each is that of an element that
/// lies in `data[..len]` with all its bytes.
pub proof fn lemma_match_offsets<T: Element>(rule: SearchType<T>, data: Seq<u8>, len: int)
    requires
        data.len() <= usize::MAX,
    ensures
        T::width() >= 1,
        is_rising(match_offsets(rule, data, len)),
        is_strided(match_offsets(rule, data, len), T::width() as int),
        lies_within(match_offsets(rule, data, len), 0, len, T::width() as int),
        lies_within(match_offsets(rule, data, len), 0, data.len() as int, T::width() as int),
{
    let stride = T::width();
    let count = element_count(data.len() as int, len, stride);
    let all = match_offsets(rule, data, len);
    T::lemma_width();
    if len >= 0 {
        let usable = if len < data.len() {
            len
        } else {
            data.len() as int
        };
        lemma_count(usable, stride as int);
        lemma_offsets_rise(rule, data, count);
        assert forall|k: int| 0 <= k < all.len() implies ((#[trigger] all[k]) as int) % (
        stride as int) == 0 by {
            lemma_offsets_sound(rule, data, count, k);
        }
    }
}

/// What a condition on values of a type finds is in order: see
/// [`in_order`].
pub proof fn lemma_search_type_orderly<T: Element>(rule: SearchType<T>)
    ensures
        is_orderly(rule),
{
    assert forall|data: Seq<u8>, len: int, offsets: Seq<usize>|
        data.len() <= usize::MAX && #[trigger] rule.may_find(data, len, offsets) implies in_order(
        offsets,
        data.len() as int,
        len,
        rule.stride() as int,
    ) by {
        lemma_match_offsets(rule, data, len);
    }
}

/// A backend that can search the regions of its process.
pub trait MemorySearcher {
    /// Searches the regions that pass the filter, or all regions if there is
    /// none, for the matches of `rule`, reading `N` bytes at a time, and
    /// returns their addresses.
    fn search<T: SearchRule, const N: usize, F: Fn(&MapRange) -> bool>(
        &mut self,
        rule: T,
        filter: Option<F>,
    ) -> (r: Result<Vec<usize>, SearchError>)
        requires
            filter matches Some(f) ==> forall|m: &MapRange| call_requires(f, (m,)),
    ;
}

/// The number of bytes that the lanes of one group hold.
pub const LANE_BYTES: usize = 16;

} // verus!
