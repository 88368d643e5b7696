//! Byte strings: prefixes, substrings, blanks and tokens.
//!
//! Text is handled as its UTF-8 bytes. A pattern occurs in a string exactly
//! where its bytes occur in the bytes of the string, see [`chars`], so nothing
//! is lost by searching bytes instead of characters.

use vstd::prelude::*;
use vstd::string::*;
use vstd::utf8::*;

pub mod chars;

verus! {

/// `p` is found in `s` at position `i`.
pub open spec fn occurs_at(s: Seq<u8>, p: Seq<u8>, i: int) -> bool {
    &&& 0 <= i
    &&& i + p.len() <= s.len()
    &&& forall|k: int| 0 <= k < p.len() ==> s[i + k] == p[k]
}

/// `s` begins with `p`.
pub open spec fn has_prefix(s: Seq<u8>, p: Seq<u8>) -> bool {
    occurs_at(s, p, 0)
}

/// `p` is found somewhere in `s`.
pub open spec fn contains_sub(s: Seq<u8>, p: Seq<u8>) -> bool {
    exists|i: int| occurs_at(s, p, i)
}

/// The bytes of a string literal, for use as a pattern.
pub open spec fn lit(s: &str) -> Seq<u8> {
    s.spec_bytes()
}

/// The ASCII members of the white-space class: space, tab, line feed,
/// vertical tab, form feed and carriage return.
pub open spec fn is_blank(b: u8) -> bool {
    b == 0x20 || (0x09 <= b && b <= 0x0d)
}

/// The index of the first byte at or after `from` that is not blank, or the
/// length of `s` if there is none.
pub open spec fn skip_blanks(s: Seq<u8>, from: int) -> int
    decreases s.len() - from,
{
    if 0 <= from < s.len() && is_blank(s[from]) {
        skip_blanks(s, from + 1)
    } else {
        from
    }
}

/// The index of the first blank byte at or after `from`, or the length of `s`
/// if there is none.
pub open spec fn skip_token(s: Seq<u8>, from: int) -> int
    decreases s.len() - from,
{
    if 0 <= from < s.len() && !is_blank(s[from]) {
        skip_token(s, from + 1)
    } else {
        from
    }
}

/// The index just past the last byte before `to` that is not blank, going no
/// further back than `from`.
pub open spec fn trim_end(s: Seq<u8>, from: int, to: int) -> int
    decreases to - from,
{
    if from < to <= s.len() && is_blank(s[to - 1]) {
        trim_end(s, from, to - 1)
    } else {
        to
    }
}

/// The index of the first occurrence of the byte `b` in `s` at or after
/// `from` and before `to`, or `to` if there is none.
pub open spec fn find_byte(s: Seq<u8>, b: u8, from: int, to: int) -> int
    decreases to - from,
{
    if 0 <= from < to <= s.len() && s[from] != b {
        find_byte(s, b, from + 1, to)
    } else {
        from
    }
}

/// Skipping blanks stops within the text, has only blanks behind it, and no
/// blank before it.
pub proof fn lemma_skip_blanks(s: Seq<u8>, from: int)
    requires
        0 <= from <= s.len(),
    ensures
        from <= skip_blanks(s, from) <= s.len(),
        forall|k: int| from <= k < skip_blanks(s, from) ==> is_blank(s[k]),
        skip_blanks(s, from) < s.len() ==> !is_blank(s[skip_blanks(s, from)]),
    decreases s.len() - from,
{
    if from < s.len() && is_blank(s[from]) {
        lemma_skip_blanks(s, from + 1);
    }
}

/// Skipping a token stops within the text, has no blank behind it, and a
/// blank before it.
pub proof fn lemma_skip_token(s: Seq<u8>, from: int)
    requires
        0 <= from <= s.len(),
    ensures
        from <= skip_token(s, from) <= s.len(),
        forall|k: int| from <= k < skip_token(s, from) ==> !is_blank(s[k]),
        skip_token(s, from) < s.len() ==> is_blank(s[skip_token(s, from)]),
    decreases s.len() - from,
{
    if from < s.len() && !is_blank(s[from]) {
        lemma_skip_token(s, from + 1);
    }
}

/// Trimming the end stops between `from` and `to`, with only blanks after it
/// and no blank right behind it.
pub proof fn lemma_trim_end(s: Seq<u8>, from: int, to: int)
    requires
        0 <= from <= to <= s.len(),
    ensures
        from <= trim_end(s, from, to) <= to,
        forall|k: int| trim_end(s, from, to) <= k < to ==> is_blank(s[k]),
        from < trim_end(s, from, to) ==> !is_blank(s[trim_end(s, from, to) - 1]),
    decreases to - from,
{
    if from < to && is_blank(s[to - 1]) {
        lemma_trim_end(s, from, to - 1);
    }
}

/// The search for a byte stops between `from` and `to`, at the byte if it is
/// there, and has not passed it.
pub proof fn lemma_find_byte(s: Seq<u8>, b: u8, from: int, to: int)
    requires
        0 <= from <= to <= s.len(),
    ensures
        from <= find_byte(s, b, from, to) <= to,
        forall|k: int| from <= k < find_byte(s, b, from, to) ==> s[k] != b,
        find_byte(s, b, from, to) < to ==> s[find_byte(s, b, from, to)] == b,
    decreases to - from,
{
    if from < to && s[from] != b {
        lemma_find_byte(s, b, from + 1, to);
    }
}

/// From `from` on, blanks run up to `to` and no further.
pub proof fn lemma_skip_blanks_is(s: Seq<u8>, from: int, to: int)
    requires
        0 <= from <= to <= s.len(),
        forall|k: int| from <= k < to ==> is_blank(s[k]),
        to < s.len() ==> !is_blank(s[to]),
    ensures
        skip_blanks(s, from) == to,
    decreases to - from,
{
    if from < to {
        lemma_skip_blanks_is(s, from + 1, to);
    }
}

/// From `from` on, a token runs up to `to` and no further.
pub proof fn lemma_skip_token_is(s: Seq<u8>, from: int, to: int)
    requires
        0 <= from <= to <= s.len(),
        forall|k: int| from <= k < to ==> !is_blank(s[k]),
        to < s.len() ==> is_blank(s[to]),
    ensures
        skip_token(s, from) == to,
    decreases to - from,
{
    if from < to {
        lemma_skip_token_is(s, from + 1, to);
    }
}

/// Before `to`, blanks run back to `at` and no further.
pub proof fn lemma_trim_end_is(s: Seq<u8>, from: int, at: int, to: int)
    requires
        0 <= from <= at <= to <= s.len(),
        forall|k: int| at <= k < to ==> is_blank(s[k]),
        from < at ==> !is_blank(s[at - 1]),
    ensures
        trim_end(s, from, to) == at,
    decreases to - at,
{
    if at < to {
        lemma_trim_end_is(s, from, at, to - 1);
    }
}

/// The byte `b` is first found at `at`, or not at all before `to == at`.
pub proof fn lemma_find_byte_is(s: Seq<u8>, b: u8, from: int, at: int, to: int)
    requires
        0 <= from <= at <= to <= s.len(),
        forall|k: int| from <= k < at ==> s[k] != b,
        at < to ==> s[at] == b,
    ensures
        find_byte(s, b, from, to) == at,
    decreases at - from,
{
    if from < at {
        lemma_find_byte_is(s, b, from + 1, at, to);
    }
}

/// A place where text can be cut without splitting a character: its start,
/// its end, or a place next to an ASCII byte.
pub open spec fn is_cut(bytes: Seq<u8>, i: int) -> bool {
    &&& 0 <= i <= bytes.len()
    &&& (i == 0 || i == bytes.len() || bytes[i] < 0x80 || bytes[i - 1] < 0x80)
}

/// In UTF-8 a character begins at every ASCII byte.
pub proof fn lemma_boundary_at_ascii(bytes: Seq<u8>, i: int)
    requires
        valid_utf8(bytes),
        0 <= i < bytes.len(),
        bytes[i] < 0x80,
    ensures
        is_char_boundary(bytes, i),
{
    is_char_boundary_iff_not_is_continuation_byte(bytes, i);
}

/// In UTF-8 a character ends with every ASCII byte.
pub proof fn lemma_boundary_after_ascii(bytes: Seq<u8>, i: int)
    requires
        valid_utf8(bytes),
        0 <= i < bytes.len(),
        bytes[i] < 0x80,
    ensures
        is_char_boundary(bytes, i + 1),
    decreases bytes.len(),
{
    let n = length_of_first_scalar(bytes);
    let rest = pop_first_scalar(bytes);
    reveal_with_fuel(is_char_boundary, 2);
    if i < n {
        assert(i == 0);
        assert(n == 1);
        assert(is_char_boundary(rest, 0));
    } else {
        assert(rest[i - n] == bytes[i]);
        lemma_boundary_after_ascii(rest, i - n);
    }
}

/// Text can be cut at every cut.
pub proof fn lemma_cut_is_boundary(bytes: Seq<u8>, i: int)
    requires
        valid_utf8(bytes),
        is_cut(bytes, i),
    ensures
        is_char_boundary(bytes, i),
{
    is_char_boundary_start_end_of_seq(bytes);
    if i == 0 || i == bytes.len() {
    } else if bytes[i] < 0x80 {
        lemma_boundary_at_ascii(bytes, i);
    } else {
        lemma_boundary_after_ascii(bytes, i - 1);
    }
}

/// The part of `s` between two cuts.
pub fn substr<'a>(s: &'a str, from: usize, to: usize) -> (r: &'a str)
    requires
        from <= to,
        is_cut(s.spec_bytes(), from as int),
        is_cut(s.spec_bytes(), to as int),
    ensures
        r.spec_bytes() == s.spec_bytes().subrange(from as int, to as int),
{
    let ghost bytes = s.spec_bytes();
    proof {
        encode_utf8_valid_utf8(s@);
        lemma_cut_is_boundary(bytes, from as int);
        lemma_cut_is_boundary(bytes, to as int);
    }
    let (_, tail) = s.split_at(from);
    proof {
        let tb = tail.spec_bytes();
        encode_utf8_valid_utf8(tail@);
        assert(tb == bytes.subrange(from as int, bytes.len() as int));
        is_char_boundary_start_end_of_seq(tb);
        if to < bytes.len() {
            is_char_boundary_iff_not_is_continuation_byte(bytes, to as int);
            assert(tb[to - from] == bytes[to as int]);
            is_char_boundary_iff_not_is_continuation_byte(tb, to - from);
        }
    }
    let (head, _) = tail.split_at(to - from);
    proof {
        assert(head.spec_bytes() =~= bytes.subrange(from as int, to as int));
    }
    head
}

/// Whether `needle` is found in `hay` at position `at`.
pub fn match_at(hay: &[u8], needle: &[u8], at: usize) -> (r: bool)
    ensures
        r == occurs_at(hay@, needle@, at as int),
{
    let n: usize = needle.len();
    if at > hay.len() || n > hay.len() - at {
        return false;
    }
    let mut k: usize = 0;
    while k < n
        invariant
            k <= n,
            n == needle@.len(),
            at + n <= hay.len(),
            forall|j: int| 0 <= j < k ==> hay@[at + j] == needle@[j],
        decreases n - k,
    {
        if hay[at + k] != needle[k] {
            return false;
        }
        k += 1;
    }
    true
}

/// Whether `hay` begins with `needle`.
pub fn starts_with(hay: &[u8], needle: &[u8]) -> (r: bool)
    ensures
        r == has_prefix(hay@, needle@),
{
    match_at(hay, needle, 0)
}

/// Whether `needle` is found somewhere in `hay`.
pub fn contains(hay: &[u8], needle: &[u8]) -> (r: bool)
    ensures
        r == contains_sub(hay@, needle@),
{
    let n: usize = needle.len();
    if n > hay.len() {
        return false;
    }
    let last: usize = hay.len() - n;
    let mut i: usize = 0;
    while i < last
        invariant
            i <= last,
            last + n == hay.len(),
            n == needle@.len(),
            forall|j: int| 0 <= j < i ==> !occurs_at(hay@, needle@, j),
        decreases last - i,
    {
        if match_at(hay, needle, i) {
            return true;
        }
        i += 1;
    }
    match_at(hay, needle, last)
}

/// The first index at or after `from` whose byte is not blank.
pub fn scan_blanks(s: &[u8], from: usize) -> (r: usize)
    requires
        from <= s@.len(),
    ensures
        r == skip_blanks(s@, from as int),
        from <= r <= s@.len(),
{
    let mut i: usize = from;
    while i < s.len() && is_blank_byte(s[i])
        invariant
            from <= i <= s@.len(),
            skip_blanks(s@, from as int) == skip_blanks(s@, i as int),
        decreases s@.len() - i,
    {
        i += 1;
    }
    i
}

/// The first index at or after `from` whose byte is blank.
pub fn scan_token(s: &[u8], from: usize) -> (r: usize)
    requires
        from <= s@.len(),
    ensures
        r == skip_token(s@, from as int),
        from <= r <= s@.len(),
{
    let mut i: usize = from;
    while i < s.len() && !is_blank_byte(s[i])
        invariant
            from <= i <= s@.len(),
            skip_token(s@, from as int) == skip_token(s@, i as int),
        decreases s@.len() - i,
    {
        i += 1;
    }
    i
}

/// The index just past the last byte of `s[from..to]` that is not blank.
pub fn scan_trim_end(s: &[u8], from: usize, to: usize) -> (r: usize)
    requires
        from <= to <= s@.len(),
    ensures
        r == trim_end(s@, from as int, to as int),
        from <= r <= to,
{
    let mut i: usize = to;
    while from < i && is_blank_byte(s[i - 1])
        invariant
            from <= i <= to,
            to <= s@.len(),
            trim_end(s@, from as int, to as int) == trim_end(s@, from as int, i as int),
        decreases i - from,
    {
        i -= 1;
    }
    i
}

/// The first index in `from..to` that holds the byte `b`, or `to`.
pub fn scan_byte(s: &[u8], b: u8, from: usize, to: usize) -> (r: usize)
    requires
        from <= to <= s@.len(),
    ensures
        r == find_byte(s@, b, from as int, to as int),
        from <= r <= to,
{
    let mut i: usize = from;
    while i < to && s[i] != b
        invariant
            from <= i <= to,
            to <= s@.len(),
            find_byte(s@, b, from as int, to as int) == find_byte(s@, b, i as int, to as int),
        decreases to - i,
    {
        i += 1;
    }
    i
}

/// Whether a byte is blank.
pub fn is_blank_byte(b: u8) -> (r: bool)
    ensures
        r == is_blank(b),
{
    b == 0x20 || (0x09 <= b && b <= 0x0d)
}

} // verus!
