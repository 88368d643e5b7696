//! Why text can be searched by its bytes: a string begins with a pattern, or
//! holds it, exactly where the bytes of the string begin with the bytes of
//! the pattern, or hold them.

use vstd::prelude::*;
use vstd::utf8::*;
use crate::text::{contains_sub, has_prefix, occurs_at};

verus! {

/// The characters `p` are found in `s` at position `i`.
pub open spec fn chars_occur_at(s: Seq<char>, p: Seq<char>, i: int) -> bool {
    &&& 0 <= i
    &&& i + p.len() <= s.len()
    &&& s.subrange(i, i + p.len()) == p
}

/// The characters `s` begin with `p`.
pub open spec fn chars_begin_with(s: Seq<char>, p: Seq<char>) -> bool {
    chars_occur_at(s, p, 0)
}

/// The characters `p` are found somewhere in `s`.
pub open spec fn chars_contain(s: Seq<char>, p: Seq<char>) -> bool {
    exists|i: int| chars_occur_at(s, p, i)
}

/// The bytes of two strings, one after the other, are the bytes of the two
/// strings joined.
pub proof fn lemma_encode_joined(x: Seq<char>, y: Seq<char>)
    ensures
        encode_utf8(x + y) == encode_utf8(x) + encode_utf8(y),
    decreases x.len(),
{
    if x.len() == 0 {
        assert(x + y =~= y);
        assert(encode_utf8(x) + encode_utf8(y) =~= encode_utf8(y));
    } else {
        lemma_encode_joined(x.drop_first(), y);
        assert((x + y).drop_first() =~= x.drop_first() + y);
        assert((x + y)[0] == x[0]);
        assert(encode_utf8(x + y) =~= encode_utf8(x) + encode_utf8(y));
    }
}

/// Where text begins with other text, a character of it begins where the
/// other text ends.
pub proof fn lemma_boundary_after_prefix(t: Seq<u8>, q: Seq<u8>)
    requires
        valid_utf8(t),
        valid_utf8(q),
        occurs_at(t, q, 0),
    ensures
        is_char_boundary(t, q.len() as int),
    decreases q.len(),
{
    if q.len() > 0 {
        let n = length_of_first_scalar(q);
        assert(t[0] == q[0]);
        assert(length_of_first_scalar(t) == n);
        let q1 = pop_first_scalar(q);
        let t1 = pop_first_scalar(t);
        assert forall|k: int| 0 <= k < q1.len() implies t1[k] == q1[k] by {
            assert(t[n + k] == q[n + k]);
        }
        lemma_boundary_after_prefix(t1, q1);
        reveal_with_fuel(is_char_boundary, 2);
    }
}

/// Text that is not empty begins with the first byte of a character.
proof fn lemma_first_byte_leads(q: Seq<u8>)
    requires
        valid_utf8(q),
        q.len() > 0,
    ensures
        is_leading_byte_width_1(q[0]) || is_leading_byte_width_2(q[0]) || is_leading_byte_width_3(
            q[0],
        ) || is_leading_byte_width_4(q[0]),
{
}

/// Where the bytes of a pattern are found in the bytes of a string, the
/// pattern is found in the string, and at its start if the bytes are.
pub proof fn lemma_bytes_to_chars(s: Seq<char>, p: Seq<char>, j: int)
    requires
        occurs_at(encode_utf8(s), encode_utf8(p), j),
    ensures
        chars_contain(s, p),
        j == 0 ==> chars_begin_with(s, p),
{
    let b = encode_utf8(s);
    let q = encode_utf8(p);
    encode_utf8_valid_utf8(s);
    encode_utf8_valid_utf8(p);
    encode_utf8_decode_utf8(s);
    encode_utf8_decode_utf8(p);
    if p.len() == 0 {
        assert(s.subrange(0, 0) =~= p);
        assert(chars_occur_at(s, p, 0));
    } else {
        encode_utf8_first_scalar(p);
        assert(q.len() > 0);
        lemma_first_byte_leads(q);
        assert(b[j] == q[0]);
        is_char_boundary_iff_is_leading_byte(b, j);
        valid_utf8_split(b, j);
        decode_utf8_split(b, j);
        let head = b.subrange(0, j);
        let tail = b.subrange(j, b.len() as int);
        assert forall|k: int| 0 <= k < q.len() implies tail[k] == q[k] by {
            assert(b[j + k] == q[k]);
        }
        lemma_boundary_after_prefix(tail, q);
        valid_utf8_split(tail, q.len() as int);
        decode_utf8_split(tail, q.len() as int);
        assert(tail.subrange(0, q.len() as int) =~= q);
        let before = decode_utf8(head);
        let after = decode_utf8(tail.subrange(q.len() as int, tail.len() as int));
        assert(s == before + (p + after));
        assert(s.subrange(before.len() as int, (before.len() + p.len()) as int) =~= p);
        assert(chars_occur_at(s, p, before.len() as int));
        if j == 0 {
            assert(head =~= Seq::<u8>::empty());
            assert(before.len() == 0);
        }
    }
}

/// Where a pattern is found in a string, the bytes of the pattern are found
/// in the bytes of the string, and at their start if the pattern is.
pub proof fn lemma_chars_to_bytes(s: Seq<char>, p: Seq<char>, i: int)
    requires
        chars_occur_at(s, p, i),
    ensures
        contains_sub(encode_utf8(s), encode_utf8(p)),
        i == 0 ==> has_prefix(encode_utf8(s), encode_utf8(p)),
{
    let before = s.subrange(0, i);
    let after = s.subrange(i + p.len(), s.len() as int);
    assert(s =~= before + (p + after));
    lemma_encode_joined(before, p + after);
    lemma_encode_joined(p, after);
    let b = encode_utf8(s);
    let q = encode_utf8(p);
    let j = encode_utf8(before).len() as int;
    assert(b == encode_utf8(before) + (q + encode_utf8(after)));
    assert forall|k: int| 0 <= k < q.len() implies b[j + k] == q[k] by {}
    assert(occurs_at(b, q, j));
    if i == 0 {
        assert(before =~= Seq::<char>::empty());
    }
}

/// A string begins with a pattern exactly if its bytes begin with the bytes
/// of the pattern.
pub proof fn lemma_prefix_by_bytes(s: Seq<char>, p: Seq<char>)
    ensures
        has_prefix(encode_utf8(s), encode_utf8(p)) <==> chars_begin_with(s, p),
{
    if has_prefix(encode_utf8(s), encode_utf8(p)) {
        lemma_bytes_to_chars(s, p, 0);
    }
    if chars_begin_with(s, p) {
        lemma_chars_to_bytes(s, p, 0);
    }
}

/// A string holds a pattern exactly if its bytes hold the bytes of the
/// pattern.
pub proof fn lemma_contains_by_bytes(s: Seq<char>, p: Seq<char>)
    ensures
        contains_sub(encode_utf8(s), encode_utf8(p)) <==> chars_contain(s, p),
{
    if contains_sub(encode_utf8(s), encode_utf8(p)) {
        let j = choose|j: int| occurs_at(encode_utf8(s), encode_utf8(p), j);
        lemma_bytes_to_chars(s, p, j);
    }
    if chars_contain(s, p) {
        let i = choose|i: int| chars_occur_at(s, p, i);
        lemma_chars_to_bytes(s, p, i);
    }
}

} // verus!
