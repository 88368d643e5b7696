//! Unsigned numbers written in decimal or hexadecimal digits.

use vstd::prelude::*;

verus! {

/// The value of a digit: 0 to 9 for `0` to `9`, 10 to 15 for `a` to `f` in
/// either case, and 16 for a byte that is no digit.
pub open spec fn digit_val(b: u8) -> int {
    if 0x30 <= b <= 0x39 {
        b - 0x30
    } else if 0x61 <= b <= 0x66 {
        b - 0x61 + 10
    } else if 0x41 <= b <= 0x46 {
        b - 0x41 + 10
    } else {
        16
    }
}

/// `s` is a number in the given radix: one digit or more, each below the radix.
pub open spec fn is_number(s: Seq<u8>, radix: int) -> bool {
    &&& s.len() > 0
    &&& forall|i: int| 0 <= i < s.len() ==> digit_val(#[trigger] s[i]) < radix
}

/// The value of the digits of `s`, the first digit being the most significant.
pub open spec fn number_value(s: Seq<u8>, radix: int) -> int
    decreases s.len(),
{
    if s.len() == 0 {
        0
    } else {
        number_value(s.drop_last(), radix) * radix + digit_val(s.last())
    }
}

/// The number that `s` spells, if it is one and is at most `max`.
pub open spec fn parse_number(s: Seq<u8>, radix: int, max: int) -> Option<int> {
    if is_number(s, radix) && number_value(s, radix) <= max {
        Some(number_value(s, radix))
    } else {
        None
    }
}

/// The digit for a value below 16, in lower case.
pub open spec fn digit_byte(d: int) -> u8 {
    if d < 10 {
        (0x30 + d) as u8
    } else {
        (0x61 + d - 10) as u8
    }
}

/// The digits of `v` in the given radix, without leading zeros.
pub open spec fn number_text(v: int, radix: int) -> Seq<u8>
    decreases v,
{
    if v < radix || !is_radix(radix) {
        seq![digit_byte(v)]
    } else {
        number_text(v / radix, radix).push(digit_byte(v % radix))
    }
}

/// The radixes in use.
pub open spec fn is_radix(radix: int) -> bool {
    radix == 10 || radix == 16
}

/// The value of a number is not negative, and a prefix of a number is worth
/// no more than the number.
pub proof fn lemma_number_prefix(s: Seq<u8>, k: int, radix: int)
    requires
        is_radix(radix),
        0 <= k <= s.len(),
    ensures
        0 <= number_value(s.subrange(0, k), radix) <= number_value(s, radix),
    decreases s.len(),
{
    if s.len() == 0 {
        assert(s.subrange(0, k) =~= s);
    } else if k == s.len() {
        assert(s.subrange(0, k) =~= s);
        lemma_number_prefix(s.drop_last(), k - 1, radix);
        assert(s.drop_last().subrange(0, k - 1) =~= s.drop_last());
    } else {
        lemma_number_prefix(s.drop_last(), k, radix);
        assert(s.drop_last().subrange(0, k) =~= s.subrange(0, k));
    }
}

/// Writing a number and reading it back gives the number.
pub proof fn lemma_number_roundtrip(v: int, radix: int)
    requires
        is_radix(radix),
        0 <= v,
    ensures
        is_number(number_text(v, radix), radix),
        number_value(number_text(v, radix), radix) == v,
    decreases v,
{
    let t = number_text(v, radix);
    if v < radix {
        assert(t.drop_last() =~= Seq::<u8>::empty());
        assert(number_value(t.drop_last(), radix) == 0);
        assert(t.last() == digit_byte(v));
    } else {
        let head = number_text(v / radix, radix);
        lemma_number_roundtrip(v / radix, radix);
        assert(t.drop_last() =~= head);
        assert(t.last() == digit_byte(v % radix));
        assert forall|i: int| 0 <= i < t.len() implies digit_val(#[trigger] t[i]) < radix by {
            if i < head.len() {
                assert(t[i] == head[i]);
            }
        }
    }
}

/// A number holds digits and nothing else.
pub proof fn lemma_number_bytes(s: Seq<u8>, radix: int, i: int)
    requires
        is_radix(radix),
        is_number(s, radix),
        0 <= i < s.len(),
    ensures
        0x30 <= s[i] <= 0x39 || 0x41 <= s[i] <= 0x46 || 0x61 <= s[i] <= 0x66,
{
}

/// The value of a byte as a digit.
pub fn digit_of(b: u8) -> (d: u64)
    ensures
        d == digit_val(b),
{
    if 0x30 <= b && b <= 0x39 {
        (b - 0x30) as u64
    } else if 0x61 <= b && b <= 0x66 {
        (b - 0x61) as u64 + 10
    } else if 0x41 <= b && b <= 0x46 {
        (b - 0x41) as u64 + 10
    } else {
        16
    }
}

/// Reads `s[from..to]` as a number in the given radix that is at most `max`.
pub fn read_number(s: &[u8], from: usize, to: usize, radix: u64, max: u64) -> (r: Option<u64>)
    requires
        from <= to <= s@.len(),
        is_radix(radix as int),
    ensures
        match parse_number(s@.subrange(from as int, to as int), radix as int, max as int) {
            Some(v) => r == Some(v as u64) && 0 <= v <= max,
            None => r is None,
        },
{
    let ghost text = s@.subrange(from as int, to as int);
    if from == to {
        return None;
    }
    let mut acc: u64 = 0;
    let mut i: usize = from;
    while i < to
        invariant
            from <= i <= to <= s@.len(),
            is_radix(radix as int),
            text == s@.subrange(from as int, to as int),
            acc == number_value(text.subrange(0, i - from), radix as int),
            acc <= max,
            forall|k: int| 0 <= k < i - from ==> digit_val(#[trigger] text[k]) < radix,
        decreases to - i,
    {
        let d: u64 = digit_of(s[i]);
        proof {
            assert(text[i - from] == s@[i as int]);
            assert(text.subrange(0, i + 1 - from).drop_last() =~= text.subrange(0, i - from));
            assert(text.subrange(0, i + 1 - from).last() == s@[i as int]);
        }
        if d >= radix {
            return None;
        }
        if d > max || acc > (max - d) / radix {
            proof {
                lemma_number_prefix(text, i + 1 - from, radix as int);
            }
            return None;
        }
        acc = acc * radix + d;
        i += 1;
    }
    proof {
        assert(text.subrange(0, to - from) =~= text);
    }
    Some(acc)
}

/// The digit for a value below 16.
pub fn digit_for(d: u64) -> (b: u8)
    requires
        d < 16,
    ensures
        b == digit_byte(d as int),
{
    if d < 10 {
        0x30 + d as u8
    } else {
        0x61 + (d - 10) as u8
    }
}

/// Appends the digits of `v` in the given radix to `out`.
pub fn write_number(out: &mut Vec<u8>, v: u64, radix: u64)
    requires
        is_radix(radix as int),
    ensures
        final(out)@ == old(out)@ + number_text(v as int, radix as int),
    decreases v,
{
    if v >= radix {
        write_number(out, v / radix, radix);
        out.push(digit_for(v % radix));
    } else {
        out.push(digit_for(v));
    }
}

} // verus!
