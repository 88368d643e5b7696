//! Whole numbers of a fixed width and the bytes that hold them.
//!
//! A value lies in memory with its least significant byte first, a signed one
//! in two's complement.

use vstd::prelude::*;

verus! {

/// 256 to the power of `n`.
pub open spec fn pow256(n: nat) -> int
    decreases n,
{
    if n == 0 {
        1
    } else {
        256 * pow256((n - 1) as nat)
    }
}

/// The number that the bytes hold when read as an unsigned value.
pub open spec fn le_value(bytes: Seq<u8>) -> int
    decreases bytes.len(),
{
    if bytes.len() == 0 {
        0
    } else {
        bytes[0] + 256 * le_value(bytes.drop_first())
    }
}

/// The number that the bytes hold, read as a signed value if `signed`.
pub open spec fn decode(bytes: Seq<u8>, signed: bool) -> int {
    let u = le_value(bytes);
    if signed && 2 * u >= pow256(bytes.len()) {
        u - pow256(bytes.len())
    } else {
        u
    }
}

/// The `n` low bytes of the number `u`, which is not negative.
pub open spec fn le_bytes(u: int, n: nat) -> Seq<u8>
    decreases n,
{
    if n == 0 {
        Seq::empty()
    } else {
        seq![(u % 256) as u8] + le_bytes(u / 256, (n - 1) as nat)
    }
}

/// The `n` bytes that hold the number `v`.
pub open spec fn encode(v: int, n: nat) -> Seq<u8> {
    le_bytes(
        if v < 0 {
            v + pow256(n)
        } else {
            v
        },
        n,
    )
}

/// `v` is a value of the type that is `width` bytes wide and signed or not.
pub open spec fn in_range(v: int, width: nat, signed: bool) -> bool {
    if signed {
        -pow256(width) <= 2 * v < pow256(width)
    } else {
        0 <= v < pow256(width)
    }
}

/// The powers of 256 that the widths in use give.
pub proof fn lemma_pow256()
    ensures
        pow256(0) == 1,
        pow256(1) == 0x100,
        pow256(2) == 0x1_0000,
        pow256(3) == 0x100_0000,
        pow256(4) == 0x1_0000_0000,
        pow256(5) == 0x100_0000_0000,
        pow256(6) == 0x1_0000_0000_0000,
        pow256(7) == 0x100_0000_0000_0000,
        pow256(8) == 0x1_0000_0000_0000_0000,
{
    reveal_with_fuel(pow256, 10);
}

/// Bytes read as an unsigned value give a number below 256 to the power of
/// their count.
pub proof fn lemma_le_value_bound(bytes: Seq<u8>)
    ensures
        0 <= le_value(bytes) < pow256(bytes.len()),
    decreases bytes.len(),
{
    if bytes.len() > 0 {
        lemma_le_value_bound(bytes.drop_first());
    }
}

/// What bytes hold is a value of the type of their width.
pub proof fn lemma_decode_range(bytes: Seq<u8>, signed: bool)
    ensures
        in_range(decode(bytes, signed), bytes.len(), signed),
{
    lemma_le_value_bound(bytes);
}

/// The bytes of a number hold that number.
pub proof fn lemma_le_bytes_value(u: int, n: nat)
    requires
        0 <= u < pow256(n),
    ensures
        le_bytes(u, n).len() == n,
        le_value(le_bytes(u, n)) == u,
    decreases n,
{
    if n > 0 {
        lemma_le_bytes_value(u / 256, (n - 1) as nat);
        assert(le_bytes(u, n).drop_first() =~= le_bytes(u / 256, (n - 1) as nat));
    }
}

/// Writing a value and reading it back gives the value.
pub proof fn lemma_encode_decode(v: int, n: nat, signed: bool)
    requires
        in_range(v, n, signed),
    ensures
        encode(v, n).len() == n,
        decode(encode(v, n), signed) == v,
{
    let u = if v < 0 {
        v + pow256(n)
    } else {
        v
    };
    lemma_le_bytes_value(u, n);
}

/// A whole number of a fixed width.
pub trait Element: Copy + Sized {
    /// The number of bytes that a value takes.
    spec fn width() -> nat;

    /// Whether the type has negative values.
    spec fn signed() -> bool;

    /// The number that the value is.
    spec fn value(self) -> int;

    /// A value takes one to eight bytes.
    proof fn lemma_width()
        ensures
            1 <= Self::width() <= 8,
    ;

    /// The number of bytes that a value takes.
    fn size() -> (n: usize)
        ensures
            n == Self::width(),
    ;

    /// Whether the type has negative values.
    fn is_signed() -> (s: bool)
        ensures
            s == Self::signed(),
    ;

    /// The number that the value is.
    fn to_wide(self) -> (k: i128)
        ensures
            k == self.value(),
            in_range(k as int, Self::width(), Self::signed()),
    ;

    /// The value that is the number `k`.
    fn from_wide(k: i128) -> (v: Self)
        requires
            in_range(k as int, Self::width(), Self::signed()),
        ensures
            v.value() == k,
    ;
}

/// The number held by the `width` bytes of `bytes` from the index `at` on.
pub fn load_wide(bytes: &[u8], at: usize, width: usize, signed: bool) -> (k: i128)
    requires
        1 <= width <= 8,
        at + width <= bytes@.len(),
    ensures
        k == decode(bytes@.subrange(at as int, at + width), signed),
        in_range(k as int, width as nat, signed),
{
    let ghost field = bytes@.subrange(at as int, at + width);
    let mut acc: u128 = 0;
    let mut full: u128 = 1;
    let mut i: usize = width;
    proof {
        lemma_pow256();
        assert(field.subrange(width as int, width as int) =~= Seq::<u8>::empty());
    }
    while i > 0
        invariant
            i <= width <= 8,
            at + width <= bytes.len(),
            field == bytes@.subrange(at as int, at + width),
            acc == le_value(field.subrange(i as int, width as int)),
            full == pow256((width - i) as nat),
            acc < full,
            full <= pow256(8),
            pow256(8) == 0x1_0000_0000_0000_0000,
        decreases i,
    {
        proof {
            let rest = field.subrange(i - 1, width as int);
            assert(rest.drop_first() =~= field.subrange(i as int, width as int));
            assert(rest[0] == bytes@[at + i - 1]);
            lemma_pow256_step((width - i) as nat);
        }
        i -= 1;
        acc = acc * 256 + bytes[at + i] as u128;
        full = full * 256;
    }
    proof {
        assert(field.subrange(0, width as int) =~= field);
        lemma_decode_range(field, signed);
    }
    if signed && 2 * acc >= full {
        acc as i128 - full as i128
    } else {
        acc as i128
    }
}

/// The power of 256 grows with its exponent, and stays within 64 bits up to
/// the eighth.
pub proof fn lemma_pow256_step(n: nat)
    ensures
        pow256(n + 1) == 256 * pow256(n),
        0 < pow256(n),
        n < 8 ==> pow256(n + 1) <= pow256(8),
    decreases 8 - n,
{
    reveal_with_fuel(pow256, 2);
    lemma_pow256_positive(n);
    if n < 7 {
        lemma_pow256_step(n + 1);
    }
}

/// A power of 256 is positive.
pub proof fn lemma_pow256_positive(n: nat)
    ensures
        0 < pow256(n),
    decreases n,
{
    if n > 0 {
        lemma_pow256_positive((n - 1) as nat);
    }
}

/// The `width` bytes that hold the number `k`.
pub fn store_wide(k: i128, width: usize, signed: bool) -> (bytes: Vec<u8>)
    requires
        1 <= width <= 8,
        in_range(k as int, width as nat, signed),
    ensures
        bytes@ == encode(k as int, width as nat),
        bytes@.len() == width,
{
    let mut full: u128 = 1;
    let mut j: usize = 0;
    proof {
        lemma_pow256();
    }
    while j < width
        invariant
            j <= width <= 8,
            full == pow256(j as nat),
            full <= pow256(8),
            pow256(8) == 0x1_0000_0000_0000_0000,
        decreases width - j,
    {
        proof {
            lemma_pow256_step(j as nat);
        }
        full = full * 256;
        j += 1;
    }
    let start: u128 = if k < 0 {
        (k + full as i128) as u128
    } else {
        k as u128
    };
    let mut u: u128 = start;
    let mut bytes: Vec<u8> = Vec::new();
    let mut i: usize = 0;
    while i < width
        invariant
            i <= width,
            bytes@.len() == i,
            bytes@ + le_bytes(u as int, (width - i) as nat) == le_bytes(
                start as int,
                width as nat,
            ),
        decreases width - i,
    {
        proof {
            let rest = le_bytes(u as int, (width - i) as nat);
            assert(rest =~= seq![(u % 256) as u8] + le_bytes(
                (u / 256) as int,
                (width - i - 1) as nat,
            ));
            assert(bytes@.push((u % 256) as u8) + le_bytes(
                (u / 256) as int,
                (width - i - 1) as nat,
            ) =~= bytes@ + rest);
        }
        bytes.push((u % 256) as u8);
        u = u / 256;
        i += 1;
    }
    proof {
        assert(bytes@ + le_bytes(u as int, 0) =~= bytes@);
    }
    bytes
}

/// The value held by the bytes of `bytes` from the index `at` on.
pub fn load<T: Element>(bytes: &[u8], at: usize) -> (v: T)
    requires
        at + T::width() <= bytes@.len(),
    ensures
        v.value() == decode(bytes@.subrange(at as int, at + T::width()), T::signed()),
{
    proof {
        T::lemma_width();
    }
    T::from_wide(load_wide(bytes, at, T::size(), T::is_signed()))
}

/// The bytes that hold the value.
pub fn store<T: Element>(v: T) -> (bytes: Vec<u8>)
    ensures
        bytes@ == encode(v.value(), T::width()),
        bytes@.len() == T::width(),
{
    proof {
        T::lemma_width();
    }
    store_wide(v.to_wide(), T::size(), T::is_signed())
}

impl Element for u8 {
    open spec fn width() -> nat {
        1
    }

    open spec fn signed() -> bool {
        false
    }

    open spec fn value(self) -> int {
        self as int
    }

    proof fn lemma_width() {
    }

    fn size() -> (n: usize) {
        1
    }

    fn is_signed() -> (s: bool) {
        false
    }

    fn to_wide(self) -> (k: i128) {
        proof {
            lemma_pow256();
        }
        self as i128
    }

    fn from_wide(k: i128) -> (v: u8) {
        proof {
            lemma_pow256();
        }
        k as u8
    }
}

impl Element for u16 {
    open spec fn width() -> nat {
        2
    }

    open spec fn signed() -> bool {
        false
    }

    open spec fn value(self) -> int {
        self as int
    }

    proof fn lemma_width() {
    }

    fn size() -> (n: usize) {
        2
    }

    fn is_signed() -> (s: bool) {
        false
    }

    fn to_wide(self) -> (k: i128) {
        proof {
            lemma_pow256();
        }
        self as i128
    }

    fn from_wide(k: i128) -> (v: u16) {
        proof {
            lemma_pow256();
        }
        k as u16
    }
}

impl Element for u32 {
    open spec fn width() -> nat {
        4
    }

    open spec fn signed() -> bool {
        false
    }

    open spec fn value(self) -> int {
        self as int
    }

    proof fn lemma_width() {
    }

    fn size() -> (n: usize) {
        4
    }

    fn is_signed() -> (s: bool) {
        false
    }

    fn to_wide(self) -> (k: i128) {
        proof {
            lemma_pow256();
        }
        self as i128
    }

    fn from_wide(k: i128) -> (v: u32) {
        proof {
            lemma_pow256();
        }
        k as u32
    }
}

impl Element for u64 {
    open spec fn width() -> nat {
        8
    }

    open spec fn signed() -> bool {
        false
    }

    open spec fn value(self) -> int {
        self as int
    }

    proof fn lemma_width() {
    }

    fn size() -> (n: usize) {
        8
    }

    fn is_signed() -> (s: bool) {
        false
    }

    fn to_wide(self) -> (k: i128) {
        proof {
            lemma_pow256();
        }
        self as i128
    }

    fn from_wide(k: i128) -> (v: u64) {
        proof {
            lemma_pow256();
        }
        k as u64
    }
}

impl Element for usize {
    open spec fn width() -> nat {
        (usize::BITS / 8) as nat
    }

    open spec fn signed() -> bool {
        false
    }

    open spec fn value(self) -> int {
        self as int
    }

    proof fn lemma_width() {
    }

    fn size() -> (n: usize) {
        (usize::BITS / 8) as usize
    }

    fn is_signed() -> (s: bool) {
        false
    }

    fn to_wide(self) -> (k: i128) {
        proof {
            lemma_pow256();
        }
        self as i128
    }

    fn from_wide(k: i128) -> (v: usize) {
        proof {
            lemma_pow256();
        }
        k as usize
    }
}

impl Element for i8 {
    open spec fn width() -> nat {
        1
    }

    open spec fn signed() -> bool {
        true
    }

    open spec fn value(self) -> int {
        self as int
    }

    proof fn lemma_width() {
    }

    fn size() -> (n: usize) {
        1
    }

    fn is_signed() -> (s: bool) {
        true
    }

    fn to_wide(self) -> (k: i128) {
        proof {
            lemma_pow256();
        }
        self as i128
    }

    fn from_wide(k: i128) -> (v: i8) {
        proof {
            lemma_pow256();
        }
        k as i8
    }
}

impl Element for i16 {
    open spec fn width() -> nat {
        2
    }

    open spec fn signed() -> bool {
        true
    }

    open spec fn value(self) -> int {
        self as int
    }

    proof fn lemma_width() {
    }

    fn size() -> (n: usize) {
        2
    }

    fn is_signed() -> (s: bool) {
        true
    }

    fn to_wide(self) -> (k: i128) {
        proof {
            lemma_pow256();
        }
        self as i128
    }

    fn from_wide(k: i128) -> (v: i16) {
        proof {
            lemma_pow256();
        }
        k as i16
    }
}

impl Element for i32 {
    open spec fn width() -> nat {
        4
    }

    open spec fn signed() -> bool {
        true
    }

    open spec fn value(self) -> int {
        self as int
    }

    proof fn lemma_width() {
    }

    fn size() -> (n: usize) {
        4
    }

    fn is_signed() -> (s: bool) {
        true
    }

    fn to_wide(self) -> (k: i128) {
        proof {
            lemma_pow256();
        }
        self as i128
    }

    fn from_wide(k: i128) -> (v: i32) {
        proof {
            lemma_pow256();
        }
        k as i32
    }
}

impl Element for i64 {
    open spec fn width() -> nat {
        8
    }

    open spec fn signed() -> bool {
        true
    }

    open spec fn value(self) -> int {
        self as int
    }

    proof fn lemma_width() {
    }

    fn size() -> (n: usize) {
        8
    }

    fn is_signed() -> (s: bool) {
        true
    }

    fn to_wide(self) -> (k: i128) {
        proof {
            lemma_pow256();
        }
        self as i128
    }

    fn from_wide(k: i128) -> (v: i64) {
        proof {
            lemma_pow256();
        }
        k as i64
    }
}

impl Element for isize {
    open spec fn width() -> nat {
        (isize::BITS / 8) as nat
    }

    open spec fn signed() -> bool {
        true
    }

    open spec fn value(self) -> int {
        self as int
    }

    proof fn lemma_width() {
    }

    fn size() -> (n: usize) {
        (isize::BITS / 8) as usize
    }

    fn is_signed() -> (s: bool) {
        true
    }

    fn to_wide(self) -> (k: i128) {
        proof {
            lemma_pow256();
        }
        self as i128
    }

    fn from_wide(k: i128) -> (v: isize) {
        proof {
            lemma_pow256();
        }
        k as isize
    }
}

} // verus!
