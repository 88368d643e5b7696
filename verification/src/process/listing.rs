//! Writing a region as a line of the listing, and why reading the line gives
//! the region back.

use vstd::prelude::*;
use crate::number::{
    is_number, lemma_number_bytes, lemma_number_roundtrip, number_text, parse_number, write_number,
};
use crate::process::permissions;
use crate::process::{
    classify, flag_at, has_flag, is_inventory, is_page_range, lemma_parse_line_range, line_fields,
    listing_regions, name_of, parse_line, parse_listing, perms_of, LineFault, LineFields, MapRange,
    MemoryType, Region,
};
use vstd::string::*;
use crate::text::{
    find_byte, is_blank, lemma_find_byte_is, lemma_skip_blanks_is, lemma_skip_token_is,
    lemma_trim_end_is, skip_blanks, skip_token, trim_end,
};

verus! {

/// The four characters that spell the permission bits: `r`, `w` and `x` or
/// `-` in their place, then `s` for a shared region and `p` for a private one.
pub open spec fn perms_text(perms: u8) -> Seq<u8> {
    seq![
        if has_flag(perms, permissions::READABLE) {
            0x72u8
        } else {
            0x2du8
        },
        if has_flag(perms, permissions::WRITABLE) {
            0x77u8
        } else {
            0x2du8
        },
        if has_flag(perms, permissions::EXECUTABLE) {
            0x78u8
        } else {
            0x2du8
        },
        if has_flag(perms, permissions::SHARED) {
            0x73u8
        } else {
            0x70u8
        },
    ]
}

/// The line of the listing that describes a region: its fields with one
/// space between them, the numbers without leading zeros, and the name, if
/// it is not empty, after one more space.
pub open spec fn format_line(r: Region) -> Seq<u8> {
    number_text(r.start as int, 16) + seq![0x2du8] + number_text(r.end as int, 16) + seq![0x20u8]
        + perms_text(r.perms) + seq![0x20u8] + number_text(r.offset as int, 16) + seq![0x20u8]
        + number_text(r.major as int, 16) + seq![0x3au8] + number_text(r.minor as int, 10)
        + seq![0x20u8] + number_text(r.inode as int, 10) + if r.pathname.len() > 0 {
        seq![0x20u8] + r.pathname
    } else {
        Seq::empty()
    }
}

/// A region can stand on a line of the listing: its range is one of whole
/// pages, it has no permission bits but the four, and its name neither begins
/// nor ends with a blank.
pub open spec fn is_listed(r: Region) -> bool {
    &&& is_page_range(r.start as int, r.end as int)
    &&& r.perms & !permissions::ALL == 0
    &&& r.pathname.len() > 0 ==> !is_blank(r.pathname[0]) && !is_blank(r.pathname.last())
}

/// A line made of the seven fields and the name, with one space between
/// them, as [`format_line`] makes it.
spec fn joined(
    a: Seq<u8>,
    b: Seq<u8>,
    p: Seq<u8>,
    o: Seq<u8>,
    m: Seq<u8>,
    n: Seq<u8>,
    i: Seq<u8>,
    path: Seq<u8>,
) -> Seq<u8> {
    a + seq![0x2du8] + b + seq![0x20u8] + p + seq![0x20u8] + o + seq![0x20u8] + m + seq![0x3au8] + n
        + seq![0x20u8] + i + if path.len() > 0 {
        seq![0x20u8] + path
    } else {
        Seq::empty()
    }
}

/// A field of a line: it is not empty and holds no blank.
spec fn is_field(t: Seq<u8>) -> bool {
    &&& t.len() > 0
    &&& forall|k: int| 0 <= k < t.len() ==> !is_blank(#[trigger] t[k])
}

/// A field that holds neither `-` nor `:`.
spec fn is_plain(t: Seq<u8>) -> bool {
    &&& is_field(t)
    &&& forall|k: int| 0 <= k < t.len() ==> (#[trigger] t[k]) != 0x2d && t[k] != 0x3a
}

/// A number is a field that holds neither `-` nor `:`.
proof fn lemma_number_is_plain(t: Seq<u8>, radix: int)
    requires
        radix == 10 || radix == 16,
        is_number(t, radix),
    ensures
        is_plain(t),
{
    assert forall|k: int| 0 <= k < t.len() implies !is_blank(#[trigger] t[k]) && t[k] != 0x2d
        && t[k] != 0x3a by {
        lemma_number_bytes(t, radix, k);
    }
}

/// Where the fields of a joined line lie.
struct Layout {
    dash: int,
    a1: int,
    p0: int,
    p1: int,
    o0: int,
    o1: int,
    d0: int,
    colon: int,
    d1: int,
    i0: int,
    i1: int,
    n0: int,
}

/// Where the fields of the line joined from these parts lie.
spec fn layout_of(
    a: Seq<u8>,
    b: Seq<u8>,
    p: Seq<u8>,
    o: Seq<u8>,
    m: Seq<u8>,
    n: Seq<u8>,
    i: Seq<u8>,
    path: Seq<u8>,
) -> Layout {
    let dash = a.len() as int;
    let a1 = dash + 1 + b.len();
    let p0 = a1 + 1;
    let p1 = p0 + p.len();
    let o0 = p1 + 1;
    let o1 = o0 + o.len();
    let d0 = o1 + 1;
    let colon = d0 + m.len();
    let d1 = colon + 1 + n.len();
    let i0 = d1 + 1;
    let i1 = i0 + i.len();
    let n0 = if path.len() > 0 {
        i1 + 1
    } else {
        i1
    };
    Layout { dash, a1, p0, p1, o0, o1, d0, colon, d1, i0, i1, n0 }
}

/// The bytes of a joined line are those of its parts, each at its place.
proof fn lemma_joined_bytes(
    a: Seq<u8>,
    b: Seq<u8>,
    p: Seq<u8>,
    o: Seq<u8>,
    m: Seq<u8>,
    n: Seq<u8>,
    i: Seq<u8>,
    path: Seq<u8>,
)
    ensures
        ({
            let s = joined(a, b, p, o, m, n, i, path);
            let l = layout_of(a, b, p, o, m, n, i, path);
            &&& s.len() == l.n0 + path.len()
            &&& s.subrange(0, l.dash) == a
            &&& s[l.dash] == 0x2d
            &&& s.subrange(l.dash + 1, l.a1) == b
            &&& s[l.a1] == 0x20
            &&& s.subrange(l.p0, l.p1) == p
            &&& s[l.p1] == 0x20
            &&& s.subrange(l.o0, l.o1) == o
            &&& s[l.o1] == 0x20
            &&& s.subrange(l.d0, l.colon) == m
            &&& s[l.colon] == 0x3a
            &&& s.subrange(l.colon + 1, l.d1) == n
            &&& s[l.d1] == 0x20
            &&& s.subrange(l.i0, l.i1) == i
            &&& path.len() > 0 ==> s[l.i1] == 0x20
            &&& s.subrange(l.n0, s.len() as int) == path
        }),
{
    let s = joined(a, b, p, o, m, n, i, path);
    let l = layout_of(a, b, p, o, m, n, i, path);
    assert(s.subrange(0, l.dash) =~= a);
    assert(s.subrange(l.dash + 1, l.a1) =~= b);
    assert(s.subrange(l.p0, l.p1) =~= p);
    assert(s.subrange(l.o0, l.o1) =~= o);
    assert(s.subrange(l.d0, l.colon) =~= m);
    assert(s.subrange(l.colon + 1, l.d1) =~= n);
    assert(s.subrange(l.i0, l.i1) =~= i);
    assert(s.subrange(l.n0, s.len() as int) =~= path);
}

/// The bytes of `s` from `from` to `to` are those of the field `t`, so none
/// of them is blank.
proof fn lemma_field_at(s: Seq<u8>, t: Seq<u8>, from: int, to: int)
    requires
        0 <= from <= to <= s.len(),
        s.subrange(from, to) == t,
        is_field(t),
    ensures
        from < to,
        forall|k: int| from <= k < to ==> !is_blank(#[trigger] s[k]),
{
    assert forall|k: int| from <= k < to implies !is_blank(#[trigger] s[k]) by {
        assert(s.subrange(from, to)[k - from] == s[k]);
    }
}

/// The bytes of `s` from `from` to `to` are those of the plain field `t`, so
/// none of them is `-` or `:`.
proof fn lemma_plain_at(s: Seq<u8>, t: Seq<u8>, from: int, to: int)
    requires
        0 <= from <= to <= s.len(),
        s.subrange(from, to) == t,
        is_plain(t),
    ensures
        forall|k: int| from <= k < to ==> (#[trigger] s[k]) != 0x2d && s[k] != 0x3a,
{
    assert forall|k: int| from <= k < to implies (#[trigger] s[k]) != 0x2d && s[k] != 0x3a by {
        assert(s.subrange(from, to)[k - from] == s[k]);
    }
}

/// A name that neither begins nor ends with a blank.
spec fn is_trimmed(path: Seq<u8>) -> bool {
    path.len() > 0 ==> !is_blank(path[0]) && !is_blank(path.last())
}

/// Reading a joined line finds its fields where they were put.
proof fn lemma_joined_scan(
    a: Seq<u8>,
    b: Seq<u8>,
    p: Seq<u8>,
    o: Seq<u8>,
    m: Seq<u8>,
    n: Seq<u8>,
    i: Seq<u8>,
    path: Seq<u8>,
)
    requires
        is_plain(a),
        is_plain(b),
        is_field(p),
        is_field(o),
        is_plain(m),
        is_plain(n),
        is_field(i),
        is_trimmed(path),
    ensures
        ({
            let s = joined(a, b, p, o, m, n, i, path);
            let l = layout_of(a, b, p, o, m, n, i, path);
            &&& skip_blanks(s, 0) == 0
            &&& skip_token(s, 0) == l.a1
            &&& skip_blanks(s, l.a1) == l.p0
            &&& skip_token(s, l.p0) == l.p1
            &&& skip_blanks(s, l.p1) == l.o0
            &&& skip_token(s, l.o0) == l.o1
            &&& skip_blanks(s, l.o1) == l.d0
            &&& skip_token(s, l.d0) == l.d1
            &&& skip_blanks(s, l.d1) == l.i0
            &&& skip_token(s, l.i0) == l.i1
            &&& skip_blanks(s, l.i1) == l.n0
            &&& trim_end(s, l.n0, s.len() as int) == s.len()
            &&& find_byte(s, 0x2d, 0, l.a1) == l.dash
            &&& find_byte(s, 0x3a, l.d0, l.d1) == l.colon
        }),
{
    let s = joined(a, b, p, o, m, n, i, path);
    let l = layout_of(a, b, p, o, m, n, i, path);
    lemma_joined_bytes(a, b, p, o, m, n, i, path);
    lemma_field_at(s, a, 0, l.dash);
    lemma_field_at(s, b, l.dash + 1, l.a1);
    lemma_field_at(s, p, l.p0, l.p1);
    lemma_field_at(s, o, l.o0, l.o1);
    lemma_field_at(s, m, l.d0, l.colon);
    lemma_field_at(s, n, l.colon + 1, l.d1);
    lemma_field_at(s, i, l.i0, l.i1);
    lemma_plain_at(s, a, 0, l.dash);
    lemma_plain_at(s, m, l.d0, l.colon);
    lemma_skip_blanks_is(s, 0, 0);
    lemma_skip_token_is(s, 0, l.a1);
    lemma_skip_blanks_is(s, l.a1, l.p0);
    lemma_skip_token_is(s, l.p0, l.p1);
    lemma_skip_blanks_is(s, l.p1, l.o0);
    lemma_skip_token_is(s, l.o0, l.o1);
    lemma_skip_blanks_is(s, l.o1, l.d0);
    lemma_skip_token_is(s, l.d0, l.d1);
    lemma_skip_blanks_is(s, l.d1, l.i0);
    lemma_skip_token_is(s, l.i0, l.i1);
    if path.len() > 0 {
        assert(s.subrange(l.n0, s.len() as int)[0] == s[l.n0]);
        assert(s.subrange(l.n0, s.len() as int)[path.len() - 1] == s[s.len() - 1]);
    }
    lemma_skip_blanks_is(s, l.i1, l.n0);
    lemma_trim_end_is(s, l.n0, s.len() as int, s.len() as int);
    lemma_find_byte_is(s, 0x2d, 0, l.dash, l.a1);
    lemma_find_byte_is(s, 0x3a, l.d0, l.colon, l.d1);
}

/// The four characters of the permission bits spell these bits.
proof fn lemma_perms_roundtrip(perms: u8)
    requires
        perms & !permissions::ALL == 0,
    ensures
        is_field(perms_text(perms)),
        perms_text(perms).len() == 4,
        perms_of(perms_text(perms), 0, 4) == perms,
{
    let t = perms_text(perms);
    let r: u8 = if perms & 1 != 0 {
        1
    } else {
        0
    };
    let w: u8 = if perms & 2 != 0 {
        2
    } else {
        0
    };
    let x: u8 = if perms & 4 != 0 {
        4
    } else {
        0
    };
    let sh: u8 = if perms & 8 != 0 {
        8
    } else {
        0
    };
    assert(flag_at(t, 0, 4, 0, 0x72, permissions::READABLE) == r);
    assert(flag_at(t, 0, 4, 1, 0x77, permissions::WRITABLE) == w);
    assert(flag_at(t, 0, 4, 2, 0x78, permissions::EXECUTABLE) == x);
    assert(flag_at(t, 0, 4, 3, 0x73, permissions::SHARED) == sh);
    assert(r | w | x | sh == perms) by (bit_vector)
        requires
            perms & !15u8 == 0,
            r == if perms & 1 != 0 {
                1u8
            } else {
                0u8
            },
            w == if perms & 2 != 0 {
                2u8
            } else {
                0u8
            },
            x == if perms & 4 != 0 {
                4u8
            } else {
                0u8
            },
            sh == if perms & 8 != 0 {
                8u8
            } else {
                0u8
            },
    ;
}

/// The permission bits that a field spells do not depend on where the field
/// lies in its line.
proof fn lemma_perms_at(s: Seq<u8>, t: Seq<u8>, from: int, to: int)
    requires
        0 <= from <= to <= s.len(),
        s.subrange(from, to) == t,
    ensures
        perms_of(s, from, to) == perms_of(t, 0, t.len() as int),
{
    assert forall|k: int| 0 <= k < t.len() implies s[from + k] == #[trigger] t[k] by {
        assert(s.subrange(from, to)[k] == s[from + k]);
    }
    if t.len() > 0 {
        assert(t[0] == s[from]);
    }
    if t.len() > 1 {
        assert(t[1] == s[from + 1]);
    }
    if t.len() > 2 {
        assert(t[2] == s[from + 2]);
    }
    if t.len() > 3 {
        assert(t[3] == s[from + 3]);
    }
}

/// The region that a line holds, up to its category, which is not written
/// but worked out when the line is read.
pub open spec fn with_category(r: Region, prev_cd: bool) -> Region {
    Region {
        category: classify(name_of(r.pathname), r.perms, r.offset as int, prev_cd),
        ..r
    }
}

/// What reading a line finds, given where its fields lie.
proof fn lemma_fields_from_layout(s: Seq<u8>, l: Layout, f: LineFields)
    requires
        skip_blanks(s, 0) == 0,
        skip_token(s, 0) == l.a1,
        skip_blanks(s, l.a1) == l.p0,
        skip_token(s, l.p0) == l.p1,
        skip_blanks(s, l.p1) == l.o0,
        skip_token(s, l.o0) == l.o1,
        skip_blanks(s, l.o1) == l.d0,
        skip_token(s, l.d0) == l.d1,
        skip_blanks(s, l.d1) == l.i0,
        skip_token(s, l.i0) == l.i1,
        skip_blanks(s, l.i1) == l.n0,
        trim_end(s, l.n0, s.len() as int) == s.len(),
        find_byte(s, 0x2d, 0, l.a1) == l.dash,
        find_byte(s, 0x3a, l.d0, l.d1) == l.colon,
        l.i0 < l.i1,
        l.dash < l.a1,
        l.colon < l.d1,
        parse_number(s.subrange(0, l.dash), 16, usize::MAX as int) == Some(f.start as int),
        parse_number(s.subrange(l.dash + 1, l.a1), 16, usize::MAX as int) == Some(f.end as int),
        parse_number(s.subrange(l.o0, l.o1), 16, usize::MAX as int) == Some(f.offset as int),
        parse_number(s.subrange(l.d0, l.colon), 16, u8::MAX as int) == Some(f.major as int),
        parse_number(s.subrange(l.colon + 1, l.d1), 10, u8::MAX as int) == Some(f.minor as int),
        parse_number(s.subrange(l.i0, l.i1), 10, u64::MAX as int) == Some(f.inode as int),
        is_page_range(f.start as int, f.end as int),
        perms_of(s, l.p0, l.p1) == f.perms,
        f.path_from == l.n0,
        f.path_to == s.len(),
    ensures
        line_fields(s) == Ok::<LineFields, LineFault>(f),
{
}

/// A number that fits its field is read as itself.
proof fn lemma_number_parses(v: int, radix: int, max: int)
    requires
        radix == 10 || radix == 16,
        0 <= v <= max,
    ensures
        parse_number(number_text(v, radix), radix, max) == Some(v),
        is_plain(number_text(v, radix)),
{
    lemma_number_roundtrip(v, radix);
    lemma_number_is_plain(number_text(v, radix), radix);
}

/// Writing a region as a line and reading the line gives the region back,
/// with the category that its name, permissions and offset give it.
pub proof fn lemma_parse_format(r: Region, prev_cd: bool)
    requires
        is_listed(r),
        format_line(r).len() <= usize::MAX,
    ensures
        parse_line(format_line(r), prev_cd) == Ok::<Region, LineFault>(with_category(r, prev_cd)),
{
    let a = number_text(r.start as int, 16);
    let b = number_text(r.end as int, 16);
    let p = perms_text(r.perms);
    let o = number_text(r.offset as int, 16);
    let m = number_text(r.major as int, 16);
    let n = number_text(r.minor as int, 10);
    let i = number_text(r.inode as int, 10);
    let path = r.pathname;
    let s = joined(a, b, p, o, m, n, i, path);
    let l = layout_of(a, b, p, o, m, n, i, path);
    assert(format_line(r) == s);
    lemma_number_parses(r.start as int, 16, usize::MAX as int);
    lemma_number_parses(r.end as int, 16, usize::MAX as int);
    lemma_number_parses(r.offset as int, 16, usize::MAX as int);
    lemma_number_parses(r.major as int, 16, u8::MAX as int);
    lemma_number_parses(r.minor as int, 10, u8::MAX as int);
    lemma_number_parses(r.inode as int, 10, u64::MAX as int);
    lemma_perms_roundtrip(r.perms);
    lemma_joined_bytes(a, b, p, o, m, n, i, path);
    lemma_joined_scan(a, b, p, o, m, n, i, path);
    lemma_perms_at(s, p, l.p0, l.p1);
    let f = LineFields {
        start: r.start,
        end: r.end,
        perms: r.perms,
        offset: r.offset,
        major: r.major,
        minor: r.minor,
        inode: r.inode,
        path_from: l.n0 as usize,
        path_to: s.len() as usize,
    };
    lemma_fields_from_layout(s, l, f);
    lemma_region_of_fields(s, f, prev_cd);
    assert(s.subrange(f.path_from as int, f.path_to as int) == path);
}

/// The region that a line holds, given what reading its fields finds.
proof fn lemma_region_of_fields(s: Seq<u8>, f: LineFields, prev_cd: bool)
    requires
        line_fields(s) == Ok::<LineFields, LineFault>(f),
    ensures
        parse_line(s, prev_cd) == Ok::<Region, LineFault>(
            Region {
                start: f.start,
                end: f.end,
                perms: f.perms,
                offset: f.offset,
                major: f.major,
                minor: f.minor,
                inode: f.inode,
                pathname: s.subrange(f.path_from as int, f.path_to as int),
                category: classify(
                    name_of(s.subrange(f.path_from as int, f.path_to as int)),
                    f.perms,
                    f.offset as int,
                    prev_cd,
                ),
            },
        ),
{
    reveal(parse_line);
}

/// A region read from a line without a name is code of an application if it
/// can be executed, anonymous memory if it can be read and written and
/// starts at offset 0, and `Other` else.
pub proof fn lemma_nameless_category(s: Seq<u8>, prev_cd: bool)
    ensures
        parse_line(s, prev_cd) matches Ok(r) ==> r.pathname.len() == 0 ==> r.category == if has_flag(
            r.perms,
            permissions::EXECUTABLE,
        ) {
            MemoryType::Xa
        } else if has_flag(r.perms, permissions::READABLE) && has_flag(
            r.perms,
            permissions::WRITABLE,
        ) && r.offset == 0 {
            MemoryType::A
        } else {
            MemoryType::Other
        },
{
    reveal(parse_line);
}

/// Appends `bytes` to `out`.
pub fn push_all(out: &mut Vec<u8>, bytes: &[u8])
    ensures
        final(out)@ == old(out)@ + bytes@,
{
    let mut k: usize = 0;
    while k < bytes.len()
        invariant
            k <= bytes.len(),
            out@ == old(out)@ + bytes@.subrange(0, k as int),
        decreases bytes.len() - k,
    {
        out.push(bytes[k]);
        proof {
            assert(bytes@.subrange(0, k + 1) =~= bytes@.subrange(0, k as int).push(bytes@[k as int]));
        }
        k += 1;
    }
    proof {
        assert(bytes@.subrange(0, bytes@.len() as int) =~= bytes@);
    }
}

/// Appends the four characters that spell the permission bits to `out`.
fn write_perms(out: &mut Vec<u8>, perms: u8)
    ensures
        final(out)@ == old(out)@ + perms_text(perms),
{
    out.push(
        if perms & permissions::READABLE != 0 {
            0x72
        } else {
            0x2d
        },
    );
    out.push(
        if perms & permissions::WRITABLE != 0 {
            0x77
        } else {
            0x2d
        },
    );
    out.push(
        if perms & permissions::EXECUTABLE != 0 {
            0x78
        } else {
            0x2d
        },
    );
    out.push(
        if perms & permissions::SHARED != 0 {
            0x73
        } else {
            0x70
        },
    );
    proof {
        assert(out@ =~= old(out)@ + perms_text(perms));
    }
}

/// Appends one byte to `out`.
fn write_byte(out: &mut Vec<u8>, b: u8)
    ensures
        final(out)@ == old(out)@ + seq![b],
{
    out.push(b);
    proof {
        assert(out@ =~= old(out)@ + seq![b]);
    }
}

impl MapRange {
    /// The line of the listing that describes the region, see
    /// [`format_line`].
    pub fn to_line(&self) -> (line: Vec<u8>)
        ensures
            line@ == format_line(self@),
    {
        let ghost r = self@;
        let mut line: Vec<u8> = Vec::new();
        write_number(&mut line, self.address.0 as u64, 16);
        write_byte(&mut line, 0x2d);
        write_number(&mut line, self.address.1 as u64, 16);
        write_byte(&mut line, 0x20);
        write_perms(&mut line, self.perms);
        write_byte(&mut line, 0x20);
        write_number(&mut line, self.offset as u64, 16);
        write_byte(&mut line, 0x20);
        write_number(&mut line, self.dev.0 as u64, 16);
        write_byte(&mut line, 0x3a);
        write_number(&mut line, self.dev.1 as u64, 10);
        write_byte(&mut line, 0x20);
        write_number(&mut line, self.inode, 10);
        let ghost head = line@;
        proof {
            assert(number_text(r.start as int, 16) =~= Seq::<u8>::empty() + number_text(
                r.start as int,
                16,
            ));
        }
        let name = self.pathname.as_str().as_bytes();
        if name.len() > 0 {
            write_byte(&mut line, 0x20);
            push_all(&mut line, name);
            proof {
                assert(line@ =~= head + (seq![0x20u8] + r.pathname));
            }
        } else {
            proof {
                assert(line@ =~= head + Seq::<u8>::empty());
            }
        }
        line
    }
}

/// The regions read from a listing are those of one address space: each is a
/// range of whole pages, none starts below `floor`, and each ends before the
/// next one starts.
pub proof fn lemma_listing_sorted(s: Seq<u8>, from: int, line: int, prev_cd: bool, floor: int)
    ensures
        parse_listing(s, from, line, prev_cd, floor) matches Ok(regions) ==> is_inventory(regions)
            && forall|i: int| 0 <= i < regions.len() ==> floor <= (#[trigger] regions[i]).start,
    decreases s.len() + 1 - from,
{
    if 0 <= from < s.len() {
        let to = find_byte(s, 0x0a, from, s.len() as int);
        crate::text::lemma_find_byte(s, 0x0a, from, s.len() as int);
        lemma_parse_line_range(s.subrange(from, to), prev_cd);
        match parse_line(s.subrange(from, to), prev_cd) {
            Ok(region) => {
                if region.start >= floor {
                    let rest = parse_listing(
                        s,
                        to + 1,
                        line + 1,
                        region.category == MemoryType::Cd,
                        region.end as int,
                    );
                    lemma_listing_sorted(
                        s,
                        to + 1,
                        line + 1,
                        region.category == MemoryType::Cd,
                        region.end as int,
                    );
                    match rest {
                        Ok(tail) => {
                            let all = seq![region] + tail;
                            assert forall|i: int| 0 <= i < all.len() implies floor <= (
                            #[trigger] all[i]).start && is_page_range(
                                all[i].start as int,
                                all[i].end as int,
                            ) by {
                                if i > 0 {
                                    assert(all[i] == tail[i - 1]);
                                }
                            }
                            assert forall|i: int, j: int| 0 <= i < j < all.len() implies (
                            #[trigger] all[i]).end <= (#[trigger] all[j]).start by {
                                assert(all[j] == tail[j - 1]);
                                if i > 0 {
                                    assert(all[i] == tail[i - 1]);
                                }
                            }
                        },
                        Err(_) => {},
                    }
                }
            },
            Err(_) => {},
        }
    }
}

/// The regions read from a listing are sorted by their addresses, do not
/// overlap, and are made of whole pages.
pub proof fn lemma_listing_is_inventory(s: Seq<u8>)
    ensures
        listing_regions(s) matches Ok(regions) ==> is_inventory(regions),
{
    lemma_listing_sorted(s, 0, 0, false, 0);
}

} // verus!
