//! The memory map of a process: its regions, what each is used for, and the
//! textual listing they are read from.

use vstd::prelude::*;
use vstd::string::*;
use vstd::utf8::*;
use crate::number::{parse_number, read_number};
use crate::text::{
    contains, contains_sub, find_byte, has_prefix, is_blank, is_cut, lemma_find_byte,
    lemma_skip_blanks, lemma_skip_token, lemma_trim_end, lit, scan_blanks, scan_byte, scan_token,
    scan_trim_end, skip_blanks, skip_token, starts_with, substr, trim_end,
};

pub mod listing;
pub mod permissions;

verus! {

/// The size of a page of memory, in bytes.
pub const PAGE_SIZE: usize = 4096;

/// Why the memory map of a process could not be had.
#[derive(Debug)]
pub enum ProcessError {
    /// The listing could not be opened or read; the text says why.
    Io(String),
    /// The line with this index (the first line has index 0) does not have the
    /// shape of a region: a field is missing, the address range has no `-` or
    /// the device no `:`, the range is empty or not made of whole pages, or the
    /// region starts before the end of the one before it.
    ParseStructure { line: usize },
    /// A number on the line with this index is not written in the digits of
    /// its radix, or is too large for its field.
    ParseInteger { line: usize },
}

/// What is wrong with a line of the listing.
#[derive(Debug, Clone, Copy, PartialEq, Eq, Structural)]
pub enum LineFault {
    /// The line does not have the shape of a region.
    Structure,
    /// A number on the line cannot be read.
    Integer,
}

/// What a region is used for.
#[derive(Debug, Clone, Copy, PartialEq, Eq, Structural)]
pub enum MemoryType {
    /// Nothing worth looking at.
    Bad,
    /// Video or GPU memory.
    V,
    /// An arena of the C allocator.
    Ca,
    /// C `.bss`.
    Cb,
    /// C `.data`.
    Cd,
    /// The C heap.
    Ch,
    /// The heap of the managed runtime.
    Jh,
    /// Other memory of the managed runtime.
    J,
    /// Anonymous memory that can be read and written.
    A,
    /// Code of the system.
    Xs,
    /// A stack.
    S,
    /// Anonymous shared memory.
    As,
    /// None of the others.
    Other,
    /// Code of an application.
    Xa,
    /// The memory of the emulated console.
    Ps,
}

/// Whether `perms` holds the permission bit `bit`.
pub open spec fn has_flag(perms: u8, bit: u8) -> bool {
    perms & bit != 0
}

/// The name is that of a graphics device.
pub open spec fn is_gpu_device(n: Seq<u8>) -> bool {
    ||| has_prefix(n, lit("/dev/mali"))
    ||| has_prefix(n, lit("/dev/kgsl"))
    ||| has_prefix(n, lit("/dev/nv"))
    ||| has_prefix(n, lit("/dev/tegra"))
    ||| has_prefix(n, lit("/dev/ion"))
    ||| has_prefix(n, lit("/dev/pvr"))
    ||| has_prefix(n, lit("/dev/render"))
    ||| has_prefix(n, lit("/dev/galcore"))
    ||| has_prefix(n, lit("/dev/fimg2d"))
    ||| has_prefix(n, lit("/dev/quadd"))
    ||| has_prefix(n, lit("/dev/graphics"))
    ||| has_prefix(n, lit("/dev/mm_"))
    ||| has_prefix(n, lit("/dev/dri/"))
}

/// The name is kept from the rules on allocations: it belongs to the system
/// image, to the graphics allocator, to the kernel, or to a device other than
/// the anonymous shared memory device.
pub open spec fn is_excluded(n: Seq<u8>) -> bool {
    ||| contains_sub(n, lit("system@"))
    ||| contains_sub(n, lit("gralloc"))
    ||| contains_sub(n, lit("[vdso]"))
    ||| contains_sub(n, lit("[vectors]"))
    ||| (has_prefix(n, lit("/dev/")) && !has_prefix(n, lit("/dev/ashmem")))
}

/// A name of the managed runtime is that of its heap.
pub open spec fn is_managed_heap(n: Seq<u8>) -> bool {
    &&& (contains_sub(n, lit("exp")) || contains_sub(n, lit("dalvik-alloc")) || contains_sub(
        n,
        lit("dalvik-main"),
    ) || contains_sub(n, lit("dalvik-large")) || contains_sub(n, lit("dalvik-free")))
    &&& !contains_sub(n, lit("itmap"))
    &&& !contains_sub(n, lit("ygote"))
    &&& !contains_sub(n, lit("ard"))
    &&& !contains_sub(n, lit("jit"))
    &&& !contains_sub(n, lit("inear"))
}

/// What a name that begins with `[anon` says of its region, if anything.
pub open spec fn anon_kind(n: Seq<u8>) -> Option<MemoryType> {
    if contains_sub(n, lit("scudo")) || contains_sub(n, lit("libc_malloc")) || contains_sub(
        n,
        lit("bionic_alloc_small_object"),
    ) {
        Some(MemoryType::Ca)
    } else if contains_sub(n, lit("stack")) {
        Some(MemoryType::S)
    } else if contains_sub(n, lit("ashmem")) {
        Some(MemoryType::As)
    } else if contains_sub(n, lit("gfx")) || contains_sub(n, lit("gralloc")) || contains_sub(
        n,
        lit("dmabuf"),
    ) || contains_sub(n, lit("GD")) {
        Some(MemoryType::V)
    } else {
        None
    }
}

/// The rules on allocations, for a name that is not excluded from them. The
/// first rule that applies decides.
pub open spec fn allocation_kind(n: Seq<u8>) -> Option<MemoryType> {
    if contains_sub(n, lit("dalvik")) {
        if is_managed_heap(n) {
            Some(MemoryType::Jh)
        } else {
            Some(MemoryType::J)
        }
    } else if contains_sub(n, lit("/lib")) && contains_sub(n, lit(".so")) && (contains_sub(
        n,
        lit("/data/"),
    ) || contains_sub(n, lit("/mnt/"))) {
        Some(MemoryType::Cd)
    } else if contains_sub(n, lit("malloc")) {
        Some(MemoryType::Ca)
    } else if contains_sub(n, lit("[heap]")) {
        Some(MemoryType::Ch)
    } else if contains_sub(n, lit("[stack")) {
        Some(MemoryType::S)
    } else if has_prefix(n, lit("[anon")) && anon_kind(n) is Some {
        anon_kind(n)
    } else if has_prefix(n, lit("/dev/ashmen")) && !contains_sub(n, lit("MemoryHeapBase")) {
        Some(MemoryType::As)
    } else {
        None
    }
}

/// The category of a region that cannot be executed and has the name `n`.
/// `prev_cd` says that the region before it is C `.data`.
#[verifier::opaque]
pub open spec fn classify_named(n: Seq<u8>, prev_cd: bool) -> MemoryType {
    if is_gpu_device(n) {
        MemoryType::V
    } else if has_prefix(n, lit("/dev/xLog")) {
        MemoryType::Bad
    } else if has_prefix(n, lit("/system/fonts/")) || has_prefix(n, lit("anon_inode:dmabuf")) {
        MemoryType::Bad
    } else if contains_sub(n, lit("[anon:.bss]")) {
        if prev_cd {
            MemoryType::Cd
        } else {
            MemoryType::Other
        }
    } else if has_prefix(n, lit("/system/")) {
        MemoryType::Other
    } else if contains_sub(n, lit("/dev/zero/")) {
        MemoryType::Ca
    } else if contains_sub(n, lit("PPSSPP_RAM")) {
        MemoryType::Ps
    } else if !is_excluded(n) && allocation_kind(n) is Some {
        allocation_kind(n)->0
    } else {
        MemoryType::Other
    }
}

/// The category of a region that can be executed.
pub open spec fn classify_code(name: Option<Seq<u8>>) -> MemoryType {
    match name {
        Some(n) => if contains_sub(n, lit("/data/app")) || contains_sub(n, lit("/data/user")) {
            MemoryType::Xa
        } else {
            MemoryType::Xs
        },
        None => MemoryType::Xa,
    }
}

/// The category of a region, from its name (if it has one), its permission
/// bits, its offset in the file it maps, and whether the region before it in
/// address order is C `.data`. A region whose name is empty has no name, see
/// [`name_of`]. The rules are tried in this order, and the first that applies
/// decides:
///
/// 1. a region that can be executed is code, of an application or of the system;
/// 2. a named region goes by its name, see [`classify_named`];
/// 3. a region without a name that can be read and written and starts at
///    offset 0 is anonymous memory;
/// 4. anything else is `Other`.
pub open spec fn classify(name: Option<Seq<u8>>, perms: u8, offset: int, prev_cd: bool) -> MemoryType {
    if has_flag(perms, permissions::EXECUTABLE) {
        classify_code(name)
    } else {
        match name {
            Some(n) => classify_named(n, prev_cd),
            None => if has_flag(perms, permissions::READABLE) && has_flag(
                perms,
                permissions::WRITABLE,
            ) && offset == 0 {
                MemoryType::A
            } else {
                MemoryType::Other
            },
        }
    }
}

/// The name that the classifier is given for a region with the name
/// `pathname`: a region whose name is empty has no name.
pub open spec fn name_of(pathname: Seq<u8>) -> Option<Seq<u8>> {
    if pathname.len() == 0 {
        None
    } else {
        Some(pathname)
    }
}

/// The bytes of a name that may be absent. An empty name is an absent one.
pub open spec fn name_bytes(name: Option<&str>) -> Option<Seq<u8>> {
    match name {
        Some(n) => name_of(n.spec_bytes()),
        None => None,
    }
}

fn gpu_device(n: &[u8]) -> (r: bool)
    ensures
        r == is_gpu_device(n@),
{
    starts_with(n, "/dev/mali".as_bytes()) || starts_with(n, "/dev/kgsl".as_bytes()) || starts_with(
        n,
        "/dev/nv".as_bytes(),
    ) || starts_with(n, "/dev/tegra".as_bytes()) || starts_with(n, "/dev/ion".as_bytes())
        || starts_with(n, "/dev/pvr".as_bytes()) || starts_with(n, "/dev/render".as_bytes())
        || starts_with(n, "/dev/galcore".as_bytes()) || starts_with(n, "/dev/fimg2d".as_bytes())
        || starts_with(n, "/dev/quadd".as_bytes()) || starts_with(n, "/dev/graphics".as_bytes())
        || starts_with(n, "/dev/mm_".as_bytes()) || starts_with(n, "/dev/dri/".as_bytes())
}

fn excluded(n: &[u8]) -> (r: bool)
    ensures
        r == is_excluded(n@),
{
    contains(n, "system@".as_bytes()) || contains(n, "gralloc".as_bytes()) || contains(
        n,
        "[vdso]".as_bytes(),
    ) || contains(n, "[vectors]".as_bytes()) || (starts_with(n, "/dev/".as_bytes())
        && !starts_with(n, "/dev/ashmem".as_bytes()))
}

fn managed_heap(n: &[u8]) -> (r: bool)
    ensures
        r == is_managed_heap(n@),
{
    (contains(n, "exp".as_bytes()) || contains(n, "dalvik-alloc".as_bytes()) || contains(
        n,
        "dalvik-main".as_bytes(),
    ) || contains(n, "dalvik-large".as_bytes()) || contains(n, "dalvik-free".as_bytes()))
        && !contains(n, "itmap".as_bytes()) && !contains(n, "ygote".as_bytes()) && !contains(
        n,
        "ard".as_bytes(),
    ) && !contains(n, "jit".as_bytes()) && !contains(n, "inear".as_bytes())
}

fn anon(n: &[u8]) -> (r: Option<MemoryType>)
    ensures
        r == anon_kind(n@),
{
    if contains(n, "scudo".as_bytes()) || contains(n, "libc_malloc".as_bytes()) || contains(
        n,
        "bionic_alloc_small_object".as_bytes(),
    ) {
        Some(MemoryType::Ca)
    } else if contains(n, "stack".as_bytes()) {
        Some(MemoryType::S)
    } else if contains(n, "ashmem".as_bytes()) {
        Some(MemoryType::As)
    } else if contains(n, "gfx".as_bytes()) || contains(n, "gralloc".as_bytes()) || contains(
        n,
        "dmabuf".as_bytes(),
    ) || contains(n, "GD".as_bytes()) {
        Some(MemoryType::V)
    } else {
        None
    }
}

fn allocation(n: &[u8]) -> (r: Option<MemoryType>)
    ensures
        r == allocation_kind(n@),
{
    if contains(n, "dalvik".as_bytes()) {
        if managed_heap(n) {
            return Some(MemoryType::Jh);
        } else {
            return Some(MemoryType::J);
        }
    }
    if contains(n, "/lib".as_bytes()) && contains(n, ".so".as_bytes()) && (contains(
        n,
        "/data/".as_bytes(),
    ) || contains(n, "/mnt/".as_bytes())) {
        return Some(MemoryType::Cd);
    }
    if contains(n, "malloc".as_bytes()) {
        return Some(MemoryType::Ca);
    }
    if contains(n, "[heap]".as_bytes()) {
        return Some(MemoryType::Ch);
    }
    if contains(n, "[stack".as_bytes()) {
        return Some(MemoryType::S);
    }
    if starts_with(n, "[anon".as_bytes()) {
        let kind = anon(n);
        if kind.is_some() {
            return kind;
        }
    }
    if starts_with(n, "/dev/ashmen".as_bytes()) && !contains(n, "MemoryHeapBase".as_bytes()) {
        return Some(MemoryType::As);
    }
    None
}

fn named(n: &[u8], last_is_cd: bool) -> (r: MemoryType)
    ensures
        r == classify_named(n@, last_is_cd),
{
    reveal(classify_named);
    if gpu_device(n) {
        return MemoryType::V;
    }
    if starts_with(n, "/dev/xLog".as_bytes()) {
        return MemoryType::Bad;
    }
    if starts_with(n, "/system/fonts/".as_bytes()) || starts_with(
        n,
        "anon_inode:dmabuf".as_bytes(),
    ) {
        return MemoryType::Bad;
    }
    if contains(n, "[anon:.bss]".as_bytes()) {
        return if last_is_cd {
            MemoryType::Cd
        } else {
            MemoryType::Other
        };
    }
    if starts_with(n, "/system/".as_bytes()) {
        return MemoryType::Other;
    }
    if contains(n, "/dev/zero/".as_bytes()) {
        return MemoryType::Ca;
    }
    if contains(n, "PPSSPP_RAM".as_bytes()) {
        return MemoryType::Ps;
    }
    if !excluded(n) {
        match allocation(n) {
            Some(kind) => {
                return kind;
            },
            None => {},
        }
    }
    MemoryType::Other
}

/// The error that reports a fault on the line with the given index.
pub open spec fn fault_error(fault: LineFault, line: usize) -> ProcessError {
    match fault {
        LineFault::Structure => ProcessError::ParseStructure { line },
        LineFault::Integer => ProcessError::ParseInteger { line },
    }
}

/// The error for a fault on the line with the given index.
pub fn error_at(fault: LineFault, line: usize) -> (e: ProcessError)
    ensures
        e == fault_error(fault, line),
{
    match fault {
        LineFault::Structure => ProcessError::ParseStructure { line },
        LineFault::Integer => ProcessError::ParseInteger { line },
    }
}

/// One region of the address space of a process, as the contracts speak of it.
pub struct Region {
    /// The first address of the region.
    pub start: usize,
    /// The first address after the region.
    pub end: usize,
    /// The permission bits, see [`permissions`].
    pub perms: u8,
    /// Where the region starts in the file it maps.
    pub offset: usize,
    /// The major number of the device that holds the file.
    pub major: u8,
    /// The minor number of that device.
    pub minor: u8,
    /// The inode of the file.
    pub inode: u64,
    /// The bytes of the name of the region, which may be empty.
    pub pathname: Seq<u8>,
    /// What the region is used for.
    pub category: MemoryType,
}

/// One region of the address space of a process.
#[derive(Debug)]
pub struct MapRange {
    /// The first address of the region, and the first address after it.
    pub address: (usize, usize),
    /// The permission bits, see [`permissions`].
    pub perms: u8,
    /// Where the region starts in the file it maps.
    pub offset: usize,
    /// The major and the minor number of the device that holds the file.
    pub dev: (u8, u8),
    /// The inode of the file.
    pub inode: u64,
    /// The name of the region, which may be empty.
    pub pathname: String,
    /// What the region is used for.
    pub memory_type: MemoryType,
}

impl Clone for MapRange {
    fn clone(&self) -> (r: MapRange)
        ensures
            r == *self,
    {
        MapRange {
            address: (self.address.0, self.address.1),
            perms: self.perms,
            offset: self.offset,
            dev: (self.dev.0, self.dev.1),
            inode: self.inode,
            pathname: self.pathname.clone(),
            memory_type: self.memory_type,
        }
    }
}

impl View for MapRange {
    type V = Region;

    open spec fn view(&self) -> Region {
        Region {
            start: self.address.0,
            end: self.address.1,
            perms: self.perms,
            offset: self.offset,
            major: self.dev.0,
            minor: self.dev.1,
            inode: self.inode,
            pathname: encode_utf8(self.pathname@),
            category: self.memory_type,
        }
    }
}

/// The numbers on a line of the listing, and where its name lies.
pub struct LineFields {
    pub start: usize,
    pub end: usize,
    pub perms: u8,
    pub offset: usize,
    pub major: u8,
    pub minor: u8,
    pub inode: u64,
    /// The index of the first byte of the name.
    pub path_from: usize,
    /// The index after the last byte of the name.
    pub path_to: usize,
}

/// `bit` if the permissions field `s[from..to]` has the letter at place `k`,
/// and 0 if it has another byte there or is too short.
pub open spec fn flag_at(s: Seq<u8>, from: int, to: int, k: int, letter: u8, bit: u8) -> u8 {
    if from + k < to && s[from + k] == letter {
        bit
    } else {
        0
    }
}

/// The permission bits that the field `s[from..to]` spells: `r`, `w`, `x` and
/// `s`, each at its own place.
pub open spec fn perms_of(s: Seq<u8>, from: int, to: int) -> u8 {
    flag_at(s, from, to, 0, 0x72, permissions::READABLE) | flag_at(
        s,
        from,
        to,
        1,
        0x77,
        permissions::WRITABLE,
    ) | flag_at(s, from, to, 2, 0x78, permissions::EXECUTABLE) | flag_at(
        s,
        from,
        to,
        3,
        0x73,
        permissions::SHARED,
    )
}

/// A range of addresses is a region's: not empty, and made of whole pages.
pub open spec fn is_page_range(start: int, end: int) -> bool {
    &&& 0 <= start < end
    &&& start % (PAGE_SIZE as int) == 0
    &&& end % (PAGE_SIZE as int) == 0
}

/// What a line of the listing holds. The line is made of fields with blanks
/// between them:
///
/// ```text
/// <start>-<end> <rwxp> <offset> <major>:<minor> <inode>[ <pathname>]
/// ```
///
/// `start`, `end`, `offset` and `major` are hexadecimal, `minor` and `inode`
/// decimal. The name is what follows the inode, without the blanks around it,
/// and may hold blanks itself.
///
/// The faults are looked for in this order: the shape of the line (five
/// fields, a `-` in the first and a `:` in the fourth), then the numbers, then
/// the range of addresses.
pub open spec fn line_fields(s: Seq<u8>) -> Result<LineFields, LineFault> {
    let a0 = skip_blanks(s, 0);
    let a1 = skip_token(s, a0);
    let p0 = skip_blanks(s, a1);
    let p1 = skip_token(s, p0);
    let o0 = skip_blanks(s, p1);
    let o1 = skip_token(s, o0);
    let d0 = skip_blanks(s, o1);
    let d1 = skip_token(s, d0);
    let i0 = skip_blanks(s, d1);
    let i1 = skip_token(s, i0);
    let n0 = skip_blanks(s, i1);
    let n1 = trim_end(s, n0, s.len() as int);
    let dash = find_byte(s, 0x2d, a0, a1);
    let colon = find_byte(s, 0x3a, d0, d1);
    if i0 == i1 || dash == a1 || colon == d1 {
        Err(LineFault::Structure)
    } else {
        let start = parse_number(s.subrange(a0, dash), 16, usize::MAX as int);
        let end = parse_number(s.subrange(dash + 1, a1), 16, usize::MAX as int);
        let offset = parse_number(s.subrange(o0, o1), 16, usize::MAX as int);
        let major = parse_number(s.subrange(d0, colon), 16, u8::MAX as int);
        let minor = parse_number(s.subrange(colon + 1, d1), 10, u8::MAX as int);
        let inode = parse_number(s.subrange(i0, i1), 10, u64::MAX as int);
        if start is None || end is None || offset is None || major is None || minor is None
            || inode is None {
            Err(LineFault::Integer)
        } else if !is_page_range(start->0, end->0) {
            Err(LineFault::Structure)
        } else {
            Ok(
                LineFields {
                    start: start->0 as usize,
                    end: end->0 as usize,
                    perms: perms_of(s, p0, p1),
                    offset: offset->0 as usize,
                    major: major->0 as u8,
                    minor: minor->0 as u8,
                    inode: inode->0 as u64,
                    path_from: n0 as usize,
                    path_to: n1 as usize,
                },
            )
        }
    }
}

/// The region that a line of the listing describes. `prev_cd` says that the
/// region before it is C `.data`.
#[verifier::opaque]
pub open spec fn parse_line(s: Seq<u8>, prev_cd: bool) -> Result<Region, LineFault> {
    match line_fields(s) {
        Ok(f) => {
            let pathname = s.subrange(f.path_from as int, f.path_to as int);
            Ok(
                Region {
                    start: f.start,
                    end: f.end,
                    perms: f.perms,
                    offset: f.offset,
                    major: f.major,
                    minor: f.minor,
                    inode: f.inode,
                    pathname,
                    category: classify(name_of(pathname), f.perms, f.offset as int, prev_cd),
                },
            )
        },
        Err(fault) => Err(fault),
    }
}

fn flag(s: &[u8], from: usize, to: usize, k: usize, letter: u8, bit: u8) -> (r: u8)
    requires
        from <= to <= s@.len(),
        k < 4,
    ensures
        r == flag_at(s@, from as int, to as int, k as int, letter, bit),
{
    if k < to - from && s[from + k] == letter {
        bit
    } else {
        0
    }
}

/// Reads the fields of a line of the listing.
pub fn read_fields(s: &[u8]) -> (r: Result<LineFields, LineFault>)
    ensures
        r == line_fields(s@),
        r matches Ok(f) ==> f.path_from <= f.path_to && is_cut(s@, f.path_from as int) && is_cut(
            s@,
            f.path_to as int,
        ),
{
    let len: usize = s.len();

    let a0: usize = scan_blanks(s, 0);
    let a1: usize = scan_token(s, a0);
    let p0: usize = scan_blanks(s, a1);
    let p1: usize = scan_token(s, p0);
    let o0: usize = scan_blanks(s, p1);
    let o1: usize = scan_token(s, o0);
    let d0: usize = scan_blanks(s, o1);
    let d1: usize = scan_token(s, d0);
    let i0: usize = scan_blanks(s, d1);
    let i1: usize = scan_token(s, i0);
    let n0: usize = scan_blanks(s, i1);
    let n1: usize = scan_trim_end(s, n0, len);
    proof {
        lemma_skip_token(s@, i0 as int);
        lemma_skip_blanks(s@, i1 as int);
        lemma_trim_end(s@, n0 as int, len as int);
        if i1 < n0 {
            assert(is_blank(s@[n0 - 1]));
        }
        if n1 < len {
            assert(is_blank(s@[n1 as int]));
        }
    }
    let dash: usize = scan_byte(s, 0x2d, a0, a1);
    let colon: usize = scan_byte(s, 0x3a, d0, d1);
    if i0 == i1 || dash == a1 || colon == d1 {
        return Err(LineFault::Structure);
    }
    let start = read_number(s, a0, dash, 16, usize::MAX as u64);
    let end = read_number(s, dash + 1, a1, 16, usize::MAX as u64);
    let offset = read_number(s, o0, o1, 16, usize::MAX as u64);
    let major = read_number(s, d0, colon, 16, u8::MAX as u64);
    let minor = read_number(s, colon + 1, d1, 10, u8::MAX as u64);
    let inode = read_number(s, i0, i1, 10, u64::MAX);
    match (start, end, offset, major, minor, inode) {
        (Some(start), Some(end), Some(offset), Some(major), Some(minor), Some(inode)) => {
            if start < end && start % (PAGE_SIZE as u64) == 0 && end % (PAGE_SIZE as u64) == 0 {
                let perms: u8 = flag(s, p0, p1, 0, 0x72, permissions::READABLE) | flag(
                    s,
                    p0,
                    p1,
                    1,
                    0x77,
                    permissions::WRITABLE,
                ) | flag(s, p0, p1, 2, 0x78, permissions::EXECUTABLE) | flag(
                    s,
                    p0,
                    p1,
                    3,
                    0x73,
                    permissions::SHARED,
                );
                Ok(
                    LineFields {
                        start: start as usize,
                        end: end as usize,
                        perms,
                        offset: offset as usize,
                        major: major as u8,
                        minor: minor as u8,
                        inode,
                        path_from: n0,
                        path_to: n1,
                    },
                )
            } else {
                Err(LineFault::Structure)
            }
        },
        _ => Err(LineFault::Integer),
    }
}

/// Reads a line of the listing. `last_is_cd` says that the region before it
/// is C `.data`.
pub fn parse_region(s: &str, last_is_cd: bool) -> (r: Result<MapRange, LineFault>)
    ensures
        match parse_line(s.spec_bytes(), last_is_cd) {
            Ok(region) => r matches Ok(m) && m@ == region,
            Err(fault) => r matches Err(f) && f == fault,
        },
{
    proof {
        reveal(parse_line);
    }
    let bytes = s.as_bytes();
    match read_fields(bytes) {
        Err(fault) => Err(fault),
        Ok(f) => {
            let path = substr(s, f.path_from, f.path_to);
            let offset = f.offset;
            assert((offset as i64 == 0) == (offset == 0)) by (bit_vector);
            let name = if f.path_from == f.path_to {
                None
            } else {
                Some(path)
            };
            let memory_type = MemoryType::new(name, f.perms, offset as i64, last_is_cd);
            Ok(
                MapRange {
                    address: (f.start, f.end),
                    perms: f.perms,
                    offset,
                    dev: (f.major, f.minor),
                    inode: f.inode,
                    pathname: path.to_owned(),
                    memory_type,
                },
            )
        },
    }
}

impl MapRange {
    /// Reads a line of the listing. `last_is_cd` says that the region before
    /// it is C `.data`. A fault is reported for the line with index 0.
    pub fn new(s: &str, last_is_cd: bool) -> (r: Result<MapRange, ProcessError>)
        ensures
            match parse_line(s.spec_bytes(), last_is_cd) {
                Ok(region) => r matches Ok(m) && m@ == region,
                Err(fault) => r matches Err(e) && e == fault_error(fault, 0),
            },
    {
        match parse_region(s, last_is_cd) {
            Ok(m) => Ok(m),
            Err(fault) => Err(error_at(fault, 0)),
        }
    }

    /// Whether the region can be read.
    #[inline]
    pub fn readable(&self) -> (r: bool)
        ensures
            r == has_flag(self.perms, permissions::READABLE),
    {
        self.perms & permissions::READABLE != 0
    }

    /// Whether the region can be written.
    #[inline]
    pub fn writable(&self) -> (r: bool)
        ensures
            r == has_flag(self.perms, permissions::WRITABLE),
    {
        self.perms & permissions::WRITABLE != 0
    }

    /// Whether the region can be executed.
    #[inline]
    pub fn executable(&self) -> (r: bool)
        ensures
            r == has_flag(self.perms, permissions::EXECUTABLE),
    {
        self.perms & permissions::EXECUTABLE != 0
    }

    /// Whether the region is shared with other processes.
    #[inline]
    pub fn shared(&self) -> (r: bool)
        ensures
            r == has_flag(self.perms, permissions::SHARED),
    {
        self.perms & permissions::SHARED != 0
    }
}

/// The memory map of a process.
#[derive(Debug)]
pub struct Process {
    /// The identifier of the process.
    pub pid: u32,
    /// Its regions, in the order of their addresses. Empty until the map is
    /// read.
    pub maps: Vec<MapRange>,
}

/// The regions are those of one address space: each is a range of whole
/// pages, and each ends before the next one starts.
pub open spec fn is_inventory(regions: Seq<Region>) -> bool {
    &&& forall|i: int|
        0 <= i < regions.len() ==> is_page_range(
            (#[trigger] regions[i]).start as int,
            regions[i].end as int,
        )
    &&& forall|i: int, j: int|
        0 <= i < j < regions.len() ==> (#[trigger] regions[i]).end <= (#[trigger] regions[j]).start
}

/// The regions that a listing holds from the byte `from` on, one to a line, or
/// the first fault and the index of its line. `line` is the index of the line
/// that starts at `from`, `prev_cd` says that the region before it is C
/// `.data`, and `floor` is the address where that region ends. A line feed ends
/// a line; what follows the last line feed is a line if it is not empty.
/// A region that starts below `floor` is a fault in the shape of its line.
pub open spec fn parse_listing(s: Seq<u8>, from: int, line: int, prev_cd: bool, floor: int) -> Result<
    Seq<Region>,
    (LineFault, int),
>
    decreases s.len() + 1 - from,
    via parse_listing_decreases
{
    if from < 0 || from >= s.len() {
        Ok(Seq::empty())
    } else {
        let to = find_byte(s, 0x0a, from, s.len() as int);
        match parse_line(s.subrange(from, to), prev_cd) {
            Err(fault) => Err((fault, line)),
            Ok(region) => if region.start < floor {
                Err((LineFault::Structure, line))
            } else {
                prepend(
                    seq![region],
                    parse_listing(
                        s,
                        to + 1,
                        line + 1,
                        region.category == MemoryType::Cd,
                        region.end as int,
                    ),
                )
            },
        }
    }
}

#[via_fn]
proof fn parse_listing_decreases(s: Seq<u8>, from: int, line: int, prev_cd: bool, floor: int) {
    if 0 <= from < s.len() {
        lemma_find_byte(s, 0x0a, from, s.len() as int);
    }
}

/// A region read from a line is a range of whole pages.
pub proof fn lemma_parse_line_range(s: Seq<u8>, prev_cd: bool)
    ensures
        parse_line(s, prev_cd) matches Ok(region) ==> is_page_range(
            region.start as int,
            region.end as int,
        ),
{
    reveal(parse_line);
}

/// The regions of `rest` after those of `head`, or the fault of `rest`.
pub open spec fn prepend(head: Seq<Region>, rest: Result<Seq<Region>, (LineFault, int)>) -> Result<
    Seq<Region>,
    (LineFault, int),
> {
    match rest {
        Ok(regions) => Ok(head + regions),
        Err(fault) => Err(fault),
    }
}

/// The regions that a listing holds.
pub open spec fn listing_regions(s: Seq<u8>) -> Result<Seq<Region>, (LineFault, int)> {
    parse_listing(s, 0, 0, false, 0)
}

/// The regions in a vector, as the contracts speak of them.
pub open spec fn region_views(maps: Seq<MapRange>) -> Seq<Region> {
    Seq::new(maps.len(), |i: int| maps[i]@)
}

impl Process {
    /// The regions of the process, as the contracts speak of them.
    pub open spec fn regions(&self) -> Seq<Region> {
        region_views(self.maps@)
    }

    /// The regions are those of one address space, see [`is_inventory`].
    pub open spec fn wf(&self) -> bool {
        is_inventory(self.regions())
    }

    /// A process whose memory map has not been read yet.
    pub fn new(pid: u32) -> (r: Process)
        ensures
            r.pid == pid,
            r.maps@.len() == 0,
            r.wf(),
    {
        Process { pid, maps: Vec::new() }
    }

    /// Fills the memory map from the text of the listing of the process, if it
    /// is still empty; a map that has regions is kept as it is. On a fault the
    /// map stays empty.
    pub fn maps(&mut self, listing: &str) -> (r: Result<(), ProcessError>)
        ensures
            final(self).pid == old(self).pid,
            old(self).maps@.len() > 0 ==> r is Ok && final(self).maps == old(self).maps,
            old(self).maps@.len() == 0 ==> match listing_regions(listing.spec_bytes()) {
                Ok(regions) => r is Ok && final(self).regions() == regions && final(self).wf(),
                Err((fault, line)) => r matches Err(e) && e == fault_error(fault, line as usize)
                    && final(self).maps == old(self).maps,
            },
    {
        if self.maps.len() > 0 {
            return Ok(());
        }
        self.reload(listing)
    }

    /// Reads the memory map anew from the text of the listing of the process
    /// and puts it in the place of the old one. On a fault the old map stays.
    pub fn reload(&mut self, listing: &str) -> (r: Result<(), ProcessError>)
        ensures
            final(self).pid == old(self).pid,
            match listing_regions(listing.spec_bytes()) {
                Ok(regions) => r is Ok && final(self).regions() == regions && final(self).wf(),
                Err((fault, line)) => r matches Err(e) && e == fault_error(fault, line as usize)
                    && final(self).maps == old(self).maps,
            },
    {
        match read_listing(listing) {
            Ok(regions) => {
                self.maps = regions;
                Ok(())
            },
            Err(e) => Err(e),
        }
    }
}

/// Reads the regions that a listing holds, one to a line, see
/// [`parse_listing`]. The first fault ends the reading.
pub fn read_listing(listing: &str) -> (r: Result<Vec<MapRange>, ProcessError>)
    ensures
        match listing_regions(listing.spec_bytes()) {
            Ok(regions) => r matches Ok(maps) && region_views(maps@) == regions && is_inventory(
                regions,
            ),
            Err((fault, line)) => r matches Err(e) && e == fault_error(fault, line as usize),
        },
{
    let bytes = listing.as_bytes();
    let len: usize = bytes.len();
    let mut regions: Vec<MapRange> = Vec::new();
    let mut from: usize = 0;
    let mut line: usize = 0;
    let mut last_is_cd: bool = false;
    let mut floor: usize = 0;
    while from < len
        invariant
            bytes@ == listing.spec_bytes(),
            len == bytes@.len(),
            from <= len,
            line <= from,
            from == 0 || from == len || bytes@[from - 1] == 0x0a,
            listing_regions(bytes@) == prepend(
                region_views(regions@),
                parse_listing(bytes@, from as int, line as int, last_is_cd, floor as int),
            ),
            is_inventory(region_views(regions@)),
            forall|i: int|
                0 <= i < regions@.len() ==> (#[trigger] region_views(regions@)[i]).end <= floor,
        decreases len - from,
    {
        let to: usize = scan_byte(bytes, 0x0a, from, len);
        proof {
            lemma_find_byte(bytes@, 0x0a, from as int, len as int);
        }
        let text = substr(listing, from, to);
        match parse_region(text, last_is_cd) {
            Err(fault) => {
                return Err(error_at(fault, line));
            },
            Ok(region) => {
                if region.address.0 < floor {
                    return Err(ProcessError::ParseStructure { line });
                }
                let ghost before = region_views(regions@);
                let ghost rest = parse_listing(
                    bytes@,
                    to + 1,
                    line + 1,
                    region@.category == MemoryType::Cd,
                    region@.end as int,
                );
                let ghost was_cd = last_is_cd;
                floor = region.address.1;
                last_is_cd = match region.memory_type {
                    MemoryType::Cd => true,
                    _ => false,
                };
                regions.push(region);
                proof {
                    let after = region_views(regions@);
                    lemma_parse_line_range(text.spec_bytes(), was_cd);
                    assert(after =~= before.push(region@));
                    assert forall|i: int| 0 <= i < after.len() implies is_page_range(
                        (#[trigger] after[i]).start as int,
                        after[i].end as int,
                    ) by {
                        if i < before.len() {
                            assert(after[i] == before[i]);
                        }
                    }
                    match rest {
                        Ok(tail) => {
                            assert(before + (seq![region@] + tail) =~= after + tail);
                        },
                        Err(_) => {},
                    }
                    assert forall|i: int, j: int| 0 <= i < j < after.len() implies (
                    #[trigger] after[i]).end <= (#[trigger] after[j]).start by {
                        if j == after.len() - 1 {
                            assert(before[i].end <= region@.start);
                        } else {
                            assert(before[i].end <= before[j].start);
                        }
                    }
                }
            },
        }
        if to < len {
            assert(bytes@[to as int] == 0x0a);
            from = to + 1;
        } else {
            from = len;
        }
        line += 1;
    }
    Ok(regions)
}

impl MemoryType {
    /// Classifies a region. See [`classify`] for the rules. A name that is
    /// empty is taken as no name.
    pub fn new(pathname: Option<&str>, perms: u8, offset: i64, last_is_cd: bool) -> (r: MemoryType)
        ensures
            r == classify(name_bytes(pathname), perms, offset as int, last_is_cd),
    {
        let pathname = match pathname {
            Some(name) => if name.as_bytes().len() == 0 {
                None
            } else {
                Some(name)
            },
            None => None,
        };
        if perms & permissions::EXECUTABLE != 0 {
            return match pathname {
                Some(name) => {
                    let n = name.as_bytes();
                    if contains(n, "/data/app".as_bytes()) || contains(n, "/data/user".as_bytes()) {
                        MemoryType::Xa
                    } else {
                        MemoryType::Xs
                    }
                },
                None => MemoryType::Xa,
            };
        }
        match pathname {
            Some(name) => named(name.as_bytes(), last_is_cd),
            None => {
                if perms & permissions::READABLE != 0 && perms & permissions::WRITABLE != 0
                    && offset == 0 {
                    MemoryType::A
                } else {
                    MemoryType::Other
                }
            },
        }
    }
}

} // verus!
