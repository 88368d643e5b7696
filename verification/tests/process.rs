use mempoll::process::permissions::{EXECUTABLE, READABLE, SHARED, WRITABLE};
use mempoll::process::{parse_region, LineFault, MapRange, MemoryType, Process, ProcessError};

const RW: u8 = READABLE | WRITABLE;
const RX: u8 = READABLE | EXECUTABLE;

fn named(name: &str) -> MemoryType {
    MemoryType::new(Some(name), RW, 0, false)
}

#[test]
fn parses_a_line_with_a_name_that_holds_a_blank() {
    let region =
        MapRange::new("5602b0994000-5602b0995000 rw-p 00001000 fd:02 131073 /usr/bin/foo bar", false)
            .unwrap();
    assert_eq!(region.address, (0x5602b0994000, 0x5602b0995000));
    assert_eq!(region.perms, READABLE | WRITABLE);
    assert_eq!(region.offset, 0x1000);
    assert_eq!(region.dev, (0xfd, 2));
    assert_eq!(region.inode, 131073);
    assert_eq!(region.pathname, "/usr/bin/foo bar");
    assert_eq!(region.memory_type, MemoryType::Other);
}

#[test]
fn classifies_the_heap() {
    assert_eq!(MemoryType::new(Some("[heap]"), RW, 0, false), MemoryType::Ch);
}

#[test]
fn code_is_of_an_application_or_of_the_system() {
    assert_eq!(
        MemoryType::new(Some("/data/app/com.x/lib/arm64/libgame.so"), RX, 0, false),
        MemoryType::Xa
    );
    assert_eq!(MemoryType::new(Some("/data/user/0/com.x/cache/code"), RX, 0, false), MemoryType::Xa);
    assert_eq!(MemoryType::new(Some("/system/lib64/libc.so"), RX, 0, false), MemoryType::Xs);
    assert_eq!(MemoryType::new(Some("/dev/mali0"), RX, 0, false), MemoryType::Xs);
    assert_eq!(MemoryType::new(Some("[heap]"), RX | WRITABLE, 0, true), MemoryType::Xs);
    assert_eq!(MemoryType::new(Some(""), RX, 0, false), MemoryType::Xa);
    assert_eq!(MemoryType::new(Some(" "), RX, 0, false), MemoryType::Xs);
    assert_eq!(MemoryType::new(None, RX, 0, false), MemoryType::Xa);
    assert_eq!(MemoryType::new(None, EXECUTABLE, 4096, true), MemoryType::Xa);
    assert_eq!(MemoryType::new(Some("/data/ap"), RX, 0, false), MemoryType::Xs);
    assert_eq!(MemoryType::new(Some("/x/data/application"), RX, 0, false), MemoryType::Xa);
}

#[test]
fn a_name_of_an_application_is_not_code_without_the_bit() {
    assert_eq!(named("/data/app/com.x/base.apk"), MemoryType::Other);
}

#[test]
fn graphics_devices_are_video_memory() {
    for name in [
        "/dev/mali0",
        "/dev/kgsl-3d0",
        "/dev/nvidia0",
        "/dev/tegra_dc_0",
        "/dev/ion",
        "/dev/pvrsrvkm",
        "/dev/renderD128",
        "/dev/galcore",
        "/dev/fimg2d",
        "/dev/quadd",
        "/dev/graphics/fb0",
        "/dev/mm_vcodec",
        "/dev/dri/card0",
        "/dev/mali[anon:.bss]",
    ] {
        assert_eq!(named(name), MemoryType::V, "{}", name);
    }
}

#[test]
fn other_devices_are_not_video_memory() {
    assert_eq!(named("/dev/dri"), MemoryType::Other);
    assert_eq!(named("/dev/null"), MemoryType::Other);
    assert_eq!(named("/dev/binder"), MemoryType::Other);
    assert_eq!(named("/data/dev/mali0"), MemoryType::Other);
    assert_eq!(named("x/dev/kgsl-3d0"), MemoryType::Other);
}

#[test]
fn the_log_device_fonts_and_dma_buffers_are_bad() {
    assert_eq!(named("/dev/xLog"), MemoryType::Bad);
    assert_eq!(named("/dev/xLogger"), MemoryType::Bad);
    assert_eq!(named("/system/fonts/Roboto-Regular.ttf"), MemoryType::Bad);
    assert_eq!(named("anon_inode:dmabuf"), MemoryType::Bad);
    assert_eq!(named("anon_inode:dmabuf123"), MemoryType::Bad);
}

#[test]
fn names_that_only_look_bad_are_not() {
    assert_eq!(named("/data/dev/xLog"), MemoryType::Other);
    assert_eq!(named("/system/fonts"), MemoryType::Other);
    assert_eq!(named("anon_inode:sync_file"), MemoryType::Other);
    assert_eq!(named("x anon_inode:dmabuf"), MemoryType::Other);
}

#[test]
fn bss_follows_the_region_before_it() {
    assert_eq!(MemoryType::new(Some("[anon:.bss]"), RW, 0, true), MemoryType::Cd);
    assert_eq!(MemoryType::new(Some("[anon:.bss]"), RW, 0, false), MemoryType::Other);
    assert_eq!(MemoryType::new(Some("/system/lib/[anon:.bss]"), RW, 0, true), MemoryType::Cd);
    assert_eq!(MemoryType::new(Some("[anon:.bss"), RW, 0, true), MemoryType::Other);
    assert_eq!(MemoryType::new(Some("[heap]"), RW, 0, true), MemoryType::Ch);
}

#[test]
fn files_of_the_system_are_other() {
    assert_eq!(named("/system/lib64/libc.so"), MemoryType::Other);
    assert_eq!(named("/system/framework/arm64/boot.art"), MemoryType::Other);
    assert_eq!(named("/system/bin/dalvik-main"), MemoryType::Other);
    assert_eq!(named("/system/malloc"), MemoryType::Other);
}

#[test]
fn a_name_that_only_begins_like_the_system_goes_on() {
    assert_eq!(named("/system_ext/malloc"), MemoryType::Ca);
    assert_eq!(named("/systems/[heap]"), MemoryType::Ch);
}

#[test]
fn the_zero_device_is_an_arena_and_the_emulator_has_its_own_tag() {
    assert_eq!(named("/dev/zero/1"), MemoryType::Ca);
    assert_eq!(named("x/dev/zero/y"), MemoryType::Ca);
    assert_eq!(named("/dev/zero"), MemoryType::Other);
    assert_eq!(named("PPSSPP_RAM"), MemoryType::Ps);
    assert_eq!(named("/dev/ashmem/PPSSPP_RAM (deleted)"), MemoryType::Ps);
    assert_eq!(named("PPSSPP_ROM"), MemoryType::Other);
}

#[test]
fn excluded_names_are_other() {
    assert_eq!(named("/data/dalvik-cache/arm64/system@framework@boot.art"), MemoryType::Other);
    assert_eq!(named("[anon:gralloc]"), MemoryType::Other);
    assert_eq!(named("gralloc malloc"), MemoryType::Other);
    assert_eq!(named("[vdso]"), MemoryType::Other);
    assert_eq!(named("[vectors]"), MemoryType::Other);
    assert_eq!(named("x[vdso] malloc"), MemoryType::Other);
    assert_eq!(named("/dev/malloc"), MemoryType::Other);
    assert_eq!(named("/dev/ashmen"), MemoryType::Other);
    assert_eq!(named("/dev/ashmen_x"), MemoryType::Other);
}

#[test]
fn the_shared_memory_device_is_not_excluded() {
    assert_eq!(named("/dev/ashmem/dalvik-main space (deleted)"), MemoryType::Jh);
    assert_eq!(named("/dev/ashmem/malloc"), MemoryType::Ca);
    assert_eq!(named("/dev/ashmem/MemoryHeapBase (deleted)"), MemoryType::Other);
    assert_eq!(named("[vvar]"), MemoryType::Other);
}

#[test]
fn the_managed_runtime_has_a_heap_and_the_rest() {
    for name in [
        "[anon:dalvik-main space]",
        "[anon:dalvik-main space (region space)]",
        "[anon:dalvik-alloc space]",
        "[anon:dalvik-large object space]",
        "[anon:dalvik-free list large object space]",
        "dalvik-expanded",
    ] {
        assert_eq!(named(name), MemoryType::Jh, "{}", name);
    }
    for name in [
        "[anon:dalvik-zygote space]",
        "[anon:dalvik-LinearAlloc]",
        "[anon:dalvik-card table]",
        "[anon:dalvik-jit-code-cache]",
        "[anon:dalvik-non moving space]",
        "[anon:dalvik-indirect ref table]",
        "[anon:dalvik-main space live-bitmap 3]",
        "[anon:dalvik-alloc space mark-bitmap]",
        "/data/dalvik-cache/lib/x.so",
        "dalvik malloc [heap] [stack]",
    ] {
        assert_eq!(named(name), MemoryType::J, "{}", name);
    }
}

#[test]
fn libraries_of_applications_are_data() {
    assert_eq!(named("/data/app/com.x/lib/arm64/libgame.so"), MemoryType::Cd);
    assert_eq!(named("/mnt/expand/a/lib/arm/libx.so"), MemoryType::Cd);
    assert_eq!(named("/data/lib/malloc.so"), MemoryType::Cd);
    assert_eq!(named("/vendor/lib64/libx.so"), MemoryType::Other);
    assert_eq!(named("/data/app/com.x/game.so"), MemoryType::Other);
    assert_eq!(named("/data/app/com.x/lib/game"), MemoryType::Other);
    assert_eq!(named("/vendor/lib64/libmalloc.so"), MemoryType::Ca);
}

#[test]
fn arenas_heap_and_stacks_go_by_their_names() {
    assert_eq!(named("[anon:libc_malloc]"), MemoryType::Ca);
    assert_eq!(named("jemalloc"), MemoryType::Ca);
    assert_eq!(named("malloc [heap]"), MemoryType::Ca);
    assert_eq!(named("[heap]"), MemoryType::Ch);
    assert_eq!(named("x[heap]y"), MemoryType::Ch);
    assert_eq!(named("[heap"), MemoryType::Other);
    assert_eq!(named("[heap] [stack]"), MemoryType::Ch);
    assert_eq!(named("[stack]"), MemoryType::S);
    assert_eq!(named("[stack:1234]"), MemoryType::S);
    assert_eq!(named("stack"), MemoryType::Other);
}

#[test]
fn anonymous_names_go_by_their_keywords() {
    assert_eq!(named("[anon:scudo:primary]"), MemoryType::Ca);
    assert_eq!(named("[anon:bionic_alloc_small_objects]"), MemoryType::Ca);
    assert_eq!(named("[anon:scudo stack]"), MemoryType::Ca);
    assert_eq!(named("[anon:stack_and_tls:2345]"), MemoryType::S);
    assert_eq!(named("[anon:thread signal stack]"), MemoryType::S);
    assert_eq!(named("[anon:stack ashmem]"), MemoryType::S);
    assert_eq!(named("[anon:ashmem-x]"), MemoryType::As);
    assert_eq!(named("[anon:ashmem gfx]"), MemoryType::As);
    assert_eq!(named("[anon:gfx-buffer]"), MemoryType::V);
    assert_eq!(named("[anon:dmabuf]"), MemoryType::V);
    assert_eq!(named("[anon:GD]"), MemoryType::V);
    assert_eq!(named("[anon:cfi shadow]"), MemoryType::Other);
    assert_eq!(named("[anon:gd]"), MemoryType::Other);
    assert_eq!(named("x[anon:scudo:primary]"), MemoryType::Other);
    assert_eq!(named("ashmem"), MemoryType::Other);
}

#[test]
fn memory_without_a_name_is_anonymous_if_it_can_be_read_and_written() {
    assert_eq!(MemoryType::new(None, RW, 0, false), MemoryType::A);
    assert_eq!(MemoryType::new(None, RW | SHARED, 0, true), MemoryType::A);
    assert_eq!(MemoryType::new(None, READABLE, 0, false), MemoryType::Other);
    assert_eq!(MemoryType::new(None, WRITABLE, 0, false), MemoryType::Other);
    assert_eq!(MemoryType::new(None, 0, 0, false), MemoryType::Other);
    assert_eq!(MemoryType::new(None, RW, 4096, false), MemoryType::Other);
    assert_eq!(MemoryType::new(None, RW, -1, false), MemoryType::Other);
    assert_eq!(MemoryType::new(Some(""), RW, 0, false), MemoryType::A);
    assert_eq!(MemoryType::new(Some(""), RW, 0, true), MemoryType::A);
    assert_eq!(MemoryType::new(Some(""), READABLE, 0, false), MemoryType::Other);
    assert_eq!(MemoryType::new(Some(""), RW, 8, false), MemoryType::Other);
    assert_eq!(MemoryType::new(Some(" "), RW, 0, false), MemoryType::Other);
}

#[test]
fn a_name_may_hold_characters_of_several_bytes() {
    assert_eq!(named("/data/app/ü/lib/é.so"), MemoryType::Cd);
    assert_eq!(named("é[heap]"), MemoryType::Ch);
    let region = MapRange::new("1000-2000 r--p 0 0:0 7   /tmp/é à  ", false).unwrap();
    assert_eq!(region.pathname, "/tmp/é à");
    let region = MapRange::new("1000-2000 r--p 0 0:0 7 é", false).unwrap();
    assert_eq!(region.pathname, "é");
}

#[test]
fn a_line_without_a_name_has_an_empty_name() {
    let region = MapRange::new("7f0000001000-7f0000003000 rw-p 00000000 00:00 0", false).unwrap();
    assert_eq!(region.address, (0x7f0000001000, 0x7f0000003000));
    assert_eq!(region.perms, RW);
    assert_eq!(region.offset, 0);
    assert_eq!(region.dev, (0, 0));
    assert_eq!(region.inode, 0);
    assert_eq!(region.pathname, "");
    assert_eq!(region.memory_type, MemoryType::A);
    let padded = MapRange::new("1000-2000 rw-p 00000000 00:00 0      ", false).unwrap();
    assert_eq!(padded.pathname, "");
    assert_eq!(padded.memory_type, MemoryType::A);
}

#[test]
fn a_region_without_a_name_goes_by_its_permissions_and_offset() {
    let kind = |line: &str| MapRange::new(line, false).unwrap().memory_type;
    assert_eq!(kind("7f0000000000-7f0000001000 rw-p 00000000 00:00 0"), MemoryType::A);
    assert_eq!(kind("7f0000000000-7f0000001000 rw-s 00000000 00:00 0"), MemoryType::A);
    assert_eq!(kind("7f0000000000-7f0000001000 rwxp 00000000 00:00 0"), MemoryType::Xa);
    assert_eq!(kind("7f0000000000-7f0000001000 --xp 00001000 00:00 0"), MemoryType::Xa);
    assert_eq!(kind("7f0000000000-7f0000001000 r--p 00000000 00:00 0"), MemoryType::Other);
    assert_eq!(kind("7f0000000000-7f0000001000 -w-p 00000000 00:00 0"), MemoryType::Other);
    assert_eq!(kind("7f0000000000-7f0000001000 rw-p 00001000 00:00 0"), MemoryType::Other);
    assert_eq!(kind("7f0000000000-7f0000001000 rw-p 00000000 00:00 0 x"), MemoryType::Other);
    assert_eq!(MapRange::new("1000-2000 rw-p 0 0:0 0", true).unwrap().memory_type, MemoryType::A);
    let mut process = Process::new(1);
    process.maps("1000-2000 rw-p 0 0:0 0\n2000-3000 r-xp 0 0:0 0\n3000-4000 ---p 0 0:0 0\n").unwrap();
    let kinds: Vec<MemoryType> = process.maps.iter().map(|m| m.memory_type).collect();
    assert_eq!(kinds, vec![MemoryType::A, MemoryType::Xa, MemoryType::Other]);
}

#[test]
fn the_name_is_what_follows_the_inode_without_the_blanks_around_it() {
    let region =
        MapRange::new("1000-2000 rw-p 00000000 00:00 0                          [heap]  ", false)
            .unwrap();
    assert_eq!(region.pathname, "[heap]");
    assert_eq!(region.memory_type, MemoryType::Ch);
    let region = MapRange::new("  1000-2000  rw-p\t0 0:0 0 a  b\r", false).unwrap();
    assert_eq!(region.address, (0x1000, 0x2000));
    assert_eq!(region.pathname, "a  b");
}

#[test]
fn permissions_are_read_place_by_place() {
    let perms = |text: &str| MapRange::new(&format!("1000-2000 {} 0 0:0 0", text), false).unwrap().perms;
    assert_eq!(perms("rwxs"), READABLE | WRITABLE | EXECUTABLE | SHARED);
    assert_eq!(perms("rwxp"), READABLE | WRITABLE | EXECUTABLE);
    assert_eq!(perms("r-xp"), READABLE | EXECUTABLE);
    assert_eq!(perms("---p"), 0);
    assert_eq!(perms("---s"), SHARED);
    assert_eq!(perms("rw"), READABLE | WRITABLE);
    assert_eq!(perms("r"), READABLE);
    assert_eq!(perms("wrxs"), EXECUTABLE | SHARED);
    assert_eq!(perms("xxxx"), EXECUTABLE);
    assert_eq!(perms("rwxsrwxs"), READABLE | WRITABLE | EXECUTABLE | SHARED);
    assert_eq!(SHARED, 0b1000);
}

#[test]
fn the_bits_of_a_region_can_be_asked_for() {
    let region = MapRange::new("1000-2000 r-xs 0 0:0 0", false).unwrap();
    assert!(region.readable());
    assert!(!region.writable());
    assert!(region.executable());
    assert!(region.shared());
    let region = MapRange::new("1000-2000 -w-p 0 0:0 0", false).unwrap();
    assert!(!region.readable());
    assert!(region.writable());
    assert!(!region.executable());
    assert!(!region.shared());
}

#[test]
fn the_major_number_is_hexadecimal_and_the_minor_decimal() {
    let region = MapRange::new("1000-2000 r--p 0 1f:10 99", false).unwrap();
    assert_eq!(region.dev, (0x1f, 10));
    assert_eq!(region.inode, 99);
    assert!(matches!(
        MapRange::new("1000-2000 r--p 0 00:1f 0", false),
        Err(ProcessError::ParseInteger { line: 0 })
    ));
}

#[test]
fn numbers_may_be_in_either_case_and_have_leading_zeros() {
    let region = MapRange::new("00000ABC000-00000abd000 r--p 0000000000000000000000fF000 0A:007 0042", false)
        .unwrap();
    assert_eq!(region.address, (0xabc000, 0xabd000));
    assert_eq!(region.offset, 0xff000);
    assert_eq!(region.dev, (10, 7));
    assert_eq!(region.inode, 42);
}

#[test]
fn a_line_that_lacks_a_field_is_a_fault_of_shape() {
    for line in [
        "",
        "   ",
        "1000-2000",
        "1000-2000 rw-p",
        "1000-2000 rw-p 0",
        "1000-2000 rw-p 0 0:0",
        "10002000 rw-p 0 0:0 0",
        "1000-2000 rw-p 0 00 0",
        "1000-2000 rw-p 0 0:0",
    ] {
        assert!(
            matches!(MapRange::new(line, false), Err(ProcessError::ParseStructure { line: 0 })),
            "{}",
            line
        );
        assert!(matches!(parse_region(line, false), Err(LineFault::Structure)), "{}", line);
    }
}

#[test]
fn a_number_that_cannot_be_read_is_a_fault_of_number() {
    for line in [
        "100g-2000 rw-p 0 0:0 0",
        "-2000 rw-p 0 0:0 0",
        "1000- rw-p 0 0:0 0",
        "1000-2000 rw-p xyz 0:0 0",
        "1000-2000 rw-p 0 :0 0",
        "1000-2000 rw-p 0 0: 0",
        "1000-2000 rw-p 0 100:0 0",
        "1000-2000 rw-p 0 0:256 0",
        "1000-2000 rw-p 0 0:0 1a",
        "1000-2000 rw-p 0 0:0 18446744073709551616",
        "1000-10000000000000000 rw-p 0 0:0 0",
        "+1000-2000 rw-p 0 0:0 0",
        "1000-2000-3000 rw-p 0 0:0 0",
        "1000-2000 rw-p 0 0:0:0 0",
    ] {
        assert!(
            matches!(MapRange::new(line, false), Err(ProcessError::ParseInteger { line: 0 })),
            "{}",
            line
        );
        assert!(matches!(parse_region(line, false), Err(LineFault::Integer)), "{}", line);
    }
}

#[test]
fn the_largest_numbers_are_read() {
    let region =
        MapRange::new("fffffffffffff000-ffffffffffffffff r--p ffffffffffffffff ff:255 18446744073709551615", false);
    assert!(matches!(region, Err(ProcessError::ParseStructure { line: 0 })));
    let region =
        MapRange::new("ffffffffffffe000-fffffffffffff000 r--p ffffffffffffffff ff:255 18446744073709551615", false)
            .unwrap();
    assert_eq!(region.address, (0xffffffffffffe000, 0xfffffffffffff000));
    assert_eq!(region.offset, usize::MAX);
    assert_eq!(region.dev, (255, 255));
    assert_eq!(region.inode, u64::MAX);
}

#[test]
fn a_range_must_be_of_whole_pages_and_not_empty() {
    for line in [
        "1000-1000 rw-p 0 0:0 0",
        "2000-1000 rw-p 0 0:0 0",
        "1001-2000 rw-p 0 0:0 0",
        "1000-2001 rw-p 0 0:0 0",
        "0-fff rw-p 0 0:0 0",
    ] {
        assert!(
            matches!(MapRange::new(line, false), Err(ProcessError::ParseStructure { line: 0 })),
            "{}",
            line
        );
    }
    assert_eq!(MapRange::new("0-1000 rw-p 0 0:0 0", false).unwrap().address, (0, 0x1000));
}

#[test]
fn the_shape_of_a_line_is_looked_at_before_its_numbers() {
    assert!(matches!(
        MapRange::new("zzzz-2000 rw-p 0 00 0", false),
        Err(ProcessError::ParseStructure { line: 0 })
    ));
    assert!(matches!(
        MapRange::new("2000-1000 rw-p zz 0:0 0", false),
        Err(ProcessError::ParseInteger { line: 0 })
    ));
}

fn same_but_category(a: &MapRange, b: &MapRange) -> bool {
    a.address == b.address
        && a.perms == b.perms
        && a.offset == b.offset
        && a.dev == b.dev
        && a.inode == b.inode
        && a.pathname == b.pathname
}

#[test]
fn a_region_written_as_a_line_is_read_back() {
    for line in [
        "5602b0994000-5602b0995000 rw-p 00001000 fd:02 131073 /usr/bin/foo bar",
        "1000-2000 ---p 0 0:0 0",
        "7ffc00000000-7ffc00021000 rwxs ffff000 ff:255 18446744073709551615 [stack]",
        "0-1000 r-xp 0 a:1 1 é  x",
    ] {
        let region = MapRange::new(line, false).unwrap();
        let written = String::from_utf8(region.to_line()).unwrap();
        let back = MapRange::new(&written, false).unwrap();
        assert!(same_but_category(&region, &back), "{}", written);
        assert_eq!(region.memory_type, back.memory_type);
    }
}

#[test]
fn a_line_is_written_with_single_blanks_and_short_numbers() {
    let region =
        MapRange::new("  00001000-00002000   rw-s 00000010  0A:07 0042     /x y  ", false).unwrap();
    assert_eq!(String::from_utf8(region.to_line()).unwrap(), "1000-2000 rw-s 10 a:7 42 /x y");
    let region = MapRange::new("0-1000 --xp 0 0:0 0", false).unwrap();
    assert_eq!(String::from_utf8(region.to_line()).unwrap(), "0-1000 --xp 0 0:0 0");
}

#[test]
fn a_built_region_is_written_and_read_back() {
    let region = MapRange {
        address: (0x10_0000, 0x11_0000),
        perms: READABLE | SHARED,
        offset: 0x1234,
        dev: (8, 1),
        inode: 77,
        pathname: "/data/app/x/lib/liby.so".to_string(),
        memory_type: MemoryType::Bad,
    };
    let written = String::from_utf8(region.to_line()).unwrap();
    assert_eq!(written, "100000-110000 r--s 1234 8:1 77 /data/app/x/lib/liby.so");
    let back = MapRange::new(&written, false).unwrap();
    assert!(same_but_category(&region, &back));
    assert_eq!(back.memory_type, MemoryType::Cd);
}

const LISTING: &str = "\
00400000-00452000 r-xp 00000000 08:02 173521 /usr/bin/dbus-daemon
00651000-00652000 r--p 00051000 08:02 173521 /data/app/x/lib/libz.so
00652000-00655000 rw-p 00052000 08:02 173521 [anon:.bss]
00e03000-00e24000 rw-p 00000000 00:00 0 [heap]
00e24000-011f7000 rw-p 00000000 00:00 0 [anon:.bss]
7ffc00000000-7ffc00021000 rw-p 00000000 00:00 0 [stack]
";

#[test]
fn a_listing_fills_the_map_in_the_order_of_the_addresses() {
    let mut process = Process::new(42);
    assert_eq!(process.pid, 42);
    assert!(process.maps.is_empty());
    process.maps(LISTING).unwrap();
    assert_eq!(process.pid, 42);
    assert_eq!(process.maps.len(), 6);
    for pair in process.maps.windows(2) {
        assert!(pair[0].address.1 <= pair[1].address.0);
    }
    for region in &process.maps {
        assert!(region.address.0 < region.address.1);
        assert_eq!(region.address.0 % 4096, 0);
        assert_eq!(region.address.1 % 4096, 0);
    }
    let kinds: Vec<MemoryType> = process.maps.iter().map(|m| m.memory_type).collect();
    assert_eq!(
        kinds,
        vec![
            MemoryType::Xs,
            MemoryType::Cd,
            MemoryType::Cd,
            MemoryType::Ch,
            MemoryType::Other,
            MemoryType::S
        ]
    );
    assert_eq!(process.maps[5].pathname, "[stack]");
}

#[test]
fn a_map_that_has_regions_is_kept() {
    let mut process = Process::new(1);
    process.maps("1000-2000 r--p 0 0:0 0 first\n").unwrap();
    process.maps(LISTING).unwrap();
    assert_eq!(process.maps.len(), 1);
    assert_eq!(process.maps[0].pathname, "first");
    process.maps("not a listing").unwrap();
    assert_eq!(process.maps.len(), 1);
}

#[test]
fn a_fault_names_its_line_and_leaves_the_map_empty() {
    let mut process = Process::new(1);
    let r = process.maps("1000-2000 r--p 0 0:0 0\n2000-3000 r--p 0 0:0 0\n3000-4000 r--p zz 0:0 0\n");
    assert!(matches!(r, Err(ProcessError::ParseInteger { line: 2 })));
    assert!(process.maps.is_empty());
    let r = process.maps("1000-2000 r--p 0 0:0 0\n\n2000-3000 r--p 0 0:0 0\n");
    assert!(matches!(r, Err(ProcessError::ParseStructure { line: 1 })));
    assert!(process.maps.is_empty());
    let r = process.maps("bad");
    assert!(matches!(r, Err(ProcessError::ParseStructure { line: 0 })));
}

#[test]
fn regions_out_of_order_are_a_fault() {
    let mut process = Process::new(1);
    let r = process.maps("2000-3000 r--p 0 0:0 0\n1000-2000 r--p 0 0:0 0\n");
    assert!(matches!(r, Err(ProcessError::ParseStructure { line: 1 })));
    assert!(process.maps.is_empty());
    let r = process.maps("1000-3000 r--p 0 0:0 0\n2000-4000 r--p 0 0:0 0\n");
    assert!(matches!(r, Err(ProcessError::ParseStructure { line: 1 })));
    process.maps("1000-3000 r--p 0 0:0 0\n3000-4000 r--p 0 0:0 0").unwrap();
    assert_eq!(process.maps.len(), 2);
}

#[test]
fn an_empty_listing_gives_an_empty_map() {
    let mut process = Process::new(1);
    process.maps("").unwrap();
    assert!(process.maps.is_empty());
    let r = process.maps("\n");
    assert!(matches!(r, Err(ProcessError::ParseStructure { line: 0 })));
}

#[test]
fn lines_may_end_with_a_carriage_return() {
    let mut process = Process::new(1);
    process.maps("1000-2000 r--p 0 0:0 0 a\r\n2000-3000 r--p 0 0:0 0\r\n").unwrap();
    assert_eq!(process.maps.len(), 2);
    assert_eq!(process.maps[0].pathname, "a");
    assert_eq!(process.maps[1].pathname, "");
}

#[test]
fn a_region_can_be_copied() {
    let region = MapRange::new("1000-2000 rw-p 10 1:2 3 name", false).unwrap();
    let copy = region.clone();
    assert!(same_but_category(&region, &copy));
    assert_eq!(copy.memory_type, region.memory_type);
}

#[test]
fn a_map_is_read_anew_on_demand() {
    let mut process = Process::new(9);
    process.maps("1000-2000 r--p 0 0:0 0 first\n").unwrap();
    process.reload(LISTING).unwrap();
    assert_eq!(process.maps.len(), 6);
    assert_eq!(process.pid, 9);
    let r = process.reload("1000-2000 r--p 0 0:0 0\nxyz\n");
    assert!(matches!(r, Err(ProcessError::ParseStructure { line: 1 })));
    assert_eq!(process.maps.len(), 6);
    process.reload("").unwrap();
    assert!(process.maps.is_empty());
}

#[test]
fn a_listing_is_read_into_regions() {
    let regions = mempoll::process::read_listing(LISTING).unwrap();
    assert_eq!(regions.len(), 6);
    assert_eq!(regions[3].address, (0xe03000, 0xe24000));
    assert_eq!(regions[3].memory_type, MemoryType::Ch);
    assert!(matches!(
        mempoll::process::read_listing("1000-2000 r--p 0 0:0 0\n1000-2000 r--p 0 0:0 0"),
        Err(ProcessError::ParseStructure { line: 1 })
    ));
}

fn scramble(state: &mut u64) -> u64 {
    *state = state.wrapping_mul(6364136223846793005).wrapping_add(1442695040888963407);
    *state >> 33
}

#[test]
fn every_name_and_permission_has_one_of_the_categories() {
    let parts = [
        "/dev/", "mali", "kgsl", "/system/", "fonts/", "[anon:", ".bss]", "dalvik", "-main", "jit",
        "/lib", ".so", "/data/", "app", "malloc", "[heap]", "[stack", "scudo", "ashmem", "gfx", "GD",
        "system@", "gralloc", "[vdso]", "PPSSPP_RAM", "/dev/zero/", "x", " ", "é", "]",
    ];
    let all = [
        MemoryType::Bad,
        MemoryType::V,
        MemoryType::Ca,
        MemoryType::Cb,
        MemoryType::Cd,
        MemoryType::Ch,
        MemoryType::Jh,
        MemoryType::J,
        MemoryType::A,
        MemoryType::Xs,
        MemoryType::Xa,
        MemoryType::S,
        MemoryType::As,
        MemoryType::Ps,
        MemoryType::Other,
    ];
    let mut state = 12345u64;
    let mut seen = Vec::new();
    for round in 0..4000 {
        let mut name = String::new();
        for _ in 0..(scramble(&mut state) % 5) {
            name.push_str(parts[(scramble(&mut state) % parts.len() as u64) as usize]);
        }
        let perms = (scramble(&mut state) % 16) as u8;
        let offset = (scramble(&mut state) % 3) as i64 * 4096;
        let prev = scramble(&mut state) % 2 == 0;
        let absent = round % 7 == 0;
        let kind = MemoryType::new(if absent { None } else { Some(&name) }, perms, offset, prev);
        assert!(all.contains(&kind));
        if perms & EXECUTABLE != 0 {
            assert!(kind == MemoryType::Xa || kind == MemoryType::Xs);
        } else {
            assert!(kind != MemoryType::Xa && kind != MemoryType::Xs);
            assert!(kind != MemoryType::Cb);
            let nameless = absent || name.is_empty();
            assert_eq!(kind == MemoryType::A, nameless && perms & RW == RW && offset == 0);
        }
        if !seen.contains(&kind) {
            seen.push(kind);
        }
    }
    assert!(seen.len() > 8);
}
