use mempoll::memory::{MemoryError, MemoryReader};
use mempoll::process::{MapRange, MemoryType};
use mempoll::searcher::walk::{scan_chunk, scan_range, scan_ranges, search_regions, select};
use mempoll::searcher::{SearchError, SearchRule, SearchType, LANE_BYTES};

fn bytes_of_i16(values: &[i16]) -> Vec<u8> {
    let mut bytes = Vec::new();
    for v in values {
        bytes.extend_from_slice(&v.to_le_bytes());
    }
    bytes
}

fn bytes_of_u32(values: &[u32]) -> Vec<u8> {
    let mut bytes = Vec::new();
    for v in values {
        bytes.extend_from_slice(&v.to_le_bytes());
    }
    bytes
}

fn bytes_of_i64(values: &[i64]) -> Vec<u8> {
    let mut bytes = Vec::new();
    for v in values {
        bytes.extend_from_slice(&v.to_le_bytes());
    }
    bytes
}

#[test]
fn finds_the_values_below_a_bound() {
    let data = bytes_of_i16(&[
        99, 90, 53, 92, 29, 39, 42, 12, 92, 79, 23, 8, 22, 53, 59, 85, 83, 18, 96, 12,
    ]);
    let found = SearchType::Lt(12i16).search(&data, data.len());
    assert_eq!(found, vec![22]);
    assert_eq!(SearchType::Lt(12i16).search_scalar(&data, data.len()), vec![22]);
    assert_eq!(SearchType::Le(12i16).search(&data, data.len()), vec![14, 22, 38]);
}

#[test]
fn finds_the_values_in_a_closed_range() {
    let data = bytes_of_u32(&[5, 10, 40, 41, 39]);
    let found = SearchType::Bte(10u32, 40u32).search(&data, data.len());
    assert_eq!(found, vec![4, 8, 16]);
}

#[test]
fn each_condition_has_its_own_bounds() {
    let data = bytes_of_u32(&[5, 10, 40, 41, 39, 10]);
    let len = data.len();
    assert_eq!(SearchType::Eq(10u32).search(&data, len), vec![4, 20]);
    assert_eq!(SearchType::Gt(40u32).search(&data, len), vec![12]);
    assert_eq!(SearchType::Ge(40u32).search(&data, len), vec![8, 12]);
    assert_eq!(SearchType::Lt(10u32).search(&data, len), vec![0]);
    assert_eq!(SearchType::Le(10u32).search(&data, len), vec![0, 4, 20]);
    assert_eq!(SearchType::Bte(10u32, 40u32).search(&data, len), vec![4, 8, 16, 20]);
    assert_eq!(SearchType::Bter(10u32, 40u32).search(&data, len), vec![4, 16, 20]);
    assert_eq!(SearchType::Btel(10u32, 40u32).search(&data, len), vec![8, 16]);
}

#[test]
fn a_range_with_its_bounds_the_wrong_way_round_finds_nothing() {
    let data = bytes_of_u32(&[5, 10, 40, 41, 39]);
    assert_eq!(SearchType::Bte(40u32, 10u32).search(&data, data.len()), Vec::<usize>::new());
    assert_eq!(SearchType::Bter(10u32, 10u32).search(&data, data.len()), Vec::<usize>::new());
    assert_eq!(SearchType::Btel(10u32, 10u32).search(&data, data.len()), Vec::<usize>::new());
    assert_eq!(SearchType::Bte(10u32, 10u32).search(&data, data.len()), vec![4]);
}

#[test]
fn signed_values_are_compared_as_signed() {
    let data = bytes_of_i64(&[-1, 0, 1, i64::MIN, i64::MAX, -1]);
    let len = data.len();
    assert_eq!(SearchType::Lt(0i64).search(&data, len), vec![0, 24, 40]);
    assert_eq!(SearchType::Eq(-1i64).search(&data, len), vec![0, 40]);
    assert_eq!(SearchType::Eq(i64::MIN).search(&data, len), vec![24]);
    assert_eq!(SearchType::Ge(i64::MAX).search(&data, len), vec![32]);
    assert_eq!(SearchType::Bte(-1i64, 1i64).search(&data, len), vec![0, 8, 16, 40]);
    let bytes: Vec<u8> = vec![0x80, 0x7f, 0xff, 0x00];
    assert_eq!(SearchType::Lt(0i8).search(&bytes, 4), vec![0, 2]);
    assert_eq!(SearchType::Eq(-128i8).search(&bytes, 4), vec![0]);
    assert_eq!(SearchType::Gt(0x7fu8).search(&bytes, 4), vec![0, 2]);
}

#[test]
fn unsigned_values_are_compared_as_unsigned() {
    let data: Vec<u8> = [u64::MAX, 0, 1u64 << 63].iter().flat_map(|v| v.to_le_bytes()).collect();
    assert_eq!(SearchType::Gt(1u64).search(&data, data.len()), vec![0, 16]);
    assert_eq!(SearchType::Eq(u64::MAX).search(&data, data.len()), vec![0]);
    let data: Vec<u8> = [0xfffeu16, 1, 0x8000].iter().flat_map(|v| v.to_le_bytes()).collect();
    assert_eq!(SearchType::Ge(0x8000u16).search(&data, data.len()), vec![0, 4]);
}

#[test]
fn values_of_the_width_of_an_address_are_searched() {
    let data: Vec<u8> =
        [usize::MAX, 7usize, 0usize].iter().flat_map(|v| v.to_le_bytes()).collect();
    let size = std::mem::size_of::<usize>();
    assert_eq!(SearchType::Eq(7usize).search(&data, data.len()), vec![size]);
    assert_eq!(SearchType::Eq(usize::MAX).search(&data, data.len()), vec![0]);
    let data: Vec<u8> = [-1isize, 7, isize::MIN].iter().flat_map(|v| v.to_le_bytes()).collect();
    assert_eq!(SearchType::Lt(0isize).search(&data, data.len()), vec![0, 2 * size]);
}

#[test]
fn the_bytes_of_a_value_lie_least_significant_first() {
    let data: Vec<u8> = vec![0xef, 0xbe, 0xad, 0xde, 0xde, 0xad, 0xbe, 0xef];
    assert_eq!(SearchType::Eq(0xdeadbeefu32).search(&data, 8), vec![0]);
    assert_eq!(SearchType::Eq(0xefbeaddeu32).search(&data, 8), vec![4]);
    assert_eq!(SearchType::Eq(0xbeefu16).search(&data, 8), vec![0]);
}

#[test]
fn only_whole_elements_at_their_places_are_looked_at() {
    let data: Vec<u8> = vec![0, 7, 0, 0, 0, 7, 0, 0, 0, 7];
    assert_eq!(SearchType::Eq(7u32).search(&data, data.len()), vec![]);
    assert_eq!(SearchType::Eq(0x700u32).search(&data, data.len()), vec![0, 4]);
    assert_eq!(SearchType::Eq(7u8).search(&data, data.len()), vec![1, 5, 9]);
    assert_eq!(SearchType::Eq(0x700u16).search(&data, data.len()), vec![0, 4, 8]);
}

#[test]
fn no_more_than_the_given_length_is_looked_at() {
    let data = bytes_of_u32(&[1, 1, 1, 1, 1]);
    assert_eq!(SearchType::Eq(1u32).search(&data, 0), vec![]);
    assert_eq!(SearchType::Eq(1u32).search(&data, 3), vec![]);
    assert_eq!(SearchType::Eq(1u32).search(&data, 4), vec![0]);
    assert_eq!(SearchType::Eq(1u32).search(&data, 11), vec![0, 4]);
    assert_eq!(SearchType::Eq(1u32).search(&data, 20), vec![0, 4, 8, 12, 16]);
    assert_eq!(SearchType::Eq(1u32).search(&data, 1000), vec![0, 4, 8, 12, 16]);
    assert_eq!(SearchType::Eq(1u32).search(&[], 16), vec![]);
    assert_eq!(SearchType::Eq(1u32).search_scalar(&data, 11), vec![0, 4]);
    assert_eq!(SearchType::Eq(1u32).search_scalar(&data, 1000), vec![0, 4, 8, 12, 16]);
}

fn noise(seed: u64, len: usize) -> Vec<u8> {
    let mut state = seed;
    let mut bytes = Vec::with_capacity(len);
    for _ in 0..len {
        state = state.wrapping_mul(6364136223846793005).wrapping_add(1442695040888963407);
        bytes.push((state >> 33) as u8 & 0x0f);
    }
    bytes
}

fn rules_u8() -> Vec<SearchType<u8>> {
    vec![
        SearchType::Eq(3),
        SearchType::Gt(3),
        SearchType::Ge(3),
        SearchType::Lt(3),
        SearchType::Le(3),
        SearchType::Bte(2, 9),
        SearchType::Bter(2, 9),
        SearchType::Btel(2, 9),
    ]
}

#[test]
fn groups_and_single_elements_find_the_same() {
    assert_eq!(LANE_BYTES, 16);
    for len in [0usize, 1, 15, 16, 17, 31, 32, 33, 100, 257] {
        let data = noise(len as u64 + 1, len);
        for rule in rules_u8() {
            assert_eq!(rule.search(&data, len), rule.search_scalar(&data, len));
        }
        for rule in [SearchType::Lt(0x0500u16), SearchType::Bte(0x0101, 0x0a0a), SearchType::Eq(0x0303)] {
            assert_eq!(rule.search(&data, len), rule.search_scalar(&data, len));
        }
        for rule in [SearchType::Gt(0x0800_0000i32), SearchType::Bter(0, 0x0400_0000), SearchType::Le(0x0101_0101)] {
            assert_eq!(rule.search(&data, len), rule.search_scalar(&data, len));
        }
        for rule in [SearchType::Ge(0x0800_0000_0000_0000u64), SearchType::Btel(1, 0x0700_0000_0000_0000)] {
            assert_eq!(rule.search(&data, len), rule.search_scalar(&data, len));
        }
    }
}

#[test]
fn the_offsets_are_those_of_the_matches_and_rise() {
    let data = noise(7, 203);
    for rule in rules_u8() {
        let found = rule.search(&data, 200);
        let wanted: Vec<usize> = (0..200)
            .filter(|&i| {
                let v = data[i];
                match rule {
                    SearchType::Eq(a) => v == a,
                    SearchType::Gt(a) => v > a,
                    SearchType::Ge(a) => v >= a,
                    SearchType::Lt(a) => v < a,
                    SearchType::Le(a) => v <= a,
                    SearchType::Bte(a, b) => v >= a && v <= b,
                    SearchType::Bter(a, b) => v >= a && v < b,
                    SearchType::Btel(a, b) => v > a && v <= b,
                }
            })
            .collect();
        assert_eq!(found, wanted);
        assert!(found.windows(2).all(|w| w[0] < w[1]));
    }
    let found = SearchType::Ge(0u32).search(&data, 203);
    assert_eq!(found, (0..50).map(|i| i * 4).collect::<Vec<usize>>());
}

#[test]
fn the_matches_of_a_chunk_are_given_as_addresses() {
    let data = bytes_of_u32(&[9, 1, 9, 9]);
    let mut out = vec![5usize];
    scan_chunk(SearchType::Eq(9u32), &data, 16, 0x1000, &mut out);
    assert_eq!(out, vec![5, 0x1000, 0x1008, 0x100c]);
    scan_chunk(SearchType::Eq(9u32), &data, 11, 0x2000, &mut out);
    assert_eq!(out, vec![5, 0x1000, 0x1008, 0x100c, 0x2000]);
    scan_chunk(SearchType::Eq(9u32), &data, 12, 0x2800, &mut out);
    assert_eq!(out, vec![5, 0x1000, 0x1008, 0x100c, 0x2000, 0x2800, 0x2808]);
    scan_chunk(SearchType::Eq(7u32), &data, 16, 0x3000, &mut out);
    assert_eq!(out.len(), 7);
}

/// A memory that holds `bytes` from the address `base` on and answers a read
/// with at most `grant` bytes.
struct Image {
    base: usize,
    bytes: Vec<u8>,
    grant: usize,
    reads: Vec<(usize, usize)>,
    fail_at: Option<usize>,
}

impl Image {
    fn new(base: usize, bytes: Vec<u8>, grant: usize) -> Image {
        Image { base, bytes, grant, reads: Vec::new(), fail_at: None }
    }
}

impl MemoryReader for Image {
    fn readbuf(&mut self, address: usize, buf: &mut [u8]) -> Result<usize, MemoryError> {
        self.reads.push((address, buf.len()));
        if self.fail_at == Some(address) {
            return Err(MemoryError::Io("unreadable".to_string()));
        }
        let n = buf.len().min(self.grant);
        for i in 0..n {
            buf[i] = self.bytes[address - self.base + i];
        }
        Ok(n)
    }
}

#[test]
fn a_match_is_reported_at_its_address_in_the_process() {
    let mut bytes = vec![0u8; 0x1_0000];
    bytes[0x1234..0x1238].copy_from_slice(&0xdeadbeefu32.to_le_bytes());
    let mut image = Image::new(0x10_0000, bytes, usize::MAX);
    let mut chunk = vec![0u8; 4096];
    let mut out = Vec::new();
    scan_range(&mut image, SearchType::Eq(0xdeadbeefu32), 0x10_0000, 0x11_0000, &mut chunk, &mut out)
        .unwrap();
    assert_eq!(out, vec![0x10_1234]);
    assert_eq!(image.reads.len(), 16);
    assert_eq!(image.reads[1], (0x10_1000, 4096));
}

#[test]
fn a_range_without_bytes_is_not_read() {
    let mut image = Image::new(0x1000, vec![1u8; 16], usize::MAX);
    let mut chunk = vec![0u8; 8];
    let mut out = vec![3usize];
    scan_range(&mut image, SearchType::Eq(1u8), 0x1000, 0x1000, &mut chunk, &mut out).unwrap();
    scan_range(&mut image, SearchType::Eq(1u8), 0x1008, 0x1000, &mut chunk, &mut out).unwrap();
    assert_eq!(out, vec![3]);
    assert!(image.reads.is_empty());
    let found = search_regions(
        &mut image,
        &vec![region(0x1000, 0x1000, "")],
        SearchType::Eq(1u8),
        None::<fn(&MapRange) -> bool>,
        8,
    )
    .unwrap();
    assert!(found.is_empty());
    assert!(image.reads.is_empty());
}

#[test]
fn a_read_that_brings_nothing_ends_the_scan() {
    let mut image = Image::new(0x1000, vec![1u8; 64], 0);
    let mut chunk = vec![0u8; 16];
    let mut out = Vec::new();
    let r = scan_range(&mut image, SearchType::Eq(1u8), 0x1000, 0x1040, &mut chunk, &mut out);
    assert!(matches!(r, Err(SearchError::ScanNoProgress { address: 0x1000 })));
    assert_eq!(image.reads, vec![(0x1000, 16)]);
    assert!(out.is_empty());
}

#[test]
fn a_buffer_without_bytes_makes_no_progress() {
    let mut image = Image::new(0x1000, vec![1u8; 64], usize::MAX);
    let mut out = Vec::new();
    let r = scan_ranges(&mut image, SearchType::Eq(1u8), &vec![(0x1000, 0x1040)], 0, &mut out);
    assert!(matches!(r, Err(SearchError::ScanNoProgress { address: 0x1000 })));
}

#[test]
fn full_reads_are_as_many_as_the_range_has_chunks() {
    for (len, size, wanted) in [(64usize, 16usize, 4usize), (65, 16, 5), (15, 16, 1), (16, 16, 1), (1, 1, 1), (100, 7, 15)] {
        let mut image = Image::new(0x1000, vec![0u8; len], usize::MAX);
        let mut chunk = vec![0u8; size];
        let mut out = Vec::new();
        scan_range(&mut image, SearchType::Eq(1u8), 0x1000, 0x1000 + len, &mut chunk, &mut out).unwrap();
        assert_eq!(image.reads.len(), wanted);
        assert_eq!(image.reads.len(), (len + size - 1) / size);
        assert_eq!(image.reads[wanted - 1].0 + image.reads[wanted - 1].1, 0x1000 + len);
    }
}

#[test]
fn the_next_read_starts_where_the_last_one_stopped() {
    let bytes: Vec<u8> = (0..40u8).collect();
    let mut image = Image::new(0x1000, bytes, 6);
    let mut chunk = vec![0u8; 16];
    let mut out = Vec::new();
    scan_range(&mut image, SearchType::Ge(0u16), 0x1000, 0x1028, &mut chunk, &mut out).unwrap();
    let starts: Vec<usize> = image.reads.iter().map(|r| r.0).collect();
    assert_eq!(starts, vec![0x1000, 0x1006, 0x100c, 0x1012, 0x1018, 0x101e, 0x1024]);
    assert_eq!(image.reads[0].1, 16);
    assert_eq!(image.reads[6].1, 4);
    assert_eq!(out.len(), 3 * 6 + 2);
    assert!(out.windows(2).all(|w| w[0] < w[1]));
}

#[test]
fn bytes_that_a_short_read_left_in_the_buffer_are_not_searched() {
    let mut bytes = vec![0u8; 32];
    bytes[0] = 9;
    let mut image = Image::new(0x1000, bytes, 8);
    let mut chunk = vec![9u8; 16];
    let mut out = Vec::new();
    scan_range(&mut image, SearchType::Eq(9u8), 0x1000, 0x1020, &mut chunk, &mut out).unwrap();
    assert_eq!(out, vec![0x1000]);
}

#[test]
fn a_read_that_fails_ends_the_scan_and_keeps_what_was_found() {
    let mut image = Image::new(0x1000, vec![1u8; 64], usize::MAX);
    image.fail_at = Some(0x1020);
    let mut chunk = vec![0u8; 16];
    let mut out = Vec::new();
    let r = scan_range(&mut image, SearchType::Eq(1u64), 0x1000, 0x1040, &mut chunk, &mut out);
    assert!(matches!(r, Err(SearchError::ReadError(MemoryError::Io(_)))));
    assert_eq!(image.reads.len(), 3);
    assert_eq!(out.len(), 0);
    let mut out = Vec::new();
    let mut image = Image::new(0x1000, vec![1u8; 64], usize::MAX);
    image.fail_at = Some(0x1020);
    let r = scan_range(&mut image, SearchType::Eq(0x0101u16), 0x1000, 0x1040, &mut chunk, &mut out);
    assert!(r.is_err());
    assert_eq!(out, (0..16).map(|i| 0x1000 + 2 * i).collect::<Vec<usize>>());
}

fn region(start: usize, end: usize, name: &str) -> MapRange {
    MapRange {
        address: (start, end),
        perms: 3,
        offset: 0,
        dev: (0, 0),
        inode: 0,
        pathname: name.to_string(),
        memory_type: MemoryType::new(Some(name), 3, 0, false),
    }
}

#[test]
fn the_filter_picks_the_regions() {
    let regions = vec![
        region(0x1000, 0x2000, "[heap]"),
        region(0x2000, 0x3000, "[stack]"),
        region(0x5000, 0x6000, "[heap]"),
    ];
    let all = select(&regions, &None::<fn(&MapRange) -> bool>);
    assert_eq!(all, vec![(0x1000, 0x2000), (0x2000, 0x3000), (0x5000, 0x6000)]);
    let heaps = select(&regions, &Some(|m: &MapRange| m.memory_type == MemoryType::Ch));
    assert_eq!(heaps, vec![(0x1000, 0x2000), (0x5000, 0x6000)]);
    let none = select(&regions, &Some(|_: &MapRange| false));
    assert!(none.is_empty());
    assert!(select(&Vec::new(), &Some(|_: &MapRange| true)).is_empty());
}

#[test]
fn a_search_goes_through_the_picked_regions_in_order() {
    let mut bytes = vec![0u8; 0x6000];
    for at in [0x1010usize, 0x1ffc, 0x2000, 0x2abc, 0x4000, 0x5008, 0x5ffc] {
        bytes[at..at + 4].copy_from_slice(&77u32.to_le_bytes());
    }
    let regions = vec![
        region(0x1000, 0x2000, "[heap]"),
        region(0x2000, 0x3000, "[stack]"),
        region(0x5000, 0x6000, "[heap]"),
    ];
    let mut image = Image::new(0, bytes, usize::MAX);
    let found =
        search_regions(&mut image, &regions, SearchType::Eq(77u32), None::<fn(&MapRange) -> bool>, 4096)
            .unwrap();
    assert_eq!(found, vec![0x1010, 0x1ffc, 0x2000, 0x2abc, 0x5008, 0x5ffc]);
    assert_eq!(image.reads, vec![(0x1000, 4096), (0x2000, 4096), (0x5000, 4096)]);
    let found = search_regions(
        &mut image,
        &regions,
        SearchType::Eq(77u32),
        Some(|m: &MapRange| m.memory_type == MemoryType::Ch),
        1024,
    )
    .unwrap();
    assert_eq!(found, vec![0x1010, 0x1ffc, 0x5008, 0x5ffc]);
    assert!(found.windows(2).all(|w| w[0] < w[1]));
}

#[test]
fn a_search_ends_with_the_first_error() {
    let regions = vec![region(0x1000, 0x2000, "a"), region(0x2000, 0x3000, "b")];
    let mut image = Image::new(0, vec![0u8; 0x3000], usize::MAX);
    image.fail_at = Some(0x2000);
    let r = search_regions(&mut image, &regions, SearchType::Eq(1u8), None::<fn(&MapRange) -> bool>, 4096);
    assert!(matches!(r, Err(SearchError::ReadError(_))));
    let mut image = Image::new(0, vec![0u8; 0x3000], 0);
    let r = search_regions(&mut image, &regions, SearchType::Eq(1u8), None::<fn(&MapRange) -> bool>, 4096);
    assert!(matches!(r, Err(SearchError::ScanNoProgress { address: 0x1000 })));
}

#[test]
fn a_value_that_straddles_two_chunks_is_not_found() {
    let mut bytes = vec![0u8; 32];
    bytes[14..18].copy_from_slice(&5u32.to_le_bytes());
    bytes[20..24].copy_from_slice(&5u32.to_le_bytes());
    let mut image = Image::new(0x1000, bytes, usize::MAX);
    let mut out = Vec::new();
    scan_ranges(&mut image, SearchType::Eq(5u32), &vec![(0x1000, 0x1020)], 16, &mut out).unwrap();
    assert_eq!(out, vec![0x1014]);
}

#[test]
fn matches_can_be_taken_one_by_one() {
    let data = bytes_of_u32(&[9, 1, 9, 9, 1, 9]);
    let rule = SearchType::Eq(9u32);
    let len = data.len();
    assert_eq!(rule.next_match(&data, len, 0), Some(0));
    assert_eq!(rule.next_match(&data, len, 1), Some(8));
    assert_eq!(rule.next_match(&data, len, 4), Some(8));
    assert_eq!(rule.next_match(&data, len, 8), Some(8));
    assert_eq!(rule.next_match(&data, len, 9), Some(12));
    assert_eq!(rule.next_match(&data, len, 13), Some(20));
    assert_eq!(rule.next_match(&data, len, 20), Some(20));
    assert_eq!(rule.next_match(&data, len, 21), None);
    assert_eq!(rule.next_match(&data, len, 24), None);
    assert_eq!(rule.next_match(&data, len, 1000), None);
    assert_eq!(rule.next_match(&data, len, usize::MAX), None);
    assert_eq!(rule.next_match(&data, 23, 13), None);
    assert_eq!(rule.next_match(&data, 0, 0), None);
    assert_eq!(SearchType::Eq(7u32).next_match(&data, len, 0), None);
    assert_eq!(SearchType::Eq(1u8).next_match(&[0, 1, 1], 3, usize::MAX), None);
    assert_eq!(SearchType::Eq(1u8).next_match(&[0, 1, 1], 3, 2), Some(2));
}

#[test]
fn taking_the_matches_one_by_one_gives_them_all() {
    let data = noise(11, 120);
    for rule in [SearchType::Lt(0x0500u16), SearchType::Bte(0x0101, 0x0a0a), SearchType::Ge(0)] {
        let all = rule.search(&data, 117);
        let mut taken = Vec::new();
        let mut from = 0;
        while let Some(at) = rule.next_match(&data, 117, from) {
            taken.push(at);
            from = at + 2;
        }
        assert_eq!(taken, all);
    }
}
