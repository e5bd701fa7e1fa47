use thanatos::region::{
    filter_regions, find_pattern_matches, memory_statistics, protection_text, region_from_query,
    region_is_committed, region_row_text, region_type_name, search_memory, shows_execute_mark,
    MemoryMapScan,
    MemoryPattern, MemoryRegion, RegionQuery, MEM_COMMIT, MEM_MAPPED, MEM_PRIVATE, PAGE_EXECUTE,
    PAGE_EXECUTE_READ, PAGE_EXECUTE_READWRITE, PAGE_READWRITE,
};

fn region(base_address: usize, size: usize, state: u32, protection: u32) -> MemoryRegion {
    MemoryRegion {
        base_address,
        size,
        state,
        protection,
        allocation_type: MEM_PRIVATE,
        is_executable: false,
        is_writable: false,
    }
}

fn offsets(hits: &[MemoryPattern]) -> Vec<usize> {
    hits.iter().map(|h| h.offset).collect()
}

#[test]
fn find_pattern_matches_reports_every_occurrence() {
    let hits = find_pattern_matches(0x1000, b"abcabc", b"bc");
    assert_eq!(offsets(&hits), vec![0x1001, 0x1004]);
    for h in &hits {
        assert_eq!(h.size, 2);
        assert_eq!(h.matches, b"bc".to_vec());
    }
}

#[test]
fn find_pattern_matches_overlapping() {
    let hits = find_pattern_matches(0, b"aaaa", b"aa");
    assert_eq!(offsets(&hits), vec![0, 1, 2]);
}

#[test]
fn find_pattern_matches_pattern_longer_than_data() {
    assert!(find_pattern_matches(0x10, b"ab", b"abc").is_empty());
}

#[test]
fn search_memory_skips_uncommitted_and_unread_regions() {
    let regions = vec![
        region(0x1000, 6, MEM_COMMIT, PAGE_READWRITE),
        region(0x2000, 6, 0x2000, PAGE_READWRITE),
        region(0x3000, 6, MEM_COMMIT, PAGE_READWRITE),
        region(0x4000, 4, MEM_COMMIT, PAGE_READWRITE),
    ];
    let contents = vec![
        Some(b"xxkeyx".to_vec()),
        Some(b"keykey".to_vec()),
        None,
        Some(b"key!".to_vec()),
    ];
    let hits = search_memory(&regions, &contents, b"key");
    assert_eq!(offsets(&hits), vec![0x1002, 0x4000]);
    assert!(hits.iter().all(|h| h.size == 3 && h.matches == b"key".to_vec()));
}

#[test]
fn memory_statistics_counts_and_sums() {
    let mut a = region(0x1000, 1024 * 1024, MEM_COMMIT, PAGE_EXECUTE_READWRITE);
    a.is_executable = true;
    a.is_writable = true;
    let mut b = region(0x200000, 2 * 1024 * 1024 + 5, MEM_COMMIT, PAGE_READWRITE);
    b.is_writable = true;
    let c = region(0x500000, 4096, MEM_COMMIT, 0x02);
    let stats = memory_statistics(&vec![a, b, c]);
    assert_eq!(stats.total_regions, 3);
    assert_eq!(stats.executable_regions, 1);
    assert_eq!(stats.writable_regions, 2);
    assert_eq!(stats.total_memory_mb, 3);
}

#[test]
fn memory_statistics_of_nothing() {
    let stats = memory_statistics(&Vec::new());
    assert_eq!(stats.total_regions, 0);
    assert_eq!(stats.executable_regions, 0);
    assert_eq!(stats.writable_regions, 0);
    assert_eq!(stats.total_memory_mb, 0);
}

#[test]
fn protection_text_names_the_access() {
    assert_eq!(protection_text(0x40), "PAGE_EXECUTE_READWRITE");
    assert_eq!(protection_text(0x01), "PAGE_NOACCESS");
    assert_eq!(protection_text(0x02), "PAGE_READONLY");
    assert_eq!(protection_text(0x08), "PAGE_WRITECOPY");
    assert_eq!(protection_text(0x20), "PAGE_EXECUTE_READ");
    assert_eq!(protection_text(0x80), "PAGE_EXECUTE_WRITECOPY");
    assert_eq!(protection_text(0x104), "PAGE_READWRITE | PAGE_GUARD");
    assert_eq!(protection_text(0x201), "PAGE_NOACCESS | PAGE_NOCACHE");
    assert_eq!(protection_text(0x410), "PAGE_EXECUTE | PAGE_WRITECOMBINE");
    assert_eq!(protection_text(0), "PAGE_PROTECTION_FLAGS(0)");
    assert_eq!(protection_text(0x300), "PAGE_PROTECTION_FLAGS(768)");
}

#[test]
fn region_type_names() {
    assert_eq!(region_type_name(MEM_PRIVATE), "Private");
    assert_eq!(region_type_name(MEM_MAPPED), "Mapped");
    assert_eq!(region_type_name(0x1000000), "Other");
}

#[test]
fn region_row_text_layout() {
    let r = region(0x7FF6A000, 8192, MEM_COMMIT, PAGE_READWRITE);
    assert_eq!(
        region_row_text(&r),
        "0x7FF6A000           8 KB    PAGE_READWRITE    Private"
    );
    let mut m = region(0x10, 123456789, MEM_COMMIT, 1);
    m.allocation_type = MEM_MAPPED;
    assert_eq!(
        region_row_text(&m),
        "0x10      120563 KB    PAGE_NOACCESS    Mapped"
    );
}

#[test]
fn filter_regions_by_address_or_protection() {
    let regions = vec![
        region(0x7FF6A000, 4096, MEM_COMMIT, PAGE_READWRITE),
        region(0x1000, 4096, MEM_COMMIT, PAGE_EXECUTE_READWRITE),
        region(0x2000, 4096, MEM_COMMIT, 0x02),
    ];
    let by_address = filter_regions(&regions, "7FF");
    assert_eq!(by_address.len(), 1);
    assert_eq!(by_address[0].base_address, 0x7FF6A000);
    let by_protection = filter_regions(&regions, "EXECUTE");
    assert_eq!(by_protection.len(), 1);
    assert_eq!(by_protection[0].base_address, 0x1000);
    let writable: Vec<usize> = filter_regions(&regions, "readwrite").iter().map(|r| r.base_address).collect();
    assert_eq!(writable, vec![0x7FF6A000, 0x1000]);
    assert_eq!(filter_regions(&regions, "").len(), 3);
    assert!(filter_regions(&regions, "zzz").is_empty());
}

#[test]
fn region_from_query_classifies_protection() {
    let q = |protect: u32| RegionQuery {
        base_address: 0x1000,
        region_size: 0x2000,
        state: MEM_COMMIT,
        protect,
        allocation_type: MEM_PRIVATE,
    };
    let rwx = region_from_query(&q(PAGE_EXECUTE_READWRITE));
    assert!(rwx.is_executable && rwx.is_writable);
    assert_eq!(rwx.base_address, 0x1000);
    assert_eq!(rwx.size, 0x2000);
    assert_eq!(rwx.protection, PAGE_EXECUTE_READWRITE);
    let rx = region_from_query(&q(PAGE_EXECUTE_READ));
    assert!(rx.is_executable && !rx.is_writable);
    let x = region_from_query(&q(PAGE_EXECUTE));
    assert!(x.is_executable && !x.is_writable);
    let rw = region_from_query(&q(PAGE_READWRITE));
    assert!(!rw.is_executable && rw.is_writable);
    let other = region_from_query(&q(0x80));
    assert!(!other.is_executable && !other.is_writable);
}

#[test]
fn memory_map_scan_walks_until_failure() {
    let mut scan = MemoryMapScan::new();
    assert_eq!(scan.next_address, 0);
    assert!(!scan.finished);
    scan.record(Some(RegionQuery {
        base_address: 0,
        region_size: 0x10000,
        state: 0x10000,
        protect: 0x01,
        allocation_type: 0,
    }));
    assert_eq!(scan.next_address, 0x10000);
    assert_eq!(scan.regions.len(), 1);
    assert!(!scan.finished);
    scan.record(None);
    assert!(scan.finished);
    assert_eq!(scan.regions.len(), 1);
    assert_eq!(scan.next_address, 0x10000);
}

#[test]
fn memory_map_scan_stops_at_end_of_user_space() {
    let mut scan = MemoryMapScan::new();
    scan.record(Some(RegionQuery {
        base_address: 0x7FFF_FFFF_0000,
        region_size: 0x10000,
        state: MEM_COMMIT,
        protect: PAGE_READWRITE,
        allocation_type: MEM_PRIVATE,
    }));
    assert!(scan.finished);
    assert_eq!(scan.next_address, 0x8000_0000_0000);
    assert!(scan.regions[0].is_writable);
}

#[test]
fn region_equality_and_commit_state() {
    let a = region(0x1000, 10, MEM_COMMIT, PAGE_READWRITE);
    let mut b = a;
    assert!(a.eq(&b));
    b.is_writable = true;
    assert!(!a.eq(&b));
    assert!(region_is_committed(&a));
    assert!(!region_is_committed(&region(0, 1, 0x2000, 0)));
}

#[test]
fn execute_mark_follows_the_protection_text() {
    assert!(shows_execute_mark(PAGE_EXECUTE_READWRITE));
    assert!(shows_execute_mark(PAGE_EXECUTE_READ));
    assert!(shows_execute_mark(0x110));
    assert!(!shows_execute_mark(PAGE_READWRITE));
    assert!(!shows_execute_mark(0));
}
