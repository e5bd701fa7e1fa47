use thanatos::batch::{BatchScan, MemoryBatch};
use thanatos::region::{MemoryRegion, MEM_COMMIT, MEM_PRIVATE, PAGE_READWRITE};
use thanatos::tracker::{AnalysisState, PollOutcome};

fn region(base_address: usize, size: usize) -> MemoryRegion {
    MemoryRegion {
        base_address,
        size,
        state: MEM_COMMIT,
        protection: PAGE_READWRITE,
        allocation_type: MEM_PRIVATE,
        is_executable: false,
        is_writable: true,
    }
}

fn entry(k: &str, v: &str) -> (String, String) {
    (k.to_string(), v.to_string())
}

#[test]
fn batch_scan_reads_in_pieces() {
    let r = region(0x1000, 10);
    let mut scan = BatchScan::new(&r, 4);
    assert!(!scan.is_done());
    assert_eq!(scan.next_request(), (0x1000, 4));

    scan.record_read(Some(vec![1, 2, 3, 4]));
    assert_eq!(scan.batches.len(), 1);
    assert_eq!(scan.batches[0].region.base_address, 0x1000);
    assert_eq!(scan.batches[0].region.size, 4);
    assert_eq!(scan.batches[0].data, vec![1, 2, 3, 4]);
    assert!(scan.batches[0].analysis.is_empty());
    assert!(scan.batches[0].region.is_writable);
    assert_eq!(scan.next_request(), (0x1004, 4));

    // A failed read changes nothing: the same range is asked again.
    scan.record_read(None);
    assert_eq!(scan.next_request(), (0x1004, 4));
    assert_eq!(scan.remaining, 6);

    // An empty read skips the requested range.
    scan.record_read(Some(Vec::new()));
    assert_eq!(scan.batches.len(), 1);
    assert_eq!(scan.next_request(), (0x1008, 2));

    // A short read moves on by what was read.
    scan.record_read(Some(vec![9]));
    assert_eq!(scan.batches.len(), 2);
    assert_eq!(scan.batches[1].region.base_address, 0x1008);
    assert_eq!(scan.batches[1].region.size, 1);
    assert_eq!(scan.next_request(), (0x1009, 1));

    scan.record_read(Some(vec![7]));
    assert!(scan.is_done());
    assert_eq!(scan.batches.len(), 3);
    assert_eq!(scan.next_address, 0x100A);
}

#[test]
fn batch_scan_of_empty_region_is_done() {
    let scan = BatchScan::new(&region(0x2000, 0), 16);
    assert!(scan.is_done());
    assert!(scan.batches.is_empty());
}

#[test]
fn memory_batches_compare_by_region() {
    let a = MemoryBatch { region: region(0x1000, 4), data: vec![1], analysis: Vec::new() };
    let b = MemoryBatch { region: region(0x1000, 4), data: vec![2, 3], analysis: vec![entry("k", "v")] };
    let c = MemoryBatch { region: region(0x1004, 4), data: vec![1], analysis: Vec::new() };
    assert!(a == b);
    assert!(a != c);
}

#[test]
fn store_then_lookup_replaces_earlier_findings() {
    let mut state = AnalysisState::new();
    state.store(0x1000, vec![entry("a", "b")]);
    state.store(0x2000, vec![entry("x", "y")]);
    state.store(0x1000, vec![entry("c", "d")]);
    assert_eq!(
        state.results,
        vec![(0x2000, vec![entry("x", "y")]), (0x1000, vec![entry("c", "d")])]
    );
}

#[test]
fn needs_analysis_only_when_selected_and_unknown() {
    let mut state = AnalysisState::new();
    state.store(0x1000, vec![entry("a", "b")]);
    assert!(!state.needs_analysis(true, 0x1000));
    assert!(state.needs_analysis(true, 0x3000));
    assert!(!state.needs_analysis(false, 0x3000));
}

#[test]
fn begin_region_analysis_moves_region_to_the_end() {
    let mut state = AnalysisState::new();
    state.begin_full_analysis(vec![0x1000, 0x2000, 0x3000]);
    state.store(0x2000, vec![entry("a", "b")]);
    state.store(0x3000, vec![entry("c", "d")]);
    let keep = state.begin_region_analysis(0x2000);
    assert_eq!(keep, vec![true, false, true]);
    assert_eq!(state.pending, vec![0x1000, 0x3000, 0x2000]);
    assert_eq!(state.results, vec![(0x3000, vec![entry("c", "d")])]);
}

#[test]
fn begin_full_analysis_drops_results() {
    let mut state = AnalysisState::new();
    state.store(0x2000, vec![entry("a", "b")]);
    state.begin_full_analysis(vec![0x5000]);
    assert!(state.results.is_empty());
    assert_eq!(state.pending, vec![0x5000]);
}

#[test]
fn settle_keeps_only_waiting_regions() {
    let mut state = AnalysisState::new();
    state.begin_full_analysis(vec![0x1000, 0x2000, 0x3000]);
    let keep = state.settle(vec![
        PollOutcome::Waiting,
        PollOutcome::Received(0x2000, vec![entry("Code", "Contains executable code patterns")]),
        PollOutcome::Disconnected,
    ]);
    assert_eq!(keep, vec![true, false, false]);
    assert_eq!(state.pending, vec![0x1000]);
    assert_eq!(
        state.results,
        vec![(0x2000, vec![entry("Code", "Contains executable code patterns")])]
    );
    let keep = state.settle(vec![PollOutcome::Received(0x1000, vec![entry("a", "b")])]);
    assert_eq!(keep, vec![false]);
    assert!(state.pending.is_empty());
    assert_eq!(state.results.len(), 2);
}

#[test]
fn count_suspicious_results() {
    let mut state = AnalysisState::new();
    state.store(0x1000, vec![entry("Note", "looks suspicious")]);
    state.store(0x2000, vec![entry("Address", "Suspicious low memory address")]);
    state.store(0x3000, vec![entry("a", "b"), entry("c", "very suspicious")]);
    state.store(0x4000, vec![entry("a", "b")]);
    assert_eq!(state.count_suspicious(), 2);
}
