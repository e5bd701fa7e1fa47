use thanatos::hexview::{hex_view_rows, memory_view_lines, BYTES_PER_ROW};
use thanatos::process::ProcessInfo;
use thanatos::region::{MemoryRegion, MEM_COMMIT, MEM_PRIVATE, PAGE_READWRITE};
use thanatos::state::{
    analysis_is_stale, analysis_started_message, dump_file_name, memory_usage_mib,
    message_visible, panel_for_tab, tab_is_selected, viewer_read_length, InspectorState, Panel,
};
use thanatos::text::{
    chars_of, contains_text, join_strings, padded_left, padded_right, split_lines,
    string_from_chars, texts_eq_ignore_ascii_case, to_decimal, to_hex_lower, to_hex_upper,
    to_hex_upper_padded,
};

fn process(pid: u32, name: &str) -> ProcessInfo {
    ProcessInfo { pid, name: name.to_string(), path: String::new(), memory_usage: 0, priority: 0 }
}

fn region(base_address: usize, size: usize) -> MemoryRegion {
    MemoryRegion {
        base_address,
        size,
        state: MEM_COMMIT,
        protection: PAGE_READWRITE,
        allocation_type: MEM_PRIVATE,
        is_executable: false,
        is_writable: true,
    }
}

#[test]
fn hex_view_rows_layout() {
    let data: Vec<u8> = (0u8..20).collect();
    let rows = hex_view_rows(&data);
    assert_eq!(BYTES_PER_ROW, 16);
    assert_eq!(rows.len(), 2);
    assert_eq!(rows[0].offset_text, "00000000");
    assert_eq!(rows[0].hex_text, "00 01 02 03 04 05 06 07  08 09 0A 0B 0C 0D 0E 0F");
    assert_eq!(rows[0].ascii_text, "................");
    assert!(rows[0].gap_after);
    assert_eq!(rows[1].offset_text, "00000010");
    assert_eq!(rows[1].hex_text, "10 11 12 13");
    assert_eq!(rows[1].ascii_text, "....");
    assert!(!rows[1].gap_after);
}

#[test]
fn hex_view_gap_every_fourth_row() {
    let rows = hex_view_rows(&vec![b'A'; 16 * 5]);
    let gaps: Vec<bool> = rows.iter().map(|r| r.gap_after).collect();
    assert_eq!(gaps, vec![true, false, false, false, true]);
    assert_eq!(rows[4].offset_text, "00000040");
    assert!(hex_view_rows(&[]).is_empty());
}

#[test]
fn hex_view_printable_characters() {
    let rows = hex_view_rows(b"Hi, you!\x7f ~\x1f");
    assert_eq!(rows[0].ascii_text, "Hi, you!. ~.");
    assert_eq!(rows[0].hex_text, "48 69 2C 20 79 6F 75 21  7F 20 7E 1F");
}

#[test]
fn memory_view_lines_layout() {
    let lines = memory_view_lines(b"A B\x00");
    assert_eq!(lines.len(), 1);
    let hex = format!("{:48}", "41 20 42 00");
    assert_eq!(lines[0], format!("00000000: {} A.B.", hex));
    let long: Vec<u8> = (0x30u8..0x42).collect();
    let lines = memory_view_lines(&long);
    assert_eq!(lines.len(), 2);
    assert_eq!(
        lines[0],
        "00000000: 30 31 32 33 34 35 36 37 38 39 3A 3B 3C 3D 3E 3F  0123456789:;<=>?"
    );
    assert_eq!(lines[1], format!("00000010: {:48} @A", "40 41"));
    assert!(memory_view_lines(&[]).is_empty());
}

#[test]
fn tabs_and_panels() {
    assert_eq!(panel_for_tab("overview"), Some(Panel::Overview));
    assert_eq!(panel_for_tab("memory"), Some(Panel::Memory));
    assert_eq!(panel_for_tab("analysis"), Some(Panel::Analysis));
    assert_eq!(panel_for_tab("statistics"), Some(Panel::Statistics));
    assert_eq!(panel_for_tab("Memory"), None);
    assert!(tab_is_selected("memory", "Memory"));
    assert!(!tab_is_selected("memory", "Analysis"));
}

#[test]
fn message_texts() {
    assert_eq!(dump_file_name(0x7ff6a000, "20240101_120000"), "dump_7ff6a000_20240101_120000.bin");
    assert_eq!(analysis_started_message(0x1A00), "Started analysis of region at 0x1A00");
    assert!(message_visible(2));
    assert!(!message_visible(3));
    assert!(analysis_is_stale(31));
    assert!(!analysis_is_stale(30));
}

#[test]
fn viewer_reads_at_most_a_page() {
    assert_eq!(viewer_read_length(&region(0x1000, 100)), 100);
    assert_eq!(viewer_read_length(&region(0x1000, 4096)), 4096);
    assert_eq!(viewer_read_length(&region(0x1000, 10000)), 4096);
    let mut p = process(1, "x");
    p.memory_usage = 3 * 1024 * 1024 + 5;
    assert_eq!(memory_usage_mib(&p), 3);
}

#[test]
fn inspector_starts_empty() {
    let s = InspectorState::new();
    assert!(s.processes.is_empty());
    assert!(s.selected_process.is_none());
    assert_eq!(s.current_tab, "overview");
    assert_eq!(s.sort_by, "name");
    assert!(s.sort_ascending);
    assert!(!s.show_system_processes);
    assert!(s.analysis.pending.is_empty());
    assert!(s.analysis.results.is_empty());
    assert!(!s.settings.highlight_suspicious);
    assert_eq!(s.current_panel(), Some(Panel::Overview));
}

#[test]
fn selecting_a_process_drops_regions_and_analyses() {
    let mut s = InspectorState::new();
    s.memory_regions.push(region(0x1000, 10));
    s.analysis.store(0x1000, vec![("a".to_string(), "b".to_string())]);
    s.select_process(&process(77, "app.exe"));
    assert_eq!(s.selected_process.as_ref().map(|p| p.pid), Some(77));
    assert!(s.is_selected(77));
    assert!(!s.is_selected(78));
    assert!(s.memory_regions.is_empty());
    assert!(s.analysis.results.is_empty());
    s.memory_regions.push(region(0x3000, 10));
    s.select_listed(80, "other.exe".to_string(), 1234);
    let p = s.selected_process.as_ref().unwrap();
    assert_eq!((p.pid, p.name.as_str(), p.path.as_str(), p.memory_usage, p.priority), (80, "other.exe", "", 1234, 0));
    // The regions stay until those of the new selection are loaded.
    assert_eq!(s.memory_regions.len(), 1);
    assert_eq!(s.current_tab, "overview");
}

#[test]
fn fresh_process_list_clears_a_vanished_selection() {
    let mut s = InspectorState::new();
    s.select_process(&process(77, "app.exe"));
    s.apply_process_list(&vec![process(4, "System"), process(77, "app.exe"), process(90, "b")]);
    assert_eq!(s.processes.iter().map(|p| p.pid).collect::<Vec<_>>(), vec![77, 90]);
    assert!(s.is_selected(77));
    s.memory_regions.push(region(0x1000, 10));
    s.open_tab("Memory");
    s.apply_process_list(&vec![process(90, "b")]);
    assert!(s.selected_process.is_none());
    assert_eq!(s.current_tab, "memory");
    assert_eq!(s.memory_regions.len(), 1);
    s.show_system_processes = true;
    s.apply_process_list(&vec![process(4, "System")]);
    assert_eq!(s.processes.len(), 1);
}

#[test]
fn opening_tabs_and_selecting_regions() {
    let mut s = InspectorState::new();
    s.open_tab("Memory");
    assert_eq!(s.current_tab, "memory");
    assert_eq!(s.current_panel(), Some(Panel::Memory));
    s.memory_regions = vec![region(0x1000, 10), region(0x2000, 20), region(0x2000, 30)];
    s.select_region_at(0x2000);
    assert_eq!(s.selected_region.map(|r| r.size), Some(20));
    assert!(s.is_selected_region(0x2000));
    s.select_region_at(0x9000);
    assert_eq!(s.selected_region.map(|r| r.size), Some(20));
    assert!(!s.is_selected_region(0x1000));
}

#[test]
fn number_texts() {
    assert_eq!(to_hex_upper(255), "FF");
    assert_eq!(to_hex_upper(0), "0");
    assert_eq!(to_hex_lower(0xAB), "ab");
    assert_eq!(to_decimal(0), "0");
    assert_eq!(to_decimal(1234), "1234");
    assert_eq!(to_decimal(u64::MAX), "18446744073709551615");
    assert_eq!(to_hex_upper_padded(10, 4), "000A");
    assert_eq!(to_hex_upper_padded(0x12345, 2), "12345");
    assert_eq!(padded_left("8", ' ', 3), "  8");
    assert_eq!(padded_right("ab", 4), "ab  ");
    assert_eq!(padded_right("abcdef", 4), "abcdef");
}

#[test]
fn text_helpers() {
    assert!(contains_text("hello", "ell"));
    assert!(contains_text("hello", ""));
    assert!(!contains_text("hello", "Hell"));
    assert!(texts_eq_ignore_ascii_case("MeMoRy", "memory"));
    assert!(!texts_eq_ignore_ascii_case("memory", "memor"));
    let lines: Vec<String> = split_lines(&chars_of("a\r\nb\n\nc\n"))
        .iter()
        .map(|l| string_from_chars(l))
        .collect();
    assert_eq!(lines, vec!["a", "b", "", "c"]);
    let parts = vec!["x".to_string(), "y".to_string(), "z".to_string()];
    assert_eq!(join_strings(&parts, ", "), "x, y, z");
    assert_eq!(join_strings(&Vec::new(), ", "), "");
}

#[test]
fn clicking_each_tab_opens_its_panel() {
    let mut s = InspectorState::new();
    for (label, panel) in [
        ("Overview", Panel::Overview),
        ("Memory", Panel::Memory),
        ("Analysis", Panel::Analysis),
        ("Statistics", Panel::Statistics),
    ] {
        s.open_tab(label);
        assert_eq!(s.current_panel(), Some(panel));
        assert!(tab_is_selected(&s.current_tab, label));
    }
}
