use base64::Engine;
use thanatos::analysis::{
    analysis_candidates, analyze_memory_data, analyze_region, compressed_size,
    find_potential_passwords, findings_look_suspicious, findings_mention,
    findings_mention_suspicious, listed_findings, preview_bytes, quick_analyze_region,
    region_findings, NumericSummary,
};
use thanatos::region::{MemoryRegion, MEM_COMMIT, MEM_PRIVATE, PAGE_EXECUTE_READWRITE, PAGE_READWRITE};

fn entry(k: &str, v: &str) -> (String, String) {
    (k.to_string(), v.to_string())
}

fn numbers() -> NumericSummary {
    NumericSummary {
        entropy: "1.00".to_string(),
        compression_ratio: "0.50".to_string(),
        byte_distribution: "{}".to_string(),
    }
}

fn region(base_address: usize, size: usize, state: u32, protection: u32) -> MemoryRegion {
    MemoryRegion {
        base_address,
        size,
        state,
        protection,
        allocation_type: MEM_PRIVATE,
        is_executable: true,
        is_writable: false,
    }
}

const SAMPLE: &[u8] = b"MZ\x90\x00hello world \x31\xC0";

fn sample_entries() -> Vec<(String, String)> {
    vec![
        entry("entropy", "1.00"),
        entry("contains_shellcode", "true"),
        entry("strings", "hello\nworld"),
        entry("signatures", "Windows Executable"),
        entry("compression_ratio", "0.50"),
        entry("byte_distribution", "{}"),
    ]
}

#[test]
fn compressed_size_of_repetitive_data_is_small() {
    let data = vec![b'a'; 1000];
    let n = compressed_size(&data).unwrap();
    assert!(n > 0 && n < 100);
}

#[test]
fn compressed_size_of_nothing() {
    assert_eq!(compressed_size(b""), Some(8));
}

#[test]
fn passwords_are_distinct_lines_in_order() {
    let data = b"user=admin\npassword=secret\npwd: x\npassword=secret\r\nnothing";
    assert_eq!(
        find_potential_passwords(data),
        vec!["password=secret".to_string(), "pwd: x".to_string()]
    );
}

#[test]
fn passwords_from_invalid_utf8() {
    assert_eq!(find_potential_passwords(b"my pass\xff"), vec!["my pass\u{FFFD}".to_string()]);
    assert!(find_potential_passwords(b"PASSWORD\n").is_empty());
    assert!(find_potential_passwords(b"").is_empty());
}

#[test]
fn analyze_memory_data_entries_in_order() {
    assert_eq!(analyze_memory_data(SAMPLE, &numbers()), sample_entries());
}

#[test]
fn analyze_memory_data_of_plain_bytes() {
    assert_eq!(
        analyze_memory_data(&[0, 0, 0], &numbers()),
        vec![
            entry("entropy", "1.00"),
            entry("contains_shellcode", "false"),
            entry("compression_ratio", "0.50"),
            entry("byte_distribution", "{}"),
        ]
    );
}

#[test]
fn analyze_memory_data_reports_passwords() {
    let entries = analyze_memory_data(b"pass=1\npwd=2\n", &numbers());
    assert_eq!(entries[2], entry("strings", "pass=1\npwd=2"));
    assert_eq!(entries[3], entry("passwords", "pass=1\npwd=2"));
}

#[test]
fn quick_analyze_uncommitted_region_is_skipped() {
    let r = region(0x1000, 16, 0x2000, PAGE_READWRITE);
    assert_eq!(
        quick_analyze_region(&r, &Some(SAMPLE.to_vec()), &numbers()),
        vec![entry("status", "skipped"), entry("reason", "not committed")]
    );
}

#[test]
fn quick_analyze_unreadable_region_is_empty() {
    let r = region(0x1000, 16, MEM_COMMIT, PAGE_READWRITE);
    assert!(quick_analyze_region(&r, &None, &numbers()).is_empty());
}

#[test]
fn quick_analyze_committed_region() {
    let r = region(0x1000, 16, MEM_COMMIT, PAGE_READWRITE);
    let mut expected = vec![
        entry("file_signatures", "Windows Executable"),
        entry("is_executable", "true"),
        entry("is_writable", "false"),
    ];
    expected.extend(sample_entries());
    assert_eq!(quick_analyze_region(&r, &Some(SAMPLE.to_vec()), &numbers()), expected);
}

#[test]
fn analyze_region_decodes_text() {
    assert_eq!(
        analyze_region(&Some(b"hi\xff".to_vec())),
        vec![entry("text_content", "hi\u{FFFD}")]
    );
    assert!(analyze_region(&None).is_empty());
}

#[test]
fn region_findings_of_a_small_region() {
    let r = region(0x20000, 3, MEM_COMMIT, PAGE_READWRITE);
    assert_eq!(
        region_findings(&r, &[0, 1, 2], &None, "0.00"),
        vec![entry("hex_data", "AAEC")]
    );
}

#[test]
fn region_findings_of_a_large_low_region() {
    let r = region(0x1000, 2 * 1024 * 1024, MEM_COMMIT, PAGE_EXECUTE_READWRITE);
    let mut data = b"abcd efgh ijkl mnop ".to_vec();
    data.resize(300, 0);
    data[100] = 0xe8;
    let preview = base64::engine::general_purpose::STANDARD.encode(&data[..256]);
    assert_eq!(
        region_findings(&r, &data, &Some("7.10".to_string()), "2.00"),
        vec![
            entry("hex_data", &preview),
            entry("Strings", "Found 4 interesting strings"),
            entry("string_preview", "abcd, efgh, ijkl"),
            entry("Code", "Contains executable code patterns"),
            entry("Entropy", "High entropy (7.10) - possible encryption/compression"),
            entry("Protection", "Suspicious RWX permissions (possible shellcode)"),
            entry("Size", "Large region (2.00 MB)"),
            entry("Address", "Suspicious low memory address"),
        ]
    );
}

#[test]
fn analysis_candidates_by_size() {
    let sizes = [0usize, 100, 32 * 1024 * 1024, 32 * 1024 * 1024 + 1];
    let regions: Vec<MemoryRegion> = sizes
        .iter()
        .enumerate()
        .map(|(i, &s)| region(0x1000 * (i + 1), s, MEM_COMMIT, PAGE_READWRITE))
        .collect();
    let kept: Vec<usize> = analysis_candidates(&regions).iter().map(|r| r.size).collect();
    assert_eq!(kept, vec![100, 32 * 1024 * 1024]);
}

#[test]
fn suspicious_findings() {
    let plain = vec![entry("Code", "Contains executable code patterns")];
    let low = vec![entry("Address", "Suspicious low memory address")];
    let odd = vec![entry("Note", "UNUSUAL layout")];
    let rwx = vec![entry("Protection", "Suspicious RWX permissions (possible shellcode)")];
    let noted = vec![plain[0].clone(), entry("Note", "looks suspicious")];
    // The words are matched ignoring the case of the value's letters.
    assert!(!findings_look_suspicious(&plain));
    assert!(findings_look_suspicious(&low));
    assert!(findings_look_suspicious(&rwx));
    assert!(findings_look_suspicious(&odd));
    assert!(findings_look_suspicious(&noted));
    // The statistics count only the lower-case word.
    assert!(!findings_mention_suspicious(&odd));
    assert!(!findings_mention_suspicious(&low));
    assert!(!findings_mention_suspicious(&rwx));
    assert!(findings_mention_suspicious(&noted));
    assert!(!findings_mention_suspicious(&plain));
    assert!(findings_mention(&low, &vec!["low".to_string()]));
    assert!(findings_mention(&low, &vec!["address".to_string()]));
    assert!(!findings_mention(&low, &vec!["Address".to_string()]));
}

#[test]
fn preview_decodes_to_the_first_bytes_read() {
    let r = region(0x40000, 300, MEM_COMMIT, PAGE_READWRITE);
    let data: Vec<u8> = (0..400u32).map(|i| (i * 7 % 251) as u8).collect();
    let findings = region_findings(&r, &data, &None, "0.00");
    assert_eq!(preview_bytes(&findings), Some(data[..256].to_vec()));
    let small = region(0x40000, 5, MEM_COMMIT, PAGE_READWRITE);
    let findings = region_findings(&small, &data, &None, "0.00");
    assert_eq!(preview_bytes(&findings), Some(data[..5].to_vec()));
}

#[test]
fn preview_missing_or_invalid() {
    assert_eq!(preview_bytes(&vec![entry("Code", "x")]), None);
    assert_eq!(preview_bytes(&vec![entry("hex_data", "not base64!")]), None);
    assert_eq!(preview_bytes(&vec![entry("hex_data", "AAEC"), entry("hex_data", "AQ==")]), Some(vec![0, 1, 2]));
    assert_eq!(preview_bytes(&vec![entry("hex_data", "")]), Some(Vec::new()));
}

#[test]
fn listed_findings_leave_out_the_preview() {
    let findings = vec![entry("hex_data", "AAEC"), entry("Code", "c"), entry("Size", "s")];
    assert_eq!(listed_findings(&findings), vec![entry("Code", "c"), entry("Size", "s")]);
    assert!(listed_findings(&Vec::new()).is_empty());
}

#[test]
fn memory_data_lookup_by_key() {
    let map: std::collections::HashMap<String, String> = analyze_memory_data(b"pass=1\nxyz\n", &numbers()).into_iter().collect();
    let mut keys: Vec<&str> = map.keys().map(|k| k.as_str()).collect();
    keys.sort();
    assert_eq!(
        keys,
        vec!["byte_distribution", "compression_ratio", "contains_shellcode", "entropy", "passwords", "strings"]
    );
    assert_eq!(map["strings"], "pass=1");
    assert_eq!(map["passwords"], "pass=1");
    assert_eq!(map["contains_shellcode"], "false");
    assert!(!map.contains_key("signatures"));
}

#[test]
fn password_entry_splits_back_into_the_lines() {
    let data = b"a pass\r\nx\npwd=1\na pass\n";
    let entries = analyze_memory_data(data, &numbers());
    let value = &entries.iter().find(|(k, _)| k == "passwords").unwrap().1;
    let parts: Vec<String> = value.split('\n').map(|s| s.to_string()).collect();
    assert_eq!(parts, find_potential_passwords(data));
    assert_eq!(parts, vec!["a pass".to_string(), "pwd=1".to_string()]);
}

#[test]
fn preview_of_every_remainder_length() {
    for size in 1..=7usize {
        let r = region(0x40000, size, MEM_COMMIT, PAGE_READWRITE);
        let data: Vec<u8> = (0..size as u8).map(|b| b.wrapping_mul(37).wrapping_add(200)).collect();
        let findings = region_findings(&r, &data, &None, "0.00");
        let expected = base64::engine::general_purpose::STANDARD.encode(&data);
        assert_eq!(findings[0], entry("hex_data", &expected));
        assert_eq!(preview_bytes(&findings), Some(data.clone()));
    }
}
