use thanatos::scan::{
    ascii_string, byte_histogram, contains_pattern, contains_shellcode, detect_file_signatures,
    detect_strings, extract_strings, has_code_patterns, has_prefix, matches_at,
};

fn strings(v: &[&str]) -> Vec<String> {
    v.iter().map(|s| s.to_string()).collect()
}

#[test]
fn extract_strings_keeps_runs_of_four_or_more() {
    let data = b"hello world\x00ab\x00test!";
    // The run still open at the end of the data is not reported.
    assert_eq!(extract_strings(data), strings(&["hello", "world"]));
}

#[test]
fn extract_strings_drops_short_runs() {
    assert_eq!(extract_strings(b"abc def ghij "), strings(&["ghij"]));
}

#[test]
fn extract_strings_ignores_the_trailing_run() {
    assert_eq!(extract_strings(b"abcdefgh"), Vec::<String>::new());
    assert_eq!(extract_strings(b""), Vec::<String>::new());
}

#[test]
fn extract_strings_counts_punctuation_as_text() {
    assert_eq!(extract_strings(b"a.b-c!\xff"), strings(&["a.b-c!"]));
}

#[test]
fn detect_strings_none_when_nothing_found() {
    assert_eq!(detect_strings(b""), None);
    assert_eq!(detect_strings(b"ab cd\x00"), None);
    assert_eq!(detect_strings(b"password\n"), Some(strings(&["password"])));
}

#[test]
fn has_code_patterns_needs_a_full_window() {
    assert!(!has_code_patterns(&[0xc3, 0x00, 0x00]));
    assert!(has_code_patterns(&[0xc3, 0x00, 0x00, 0x00]));
    assert!(!has_code_patterns(&[0x90, 0x90, 0x90, 0xc3]));
    assert!(has_code_patterns(&[0x90, 0xc3, 0x00, 0x00, 0x00]));
    assert!(has_code_patterns(&[0x00, 0x48, 0x83, 0xec, 0x28]));
    assert!(has_code_patterns(&[0x55, 0x48, 0x89, 0xe5]));
    assert!(!has_code_patterns(&[0x90, 0x90, 0x90, 0x90, 0x90]));
}

#[test]
fn contains_shellcode_finds_each_pattern() {
    assert!(contains_shellcode(&[0x90, 0x55, 0x8B, 0xEC]));
    assert!(contains_shellcode(&[0x33, 0xC0]));
    assert!(contains_shellcode(&[0x00, 0x89, 0xE5, 0x00]));
    assert!(contains_shellcode(&[0x31, 0xC0]));
    assert!(!contains_shellcode(&[0x31, 0x90, 0xC0]));
    assert!(!contains_shellcode(&[]));
}

#[test]
fn detect_file_signatures_by_header() {
    let png = [0x89, 0x50, 0x4E, 0x47, 0x0D, 0x0A, 0x1A, 0x0A, 0x00];
    assert_eq!(detect_file_signatures(&png), strings(&["PNG Image"]));
    assert_eq!(detect_file_signatures(b"GIF87a"), strings(&["GIF Image"]));
    assert_eq!(detect_file_signatures(b"GIF89a..."), strings(&["GIF Image"]));
    assert_eq!(detect_file_signatures(&[0xFF, 0xD8, 0xFF, 0xE0]), strings(&["JPEG Image"]));
    assert_eq!(detect_file_signatures(b"PK\x03\x04rest"), strings(&["ZIP Archive"]));
    assert_eq!(detect_file_signatures(b"MZ\x90\x00"), strings(&["Windows Executable"]));
    assert_eq!(detect_file_signatures(b"%PDF-1.4"), strings(&["PDF Document"]));
}

#[test]
fn detect_file_signatures_needs_the_whole_header() {
    assert_eq!(detect_file_signatures(b""), Vec::<String>::new());
    assert_eq!(detect_file_signatures(b"M"), Vec::<String>::new());
    assert_eq!(detect_file_signatures(b"GIF8"), Vec::<String>::new());
    assert_eq!(detect_file_signatures(b"xMZ"), Vec::<String>::new());
}

#[test]
fn byte_histogram_counts_each_value() {
    let counts = byte_histogram(&[1, 1, 2, 255]);
    assert_eq!(counts.len(), 256);
    assert_eq!(counts[1], 2);
    assert_eq!(counts[2], 1);
    assert_eq!(counts[255], 1);
    assert_eq!(counts[0], 0);
    assert_eq!(counts.iter().sum::<u64>(), 4);
}

#[test]
fn pattern_helpers() {
    assert!(matches_at(b"abcd", b"bc", 1));
    assert!(!matches_at(b"abcd", b"bc", 2));
    assert!(contains_pattern(b"abcd", b"cd"));
    assert!(!contains_pattern(b"abcd", b"dc"));
    assert!(has_prefix(b"abcd", b"ab"));
    assert!(!has_prefix(b"a", b"ab"));
    assert_eq!(ascii_string(b"Hi!"), "Hi!".to_string());
}
