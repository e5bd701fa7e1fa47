use thanatos::process::{
    filter_processes, is_listed, module_info, process_id_count, process_info, process_label_text,
    process_row_text,
    process_matches_search, process_precedes, search_processes, sort_key_from_name,
    sort_processes, text_less, threads_of_process, trim_nul, visible_processes,
    ProcessInfo, Settings, SortKey, ThreadEntry, ThreadInfo,
};
use thanatos::text::texts_equal;

fn process(pid: u32, name: &str, memory_usage: u64, priority: u32) -> ProcessInfo {
    ProcessInfo { pid, name: name.to_string(), path: String::new(), memory_usage, priority }
}

fn sample() -> Vec<ProcessInfo> {
    vec![
        process(0, "Idle", 0, 0),
        process(4, "System", 100, 8),
        process(1234, "Notepad.exe", 5000, 8),
        process(88, "chrome.exe", 9000, 10),
        process(512, "explorer.exe", 5000, 9),
    ]
}

fn pids(v: &[ProcessInfo]) -> Vec<u32> {
    v.iter().map(|p| p.pid).collect()
}

#[test]
fn system_processes_hidden_unless_shown() {
    assert_eq!(pids(&visible_processes(&sample(), false)), vec![1234, 88, 512]);
    assert_eq!(pids(&visible_processes(&sample(), true)), vec![0, 4, 1234, 88, 512]);
}

#[test]
fn is_listed_by_pid() {
    assert!(is_listed(&sample(), 88));
    assert!(!is_listed(&sample(), 89));
    assert!(!is_listed(&Vec::new(), 0));
}

#[test]
fn filter_processes_ignores_case() {
    assert_eq!(pids(&filter_processes(&sample(), "CHROME")), vec![88]);
    assert_eq!(pids(&filter_processes(&sample(), ".exe")), vec![1234, 88, 512]);
    assert_eq!(pids(&filter_processes(&sample(), "")), vec![0, 4, 1234, 88, 512]);
    assert!(filter_processes(&sample(), "firefox").is_empty());
}

#[test]
fn search_by_name_or_pid() {
    assert_eq!(pids(&search_processes(&sample(), "")), vec![0, 4, 1234, 88, 512]);
    assert_eq!(pids(&search_processes(&sample(), "note")), vec![1234]);
    assert_eq!(pids(&search_processes(&sample(), "12")), vec![1234, 512]);
    assert_eq!(pids(&search_processes(&sample(), "4")), vec![4, 1234]);
    assert!(process_matches_search(&process(7, "Foo", 0, 0), "FOO"));
    assert!(!process_matches_search(&process(7, "Foo", 0, 0), "bar"));
}

#[test]
fn threads_of_one_process() {
    let entries = vec![
        ThreadEntry { owner_pid: 10, thread_id: 1, base_priority: 8 },
        ThreadEntry { owner_pid: 11, thread_id: 2, base_priority: 9 },
        ThreadEntry { owner_pid: 10, thread_id: 3, base_priority: -2 },
    ];
    assert_eq!(
        threads_of_process(&entries, 10),
        vec![ThreadInfo { id: 1, priority: 8 }, ThreadInfo { id: 3, priority: -2 }]
    );
    assert!(threads_of_process(&entries, 12).is_empty());
}

#[test]
fn trim_nul_on_both_ends() {
    assert_eq!(trim_nul("\0\0abc\0"), "abc");
    assert_eq!(trim_nul("a\0b"), "a\0b");
    assert_eq!(trim_nul("\0\0"), "");
    assert_eq!(trim_nul(""), "");
}

#[test]
fn records_from_snapshot_entries() {
    let p = process_info(42, "\\Device\\app.exe\0\0", 4096);
    assert_eq!(p.pid, 42);
    assert_eq!(p.name, "\\Device\\app.exe");
    assert_eq!(p.path, "\\Device\\app.exe");
    assert_eq!(p.memory_usage, 4096);
    assert_eq!(p.priority, 0);
    let m = module_info("kernel32.dll\0", 0x7FF0_0000, 0x1000);
    assert_eq!(m.name, "kernel32.dll");
    assert_eq!(m.base_address, 0x7FF0_0000);
    assert_eq!(m.size, 0x1000);
    assert_eq!(process_id_count(4096), 1024);
    assert_eq!(process_id_count(6), 1);
}

#[test]
fn sort_key_names() {
    assert_eq!(sort_key_from_name("name"), SortKey::Name);
    assert_eq!(sort_key_from_name("pid"), SortKey::Pid);
    assert_eq!(sort_key_from_name("memory"), SortKey::Memory);
    assert_eq!(sort_key_from_name("priority"), SortKey::Priority);
    assert_eq!(sort_key_from_name("Name"), SortKey::Unsorted);
    assert_eq!(sort_key_from_name(""), SortKey::Unsorted);
}

#[test]
fn sort_by_name_both_ways() {
    assert_eq!(pids(&sort_processes(&sample(), SortKey::Name, true)), vec![0, 1234, 4, 88, 512]);
    assert_eq!(pids(&sort_processes(&sample(), SortKey::Name, false)), vec![512, 88, 4, 1234, 0]);
}

#[test]
fn sort_by_pid_both_ways() {
    assert_eq!(pids(&sort_processes(&sample(), SortKey::Pid, true)), vec![0, 4, 88, 512, 1234]);
    assert_eq!(pids(&sort_processes(&sample(), SortKey::Pid, false)), vec![1234, 512, 88, 4, 0]);
}

#[test]
fn sort_is_stable_on_equal_keys() {
    assert_eq!(pids(&sort_processes(&sample(), SortKey::Memory, true)), vec![0, 4, 1234, 512, 88]);
    assert_eq!(pids(&sort_processes(&sample(), SortKey::Memory, false)), vec![88, 1234, 512, 4, 0]);
    assert_eq!(pids(&sort_processes(&sample(), SortKey::Priority, true)), vec![0, 4, 1234, 512, 88]);
}

#[test]
fn unsorted_keeps_the_order() {
    assert_eq!(pids(&sort_processes(&sample(), SortKey::Unsorted, true)), vec![0, 4, 1234, 88, 512]);
    assert_eq!(pids(&sort_processes(&sample(), SortKey::Unsorted, false)), vec![0, 4, 1234, 88, 512]);
    assert!(sort_processes(&Vec::new(), SortKey::Name, true).is_empty());
}

#[test]
fn precedes_and_text_order() {
    let a = process(1, "a", 10, 0);
    let b = process(2, "b", 10, 0);
    assert!(process_precedes(&a, &b, SortKey::Name, true));
    assert!(!process_precedes(&b, &a, SortKey::Name, true));
    assert!(process_precedes(&b, &a, SortKey::Name, false));
    assert!(!process_precedes(&a, &b, SortKey::Memory, true));
    assert!(!process_precedes(&a, &b, SortKey::Unsorted, true));
    let chars = |s: &str| s.chars().collect::<Vec<char>>();
    assert!(text_less(&chars("ab"), &chars("abc")));
    assert!(text_less(&chars("Z"), &chars("a")));
    assert!(!text_less(&chars("abc"), &chars("abc")));
    assert!(texts_equal("abc", "abc"));
    assert!(!texts_equal("abc", "abd"));
}

#[test]
fn duplicate_and_default_settings() {
    let p = process(3, "x", 1, 2);
    let q = p.duplicate();
    assert_eq!((q.pid, q.name.as_str(), q.memory_usage, q.priority), (3, "x", 1, 2));
    assert!(!Settings::default().highlight_suspicious);
}

#[test]
fn process_list_texts() {
    let p = process(1234, "Notepad.exe", 5 * 1024 * 1024 + 100, 8);
    assert_eq!(process_row_text(&p), "1234     Notepad.exe                5120 KB");
    assert_eq!(process_label_text(&p), "Notepad.exe (1234)");
    let long = process(7, "a_very_long_process_name.exe", 1023, 0);
    assert_eq!(process_row_text(&long), "7        a_very_long_process_name.exe          0 KB");
}

#[test]
fn sort_by_name_keeps_equal_names_in_order() {
    let list = vec![
        process(30, "svchost.exe", 1, 0),
        process(10, "a.exe", 1, 0),
        process(20, "svchost.exe", 1, 0),
        process(5, "svchost.exe", 1, 0),
    ];
    assert_eq!(pids(&sort_processes(&list, SortKey::Name, true)), vec![10, 30, 20, 5]);
    assert_eq!(pids(&sort_processes(&list, SortKey::Name, false)), vec![30, 20, 5, 10]);
}
