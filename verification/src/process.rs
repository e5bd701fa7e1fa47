//! Processes, threads and modules as the inspector lists them: which are
//! shown, how they are searched and in what order they appear.

use vstd::prelude::*;

use crate::text::{
    ascii_lowered, chars_contain, chars_of, contains_text, decimal, lowercase, pad_left, pad_right,
    padded_left, padded_right, push_text, string_from_chars, text_contains, text_occurs_at,
    texts_equal, to_decimal, to_lowercase,
};

verus! {

/// A running process.
#[derive(Debug, Clone)]
pub struct ProcessInfo {
    pub pid: u32,
    pub name: String,
    pub path: String,
    pub memory_usage: u64,
    pub priority: u32,
}

/// A process seen as plain values: pid, name, path, memory usage, priority.
pub type ProcessView = (u32, Seq<char>, Seq<char>, u64, u32);

impl View for ProcessInfo {
    type V = ProcessView;

    open spec fn view(&self) -> ProcessView {
        (self.pid, self.name@, self.path@, self.memory_usage, self.priority)
    }
}

impl ProcessInfo {
    /// A copy of this process record.
    pub fn duplicate(&self) -> (p: ProcessInfo)
        ensures
            p@ == self@,
    {
        ProcessInfo {
            pid: self.pid,
            name: self.name.clone(),
            path: self.path.clone(),
            memory_usage: self.memory_usage,
            priority: self.priority,
        }
    }
}

/// A thread of a process.
#[derive(Debug, Clone, Copy, PartialEq, Eq, Structural)]
pub struct ThreadInfo {
    pub id: u32,
    pub priority: i32,
}

/// A module loaded into a process.
#[derive(Debug, Clone)]
pub struct ModuleInfo {
    pub name: String,
    pub base_address: usize,
    pub size: usize,
}

/// The memory figure of a process.
#[derive(Debug, Clone, Copy, PartialEq, Eq, Structural)]
pub struct ProcessMemoryInfo {
    pub memory_usage: u64,
}

/// The user's display settings.
pub struct Settings {
    pub highlight_suspicious: bool,
}

impl Default for Settings {
    fn default() -> (s: Self)
        ensures
            !s.highlight_suspicious,
    {
        Settings { highlight_suspicious: false }
    }
}

/// The views of a list of processes.
pub open spec fn views(v: Seq<ProcessInfo>) -> Seq<ProcessView> {
    v.map_values(|p: ProcessInfo| p@)
}

/// A process that is not a system process (pid above 4).
pub open spec fn is_user_process(p: ProcessView) -> bool {
    p.0 > 4
}

/// Whether a process is shown: always when system processes are shown,
/// otherwise only when it is not a system process.
pub open spec fn shown(show_system: bool) -> spec_fn(ProcessView) -> bool {
    |p: ProcessView| show_system || is_user_process(p)
}

/// Filtering by a test that every element passes keeps the list as it is.
proof fn lemma_filter_keeps_all(ps: Seq<ProcessView>, pred: spec_fn(ProcessView) -> bool)
    requires
        forall|k: int| 0 <= k < ps.len() ==> pred(#[trigger] ps[k]),
    ensures
        ps.filter(pred) == ps,
    decreases ps.len(),
{
    reveal(Seq::filter);
    if ps.len() > 0 {
        let rest = ps.drop_last();
        assert forall|k: int| 0 <= k < rest.len() implies pred(#[trigger] rest[k]) by {
            assert(rest[k] == ps[k]);
        }
        lemma_filter_keeps_all(rest, pred);
        assert(pred(ps[ps.len() - 1]));
        assert(rest.push(ps.last()) =~= ps);
    } else {
        assert(ps =~= Seq::<ProcessView>::empty());
    }
}

/// With system processes hidden, the list shows every process whose pid is
/// above 4 and none whose pid is 4 or below; with them shown, it shows every
/// process.  Either way the order is kept.
pub proof fn lemma_system_processes_hidden(ps: Seq<ProcessView>)
    ensures
        forall|k: int| 0 <= k < ps.filter(shown(false)).len() ==> #[trigger] ps.filter(shown(false))[k].0 > 4,
        forall|p: ProcessView| ps.contains(p) && p.0 > 4 ==> #[trigger] ps.filter(shown(false)).contains(p),
        ps.filter(shown(true)) == ps,
{
    assert forall|k: int| 0 <= k < ps.filter(shown(false)).len() implies #[trigger] ps.filter(shown(false))[k].0 > 4 by {
        ps.lemma_filter_pred(shown(false), k);
    }
    assert forall|p: ProcessView| ps.contains(p) && p.0 > 4 implies #[trigger] ps.filter(shown(false)).contains(p) by {
        let i = choose|i: int| 0 <= i < ps.len() && ps[i] == p;
        ps.lemma_filter_contains(shown(false), i);
    }
    lemma_filter_keeps_all(ps, shown(true));
}

/// The processes that the list shows, in order.
pub fn visible_processes(processes: &Vec<ProcessInfo>, show_system: bool) -> (shown_list: Vec<ProcessInfo>)
    ensures
        views(shown_list@) == views(processes@).filter(shown(show_system)),
{
    let mut out: Vec<ProcessInfo> = Vec::new();
    let mut i: usize = 0;
    while i < processes.len()
        invariant
            i <= processes@.len(),
            views(out@) == views(processes@).take(i as int).filter(shown(show_system)),
        decreases processes.len() - i,
    {
        let p = &processes[i];
        proof {
            reveal(Seq::filter);
            assert(views(processes@).take(i + 1).drop_last() =~= views(processes@).take(i as int));
            assert(views(processes@).take(i + 1).last() == p@);
        }
        if show_system || p.pid > 4 {
            let ghost before = out@;
            out.push(p.duplicate());
            assert(views(out@) =~= views(before).push(p@));
        }
        i = i + 1;
    }
    assert(views(processes@).take(processes@.len() as int) =~= views(processes@));
    out
}

/// Whether some listed process has the given pid (a selection stays only
/// while its process is listed).
pub fn is_listed(processes: &Vec<ProcessInfo>, pid: u32) -> (r: bool)
    ensures
        r == exists|i: int| 0 <= i < processes@.len() && #[trigger] processes@[i].pid == pid,
{
    let mut i: usize = 0;
    while i < processes.len()
        invariant
            i <= processes@.len(),
            forall|k: int| 0 <= k < i ==> #[trigger] processes@[k].pid != pid,
        decreases processes.len() - i,
    {
        if processes[i].pid == pid {
            return true;
        }
        i = i + 1;
    }
    false
}

/// The process name contains the filter, both in lower case.
pub open spec fn name_matches(filter: Seq<char>) -> spec_fn(ProcessView) -> bool {
    |p: ProcessView| text_contains(lowercase(p.1), lowercase(filter))
}

/// The processes whose lower-cased name contains the lower-cased filter, in order.
pub fn filter_processes(processes: &Vec<ProcessInfo>, filter: &str) -> (matching: Vec<ProcessInfo>)
    ensures
        views(matching@) == views(processes@).filter(name_matches(filter@)),
        filter@.len() == 0 ==> views(matching@) == views(processes@),
{
    let lowered = to_lowercase(filter);
    proof {
        if filter@.len() == 0 {
            assert(ascii_lowered(filter@) =~= Seq::<char>::empty());
        }
    }
    let mut out: Vec<ProcessInfo> = Vec::new();
    let mut i: usize = 0;
    while i < processes.len()
        invariant
            i <= processes@.len(),
            lowered@ == lowercase(filter@),
            filter@.len() == 0 ==> lowered@.len() == 0,
            views(out@) == views(processes@).take(i as int).filter(name_matches(filter@)),
            filter@.len() == 0 ==> views(out@) == views(processes@).take(i as int),
        decreases processes.len() - i,
    {
        let p = &processes[i];
        let name = to_lowercase(p.name.as_str());
        let hit = contains_text(name.as_str(), lowered.as_str());
        proof {
            reveal(Seq::filter);
            assert(views(processes@).take(i + 1).drop_last() =~= views(processes@).take(i as int));
            assert(views(processes@).take(i + 1).last() == p@);
            if filter@.len() == 0 {
                assert(name@.subrange(0, 0) =~= lowered@);
                assert(text_occurs_at(name@, lowered@, 0));
                assert(views(processes@).take(i + 1) =~= views(processes@).take(i as int).push(p@));
            }
        }
        if hit {
            let ghost before = out@;
            out.push(p.duplicate());
            assert(views(out@) =~= views(before).push(p@));
        }
        i = i + 1;
    }
    assert(views(processes@).take(processes@.len() as int) =~= views(processes@));
    out
}

/// A process matches the search text when the text is empty, when its
/// lower-cased name contains the lower-cased text, or when its pid written
/// in decimal contains the text.
pub open spec fn search_hit(search: Seq<char>) -> spec_fn(ProcessView) -> bool {
    |p: ProcessView|
        search.len() == 0 || text_contains(lowercase(p.1), lowercase(search)) || text_contains(
            decimal(p.0 as nat),
            search,
        )
}

/// Whether a process matches the search text of the process list.
pub fn process_matches_search(p: &ProcessInfo, search: &str) -> (r: bool)
    ensures
        r == search_hit(search@)(p@),
{
    if search.is_empty() {
        return true;
    }
    let name = to_lowercase(p.name.as_str());
    let lowered = to_lowercase(search);
    if contains_text(name.as_str(), lowered.as_str()) {
        return true;
    }
    let pid = to_decimal(p.pid as u64);
    contains_text(pid.as_str(), search)
}

/// The processes that match the search text of the process list, in order.
pub fn search_processes(processes: &Vec<ProcessInfo>, search: &str) -> (matching: Vec<ProcessInfo>)
    ensures
        views(matching@) == views(processes@).filter(search_hit(search@)),
{
    let mut out: Vec<ProcessInfo> = Vec::new();
    let mut i: usize = 0;
    while i < processes.len()
        invariant
            i <= processes@.len(),
            views(out@) == views(processes@).take(i as int).filter(search_hit(search@)),
        decreases processes.len() - i,
    {
        let p = &processes[i];
        let hit = process_matches_search(p, search);
        proof {
            reveal(Seq::filter);
            assert(views(processes@).take(i + 1).drop_last() =~= views(processes@).take(i as int));
            assert(views(processes@).take(i + 1).last() == p@);
        }
        if hit {
            let ghost before = out@;
            out.push(p.duplicate());
            assert(views(out@) =~= views(before).push(p@));
        }
        i = i + 1;
    }
    assert(views(processes@).take(processes@.len() as int) =~= views(processes@));
    out
}

/// A raw thread record of the system snapshot: owning process, thread id,
/// base priority.
#[derive(Debug, Clone, Copy, PartialEq, Eq, Structural)]
pub struct ThreadEntry {
    pub owner_pid: u32,
    pub thread_id: u32,
    pub base_priority: i32,
}

/// The threads that belong to process `pid`.
pub open spec fn threads_of(entries: Seq<ThreadEntry>, pid: u32) -> Seq<ThreadInfo> {
    entries.filter(|e: ThreadEntry| e.owner_pid == pid).map_values(
        |e: ThreadEntry| ThreadInfo { id: e.thread_id, priority: e.base_priority },
    )
}

/// The threads of process `pid` among the snapshot records, in snapshot order.
pub fn threads_of_process(entries: &Vec<ThreadEntry>, pid: u32) -> (threads: Vec<ThreadInfo>)
    ensures
        threads@ == threads_of(entries@, pid),
{
    let mut threads: Vec<ThreadInfo> = Vec::new();
    let mut i: usize = 0;
    while i < entries.len()
        invariant
            i <= entries@.len(),
            threads@ == threads_of(entries@.take(i as int), pid),
        decreases entries.len() - i,
    {
        let e = entries[i];
        proof {
            reveal(Seq::filter);
            assert(entries@.take(i + 1).drop_last() =~= entries@.take(i as int));
        }
        if e.owner_pid == pid {
            threads.push(ThreadInfo { id: e.thread_id, priority: e.base_priority });
        }
        i = i + 1;
        assert(threads@ =~= threads_of(entries@.take(i as int), pid));
    }
    assert(entries@.take(entries@.len() as int) =~= entries@);
    threads
}

/// `s` without NUL characters at its start.
pub open spec fn trim_leading_nul(s: Seq<char>) -> Seq<char>
    decreases s.len(),
{
    if s.len() > 0 && s[0] == '\0' {
        trim_leading_nul(s.drop_first())
    } else {
        s
    }
}

/// `s` without NUL characters at its end.
pub open spec fn trim_trailing_nul(s: Seq<char>) -> Seq<char>
    decreases s.len(),
{
    if s.len() > 0 && s.last() == '\0' {
        trim_trailing_nul(s.drop_last())
    } else {
        s
    }
}

/// `s` without NUL characters at either end (`trim_matches('\0')`).
pub open spec fn trim_nul_chars(s: Seq<char>) -> Seq<char> {
    trim_trailing_nul(trim_leading_nul(s))
}

/// A text without the NUL characters that pad it at either end.
pub fn trim_nul(s: &str) -> (t: String)
    ensures
        t@ == trim_nul_chars(s@),
{
    let chars = chars_of(s);
    assert(chars@.skip(0) =~= chars@);
    let mut start: usize = 0;
    while start < chars.len() && chars[start] == '\0'
        invariant
            start <= chars@.len(),
            chars@ == s@,
            trim_leading_nul(s@) == trim_leading_nul(chars@.skip(start as int)),
        decreases chars.len() - start,
    {
        assert(chars@.skip(start as int).drop_first() =~= chars@.skip(start + 1));
        start = start + 1;
    }
    assert(trim_leading_nul(chars@.skip(start as int)) == chars@.skip(start as int));
    let mut end: usize = chars.len();
    while end > start && chars[end - 1] == '\0'
        invariant
            start <= end <= chars@.len(),
            chars@ == s@,
            trim_nul_chars(s@) == trim_trailing_nul(chars@.subrange(start as int, end as int)),
        decreases end,
    {
        assert(chars@.subrange(start as int, end as int).drop_last() =~= chars@.subrange(
            start as int,
            end - 1,
        ));
        end = end - 1;
    }
    let mut kept: Vec<char> = Vec::new();
    let mut k: usize = start;
    while k < end
        invariant
            start <= k <= end <= chars@.len(),
            kept@ == chars@.subrange(start as int, k as int),
        decreases end - k,
    {
        kept.push(chars[k]);
        k = k + 1;
        assert(kept@ =~= chars@.subrange(start as int, k as int));
    }
    string_from_chars(&kept)
}

/// The process record made from a snapshot entry: the NUL-trimmed image
/// name serves as name and path, and the priority is zero.
pub fn process_info(pid: u32, raw_name: &str, memory_usage: u64) -> (p: ProcessInfo)
    ensures
        p@ == (pid, trim_nul_chars(raw_name@), trim_nul_chars(raw_name@), memory_usage, 0u32),
{
    let name = trim_nul(raw_name);
    let path = name.clone();
    ProcessInfo { pid, name, path, memory_usage, priority: 0 }
}

/// The module record made from a snapshot entry: the NUL-trimmed module name,
/// its base address and size.
pub fn module_info(raw_name: &str, base_address: usize, size: usize) -> (m: ModuleInfo)
    ensures
        m.name@ == trim_nul_chars(raw_name@),
        m.base_address == base_address,
        m.size == size,
{
    ModuleInfo { name: trim_nul(raw_name), base_address, size }
}

/// How many process ids the system wrote, given the number of bytes it
/// reported (four bytes per id).
pub fn process_id_count(bytes_returned: u32) -> (n: usize)
    ensures
        n == bytes_returned / 4,
{
    (bytes_returned / 4) as usize
}

/// The line that the plain process list shows: the pid left-aligned in
/// eight places, the name left-aligned in twenty, and the memory usage in
/// KiB right-aligned in ten, followed by "KB".
pub open spec fn process_row(p: ProcessView) -> Seq<char> {
    pad_right(decimal(p.0 as nat), 8) + " "@ + pad_right(p.1, 20) + " "@ + pad_left(
        decimal((p.3 / 1024) as nat),
        ' ',
        10,
    ) + " KB"@
}

/// The text of the plain process list's line for a process.
pub fn process_row_text(p: &ProcessInfo) -> (s: String)
    ensures
        s@ == process_row(p@),
{
    let pid = to_decimal(p.pid as u64);
    let mut s = padded_right(pid.as_str(), 8);
    push_text(&mut s, " ");
    let name = padded_right(p.name.as_str(), 20);
    push_text(&mut s, name.as_str());
    push_text(&mut s, " ");
    let kib = to_decimal(p.memory_usage / 1024);
    let kib = padded_left(kib.as_str(), ' ', 10);
    push_text(&mut s, kib.as_str());
    push_text(&mut s, " KB");
    s
}

/// The label of a process in the side list: its name and, in brackets, its pid.
pub open spec fn process_label(p: ProcessView) -> Seq<char> {
    p.1 + " ("@ + decimal(p.0 as nat) + ")"@
}

/// The text of a process's label in the side list.
pub fn process_label_text(p: &ProcessInfo) -> (s: String)
    ensures
        s@ == process_label(p@),
{
    let mut s = String::new();
    push_text(&mut s, p.name.as_str());
    push_text(&mut s, " (");
    let pid = to_decimal(p.pid as u64);
    push_text(&mut s, pid.as_str());
    push_text(&mut s, ")");
    s
}

/// The column by which the process list is ordered.
#[derive(Debug, Clone, Copy, PartialEq, Eq, Structural)]
pub enum SortKey {
    Name,
    Pid,
    Memory,
    Priority,
    /// Any other column name: the order is left as it is.
    Unsorted,
}

/// The sort column that a column name selects.
pub open spec fn sort_key_of(name: Seq<char>) -> SortKey {
    if name == "name"@ {
        SortKey::Name
    } else if name == "pid"@ {
        SortKey::Pid
    } else if name == "memory"@ {
        SortKey::Memory
    } else if name == "priority"@ {
        SortKey::Priority
    } else {
        SortKey::Unsorted
    }
}

/// The sort column that a column name selects ("name", "pid", "memory",
/// "priority"; anything else leaves the order unchanged).
pub fn sort_key_from_name(name: &str) -> (key: SortKey)
    ensures
        key == sort_key_of(name@),
{
    if texts_equal(name, "name") {
        SortKey::Name
    } else if texts_equal(name, "pid") {
        SortKey::Pid
    } else if texts_equal(name, "memory") {
        SortKey::Memory
    } else if texts_equal(name, "priority") {
        SortKey::Priority
    } else {
        SortKey::Unsorted
    }
}

/// Lexicographic order of texts by character code (the order of `str`).
pub open spec fn chars_less(a: Seq<char>, b: Seq<char>) -> bool
    decreases a.len(),
{
    if a.len() == 0 {
        b.len() > 0
    } else if b.len() == 0 {
        false
    } else if a[0] != b[0] {
        a[0] < b[0]
    } else {
        chars_less(a.drop_first(), b.drop_first())
    }
}

/// Whether `a` comes before `b` in the order of texts.
pub fn text_less(a: &Vec<char>, b: &Vec<char>) -> (r: bool)
    ensures
        r == chars_less(a@, b@),
{
    let mut i: usize = 0;
    assert(a@.skip(0) =~= a@);
    assert(b@.skip(0) =~= b@);
    while i < a.len() && i < b.len()
        invariant
            i <= a@.len(),
            i <= b@.len(),
            chars_less(a@, b@) == chars_less(a@.skip(i as int), b@.skip(i as int)),
        decreases a.len() - i,
    {
        if a[i] != b[i] {
            return a[i] < b[i];
        }
        assert(a@.skip(i as int).drop_first() =~= a@.skip(i + 1));
        assert(b@.skip(i as int).drop_first() =~= b@.skip(i + 1));
        i = i + 1;
    }
    a.len() < b.len()
}

/// `a` is placed strictly before `b` when ordering by `key` in the given direction.
pub open spec fn precedes(a: ProcessView, b: ProcessView, key: SortKey, ascending: bool) -> bool {
    match key {
        SortKey::Name => if ascending {
            chars_less(a.1, b.1)
        } else {
            chars_less(b.1, a.1)
        },
        SortKey::Pid => if ascending {
            a.0 < b.0
        } else {
            b.0 < a.0
        },
        SortKey::Memory => if ascending {
            a.3 < b.3
        } else {
            b.3 < a.3
        },
        SortKey::Priority => if ascending {
            a.4 < b.4
        } else {
            b.4 < a.4
        },
        SortKey::Unsorted => false,
    }
}

/// `sorted` with `x` placed after every element that `x` does not precede.
pub open spec fn insert_sorted(sorted: Seq<ProcessView>, x: ProcessView, key: SortKey, ascending: bool) -> Seq<ProcessView>
    decreases sorted.len(),
{
    if sorted.len() == 0 {
        seq![x]
    } else if precedes(x, sorted.last(), key, ascending) {
        insert_sorted(sorted.drop_last(), x, key, ascending).push(sorted.last())
    } else {
        sorted.push(x)
    }
}

/// The stable sort of `s` by `key` in the given direction: elements that
/// neither precede the other keep their relative order.
pub open spec fn stable_sort(s: Seq<ProcessView>, key: SortKey, ascending: bool) -> Seq<ProcessView>
    decreases s.len(),
{
    if s.len() == 0 {
        s
    } else {
        insert_sorted(stable_sort(s.drop_last(), key, ascending), s.last(), key, ascending)
    }
}

/// Inserting at the place found by scanning back over the elements that
/// `x` precedes gives the sorted insertion.
proof fn lemma_insert_at(s: Seq<ProcessView>, x: ProcessView, key: SortKey, ascending: bool, j: int)
    requires
        0 <= j <= s.len(),
        forall|m: int| j <= m < s.len() ==> precedes(x, #[trigger] s[m], key, ascending),
        j == 0 || !precedes(x, s[j - 1], key, ascending),
    ensures
        insert_sorted(s, x, key, ascending) == s.insert(j, x),
    decreases s.len(),
{
    if s.len() == 0 {
        assert(s.insert(j, x) =~= seq![x]);
    } else if j == s.len() {
        assert(s.insert(j, x) =~= s.push(x));
    } else {
        assert(precedes(x, s[s.len() - 1], key, ascending));
        let t = s.drop_last();
        assert forall|m: int| j <= m < t.len() implies precedes(x, #[trigger] t[m], key, ascending) by {
            assert(t[m] == s[m]);
        }
        if j > 0 {
            assert(t[j - 1] == s[j - 1]);
        }
        lemma_insert_at(t, x, key, ascending, j);
        assert(t.insert(j, x).push(s.last()) =~= s.insert(j, x));
    }
}

/// Whether `a` is placed strictly before `b`.
pub fn process_precedes(a: &ProcessInfo, b: &ProcessInfo, key: SortKey, ascending: bool) -> (r: bool)
    ensures
        r == precedes(a@, b@, key, ascending),
{
    match key {
        SortKey::Name => {
            let x = chars_of(a.name.as_str());
            let y = chars_of(b.name.as_str());
            if ascending {
                text_less(&x, &y)
            } else {
                text_less(&y, &x)
            }
        },
        SortKey::Pid => if ascending {
            a.pid < b.pid
        } else {
            b.pid < a.pid
        },
        SortKey::Memory => if ascending {
            a.memory_usage < b.memory_usage
        } else {
            b.memory_usage < a.memory_usage
        },
        SortKey::Priority => if ascending {
            a.priority < b.priority
        } else {
            b.priority < a.priority
        },
        SortKey::Unsorted => false,
    }
}

/// The processes ordered by `key` (ascending or descending), stably: the
/// order of processes that tie is kept.
pub fn sort_processes(processes: &Vec<ProcessInfo>, key: SortKey, ascending: bool) -> (sorted: Vec<ProcessInfo>)
    ensures
        views(sorted@) == stable_sort(views(processes@), key, ascending),
{
    let mut out: Vec<ProcessInfo> = Vec::new();
    let mut i: usize = 0;
    while i < processes.len()
        invariant
            i <= processes@.len(),
            views(out@) == stable_sort(views(processes@).take(i as int), key, ascending),
        decreases processes.len() - i,
    {
        let x = processes[i].duplicate();
        let mut j: usize = out.len();
        while j > 0 && process_precedes(&x, &out[j - 1], key, ascending)
            invariant
                j <= out@.len(),
                forall|m: int| j <= m < out@.len() ==> precedes(x@, #[trigger] views(out@)[m], key, ascending),
            decreases j,
        {
            j = j - 1;
        }
        proof {
            let t = views(processes@).take(i + 1);
            assert(t.drop_last() =~= views(processes@).take(i as int));
            assert(t.last() == x@);
            if j > 0 {
                assert(views(out@)[j - 1] == out@[j - 1]@);
            }
            lemma_insert_at(views(out@), x@, key, ascending, j as int);
        }
        let ghost before = out@;
        out.insert(j, x);
        assert(views(out@) =~= views(before).insert(j as int, x@));
        i = i + 1;
    }
    assert(views(processes@).take(processes@.len() as int) =~= views(processes@));
    out
}

/// No text comes before itself.
proof fn lemma_chars_less_irreflexive(a: Seq<char>)
    ensures
        !chars_less(a, a),
    decreases a.len(),
{
    if a.len() > 0 {
        lemma_chars_less_irreflexive(a.drop_first());
    }
}

/// The order of texts is transitive.
proof fn lemma_chars_less_transitive(a: Seq<char>, b: Seq<char>, c: Seq<char>)
    requires
        chars_less(a, b),
        chars_less(b, c),
    ensures
        chars_less(a, c),
    decreases a.len(),
{
    if a.len() > 0 && b.len() > 0 && c.len() > 0 && a[0] == b[0] && b[0] == c[0] {
        lemma_chars_less_transitive(a.drop_first(), b.drop_first(), c.drop_first());
    }
}

/// Of two different texts one comes before the other.
proof fn lemma_chars_less_total(a: Seq<char>, b: Seq<char>)
    requires
        a != b,
    ensures
        chars_less(a, b) || chars_less(b, a),
    decreases a.len(),
{
    if a.len() > 0 && b.len() > 0 && a[0] == b[0] {
        if a.drop_first() == b.drop_first() {
            assert(a =~= seq![a[0]] + a.drop_first());
            assert(b =~= seq![b[0]] + b.drop_first());
        }
        lemma_chars_less_total(a.drop_first(), b.drop_first());
    } else if a.len() == 0 && b.len() == 0 {
        assert(a =~= b);
    }
}

/// Placing before is asymmetric.
proof fn lemma_precedes_asymmetric(a: ProcessView, b: ProcessView, key: SortKey, ascending: bool)
    requires
        precedes(a, b, key, ascending),
    ensures
        !precedes(b, a, key, ascending),
{
    if key == SortKey::Name {
        if chars_less(a.1, b.1) && chars_less(b.1, a.1) {
            lemma_chars_less_transitive(a.1, b.1, a.1);
            lemma_chars_less_irreflexive(a.1);
        }
    }
}

/// If `a` is placed before `b` and `c` is not placed before `b`, then `a`
/// is placed before `c`.
proof fn lemma_precedes_combine(a: ProcessView, b: ProcessView, c: ProcessView, key: SortKey, ascending: bool)
    requires
        precedes(a, b, key, ascending),
        !precedes(c, b, key, ascending),
    ensures
        precedes(a, c, key, ascending),
{
    if key == SortKey::Name {
        if b.1 != c.1 {
            lemma_chars_less_total(b.1, c.1);
            if ascending {
                lemma_chars_less_transitive(a.1, b.1, c.1);
            } else {
                lemma_chars_less_transitive(c.1, b.1, a.1);
            }
        }
    }
}

/// No element is placed before an earlier one.
pub open spec fn sorted_by(s: Seq<ProcessView>, key: SortKey, ascending: bool) -> bool {
    forall|i: int, j: int| 0 <= i < j < s.len() ==> !precedes(#[trigger] s[j], #[trigger] s[i], key, ascending)
}

proof fn lemma_insert_sorted_multiset(s: Seq<ProcessView>, x: ProcessView, key: SortKey, ascending: bool)
    ensures
        insert_sorted(s, x, key, ascending).to_multiset() =~= s.to_multiset().insert(x),
    decreases s.len(),
{
    broadcast use vstd::seq_lib::group_to_multiset_ensures, vstd::multiset::group_multiset_axioms;

    if s.len() == 0 {
        assert(seq![x] =~= Seq::<ProcessView>::empty().push(x));
    } else {
        assert(s =~= s.drop_last().push(s.last()));
        if precedes(x, s.last(), key, ascending) {
            lemma_insert_sorted_multiset(s.drop_last(), x, key, ascending);
        }
    }
}

proof fn lemma_insert_sorted_sorted(s: Seq<ProcessView>, x: ProcessView, key: SortKey, ascending: bool)
    requires
        sorted_by(s, key, ascending),
    ensures
        sorted_by(insert_sorted(s, x, key, ascending), key, ascending),
    decreases s.len(),
{
    broadcast use vstd::seq_lib::group_to_multiset_ensures, vstd::multiset::group_multiset_axioms;

    if s.len() == 0 {
    } else {
        let last = s.last();
        let t = s.drop_last();
        if precedes(x, last, key, ascending) {
            assert(sorted_by(t, key, ascending)) by {
                assert forall|i: int, j: int| 0 <= i < j < t.len() implies !precedes(#[trigger] t[j], #[trigger] t[i], key, ascending) by {
                    assert(t[i] == s[i]);
                    assert(t[j] == s[j]);
                }
            }
            lemma_insert_sorted_sorted(t, x, key, ascending);
            let u = insert_sorted(t, x, key, ascending);
            lemma_insert_sorted_multiset(t, x, key, ascending);
            assert forall|i: int| 0 <= i < u.len() implies !precedes(last, #[trigger] u[i], key, ascending) by {
                assert(u.contains(u[i]));
                assert(u.to_multiset().count(u[i]) > 0);
                if u[i] == x {
                    lemma_precedes_asymmetric(x, last, key, ascending);
                } else {
                    assert(t.to_multiset().count(u[i]) > 0);
                    assert(t.contains(u[i]));
                    let k = choose|k: int| 0 <= k < t.len() && t[k] == u[i];
                    assert(s[k] == t[k]);
                    assert(s[s.len() - 1] == last);
                }
            }
            assert forall|i: int, j: int| 0 <= i < j < u.push(last).len() implies !precedes(
                #[trigger] u.push(last)[j],
                #[trigger] u.push(last)[i],
                key,
                ascending,
            ) by {
                assert(u.push(last)[i] == u[i]);
                if j < u.len() {
                    assert(u.push(last)[j] == u[j]);
                }
            }
        } else {
            assert forall|i: int, j: int| 0 <= i < j < s.push(x).len() implies !precedes(
                #[trigger] s.push(x)[j],
                #[trigger] s.push(x)[i],
                key,
                ascending,
            ) by {
                assert(s.push(x)[i] == s[i]);
                if j < s.len() {
                    assert(s.push(x)[j] == s[j]);
                } else {
                    if precedes(x, s[i], key, ascending) {
                        if i < s.len() - 1 {
                            assert(!precedes(s[s.len() - 1], s[i], key, ascending));
                            lemma_precedes_combine(x, s[i], last, key, ascending);
                        }
                    }
                }
            }
        }
    }
}

/// Sorting the process list only reorders it: the sorted list holds the
/// same processes, each as often as before.
pub proof fn lemma_sort_is_permutation(s: Seq<ProcessView>, key: SortKey, ascending: bool)
    ensures
        stable_sort(s, key, ascending).to_multiset() =~= s.to_multiset(),
    decreases s.len(),
{
    broadcast use vstd::seq_lib::group_to_multiset_ensures, vstd::multiset::group_multiset_axioms;

    if s.len() > 0 {
        lemma_sort_is_permutation(s.drop_last(), key, ascending);
        lemma_insert_sorted_multiset(stable_sort(s.drop_last(), key, ascending), s.last(), key, ascending);
        assert(s =~= s.drop_last().push(s.last()));
    }
}

/// The sorted process list is in order: no process is placed before one
/// that comes earlier in the list.
pub proof fn lemma_sort_is_sorted(s: Seq<ProcessView>, key: SortKey, ascending: bool)
    ensures
        sorted_by(stable_sort(s, key, ascending), key, ascending),
    decreases s.len(),
{
    if s.len() > 0 {
        lemma_sort_is_sorted(s.drop_last(), key, ascending);
        lemma_insert_sorted_sorted(stable_sort(s.drop_last(), key, ascending), s.last(), key, ascending);
    }
}

/// Ordering by an unknown column leaves the process list as it is.
pub proof fn lemma_unsorted_keeps_order(s: Seq<ProcessView>, ascending: bool)
    ensures
        stable_sort(s, SortKey::Unsorted, ascending) == s,
    decreases s.len(),
{
    if s.len() > 0 {
        lemma_unsorted_keeps_order(s.drop_last(), ascending);
        assert(s.drop_last().push(s.last()) =~= s);
    }
}

/// Neither process is placed before the other.
pub open spec fn tied(a: ProcessView, b: ProcessView, key: SortKey, ascending: bool) -> bool {
    !precedes(a, b, key, ascending) && !precedes(b, a, key, ascending)
}

/// The processes tied with `x`.
pub open spec fn tied_with(x: ProcessView, key: SortKey, ascending: bool) -> spec_fn(ProcessView) -> bool {
    |y: ProcessView| tied(y, x, key, ascending)
}

/// A process placed before one tied with `x` is not tied with `x` itself.
proof fn lemma_tie_excludes(z: ProcessView, w: ProcessView, x: ProcessView, key: SortKey, ascending: bool)
    requires
        precedes(z, w, key, ascending),
        tied(z, x, key, ascending),
    ensures
        !tied(w, x, key, ascending),
{
    if key == SortKey::Name && tied(w, x, key, ascending) {
        if z.1 != x.1 {
            lemma_chars_less_total(z.1, x.1);
        }
        if w.1 != x.1 {
            lemma_chars_less_total(w.1, x.1);
        }
        lemma_chars_less_irreflexive(z.1);
    }
}

/// Inserting `z` keeps the order among the processes tied with `x`, and
/// puts `z` last among them where it is tied with `x`.
proof fn lemma_insert_sorted_ties(t: Seq<ProcessView>, z: ProcessView, x: ProcessView, key: SortKey, ascending: bool)
    ensures
        insert_sorted(t, z, key, ascending).filter(tied_with(x, key, ascending)) == if tied(z, x, key, ascending) {
            t.filter(tied_with(x, key, ascending)).push(z)
        } else {
            t.filter(tied_with(x, key, ascending))
        },
    decreases t.len(),
{
    let f = tied_with(x, key, ascending);
    if t.len() == 0 {
        Seq::<ProcessView>::empty().lemma_filter_push(z, f);
        assert(seq![z] =~= Seq::<ProcessView>::empty().push(z));
    } else if precedes(z, t.last(), key, ascending) {
        let rest = t.drop_last();
        lemma_insert_sorted_ties(rest, z, x, key, ascending);
        if tied(z, x, key, ascending) {
            lemma_tie_excludes(z, t.last(), x, key, ascending);
        }
        insert_sorted(rest, z, key, ascending).lemma_filter_push(t.last(), f);
        rest.lemma_filter_push(t.last(), f);
        assert(rest.push(t.last()) =~= t);
    } else {
        t.lemma_filter_push(z, f);
    }
}

/// Sorting is stable: the processes tied with any given one (neither placed
/// before the other) come out in the order they came in.
pub proof fn lemma_sort_is_stable(s: Seq<ProcessView>, x: ProcessView, key: SortKey, ascending: bool)
    ensures
        stable_sort(s, key, ascending).filter(tied_with(x, key, ascending)) == s.filter(
            tied_with(x, key, ascending),
        ),
    decreases s.len(),
{
    if s.len() > 0 {
        let rest = s.drop_last();
        lemma_sort_is_stable(rest, x, key, ascending);
        lemma_insert_sorted_ties(stable_sort(rest, key, ascending), s.last(), x, key, ascending);
        rest.lemma_filter_push(s.last(), tied_with(x, key, ascending));
        assert(rest.push(s.last()) =~= s);
    }
}

} // verus!
