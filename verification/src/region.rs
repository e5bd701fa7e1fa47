//! Memory regions of a process: how a region is described, how the region
//! list is walked, how it is summarised, filtered and searched.

use vstd::prelude::*;
use vstd::slice::slice_to_vec;

use crate::scan::{matches_at, occurs_at};
use crate::text::{
    contains_text, decimal, hex_upper, lowercase, pad_left, pad_right, padded_left, padded_right,
    push_text, text_contains, to_decimal, to_hex_upper, to_lowercase,
};

verus! {

/// Allocation state of committed pages.
pub const MEM_COMMIT: u32 = 0x1000;
/// Allocation type of private pages.
pub const MEM_PRIVATE: u32 = 0x20000;
/// Allocation type of pages mapped into a view of a section.
pub const MEM_MAPPED: u32 = 0x40000;
/// Page protection: read-write.
pub const PAGE_READWRITE: u32 = 0x04;
/// Page protection: execute only.
pub const PAGE_EXECUTE: u32 = 0x10;
/// Page protection: execute and read.
pub const PAGE_EXECUTE_READ: u32 = 0x20;
/// Page protection: execute, read and write.
pub const PAGE_EXECUTE_READWRITE: u32 = 0x40;
/// The address from which the walk over the user address space stops.
pub const USER_SPACE_END: u64 = 0x7FFF_FFFF_FFFF;

/// One region of a process's virtual address space.
#[derive(Debug, Clone, Copy, PartialEq, Eq, Structural)]
pub struct MemoryRegion {
    pub base_address: usize,
    pub size: usize,
    pub state: u32,
    pub protection: u32,
    pub allocation_type: u32,
    pub is_executable: bool,
    pub is_writable: bool,
}

impl MemoryRegion {
    /// Field-by-field equality of two regions.
    pub fn eq(&self, other: &Self) -> (r: bool)
        ensures
            r == (*self == *other),
    {
        self.base_address == other.base_address && self.size == other.size && self.state
            == other.state && self.protection == other.protection && self.allocation_type
            == other.allocation_type && self.is_executable == other.is_executable
            && self.is_writable == other.is_writable
    }
}

/// The protection values under which a region counts as executable.
pub open spec fn executable_protection(protect: u32) -> bool {
    protect == PAGE_EXECUTE || protect == PAGE_EXECUTE_READ || protect == PAGE_EXECUTE_READWRITE
}

/// The protection values under which a region counts as writable.
pub open spec fn writable_protection(protect: u32) -> bool {
    protect == PAGE_READWRITE || protect == PAGE_EXECUTE_READWRITE
}

/// What the system reports of one region when it is asked about an address.
#[derive(Debug, Clone, Copy, PartialEq, Eq, Structural)]
pub struct RegionQuery {
    pub base_address: usize,
    pub region_size: usize,
    pub state: u32,
    pub protect: u32,
    pub allocation_type: u32,
}

/// The region that a query answer describes.
pub open spec fn spec_region_from_query(q: RegionQuery) -> MemoryRegion {
    MemoryRegion {
        base_address: q.base_address,
        size: q.region_size,
        state: q.state,
        protection: q.protect,
        allocation_type: q.allocation_type,
        is_executable: executable_protection(q.protect),
        is_writable: writable_protection(q.protect),
    }
}

/// A region counts as executable exactly for PAGE_EXECUTE (0x10),
/// PAGE_EXECUTE_READ (0x20) and PAGE_EXECUTE_READWRITE (0x40), and as
/// writable exactly for PAGE_READWRITE (0x04) and PAGE_EXECUTE_READWRITE (0x40).
pub proof fn lemma_protection_classes(q: RegionQuery)
    ensures
        spec_region_from_query(q).is_executable <==> (q.protect == 0x10 || q.protect == 0x20 || q.protect == 0x40),
        spec_region_from_query(q).is_writable <==> (q.protect == 0x04 || q.protect == 0x40),
        spec_region_from_query(q).base_address == q.base_address,
        spec_region_from_query(q).size == q.region_size,
        spec_region_from_query(q).protection == q.protect,
        spec_region_from_query(q).state == q.state,
        spec_region_from_query(q).allocation_type == q.allocation_type,
{
}

/// Builds the region that a query answer describes, classifying its protection.
pub fn region_from_query(q: &RegionQuery) -> (r: MemoryRegion)
    ensures
        r == spec_region_from_query(*q),
{
    let protect = q.protect;
    MemoryRegion {
        base_address: q.base_address,
        size: q.region_size,
        state: q.state,
        protection: protect,
        allocation_type: q.allocation_type,
        is_executable: protect == PAGE_EXECUTE || protect == PAGE_EXECUTE_READ || protect
            == PAGE_EXECUTE_READWRITE,
        is_writable: protect == PAGE_READWRITE || protect == PAGE_EXECUTE_READWRITE,
    }
}

/// A walk over the address space of a process, one query at a time.
pub struct MemoryMapScan {
    /// The address to ask about next.
    pub next_address: usize,
    /// The regions found so far, in the order they were reported.
    pub regions: Vec<MemoryRegion>,
    /// Whether the walk has ended.
    pub finished: bool,
}

impl MemoryMapScan {
    /// A walk that starts at address zero with no region found.
    pub fn new() -> (scan: Self)
        ensures
            scan.next_address == 0,
            scan.regions@.len() == 0,
            !scan.finished,
    {
        MemoryMapScan { next_address: 0, regions: Vec::new(), finished: false }
    }

    /// Takes the answer to the query at `next_address`: `None` where the
    /// query failed, which ends the walk.  Otherwise the region is recorded
    /// and the walk moves to the end of that region, ending once it reaches
    /// the end of the user address space.
    pub fn record(&mut self, answer: Option<RegionQuery>)
        requires
            !old(self).finished,
            answer matches Some(q) ==> q.base_address + q.region_size <= usize::MAX,
        ensures
            answer is None ==> {
                &&& final(self).finished
                &&& final(self).regions@ == old(self).regions@
                &&& final(self).next_address == old(self).next_address
            },
            answer matches Some(q) ==> {
                &&& final(self).regions@ == old(self).regions@.push(spec_region_from_query(q))
                &&& final(self).next_address == q.base_address + q.region_size
                &&& final(self).finished == (final(self).next_address >= USER_SPACE_END)
            },
    {
        match answer {
            None => {
                self.finished = true;
            },
            Some(q) => {
                let region = region_from_query(&q);
                self.regions.push(region);
                self.next_address = q.base_address + q.region_size;
                self.finished = (self.next_address as u64) >= USER_SPACE_END;
            },
        }
    }
}

/// A region whose pages are committed (only those are read and analysed).
pub open spec fn is_committed(region: MemoryRegion) -> bool {
    region.state == MEM_COMMIT
}

/// Whether the region's pages are committed.
pub fn region_is_committed(region: &MemoryRegion) -> (r: bool)
    ensures
        r == is_committed(*region),
{
    region.state == MEM_COMMIT
}

/// A place in a process's memory where a searched pattern was found.
#[derive(Debug, Clone)]
pub struct MemoryPattern {
    pub offset: usize,
    pub size: usize,
    pub matches: Vec<u8>,
}

impl View for MemoryPattern {
    type V = (usize, usize, Seq<u8>);

    open spec fn view(&self) -> (usize, usize, Seq<u8>) {
        (self.offset, self.size, self.matches@)
    }
}

/// The positions below `n` at which `pattern` occurs in `data`, ascending.
pub open spec fn match_offsets(data: Seq<u8>, pattern: Seq<u8>, n: int) -> Seq<int>
    decreases n,
{
    if n <= 0 {
        Seq::empty()
    } else if occurs_at(data, pattern, n - 1) {
        match_offsets(data, pattern, n - 1).push(n - 1)
    } else {
        match_offsets(data, pattern, n - 1)
    }
}

/// Every listed offset lies below `n` and is a place where the pattern occurs.
pub proof fn lemma_match_offsets_sound(data: Seq<u8>, pattern: Seq<u8>, n: int)
    ensures
        forall|k: int|
            0 <= k < match_offsets(data, pattern, n).len() ==> {
                &&& 0 <= #[trigger] match_offsets(data, pattern, n)[k] < n
                &&& occurs_at(data, pattern, match_offsets(data, pattern, n)[k])
            },
    decreases n,
{
    if n > 0 {
        lemma_match_offsets_sound(data, pattern, n - 1);
        let prev = match_offsets(data, pattern, n - 1);
        if occurs_at(data, pattern, n - 1) {
            assert forall|k: int| 0 <= k < prev.push(n - 1).len() implies {
                &&& 0 <= #[trigger] prev.push(n - 1)[k] < n
                &&& occurs_at(data, pattern, prev.push(n - 1)[k])
            } by {
                if k < prev.len() {
                    assert(prev.push(n - 1)[k] == prev[k]);
                }
            }
        }
    }
}

/// The search hits that `data`, read from `base_address`, holds for `pattern`.
pub open spec fn region_hits(base_address: usize, data: Seq<u8>, pattern: Seq<u8>) -> Seq<(usize, usize, Seq<u8>)> {
    match_offsets(data, pattern, data.len() as int).map_values(
        |i: int| ((base_address + i) as usize, pattern.len() as usize, pattern),
    )
}

/// Every address of a place where `pattern` occurs in `data`, counted from
/// `base_address`, fits in the address space.
pub open spec fn hits_fit(base_address: usize, data: Seq<u8>, pattern: Seq<u8>) -> bool {
    forall|i: int| #[trigger] occurs_at(data, pattern, i) ==> base_address + i <= usize::MAX
}

/// Every place in `data` where `pattern` occurs, as addresses counted from
/// `base_address`, in ascending order; each hit records the pattern's length
/// and the matching bytes.
pub fn find_pattern_matches(base_address: usize, data: &[u8], pattern: &[u8]) -> (hits: Vec<MemoryPattern>)
    requires
        pattern@.len() > 0,
        hits_fit(base_address, data@, pattern@),
    ensures
        hits@.map_values(|h: MemoryPattern| h@) == region_hits(base_address, data@, pattern@),
{
    let mut hits: Vec<MemoryPattern> = Vec::new();
    let mut i: usize = 0;
    while i < data.len()
        invariant
            i <= data.len(),
            pattern@.len() > 0,
            hits_fit(base_address, data@, pattern@),
            hits@.map_values(|h: MemoryPattern| h@) == match_offsets(data@, pattern@, i as int).map_values(
                |k: int| ((base_address + k) as usize, pattern@.len() as usize, pattern@),
            ),
        decreases data.len() - i,
    {
        let ghost before = hits@;
        if pattern.len() <= data.len() - i && matches_at(data, pattern, i) {
            assert(occurs_at(data@, pattern@, i as int));
            let window = slice_to_vec(pattern);
            hits.push(MemoryPattern { offset: base_address + i, size: pattern.len(), matches: window });
            assert(hits@.map_values(|h: MemoryPattern| h@) =~= before.map_values(|h: MemoryPattern| h@).push(
                ((base_address + i) as usize, pattern@.len() as usize, pattern@),
            ));
        }
        i = i + 1;
        assert(hits@.map_values(|h: MemoryPattern| h@) =~= match_offsets(data@, pattern@, i as int).map_values(
            |k: int| ((base_address + k) as usize, pattern@.len() as usize, pattern@),
        ));
    }
    hits
}

/// The hits of a memory search over the first `n` regions, given what was
/// read of each (`None` where nothing was read).  Only committed regions count.
pub open spec fn search_hits(
    regions: Seq<MemoryRegion>,
    contents: Seq<Option<Vec<u8>>>,
    pattern: Seq<u8>,
    n: int,
) -> Seq<(usize, usize, Seq<u8>)>
    decreases n,
{
    if n <= 0 {
        Seq::empty()
    } else {
        let earlier = search_hits(regions, contents, pattern, n - 1);
        let region = regions[n - 1];
        if is_committed(region) && contents[n - 1] is Some {
            earlier + region_hits(region.base_address, contents[n - 1]->Some_0@, pattern)
        } else {
            earlier
        }
    }
}

/// In each committed region that was read, every place where `pattern`
/// occurs has an address that fits in the address space.
pub open spec fn contents_fit(regions: Seq<MemoryRegion>, contents: Seq<Option<Vec<u8>>>, pattern: Seq<u8>) -> bool {
    forall|i: int|
        0 <= i < regions.len() && is_committed(regions[i]) && #[trigger] contents[i] is Some ==> hits_fit(
            regions[i].base_address,
            contents[i]->Some_0@,
            pattern,
        )
}

/// Searches the committed regions for `pattern`, given what was read of each
/// region (`contents[i]` for `regions[i]`, `None` where the read failed).
/// The hits come region by region, each region's in ascending order.
pub fn search_memory(regions: &Vec<MemoryRegion>, contents: &Vec<Option<Vec<u8>>>, pattern: &[u8]) -> (hits: Vec<MemoryPattern>)
    requires
        pattern@.len() > 0,
        contents@.len() == regions@.len(),
        contents_fit(regions@, contents@, pattern@),
    ensures
        hits@.map_values(|h: MemoryPattern| h@) == search_hits(regions@, contents@, pattern@, regions@.len() as int),
{
    let mut hits: Vec<MemoryPattern> = Vec::new();
    let mut i: usize = 0;
    while i < regions.len()
        invariant
            i <= regions@.len(),
            pattern@.len() > 0,
            contents@.len() == regions@.len(),
            contents_fit(regions@, contents@, pattern@),
            hits@.map_values(|h: MemoryPattern| h@) == search_hits(regions@, contents@, pattern@, i as int),
        decreases regions.len() - i,
    {
        let region = regions[i];
        if region_is_committed(&region) {
            match &contents[i] {
                Some(data) => {
                    assert(contents@[i as int] is Some);
                    let mut found = find_pattern_matches(region.base_address, data.as_slice(), pattern);
                    let ghost before = hits@;
                    let ghost added = found@;
                    hits.append(&mut found);
                    assert(hits@.map_values(|h: MemoryPattern| h@) =~= before.map_values(|h: MemoryPattern| h@) + added.map_values(|h: MemoryPattern| h@));
                },
                None => {},
            }
        }
        i = i + 1;
    }
    hits
}

/// Number of regions among the first `n` that count as executable.
pub open spec fn count_executable(regions: Seq<MemoryRegion>, n: int) -> nat
    decreases n,
{
    if n <= 0 {
        0
    } else {
        count_executable(regions, n - 1) + if regions[n - 1].is_executable { 1nat } else { 0nat }
    }
}

/// Number of regions among the first `n` that count as writable.
pub open spec fn count_writable(regions: Seq<MemoryRegion>, n: int) -> nat
    decreases n,
{
    if n <= 0 {
        0
    } else {
        count_writable(regions, n - 1) + if regions[n - 1].is_writable { 1nat } else { 0nat }
    }
}

/// The summed sizes of the first `n` regions.
pub open spec fn total_size(regions: Seq<MemoryRegion>, n: int) -> nat
    decreases n,
{
    if n <= 0 {
        0
    } else {
        total_size(regions, n - 1) + regions[n - 1].size as nat
    }
}

/// The regions flagged executable.
pub open spec fn executable_test() -> spec_fn(MemoryRegion) -> bool {
    |r: MemoryRegion| r.is_executable
}

/// The regions flagged writable.
pub open spec fn writable_test() -> spec_fn(MemoryRegion) -> bool {
    |r: MemoryRegion| r.is_writable
}

/// The statistics count, among the first `n` regions, exactly those flagged
/// executable and exactly those flagged writable; and one more region adds
/// its size to the total.
pub proof fn lemma_statistics_count_flags(regions: Seq<MemoryRegion>, n: int)
    requires
        0 <= n <= regions.len(),
    ensures
        count_executable(regions, n) == regions.take(n).filter(executable_test()).len(),
        count_writable(regions, n) == regions.take(n).filter(writable_test()).len(),
        n > 0 ==> total_size(regions, n) == total_size(regions, n - 1) + regions[n - 1].size,
    decreases n,
{
    reveal(Seq::filter);
    if n > 0 {
        lemma_statistics_count_flags(regions, n - 1);
        assert(regions.take(n).drop_last() =~= regions.take(n - 1));
        assert(regions.take(n).last() == regions[n - 1]);
    } else {
        assert(regions.take(n) =~= Seq::<MemoryRegion>::empty());
    }
}

proof fn lemma_total_size_monotonic(regions: Seq<MemoryRegion>, m: int, n: int)
    requires
        0 <= m <= n,
    ensures
        total_size(regions, m) <= total_size(regions, n),
    decreases n - m,
{
    if m < n {
        lemma_total_size_monotonic(regions, m, n - 1);
    }
}

proof fn lemma_counts_bounded(regions: Seq<MemoryRegion>, n: int)
    requires
        0 <= n,
    ensures
        count_executable(regions, n) <= n,
        count_writable(regions, n) <= n,
    decreases n,
{
    if n > 0 {
        lemma_counts_bounded(regions, n - 1);
    }
}

/// Summary figures of a region list.
#[derive(Debug, Clone, Copy, PartialEq, Eq, Structural)]
pub struct MemoryStatistics {
    pub total_regions: usize,
    pub executable_regions: usize,
    pub writable_regions: usize,
    /// Total mapped size in whole mebibytes (rounded down).
    pub total_memory_mb: usize,
}

/// Counts the regions, the executable and the writable ones, and sums
/// their sizes in whole mebibytes.
pub fn memory_statistics(regions: &Vec<MemoryRegion>) -> (stats: MemoryStatistics)
    requires
        total_size(regions@, regions@.len() as int) <= usize::MAX,
    ensures
        stats.total_regions == regions@.len(),
        stats.executable_regions == count_executable(regions@, regions@.len() as int),
        stats.writable_regions == count_writable(regions@, regions@.len() as int),
        stats.total_memory_mb == total_size(regions@, regions@.len() as int) / (1024 * 1024),
{
    let mut executable: usize = 0;
    let mut writable: usize = 0;
    let mut total: usize = 0;
    let mut i: usize = 0;
    while i < regions.len()
        invariant
            i <= regions@.len(),
            total_size(regions@, regions@.len() as int) <= usize::MAX,
            executable == count_executable(regions@, i as int),
            writable == count_writable(regions@, i as int),
            total == total_size(regions@, i as int),
        decreases regions.len() - i,
    {
        proof {
            lemma_total_size_monotonic(regions@, i + 1, regions@.len() as int);
            lemma_counts_bounded(regions@, i as int);
        }
        let r = regions[i];
        if r.is_executable {
            executable = executable + 1;
        }
        if r.is_writable {
            writable = writable + 1;
        }
        total = total + r.size;
        i = i + 1;
    }
    MemoryStatistics {
        total_regions: regions.len(),
        executable_regions: executable,
        writable_regions: writable,
        total_memory_mb: total / (1024 * 1024),
    }
}

/// The name of a page access value (one of the eight basic protections).
pub open spec fn access_label(access: u32) -> Option<Seq<char>> {
    if access == 0x01 {
        Some("PAGE_NOACCESS"@)
    } else if access == 0x02 {
        Some("PAGE_READONLY"@)
    } else if access == 0x04 {
        Some("PAGE_READWRITE"@)
    } else if access == 0x08 {
        Some("PAGE_WRITECOPY"@)
    } else if access == 0x10 {
        Some("PAGE_EXECUTE"@)
    } else if access == 0x20 {
        Some("PAGE_EXECUTE_READ"@)
    } else if access == 0x40 {
        Some("PAGE_EXECUTE_READWRITE"@)
    } else if access == 0x80 {
        Some("PAGE_EXECUTE_WRITECOPY"@)
    } else {
        None
    }
}

fn access_name(access: u32) -> (r: Option<String>)
    ensures
        match access_label(access) {
            Some(t) => r matches Some(s) && s@ == t,
            None => r is None,
        },
{
    if access == 0x01 {
        Some("PAGE_NOACCESS".to_string())
    } else if access == 0x02 {
        Some("PAGE_READONLY".to_string())
    } else if access == 0x04 {
        Some("PAGE_READWRITE".to_string())
    } else if access == 0x08 {
        Some("PAGE_WRITECOPY".to_string())
    } else if access == 0x10 {
        Some("PAGE_EXECUTE".to_string())
    } else if access == 0x20 {
        Some("PAGE_EXECUTE_READ".to_string())
    } else if access == 0x40 {
        Some("PAGE_EXECUTE_READWRITE".to_string())
    } else if access == 0x80 {
        Some("PAGE_EXECUTE_WRITECOPY".to_string())
    } else {
        None
    }
}

/// How the inspector names a protection value, so that reading, writing and
/// executing can be seen: the name of the basic protection, followed by
/// " | PAGE_GUARD", " | PAGE_NOCACHE" or " | PAGE_WRITECOMBINE" where one of
/// these modifiers is set; any other value as `PAGE_PROTECTION_FLAGS(n)`.
pub open spec fn protection_label(protection: u32) -> Seq<char> {
    if access_label(protection) is Some {
        access_label(protection)->Some_0
    } else if protection >= 0x100 && access_label((protection - 0x100) as u32) is Some {
        access_label((protection - 0x100) as u32)->Some_0 + " | PAGE_GUARD"@
    } else if protection >= 0x200 && access_label((protection - 0x200) as u32) is Some {
        access_label((protection - 0x200) as u32)->Some_0 + " | PAGE_NOCACHE"@
    } else if protection >= 0x400 && access_label((protection - 0x400) as u32) is Some {
        access_label((protection - 0x400) as u32)->Some_0 + " | PAGE_WRITECOMBINE"@
    } else {
        "PAGE_PROTECTION_FLAGS("@ + decimal(protection as nat) + ")"@
    }
}

/// The text of a protection value (see `protection_label`).
pub fn protection_text(protection: u32) -> (s: String)
    ensures
        s@ == protection_label(protection),
{
    if let Some(name) = access_name(protection) {
        return name;
    }
    if protection >= 0x100 {
        if let Some(name) = access_name(protection - 0x100) {
            let mut s = name;
            push_text(&mut s, " | PAGE_GUARD");
            return s;
        }
    }
    if protection >= 0x200 {
        if let Some(name) = access_name(protection - 0x200) {
            let mut s = name;
            push_text(&mut s, " | PAGE_NOCACHE");
            return s;
        }
    }
    if protection >= 0x400 {
        if let Some(name) = access_name(protection - 0x400) {
            let mut s = name;
            push_text(&mut s, " | PAGE_WRITECOMBINE");
            return s;
        }
    }
    let mut s = String::new();
    push_text(&mut s, "PAGE_PROTECTION_FLAGS(");
    let digits = to_decimal(protection as u64);
    push_text(&mut s, digits.as_str());
    push_text(&mut s, ")");
    s
}

/// The memory map marks regions whose protection text names executing.
pub fn shows_execute_mark(protection: u32) -> (r: bool)
    ensures
        r == text_contains(protection_label(protection), "EXECUTE"@),
{
    let text = protection_text(protection);
    contains_text(text.as_str(), "EXECUTE")
}

/// The name shown for a region's allocation type.
pub open spec fn region_type_label(allocation_type: u32) -> Seq<char> {
    if allocation_type == MEM_PRIVATE {
        "Private"@
    } else if allocation_type == MEM_MAPPED {
        "Mapped"@
    } else {
        "Other"@
    }
}

/// The name shown for a region's allocation type: private, mapped or other.
pub fn region_type_name(allocation_type: u32) -> (s: String)
    ensures
        s@ == region_type_label(allocation_type),
{
    if allocation_type == MEM_PRIVATE {
        "Private".to_string()
    } else if allocation_type == MEM_MAPPED {
        "Mapped".to_string()
    } else {
        "Other".to_string()
    }
}

/// The row that the memory map shows for a region: address in hexadecimal,
/// size in KiB right-aligned to eight places, protection left-aligned to
/// twelve, and the allocation type.
pub open spec fn region_row(region: MemoryRegion) -> Seq<char> {
    "0x"@ + hex_upper(region.base_address as nat) + "    "@ + pad_left(
        decimal((region.size / 1024) as nat),
        ' ',
        8,
    ) + " KB    "@ + pad_right(protection_label(region.protection), 12) + "    "@
        + region_type_label(region.allocation_type)
}

/// The text of the memory-map row for a region.
pub fn region_row_text(region: &MemoryRegion) -> (s: String)
    ensures
        s@ == region_row(*region),
{
    let mut s = String::new();
    push_text(&mut s, "0x");
    let addr = to_hex_upper(region.base_address as u64);
    push_text(&mut s, addr.as_str());
    push_text(&mut s, "    ");
    let kib = to_decimal((region.size / 1024) as u64);
    let kib = padded_left(kib.as_str(), ' ', 8);
    push_text(&mut s, kib.as_str());
    push_text(&mut s, " KB    ");
    let prot = protection_text(region.protection);
    let prot = padded_right(prot.as_str(), 12);
    push_text(&mut s, prot.as_str());
    push_text(&mut s, "    ");
    let kind = region_type_name(region.allocation_type);
    push_text(&mut s, kind.as_str());
    s
}

/// A region is listed under a filter (already in lower case) when the
/// filter occurs in the lower-cased hexadecimal address or protection text.
pub open spec fn region_listed(region: MemoryRegion, lowered_filter: Seq<char>) -> bool {
    text_contains(lowercase(hex_upper(region.base_address as nat)), lowered_filter)
        || text_contains(lowercase(protection_label(region.protection)), lowered_filter)
}

/// The regions that the memory map lists under the user's filter text, in order.
pub fn filter_regions(regions: &Vec<MemoryRegion>, filter: &str) -> (listed: Vec<MemoryRegion>)
    ensures
        listed@ == regions@.filter(|r: MemoryRegion| region_listed(r, lowercase(filter@))),
{
    let lowered = to_lowercase(filter);
    let mut listed: Vec<MemoryRegion> = Vec::new();
    let mut i: usize = 0;
    while i < regions.len()
        invariant
            i <= regions@.len(),
            lowered@ == lowercase(filter@),
            listed@ == regions@.take(i as int).filter(|r: MemoryRegion| region_listed(r, lowercase(filter@))),
        decreases regions.len() - i,
    {
        let r = regions[i];
        let addr = to_hex_upper(r.base_address as u64);
        let addr_lower = to_lowercase(addr.as_str());
        let prot = protection_text(r.protection);
        let prot_lower = to_lowercase(prot.as_str());
        let keep = contains_text(addr_lower.as_str(), lowered.as_str()) || contains_text(
            prot_lower.as_str(),
            lowered.as_str(),
        );
        proof {
            reveal(Seq::filter);
            assert(regions@.take(i + 1).drop_last() =~= regions@.take(i as int));
        }
        if keep {
            listed.push(r);
        }
        i = i + 1;
    }
    assert(regions@.take(regions@.len() as int) =~= regions@);
    listed
}

/// Every place where the pattern occurs below `n` is listed.
pub proof fn lemma_match_offsets_complete(data: Seq<u8>, pattern: Seq<u8>, n: int, i: int)
    requires
        0 <= i < n,
        occurs_at(data, pattern, i),
    ensures
        match_offsets(data, pattern, n).contains(i),
    decreases n,
{
    if i == n - 1 {
        assert(match_offsets(data, pattern, n).last() == i);
        assert(match_offsets(data, pattern, n)[match_offsets(data, pattern, n).len() - 1] == i);
    } else {
        lemma_match_offsets_complete(data, pattern, n - 1, i);
        let prev = match_offsets(data, pattern, n - 1);
        let k = choose|k: int| 0 <= k < prev.len() && prev[k] == i;
        if occurs_at(data, pattern, n - 1) {
            assert(prev.push(n - 1)[k] == i);
        }
    }
}

/// A search of one region's bytes reports exactly the places where the
/// pattern occurs: each hit is an occurrence inside the bytes read, and
/// each occurrence is a hit.
pub proof fn lemma_region_hits_exact(base_address: usize, data: Seq<u8>, pattern: Seq<u8>)
    requires
        0 < pattern.len() <= usize::MAX,
        hits_fit(base_address, data, pattern),
    ensures
        forall|k: int|
            0 <= k < region_hits(base_address, data, pattern).len() ==> {
                let h = #[trigger] region_hits(base_address, data, pattern)[k];
                &&& base_address <= h.0
                &&& occurs_at(data, pattern, h.0 - base_address)
                &&& h.1 == pattern.len()
                &&& h.2 == pattern
            },
        forall|i: int|
            #[trigger] occurs_at(data, pattern, i) ==> region_hits(base_address, data, pattern).contains(
                ((base_address + i) as usize, pattern.len() as usize, pattern),
            ),
{
    lemma_match_offsets_sound(data, pattern, data.len() as int);
    let offs = match_offsets(data, pattern, data.len() as int);
    assert forall|k: int| 0 <= k < region_hits(base_address, data, pattern).len() implies {
        let h = #[trigger] region_hits(base_address, data, pattern)[k];
        &&& base_address <= h.0
        &&& occurs_at(data, pattern, h.0 - base_address)
        &&& h.1 == pattern.len()
        &&& h.2 == pattern
    } by {
        assert(occurs_at(data, pattern, offs[k]));
        assert(base_address + offs[k] <= usize::MAX);
        assert(region_hits(base_address, data, pattern)[k] == ((base_address + offs[k]) as usize, pattern.len() as usize, pattern));
    }
    assert forall|i: int| #[trigger] occurs_at(data, pattern, i) implies region_hits(base_address, data, pattern).contains(
        ((base_address + i) as usize, pattern.len() as usize, pattern),
    ) by {
        lemma_match_offsets_complete(data, pattern, data.len() as int, i);
        let k = choose|k: int| 0 <= k < offs.len() && offs[k] == i;
        assert(region_hits(base_address, data, pattern)[k] == ((base_address + i) as usize, pattern.len() as usize, pattern));
    }
}

/// `h` is a hit of `pattern` in `data`, read from the region's base address.
pub open spec fn hit_in(h: (usize, usize, Seq<u8>), region: MemoryRegion, data: Seq<u8>, pattern: Seq<u8>) -> bool {
    &&& region.base_address <= h.0
    &&& occurs_at(data, pattern, h.0 - region.base_address)
    &&& h.1 == pattern.len()
    &&& h.2 == pattern
}

/// A region that the search reads: committed, and read successfully.
pub open spec fn searched(regions: Seq<MemoryRegion>, contents: Seq<Option<Vec<u8>>>, i: int) -> bool {
    is_committed(regions[i]) && contents[i] is Some
}

/// `h` is a hit of `pattern` in one of the first `n` regions that the search reads.
pub open spec fn hit_in_searched(
    regions: Seq<MemoryRegion>,
    contents: Seq<Option<Vec<u8>>>,
    pattern: Seq<u8>,
    n: int,
    h: (usize, usize, Seq<u8>),
) -> bool {
    exists|i: int|
        0 <= i < n && searched(regions, contents, i) && #[trigger] hit_in(h, regions[i], contents[i]->Some_0@, pattern)
}

/// A memory search reports exactly the occurrences of the pattern in the
/// committed regions that could be read: each hit is an occurrence in one
/// of them, and each such occurrence is a hit.
pub proof fn lemma_search_hits_exact(
    regions: Seq<MemoryRegion>,
    contents: Seq<Option<Vec<u8>>>,
    pattern: Seq<u8>,
    n: int,
)
    requires
        0 < pattern.len() <= usize::MAX,
        0 <= n <= regions.len(),
        contents.len() == regions.len(),
        contents_fit(regions, contents, pattern),
    ensures
        forall|k: int|
            0 <= k < search_hits(regions, contents, pattern, n).len() ==> hit_in_searched(
                regions,
                contents,
                pattern,
                n,
                #[trigger] search_hits(regions, contents, pattern, n)[k],
            ),
        forall|i: int, j: int|
            0 <= i < n && searched(regions, contents, i) && #[trigger] occurs_at(contents[i]->Some_0@, pattern, j)
                ==> search_hits(regions, contents, pattern, n).contains(
                ((regions[i].base_address + j) as usize, pattern.len() as usize, pattern),
            ),
    decreases n,
{
    if n > 0 {
        lemma_search_hits_exact(regions, contents, pattern, n - 1);
        let earlier = search_hits(regions, contents, pattern, n - 1);
        let all = search_hits(regions, contents, pattern, n);
        if searched(regions, contents, n - 1) {
            let region = regions[n - 1];
            let data = contents[n - 1]->Some_0@;
            lemma_region_hits_exact(region.base_address, data, pattern);
            let rh = region_hits(region.base_address, data, pattern);
            assert(all == earlier + rh);
            assert forall|k: int| 0 <= k < all.len() implies hit_in_searched(regions, contents, pattern, n, #[trigger] all[k]) by {
                if k < earlier.len() {
                    assert(all[k] == earlier[k]);
                    assert(hit_in_searched(regions, contents, pattern, n - 1, earlier[k]));
                    let i = choose|i: int|
                        0 <= i < n - 1 && searched(regions, contents, i) && #[trigger] hit_in(
                            earlier[k],
                            regions[i],
                            contents[i]->Some_0@,
                            pattern,
                        );
                    assert(hit_in(all[k], regions[i], contents[i]->Some_0@, pattern));
                } else {
                    assert(all[k] == rh[k - earlier.len()]);
                    assert(hit_in(all[k], regions[n - 1], contents[n - 1]->Some_0@, pattern));
                }
            }
            assert forall|i: int, j: int|
                0 <= i < n && searched(regions, contents, i) && #[trigger] occurs_at(contents[i]->Some_0@, pattern, j)
                    implies all.contains(((regions[i].base_address + j) as usize, pattern.len() as usize, pattern)) by {
                let x = ((regions[i].base_address + j) as usize, pattern.len() as usize, pattern);
                if i < n - 1 {
                    assert(earlier.contains(x));
                    let m = choose|m: int| 0 <= m < earlier.len() && earlier[m] == x;
                    assert(all[m] == x);
                } else {
                    assert(rh.contains(x));
                    let m = choose|m: int| 0 <= m < rh.len() && rh[m] == x;
                    assert(all[earlier.len() + m] == x);
                }
            }
        } else {
            assert(all == earlier);
            assert forall|k: int| 0 <= k < all.len() implies hit_in_searched(regions, contents, pattern, n, #[trigger] all[k]) by {
                assert(hit_in_searched(regions, contents, pattern, n - 1, earlier[k]));
                let i = choose|i: int|
                    0 <= i < n - 1 && searched(regions, contents, i) && #[trigger] hit_in(
                        earlier[k],
                        regions[i],
                        contents[i]->Some_0@,
                        pattern,
                    );
                assert(hit_in(all[k], regions[i], contents[i]->Some_0@, pattern));
            }
        }
    }
}

/// A memory search finds every occurrence of the pattern in every region
/// whose pages are committed (state MEM_COMMIT) and whose bytes were read,
/// whatever the region's protection, type or other attributes; and every hit
/// it reports is such an occurrence: the hit's bytes equal the pattern at
/// that address in one of those regions.
pub proof fn lemma_search_finds_committed_occurrences(
    regions: Seq<MemoryRegion>,
    contents: Seq<Option<Vec<u8>>>,
    pattern: Seq<u8>,
)
    requires
        0 < pattern.len() <= usize::MAX,
        contents.len() == regions.len(),
        contents_fit(regions, contents, pattern),
    ensures
        forall|i: int, j: int|
            0 <= i < regions.len() && regions[i].state == MEM_COMMIT && contents[i] is Some && 0 <= j && j
                + pattern.len() <= contents[i]->Some_0@.len() && #[trigger] contents[i]->Some_0@.subrange(
                j,
                j + pattern.len(),
            ) == pattern ==> search_hits(regions, contents, pattern, regions.len() as int).contains(
                ((regions[i].base_address + j) as usize, pattern.len() as usize, pattern),
            ),
        forall|k: int|
            #![trigger search_hits(regions, contents, pattern, regions.len() as int)[k]]
            0 <= k < search_hits(regions, contents, pattern, regions.len() as int).len() ==> exists|i: int|
                #![trigger regions[i]]
                0 <= i < regions.len() && regions[i].state == MEM_COMMIT && contents[i] is Some && {
                    let h = search_hits(regions, contents, pattern, regions.len() as int)[k];
                    let d = contents[i]->Some_0@;
                    &&& regions[i].base_address <= h.0
                    &&& h.0 - regions[i].base_address + pattern.len() <= d.len()
                    &&& d.subrange(h.0 - regions[i].base_address, h.0 - regions[i].base_address + pattern.len())
                        == pattern
                    &&& h.1 == pattern.len()
                    &&& h.2 == pattern
                },
{
    let n = regions.len() as int;
    lemma_search_hits_exact(regions, contents, pattern, n);
    assert forall|i: int, j: int|
        0 <= i < regions.len() && regions[i].state == MEM_COMMIT && contents[i] is Some && 0 <= j && j
            + pattern.len() <= contents[i]->Some_0@.len() && #[trigger] contents[i]->Some_0@.subrange(
            j,
            j + pattern.len(),
        ) == pattern implies search_hits(regions, contents, pattern, n).contains(
        ((regions[i].base_address + j) as usize, pattern.len() as usize, pattern),
    ) by {
        assert(searched(regions, contents, i));
        assert(occurs_at(contents[i]->Some_0@, pattern, j));
    }
    let hits = search_hits(regions, contents, pattern, n);
    assert forall|k: int| #![trigger hits[k]] 0 <= k < hits.len() implies exists|i: int|
        #![trigger regions[i]]
        0 <= i < regions.len() && regions[i].state == MEM_COMMIT && contents[i] is Some && {
            let h = hits[k];
            let d = contents[i]->Some_0@;
            &&& regions[i].base_address <= h.0
            &&& h.0 - regions[i].base_address + pattern.len() <= d.len()
            &&& d.subrange(h.0 - regions[i].base_address, h.0 - regions[i].base_address + pattern.len())
                == pattern
            &&& h.1 == pattern.len()
            &&& h.2 == pattern
        } by {
        assert(hit_in_searched(regions, contents, pattern, n, hits[k]));
        let i = choose|i: int|
            0 <= i < n && searched(regions, contents, i) && #[trigger] hit_in(
                hits[k],
                regions[i],
                contents[i]->Some_0@,
                pattern,
            );
        assert(regions[i] == regions[i]);
    }
}

/// The executable and writable counts never exceed the number of regions,
/// and the total size never shrinks as regions are added.
pub proof fn lemma_statistics_bounds(regions: Seq<MemoryRegion>, n: int)
    requires
        0 <= n <= regions.len(),
    ensures
        count_executable(regions, n) <= n,
        count_writable(regions, n) <= n,
        total_size(regions, n) <= total_size(regions, regions.len() as int),
{
    lemma_counts_bounded(regions, n);
    lemma_total_size_monotonic(regions, n, regions.len() as int);
}

} // verus!
