//! The inspector's state apart from drawing: the process list and the
//! selection, the open tab, the regions of the selected process and the
//! analyses, and the texts that the inspector shows about them.

use vstd::prelude::*;

use crate::process::{is_listed, visible_processes, views, shown, ProcessInfo, ProcessView, Settings};
use crate::region::MemoryRegion;
use crate::tracker::AnalysisState;
use crate::text::{
    ascii_lower_char, ascii_lowered, eq_ignore_ascii_case, hex_lower, hex_upper, is_ascii_text,
    lowercase, push_text, texts_eq_ignore_ascii_case, texts_equal, to_hex_lower, to_hex_upper,
    to_lowercase,
};

verus! {

/// The panels of the central area, one per tab.
#[derive(Debug, Clone, Copy, PartialEq, Eq, Structural)]
pub enum Panel {
    Overview,
    Memory,
    Analysis,
    Statistics,
}

/// The panel that a tab name opens, if any.
pub open spec fn panel_of(tab: Seq<char>) -> Option<Panel> {
    if tab == "overview"@ {
        Some(Panel::Overview)
    } else if tab == "memory"@ {
        Some(Panel::Memory)
    } else if tab == "analysis"@ {
        Some(Panel::Analysis)
    } else if tab == "statistics"@ {
        Some(Panel::Statistics)
    } else {
        None
    }
}

/// The panel that a tab name opens ("overview", "memory", "analysis",
/// "statistics"); `None` for any other name.
pub fn panel_for_tab(tab: &str) -> (panel: Option<Panel>)
    ensures
        panel == panel_of(tab@),
{
    if texts_equal(tab, "overview") {
        Some(Panel::Overview)
    } else if texts_equal(tab, "memory") {
        Some(Panel::Memory)
    } else if texts_equal(tab, "analysis") {
        Some(Panel::Analysis)
    } else if texts_equal(tab, "statistics") {
        Some(Panel::Statistics)
    } else {
        None
    }
}

/// Whether the tab labelled `label` is the open one: the open tab's name
/// equals the label up to the case of ASCII letters.
pub fn tab_is_selected(current_tab: &str, label: &str) -> (r: bool)
    ensures
        r == eq_ignore_ascii_case(current_tab@, label@),
{
    texts_eq_ignore_ascii_case(current_tab, label)
}

/// The name of the dump file for a region: "dump_", the base address in
/// lower-case hexadecimal, "_", the timestamp text, ".bin".
pub open spec fn dump_name(base_address: usize, timestamp: Seq<char>) -> Seq<char> {
    "dump_"@ + hex_lower(base_address as nat) + "_"@ + timestamp + ".bin"@
}

/// The name of the file that a dump of the region at `base_address` is
/// written to, given the local time as text.
pub fn dump_file_name(base_address: usize, timestamp: &str) -> (name: String)
    ensures
        name@ == dump_name(base_address, timestamp@),
{
    let mut name = String::new();
    push_text(&mut name, "dump_");
    let hex = to_hex_lower(base_address as u64);
    push_text(&mut name, hex.as_str());
    push_text(&mut name, "_");
    push_text(&mut name, timestamp);
    push_text(&mut name, ".bin");
    name
}

/// The message shown when the analysis of a region starts.
pub open spec fn analysis_started_text(base_address: usize) -> Seq<char> {
    "Started analysis of region at 0x"@ + hex_upper(base_address as nat)
}

/// The message shown when the analysis of the region at `base_address` starts.
pub fn analysis_started_message(base_address: usize) -> (msg: String)
    ensures
        msg@ == analysis_started_text(base_address),
{
    let mut msg = String::new();
    push_text(&mut msg, "Started analysis of region at 0x");
    let hex = to_hex_upper(base_address as u64);
    push_text(&mut msg, hex.as_str());
    msg
}

/// Whether a message shown `elapsed_secs` seconds ago is still shown (for
/// three seconds).
pub fn message_visible(elapsed_secs: u64) -> (r: bool)
    ensures
        r == (elapsed_secs < 3),
{
    elapsed_secs < 3
}

/// Whether an analysis made `elapsed_secs` seconds ago is stale (older
/// than thirty seconds).
pub fn analysis_is_stale(elapsed_secs: u64) -> (r: bool)
    ensures
        r == (elapsed_secs > 30),
{
    elapsed_secs > 30
}

/// How many bytes the viewers read of a region: at most 4096.
pub fn viewer_read_length(region: &MemoryRegion) -> (n: usize)
    ensures
        n == if region.size < 4096 {
            region.size
        } else {
            4096
        },
{
    if region.size < 4096 {
        region.size
    } else {
        4096
    }
}

/// A process's memory usage in whole mebibytes, as the statistics show it.
pub fn memory_usage_mib(p: &ProcessInfo) -> (n: u64)
    ensures
        n == p.memory_usage / 1048576u64,
{
    p.memory_usage / (1024 * 1024)
}

/// The first region that starts at `base_address`, if any.
pub open spec fn first_region_at(regions: Seq<MemoryRegion>, base_address: usize) -> Option<MemoryRegion>
    decreases regions.len(),
{
    if regions.len() == 0 {
        None
    } else if regions[0].base_address == base_address {
        Some(regions[0])
    } else {
        first_region_at(regions.drop_first(), base_address)
    }
}

/// A selected process seen as plain values.
pub open spec fn selection_view(s: Option<ProcessInfo>) -> Option<ProcessView> {
    match s {
        Some(p) => Some(p@),
        None => None,
    }
}

/// The inspector's state apart from drawing.
pub struct InspectorState {
    pub processes: Vec<ProcessInfo>,
    pub selected_process: Option<ProcessInfo>,
    pub process_filter: String,
    pub current_tab: String,
    pub show_about: bool,
    pub show_system_processes: bool,
    pub search_text: String,
    pub memory_filter: String,
    pub memory_regions: Vec<MemoryRegion>,
    pub selected_region: Option<MemoryRegion>,
    pub bookmarked_regions: Vec<usize>,
    pub hex_view_data: Option<Vec<u8>>,
    pub sort_by: String,
    pub sort_ascending: bool,
    pub status_message: String,
    pub analysis: AnalysisState,
    pub settings: Settings,
}

impl InspectorState {
    /// The state at start: nothing listed or selected, the overview tab
    /// open, sorted by name ascending, system processes hidden.
    pub fn new() -> (s: Self)
        ensures
            s.processes@.len() == 0,
            s.selected_process is None,
            s.process_filter@.len() == 0,
            s.current_tab@ == "overview"@,
            !s.show_about,
            !s.show_system_processes,
            s.search_text@.len() == 0,
            s.memory_filter@.len() == 0,
            s.memory_regions@.len() == 0,
            s.selected_region is None,
            s.bookmarked_regions@.len() == 0,
            s.hex_view_data is None,
            s.sort_by@ == "name"@,
            s.sort_ascending,
            s.status_message@.len() == 0,
            s.analysis.wf(),
            s.analysis.pending@.len() == 0,
            s.analysis.results().len() == 0,
            !s.settings.highlight_suspicious,
    {
        InspectorState {
            processes: Vec::new(),
            selected_process: None,
            process_filter: String::new(),
            current_tab: "overview".to_string(),
            show_about: false,
            show_system_processes: false,
            search_text: String::new(),
            memory_filter: String::new(),
            memory_regions: Vec::new(),
            selected_region: None,
            bookmarked_regions: Vec::new(),
            hex_view_data: None,
            sort_by: "name".to_string(),
            sort_ascending: true,
            status_message: String::new(),
            analysis: AnalysisState::new(),
            settings: Settings::default(),
        }
    }

    /// Selects a process: its regions and all analyses of the previous
    /// selection are dropped (the caller then loads the new regions).
    pub fn select_process(&mut self, p: &ProcessInfo)
        ensures
            selection_view(final(self).selected_process) == Some(p@),
            final(self).memory_regions@.len() == 0,
            final(self).analysis.wf(),
            final(self).analysis.pending@.len() == 0,
            final(self).analysis.results().len() == 0,
            final(self).processes == old(self).processes,
            final(self).process_filter == old(self).process_filter,
            final(self).current_tab == old(self).current_tab,
            final(self).show_about == old(self).show_about,
            final(self).show_system_processes == old(self).show_system_processes,
            final(self).search_text == old(self).search_text,
            final(self).memory_filter == old(self).memory_filter,
            final(self).selected_region == old(self).selected_region,
            final(self).bookmarked_regions == old(self).bookmarked_regions,
            final(self).hex_view_data == old(self).hex_view_data,
            final(self).sort_by == old(self).sort_by,
            final(self).sort_ascending == old(self).sort_ascending,
            final(self).status_message == old(self).status_message,
            final(self).settings == old(self).settings,
    {
        self.selected_process = Some(p.duplicate());
        self.memory_regions.clear();
        self.analysis.begin_full_analysis(Vec::new());
    }

    /// Selects the process clicked in the list, known by pid, name and
    /// memory usage (its path is empty and its priority zero).  The regions
    /// stay until the caller loads those of the new selection.
    pub fn select_listed(&mut self, pid: u32, name: String, memory_usage: u64)
        ensures
            selection_view(final(self).selected_process) == Some((pid, name@, Seq::<char>::empty(), memory_usage, 0u32)),
            final(self).processes == old(self).processes,
            final(self).process_filter == old(self).process_filter,
            final(self).current_tab == old(self).current_tab,
            final(self).show_about == old(self).show_about,
            final(self).show_system_processes == old(self).show_system_processes,
            final(self).search_text == old(self).search_text,
            final(self).memory_filter == old(self).memory_filter,
            final(self).memory_regions == old(self).memory_regions,
            final(self).selected_region == old(self).selected_region,
            final(self).bookmarked_regions == old(self).bookmarked_regions,
            final(self).hex_view_data == old(self).hex_view_data,
            final(self).sort_by == old(self).sort_by,
            final(self).sort_ascending == old(self).sort_ascending,
            final(self).status_message == old(self).status_message,
            final(self).analysis == old(self).analysis,
            final(self).settings == old(self).settings,
    {
        self.selected_process = Some(ProcessInfo { pid, name, path: String::new(), memory_usage, priority: 0 });
    }

    /// Whether the process with `pid` is the selected one.
    pub fn is_selected(&self, pid: u32) -> (r: bool)
        ensures
            r == (self.selected_process matches Some(p) && p.pid == pid),
    {
        match &self.selected_process {
            Some(p) => p.pid == pid,
            None => false,
        }
    }

    /// Takes a fresh process list: system processes are dropped unless they
    /// are shown, and the selection is cleared if its process is no longer
    /// listed.
    pub fn apply_process_list(&mut self, processes: &Vec<ProcessInfo>)
        ensures
            views(final(self).processes@) == views(processes@).filter(shown(old(self).show_system_processes)),
            final(self).show_system_processes == old(self).show_system_processes,
            old(self).selected_process matches Some(p) ==> (
                (final(self).selected_process is Some) <==> exists|i: int|
                    0 <= i < final(self).processes@.len() && #[trigger] final(self).processes@[i].pid == p.pid),
            final(self).selected_process is Some ==> selection_view(final(self).selected_process) == selection_view(old(self).selected_process),
            old(self).selected_process is None ==> final(self).selected_process is None,
            final(self).process_filter == old(self).process_filter,
            final(self).current_tab == old(self).current_tab,
            final(self).show_about == old(self).show_about,
            final(self).search_text == old(self).search_text,
            final(self).memory_filter == old(self).memory_filter,
            final(self).memory_regions == old(self).memory_regions,
            final(self).selected_region == old(self).selected_region,
            final(self).bookmarked_regions == old(self).bookmarked_regions,
            final(self).hex_view_data == old(self).hex_view_data,
            final(self).sort_by == old(self).sort_by,
            final(self).sort_ascending == old(self).sort_ascending,
            final(self).status_message == old(self).status_message,
            final(self).analysis == old(self).analysis,
            final(self).settings == old(self).settings,
    {
        self.processes = visible_processes(processes, self.show_system_processes);
        let keep = match &self.selected_process {
            Some(p) => is_listed(&self.processes, p.pid),
            None => true,
        };
        if !keep {
            self.selected_process = None;
        }
    }

    /// Opens the tab labelled `label`: the open tab's name becomes the
    /// label in lower case.
    pub fn open_tab(&mut self, label: &str)
        ensures
            final(self).current_tab@ == lowercase(label@),
            is_ascii_text(label@) ==> final(self).current_tab@ == ascii_lowered(label@),
            final(self).processes == old(self).processes,
            final(self).selected_process == old(self).selected_process,
            final(self).process_filter == old(self).process_filter,
            final(self).show_about == old(self).show_about,
            final(self).show_system_processes == old(self).show_system_processes,
            final(self).search_text == old(self).search_text,
            final(self).memory_filter == old(self).memory_filter,
            final(self).memory_regions == old(self).memory_regions,
            final(self).selected_region == old(self).selected_region,
            final(self).bookmarked_regions == old(self).bookmarked_regions,
            final(self).hex_view_data == old(self).hex_view_data,
            final(self).sort_by == old(self).sort_by,
            final(self).sort_ascending == old(self).sort_ascending,
            final(self).status_message == old(self).status_message,
            final(self).analysis == old(self).analysis,
            final(self).settings == old(self).settings,
    {
        self.current_tab = to_lowercase(label);
    }

    /// The panel of the open tab.
    pub fn current_panel(&self) -> (panel: Option<Panel>)
        ensures
            panel == panel_of(self.current_tab@),
    {
        panel_for_tab(self.current_tab.as_str())
    }

    /// Selects the region that starts at `base_address`, if one of the
    /// regions does (the first such region); otherwise the selection stays.
    pub fn select_region_at(&mut self, base_address: usize)
        ensures
            final(self).selected_region == match first_region_at(old(self).memory_regions@, base_address) {
                Some(r) => Some(r),
                None => old(self).selected_region,
            },
            final(self).processes == old(self).processes,
            final(self).selected_process == old(self).selected_process,
            final(self).process_filter == old(self).process_filter,
            final(self).current_tab == old(self).current_tab,
            final(self).show_about == old(self).show_about,
            final(self).show_system_processes == old(self).show_system_processes,
            final(self).search_text == old(self).search_text,
            final(self).memory_filter == old(self).memory_filter,
            final(self).memory_regions == old(self).memory_regions,
            final(self).bookmarked_regions == old(self).bookmarked_regions,
            final(self).hex_view_data == old(self).hex_view_data,
            final(self).sort_by == old(self).sort_by,
            final(self).sort_ascending == old(self).sort_ascending,
            final(self).status_message == old(self).status_message,
            final(self).analysis == old(self).analysis,
            final(self).settings == old(self).settings,
    {
        let mut i: usize = 0;
        assert(self.memory_regions@.skip(0) =~= self.memory_regions@);
        while i < self.memory_regions.len()
            invariant
                i <= self.memory_regions@.len(),
                *self == *old(self),
                first_region_at(self.memory_regions@, base_address) == first_region_at(
                    self.memory_regions@.skip(i as int),
                    base_address,
                ),
            decreases self.memory_regions.len() - i,
        {
            assert(self.memory_regions@.skip(i as int)[0] == self.memory_regions@[i as int]);
            assert(self.memory_regions@.skip(i as int).drop_first() =~= self.memory_regions@.skip(i + 1));
            if self.memory_regions[i].base_address == base_address {
                self.selected_region = Some(self.memory_regions[i]);
                return;
            }
            i = i + 1;
        }
    }

    /// Whether the region at `base_address` is the selected region.
    pub fn is_selected_region(&self, base_address: usize) -> (r: bool)
        ensures
            r == (self.selected_region matches Some(reg) && reg.base_address == base_address),
    {
        match &self.selected_region {
            Some(reg) => reg.base_address == base_address,
            None => false,
        }
    }
}

/// The open tab's name, made from a label, is that label up to the case of
/// ASCII letters, so the tab shows as selected.
pub proof fn lemma_opened_tab_is_selected(label: Seq<char>)
    ensures
        eq_ignore_ascii_case(ascii_lowered(label), label),
{
    assert forall|i: int| 0 <= i < label.len() implies ascii_lower_char(#[trigger] ascii_lowered(label)[i])
        == ascii_lower_char(label[i]) by {
        let c = label[i];
        if 'A' <= c <= 'Z' {
            assert((((c as u32) + 32) as char) >= 'a');
        }
    }
}

/// Each of the four tab labels opens its own panel.
pub proof fn lemma_tab_labels_open_their_panels()
    ensures
        is_ascii_text("Overview"@) && panel_of(ascii_lowered("Overview"@)) == Some(Panel::Overview),
        is_ascii_text("Memory"@) && panel_of(ascii_lowered("Memory"@)) == Some(Panel::Memory),
        is_ascii_text("Analysis"@) && panel_of(ascii_lowered("Analysis"@)) == Some(Panel::Analysis),
        is_ascii_text("Statistics"@) && panel_of(ascii_lowered("Statistics"@)) == Some(Panel::Statistics),
{
    reveal_strlit("Overview");
    reveal_strlit("Memory");
    reveal_strlit("Analysis");
    reveal_strlit("Statistics");
    reveal_strlit("overview");
    reveal_strlit("memory");
    reveal_strlit("analysis");
    reveal_strlit("statistics");
    assert("overview"@[0] == 'o' && "memory"@[0] == 'm' && "analysis"@[0] == 'a' && "statistics"@[0] == 's');
    assert(ascii_lowered("Overview"@) =~= "overview"@);
    assert(ascii_lowered("Memory"@) =~= "memory"@);
    assert(ascii_lowered("Analysis"@) =~= "analysis"@);
    assert(ascii_lowered("Statistics"@) =~= "statistics"@);
}

} // verus!
