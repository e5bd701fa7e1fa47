//! Bookkeeping of background region analyses: which regions are still
//! awaited and what has been found for each analysed region.

use vstd::prelude::*;

use crate::analysis::{entries_view, findings_mention_suspicious, some_value_contains};

verus! {

/// What polling one awaited analysis gave.
pub enum PollOutcome {
    /// Nothing yet; the analysis is still awaited.
    Waiting,
    /// The findings for the region at the given address arrived.
    Received(usize, Vec<(String, String)>),
    /// The analysis ended without sending anything.
    Disconnected,
}

/// A stored result: an address and its findings.
pub open spec fn result_view(e: (usize, Vec<(String, String)>)) -> (usize, Seq<(Seq<char>, Seq<char>)>) {
    (e.0, entries_view(e.1@))
}

/// Stored results seen as addresses and texts.
pub open spec fn results_view(s: Seq<(usize, Vec<(String, String)>)>) -> Seq<(usize, Seq<(Seq<char>, Seq<char>)>)> {
    s.map_values(|e: (usize, Vec<(String, String)>)| result_view(e))
}

/// A result that is not for `address`.
pub open spec fn other_than(address: usize) -> spec_fn((usize, Seq<(Seq<char>, Seq<char>)>)) -> bool {
    |e: (usize, Seq<(Seq<char>, Seq<char>)>)| e.0 != address
}

/// The results without the one for `address`.
pub open spec fn without(s: Seq<(usize, Seq<(Seq<char>, Seq<char>)>)>, address: usize) -> Seq<(usize, Seq<(Seq<char>, Seq<char>)>)> {
    s.filter(other_than(address))
}

/// The results after storing `findings` for `address`, replacing an
/// earlier result for it.
pub open spec fn stored(s: Seq<(usize, Seq<(Seq<char>, Seq<char>)>)>, address: usize, findings: Seq<(Seq<char>, Seq<char>)>) -> Seq<(usize, Seq<(Seq<char>, Seq<char>)>)> {
    without(s, address).push((address, findings))
}

/// No address has two results.
pub open spec fn distinct_addresses(s: Seq<(usize, Seq<(Seq<char>, Seq<char>)>)>) -> bool {
    forall|i: int, j: int| 0 <= i < j < s.len() ==> #[trigger] s[i].0 != #[trigger] s[j].0
}

/// The findings stored for `address`, if any.
pub open spec fn lookup(s: Seq<(usize, Seq<(Seq<char>, Seq<char>)>)>, address: usize) -> Option<Seq<(Seq<char>, Seq<char>)>>
    decreases s.len(),
{
    if s.len() == 0 {
        None
    } else if s.last().0 == address {
        Some(s.last().1)
    } else {
        lookup(s.drop_last(), address)
    }
}

/// The results after taking the polling outcomes in order: every received
/// finding is stored under the address it came with.
pub open spec fn apply_outcomes(s: Seq<(usize, Seq<(Seq<char>, Seq<char>)>)>, outcomes: Seq<PollOutcome>) -> Seq<(usize, Seq<(Seq<char>, Seq<char>)>)>
    decreases outcomes.len(),
{
    if outcomes.len() == 0 {
        s
    } else {
        let earlier = apply_outcomes(s, outcomes.drop_last());
        match outcomes.last() {
            PollOutcome::Received(address, findings) => stored(earlier, address, entries_view(findings@)),
            _ => earlier,
        }
    }
}

/// The awaited addresses whose polling outcome was `Waiting`, in order.
pub open spec fn still_waiting(pending: Seq<usize>, outcomes: Seq<PollOutcome>) -> Seq<usize>
    decreases pending.len(),
{
    if pending.len() == 0 || outcomes.len() < pending.len() {
        Seq::empty()
    } else {
        let earlier = still_waiting(pending.drop_last(), outcomes.take(pending.len() - 1));
        if outcomes[pending.len() - 1] is Waiting {
            earlier.push(pending.last())
        } else {
            earlier
        }
    }
}

/// Removing every entry of an address keeps the addresses distinct and
/// leaves no result for it.
pub proof fn lemma_without(s: Seq<(usize, Seq<(Seq<char>, Seq<char>)>)>, address: usize)
    requires
        distinct_addresses(s),
    ensures
        distinct_addresses(without(s, address)),
        lookup(without(s, address), address) is None,
        forall|b: usize| b != address ==> lookup(without(s, address), b) == lookup(s, b),
    decreases s.len(),
{
    reveal(Seq::filter);
    if s.len() > 0 {
        let rest = s.drop_last();
        assert(distinct_addresses(rest));
        lemma_without(rest, address);
        let w = without(rest, address);
        if s.last().0 != address {
            assert(without(s, address) == w.push(s.last()));
            assert(w.push(s.last()).drop_last() =~= w);
            assert forall|i: int, j: int| 0 <= i < j < w.push(s.last()).len() implies #[trigger] w.push(s.last())[i].0
                != #[trigger] w.push(s.last())[j].0 by {
                if j < w.len() {
                    assert(w.push(s.last())[i] == w[i]);
                    assert(w.push(s.last())[j] == w[j]);
                } else {
                    assert(w.push(s.last())[i] == w[i]);
                    lemma_lookup_present(w, i);
                    lemma_filter_member(rest, address, w[i]);
                    let k = choose|k: int| 0 <= k < rest.len() && rest[k] == w[i];
                    assert(rest[k] == s[k]);
                    assert(s[k].0 != s[s.len() - 1].0);
                }
            }
            assert forall|b: usize| b != address implies lookup(without(s, address), b) == lookup(s, b) by {
                assert(without(s, address) == w.push(s.last()));
                assert(w.push(s.last()).last() == s.last());
                if b != s.last().0 {
                    assert(lookup(w.push(s.last()), b) == lookup(w, b));
                    assert(lookup(s, b) == lookup(rest, b));
                    assert(lookup(w, b) == lookup(rest, b));
                } else {
                    assert(lookup(w.push(s.last()), b) == Some(s.last().1));
                    assert(lookup(s, b) == Some(s.last().1));
                }
            }
        } else {
            assert(without(s, address) == w);
            assert forall|b: usize| b != address implies lookup(without(s, address), b) == lookup(s, b) by {
                assert(lookup(s, b) == lookup(rest, b));
                assert(lookup(w, b) == lookup(rest, b));
                assert(without(s, address) == w);
                assert(lookup(without(s, address), b) == lookup(w, b));
            }
        }
    }
}

/// An element of a filtered sequence comes from the original sequence.
proof fn lemma_filter_member(
    s: Seq<(usize, Seq<(Seq<char>, Seq<char>)>)>,
    address: usize,
    x: (usize, Seq<(Seq<char>, Seq<char>)>),
)
    requires
        without(s, address).contains(x),
    ensures
        exists|k: int| 0 <= k < s.len() && s[k] == x,
{
    s.lemma_filter_contains_rev(other_than(address), x);
}

/// An entry at position `i` is found by looking its address up.
proof fn lemma_lookup_present(s: Seq<(usize, Seq<(Seq<char>, Seq<char>)>)>, i: int)
    requires
        0 <= i < s.len(),
    ensures
        lookup(s, s[i].0) is Some,
    decreases s.len(),
{
    if s.last().0 != s[i].0 {
        assert(i < s.len() - 1);
        assert(s.drop_last()[i] == s[i]);
        lemma_lookup_present(s.drop_last(), i);
    }
}

/// Storing findings under an address keeps the addresses distinct; a
/// lookup of that address then gives back those findings and a lookup of
/// any other address gives what it gave before.
pub proof fn lemma_store_then_lookup(
    s: Seq<(usize, Seq<(Seq<char>, Seq<char>)>)>,
    address: usize,
    findings: Seq<(Seq<char>, Seq<char>)>,
)
    requires
        distinct_addresses(s),
    ensures
        distinct_addresses(stored(s, address, findings)),
        lookup(stored(s, address, findings), address) == Some(findings),
        forall|b: usize| b != address ==> lookup(stored(s, address, findings), b) == lookup(s, b),
{
    lemma_without(s, address);
    let w = without(s, address);
    assert(stored(s, address, findings).drop_last() =~= w);
    assert forall|i: int, j: int| 0 <= i < j < w.push((address, findings)).len() implies #[trigger] w.push(
        (address, findings),
    )[i].0 != #[trigger] w.push((address, findings))[j].0 by {
        if j < w.len() {
            assert(w.push((address, findings))[i] == w[i]);
            assert(w.push((address, findings))[j] == w[j]);
        } else {
            assert(w.push((address, findings))[i] == w[i]);
            lemma_lookup_present(w, i);
        }
    }
}

/// Whatever the polling outcomes, taking them in order leaves at most one
/// stored result per address.
pub proof fn lemma_apply_outcomes_distinct(s: Seq<(usize, Seq<(Seq<char>, Seq<char>)>)>, outcomes: Seq<PollOutcome>)
    requires
        distinct_addresses(s),
    ensures
        distinct_addresses(apply_outcomes(s, outcomes)),
    decreases outcomes.len(),
{
    if outcomes.len() > 0 {
        lemma_apply_outcomes_distinct(s, outcomes.drop_last());
        match outcomes.last() {
            PollOutcome::Received(address, findings) => {
                lemma_store_then_lookup(apply_outcomes(s, outcomes.drop_last()), address, entries_view(findings@));
            },
            _ => {},
        }
    }
}

/// The analyses of one process: the addresses still awaited and the
/// findings stored per address.
pub struct AnalysisState {
    pub pending: Vec<usize>,
    pub results: Vec<(usize, Vec<(String, String)>)>,
}

impl AnalysisState {
    /// The stored results name each address once.
    pub open spec fn wf(&self) -> bool {
        distinct_addresses(results_view(self.results@))
    }

    /// The stored results seen as addresses and texts.
    pub open spec fn results(&self) -> Seq<(usize, Seq<(Seq<char>, Seq<char>)>)> {
        results_view(self.results@)
    }

    /// Nothing awaited, nothing found.
    pub fn new() -> (state: Self)
        ensures
            state.wf(),
            state.pending@.len() == 0,
            state.results().len() == 0,
    {
        let state = AnalysisState { pending: Vec::new(), results: Vec::new() };
        assert(state.results() =~= Seq::<(usize, Seq<(Seq<char>, Seq<char>)>)>::empty());
        state
    }

    /// Starts a fresh analysis of a process: all earlier results are
    /// dropped and the given region addresses are awaited.
    pub fn begin_full_analysis(&mut self, addresses: Vec<usize>)
        ensures
            final(self).wf(),
            final(self).pending@ == addresses@,
            final(self).results().len() == 0,
    {
        self.results.clear();
        self.pending = addresses;
        assert(self.results() =~= Seq::<(usize, Seq<(Seq<char>, Seq<char>)>)>::empty());
    }

    /// Whether a region should be analysed on request: a process is
    /// selected and nothing is stored for the region yet.
    pub fn needs_analysis(&self, has_selection: bool, address: usize) -> (r: bool)
        requires
            self.wf(),
        ensures
            r == (has_selection && lookup(self.results(), address) is None),
    {
        if !has_selection {
            return false;
        }
        let mut i: usize = 0;
        while i < self.results.len()
            invariant
                i <= self.results@.len(),
                forall|k: int| 0 <= k < i ==> self.results@[k].0 != address,
            decreases self.results.len() - i,
        {
            if self.results[i].0 == address {
                proof {
                    assert(self.results()[i as int].0 == address);
                    lemma_lookup_present(self.results(), i as int);
                }
                return false;
            }
            i = i + 1;
        }
        proof {
            lemma_lookup_absent(self.results(), address);
        }
        true
    }

    /// Restarts the analysis of one region: its stored findings are
    /// dropped and it is awaited once, after the other awaited regions.  The
    /// result says, per region awaited before, whether it stays awaited.
    pub fn begin_region_analysis(&mut self, address: usize) -> (keep: Vec<bool>)
        requires
            old(self).wf(),
        ensures
            final(self).wf(),
            final(self).results() == without(old(self).results(), address),
            final(self).pending@ == old(self).pending@.filter(|a: usize| a != address).push(address),
            keep@.len() == old(self).pending@.len(),
            forall|i: int| 0 <= i < keep@.len() ==> #[trigger] keep@[i] == (old(self).pending@[i] != address),
    {
        self.remove_results_for(address);
        let mut kept: Vec<usize> = Vec::new();
        let mut keep: Vec<bool> = Vec::new();
        let mut i: usize = 0;
        while i < self.pending.len()
            invariant
                i <= self.pending@.len(),
                kept@ == self.pending@.take(i as int).filter(|a: usize| a != address),
                keep@.len() == i,
                forall|k: int| 0 <= k < i ==> #[trigger] keep@[k] == (self.pending@[k] != address),
            decreases self.pending.len() - i,
        {
            let a = self.pending[i];
            proof {
                reveal(Seq::filter);
                assert(self.pending@.take(i + 1).drop_last() =~= self.pending@.take(i as int));
            }
            if a != address {
                kept.push(a);
            }
            keep.push(a != address);
            i = i + 1;
        }
        assert(self.pending@.take(self.pending@.len() as int) =~= self.pending@);
        kept.push(address);
        self.pending = kept;
        keep
    }

    /// Drops the stored findings for `address`.
    fn remove_results_for(&mut self, address: usize)
        requires
            old(self).wf(),
        ensures
            final(self).wf(),
            final(self).results() == without(old(self).results(), address),
            final(self).pending == old(self).pending,
    {
        let ghost pred = other_than(address);
        let mut kept: Vec<(usize, Vec<(String, String)>)> = Vec::new();
        let mut rest: Vec<(usize, Vec<(String, String)>)> = Vec::new();
        std::mem::swap(&mut rest, &mut self.results);
        let ghost all = results_view(rest@);
        let mut i: usize = 0;
        let n = rest.len();
        while i < n
            invariant
                n == all.len(),
                i <= n,
                rest@.len() == n - i,
                forall|k: int| 0 <= k < n - i ==> result_view(#[trigger] rest@[k]) == all[i + k],
                results_view(kept@) == all.take(i as int).filter(pred),
                pred == other_than(address),
            decreases n - i,
        {
            let e = rest.remove(0);
            proof {
                reveal(Seq::filter);
                assert(result_view(e) == all[i as int]);
                assert(all.take(i + 1).drop_last() =~= all.take(i as int));
            }
            if e.0 != address {
                let ghost before = kept@;
                kept.push(e);
                assert(results_view(kept@) =~= results_view(before).push(result_view(e)));
            }
            i = i + 1;
        }
        assert(all.take(n as int) =~= all);
        assert(all == old(self).results());
        self.results = kept;
        proof {
            lemma_without(all, address);
            assert(self.results() == without(all, address));
        }
    }

    /// Stores the findings received for `address`, replacing earlier ones.
    pub fn store(&mut self, address: usize, findings: Vec<(String, String)>)
        requires
            old(self).wf(),
        ensures
            final(self).wf(),
            final(self).results() == stored(old(self).results(), address, entries_view(findings@)),
            final(self).pending == old(self).pending,
    {
        proof {
            lemma_store_then_lookup(self.results(), address, entries_view(findings@));
        }
        self.remove_results_for(address);
        let ghost before = self.results@;
        self.results.push((address, findings));
        assert(self.results() =~= results_view(before).push((address, entries_view(findings@))));
    }

    /// Takes one polling outcome per awaited region (in the order they are
    /// awaited): received findings are stored, and only the regions still
    /// `Waiting` stay awaited.  The result says, per awaited region, whether
    /// it stays awaited.
    pub fn settle(&mut self, outcomes: Vec<PollOutcome>) -> (keep: Vec<bool>)
        requires
            old(self).wf(),
            outcomes@.len() == old(self).pending@.len(),
        ensures
            final(self).wf(),
            keep@.len() == outcomes@.len(),
            forall|i: int| 0 <= i < keep@.len() ==> #[trigger] keep@[i] == (outcomes@[i] is Waiting),
            final(self).pending@ == still_waiting(old(self).pending@, outcomes@),
            final(self).results() == apply_outcomes(old(self).results(), outcomes@),
    {
        let ghost start_results = self.results();
        let ghost start_pending = self.pending@;
        let ghost all = outcomes@;
        let mut keep: Vec<bool> = Vec::new();
        let mut waiting: Vec<usize> = Vec::new();
        let mut rest = outcomes;
        let n = rest.len();
        let mut i: usize = 0;
        while i < n
            invariant
                n == all.len(),
                n == start_pending.len(),
                self.pending@ == start_pending,
                i <= n,
                rest@.len() == n - i,
                forall|k: int| 0 <= k < n - i ==> #[trigger] rest@[k] == all[i + k],
                self.wf(),
                self.results() == apply_outcomes(start_results, all.take(i as int)),
                keep@.len() == i,
                forall|k: int| 0 <= k < i ==> #[trigger] keep@[k] == (all[k] is Waiting),
                waiting@ == still_waiting(start_pending.take(i as int), all.take(i as int)),
            decreases n - i,
        {
            let outcome = rest.remove(0);
            assert(outcome == all[i as int]);
            assert(all.take(i + 1).drop_last() =~= all.take(i as int));
            assert(all.take(i + 1).last() == all[i as int]);
            assert(start_pending.take(i + 1).drop_last() =~= start_pending.take(i as int));
            assert(all.take(i + 1).take(i as int) =~= all.take(i as int));
            match outcome {
                PollOutcome::Waiting => {
                    keep.push(true);
                    waiting.push(self.pending[i]);
                },
                PollOutcome::Received(address, findings) => {
                    keep.push(false);
                    self.store(address, findings);
                },
                PollOutcome::Disconnected => {
                    keep.push(false);
                },
            }
            i = i + 1;
        }
        assert(all.take(n as int) =~= all);
        assert(start_pending.take(n as int) =~= start_pending);
        self.pending = waiting;
        keep
    }

    /// Number of analysed regions with a finding whose value contains
    /// "suspicious" in lower case.
    pub fn count_suspicious(&self) -> (count: usize)
        ensures
            count == self.results().filter(
                |e: (usize, Seq<(Seq<char>, Seq<char>)>)| some_value_contains(e.1, "suspicious"@),
            ).len(),
    {
        let ghost pred = |e: (usize, Seq<(Seq<char>, Seq<char>)>)| some_value_contains(e.1, "suspicious"@);
        let mut count: usize = 0;
        let mut i: usize = 0;
        while i < self.results.len()
            invariant
                i <= self.results@.len(),
                pred == (|e: (usize, Seq<(Seq<char>, Seq<char>)>)| some_value_contains(e.1, "suspicious"@)),
                count == self.results().take(i as int).filter(pred).len(),
            decreases self.results.len() - i,
        {
            let hit = findings_mention_suspicious(&self.results[i].1);
            proof {
                reveal(Seq::filter);
                assert(self.results().take(i + 1).drop_last() =~= self.results().take(i as int));
                assert(self.results().take(i + 1).last() == result_view(self.results@[i as int]));
                self.results().take(i as int).lemma_filter_len(pred);
            }
            if hit {
                count = count + 1;
            }
            i = i + 1;
        }
        assert(self.results().take(self.results@.len() as int) =~= self.results());
        count
    }
}

/// Looking up an address that no entry has gives nothing.
proof fn lemma_lookup_absent(s: Seq<(usize, Seq<(Seq<char>, Seq<char>)>)>, address: usize)
    requires
        forall|k: int| 0 <= k < s.len() ==> #[trigger] s[k].0 != address,
    ensures
        lookup(s, address) is None,
    decreases s.len(),
{
    if s.len() > 0 {
        assert(s[s.len() - 1].0 != address);
        assert forall|k: int| 0 <= k < s.drop_last().len() implies #[trigger] s.drop_last()[k].0 != address by {
            assert(s.drop_last()[k] == s[k]);
        }
        lemma_lookup_absent(s.drop_last(), address);
    }
}

} // verus!
