//! The state of the table and what changes it.
use regex::Regex;
use vstd::prelude::*;

use crate::file_path::{lossy_text, path_view, FilePath};
use crate::filter::{
    compile, compile_outcome, first_line, first_line_of, flags_of, law_rows, outcome_view, pass_flags,
    rows, rows_of,
};
use crate::order::{next_key, sort_entries, sorted_entries, SortKey};
use crate::path::same_path;
use crate::scan::{
    discovered_view, entries_view, entry_view, measurements_view, DiscoveredEntry, DiscoveredView, EntryView,
    Measurement, MeasurementView, OutputKind, TargetEntry,
};
use crate::text::{push_str, string_of, text_view};

verus! {

/// A moment of a monotonic clock, in nanoseconds.
pub type Moment = u128;

/// Which row of the table is selected, and which is the first one on screen.
#[derive(Clone, Copy, Debug, PartialEq, Eq)]
pub struct TableState {
    pub offset: usize,
    pub selected: Option<usize>,
}

impl TableState {
    /// The state with another row selected. Without a selection the table
    /// shows its top.
    pub open spec fn with_selected(self, row: Option<usize>) -> TableState {
        TableState {
            offset: if row is None {
                0
            } else {
                self.offset
            },
            selected: row,
        }
    }

    /// Selects a row, or none.
    pub fn select(&mut self, row: Option<usize>)
        ensures
            *final(self) == old(self).with_selected(row),
    {
        self.selected = row;
        if row.is_none() {
            self.offset = 0;
        }
    }

    /// The selected row.
    pub fn selected(&self) -> (r: Option<usize>)
        ensures
            r == self.selected,
    {
        self.selected
    }
}

/// The state of the program: the table, what is selected in it, how it is
/// sorted and filtered, and what went wrong last.
pub struct App {
    /// The directory that is scanned.
    pub root: FilePath,
    /// The rows of the table, filtered or not, in table order.
    pub entries: Vec<TargetEntry>,
    /// The build cache, once it was measured.
    pub build_cache: Option<TargetEntry>,
    /// Where the build cache would be.
    pub build_cache_path: Option<FilePath>,
    /// The sum of the measured sizes.
    pub total_size: u64,
    pub table_state: TableState,
    /// Whether a scan is running.
    pub scanning: bool,
    pub sort: SortKey,
    /// When the last scan started.
    pub loading_start: Moment,
    /// How many rows the last frame showed. Paging follows it.
    pub page_len: usize,
    /// Whether the user has moved the selection. Until then it stays at the top.
    pub navigated: bool,
    /// Whether the user is typing a filter.
    pub filtering: bool,
    pub filter_text: String,
    /// The last filter that compiled.
    pub filter_regex: Option<Regex>,
    /// Why the filter text does not compile, if it does not.
    pub filter_error: Option<String>,
    /// Why the last deletion failed, if it did.
    pub delete_error: Option<String>,
}

/// What an `App` says.
#[verifier::ext_equal]
pub struct AppView {
    pub root: Seq<u8>,
    pub entries: Seq<EntryView>,
    pub build_cache: Option<EntryView>,
    pub build_cache_path: Option<Seq<u8>>,
    pub total_size: u64,
    pub table_state: TableState,
    pub scanning: bool,
    pub sort: SortKey,
    pub loading_start: Moment,
    pub page_len: usize,
    pub navigated: bool,
    pub filtering: bool,
    pub filter_text: Seq<char>,
    pub filter_regex: Option<Regex>,
    pub filter_error: Option<Seq<char>>,
    pub delete_error: Option<Seq<char>>,
}

impl View for App {
    type V = AppView;

    open spec fn view(&self) -> AppView {
        AppView {
            root: self.root@,
            entries: entries_view(self.entries@),
            build_cache: entry_view(self.build_cache),
            build_cache_path: path_view(self.build_cache_path),
            total_size: self.total_size,
            table_state: self.table_state,
            scanning: self.scanning,
            sort: self.sort,
            loading_start: self.loading_start,
            page_len: self.page_len,
            navigated: self.navigated,
            filtering: self.filtering,
            filter_text: self.filter_text@,
            filter_regex: self.filter_regex,
            filter_error: text_view(self.filter_error),
            delete_error: text_view(self.delete_error),
        }
    }
}

/// The sum of the measured sizes.
pub open spec fn size_sum(s: Seq<EntryView>) -> nat
    decreases s.len(),
{
    if s.len() == 0 {
        0
    } else {
        size_sum(s.drop_last()) + match s.last().size {
            Some(n) => n as nat,
            None => 0,
        }
    }
}

/// The sum of the measured sizes in 64 bits.
pub open spec fn total_of(s: Seq<EntryView>) -> u64 {
    (size_sum(s) % 0x1_0000_0000_0000_0000) as u64
}

/// Adds up the measured sizes, modulo 2^64.
pub fn sum_sizes(entries: &Vec<TargetEntry>) -> (r: u64)
    ensures
        r == total_of(entries_view(entries@)),
{
    let ghost all = entries_view(entries@);
    let mut total: u64 = 0;
    assert(all.take(0) =~= Seq::<EntryView>::empty());
    for i in 0..entries.len()
        invariant
            all == entries_view(entries@),
            total == size_sum(all.take(i as int)) % 0x1_0000_0000_0000_0000,
    {
        assert(all.take(i + 1).drop_last() =~= all.take(i as int));
        assert(all.take(i + 1).last() == entries@[i as int]@);
        if let Some(n) = entries[i].size {
            total = total.wrapping_add(n);
        }
    }
    assert(all.take(all.len() as int) =~= all);
    total
}

/// The entries at the given indices, in order.
pub open spec fn picked(entries: Seq<EntryView>, rows: Seq<usize>) -> Seq<EntryView> {
    rows.map_values(|i: usize| entries[i as int])
}

/// Whether all indices are those of one of `n` entries.
pub open spec fn in_range(rows: Seq<usize>, n: nat) -> bool {
    forall|k: int| 0 <= k < rows.len() ==> (#[trigger] rows[k]) < n
}

/// Adds up the measured sizes of the entries at the given indices, modulo 2^64.
pub fn sum_picked(entries: &Vec<TargetEntry>, rows: &Vec<usize>) -> (r: u64)
    requires
        in_range(rows@, entries@.len()),
    ensures
        r == total_of(picked(entries_view(entries@), rows@)),
{
    let ghost all = picked(entries_view(entries@), rows@);
    let mut total: u64 = 0;
    assert(all.take(0) =~= Seq::<EntryView>::empty());
    for k in 0..rows.len()
        invariant
            in_range(rows@, entries@.len()),
            all == picked(entries_view(entries@), rows@),
            total == size_sum(all.take(k as int)) % 0x1_0000_0000_0000_0000,
    {
        assert(all.take(k + 1).drop_last() =~= all.take(k as int));
        let i: usize = rows[k];
        assert(all.take(k + 1).last() == entries@[i as int]@);
        if let Some(n) = entries[i].size {
            total = total.wrapping_add(n);
        }
    }
    assert(all.take(all.len() as int) =~= all);
    total
}

/// The index of the first entry with the given output directory, or the
/// length of `s` if there is none.
pub open spec fn entry_index(s: Seq<EntryView>, dir: Seq<u8>) -> int
    decreases s.len(),
{
    if s.len() == 0 || same_path(s[0].target_dir, dir) {
        0
    } else {
        1 + entry_index(s.skip(1), dir)
    }
}

/// What `entry_index` says of the entries around it.
pub proof fn lemma_entry_index(s: Seq<EntryView>, dir: Seq<u8>)
    ensures
        0 <= entry_index(s, dir) <= s.len(),
        forall|i: int|
            0 <= i < entry_index(s, dir) ==> !same_path(#[trigger] s[i].target_dir, dir),
        entry_index(s, dir) < s.len() ==> same_path(s[entry_index(s, dir)].target_dir, dir),
    decreases s.len(),
{
    if s.len() > 0 && !same_path(s[0].target_dir, dir) {
        lemma_entry_index(s.skip(1), dir);
        assert forall|i: int| 0 <= i < entry_index(s, dir) implies !same_path(
            #[trigger] s[i].target_dir,
            dir,
        ) by {
            if i > 0 {
                assert(s.skip(1)[i - 1] == s[i]);
            }
        }
    }
}

/// `entry_index` is the only index that fits that description.
pub proof fn lemma_entry_index_is(s: Seq<EntryView>, dir: Seq<u8>, k: int)
    requires
        0 <= k <= s.len(),
        forall|i: int| 0 <= i < k ==> !same_path(#[trigger] s[i].target_dir, dir),
        k < s.len() ==> same_path(s[k].target_dir, dir),
    ensures
        entry_index(s, dir) == k,
{
    lemma_entry_index(s, dir);
    let p = entry_index(s, dir);
    if p < k {
        assert(!same_path(s[p].target_dir, dir));
    } else if k < p {
        assert(!same_path(s[k].target_dir, dir));
    }
}

/// Finds the first entry with the given output directory.
fn find_entry(entries: &Vec<TargetEntry>, dir: &FilePath) -> (k: usize)
    ensures
        k == entry_index(entries_view(entries@), dir@),
        k <= entries@.len(),
{
    let ghost all = entries_view(entries@);
    let mut k: usize = 0;
    while k < entries.len() && !entries[k].target_dir.same(dir)
        invariant
            all == entries_view(entries@),
            k <= entries@.len(),
            forall|i: int| 0 <= i < k ==> !same_path(#[trigger] all[i].target_dir, dir@),
        decreases entries@.len() - k,
    {
        assert(all[k as int] == entries@[k as int]@);
        k += 1;
    }
    proof {
        if k < entries@.len() {
            assert(all[k as int] == entries@[k as int]@);
        }
        lemma_entry_index_is(all, dir@, k as int);
    }
    k
}

/// An entry with what was measured of it.
pub open spec fn with_measured(e: EntryView, m: MeasurementView) -> EntryView {
    EntryView { size: Some(m.size), last_modified: m.last_modified, ..e }
}

/// The entry of a discovered directory, not measured yet.
pub open spec fn pending_entry(d: DiscoveredView) -> EntryView {
    EntryView {
        project_path: d.project_path,
        target_dir: d.target_dir,
        kind: d.kind,
        size: None,
        last_modified: None,
    }
}

/// What a deletion needs: the directory to delete and the output directory of
/// the row that is selected afterwards, if another row is.
#[derive(Debug)]
pub struct DeletePlan {
    pub target_dir: FilePath,
    pub neighbor: Option<FilePath>,
}

/// What a `DeletePlan` says.
#[verifier::ext_equal]
pub struct PlanView {
    pub target_dir: Seq<u8>,
    pub neighbor: Option<Seq<u8>>,
}

impl View for DeletePlan {
    type V = PlanView;

    open spec fn view(&self) -> PlanView {
        PlanView { target_dir: self.target_dir@, neighbor: path_view(self.neighbor) }
    }
}

/// The view of an optional plan.
pub open spec fn plan_view(p: Option<DeletePlan>) -> Option<PlanView> {
    match p {
        Some(x) => Some(x@),
        None => None,
    }
}

/// How deleting a directory went.
#[derive(Debug)]
pub enum DeleteOutcome {
    /// It was deleted.
    Removed,
    /// It was not there.
    Missing,
    /// It could not be deleted, for the given reason.
    Failed(String),
}

impl AppView {
    /// The state before the first scan, which is running.
    pub open spec fn initial(
        root: Seq<u8>,
        build_cache_path: Option<Seq<u8>>,
        now: Moment,
    ) -> AppView {
        AppView {
            root,
            entries: Seq::empty(),
            build_cache: None,
            build_cache_path,
            total_size: 0,
            table_state: TableState { offset: 0, selected: Some(0) },
            scanning: true,
            sort: SortKey::Size,
            loading_start: now,
            page_len: 10,
            navigated: false,
            filtering: false,
            filter_text: Seq::empty(),
            filter_regex: None,
            filter_error: None,
            delete_error: None,
        }
    }

    /// The indices of the entries that pass the filter, in order.
    pub open spec fn visible(self) -> Seq<usize> {
        rows(pass_flags(self.filter_regex, self.entries))
    }

    /// The state with another row selected, or none.
    pub open spec fn select(self, row: Option<usize>) -> AppView {
        AppView { table_state: self.table_state.with_selected(row), ..self }
    }

    /// The row that counts as selected where none is.
    pub open spec fn row(self) -> usize {
        match self.table_state.selected {
            Some(i) => i,
            None => 0,
        }
    }

    /// The state with the user in charge of the selection.
    pub open spec fn navigate(self) -> AppView {
        AppView { navigated: true, ..self }
    }

    /// The state with the selection moved into the rows that are visible.
    pub open spec fn clamp_selection(self) -> AppView {
        let n = self.visible().len();
        if n == 0 {
            self.select(None)
        } else if self.row() < n {
            self.select(Some(self.row()))
        } else {
            self.select(Some((n - 1) as usize))
        }
    }

    /// The state with the first visible row selected, or none if there is none.
    pub open spec fn top_unmarked(self) -> AppView {
        if self.visible().len() == 0 {
            self.select(None)
        } else {
            self.select(Some(0))
        }
    }

    /// The state with the entries in table order.
    pub open spec fn resort(self) -> AppView {
        AppView { entries: sorted_entries(self.sort, self.entries), ..self }
    }

    /// The state with the total of the measured sizes.
    pub open spec fn retotal(self) -> AppView {
        AppView { total_size: total_of(self.entries), ..self }
    }

    /// The state after a scan found the given directories.
    pub open spec fn set_discovered(self, found: Seq<DiscoveredView>) -> AppView {
        let v = AppView {
            entries: sorted_entries(
                self.sort,
                found.map_values(|d: DiscoveredView| pending_entry(d)),
            ),
            total_size: 0,
            scanning: true,
            ..self
        }.clamp_selection();
        if self.navigated {
            v
        } else {
            v.top_unmarked()
        }
    }

    /// The state after the scan is over.
    pub open spec fn finish_scan(self, build_cache: Option<EntryView>) -> AppView {
        AppView { build_cache, scanning: false, ..self }.resort().clamp_selection()
    }

    /// The state sorted by the next key.
    pub open spec fn cycle_sort(self) -> AppView {
        AppView { sort: next_key(self.sort), ..self }.resort()
    }

    /// The state at the start of a scan.
    pub open spec fn begin_scan(self, now: Moment) -> AppView {
        AppView { scanning: true, loading_start: now, navigated: false, ..self }
    }

    /// The state with the first visible row selected, if there is one.
    pub open spec fn top(self) -> AppView {
        if self.visible().len() == 0 {
            self.navigate()
        } else {
            self.navigate().select(Some(0))
        }
    }

    /// The state with the last visible row selected, if there is one.
    pub open spec fn bottom(self) -> AppView {
        if self.visible().len() == 0 {
            self.navigate()
        } else {
            self.navigate().select(Some((self.visible().len() - 1) as usize))
        }
    }

    /// The state with the next row selected; the first one follows the last.
    pub open spec fn next(self) -> AppView {
        let n = self.visible().len();
        if n == 0 {
            self.navigate()
        } else {
            self.navigate().select(Some(((self.row() + 1) % n as int) as usize))
        }
    }

    /// The state with the previous row selected; the last one precedes the first.
    pub open spec fn previous(self) -> AppView {
        let n = self.visible().len();
        if n == 0 {
            self.navigate()
        } else if self.row() == 0 {
            self.navigate().select(Some((n - 1) as usize))
        } else {
            self.navigate().select(Some((self.row() - 1) as usize))
        }
    }

    /// How far a page reaches: at least one row.
    pub open spec fn page(self) -> int {
        if self.page_len == 0 {
            1
        } else {
            self.page_len as int
        }
    }

    /// Whether a step down stays within the range of row numbers.
    pub open spec fn can_step(self) -> bool {
        self.visible().len() > 0 ==> self.row() < usize::MAX
    }

    /// Whether a page down stays within the range of row numbers.
    pub open spec fn can_page(self) -> bool {
        self.visible().len() > 0 ==> self.row() + self.page() <= usize::MAX
    }

    /// The state one page further down, at most at the last row.
    pub open spec fn page_down(self) -> AppView {
        let n = self.visible().len();
        if n == 0 {
            self.navigate()
        } else if self.row() + self.page() < n {
            self.navigate().select(Some((self.row() + self.page()) as usize))
        } else {
            self.navigate().select(Some((n - 1) as usize))
        }
    }

    /// The state one page further up, at most at the first row.
    pub open spec fn page_up(self) -> AppView {
        if self.visible().len() == 0 {
            self.navigate()
        } else if self.row() >= self.page() {
            self.navigate().select(Some((self.row() - self.page()) as usize))
        } else {
            self.navigate().select(Some(0))
        }
    }

    /// The state with another filter text, given what compiling it came to. A
    /// text that does not compile keeps the last filter that did.
    pub open spec fn apply_filter(
        self,
        text: Seq<char>,
        outcome: Result<Regex, Seq<char>>,
    ) -> AppView {
        let v = if text.len() == 0 {
            AppView { filter_text: text, filter_regex: None, filter_error: None, ..self }
        } else {
            match outcome {
                Ok(re) => AppView {
                    filter_text: text,
                    filter_regex: Some(re),
                    filter_error: None,
                    ..self
                },
                Err(message) => AppView {
                    filter_text: text,
                    filter_error: Some(first_line(message)),
                    ..self
                },
            }
        };
        v.top()
    }

    /// The state with another filter text.
    pub open spec fn set_filter(self, text: Seq<char>) -> AppView {
        self.apply_filter(text, compile_outcome(text))
    }

    /// The output directory of the selected row.
    pub open spec fn selected_dir(self) -> Option<Seq<u8>> {
        match self.table_state.selected {
            Some(i) if i < self.visible().len() => Some(
                self.entries[self.visible()[i as int] as int].target_dir,
            ),
            _ => None,
        }
    }

    /// The first visible row at or after `from` with the given output directory, or
    /// the number of visible rows if there is none.
    pub open spec fn row_of(self, dir: Seq<u8>, from: int) -> int
        decreases self.visible().len() - from,
    {
        if from >= self.visible().len() || from < 0 {
            self.visible().len() as int
        } else if same_path(self.entries[self.visible()[from] as int].target_dir, dir) {
            from
        } else {
            self.row_of(dir, from + 1)
        }
    }

    /// The state with the row of the given output directory selected, or the first
    /// visible row if it has none.
    pub open spec fn select_dir(self, dir: Seq<u8>) -> AppView {
        let k = self.row_of(dir, 0);
        if k < self.visible().len() {
            self.select(Some(k as usize))
        } else {
            self.top_unmarked()
        }
    }

    /// What one measurement changes: the entry it is about, or else the build
    /// cache, which appears when it is first found.
    pub open spec fn measure(self, m: MeasurementView) -> AppView {
        let k = entry_index(self.entries, m.target_dir);
        if k < self.entries.len() {
            AppView { entries: self.entries.update(k, with_measured(self.entries[k], m)), ..self }
        } else if self.build_cache matches Some(c) && same_path(c.project_path, m.target_dir) {
            AppView { build_cache: Some(with_measured(self.build_cache->0, m)), ..self }
        } else if self.build_cache_path matches Some(p) && same_path(m.target_dir, p)
            && m.last_modified is Some {
            AppView {
                build_cache: Some(
                    EntryView {
                        project_path: m.target_dir,
                        target_dir: m.target_dir,
                        kind: OutputKind::Target,
                        size: Some(m.size),
                        last_modified: m.last_modified,
                    },
                ),
                ..self
            }
        } else {
            self
        }
    }

    /// What a list of measurements changes, one after the other.
    pub open spec fn measure_all(self, ms: Seq<MeasurementView>) -> AppView
        decreases ms.len(),
    {
        if ms.len() == 0 {
            self
        } else {
            self.measure_all(ms.drop_last()).measure(ms.last())
        }
    }

    /// The state after measurements arrived. The selection stays at the top
    /// until the user takes over, and then on the project that it was on.
    pub open spec fn apply_measurements(self, ms: Seq<MeasurementView>) -> AppView {
        let v = self.measure_all(ms).retotal().resort();
        if ms.len() == 0 {
            self
        } else if !self.navigated {
            v.top_unmarked()
        } else {
            match self.selected_dir() {
                Some(dir) => v.select_dir(dir),
                None => v,
            }
        }
    }

    /// The output directory of the row that is selected after a deletion: the one
    /// above, or below the first row.
    pub open spec fn neighbor(self) -> Option<Seq<u8>> {
        let k: int = if self.row() == 0 {
            1
        } else {
            self.row() - 1
        };
        if k < self.visible().len() {
            Some(self.entries[self.visible()[k] as int].target_dir)
        } else {
            None
        }
    }

    /// What deleting the selected row needs.
    pub open spec fn delete_plan(self) -> Option<PlanView> {
        match self.selected_dir() {
            Some(target_dir) => Some(PlanView { target_dir, neighbor: self.neighbor() }),
            None => None,
        }
    }

    /// The state after a directory is gone: its row is empty, and its neighbor
    /// is selected.
    pub open spec fn deleted(self, plan: PlanView) -> AppView {
        let k = entry_index(self.entries, plan.target_dir);
        let v = if k < self.entries.len() {
            AppView {
                entries: self.entries.update(
                    k,
                    EntryView { size: Some(0), last_modified: None, ..self.entries[k] },
                ),
                delete_error: None,
                ..self
            }
        } else {
            AppView { delete_error: None, ..self }
        }.retotal().resort();
        match plan.neighbor {
            Some(dir) => v.select_dir(dir),
            None => v,
        }
    }

    /// The state after a deletion went as the outcome says.
    pub open spec fn finish_delete(self, plan: PlanView, outcome: DeleteOutcome) -> AppView {
        match outcome {
            DeleteOutcome::Failed(reason) => AppView {
                delete_error: Some(
                    "delete "@ + lossy_text(plan.target_dir) + ": "@ + reason@,
                ),
                ..self
            },
            _ => self.deleted(plan),
        }
    }
}

impl App {
    /// The state before the first scan of `root`, which starts now.
    pub fn new(root: FilePath, build_cache_path: Option<FilePath>, now: Moment) -> (r: App)
        ensures
            r@ == AppView::initial(root@, path_view(build_cache_path), now),
    {
        let r = App {
            root,
            entries: Vec::new(),
            build_cache: None,
            build_cache_path,
            total_size: 0,
            table_state: TableState { offset: 0, selected: Some(0) },
            scanning: true,
            sort: SortKey::Size,
            loading_start: now,
            page_len: 10,
            navigated: false,
            filtering: false,
            filter_text: String::new(),
            filter_regex: None,
            filter_error: None,
            delete_error: None,
        };
        assert(r@.entries =~= Seq::<EntryView>::empty());
        assert(r@.filter_text =~= Seq::<char>::empty());
        r
    }

    /// The indices of the entries that pass the filter, in order.
    pub fn visible_indices(&self) -> (r: Vec<usize>)
        ensures
            r@ == self@.visible(),
            in_range(r@, self.entries@.len()),
    {
        let flags = flags_of(&self.filter_regex, &self.entries);
        proof {
            assert(flags.len() <= usize::MAX);
            law_rows(flags@);
        }
        rows_of(&flags)
    }

    /// Moves the selection into the visible rows.
    fn clamp_selection(&mut self)
        ensures
            final(self)@ == old(self)@.clamp_selection(),
    {
        let n: usize = self.visible_indices().len();
        if n == 0 {
            self.table_state.select(None);
        } else {
            let i: usize = match self.table_state.selected {
                Some(i) => i,
                None => 0,
            };
            self.table_state.select(
                Some(
                    if i < n {
                        i
                    } else {
                        n - 1
                    },
                ),
            );
        }
    }

    /// Selects the first visible row, or none if there is none.
    fn top_unmarked(&mut self)
        ensures
            final(self)@ == old(self)@.top_unmarked(),
    {
        if self.visible_indices().len() == 0 {
            self.table_state.select(None);
        } else {
            self.table_state.select(Some(0));
        }
    }

    /// Takes over what a scan found. Nothing of it is measured yet.
    pub fn set_discovered(&mut self, discovered: Vec<DiscoveredEntry>)
        ensures
            final(self)@ == old(self)@.set_discovered(discovered_view(discovered@)),
    {
        let ghost all = discovered_view(discovered@);
        let ghost pending = |d: DiscoveredView| pending_entry(d);
        let mut entries: Vec<TargetEntry> = Vec::new();
        for i in 0..discovered.len()
            invariant
                all == discovered_view(discovered@),
                pending == (|d: DiscoveredView| pending_entry(d)),
                entries_view(entries@) == all.take(i as int).map_values(pending),
        {
            let ghost before = entries@;
            let found = &discovered[i];
            assert(all[i as int] == found@);
            entries.push(
                TargetEntry {
                    project_path: found.project_path.clone(),
                    target_dir: found.target_dir.clone(),
                    kind: found.kind,
                    size: None,
                    last_modified: None,
                },
            );
            assert(entries_view(entries@) =~= entries_view(before).push(pending_entry(found@)));
            assert(entries_view(entries@) =~= all.take(i + 1).map_values(pending));
        }
        assert(all.take(all.len() as int) =~= all);
        sort_entries(self.sort, &mut entries);
        self.total_size = 0;
        self.entries = entries;
        self.scanning = true;
        self.clamp_selection();
        if !self.navigated {
            self.top_unmarked();
        }
    }

    /// Ends the scan. Entries that are not measured yet stay so.
    pub fn finish_scan(&mut self, build_cache: Option<TargetEntry>)
        ensures
            final(self)@ == old(self)@.finish_scan(entry_view(build_cache)),
    {
        self.build_cache = build_cache;
        self.scanning = false;
        sort_entries(self.sort, &mut self.entries);
        self.clamp_selection();
    }

    /// Sorts by the next key.
    pub fn cycle_sort(&mut self)
        ensures
            final(self)@ == old(self)@.cycle_sort(),
    {
        self.sort = self.sort.next();
        sort_entries(self.sort, &mut self.entries);
    }

    /// Starts a scan.
    pub fn begin_scan(&mut self, now: Moment)
        ensures
            final(self)@ == old(self)@.begin_scan(now),
    {
        self.scanning = true;
        self.loading_start = now;
        self.navigated = false;
    }

    /// Selects the next row; the first one follows the last.
    pub fn next(&mut self)
        requires
            old(self)@.can_step(),
        ensures
            final(self)@ == old(self)@.next(),
    {
        self.navigated = true;
        let n: usize = self.visible_indices().len();
        if n == 0 {
            return;
        }
        let i: usize = match self.table_state.selected {
            Some(i) => i,
            None => 0,
        };
        self.table_state.select(Some((i + 1) % n));
    }

    /// Selects the previous row; the last one precedes the first.
    pub fn previous(&mut self)
        ensures
            final(self)@ == old(self)@.previous(),
    {
        self.navigated = true;
        let n: usize = self.visible_indices().len();
        if n == 0 {
            return;
        }
        let i: usize = match self.table_state.selected {
            Some(i) => i,
            None => 0,
        };
        self.table_state.select(
            Some(
                if i == 0 {
                    n - 1
                } else {
                    i - 1
                },
            ),
        );
    }

    /// Selects the first row.
    pub fn top(&mut self)
        ensures
            final(self)@ == old(self)@.top(),
    {
        self.navigated = true;
        if self.visible_indices().len() > 0 {
            self.table_state.select(Some(0));
        }
    }

    /// Selects the last row.
    pub fn bottom(&mut self)
        ensures
            final(self)@ == old(self)@.bottom(),
    {
        self.navigated = true;
        let n: usize = self.visible_indices().len();
        if n > 0 {
            self.table_state.select(Some(n - 1));
        }
    }

    /// Moves one page down, at most to the last row.
    pub fn page_down(&mut self)
        requires
            old(self)@.can_page(),
        ensures
            final(self)@ == old(self)@.page_down(),
    {
        self.navigated = true;
        let n: usize = self.visible_indices().len();
        if n == 0 {
            return;
        }
        let i: usize = match self.table_state.selected {
            Some(i) => i,
            None => 0,
        };
        let page: usize = if self.page_len == 0 {
            1
        } else {
            self.page_len
        };
        let to: usize = i + page;
        self.table_state.select(
            Some(
                if to < n {
                    to
                } else {
                    n - 1
                },
            ),
        );
    }

    /// Moves one page up, at most to the first row.
    pub fn page_up(&mut self)
        ensures
            final(self)@ == old(self)@.page_up(),
    {
        self.navigated = true;
        if self.visible_indices().len() == 0 {
            return;
        }
        let i: usize = match self.table_state.selected {
            Some(i) => i,
            None => 0,
        };
        let page: usize = if self.page_len == 0 {
            1
        } else {
            self.page_len
        };
        self.table_state.select(
            Some(
                if i >= page {
                    i - page
                } else {
                    0
                },
            ),
        );
    }

    /// Changes the filter text, given what compiling it came to. A text that
    /// does not compile keeps the last filter that did.
    pub fn apply_filter(&mut self, text: String, outcome: Result<Regex, String>)
        ensures
            final(self)@ == old(self)@.apply_filter(text@, outcome_view(outcome)),
    {
        let blank: bool = text.as_str().is_empty();
        self.filter_text = text;
        if blank {
            self.filter_regex = None;
            self.filter_error = None;
        } else {
            match outcome {
                Ok(re) => {
                    self.filter_regex = Some(re);
                    self.filter_error = None;
                },
                Err(message) => {
                    self.filter_error = Some(first_line_of(message.as_str()));
                },
            }
        }
        self.top();
    }

    /// Changes the filter text. An empty text lifts the filter.
    pub fn set_filter(&mut self, text: String)
        ensures
            final(self)@ == old(self)@.set_filter(text@),
    {
        let outcome = compile(text.as_str());
        self.apply_filter(text, outcome);
    }

    /// The output directory of a visible row.
    fn dir_at(&self, visible: &Vec<usize>, row: usize) -> (r: Option<FilePath>)
        requires
            in_range(visible@, self.entries@.len()),
        ensures
            path_view(r) == if row < visible@.len() {
                Some(self@.entries[visible@[row as int] as int].target_dir)
            } else {
                None
            },
    {
        if row < visible.len() {
            let i: usize = visible[row];
            assert(self@.entries[i as int] == self.entries@[i as int]@);
            Some(self.entries[i].target_dir.clone())
        } else {
            None
        }
    }

    /// Selects the row of the given output directory, or the first visible row if
    /// it has none.
    fn select_dir(&mut self, dir: &FilePath)
        ensures
            final(self)@ == old(self)@.select_dir(dir@),
    {
        let visible = self.visible_indices();
        let ghost v = self@;
        let mut k: usize = 0;
        while k < visible.len() && !self.entries[visible[k]].target_dir.same(dir)
            invariant
                v == self@,
                visible@ == v.visible(),
                k <= visible@.len(),
                v.row_of(dir@, 0) == v.row_of(dir@, k as int),
                in_range(visible@, self.entries@.len()),
            decreases visible@.len() - k,
        {
            assert(v.entries[visible@[k as int] as int] == self.entries@[visible@[k as int] as int]@);
            k += 1;
        }
        if k < visible.len() {
            assert(v.entries[visible@[k as int] as int] == self.entries@[visible@[k as int] as int]@);
            self.table_state.select(Some(k));
        } else if visible.len() > 0 {
            self.table_state.select(Some(0));
        } else {
            self.table_state.select(None);
        }
    }

    /// Takes over one measurement.
    fn measure(&mut self, m: &Measurement)
        ensures
            final(self)@ == old(self)@.measure(m@),
    {
        let ghost v = self@;
        let k: usize = find_entry(&self.entries, &m.target_dir);
        if k < self.entries.len() {
            assert(v.entries[k as int] == self.entries@[k as int]@);
            self.entries[k].size = Some(m.size);
            self.entries[k].last_modified = m.last_modified;
            assert(self@.entries =~= v.entries.update(
                k as int,
                with_measured(v.entries[k as int], m@),
            ));
            return;
        }
        let is_cache: bool = match &self.build_cache {
            Some(c) => c.project_path.same(&m.target_dir),
            None => false,
        };
        if is_cache {
            if let Some(c) = &mut self.build_cache {
                c.size = Some(m.size);
                c.last_modified = m.last_modified;
            }
            return;
        }
        let expected: bool = match &self.build_cache_path {
            Some(p) => m.target_dir.same(p),
            None => false,
        };
        if expected && m.last_modified.is_some() {
            self.build_cache = Some(
                TargetEntry {
                    project_path: m.target_dir.clone(),
                    target_dir: m.target_dir.clone(),
                    kind: OutputKind::Target,
                    size: Some(m.size),
                    last_modified: m.last_modified,
                },
            );
        }
    }

    /// Takes over measurements, one after the other.
    fn measure_all(&mut self, measurements: &[Measurement])
        ensures
            final(self)@ == old(self)@.measure_all(measurements_view(measurements@)),
    {
        let ghost start = self@;
        let ghost all = measurements_view(measurements@);
        assert(all.take(0) =~= Seq::<MeasurementView>::empty());
        for i in 0..measurements.len()
            invariant
                all == measurements_view(measurements@),
                self@ == start.measure_all(all.take(i as int)),
        {
            assert(all.take(i + 1).drop_last() =~= all.take(i as int));
            assert(all.take(i + 1).last() == measurements@[i as int]@);
            self.measure(&measurements[i]);
        }
        assert(all.take(all.len() as int) =~= all);
    }

    /// Takes over measurements, adds up the sizes and sorts anew. The selection
    /// stays at the top until the user takes over, and then on the project
    /// that it was on. Measurements of unknown directories change nothing.
    pub fn apply_measurements(&mut self, measurements: &[Measurement])
        ensures
            final(self)@ == old(self)@.apply_measurements(measurements_view(measurements@)),
    {
        if measurements.len() == 0 {
            return;
        }
        let ghost start = self@;
        let ghost all = measurements_view(measurements@);
        let visible = self.visible_indices();
        let selected = match self.table_state.selected {
            Some(i) => self.dir_at(&visible, i),
            None => None,
        };
        assert(path_view(selected) == start.selected_dir());
        self.measure_all(measurements);
        proof {
            lemma_measure_all_keeps(start, all);
        }
        self.total_size = sum_sizes(&self.entries);
        sort_entries(self.sort, &mut self.entries);
        if !self.navigated {
            self.top_unmarked();
        } else if let Some(dir) = selected {
            self.select_dir(&dir);
        }
    }

    /// Plans the deletion of the selected row's directory. A caller performs
    /// it and reports to `finish_delete`.
    pub fn delete_selected(&mut self) -> (r: Option<DeletePlan>)
        ensures
            final(self)@ == old(self)@.navigate(),
            plan_view(r) == old(self)@.delete_plan(),
    {
        let ghost start = self@;
        let visible = self.visible_indices();
        let selected = self.table_state.selected;
        self.navigated = true;
        assert(self@.visible() == start.visible());
        let i: usize = match selected {
            Some(i) => i,
            None => {
                return None;
            },
        };
        match self.dir_at(&visible, i) {
            None => None,
            Some(target_dir) => {
                let beside: usize = if i == 0 {
                    1
                } else {
                    i - 1
                };
                let neighbor = self.dir_at(&visible, beside);
                Some(DeletePlan { target_dir, neighbor })
            },
        }
    }

    /// Takes over how a planned deletion went. A directory that was not there
    /// counts as deleted.
    pub fn finish_delete(&mut self, plan: DeletePlan, outcome: DeleteOutcome)
        ensures
            final(self)@ == old(self)@.finish_delete(plan@, outcome),
    {
        let ghost start = self@;
        if let DeleteOutcome::Failed(reason) = &outcome {
            let mut message: Vec<char> = Vec::new();
            push_str(&mut message, "delete ");
            push_str(&mut message, plan.target_dir.to_text().as_str());
            push_str(&mut message, ": ");
            push_str(&mut message, reason.as_str());
            assert(message@ =~= "delete "@ + lossy_text(plan.target_dir@) + ": "@ + reason@);
            self.delete_error = Some(string_of(message.as_slice()));
            return;
        }
        self.delete_error = None;
        let k: usize = find_entry(&self.entries, &plan.target_dir);
        if k < self.entries.len() {
            assert(start.entries[k as int] == self.entries@[k as int]@);
            self.entries[k].size = Some(0);
            self.entries[k].last_modified = None;
            assert(self@.entries =~= start.entries.update(
                k as int,
                EntryView { size: Some(0), last_modified: None, ..start.entries[k as int] },
            ));
        }
        self.total_size = sum_sizes(&self.entries);
        sort_entries(self.sort, &mut self.entries);
        if let Some(dir) = &plan.neighbor {
            self.select_dir(dir);
        }
    }
}

/// Measurements touch the entries and the build cache only.
pub proof fn lemma_measure_all_keeps(v: AppView, ms: Seq<MeasurementView>)
    ensures
        v.measure_all(ms) == (AppView {
            entries: v.measure_all(ms).entries,
            build_cache: v.measure_all(ms).build_cache,
            ..v
        }),
        v.measure_all(ms).entries.len() == v.entries.len(),
    decreases ms.len(),
{
    if ms.len() > 0 {
        lemma_measure_all_keeps(v, ms.drop_last());
        lemma_entry_index(v.measure_all(ms.drop_last()).entries, ms.last().target_dir);
    }
}

} // verus!
