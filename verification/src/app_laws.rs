//! What every change of the state keeps, and what changes of it undo or follow.
use vstd::prelude::*;

use crate::app::{
    entry_index, lemma_entry_index, lemma_entry_index_is, lemma_measure_all_keeps, size_sum,
    total_of, with_measured, AppView, DeleteOutcome, Moment, PlanView,
};
use crate::file_path::lossy_text;
use crate::filter::{
    count_set, first_line, law_filtered_rows, law_rows, lemma_rows_len, matches_text, pass_flags,
    passes, rows,
};
use crate::order::{law_table_order, next_key, sorted_entries, table_order, SortKey};
use crate::path::{path_lt, same_path};
use crate::scan::{project_name_of, DiscoveredView, EntryView, MeasurementView};
use crate::seqs::{
    law_sorted, law_sorted_idempotent, lemma_sorted_image, lemma_sorted_weight, ordered, sorted,
    weight,
};

verus! {

/// Whether the selection points at a visible row, if there is any.
pub open spec fn selection_valid(v: AppView) -> bool {
    v.visible().len() > 0 ==> (v.table_state.selected matches Some(i) && i < v.visible().len())
}

/// What holds of the state at all times: the rows can be numbered and are in
/// table order, the total is that of the rows, and the selection points at a
/// visible row if there is any.
pub open spec fn well_formed(v: AppView) -> bool {
    &&& v.entries.len() <= usize::MAX
    &&& ordered(table_order(v.sort), v.entries)
    &&& v.total_size == total_of(v.entries)
    &&& selection_valid(v)
}

/// The weight of an entry that counts those which pass a filter.
spec fn pass_weight(filter: Option<regex::Regex>) -> spec_fn(EntryView) -> nat {
    |e: EntryView|
        if passes(filter, e) {
            1
        } else {
            0
        }
}

/// The weight of an entry that adds up sizes.
spec fn size_weight() -> spec_fn(EntryView) -> nat {
    |e: EntryView|
        match e.size {
            Some(n) => n as nat,
            None => 0,
        }
}

/// Counting the entries that pass is a weight.
proof fn lemma_count_is_weight(filter: Option<regex::Regex>, s: Seq<EntryView>)
    ensures
        count_set(pass_flags(filter, s)) == weight(pass_weight(filter), s),
    decreases s.len(),
{
    if s.len() > 0 {
        lemma_count_is_weight(filter, s.drop_last());
        assert(pass_flags(filter, s).drop_last() =~= pass_flags(filter, s.drop_last()));
    }
}

/// Adding up sizes is a weight.
proof fn lemma_sum_is_weight(s: Seq<EntryView>)
    ensures
        size_sum(s) == weight(size_weight(), s),
    decreases s.len(),
{
    if s.len() > 0 {
        lemma_sum_is_weight(s.drop_last());
    }
}

/// Sorting keeps the total and the number of entries that pass.
proof fn lemma_sorted_keeps(key: SortKey, filter: Option<regex::Regex>, s: Seq<EntryView>)
    ensures
        size_sum(sorted_entries(key, s)) == size_sum(s),
        rows(pass_flags(filter, sorted_entries(key, s))).len() == rows(pass_flags(filter, s)).len(),
        sorted_entries(key, s).len() == s.len(),
        ordered(table_order(key), sorted_entries(key, s)),
{
    let r = sorted_entries(key, s);
    law_table_order(key);
    law_sorted(table_order(key), s);
    lemma_sum_is_weight(s);
    lemma_sum_is_weight(r);
    lemma_sorted_weight(table_order(key), size_weight(), s);
    lemma_count_is_weight(filter, s);
    lemma_count_is_weight(filter, r);
    lemma_sorted_weight(table_order(key), pass_weight(filter), s);
    lemma_rows_len(pass_flags(filter, s));
    lemma_rows_len(pass_flags(filter, r));
}

/// Whose row an entry is.
pub open spec fn identity(e: EntryView) -> DiscoveredView {
    DiscoveredView { project_path: e.project_path, target_dir: e.target_dir, kind: e.kind }
}

/// Whose rows there are.
pub open spec fn identities(s: Seq<EntryView>) -> Seq<DiscoveredView> {
    s.map_values(|e: EntryView| identity(e))
}

/// Whether two states have the same rows, in whatever order and whatever was
/// measured of them.
pub open spec fn same_rows(a: AppView, b: AppView) -> bool {
    identities(a.entries).to_multiset() == identities(b.entries).to_multiset()
}

/// Sorting keeps the rows.
proof fn lemma_sorted_identities(key: SortKey, s: Seq<EntryView>)
    ensures
        identities(sorted_entries(key, s)).to_multiset() == identities(s).to_multiset(),
{
    lemma_sorted_image(table_order(key), |e: EntryView| identity(e), s);
}

/// Entries without sizes have the total nothing.
proof fn lemma_pending_total(s: Seq<EntryView>)
    requires
        forall|i: int| 0 <= i < s.len() ==> (#[trigger] s[i]).size is None,
    ensures
        size_sum(s) == 0,
    decreases s.len(),
{
    if s.len() > 0 {
        let d = s.drop_last();
        assert forall|i: int| 0 <= i < d.len() implies (#[trigger] d[i]).size is None by {
            assert(d[i] == s[i]);
        }
        lemma_pending_total(d);
        assert(s.last() == s[s.len() - 1]);
    }
}

/// Law: the state before the first scan is well formed.
pub proof fn law_initial(root: Seq<u8>, cache: Option<Seq<u8>>, now: Moment)
    ensures
        well_formed(AppView::initial(root, cache, now)),
{
    let v = AppView::initial(root, cache, now);
    assert(pass_flags(v.filter_regex, v.entries).len() == 0);
}

/// Law: discovery keeps the state well formed. The rows are those that were
/// found, and as long as the user has not taken over the first one is selected.
pub proof fn law_set_discovered(v: AppView, found: Seq<DiscoveredView>)
    requires
        well_formed(v),
        found.len() <= usize::MAX,
    ensures
        well_formed(v.set_discovered(found)),
        identities(v.set_discovered(found).entries).to_multiset() == found.to_multiset(),
        !v.navigated && found.len() > 0 && v.filter_regex is None ==> v.set_discovered(
            found,
        ).table_state.selected == Some(0usize),
{
    let pending = found.map_values(|d: DiscoveredView| crate::app::pending_entry(d));
    lemma_sorted_keeps(v.sort, v.filter_regex, pending);
    lemma_pending_total(pending);
    lemma_sorted_identities(v.sort, pending);
    assert(identities(pending) =~= found);
    if v.filter_regex is None {
        lemma_no_filter(sorted_entries(v.sort, pending));
    }
}

/// Law: the end of a scan keeps the state well formed.
pub proof fn law_finish_scan(v: AppView, build_cache: Option<EntryView>)
    requires
        well_formed(v),
    ensures
        well_formed(v.finish_scan(build_cache)),
        v.finish_scan(build_cache).entries == v.entries,
{
    lemma_sorted_keeps(v.sort, v.filter_regex, v.entries);
    law_sorted_idempotent(table_order(v.sort), v.entries);
}

/// Law: sorting by the next key keeps the state well formed and the rows, and
/// three times brings back the key.
pub proof fn law_cycle_sort(v: AppView)
    requires
        well_formed(v),
    ensures
        well_formed(v.cycle_sort()),
        same_rows(v, v.cycle_sort()),
        v.cycle_sort().cycle_sort().cycle_sort().sort == v.sort,
{
    lemma_sorted_keeps(next_key(v.sort), v.filter_regex, v.entries);
    lemma_sorted_identities(next_key(v.sort), v.entries);
}

/// Law: the start of a scan keeps the state well formed.
pub proof fn law_begin_scan(v: AppView, now: Moment)
    requires
        well_formed(v),
    ensures
        well_formed(v.begin_scan(now)),
{
    assert(v.begin_scan(now).visible() == v.visible());
}

/// Whether `w` is `v` with the user in charge and maybe another row selected.
pub open spec fn only_moved(v: AppView, w: AppView) -> bool {
    w == (AppView { navigated: true, table_state: w.table_state, ..v })
}

/// Law: moving the selection keeps the state well formed and changes nothing
/// else.
pub proof fn law_navigation(v: AppView)
    requires
        well_formed(v),
    ensures
        well_formed(v.next()),
        well_formed(v.previous()),
        well_formed(v.top()),
        well_formed(v.bottom()),
        well_formed(v.page_down()),
        well_formed(v.page_up()),
        only_moved(v, v.next()),
        only_moved(v, v.previous()),
        only_moved(v, v.top()),
        only_moved(v, v.bottom()),
        only_moved(v, v.page_down()),
        only_moved(v, v.page_up()),
{
    lemma_rows_bound(pass_flags(v.filter_regex, v.entries));
    assert(v.navigate().visible() == v.visible());
    assert forall|r: Option<usize>| #[trigger] v.navigate().select(r).visible() == v.visible() by {
    }
    let n = v.visible().len();
    if n > 0 {
        let i = (v.row() + 1) % (n as int);
        assert(0 <= i < n) by (nonlinear_arith)
            requires
                i == (v.row() + 1) % (n as int),
                n > 0,
        ;
        assert(i as usize == i);
    }
}

/// Law: a step back undoes a step forward, and a step forward a step back.
pub proof fn law_steps_undo(v: AppView)
    requires
        well_formed(v),
        v.visible().len() > 0,
    ensures
        v.next().previous().table_state == v.table_state,
        v.previous().next().table_state == v.table_state,
{
    lemma_rows_bound(pass_flags(v.filter_regex, v.entries));
    assert(v.navigate().visible() == v.visible());
    assert forall|r: Option<usize>| #[trigger] v.navigate().select(r).visible() == v.visible() by {
    }
    let n = v.visible().len() as int;
    let i = v.row() as int;
    assert(v.table_state.selected == Some(v.row()));
    if i + 1 < n {
        assert((i + 1) % n == i + 1) by (nonlinear_arith)
            requires
                0 <= i + 1 < n,
        ;
    } else {
        assert((i + 1) % n == 0) by (nonlinear_arith)
            requires
                i + 1 == n,
                n > 0,
        ;
    }
    if i > 0 {
        assert((i - 1 + 1) % n == i) by (nonlinear_arith)
            requires
                0 <= i < n,
        ;
    } else {
        assert((n - 1 + 1) % n == 0) by (nonlinear_arith)
            requires
                n > 0,
        ;
    }
}

/// Law: paging never wraps: a page down moves down, or stays at the last row, and
/// a page up moves up, or stays at the first row.
pub proof fn law_paging_clamps(v: AppView)
    requires
        well_formed(v),
        v.visible().len() > 0,
    ensures
        v.row() <= v.page_down().row() < v.visible().len(),
        v.page_down().row() == v.row() ==> v.row() == v.visible().len() - 1,
        v.page_up().row() <= v.row(),
        v.page_up().row() == v.row() ==> v.row() == 0,
{
    lemma_rows_bound(pass_flags(v.filter_regex, v.entries));
}

/// Without a filter every row is visible.
proof fn lemma_no_filter(s: Seq<EntryView>)
    ensures
        rows(pass_flags(None, s)).len() == s.len(),
        forall|i: int|
            0 <= i < s.len() ==> (#[trigger] rows(pass_flags(None, s))[i]) == i as usize,
    decreases s.len(),
{
    if s.len() > 0 {
        lemma_no_filter(s.drop_last());
        assert(pass_flags(None, s).drop_last() =~= pass_flags(None, s.drop_last()));
        assert(pass_flags(None, s).last());
    }
}

/// Law: without a filter every row is visible, in order.
pub proof fn law_no_filter_shows_all(v: AppView)
    requires
        v.filter_regex is None,
    ensures
        v.visible().len() == v.entries.len(),
        forall|i: int| 0 <= i < v.entries.len() ==> (#[trigger] v.visible()[i]) == i as usize,
{
    lemma_no_filter(v.entries);
}

/// Law: a new filter text keeps the state well formed. A text that does not
/// compile keeps the visible rows; an empty one shows all of them.
pub proof fn law_apply_filter(v: AppView, text: Seq<char>, outcome: Result<regex::Regex, Seq<char>>)
    requires
        well_formed(v),
    ensures
        well_formed(v.apply_filter(text, outcome)),
        text.len() > 0 && outcome is Err ==> {
            &&& v.apply_filter(text, outcome).filter_regex == v.filter_regex
            &&& v.apply_filter(text, outcome).visible() == v.visible()
            &&& v.apply_filter(text, outcome).filter_error is Some
        },
        text.len() == 0 ==> {
            &&& v.apply_filter(text, outcome).filter_regex is None
            &&& v.apply_filter(text, outcome).filter_error is None
            &&& v.apply_filter(text, outcome).visible().len() == v.entries.len()
        },
{
    lemma_no_filter(v.entries);
}

/// A measurement changes neither which entries pass nor whose they are.
proof fn lemma_measure_keeps(v: AppView, m: MeasurementView)
    ensures
        forall|i: int|
            0 <= i < v.entries.len() ==> {
                &&& (#[trigger] v.measure(m).entries[i]).project_path == v.entries[i].project_path
                &&& v.measure(m).entries[i].target_dir == v.entries[i].target_dir
                &&& v.measure(m).entries[i].kind == v.entries[i].kind
            },
        v.measure(m).entries.len() == v.entries.len(),
{
    lemma_entry_index(v.entries, m.target_dir);
}

/// Measurements change neither which entries pass nor whose they are.
pub proof fn lemma_measure_all_identity(v: AppView, ms: Seq<MeasurementView>)
    ensures
        v.measure_all(ms).entries.len() == v.entries.len(),
        forall|i: int|
            0 <= i < v.entries.len() ==> {
                &&& (#[trigger] v.measure_all(ms).entries[i]).project_path
                    == v.entries[i].project_path
                &&& v.measure_all(ms).entries[i].target_dir == v.entries[i].target_dir
                &&& v.measure_all(ms).entries[i].kind == v.entries[i].kind
            },
        pass_flags(v.filter_regex, v.measure_all(ms).entries) == pass_flags(
            v.filter_regex,
            v.entries,
        ),
    decreases ms.len(),
{
    if ms.len() > 0 {
        lemma_measure_all_identity(v, ms.drop_last());
        lemma_measure_keeps(v.measure_all(ms.drop_last()), ms.last());
    }
    assert(pass_flags(v.filter_regex, v.measure_all(ms).entries) =~= pass_flags(
        v.filter_regex,
        v.entries,
    ));
}

/// What `row_of` says of the rows around it.
proof fn lemma_row_of(v: AppView, dir: Seq<u8>, from: int)
    requires
        0 <= from <= v.visible().len(),
    ensures
        from <= v.row_of(dir, from) <= v.visible().len(),
        v.row_of(dir, from) < v.visible().len() ==> same_path(
            v.entries[v.visible()[v.row_of(dir, from)] as int].target_dir,
            dir,
        ),
        forall|k: int|
            from <= k < v.visible().len() && same_path(
                v.entries[#[trigger] v.visible()[k] as int].target_dir,
                dir,
            ) ==> v.row_of(dir, from) <= k,
    decreases v.visible().len() - from,
{
    if from < v.visible().len() && !same_path(
        v.entries[v.visible()[from] as int].target_dir,
        dir,
    ) {
        lemma_row_of(v, dir, from + 1);
    }
}

/// Selecting the row of a directory leaves the selection at a visible row.
proof fn lemma_select_dir_valid(v: AppView, dir: Seq<u8>)
    requires
        v.entries.len() <= usize::MAX,
    ensures
        selection_valid(v.select_dir(dir)),
        v.select_dir(dir) == (AppView { table_state: v.select_dir(dir).table_state, ..v }),
{
    lemma_row_of(v, dir, 0);
    lemma_rows_bound(pass_flags(v.filter_regex, v.entries));
    assert(v.select_dir(dir).visible() == v.visible());
}

/// There are no more rows than flags.
proof fn lemma_rows_bound(flags: Seq<bool>)
    ensures
        rows(flags).len() <= flags.len(),
    decreases flags.len(),
{
    if flags.len() > 0 {
        lemma_rows_bound(flags.drop_last());
    }
}

/// Selecting the row of a directory finds it, if an entry with it passes the
/// filter.
proof fn lemma_select_dir_finds(v: AppView, dir: Seq<u8>, q: int)
    requires
        v.entries.len() <= usize::MAX,
        0 <= q < v.entries.len(),
        passes(v.filter_regex, v.entries[q]),
        same_path(v.entries[q].target_dir, dir),
    ensures
        v.select_dir(dir).selected_dir() matches Some(d) && same_path(d, dir),
{
    let flags = pass_flags(v.filter_regex, v.entries);
    law_rows(flags);
    lemma_rows_bound(flags);
    lemma_row_of(v, dir, 0);
    assert(flags[q]);
    assert(v.visible().contains(q as usize));
    let p = choose|p: int| 0 <= p < v.visible().len() && v.visible()[p] == q as usize;
    assert(v.visible()[p] as int == q);
    assert(v.row_of(dir, 0) <= p);
    let w = v.select_dir(dir);
    assert(w.visible() == v.visible());
    assert(w.table_state.selected == Some(v.row_of(dir, 0) as usize));
}

/// An entry is still there after sorting.
proof fn lemma_sorted_contains(key: SortKey, s: Seq<EntryView>, i: int) -> (q: int)
    requires
        0 <= i < s.len(),
    ensures
        0 <= q < sorted_entries(key, s).len(),
        sorted_entries(key, s)[q] == s[i],
{
    broadcast use vstd::seq_lib::group_to_multiset_ensures;

    law_table_order(key);
    law_sorted(table_order(key), s);
    let r = sorted_entries(key, s);
    assert(s.contains(s[i]));
    assert(r.to_multiset().contains(s[i]));
    assert(r.contains(s[i]));
    choose|q: int| 0 <= q < r.len() && r[q] == s[i]
}

/// Law: measurements keep the state well formed, the rows, and how many of
/// them are visible.
pub proof fn law_apply_measurements(v: AppView, ms: Seq<MeasurementView>)
    requires
        well_formed(v),
    ensures
        well_formed(v.apply_measurements(ms)),
        same_rows(v, v.apply_measurements(ms)),
        v.apply_measurements(ms).entries.len() == v.entries.len(),
        v.apply_measurements(ms).visible().len() == v.visible().len(),
{
    if ms.len() > 0 {
        let u = v.measure_all(ms);
        lemma_measure_all_identity(v, ms);
        lemma_measure_all_keeps(v, ms);
        lemma_sorted_keeps(v.sort, v.filter_regex, u.entries);
        lemma_sorted_identities(v.sort, u.entries);
        assert(identities(u.entries) =~= identities(v.entries));
        let w = u.retotal().resort();
        assert(w.visible().len() == v.visible().len());
        match v.selected_dir() {
            Some(dir) => {
                lemma_select_dir_valid(w, dir);
            },
            None => {},
        }
    }
}

/// Law: once the user is in charge, the selection stays on the output
/// directory that it was on, wherever measurements move its row.
pub proof fn law_selection_follows(v: AppView, ms: Seq<MeasurementView>)
    requires
        v.navigated,
        v.entries.len() <= usize::MAX,
        v.selected_dir() is Some,
    ensures
        v.apply_measurements(ms).selected_dir() matches Some(d) && same_path(
            d,
            v.selected_dir()->0,
        ),
{
    if ms.len() > 0 {
        let dir = v.selected_dir()->0;
        let u = v.measure_all(ms);
        lemma_measure_all_identity(v, ms);
        lemma_measure_all_keeps(v, ms);
        let flags = pass_flags(v.filter_regex, v.entries);
        law_rows(flags);
        let i = v.visible()[v.row() as int] as int;
        assert(flags[i]);
        assert(u.entries[i].target_dir == dir);
        assert(pass_flags(v.filter_regex, u.entries)[i]);
        lemma_sorted_keeps(v.sort, v.filter_regex, u.entries);
        let q = lemma_sorted_contains(v.sort, u.entries, i);
        let w = u.retotal().resort();
        assert(w.entries[q] == u.entries[i]);
        lemma_select_dir_finds(w, dir, q);
    }
}

/// Law: until the user is in charge, measurements leave the selection at the
/// top.
pub proof fn law_selection_pinned(v: AppView, ms: Seq<MeasurementView>)
    requires
        !v.navigated,
        ms.len() > 0,
        v.visible().len() > 0,
    ensures
        v.apply_measurements(ms).table_state.selected == Some(0usize),
{
    let u = v.measure_all(ms);
    lemma_measure_all_identity(v, ms);
    lemma_measure_all_keeps(v, ms);
    lemma_sorted_keeps(v.sort, v.filter_regex, u.entries);
    assert(u.retotal().resort().visible().len() == v.visible().len());
}

/// Whether a measurement is about no row, not about the build cache, and finds
/// no build cache either.
pub open spec fn unknown(v: AppView, m: MeasurementView) -> bool {
    &&& entry_index(v.entries, m.target_dir) == v.entries.len()
    &&& v.build_cache matches Some(c) ==> !same_path(c.project_path, m.target_dir)
    &&& v.build_cache_path matches Some(p) ==> !same_path(m.target_dir, p) || m.last_modified is None
}

/// Law: measurements of unknown directories change neither rows nor total nor
/// build cache.
pub proof fn law_unknown_ignored(v: AppView, ms: Seq<MeasurementView>)
    requires
        well_formed(v),
        forall|i: int| 0 <= i < ms.len() ==> unknown(v, #[trigger] ms[i]),
    ensures
        v.measure_all(ms) == v,
        v.apply_measurements(ms).entries == v.entries,
        v.apply_measurements(ms).total_size == v.total_size,
        v.apply_measurements(ms).build_cache == v.build_cache,
    decreases ms.len(),
{
    if ms.len() > 0 {
        let d = ms.drop_last();
        assert forall|i: int| 0 <= i < d.len() implies unknown(v, #[trigger] d[i]) by {
            assert(d[i] == ms[i]);
        }
        law_unknown_ignored(v, d);
        assert(ms.last() == ms[ms.len() - 1]);
        law_sorted_idempotent(table_order(v.sort), v.entries);
        assert(v.retotal().resort() =~= v);
    }
}

/// Law: a single measurement of a listed directory shows in its row.
pub proof fn law_measurement_shows(v: AppView, m: MeasurementView)
    requires
        entry_index(v.entries, m.target_dir) < v.entries.len(),
    ensures
        exists|q: int|
            0 <= q < v.apply_measurements(seq![m]).entries.len() && {
                let e = #[trigger] v.apply_measurements(seq![m]).entries[q];
                same_path(e.target_dir, m.target_dir) && e.size == Some(m.size) && e.last_modified
                    == m.last_modified
            },
{
    let ms = seq![m];
    assert(ms.drop_last() =~= Seq::<MeasurementView>::empty());
    assert(v.measure_all(ms.drop_last()) == v);
    lemma_entry_index(v.entries, m.target_dir);
    let k = entry_index(v.entries, m.target_dir);
    let u = v.measure_all(ms);
    assert(u == v.measure(m));
    assert(u.entries[k] == with_measured(v.entries[k], m));
    let q = lemma_sorted_contains(v.sort, u.entries, k);
    assert(v.apply_measurements(ms).entries == sorted_entries(v.sort, u.entries));
    assert(v.apply_measurements(ms).entries[q] == u.entries[k]);
}

/// Law: in size order no measured row stands above one that is not measured
/// yet, and no smaller one above a bigger one.
pub proof fn law_size_order(v: AppView, i: int, j: int)
    requires
        well_formed(v),
        v.sort == SortKey::Size,
        0 <= i < j < v.entries.len(),
    ensures
        v.entries[j].size is None ==> v.entries[i].size is None,
        (v.entries[i].size matches Some(x) && v.entries[j].size is Some)
            ==> v.entries[j].size->0 <= v.entries[i].size->0,
{
    let lt = table_order(v.sort);
    assert(!lt(v.entries[j], v.entries[i]));
}

/// Law: in order of modification no row without a time stands above one with
/// a time, and no older one above a newer one.
pub proof fn law_modified_order(v: AppView, i: int, j: int)
    requires
        well_formed(v),
        v.sort == SortKey::Modified,
        0 <= i < j < v.entries.len(),
    ensures
        v.entries[i].last_modified is None ==> v.entries[j].last_modified is None,
        (v.entries[i].last_modified matches Some(x) && v.entries[j].last_modified is Some)
            ==> v.entries[j].last_modified->0 <= v.entries[i].last_modified->0,
{
    let lt = table_order(v.sort);
    assert(!lt(v.entries[j], v.entries[i]));
}

/// Law: in order of names no row stands above one whose project path comes
/// before its own.
pub proof fn law_name_order(v: AppView, i: int, j: int)
    requires
        well_formed(v),
        v.sort == SortKey::Name,
        0 <= i < j < v.entries.len(),
    ensures
        !path_lt(v.entries[j].project_path, v.entries[i].project_path),
{
    let lt = table_order(v.sort);
    assert(!lt(v.entries[j], v.entries[i]));
}

/// The state with one row emptied, before it is sorted.
spec fn emptied(v: AppView, dir: Seq<u8>) -> AppView {
    let k = entry_index(v.entries, dir);
    if k < v.entries.len() {
        AppView {
            entries: v.entries.update(
                k,
                EntryView { size: Some(0), last_modified: None, ..v.entries[k] },
            ),
            delete_error: None,
            ..v
        }
    } else {
        AppView { delete_error: None, ..v }
    }
}

/// Emptying a row changes neither which entries pass nor whose they are.
proof fn lemma_emptied(v: AppView, dir: Seq<u8>)
    ensures
        emptied(v, dir).entries.len() == v.entries.len(),
        pass_flags(v.filter_regex, emptied(v, dir).entries) == pass_flags(
            v.filter_regex,
            v.entries,
        ),
        forall|i: int|
            0 <= i < v.entries.len() ==> (#[trigger] emptied(v, dir).entries[i]).target_dir
                == v.entries[i].target_dir,
{
    lemma_entry_index(v.entries, dir);
    assert(pass_flags(v.filter_regex, emptied(v, dir).entries) =~= pass_flags(
        v.filter_regex,
        v.entries,
    ));
}

/// Law: a deletion keeps the state well formed, and the rows.
pub proof fn law_finish_delete(v: AppView, plan: PlanView, outcome: DeleteOutcome)
    requires
        well_formed(v),
    ensures
        well_formed(v.finish_delete(plan, outcome)),
        same_rows(v, v.finish_delete(plan, outcome)),
{
    match outcome {
        DeleteOutcome::Failed(reason) => {
            assert(v.finish_delete(plan, outcome).visible() == v.visible());
        },
        _ => {
            lemma_emptied(v, plan.target_dir);
            let u = emptied(v, plan.target_dir);
            lemma_sorted_keeps(v.sort, v.filter_regex, u.entries);
            lemma_sorted_identities(v.sort, u.entries);
            lemma_entry_index(v.entries, plan.target_dir);
            assert(identities(u.entries) =~= identities(v.entries));
            let w = u.retotal().resort();
            assert(w.visible().len() == v.visible().len());
            match plan.neighbor {
                Some(dir) => {
                    lemma_select_dir_valid(w, dir);
                },
                None => {},
            }
        },
    }
}

/// Law: a failed deletion changes nothing but the message.
pub proof fn law_failed_delete(v: AppView, plan: PlanView, reason: String)
    ensures
        v.finish_delete(plan, DeleteOutcome::Failed(reason)) == (AppView {
            delete_error: v.finish_delete(plan, DeleteOutcome::Failed(reason)).delete_error,
            ..v
        }),
        v.finish_delete(plan, DeleteOutcome::Failed(reason)).delete_error is Some,
{
}

/// Law: after a deletion the row is empty and without a time, no error is
/// shown, and the selection is on the neighbor that the plan named.
pub proof fn law_deleted_row(v: AppView)
    requires
        v.entries.len() <= usize::MAX,
        v.delete_plan() is Some,
    ensures
        ({
            let plan = v.delete_plan()->0;
            let w = v.navigate().deleted(plan);
            &&& w.delete_error is None
            &&& exists|q: int|
                0 <= q < w.entries.len() && {
                    let e = #[trigger] w.entries[q];
                    same_path(e.target_dir, plan.target_dir) && e.size == Some(0u64)
                        && e.last_modified is None
                }
            &&& plan.neighbor matches Some(dir) ==> (w.selected_dir() matches Some(d) && same_path(
                d,
                dir,
            ))
            &&& plan.neighbor is None ==> w.table_state == v.table_state
        }),
{
    let plan = v.delete_plan()->0;
    let dir = plan.target_dir;
    let n = v.navigate();
    assert(n.visible() == v.visible());
    let flags = pass_flags(v.filter_regex, v.entries);
    law_rows(flags);
    lemma_entry_index(v.entries, dir);
    let i = v.visible()[v.row() as int] as int;
    assert(same_path(v.entries[i].target_dir, dir));
    let k = entry_index(v.entries, dir);
    assert(k < v.entries.len());
    lemma_emptied(n, dir);
    let u = emptied(n, dir);
    let w = u.retotal().resort();
    lemma_sorted_keeps(v.sort, v.filter_regex, u.entries);
    let q = lemma_sorted_contains(v.sort, u.entries, k);
    assert(w.entries[q] == u.entries[k]);
    let done = n.deleted(plan);
    if let Some(beside) = plan.neighbor {
        let b: int = if v.row() == 0 {
            1
        } else {
            v.row() - 1
        };
        let j = v.visible()[b] as int;
        assert(flags[j]);
        assert(pass_flags(v.filter_regex, u.entries)[j]);
        assert(u.entries[j].target_dir == beside);
        let p = lemma_sorted_contains(v.sort, u.entries, j);
        assert(w.entries[p] == u.entries[j]);
        lemma_select_dir_finds(w, beside, p);
        assert(done == w.select_dir(beside));
        lemma_select_dir_valid(w, beside);
        assert(done.entries[q] == u.entries[k]);
    } else {
        assert(done == w);
        assert(done.entries[q] == u.entries[k]);
    }
}

/// Law: with a filter exactly the rows are visible that its pattern matches by
/// project name, by project path or by output directory.
pub proof fn law_visible(v: AppView, re: regex::Regex, i: int)
    requires
        v.filter_regex == Some(re),
        v.entries.len() <= usize::MAX,
        0 <= i < v.entries.len(),
    ensures
        v.visible().contains(i as usize) <==> {
            let e = v.entries[i];
            ||| matches_text(re, project_name_of(e.project_path))
            ||| matches_text(re, lossy_text(e.project_path))
            ||| matches_text(re, lossy_text(e.target_dir))
        },
{
    law_filtered_rows(re, v.entries, i);
}

/// Law: the selected directory is the output directory of the visible row whose
/// number is selected; without such a row there is none.
pub proof fn law_selected_dir(v: AppView, i: usize)
    ensures
        v.table_state.selected is None ==> v.selected_dir() is None,
        v.table_state.selected == Some(i) && i < v.visible().len() ==> v.selected_dir() == Some(
            v.entries[v.visible()[i as int] as int].target_dir,
        ),
        v.table_state.selected == Some(i) && i >= v.visible().len() ==> v.selected_dir() is None,
{
}

/// Law: a deletion is planned for the selected row and no other; the selection then
/// goes to the visible row above it, from the first row to the one below it, and
/// nowhere if there is no such row.
pub proof fn law_delete_plan(v: AppView, i: usize)
    requires
        v.table_state.selected == Some(i),
        i < v.visible().len(),
    ensures
        v.delete_plan() matches Some(plan) && {
            let shown = v.visible();
            &&& plan.target_dir == v.entries[shown[i as int] as int].target_dir
            &&& i > 0 ==> plan.neighbor == Some(v.entries[shown[i - 1] as int].target_dir)
            &&& i == 0 && shown.len() > 1 ==> plan.neighbor == Some(
                v.entries[shown[1] as int].target_dir,
            )
            &&& i == 0 && shown.len() == 1 ==> plan.neighbor is None
        },
{
}

/// Law: without a selected row nothing is deleted.
pub proof fn law_nothing_to_delete(v: AppView)
    requires
        v.table_state.selected matches Some(i) ==> i >= v.visible().len(),
    ensures
        v.delete_plan() is None,
{
}

/// Law: once the directory of the selected row is deleted, the row above it is
/// selected, or the one below it if it was the first.
pub proof fn law_deletion_moves_selection(v: AppView, i: usize)
    requires
        v.entries.len() <= usize::MAX,
        v.table_state.selected == Some(i),
        i < v.visible().len(),
    ensures
        ({
            let w = v.navigate().deleted(v.delete_plan()->0);
            let shown = v.visible();
            &&& i > 0 ==> (w.selected_dir() matches Some(d) && same_path(
                d,
                v.entries[shown[i - 1] as int].target_dir,
            ))
            &&& i == 0 && shown.len() > 1 ==> (w.selected_dir() matches Some(d) && same_path(
                d,
                v.entries[shown[1] as int].target_dir,
            ))
        }),
{
    law_delete_plan(v, i);
    law_deleted_row(v);
}

/// Law: deleting a directory empties its row and no other: the size is nothing and
/// there is no time; all other rows stay, and the total is that of the rows.
pub proof fn law_deletion_empties_one_row(v: AppView, plan: PlanView, k: int)
    requires
        0 <= k < v.entries.len(),
        same_path(v.entries[k].target_dir, plan.target_dir),
        forall|i: int|
            0 <= i < k ==> !same_path(#[trigger] v.entries[i].target_dir, plan.target_dir),
    ensures
        ({
            let w = v.deleted(plan);
            let e = EntryView { size: Some(0), last_modified: None, ..v.entries[k] };
            &&& w.entries.to_multiset() == v.entries.update(k, e).to_multiset()
            &&& size_sum(w.entries) + (match v.entries[k].size {
                Some(n) => n as nat,
                None => 0,
            }) == size_sum(v.entries)
            &&& w.total_size == total_of(w.entries)
            &&& w.delete_error is None
            &&& w.build_cache == v.build_cache
            &&& w.filter_regex == v.filter_regex
            &&& w.sort == v.sort
            &&& plan.neighbor is None ==> w.table_state == v.table_state
        }),
{
    lemma_entry_index_is(v.entries, plan.target_dir, k);
    let u = emptied(v, plan.target_dir);
    law_table_order(v.sort);
    law_sorted(table_order(v.sort), u.entries);
    lemma_sorted_keeps(v.sort, v.filter_regex, u.entries);
    lemma_size_sum_update(v.entries, k, u.entries[k]);
}

/// What replacing an entry does to the sum of the sizes.
proof fn lemma_size_sum_update(s: Seq<EntryView>, k: int, e: EntryView)
    requires
        0 <= k < s.len(),
    ensures
        size_sum(s.update(k, e)) + size_weight()(s[k]) == size_sum(s) + size_weight()(e),
    decreases s.len(),
{
    let t = s.update(k, e);
    if k == s.len() - 1 {
        assert(t.drop_last() =~= s.drop_last());
    } else {
        lemma_size_sum_update(s.drop_last(), k, e);
        assert(t.drop_last() =~= s.drop_last().update(k, e));
        assert(t.last() == s.last());
    }
}

/// Law: a failed deletion is reported with the directory and the reason.
pub proof fn law_failed_delete_says_why(v: AppView, plan: PlanView, reason: String)
    ensures
        v.finish_delete(plan, DeleteOutcome::Failed(reason)).delete_error == Some(
            "delete "@ + lossy_text(plan.target_dir) + ": "@ + reason@,
        ),
        v.finish_delete(plan, DeleteOutcome::Removed) == v.deleted(plan),
        v.finish_delete(plan, DeleteOutcome::Missing) == v.deleted(plan),
{
}

/// Law: a measurement changes the first row of its directory and nothing else of
/// the table: the row has the size and the time that were measured.
pub proof fn law_measure_touches_one_row(v: AppView, m: MeasurementView, k: int)
    requires
        0 <= k < v.entries.len(),
        same_path(v.entries[k].target_dir, m.target_dir),
        forall|i: int| 0 <= i < k ==> !same_path(#[trigger] v.entries[i].target_dir, m.target_dir),
    ensures
        ({
            let e = EntryView {
                size: Some(m.size),
                last_modified: m.last_modified,
                ..v.entries[k]
            };
            let w = v.apply_measurements(seq![m]);
            &&& v.measure(m) == (AppView { entries: v.entries.update(k, e), ..v })
            &&& w.entries.to_multiset() == v.entries.update(k, e).to_multiset()
            &&& w.build_cache == v.build_cache
            &&& w.total_size == total_of(w.entries)
            &&& w.sort == v.sort
            &&& w.filter_regex == v.filter_regex
            &&& w.navigated == v.navigated
            &&& w.scanning == v.scanning
        }),
{
    lemma_entry_index_is(v.entries, m.target_dir, k);
    let ms = seq![m];
    assert(ms.drop_last() =~= Seq::<MeasurementView>::empty());
    reveal_with_fuel(AppView::measure_all, 2);
    let u = v.measure_all(ms);
    assert(u == v.measure(m));
    law_table_order(v.sort);
    law_sorted(table_order(v.sort), u.entries);
    lemma_sorted_keeps(v.sort, v.filter_regex, u.entries);
}

/// Law: a measurement of no row is one of the build cache if it is measured at its
/// place: it changes what is known of it, or makes it appear. It does not appear
/// while there is nothing, and no other place is taken for it.
pub proof fn law_measure_build_cache(v: AppView, m: MeasurementView)
    requires
        forall|i: int|
            0 <= i < v.entries.len() ==> !same_path(
                #[trigger] v.entries[i].target_dir,
                m.target_dir,
            ),
    ensures
        v.measure(m).entries == v.entries,
        v.build_cache matches Some(c) ==> (same_path(c.project_path, m.target_dir) ==> v.measure(
            m,
        ).build_cache == Some(
            EntryView { size: Some(m.size), last_modified: m.last_modified, ..c },
        )),
        v.build_cache is None ==> match v.build_cache_path {
            Some(p) if same_path(m.target_dir, p) && m.last_modified is Some => {
                v.measure(m).build_cache matches Some(c) && {
                    &&& c.project_path == m.target_dir
                    &&& c.target_dir == m.target_dir
                    &&& c.size == Some(m.size)
                    &&& c.last_modified == m.last_modified
                }
            },
            _ => v.measure(m).build_cache is None,
        },
{
    lemma_entry_index_is(v.entries, m.target_dir, v.entries.len() as int);
}

/// Law: measurements are taken over one after the other, so that the last one of a
/// directory counts.
pub proof fn law_measurements_in_order(v: AppView, ms: Seq<MeasurementView>, m: MeasurementView)
    ensures
        v.measure_all(Seq::empty()) == v,
        v.measure_all(ms.push(m)) == v.measure_all(ms).measure(m),
        v.apply_measurements(Seq::empty()) == v,
{
    assert(ms.push(m).drop_last() =~= ms);
}

/// Law: a step leads to the next row, from the last one to the first, and back
/// likewise; the ends are one key away.
pub proof fn law_steps(v: AppView, i: usize)
    requires
        v.entries.len() <= usize::MAX,
        v.table_state.selected == Some(i),
        i < v.visible().len(),
    ensures
        ({
            let n = v.visible().len() as int;
            &&& i + 1 < n ==> v.next().table_state.selected == Some((i + 1) as usize)
            &&& i + 1 == n ==> v.next().table_state.selected == Some(0usize)
            &&& i > 0 ==> v.previous().table_state.selected == Some((i - 1) as usize)
            &&& i == 0 ==> v.previous().table_state.selected == Some((n - 1) as usize)
            &&& v.top().table_state.selected == Some(0usize)
            &&& v.bottom().table_state.selected == Some((n - 1) as usize)
            &&& v.next().navigated && v.previous().navigated && v.top().navigated
                && v.bottom().navigated
        }),
{
    lemma_rows_bound(pass_flags(v.filter_regex, v.entries));
    let n = v.visible().len() as int;
    if i + 1 < n {
        assert((i + 1) % n == i + 1) by (nonlinear_arith)
            requires
                0 <= i + 1 < n,
        ;
    } else {
        assert((i + 1) % n == 0) by (nonlinear_arith)
            requires
                i + 1 == n,
                n > 0,
        ;
    }
}

/// Law: a page is as many rows as the last frame showed, at least one, and paging
/// stops at the ends.
pub proof fn law_pages(v: AppView, i: usize)
    requires
        v.entries.len() <= usize::MAX,
        v.table_state.selected == Some(i),
        i < v.visible().len(),
    ensures
        ({
            let n = v.visible().len() as int;
            let page: int = if v.page_len == 0 {
                1
            } else {
                v.page_len as int
            };
            let down = v.page_down().table_state.selected;
            let up = v.page_up().table_state.selected;
            &&& i + page < n ==> down == Some((i + page) as usize)
            &&& i + page >= n ==> down == Some((n - 1) as usize)
            &&& i >= page ==> up == Some((i - page) as usize)
            &&& i < page ==> up == Some(0usize)
        }),
{
    lemma_rows_bound(pass_flags(v.filter_regex, v.entries));
}

/// Law: without visible rows no key moves the selection.
pub proof fn law_no_rows_no_steps(v: AppView)
    requires
        v.visible().len() == 0,
    ensures
        v.next().table_state == v.table_state,
        v.previous().table_state == v.table_state,
        v.top().table_state == v.table_state,
        v.bottom().table_state == v.table_state,
        v.page_down().table_state == v.table_state,
        v.page_up().table_state == v.table_state,
{
}

/// Law: what a scan found is not measured yet. The selection stays on its row, or
/// goes to the last one, and at the top until the user has moved it.
pub proof fn law_discovered_is_pending(v: AppView, found: Seq<DiscoveredView>, k: int)
    requires
        found.len() <= usize::MAX,
    ensures
        ({
            let w = v.set_discovered(found);
            let n = w.visible().len() as int;
            &&& w.entries.len() == found.len()
            &&& 0 <= k < w.entries.len() ==> w.entries[k].size is None
                && w.entries[k].last_modified is None
            &&& w.total_size == 0
            &&& w.scanning
            &&& w.build_cache == v.build_cache
            &&& w.filter_text == v.filter_text
            &&& w.sort == v.sort
            &&& n == 0 ==> w.table_state.selected is None
            &&& n > 0 && !v.navigated ==> w.table_state.selected == Some(0usize)
            &&& n > 0 && v.navigated ==> match v.table_state.selected {
                Some(i) => w.table_state.selected == Some(
                    if i < n {
                        i
                    } else {
                        (n - 1) as usize
                    },
                ),
                None => w.table_state.selected == Some(0usize),
            }
        }),
{
    broadcast use vstd::seq_lib::group_to_multiset_ensures;

    let pending = found.map_values(|d: DiscoveredView| crate::app::pending_entry(d));
    let r = sorted_entries(v.sort, pending);
    lemma_sorted_keeps(v.sort, v.filter_regex, pending);
    lemma_rows_bound(pass_flags(v.filter_regex, r));
    law_table_order(v.sort);
    law_sorted(table_order(v.sort), pending);
    if 0 <= k < r.len() {
        assert(r.to_multiset().count(r[k]) > 0);
        assert(pending.to_multiset().count(r[k]) > 0);
        assert(pending.contains(r[k]));
    }
}

/// Law: a scan starts at its moment with the selection at the top again, and ends
/// with what it found of the build cache.
pub proof fn law_scan_marks(v: AppView, now: Moment, build_cache: Option<EntryView>)
    ensures
        v.begin_scan(now) == (AppView {
            scanning: true,
            loading_start: now,
            navigated: false,
            ..v
        }),
        !v.finish_scan(build_cache).scanning,
        v.finish_scan(build_cache).build_cache == build_cache,
        v.finish_scan(build_cache).total_size == v.total_size,
        v.finish_scan(build_cache).entries.to_multiset() == v.entries.to_multiset(),
{
    law_table_order(v.sort);
    law_sorted(table_order(v.sort), v.entries);
}

/// Law: at first a scan is running, nothing is listed, filtered or wrong, and the
/// table is sorted by size.
pub proof fn law_first_state(root: Seq<u8>, cache: Option<Seq<u8>>, now: Moment)
    ensures
        ({
            let v = AppView::initial(root, cache, now);
            &&& v.root == root
            &&& v.build_cache_path == cache
            &&& v.loading_start == now
            &&& v.scanning
            &&& v.entries.len() == 0
            &&& v.build_cache is None
            &&& v.total_size == 0
            &&& v.sort == SortKey::Size
            &&& v.table_state.selected == Some(0usize)
            &&& v.table_state.offset == 0
            &&& v.page_len == 10
            &&& !v.navigated && !v.filtering
            &&& v.filter_text.len() == 0
            &&& v.filter_regex is None
            &&& v.filter_error is None
            &&& v.delete_error is None
        }),
{
}

/// Law: a filter text that compiles filters by its pattern, one that does not is
/// shown with the first line of its error; either way the text stands as it was
/// typed and the first row that is visible is selected.
pub proof fn law_filter_text(
    v: AppView,
    text: Seq<char>,
    outcome: Result<regex::Regex, Seq<char>>,
)
    requires
        text.len() > 0,
    ensures
        ({
            let w = v.apply_filter(text, outcome);
            &&& w.filter_text == text
            &&& w.navigated
            &&& w.entries == v.entries
            &&& w.visible().len() > 0 ==> w.table_state.selected == Some(0usize)
            &&& outcome matches Ok(re) ==> w.filter_regex == Some(re) && w.filter_error is None
            &&& outcome matches Err(e) ==> w.filter_regex == v.filter_regex && w.filter_error
                == Some(first_line(e))
        }),
{
}

/// Law: the total adds up the sizes that were measured; what is not measured counts
/// for nothing.
pub proof fn law_total(s: Seq<EntryView>, e: EntryView)
    ensures
        size_sum(Seq::<EntryView>::empty()) == 0,
        e.size is None ==> size_sum(s.push(e)) == size_sum(s),
        e.size matches Some(n) ==> size_sum(s.push(e)) == size_sum(s) + n,
        size_sum(s) <= u64::MAX ==> total_of(s) == size_sum(s),
{
    assert(s.push(e).drop_last() =~= s);
}

/// Law: selecting leaves the rest of the state alone; without a selection the table
/// shows its top.
pub proof fn law_select(v: AppView, row: Option<usize>)
    ensures
        v.select(row).table_state.selected == row,
        row is Some ==> v.select(row).table_state.offset == v.table_state.offset,
        row is None ==> v.select(row).table_state.offset == 0,
        v.select(row) == (AppView { table_state: v.select(row).table_state, ..v }),
{
}

/// Law: sorting goes from size to modification to name and back to size, and the
/// selection stays on its row number.
pub proof fn law_sort_cycle(v: AppView)
    ensures
        v.sort == SortKey::Size ==> v.cycle_sort().sort == SortKey::Modified,
        v.sort == SortKey::Modified ==> v.cycle_sort().sort == SortKey::Name,
        v.sort == SortKey::Name ==> v.cycle_sort().sort == SortKey::Size,
        v.cycle_sort().table_state == v.table_state,
        v.cycle_sort().entries.to_multiset() == v.entries.to_multiset(),
        ordered(table_order(v.cycle_sort().sort), v.cycle_sort().entries),
{
    law_table_order(next_key(v.sort));
    law_sorted(table_order(next_key(v.sort)), v.entries);
}

/// Law: rows that the key does not tell apart stand in the order of their project
/// paths, and of their output directories within a project: those that are not
/// measured, those of one time, and all of them by name.
pub proof fn law_ties(v: AppView, i: int, j: int)
    requires
        well_formed(v),
        0 <= i < j < v.entries.len(),
        match v.sort {
            SortKey::Size => v.entries[i].size is None && v.entries[j].size is None,
            SortKey::Modified => v.entries[i].last_modified == v.entries[j].last_modified,
            SortKey::Name => true,
        },
    ensures
        !path_lt(v.entries[j].project_path, v.entries[i].project_path),
        same_path(v.entries[j].project_path, v.entries[i].project_path) ==> !path_lt(
            v.entries[j].target_dir,
            v.entries[i].target_dir,
        ),
{
    let lt = table_order(v.sort);
    assert(!lt(v.entries[j], v.entries[i]));
}

/// Law: what is well formed has its total, its order and its selection right.
pub proof fn law_well_formed(v: AppView)
    requires
        well_formed(v),
    ensures
        size_sum(v.entries) <= u64::MAX ==> v.total_size == size_sum(v.entries),
        v.visible().len() > 0 ==> (v.table_state.selected matches Some(i) && i < v.visible().len()),
        forall|i: int, j: int|
            0 <= i < j < v.entries.len() ==> !table_order(v.sort)(
                #[trigger] v.entries[j],
                #[trigger] v.entries[i],
            ),
{
}

} // verus!
