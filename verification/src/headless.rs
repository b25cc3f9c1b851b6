//! The commands `list` and `clean`: what they report and what they delete.
use vstd::arithmetic::power2::pow2;
use vstd::prelude::*;
use vstd::utf8::encode_utf8;

use crate::app::{
    in_range, picked, size_sum, sum_picked, total_of, App, AppView, DeleteOutcome, Moment,
};
use crate::file_path::{lossy_text, path_view, FilePath};
use crate::filter::{law_rows, rows, rows_of};
use crate::quantity::{
    age_error, age_error_of, age_in_seconds, age_parts_of, all_ascii, ascii_age_parts,
    ascii_means_yes, ascii_size_parts, is_yes, law_quantity_parts, law_whole_ages, law_whole_sizes,
    means_yes, parse_age, parse_size, size_error, size_error_of, size_of, size_parts_of, Number,
    QuantityError,
};
use crate::scan::{
    discovered_view, entries_view, entry_view, measurements_view, project_name_of, DiscoveredEntry,
    EntryView, Measurement, TargetEntry, Timestamp,
};
use crate::text::{
    chars_of, decimal, law_padded, padded_end, padded_start, push_all, push_padded_end,
    push_padded_start, push_str, string_of, strings_view, text_view, write_decimal,
};
use crate::ui::format::{
    age, age_of, display_path, entry_modified, format_modified_entry, format_size,
    format_size_opt, formatted_size, formatted_size_opt, shown_path, SECOND,
};
use crate::ui::screen::placed;

verus! {

/// The table after a scan from start to end: what was found, measured and
/// sorted.
pub fn collect(
    root: FilePath,
    build_cache_path: Option<FilePath>,
    discovered: Vec<DiscoveredEntry>,
    measurements: &Vec<Measurement>,
    build_cache: Option<TargetEntry>,
    now: Moment,
) -> (r: App)
    ensures
        r@ == AppView::initial(root@, path_view(build_cache_path), now).set_discovered(
            discovered_view(discovered@),
        ).apply_measurements(measurements_view(measurements@)).finish_scan(
            entry_view(build_cache),
        ),
{
    let mut app = App::new(root, build_cache_path, now);
    app.set_discovered(discovered);
    app.apply_measurements(measurements.as_slice());
    app.finish_scan(build_cache);
    app
}

/// The label of a row: the project's name and what tells its rows apart.
pub open spec fn label_of(e: EntryView, suffix: Option<Seq<char>>) -> Seq<char> {
    match suffix {
        Some(s) => project_name_of(e.project_path) + s,
        None => project_name_of(e.project_path),
    }
}

/// Writes the label of a row.
pub fn project_label(entry: &TargetEntry, suffix: Option<&str>) -> (r: String)
    ensures
        r@ == label_of(
            entry@,
            match suffix {
                Some(s) => Some(s@),
                None => None,
            },
        ),
{
    let mut out: Vec<char> = Vec::new();
    push_str(&mut out, entry.project_name().as_str());
    if let Some(s) = suffix {
        push_str(&mut out, s);
    }
    assert(out@ =~= label_of(
        entry@,
        match suffix {
            Some(s) => Some(s@),
            None => None,
        },
    ));
    string_of(out.as_slice())
}

/// A row of the report.
#[derive(Debug)]
pub struct ReportRow {
    pub name: String,
    pub size: String,
    pub modified: String,
    pub path: String,
}

/// What a `ReportRow` says.
#[verifier::ext_equal]
pub struct ReportRowView {
    pub name: Seq<char>,
    pub size: Seq<char>,
    pub modified: Seq<char>,
    pub path: Seq<char>,
}

impl View for ReportRow {
    type V = ReportRowView;

    open spec fn view(&self) -> ReportRowView {
        ReportRowView {
            name: self.name@,
            size: self.size@,
            modified: self.modified@,
            path: self.path@,
        }
    }
}

/// What a list of rows says.
pub open spec fn report_rows_view(v: Seq<ReportRow>) -> Seq<ReportRowView> {
    v.map_values(|r: ReportRow| r@)
}

/// What a row shows beside what is known of its entry.
#[derive(Debug)]
pub struct Mark {
    /// The canonical form of the output directory, if it has one.
    pub place: Option<FilePath>,
    /// What tells the row apart from others of its project.
    pub suffix: Option<String>,
}

/// What a `Mark` says.
#[verifier::ext_equal]
pub struct MarkView {
    pub place: Option<Seq<u8>>,
    pub suffix: Option<Seq<char>>,
}

impl View for Mark {
    type V = MarkView;

    open spec fn view(&self) -> MarkView {
        MarkView { place: path_view(self.place), suffix: text_view(self.suffix) }
    }
}

/// The mark of the `i`-th entry; an empty one where there is none.
pub open spec fn mark_at(marks: Seq<Mark>, i: int) -> MarkView {
    if 0 <= i < marks.len() {
        marks[i]@
    } else {
        MarkView { place: None, suffix: None }
    }
}

/// The row of an entry.
pub open spec fn report_row_of(
    e: EntryView,
    mark: MarkView,
    home: Option<Seq<u8>>,
    now: Timestamp,
) -> ReportRowView {
    ReportRowView {
        name: label_of(e, mark.suffix),
        size: formatted_size_opt(e.size),
        modified: entry_modified(e, now),
        path: shown_path(placed(e.target_dir, mark.place), home),
    }
}

/// Writes the row of an entry, given the canonical form of the home directory.
pub fn report_row(
    entry: &TargetEntry,
    mark: &Mark,
    home: &Option<FilePath>,
    now: Timestamp,
) -> (r: ReportRow)
    ensures
        r@ == report_row_of(entry@, mark@, path_view(*home), now),
{
    let name = match &mark.suffix {
        Some(s) => project_label(entry, Some(s.as_str())),
        None => project_label(entry, None),
    };
    let path = match &mark.place {
        Some(p) => display_path(p, home),
        None => display_path(&entry.target_dir, home),
    };
    ReportRow {
        name,
        size: format_size_opt(entry.size),
        modified: format_modified_entry(entry, now),
        path,
    }
}

/// The rows of the entries at the given indices. Marks stand at the indices of
/// the entries.
pub open spec fn report_rows_of(
    entries: Seq<EntryView>,
    picks: Seq<usize>,
    marks: Seq<Mark>,
    home: Option<Seq<u8>>,
    now: Timestamp,
) -> Seq<ReportRowView> {
    picks.map_values(
        |i: usize| report_row_of(entries[i as int], mark_at(marks, i as int), home, now),
    )
}

/// Writes the rows of the entries at the given indices.
pub fn report_rows(
    entries: &Vec<TargetEntry>,
    picks: &Vec<usize>,
    marks: &Vec<Mark>,
    home: &Option<FilePath>,
    now: Timestamp,
) -> (r: Vec<ReportRow>)
    requires
        in_range(picks@, entries@.len()),
    ensures
        report_rows_view(r@) == report_rows_of(
            entries_view(entries@),
            picks@,
            marks@,
            path_view(*home),
            now,
        ),
{
    let ghost all = entries_view(entries@);
    let ghost full = report_rows_of(all, picks@, marks@, path_view(*home), now);
    let unmarked = Mark { place: None, suffix: None };
    let mut r: Vec<ReportRow> = Vec::new();
    assert(report_rows_view(r@) =~= full.take(0));
    for k in 0..picks.len()
        invariant
            in_range(picks@, entries@.len()),
            all == entries_view(entries@),
            full == report_rows_of(all, picks@, marks@, path_view(*home), now),
            unmarked@ == (MarkView { place: None, suffix: None }),
            report_rows_view(r@) == full.take(k as int),
    {
        let i: usize = picks[k];
        assert(all[i as int] == entries@[i as int]@);
        let mark: &Mark = if i < marks.len() {
            &marks[i]
        } else {
            &unmarked
        };
        let ghost before = r@;
        r.push(report_row(&entries[i], mark, home, now));
        assert(report_rows_view(r@) =~= report_rows_view(before).push(full[k as int]));
        assert(report_rows_view(r@) =~= full.take(k + 1));
    }
    assert(full.take(full.len() as int) =~= full);
    r
}

/// The greater of two numbers.
pub open spec fn greater(a: nat, b: nat) -> nat {
    if a < b {
        b
    } else {
        a
    }
}

/// The widths of the first three columns: the lengths in bytes of the longest
/// cells, and at least those of the headings.
pub open spec fn widths(rows: Seq<ReportRowView>) -> (nat, nat, nat)
    decreases rows.len(),
{
    if rows.len() == 0 {
        (7, 4, 8)
    } else {
        let w = widths(rows.drop_last());
        let r = rows.last();
        (
            greater(w.0, encode_utf8(r.name).len()),
            greater(w.1, encode_utf8(r.size).len()),
            greater(w.2, encode_utf8(r.modified).len()),
        )
    }
}

/// One line of the report: the name and the time flush left, the size flush
/// right.
pub open spec fn report_line(r: ReportRowView, w: (nat, nat, nat)) -> Seq<char> {
    padded_end(r.name, w.0) + " "@ + padded_start(r.size, w.1) + " "@ + padded_end(r.modified, w.2)
        + " "@ + r.path + "\n"@
}

/// The headings of the report.
pub open spec fn headings() -> ReportRowView {
    ReportRowView { name: "PROJECT"@, size: "SIZE"@, modified: "MODIFIED"@, path: "PATH"@ }
}

/// The lines of the first rows of the report.
pub open spec fn report_lines(rows: Seq<ReportRowView>, w: (nat, nat, nat)) -> Seq<char>
    decreases rows.len(),
{
    if rows.len() == 0 {
        Seq::empty()
    } else {
        report_lines(rows.drop_last(), w) + report_line(rows.last(), w)
    }
}

/// The report: the headings, then the rows, in aligned columns.
pub open spec fn report(rows: Seq<ReportRowView>) -> Seq<char> {
    report_line(headings(), widths(rows)) + report_lines(rows, widths(rows))
}

/// Writes one line of the report.
fn push_line(
    out: &mut Vec<char>,
    name: &str,
    size: &str,
    modified: &str,
    path: &str,
    w: (usize, usize, usize),
)
    ensures
        final(out)@ == old(out)@ + report_line(
            ReportRowView { name: name@, size: size@, modified: modified@, path: path@ },
            (w.0 as nat, w.1 as nat, w.2 as nat),
        ),
{
    let ghost start = out@;
    let n = chars_of(name);
    let s = chars_of(size);
    let m = chars_of(modified);
    push_padded_end(out, n.as_slice(), w.0);
    push_str(out, " ");
    push_padded_start(out, s.as_slice(), w.1);
    push_str(out, " ");
    push_padded_end(out, m.as_slice(), w.2);
    push_str(out, " ");
    push_str(out, path);
    push_str(out, "\n");
    let ghost line = report_line(
        ReportRowView { name: name@, size: size@, modified: modified@, path: path@ },
        (w.0 as nat, w.1 as nat, w.2 as nat),
    );
    assert(out@ =~= start + line);
}

/// Measures the widths of the columns.
fn measure_widths(rows: &Vec<ReportRow>) -> (w: (usize, usize, usize))
    ensures
        (w.0 as nat, w.1 as nat, w.2 as nat) == widths(report_rows_view(rows@)),
{
    let ghost all = report_rows_view(rows@);
    let mut a: usize = 7;
    let mut b: usize = 4;
    let mut c: usize = 8;
    assert(all.take(0) =~= Seq::<ReportRowView>::empty());
    for i in 0..rows.len()
        invariant
            all == report_rows_view(rows@),
            (a as nat, b as nat, c as nat) == widths(all.take(i as int)),
    {
        assert(all.take(i + 1).drop_last() =~= all.take(i as int));
        assert(all.take(i + 1).last() == rows@[i as int]@);
        let la: usize = rows[i].name.as_str().as_bytes().len();
        let lb: usize = rows[i].size.as_str().as_bytes().len();
        let lc: usize = rows[i].modified.as_str().as_bytes().len();
        if a < la {
            a = la;
        }
        if b < lb {
            b = lb;
        }
        if c < lc {
            c = lc;
        }
    }
    assert(all.take(all.len() as int) =~= all);
    (a, b, c)
}

/// Writes the report.
pub fn render_table(rows: &Vec<ReportRow>) -> (r: String)
    ensures
        r@ == report(report_rows_view(rows@)),
{
    let ghost all = report_rows_view(rows@);
    let w = measure_widths(rows);
    let ghost ws = widths(all);
    let mut out: Vec<char> = Vec::new();
    push_line(&mut out, "PROJECT", "SIZE", "MODIFIED", "PATH", w);
    let ghost top = report_line(headings(), ws);
    assert(out@ =~= top);
    assert(all.take(0) =~= Seq::<ReportRowView>::empty());
    for i in 0..rows.len()
        invariant
            all == report_rows_view(rows@),
            ws == (w.0 as nat, w.1 as nat, w.2 as nat),
            out@ == top + report_lines(all.take(i as int), ws),
    {
        assert(all.take(i + 1).drop_last() =~= all.take(i as int));
        assert(all.take(i + 1).last() == rows@[i as int]@);
        let ghost before = out@;
        push_line(
            &mut out,
            rows[i].name.as_str(),
            rows[i].size.as_str(),
            rows[i].modified.as_str(),
            rows[i].path.as_str(),
            w,
        );
        assert(out@ =~= top + report_lines(all.take(i + 1), ws));
    }
    assert(all.take(all.len() as int) =~= all);
    string_of(out.as_slice())
}

/// What `list` writes below the table: how many projects there are and how
/// much they take up.
pub open spec fn list_summary_of(shown: Seq<EntryView>) -> Seq<char> {
    let plural = if shown.len() == 1 {
        ""@
    } else {
        "s"@
    };
    "\n"@ + decimal(shown.len()) + " project"@ + plural + " · "@ + formatted_size(total_of(shown))
        + " total\n"@
}

/// What `list` writes: the visible rows of the table and a summary of them.
pub open spec fn list_of(
    v: AppView,
    marks: Seq<Mark>,
    home: Option<Seq<u8>>,
    now: Timestamp,
) -> Seq<char> {
    if v.entries.len() == 0 {
        "No target/ directories found.\n"@
    } else {
        report(report_rows_of(v.entries, v.visible(), marks, home, now)) + list_summary_of(
            picked(v.entries, v.visible()),
        )
    }
}

/// Writes what `list` shows of a scan, given the marks of the entries.
pub fn run_list(
    app: &App,
    marks: &Vec<Mark>,
    home: &Option<FilePath>,
    now: Timestamp,
) -> (r: String)
    ensures
        r@ == list_of(app@, marks@, path_view(*home), now),
{
    if app.entries.len() == 0 {
        return "No target/ directories found.\n".to_owned();
    }
    let visible = app.visible_indices();
    let rows = report_rows(&app.entries, &visible, marks, home, now);
    let n: usize = visible.len();
    let count = write_decimal(n as u64);
    let mut out: Vec<char> = Vec::new();
    push_str(&mut out, render_table(&rows).as_str());
    push_str(&mut out, "\n");
    push_all(&mut out, count.as_slice());
    push_str(&mut out, " project");
    push_str(
        &mut out,
        if n == 1 {
            ""
        } else {
            "s"
        },
    );
    push_str(&mut out, " · ");
    push_str(&mut out, format_size(sum_picked(&app.entries, &visible)).as_str());
    push_str(&mut out, " total\n");
    assert(out@ =~= list_of(app@, marks@, path_view(*home), now));
    string_of(out.as_slice())
}

/// Whether an entry is to be cleaned: it must be strictly larger and strictly
/// older than the limits that are given. One that is not measured meets no
/// limit of size, and one without a time none of age.
pub open spec fn candidate(
    e: EntryView,
    now: Timestamp,
    min_age: Option<u64>,
    min_size: Option<u64>,
) -> bool {
    &&& min_size matches Some(min) ==> (e.size matches Some(n) && n > min)
    &&& min_age matches Some(min) ==> (e.last_modified matches Some(m) && age_of(m, now) > min
        * SECOND)
}

/// Tests whether an entry is to be cleaned. The limit of age is in seconds.
pub fn is_candidate(
    entry: &TargetEntry,
    now: Timestamp,
    min_age: Option<u64>,
    min_size: Option<u64>,
) -> (b: bool)
    ensures
        b == candidate(entry@, now, min_age, min_size),
{
    let size_ok: bool = match (entry.size, min_size) {
        (_, None) => true,
        (Some(n), Some(min)) => n > min,
        (None, Some(_)) => false,
    };
    let age_ok: bool = match (entry.last_modified, min_age) {
        (_, None) => true,
        (Some(m), Some(min)) => age(m, now) > min as u128 * SECOND,
        (None, Some(_)) => false,
    };
    size_ok && age_ok
}

/// Which entries are to be cleaned.
pub open spec fn candidate_flags(
    s: Seq<EntryView>,
    now: Timestamp,
    min_age: Option<u64>,
    min_size: Option<u64>,
) -> Seq<bool> {
    s.map_values(|e: EntryView| candidate(e, now, min_age, min_size))
}

/// The indices of the entries to be cleaned, in order.
pub open spec fn candidate_rows(
    s: Seq<EntryView>,
    now: Timestamp,
    min_age: Option<u64>,
    min_size: Option<u64>,
) -> Seq<usize> {
    rows(candidate_flags(s, now, min_age, min_size))
}

/// Picks the entries to be cleaned.
pub fn candidates(
    entries: &Vec<TargetEntry>,
    now: Timestamp,
    min_age: Option<u64>,
    min_size: Option<u64>,
) -> (r: Vec<usize>)
    ensures
        r@ == candidate_rows(entries_view(entries@), now, min_age, min_size),
        in_range(r@, entries@.len()),
{
    let ghost all = entries_view(entries@);
    let mut flags: Vec<bool> = Vec::new();
    for i in 0..entries.len()
        invariant
            all == entries_view(entries@),
            flags@ == candidate_flags(all.take(i as int), now, min_age, min_size),
    {
        assert(all[i as int] == entries@[i as int]@);
        flags.push(is_candidate(&entries[i], now, min_age, min_size));
        assert(flags@ =~= candidate_flags(all.take(i + 1), now, min_age, min_size));
    }
    assert(all.take(all.len() as int) =~= all);
    proof {
        assert(flags.len() <= usize::MAX);
        law_rows(flags@);
    }
    rows_of(&flags)
}

/// Law: exactly the candidates are cleaned, each once and in order.
pub proof fn law_candidates(
    s: Seq<EntryView>,
    now: Timestamp,
    min_age: Option<u64>,
    min_size: Option<u64>,
)
    requires
        s.len() <= usize::MAX,
    ensures
        ({
            let found = candidate_rows(s, now, min_age, min_size);
            &&& forall|k: int|
                0 <= k < found.len() ==> (#[trigger] found[k]) < s.len() && candidate(
                    s[found[k] as int],
                    now,
                    min_age,
                    min_size,
                )
            &&& forall|j: int, k: int|
                0 <= j < k < found.len() ==> #[trigger] found[j] < #[trigger] found[k]
            &&& forall|i: int|
                0 <= i < s.len() && candidate(#[trigger] s[i], now, min_age, min_size)
                    ==> found.contains(i as usize)
        }),
{
    let flags = candidate_flags(s, now, min_age, min_size);
    let found = rows(flags);
    law_rows(flags);
    assert forall|k: int| 0 <= k < found.len() implies (#[trigger] found[k]) < s.len() && candidate(
        s[found[k] as int],
        now,
        min_age,
        min_size,
    ) by {
        assert(flags[found[k] as int]);
    }
    assert forall|i: int|
        0 <= i < s.len() && candidate(#[trigger] s[i], now, min_age, min_size) implies found.contains(
        i as usize,
    ) by {
        assert(flags[i]);
    }
}

/// Law: an absent limit never keeps an entry from being cleaned.
pub proof fn law_single_limit(e: EntryView, now: Timestamp, min_age: u64, min_size: u64)
    ensures
        candidate(e, now, None, None),
        candidate(e, now, Some(min_age), Some(min_size)) <==> candidate(
            e,
            now,
            Some(min_age),
            None,
        ) && candidate(e, now, None, Some(min_size)),
{
}

/// Law: an entry that meets a limit exactly is not cleaned.
pub proof fn law_limits_are_strict(e: EntryView, now: Timestamp, limit: u64)
    ensures
        e.size == Some(limit) ==> !candidate(e, now, None, Some(limit)),
        (e.last_modified matches Some(m) && now - m == limit * SECOND) ==> !candidate(
            e,
            now,
            Some(limit),
            None,
        ),
{
}

/// The limits of `clean` as they are written: those that were passed, or
/// both defaults if none was.
pub open spec fn limits_of(
    older_than: Option<Seq<char>>,
    larger_than: Option<Seq<char>>,
) -> (Option<Seq<char>>, Option<Seq<char>>) {
    if older_than is None && larger_than is None {
        (Some("30d"@), Some("100MB"@))
    } else {
        (older_than, larger_than)
    }
}

/// Picks the limits of `clean`.
pub fn clean_limits(older_than: &Option<String>, larger_than: &Option<String>) -> (r: (
    Option<String>,
    Option<String>,
))
    ensures
        (text_view(r.0), text_view(r.1)) == limits_of(
            text_view(*older_than),
            text_view(*larger_than),
        ),
{
    if older_than.is_none() && larger_than.is_none() {
        (Some("30d".to_owned()), Some("100MB".to_owned()))
    } else {
        (copy_text(older_than), copy_text(larger_than))
    }
}

/// A copy of an optional text.
fn copy_text(t: &Option<String>) -> (r: Option<String>)
    ensures
        text_view(r) == text_view(*t),
{
    match t {
        Some(s) => Some(s.clone()),
        None => None,
    }
}

/// What `clean` looks for, in words.
pub open spec fn description_of(age: Option<Seq<char>>, size: Option<Seq<char>>) -> Seq<char> {
    match (age, size) {
        (Some(a), Some(s)) => "older than "@ + a + " and "@ + "larger than "@ + s,
        (Some(a), None) => "older than "@ + a,
        (None, Some(s)) => "larger than "@ + s,
        (None, None) => ""@,
    }
}

/// Writes what `clean` looks for.
pub fn describe(age: &Option<String>, size: &Option<String>) -> (r: String)
    ensures
        r@ == description_of(text_view(*age), text_view(*size)),
{
    let mut out: Vec<char> = Vec::new();
    if let Some(a) = age {
        push_str(&mut out, "older than ");
        push_str(&mut out, a.as_str());
        if size.is_some() {
            push_str(&mut out, " and ");
        }
    }
    if let Some(s) = size {
        push_str(&mut out, "larger than ");
        push_str(&mut out, s.as_str());
    }
    proof {
        reveal_strlit("");
    }
    assert(out@ =~= description_of(text_view(*age), text_view(*size)));
    string_of(out.as_slice())
}

/// What `clean` works with.
#[derive(Debug)]
pub struct CleanPlan {
    /// The limit of age in seconds.
    pub min_age: Option<u64>,
    /// The limit of size in bytes.
    pub min_size: Option<u64>,
    /// What is looked for, in words.
    pub description: String,
}

/// What the limits of `clean` come to, given what their numbers come to; the
/// age is read first.
pub open spec fn plan_of(
    age: Option<Seq<char>>,
    size: Option<Seq<char>>,
    age_number: Number,
    size_number: Number,
) -> Result<(Option<u64>, Option<u64>, Seq<char>), Seq<char>> {
    let a = match age {
        Some(raw) => Some(age_in_seconds(age_parts_of(raw), age_number)),
        None => None,
    };
    let s = match size {
        Some(raw) => Some(size_of(size_parts_of(raw), size_number)),
        None => None,
    };
    match (a, s) {
        (Some(Err(e)), _) => Err(age_error_of(e, age->0)),
        (_, Some(Err(e))) => Err(size_error_of(e, size->0)),
        (_, _) => Ok(
            (
                match a {
                    Some(Ok(n)) => Some(n),
                    _ => None,
                },
                match s {
                    Some(Ok(n)) => Some(n),
                    _ => None,
                },
                description_of(age, size),
            ),
        ),
    }
}

/// The view of a plan or of why there is none.
pub open spec fn clean_plan_view(r: Result<CleanPlan, String>) -> Result<
    (Option<u64>, Option<u64>, Seq<char>),
    Seq<char>,
> {
    match r {
        Ok(p) => Ok((p.min_age, p.min_size, p.description@)),
        Err(e) => Err(e@),
    }
}

/// Reads the limits of `clean`.
pub fn plan_clean(
    age: &Option<String>,
    size: &Option<String>,
    age_number: Number,
    size_number: Number,
) -> (r: Result<CleanPlan, String>)
    ensures
        clean_plan_view(r) == plan_of(text_view(*age), text_view(*size), age_number, size_number),
{
    let min_age = match age {
        Some(raw) => match parse_age(raw.as_str(), age_number) {
            Ok(n) => Some(n),
            Err(e) => {
                return Err(age_error(e, raw.as_str()));
            },
        },
        None => None,
    };
    let min_size = match size {
        Some(raw) => match parse_size(raw.as_str(), size_number) {
            Ok(n) => Some(n),
            Err(e) => {
                return Err(size_error(e, raw.as_str()));
            },
        },
        None => None,
    };
    Ok(CleanPlan { min_age, min_size, description: describe(age, size) })
}

/// What `clean` writes before it asks: that there is nothing to do, or the
/// candidates and how much they take up.
pub open spec fn clean_report_of(
    entries: Seq<EntryView>,
    found: Seq<usize>,
    marks: Seq<Mark>,
    home: Option<Seq<u8>>,
    shown_at: Timestamp,
    description: Seq<char>,
) -> Seq<char> {
    if found.len() == 0 {
        "Nothing to clean: no target/ dirs "@ + description + ".\n"@
    } else {
        let ending = if found.len() == 1 {
            "y"@
        } else {
            "ies"@
        };
        "Candidates "@ + description + ":\n"@ + report(
            report_rows_of(entries, found, marks, home, shown_at),
        ) + "\n"@ + decimal(found.len()) + " director"@ + ending + " · "@ + formatted_size(
            total_of(picked(entries, found)),
        ) + " reclaimable\n"@
    }
}

/// Writes what `clean` shows before it asks.
fn clean_report(
    entries: &Vec<TargetEntry>,
    found: &Vec<usize>,
    marks: &Vec<Mark>,
    home: &Option<FilePath>,
    shown_at: Timestamp,
    description: &str,
) -> (r: String)
    requires
        in_range(found@, entries@.len()),
    ensures
        r@ == clean_report_of(
            entries_view(entries@),
            found@,
            marks@,
            path_view(*home),
            shown_at,
            description@,
        ),
{
    let mut out: Vec<char> = Vec::new();
    let n: usize = found.len();
    if n == 0 {
        push_str(&mut out, "Nothing to clean: no target/ dirs ");
        push_str(&mut out, description);
        push_str(&mut out, ".\n");
    } else {
        let rows = report_rows(entries, found, marks, home, shown_at);
        push_str(&mut out, "Candidates ");
        push_str(&mut out, description);
        push_str(&mut out, ":\n");
        push_str(&mut out, render_table(&rows).as_str());
        push_str(&mut out, "\n");
        let count = write_decimal(n as u64);
        push_all(&mut out, count.as_slice());
        push_str(&mut out, " director");
        push_str(
            &mut out,
            if n == 1 {
                "y"
            } else {
                "ies"
            },
        );
        push_str(&mut out, " · ");
        push_str(&mut out, format_size(sum_picked(entries, found)).as_str());
        push_str(&mut out, " reclaimable\n");
    }
    assert(out@ =~= clean_report_of(
        entries_view(entries@),
        found@,
        marks@,
        path_view(*home),
        shown_at,
        description@,
    ));
    string_of(out.as_slice())
}

/// What `clean` asks.
pub fn clean_prompt(count: usize) -> (r: String)
    ensures
        r@ == "Delete "@ + decimal(count as nat) + " directories? [y/N] "@,
{
    let mut out: Vec<char> = Vec::new();
    push_str(&mut out, "Delete ");
    let digits = write_decimal(count as u64);
    push_all(&mut out, digits.as_slice());
    push_str(&mut out, " directories? [y/N] ");
    assert(out@ =~= "Delete "@ + decimal(count as nat) + " directories? [y/N] "@);
    string_of(out.as_slice())
}

/// What `clean` does next.
#[derive(Debug)]
pub enum CleanStep {
    /// Nothing more: there is nothing to clean, or the answer was no.
    Stop,
    /// Ask the given question, and go on by the answer.
    Ask(String),
    /// Delete the candidates.
    Delete,
}

/// What `clean` makes of a scan.
#[derive(Debug)]
pub struct CleanReport {
    /// What it writes.
    pub text: String,
    /// The indices of the candidates.
    pub found: Vec<usize>,
    pub step: CleanStep,
}

/// What `clean` makes of a scan: it reports the candidates as of `now`, stops
/// if there are none, and asks first unless told not to.
pub fn run_clean(
    app: &App,
    plan: &CleanPlan,
    now: Timestamp,
    marks: &Vec<Mark>,
    home: &Option<FilePath>,
    shown_at: Timestamp,
    yes: bool,
) -> (r: CleanReport)
    ensures
        r.found@ == candidate_rows(app@.entries, now, plan.min_age, plan.min_size),
        in_range(r.found@, app.entries@.len()),
        r.text@ == clean_report_of(
            app@.entries,
            r.found@,
            marks@,
            path_view(*home),
            shown_at,
            plan.description@,
        ),
        match r.step {
            CleanStep::Stop => r.found@.len() == 0,
            CleanStep::Ask(question) => r.found@.len() > 0 && !yes && question@ == "Delete "@
                + decimal(r.found@.len()) + " directories? [y/N] "@,
            CleanStep::Delete => r.found@.len() > 0 && yes,
        },
{
    let found = candidates(&app.entries, now, plan.min_age, plan.min_size);
    let text = clean_report(
        &app.entries,
        &found,
        marks,
        home,
        shown_at,
        plan.description.as_str(),
    );
    let step = if found.len() == 0 {
        CleanStep::Stop
    } else if yes {
        CleanStep::Delete
    } else {
        CleanStep::Ask(clean_prompt(found.len()))
    };
    CleanReport { text, found, step }
}

/// What `clean` does after an answer: it deletes after a yes, and says that it
/// stops after anything else.
pub fn confirm(line: &str) -> (r: (String, CleanStep))
    ensures
        means_yes(line@) ==> r.1 is Delete && r.0@ == ""@,
        !means_yes(line@) ==> r.1 is Stop && r.0@ == "Aborted.\n"@,
        all_ascii(line@) ==> (r.1 is Delete <==> ascii_means_yes(line@)),
{
    if is_yes(line) {
        ("".to_owned(), CleanStep::Delete)
    } else {
        ("Aborted.\n".to_owned(), CleanStep::Stop)
    }
}

/// What came of the deletions.
#[derive(Debug)]
pub struct Tally {
    /// How many directories are gone.
    pub deleted: usize,
    /// How many bytes that frees.
    pub freed: u64,
    /// Which deletions failed, and why.
    pub failures: Vec<String>,
}

/// The entries that are gone, by how their deletions went.
pub open spec fn gone(found: Seq<EntryView>, outcomes: Seq<DeleteOutcome>) -> Seq<EntryView>
    decreases found.len(),
{
    if found.len() == 0 || outcomes.len() < found.len() {
        Seq::empty()
    } else {
        let before = gone(found.drop_last(), outcomes);
        match outcomes[found.len() - 1] {
            DeleteOutcome::Failed(_) => before,
            _ => before.push(found.last()),
        }
    }
}

/// What is said of the deletions that failed.
pub open spec fn failures_of(found: Seq<EntryView>, outcomes: Seq<DeleteOutcome>) -> Seq<Seq<char>>
    decreases found.len(),
{
    if found.len() == 0 || outcomes.len() < found.len() {
        Seq::empty()
    } else {
        let before = failures_of(found.drop_last(), outcomes);
        match outcomes[found.len() - 1] {
            DeleteOutcome::Failed(reason) => before.push(
                lossy_text(found.last().target_dir) + ": "@ + reason@,
            ),
            _ => before,
        }
    }
}

/// Counts what came of deleting the entries at the given indices. A directory
/// that was not there counts as deleted.
pub fn tally(
    entries: &Vec<TargetEntry>,
    found: &Vec<usize>,
    outcomes: &Vec<DeleteOutcome>,
) -> (r: Tally)
    requires
        in_range(found@, entries@.len()),
        outcomes@.len() == found@.len(),
    ensures
        ({
            let all = picked(entries_view(entries@), found@);
            &&& r.deleted == gone(all, outcomes@).len()
            &&& r.freed == total_of(gone(all, outcomes@))
            &&& strings_view(r.failures@) == failures_of(all, outcomes@)
        }),
{
    let ghost all = picked(entries_view(entries@), found@);
    let mut deleted: usize = 0;
    let mut freed: u64 = 0;
    let mut failures: Vec<String> = Vec::new();
    assert(all.take(0) =~= Seq::<EntryView>::empty());
    assert(strings_view(failures@) =~= Seq::<Seq<char>>::empty());
    for k in 0..found.len()
        invariant
            in_range(found@, entries@.len()),
            all == picked(entries_view(entries@), found@),
            outcomes@.len() == found@.len(),
            deleted <= k,
            deleted == gone(all.take(k as int), outcomes@).len(),
            freed == size_sum(gone(all.take(k as int), outcomes@)) % 0x1_0000_0000_0000_0000,
            strings_view(failures@) == failures_of(all.take(k as int), outcomes@),
    {
        let ghost now = all.take(k + 1);
        let i: usize = found[k];
        assert(now.drop_last() =~= all.take(k as int));
        assert(now.last() == entries@[i as int]@);
        match &outcomes[k] {
            DeleteOutcome::Failed(reason) => {
                let mut text: Vec<char> = Vec::new();
                push_str(&mut text, entries[i].target_dir.to_text().as_str());
                push_str(&mut text, ": ");
                push_str(&mut text, reason.as_str());
                let ghost said = lossy_text(now.last().target_dir) + ": "@ + reason@;
                assert(text@ =~= said);
                let ghost before = failures@;
                failures.push(string_of(text.as_slice()));
                assert(strings_view(failures@) =~= strings_view(before).push(said));
            },
            _ => {
                let ghost list = gone(now, outcomes@);
                assert(list.drop_last() =~= gone(all.take(k as int), outcomes@));
                assert(list.last() == now.last());
                deleted = deleted + 1;
                if let Some(n) = entries[i].size {
                    freed = freed.wrapping_add(n);
                }
            },
        }
    }
    assert(all.take(all.len() as int) =~= all);
    Tally { deleted, freed, failures }
}

/// What `clean` writes in the end.
pub open spec fn outcome_of(deleted: nat, freed: u64) -> Seq<char> {
    "Deleted "@ + decimal(deleted) + " directories, freed "@ + formatted_size(freed) + ".\n"@
}

/// Writes what came of the deletions.
pub fn clean_outcome(t: &Tally) -> (r: String)
    ensures
        r@ == outcome_of(t.deleted as nat, t.freed),
{
    let mut out: Vec<char> = Vec::new();
    push_str(&mut out, "Deleted ");
    let digits = write_decimal(t.deleted as u64);
    push_all(&mut out, digits.as_slice());
    push_str(&mut out, " directories, freed ");
    push_str(&mut out, format_size(t.freed).as_str());
    push_str(&mut out, ".\n");
    assert(out@ =~= outcome_of(t.deleted as nat, t.freed));
    string_of(out.as_slice())
}

/// The error that `clean` ends with, if any deletion failed.
pub fn clean_failure(t: &Tally) -> (r: Option<String>)
    ensures
        text_view(r) == if t.failures@.len() == 0 {
            None
        } else {
            Some("failed to delete "@ + decimal(t.failures@.len()) + " directories"@)
        },
{
    let n: usize = t.failures.len();
    if n == 0 {
        return None;
    }
    let mut out: Vec<char> = Vec::new();
    push_str(&mut out, "failed to delete ");
    let digits = write_decimal(n as u64);
    push_all(&mut out, digits.as_slice());
    push_str(&mut out, " directories");
    assert(out@ =~= "failed to delete "@ + decimal(n as nat) + " directories"@);
    Some(string_of(out.as_slice()))
}

/// Law: every deletion either frees a directory or is reported as failed.
pub proof fn law_tally_complete(found: Seq<EntryView>, outcomes: Seq<DeleteOutcome>)
    requires
        outcomes.len() >= found.len(),
    ensures
        gone(found, outcomes).len() + failures_of(found, outcomes).len() == found.len(),
    decreases found.len(),
{
    if found.len() > 0 {
        law_tally_complete(found.drop_last(), outcomes);
    }
}

/// Law: an entry is cleaned exactly if it is larger than the limit of size and was
/// not modified for longer than the limit of age, as far as there are limits. One
/// that is not measured meets no limit of size, one without a time none of age.
pub proof fn law_candidate(
    e: EntryView,
    now: Timestamp,
    min_age: Option<u64>,
    min_size: Option<u64>,
)
    ensures
        candidate(e, now, min_age, min_size) <==> {
            &&& match (min_size, e.size) {
                (None, _) => true,
                (Some(limit), Some(n)) => limit < n,
                (Some(_), None) => false,
            }
            &&& match (min_age, e.last_modified) {
                (None, _) => true,
                (Some(limit), Some(m)) => m < now && now - m > limit * 1_000_000_000,
                (Some(_), None) => false,
            }
        },
{
}

/// Law: a higher limit never picks more, and a later look never fewer.
pub proof fn law_limits_narrow(
    e: EntryView,
    now: Timestamp,
    later: Timestamp,
    low: u64,
    high: u64,
)
    requires
        low <= high,
        now <= later,
    ensures
        candidate(e, now, None, Some(high)) ==> candidate(e, now, None, Some(low)),
        candidate(e, now, Some(high), None) ==> candidate(e, now, Some(low), None),
        candidate(e, now, Some(low), Some(low)) ==> candidate(e, later, Some(low), Some(low)),
{
    assert(low * 1_000_000_000 <= high * 1_000_000_000) by (nonlinear_arith)
        requires
            low <= high,
    ;
}

/// Law: without any limit the limits are thirty days and a hundred megabytes; one
/// that is passed stands alone, and both stand as they were passed.
pub proof fn law_default_limits(older: Seq<char>, larger: Seq<char>)
    ensures
        limits_of(None, None) == (Some("30d"@), Some("100MB"@)),
        limits_of(Some(older), None) == (Some(older), None::<Seq<char>>),
        limits_of(None, Some(larger)) == (None::<Seq<char>>, Some(larger)),
        limits_of(Some(older), Some(larger)) == (Some(older), Some(larger)),
{
}

/// Law: the default limits come to 2592000 seconds and to a hundred times 1024
/// times 1024 bytes.
pub proof fn law_default_limits_in_numbers(k: nat, age: Number, size: Number)
    requires
        age matches Number::Finite { negative: false, mantissa, exponent } && mantissa == 30
            * pow2(k) && exponent == -k,
        size matches Number::Finite { negative: false, mantissa, exponent } && mantissa == 100
            * pow2(k) && exponent == -k,
    ensures
        age_in_seconds(ascii_age_parts("30d"@), age) == Ok::<u64, QuantityError>(2_592_000),
        size_of(ascii_size_parts("100MB"@), size) == Ok::<u64, QuantityError>(104_857_600),
{
    reveal_strlit("30d");
    reveal_strlit("100MB");
    reveal_strlit("d");
    reveal_strlit("MB");
    let none = Seq::<char>::empty();
    let thirty = seq!['3', '0'];
    let hundred = seq!['1', '0', '0'];
    law_quantity_parts(none, thirty, none, seq!['d'], none);
    law_quantity_parts(none, hundred, none, seq!['M', 'B'], none);
    assert(none + (thirty + none + seq!['d']) + none =~= "30d"@);
    assert(none + (hundred + none + seq!['M', 'B']) + none =~= "100MB"@);
    assert(seq!['d'].map_values(|c: char| crate::text::ascii_lower(c)) =~= "d"@);
    assert(seq!['M', 'B'].map_values(|c: char| crate::quantity::ascii_upper(c)) =~= "MB"@);
    if let Number::Finite { mantissa, exponent, .. } = age {
        law_whole_ages(thirty, 30, k, mantissa, exponent);
    }
    if let Number::Finite { mantissa, exponent, .. } = size {
        law_whole_sizes(hundred, 100, k, mantissa, exponent);
    }
}

/// Law: the limits that `clean` works with are what their texts come to, each its
/// own; one that was not passed is none. If one is rejected there is no plan, and
/// the error is that of the age if both are.
pub proof fn law_plan(
    age: Option<Seq<char>>,
    size: Option<Seq<char>>,
    age_number: Number,
    size_number: Number,
)
    ensures
        ({
            let a = age_in_seconds(age_parts_of(age->0), age_number);
            let s = size_of(size_parts_of(size->0), size_number);
            let r = plan_of(age, size, age_number, size_number);
            &&& age is Some && a is Err ==> r == Err::<
                (Option<u64>, Option<u64>, Seq<char>),
                Seq<char>,
            >(age_error_of(a->Err_0, age->0))
            &&& (age is None || a is Ok) && size is Some && s is Err ==> r == Err::<
                (Option<u64>, Option<u64>, Seq<char>),
                Seq<char>,
            >(size_error_of(s->Err_0, size->0))
            &&& (age is None || a is Ok) && (size is None || s is Ok) ==> (r matches Ok(p) && {
                &&& age is None ==> p.0 is None
                &&& age is Some ==> p.0 == Some(a->Ok_0)
                &&& size is None ==> p.1 is None
                &&& size is Some ==> p.1 == Some(s->Ok_0)
                &&& p.2 == description_of(age, size)
            })
        }),
{
}

/// Law: what is looked for is said with the limits as they were written, the age
/// first.
pub proof fn law_description(a: Seq<char>, s: Seq<char>)
    ensures
        description_of(Some(a), None) == "older than "@ + a,
        description_of(None, Some(s)) == "larger than "@ + s,
        description_of(Some(a), Some(s)) == description_of(Some(a), None) + " and "@
            + description_of(None, Some(s)),
{
    assert(description_of(Some(a), Some(s)) =~= description_of(Some(a), None) + " and "@
        + description_of(None, Some(s)));
}

/// Law: a row of the report shows the project's name, the size, the time and the
/// output directory of its entry.
pub proof fn law_report_row(
    e: EntryView,
    mark: MarkView,
    home: Option<Seq<u8>>,
    now: Timestamp,
)
    ensures
        ({
            let r = report_row_of(e, mark, home, now);
            &&& mark.suffix is None ==> r.name == project_name_of(e.project_path)
            &&& mark.suffix matches Some(s) ==> r.name == project_name_of(e.project_path) + s
            &&& e.size is None ==> r.size == "-"@ && r.modified == "-"@
            &&& e.size matches Some(n) ==> r.size == formatted_size(n)
            &&& e.size is Some && e.last_modified is None ==> r.modified == "deleted"@
            &&& mark.place is None ==> r.path == shown_path(e.target_dir, home)
            &&& mark.place matches Some(p) ==> r.path == shown_path(p, home)
        }),
{
}

/// Law: there is one row for each entry that was picked, in the order of the picks,
/// with the mark of that entry.
pub proof fn law_report_rows(
    entries: Seq<EntryView>,
    picks: Seq<usize>,
    marks: Seq<Mark>,
    home: Option<Seq<u8>>,
    now: Timestamp,
    k: int,
)
    requires
        0 <= k < picks.len(),
    ensures
        ({
            let rows = report_rows_of(entries, picks, marks, home, now);
            let i = picks[k] as int;
            &&& rows.len() == picks.len()
            &&& i < marks.len() ==> rows[k] == report_row_of(entries[i], marks[i]@, home, now)
            &&& i >= marks.len() ==> rows[k] == report_row_of(
                entries[i],
                MarkView { place: None, suffix: None },
                home,
                now,
            )
        }),
{
}

/// Law: every column is as wide as its widest cell or its heading, and no wider.
pub proof fn law_widths(rows: Seq<ReportRowView>)
    ensures
        ({
            let w = widths(rows);
            &&& w.0 >= 7 && w.1 >= 4 && w.2 >= 8
            &&& forall|i: int|
                0 <= i < rows.len() ==> w.0 >= encode_utf8((#[trigger] rows[i]).name).len() && w.1
                    >= encode_utf8(rows[i].size).len() && w.2 >= encode_utf8(
                    rows[i].modified,
                ).len()
            &&& w.0 > 7 ==> exists|i: int|
                0 <= i < rows.len() && encode_utf8((#[trigger] rows[i]).name).len() == w.0
            &&& w.1 > 4 ==> exists|i: int|
                0 <= i < rows.len() && encode_utf8((#[trigger] rows[i]).size).len() == w.1
            &&& w.2 > 8 ==> exists|i: int|
                0 <= i < rows.len() && encode_utf8((#[trigger] rows[i]).modified).len() == w.2
        }),
    decreases rows.len(),
{
    if rows.len() > 0 {
        let d = rows.drop_last();
        law_widths(d);
        let w = widths(rows);
        let u = widths(d);
        let last = rows.len() - 1;
        assert forall|i: int| 0 <= i < rows.len() implies w.0 >= encode_utf8(
            (#[trigger] rows[i]).name,
        ).len() && w.1 >= encode_utf8(rows[i].size).len() && w.2 >= encode_utf8(
            rows[i].modified,
        ).len() by {
            if i < last {
                assert(d[i] == rows[i]);
            }
        }
        assert(rows[last] == rows.last());
        if w.0 > 7 && w.0 == u.0 {
            let i = choose|i: int|
                0 <= i < d.len() && encode_utf8((#[trigger] d[i]).name).len() == u.0;
            assert(rows[i] == d[i]);
        }
        if w.1 > 4 && w.1 == u.1 {
            let i = choose|i: int|
                0 <= i < d.len() && encode_utf8((#[trigger] d[i]).size).len() == u.1;
            assert(rows[i] == d[i]);
        }
        if w.2 > 8 && w.2 == u.2 {
            let i = choose|i: int|
                0 <= i < d.len() && encode_utf8((#[trigger] d[i]).modified).len() == u.2;
            assert(rows[i] == d[i]);
        }
    }
}

/// Law: in a line the columns follow each other: the name from the left, the size up
/// to the right of its column, the time from the left of the next, then the path up
/// to the end of the line.
pub proof fn law_report_line(r: ReportRowView, w: (nat, nat, nat))
    requires
        r.name.len() <= w.0,
        r.size.len() <= w.1,
        r.modified.len() <= w.2,
    ensures
        ({
            let line = report_line(r, w);
            let size_end = w.0 + 1 + w.1;
            let time = size_end + 1;
            let path = time + w.2 + 1;
            &&& line.len() == path + r.path.len() + 1
            &&& line.subrange(0, r.name.len() as int) == r.name
            &&& line.subrange(size_end - r.size.len(), size_end as int) == r.size
            &&& line.subrange(time as int, (time + r.modified.len()) as int) == r.modified
            &&& line.subrange(path as int, (path + r.path.len()) as int) == r.path
            &&& line.last() == '\n'
            &&& line[w.0 as int] == ' ' && line[size_end as int] == ' ' && line[(time + w.2) as int] == ' '
        }),
{
    reveal_strlit(" ");
    reveal_strlit("\n");
    let line = report_line(r, w);
    let size_end = w.0 + 1 + w.1;
    let time = size_end + 1;
    let path = time + w.2 + 1;
    law_padded(r.name, w.0);
    law_padded(r.size, w.1);
    law_padded(r.modified, w.2);
    let a = padded_end(r.name, w.0);
    let b = padded_start(r.size, w.1);
    let c = padded_end(r.modified, w.2);
    assert(line == a + " "@ + b + " "@ + c + " "@ + r.path + "\n"@);
    assert(line.subrange(0, r.name.len() as int) =~= a.take(r.name.len() as int));
    assert(line.subrange(size_end - r.size.len(), size_end as int) =~= b.skip(w.1 - r.size.len()));
    assert(line.subrange(time as int, (time + r.modified.len()) as int) =~= c.take(
        r.modified.len() as int,
    ));
    assert(line.subrange(path as int, (path + r.path.len()) as int) =~= r.path);
}

/// Law: a report is its headings and one line for each row, in order.
pub proof fn law_report(rows: Seq<ReportRowView>, r: ReportRowView, w: (nat, nat, nat))
    ensures
        report_lines(Seq::<ReportRowView>::empty(), w) == Seq::<char>::empty(),
        report_lines(rows.push(r), w) == report_lines(rows, w) + report_line(r, w),
        report(rows) == report_line(
            ReportRowView {
                name: "PROJECT"@,
                size: "SIZE"@,
                modified: "MODIFIED"@,
                path: "PATH"@,
            },
            widths(rows),
        ) + report_lines(rows, widths(rows)),
{
    assert(rows.push(r).drop_last() =~= rows);
}

/// Law: `list` shows the visible rows, says how many they are and what they take up
/// together, and says so if nothing was found.
pub proof fn law_list(v: AppView, marks: Seq<Mark>, home: Option<Seq<u8>>, now: Timestamp)
    ensures
        ({
            let shown = picked(v.entries, v.visible());
            let said = list_of(v, marks, home, now);
            let size = formatted_size(total_of(shown));
            let table = report(report_rows_of(v.entries, v.visible(), marks, home, now));
            &&& v.entries.len() == 0 ==> said == "No target/ directories found.\n"@
            &&& v.entries.len() > 0 && shown.len() == 1 ==> said == table + "\n"@ + decimal(1)
                + " project"@ + " · "@ + size + " total\n"@
            &&& v.entries.len() > 0 && shown.len() != 1 ==> said == table + "\n"@ + decimal(
                shown.len(),
            ) + " projects"@ + " · "@ + size + " total\n"@
            &&& shown.len() == v.visible().len()
        }),
{
    reveal_strlit("");
    reveal_strlit("s");
    reveal_strlit(" project");
    reveal_strlit(" projects");
    let shown = picked(v.entries, v.visible());
    let size = formatted_size(total_of(shown));
    let table = report(report_rows_of(v.entries, v.visible(), marks, home, now));
    assert(" project"@ + ""@ =~= " project"@);
    assert(" project"@ + "s"@ =~= " projects"@);
    if v.entries.len() > 0 {
        if shown.len() == 1 {
            assert(list_of(v, marks, home, now) =~= table + "\n"@ + decimal(1) + (" project"@ + ""@)
                + " · "@ + size + " total\n"@);
        } else {
            assert(list_of(v, marks, home, now) =~= table + "\n"@ + decimal(shown.len()) + (
            " project"@ + "s"@) + " · "@ + size + " total\n"@);
        }
    }
}

/// Law: `clean` says what it looked for, shows every candidate, how many there are
/// and what they take up together, or that there is none.
pub proof fn law_clean_report(
    entries: Seq<EntryView>,
    found: Seq<usize>,
    marks: Seq<Mark>,
    home: Option<Seq<u8>>,
    now: Timestamp,
    what: Seq<char>,
)
    ensures
        ({
            let said = clean_report_of(entries, found, marks, home, now, what);
            let table = report(report_rows_of(entries, found, marks, home, now));
            let size = formatted_size(total_of(picked(entries, found)));
            let top = "Candidates "@ + what + ":\n"@ + table + "\n"@ + decimal(found.len());
            &&& found.len() == 0 ==> said == "Nothing to clean: no target/ dirs "@ + what + ".\n"@
            &&& found.len() == 1 ==> said == top + " directory"@ + " · "@ + size
                + " reclaimable\n"@
            &&& found.len() > 1 ==> said == top + " directories"@ + " · "@ + size
                + " reclaimable\n"@
        }),
{
    reveal_strlit("y");
    reveal_strlit("ies");
    reveal_strlit(" director");
    reveal_strlit(" directory");
    reveal_strlit(" directories");
    let said = clean_report_of(entries, found, marks, home, now, what);
    let table = report(report_rows_of(entries, found, marks, home, now));
    let size = formatted_size(total_of(picked(entries, found)));
    let top = "Candidates "@ + what + ":\n"@ + table + "\n"@ + decimal(found.len());
    assert(" director"@ + "y"@ =~= " directory"@);
    assert(" director"@ + "ies"@ =~= " directories"@);
    if found.len() == 1 {
        assert(said =~= top + (" director"@ + "y"@) + " · "@ + size + " reclaimable\n"@);
    } else if found.len() > 1 {
        assert(said =~= top + (" director"@ + "ies"@) + " · "@ + size + " reclaimable\n"@);
    }
}

/// Law: a deletion that did not fail counts as done, and its size as freed, whether
/// or not the directory was there; one that failed is named with its reason and
/// frees nothing.
pub proof fn law_tally(
    found: Seq<EntryView>,
    outcomes: Seq<DeleteOutcome>,
    e: EntryView,
    reason: String,
)
    requires
        outcomes.len() == found.len(),
    ensures
        gone(found.push(e), outcomes.push(DeleteOutcome::Removed)) == gone(found, outcomes).push(e),
        gone(found.push(e), outcomes.push(DeleteOutcome::Missing)) == gone(found, outcomes).push(e),
        gone(found.push(e), outcomes.push(DeleteOutcome::Failed(reason))) == gone(found, outcomes),
        failures_of(found.push(e), outcomes.push(DeleteOutcome::Removed)) == failures_of(
            found,
            outcomes,
        ),
        failures_of(found.push(e), outcomes.push(DeleteOutcome::Missing)) == failures_of(
            found,
            outcomes,
        ),
        failures_of(found.push(e), outcomes.push(DeleteOutcome::Failed(reason))) == failures_of(
            found,
            outcomes,
        ).push(lossy_text(e.target_dir) + ": "@ + reason@),
        gone(Seq::empty(), Seq::empty()).len() == 0,
        failures_of(Seq::empty(), Seq::empty()).len() == 0,
{
    assert(found.push(e).drop_last() =~= found);
    lemma_tally_prefix(found, outcomes, DeleteOutcome::Removed);
    lemma_tally_prefix(found, outcomes, DeleteOutcome::Missing);
    lemma_tally_prefix(found, outcomes, DeleteOutcome::Failed(reason));
}

/// What came of the first deletions does not depend on the next.
proof fn lemma_tally_prefix(
    found: Seq<EntryView>,
    outcomes: Seq<DeleteOutcome>,
    next: DeleteOutcome,
)
    requires
        outcomes.len() >= found.len(),
    ensures
        gone(found, outcomes.push(next)) == gone(found, outcomes),
        failures_of(found, outcomes.push(next)) == failures_of(found, outcomes),
    decreases found.len(),
{
    if found.len() > 0 {
        lemma_tally_prefix(found.drop_last(), outcomes, next);
    }
}

/// Law: in the end `clean` says how many directories are gone and how much that
/// frees.
pub proof fn law_outcome(deleted: nat, freed: u64)
    ensures
        outcome_of(deleted, freed) == "Deleted "@ + decimal(deleted) + " directories, freed "@
            + formatted_size(freed) + ".\n"@,
{
}

/// Law: a name is shown alone, or with what tells its row apart behind it.
pub proof fn law_label(e: EntryView, suffix: Seq<char>)
    ensures
        label_of(e, None) == project_name_of(e.project_path),
        label_of(e, Some(suffix)) == project_name_of(e.project_path) + suffix,
{
}

} // verus!
