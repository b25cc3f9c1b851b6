//! What the screen shows, as text and styles.
use vstd::prelude::*;

use crate::app::{in_range, picked, sum_picked, total_of, App, AppView};
use crate::file_path::{path_view, FilePath};
use crate::order::key_label;
use crate::scan::{project_name_of, EntryView, TargetEntry, Timestamp};
use crate::text::{chars_of, decimal, push_all, push_str, string_of, write_decimal};
use crate::ui::format::{
    display_path, entry_modified, format_modified_entry, format_size, format_size_opt,
    formatted_size, formatted_size_opt, heat_of, shown_path, size_style, Heat,
};

verus! {

/// The colors of text.
#[derive(Clone, Copy, Debug, PartialEq, Eq, Structural)]
pub enum Color {
    /// The color of the terminal.
    Plain,
    Green,
    Muted,
    Dim,
    Mint,
    Rose,
}

/// A stretch of text in one style.
#[derive(Debug)]
pub struct Span {
    pub text: String,
    pub color: Color,
    pub bold: bool,
}

/// What a `Span` says.
#[verifier::ext_equal]
pub struct SpanView {
    pub text: Seq<char>,
    pub color: Color,
    pub bold: bool,
}

impl View for Span {
    type V = SpanView;

    open spec fn view(&self) -> SpanView {
        SpanView { text: self.text@, color: self.color, bold: self.bold }
    }
}

/// What a list of spans says.
pub open spec fn spans_view(v: Seq<Span>) -> Seq<SpanView> {
    v.map_values(|s: Span| s@)
}

/// A span.
pub open spec fn span_of(text: Seq<char>, color: Color, bold: bool) -> SpanView {
    SpanView { text, color, bold }
}

/// Appends a span.
fn push_span(out: &mut Vec<Span>, text: String, color: Color, bold: bool)
    ensures
        spans_view(final(out)@) == spans_view(old(out)@).push(span_of(text@, color, bold)),
{
    let ghost before = out@;
    let ghost view = span_of(text@, color, bold);
    out.push(Span { text, color, bold });
    assert(spans_view(out@) =~= spans_view(before).push(view));
}

/// The canonical forms of the paths on screen, where they have any, and of
/// the home directory. The forms of the rows stand at the rows' indices.
#[derive(Debug)]
pub struct Places {
    pub home: Option<FilePath>,
    pub root: Option<FilePath>,
    pub cache: Option<FilePath>,
    pub rows: Vec<Option<FilePath>>,
}

/// A path as it is shown: its canonical form, or itself where it has none.
pub open spec fn placed(path: Seq<u8>, canonical: Option<Seq<u8>>) -> Seq<u8> {
    match canonical {
        Some(c) => c,
        None => path,
    }
}

/// The canonical form of the `i`-th row, if it is known.
pub open spec fn row_place(rows: Seq<Option<FilePath>>, i: int) -> Option<Seq<u8>> {
    if 0 <= i < rows.len() {
        path_view(rows[i])
    } else {
        None
    }
}

/// Writes a path by its canonical form.
fn show_path(path: &FilePath, canonical: &Option<FilePath>, home: &Option<FilePath>) -> (s: String)
    ensures
        s@ == shown_path(placed(path@, path_view(*canonical)), path_view(*home)),
{
    match canonical {
        Some(c) => display_path(c, home),
        None => display_path(path, home),
    }
}

/// How many projects there are and how much they take up; with a filter, how
/// many of them it shows.
pub open spec fn counts_of(v: AppView) -> Seq<char> {
    let shown = v.visible();
    let all = v.entries.len();
    if v.filter_regex is Some {
        decimal(shown.len()) + " of "@ + decimal(all) + " projects · "@ + formatted_size(
            total_of(picked(v.entries, shown)),
        ) + " shown"@
    } else {
        decimal(all) + " project"@ + (if all == 1 {
            ""@
        } else {
            "s"@
        }) + " · "@ + formatted_size(v.total_size) + " total"@
    }
}

/// Writes how many projects there are and how much they take up.
fn counts(app: &App, visible: &Vec<usize>) -> (r: String)
    requires
        visible@ == app@.visible(),
        in_range(visible@, app.entries@.len()),
    ensures
        r@ == counts_of(app@),
{
    let mut out: Vec<char> = Vec::new();
    let all: usize = app.entries.len();
    let total = write_decimal(all as u64);
    if app.filter_regex.is_some() {
        let shown = write_decimal(visible.len() as u64);
        push_all(&mut out, shown.as_slice());
        push_str(&mut out, " of ");
        push_all(&mut out, total.as_slice());
        push_str(&mut out, " projects · ");
        push_str(&mut out, format_size(sum_picked(&app.entries, visible)).as_str());
        push_str(&mut out, " shown");
    } else {
        push_all(&mut out, total.as_slice());
        push_str(&mut out, " project");
        push_str(
            &mut out,
            if all == 1 {
                ""
            } else {
                "s"
            },
        );
        push_str(&mut out, " · ");
        push_str(&mut out, format_size(app.total_size).as_str());
        push_str(&mut out, " total");
    }
    assert(out@ =~= counts_of(app@));
    string_of(out.as_slice())
}

/// The summary: the directory that is scanned, and the counts.
pub open spec fn summary_of(v: AppView, root: Option<Seq<u8>>, home: Option<Seq<u8>>) -> Seq<
    SpanView,
> {
    seq![
        span_of(shown_path(placed(v.root, root), home), Color::Green, true),
        span_of(" · "@ + counts_of(v), Color::Plain, false),
    ]
}

/// Writes the summary.
fn summary(app: &App, visible: &Vec<usize>, places: &Places) -> (r: Vec<Span>)
    requires
        visible@ == app@.visible(),
        in_range(visible@, app.entries@.len()),
    ensures
        spans_view(r@) == summary_of(app@, path_view(places.root), path_view(places.home)),
{
    let mut r: Vec<Span> = Vec::new();
    assert(spans_view(r@) =~= Seq::<SpanView>::empty());
    push_span(&mut r, show_path(&app.root, &places.root, &places.home), Color::Green, true);
    let mut text: Vec<char> = Vec::new();
    push_str(&mut text, " · ");
    push_str(&mut text, counts(app, visible).as_str());
    assert(text@ =~= " · "@ + counts_of(app@));
    push_span(&mut r, string_of(text.as_slice()), Color::Plain, false);
    assert(spans_view(r@) =~= summary_of(app@, path_view(places.root), path_view(places.home)));
    r
}

/// The line on the build cache: what was measured of it, or that it is being
/// measured, or that it is not there.
pub open spec fn cache_line_of(
    v: AppView,
    place: Option<Seq<u8>>,
    home: Option<Seq<u8>>,
    now: Timestamp,
) -> Seq<char> {
    match v.build_cache {
        Some(e) => formatted_size_opt(e.size) + " ("@ + entry_modified(e, now) + ")  "@
            + shown_path(placed(e.target_dir, place), home),
        None => if v.scanning {
            "Measuring…"@
        } else {
            match v.build_cache_path {
                Some(p) => "not present: "@ + shown_path(placed(p, place), home),
                None => "no cargo home found"@,
            }
        },
    }
}

/// Writes the line on the build cache.
pub fn render_build_cache(app: &App, places: &Places, now: Timestamp) -> (r: String)
    ensures
        r@ == cache_line_of(app@, path_view(places.cache), path_view(places.home), now),
{
    let mut out: Vec<char> = Vec::new();
    match &app.build_cache {
        Some(e) => {
            push_str(&mut out, format_size_opt(e.size).as_str());
            push_str(&mut out, " (");
            push_str(&mut out, format_modified_entry(e, now).as_str());
            push_str(&mut out, ")  ");
            push_str(&mut out, show_path(&e.target_dir, &places.cache, &places.home).as_str());
        },
        None => {
            if app.scanning {
                push_str(&mut out, "Measuring…");
            } else {
                match &app.build_cache_path {
                    Some(p) => {
                        push_str(&mut out, "not present: ");
                        push_str(&mut out, show_path(p, &places.cache, &places.home).as_str());
                    },
                    None => {
                        push_str(&mut out, "no cargo home found");
                    },
                }
            }
        },
    }
    assert(out@ =~= cache_line_of(app@, path_view(places.cache), path_view(places.home), now));
    string_of(out.as_slice())
}

/// The headings of the columns of the table.
pub const NAME_HEADING: &'static str = "PROJECT";

pub const SIZE_HEADING: &'static str = "SIZE";

pub const MODIFIED_HEADING: &'static str = "MODIFIED";

pub const PATH_HEADING: &'static str = "PATH";

/// What stands before the selected row.
pub const SELECTION_MARK: &'static str = "▶ ";

/// A row of the table.
#[derive(Debug)]
pub struct Row {
    pub name: String,
    /// Whether the row is selected. Its name is bold then.
    pub selected: bool,
    pub size: String,
    pub heat: Heat,
    pub modified: String,
    pub path: String,
    /// Whether the directory is gone. The row is dim then.
    pub deleted: bool,
}

/// What a `Row` says.
#[verifier::ext_equal]
pub struct RowView {
    pub name: Seq<char>,
    pub selected: bool,
    pub size: Seq<char>,
    pub heat: Heat,
    pub modified: Seq<char>,
    pub path: Seq<char>,
    pub deleted: bool,
}

impl View for Row {
    type V = RowView;

    open spec fn view(&self) -> RowView {
        RowView {
            name: self.name@,
            selected: self.selected,
            size: self.size@,
            heat: self.heat,
            modified: self.modified@,
            path: self.path@,
            deleted: self.deleted,
        }
    }
}

/// What a list of rows says.
pub open spec fn rows_view(v: Seq<Row>) -> Seq<RowView> {
    v.map_values(|r: Row| r@)
}

/// The row of an entry.
pub open spec fn row_for(
    e: EntryView,
    selected: bool,
    place: Option<Seq<u8>>,
    home: Option<Seq<u8>>,
    now: Timestamp,
) -> RowView {
    RowView {
        name: project_name_of(e.project_path),
        selected,
        size: formatted_size_opt(e.size),
        heat: heat_of(e.size),
        modified: entry_modified(e, now),
        path: shown_path(placed(e.target_dir, place), home),
        deleted: e.size is Some && e.last_modified is None,
    }
}

/// The rows of the table: the visible entries in order.
pub open spec fn table_of(
    v: AppView,
    places: Seq<Option<FilePath>>,
    home: Option<Seq<u8>>,
    now: Timestamp,
) -> Seq<RowView> {
    v.visible().map(
        |k: int, i: usize|
            row_for(
                v.entries[i as int],
                v.table_state.selected == Some(k as usize),
                row_place(places, i as int),
                home,
                now,
            ),
    )
}

/// Writes the row of an entry.
fn table_row(
    e: &TargetEntry,
    selected: bool,
    place: &Option<FilePath>,
    home: &Option<FilePath>,
    now: Timestamp,
) -> (r: Row)
    ensures
        r@ == row_for(e@, selected, path_view(*place), path_view(*home), now),
{
    Row {
        name: e.project_name(),
        selected,
        size: format_size_opt(e.size),
        heat: size_style(e.size),
        modified: format_modified_entry(e, now),
        path: show_path(&e.target_dir, place, home),
        deleted: e.size.is_some() && e.last_modified.is_none(),
    }
}

/// Writes the rows of the table.
fn table_rows(app: &App, visible: &Vec<usize>, places: &Places, now: Timestamp) -> (r: Vec<Row>)
    requires
        visible@ == app@.visible(),
        in_range(visible@, app.entries@.len()),
    ensures
        rows_view(r@) == table_of(app@, places.rows@, path_view(places.home), now),
{
    let ghost v = app@;
    let ghost full = table_of(v, places.rows@, path_view(places.home), now);
    let none: Option<FilePath> = None;
    let mut r: Vec<Row> = Vec::new();
    assert(rows_view(r@) =~= full.take(0));
    for k in 0..visible.len()
        invariant
            in_range(visible@, app.entries@.len()),
            v == app@,
            visible@ == v.visible(),
            none is None,
            full == table_of(v, places.rows@, path_view(places.home), now),
            rows_view(r@) == full.take(k as int),
    {
        let i: usize = visible[k];
        assert(v.entries[i as int] == app.entries@[i as int]@);
        let selected: bool = match app.table_state.selected {
            Some(s) => s == k,
            None => false,
        };
        let place: &Option<FilePath> = if i < places.rows.len() {
            &places.rows[i]
        } else {
            &none
        };
        let ghost before = r@;
        r.push(table_row(&app.entries[i], selected, place, &places.home, now));
        assert(rows_view(r@) =~= rows_view(before).push(full[k as int]));
        assert(rows_view(r@) =~= full.take(k + 1));
    }
    assert(full.take(full.len() as int) =~= full);
    r
}

/// What the middle of the screen shows.
#[derive(Debug)]
pub enum Body {
    /// That a scan is running which has found nothing yet.
    Scanning,
    /// That nothing was found, or that nothing passes the filter.
    Message(String),
    /// The table.
    Table(Vec<Row>),
}

/// What a `Body` says.
#[verifier::ext_equal]
pub enum BodyView {
    Scanning,
    Message(Seq<char>),
    Table(Seq<RowView>),
}

impl View for Body {
    type V = BodyView;

    open spec fn view(&self) -> BodyView {
        match self {
            Body::Scanning => BodyView::Scanning,
            Body::Message(m) => BodyView::Message(m@),
            Body::Table(t) => BodyView::Table(rows_view(t@)),
        }
    }
}

/// What the middle of the screen shows: the table, or why there is none.
pub open spec fn body_of(
    v: AppView,
    places: Seq<Option<FilePath>>,
    home: Option<Seq<u8>>,
    now: Timestamp,
) -> BodyView {
    if v.entries.len() == 0 {
        if v.scanning {
            BodyView::Scanning
        } else {
            BodyView::Message("No target/ directories found."@)
        }
    } else if v.visible().len() == 0 {
        BodyView::Message("No match for /"@ + v.filter_text + "."@)
    } else {
        BodyView::Table(table_of(v, places, home, now))
    }
}

/// Picks what the middle of the screen shows.
fn body(app: &App, visible: &Vec<usize>, places: &Places, now: Timestamp) -> (r: Body)
    requires
        visible@ == app@.visible(),
        in_range(visible@, app.entries@.len()),
    ensures
        r@ == body_of(app@, places.rows@, path_view(places.home), now),
{
    if app.entries.len() == 0 {
        if app.scanning {
            Body::Scanning
        } else {
            Body::Message("No target/ directories found.".to_owned())
        }
    } else if visible.len() == 0 {
        let mut out: Vec<char> = Vec::new();
        push_str(&mut out, "No match for /");
        push_str(&mut out, app.filter_text.as_str());
        push_str(&mut out, ".");
        assert(out@ =~= "No match for /"@ + app.filter_text@ + "."@);
        Body::Message(string_of(out.as_slice()))
    } else {
        Body::Table(table_rows(app, visible, places, now))
    }
}

/// A key and what it does: bright, dim, and a gap behind it.
pub open spec fn hint_of(key: Seq<char>, action: Seq<char>) -> Seq<SpanView> {
    seq![
        span_of(key, Color::Plain, true),
        span_of(" "@, Color::Plain, false),
        span_of(action, Color::Muted, false),
        span_of("  "@, Color::Plain, false),
    ]
}

/// Appends a key and what it does.
fn push_hint(out: &mut Vec<Span>, key: &str, action: &str)
    ensures
        spans_view(final(out)@) == spans_view(old(out)@) + hint_of(key@, action@),
{
    let ghost before = spans_view(out@);
    push_span(out, key.to_owned(), Color::Plain, true);
    push_span(out, " ".to_owned(), Color::Plain, false);
    push_span(out, action.to_owned(), Color::Muted, false);
    push_span(out, "  ".to_owned(), Color::Plain, false);
    assert(spans_view(out@) =~= before + hint_of(key@, action@));
}

/// The keys of the table, without the last gap.
pub open spec fn action_hints(v: AppView) -> Seq<SpanView> {
    (hint_of("↑↓"@, "Navigate"@) + hint_of("g/G"@, "Top/Bottom"@) + hint_of("/"@, "Filter"@)
        + hint_of("s"@, "Sort: "@ + key_label(v.sort)) + hint_of("r"@, "Rescan"@) + hint_of(
        "d"@,
        "Delete"@,
    ) + hint_of("q"@, "Quit"@)).drop_last()
}

/// A list with a gap before what follows, if anything stands in it.
pub open spec fn with_gap(s: Seq<SpanView>) -> Seq<SpanView> {
    if s.len() == 0 {
        s
    } else {
        s.push(span_of("  "@, Color::Plain, false))
    }
}

/// That a scan is running.
pub open spec fn status_scanning(v: AppView) -> Seq<SpanView> {
    if v.scanning {
        seq![span_of("Scanning…"@, Color::Mint, true)]
    } else {
        Seq::empty()
    }
}

/// That, and the filter.
pub open spec fn status_filter(v: AppView) -> Seq<SpanView> {
    let s = status_scanning(v);
    if v.filter_text.len() == 0 {
        s
    } else {
        with_gap(s).push(span_of("Filter: "@, Color::Muted, false)).push(
            span_of("/"@ + v.filter_text + "/"@, Color::Plain, true),
        )
    }
}

/// What goes on: a scan, a filter, a deletion that failed.
pub open spec fn status_of(v: AppView) -> Seq<SpanView> {
    let s = status_filter(v);
    match v.delete_error {
        Some(e) => with_gap(s).push(span_of("Delete failed: "@ + e, Color::Rose, false)),
        None => s,
    }
}

/// The two sides of the footer.
#[derive(Debug)]
pub struct Footer {
    pub left: Vec<Span>,
    pub right: Vec<Span>,
}

/// What a `Footer` says.
#[verifier::ext_equal]
pub struct FooterView {
    pub left: Seq<SpanView>,
    pub right: Seq<SpanView>,
}

impl View for Footer {
    type V = FooterView;

    open spec fn view(&self) -> FooterView {
        FooterView { left: spans_view(self.left@), right: spans_view(self.right@) }
    }
}

/// Appends a gap, if anything stands before it.
fn push_gap(out: &mut Vec<Span>)
    ensures
        spans_view(final(out)@) == with_gap(spans_view(old(out)@)),
{
    if out.len() > 0 {
        push_span(out, "  ".to_owned(), Color::Plain, false);
    }
}

/// Writes the keys of the table.
fn write_action_hints(app: &App) -> (left: Vec<Span>)
    ensures
        spans_view(left@) == action_hints(app@),
{
    let mut left: Vec<Span> = Vec::new();
    assert(spans_view(left@) =~= Seq::<SpanView>::empty());
    let mut sort: Vec<char> = Vec::new();
    push_str(&mut sort, "Sort: ");
    push_str(&mut sort, app.sort.label());
    assert(sort@ =~= "Sort: "@ + key_label(app.sort));
    push_hint(&mut left, "↑↓", "Navigate");
    push_hint(&mut left, "g/G", "Top/Bottom");
    push_hint(&mut left, "/", "Filter");
    push_hint(&mut left, "s", string_of(sort.as_slice()).as_str());
    push_hint(&mut left, "r", "Rescan");
    push_hint(&mut left, "d", "Delete");
    push_hint(&mut left, "q", "Quit");
    let ghost full = spans_view(left@);
    assert(full =~= hint_of("↑↓"@, "Navigate"@) + hint_of("g/G"@, "Top/Bottom"@) + hint_of(
        "/"@,
        "Filter"@,
    ) + hint_of("s"@, "Sort: "@ + key_label(app.sort)) + hint_of("r"@, "Rescan"@) + hint_of(
        "d"@,
        "Delete"@,
    ) + hint_of("q"@, "Quit"@));
    left.pop();
    assert(spans_view(left@) =~= full.drop_last());
    left
}

/// Writes what goes on.
fn write_status(app: &App) -> (right: Vec<Span>)
    ensures
        spans_view(right@) == status_of(app@),
{
    let mut right: Vec<Span> = Vec::new();
    assert(spans_view(right@) =~= Seq::<SpanView>::empty());
    if app.scanning {
        push_span(&mut right, "Scanning…".to_owned(), Color::Mint, true);
    }
    assert(spans_view(right@) =~= status_scanning(app@));
    if !app.filter_text.as_str().is_empty() {
        push_gap(&mut right);
        push_span(&mut right, "Filter: ".to_owned(), Color::Muted, false);
        push_span(&mut right, slashed(app.filter_text.as_str()), Color::Plain, true);
    }
    if let Some(e) = &app.delete_error {
        push_gap(&mut right);
        let mut text: Vec<char> = Vec::new();
        push_str(&mut text, "Delete failed: ");
        push_str(&mut text, e.as_str());
        assert(text@ =~= "Delete failed: "@ + e@);
        push_span(&mut right, string_of(text.as_slice()), Color::Rose, false);
    }
    right
}

/// A text between slashes.
fn slashed(text: &str) -> (r: String)
    ensures
        r@ == "/"@ + text@ + "/"@,
{
    let mut out: Vec<char> = Vec::new();
    push_str(&mut out, "/");
    push_str(&mut out, text);
    push_str(&mut out, "/");
    assert(out@ =~= "/"@ + text@ + "/"@);
    string_of(out.as_slice())
}

/// Writes the footer of the table: the keys, and what goes on.
pub fn footer_actions(app: &App) -> (r: Footer)
    ensures
        r@ == (FooterView { left: action_hints(app@), right: status_of(app@) }),
{
    Footer { left: write_action_hints(app), right: write_status(app) }
}

/// The filter that is being typed, and why it does not compile.
pub open spec fn filter_prompt(v: AppView) -> Seq<SpanView> {
    let typed = seq![span_of("/"@ + v.filter_text + "/"@, Color::Plain, true)];
    match v.filter_error {
        Some(e) => typed.push(span_of("  "@, Color::Plain, false)).push(
            span_of(e, Color::Rose, false),
        ),
        None => typed,
    }
}

/// The keys while a filter is typed, without the last gap.
pub open spec fn filter_hints() -> Seq<SpanView> {
    (hint_of("Enter"@, "Done"@) + hint_of("Esc"@, "Clear"@) + hint_of(
        "^U"@,
        "Clear"@,
    )).drop_last()
}

/// Writes the footer while a filter is typed.
pub fn footer_filter(app: &App) -> (r: Footer)
    ensures
        r@ == (FooterView { left: filter_prompt(app@), right: filter_hints() }),
{
    let mut left: Vec<Span> = Vec::new();
    assert(spans_view(left@) =~= Seq::<SpanView>::empty());
    push_span(&mut left, slashed(app.filter_text.as_str()), Color::Plain, true);
    if let Some(e) = &app.filter_error {
        push_span(&mut left, "  ".to_owned(), Color::Plain, false);
        push_span(&mut left, e.clone(), Color::Rose, false);
    }
    assert(spans_view(left@) =~= filter_prompt(app@));
    let mut right: Vec<Span> = Vec::new();
    assert(spans_view(right@) =~= Seq::<SpanView>::empty());
    push_hint(&mut right, "Enter", "Done");
    push_hint(&mut right, "Esc", "Clear");
    push_hint(&mut right, "^U", "Clear");
    let ghost full = spans_view(right@);
    assert(full =~= hint_of("Enter"@, "Done"@) + hint_of("Esc"@, "Clear"@) + hint_of(
        "^U"@,
        "Clear"@,
    ));
    right.pop();
    assert(spans_view(right@) =~= full.drop_last());
    Footer { left, right }
}

/// The footer.
pub open spec fn footer_of(v: AppView) -> FooterView {
    if v.filtering {
        FooterView { left: filter_prompt(v), right: filter_hints() }
    } else {
        FooterView { left: action_hints(v), right: status_of(v) }
    }
}

/// How many characters a list of spans has.
pub open spec fn span_chars(s: Seq<SpanView>) -> nat
    decreases s.len(),
{
    if s.len() == 0 {
        0
    } else {
        span_chars(s.drop_last()) + s.last().text.len()
    }
}

/// The width of the right side of the footer: that of its text in 16 bits,
/// and no more than there is.
pub open spec fn right_width_of(right: Seq<SpanView>, inner: u16) -> u16 {
    let n = span_chars(right) % 0x1_0000;
    if n < inner {
        n as u16
    } else {
        inner
    }
}

/// Computes the width of the right side of the footer.
pub fn right_width(right: &Vec<Span>, inner: u16) -> (r: u16)
    ensures
        r == right_width_of(spans_view(right@), inner),
{
    let ghost all = spans_view(right@);
    let mut n: u16 = 0;
    assert(all.take(0) =~= Seq::<SpanView>::empty());
    for i in 0..right.len()
        invariant
            all == spans_view(right@),
            n == span_chars(all.take(i as int)) % 0x1_0000,
    {
        assert(all.take(i + 1).drop_last() =~= all.take(i as int));
        assert(all.take(i + 1).last() == right@[i as int]@);
        let len: usize = chars_of(right[i].text.as_str()).len();
        let low: u16 = (len % 0x1_0000) as u16;
        n = n.wrapping_add(low);
    }
    assert(all.take(all.len() as int) =~= all);
    if n < inner {
        n
    } else {
        inner
    }
}

/// What the screen shows.
#[derive(Debug)]
pub struct Screen {
    pub summary: Vec<Span>,
    /// The line on the build cache, once that was measured. It takes half of
    /// the top of the screen then.
    pub cache: Option<String>,
    pub body: Body,
    pub footer: Footer,
}

/// The lines of a frame that hold no row of the table: three for the summary,
/// three for the footer, the two borders of the table and its headings.
pub const FRAME_CHROME: u16 = 9;

/// Computes how many rows of the table a frame of the given height shows.
pub fn page_rows(frame_height: u16) -> (n: usize)
    ensures
        n == rows_in(frame_height),
{
    if frame_height > FRAME_CHROME {
        (frame_height - FRAME_CHROME) as usize
    } else {
        0
    }
}

/// How many rows of the table a frame of the given height shows.
pub open spec fn rows_in(frame_height: u16) -> usize {
    if frame_height > FRAME_CHROME {
        (frame_height - FRAME_CHROME) as usize
    } else {
        0
    }
}

/// Writes what the screen shows. Paging follows the number of rows that a frame
/// of the given height shows.
pub fn render(
    app: &mut App,
    places: &Places,
    now: Timestamp,
    frame_height: u16,
) -> (r: Screen)
    ensures
        final(app)@ == (AppView { page_len: rows_in(frame_height), ..old(app)@ }),
        spans_view(r.summary@) == summary_of(
            old(app)@,
            path_view(places.root),
            path_view(places.home),
        ),
        match r.cache {
            Some(line) => old(app)@.build_cache is Some && line@ == cache_line_of(
                old(app)@,
                path_view(places.cache),
                path_view(places.home),
                now,
            ),
            None => old(app)@.build_cache is None,
        },
        r.body@ == body_of(old(app)@, places.rows@, path_view(places.home), now),
        r.footer@ == footer_of(old(app)@),
{
    let screen = show(app, places, now);
    app.page_len = page_rows(frame_height);
    screen
}

/// Writes what the screen shows.
fn show(app: &App, places: &Places, now: Timestamp) -> (r: Screen)
    ensures
        spans_view(r.summary@) == summary_of(
            app@,
            path_view(places.root),
            path_view(places.home),
        ),
        match r.cache {
            Some(line) => app@.build_cache is Some && line@ == cache_line_of(
                app@,
                path_view(places.cache),
                path_view(places.home),
                now,
            ),
            None => app@.build_cache is None,
        },
        r.body@ == body_of(app@, places.rows@, path_view(places.home), now),
        r.footer@ == footer_of(app@),
{
    let visible = app.visible_indices();
    let cache = if app.build_cache.is_some() {
        Some(render_build_cache(app, places, now))
    } else {
        None
    };
    Screen {
        summary: summary(app, &visible, places),
        cache,
        body: body(app, &visible, places, now),
        footer: if app.filtering {
            footer_filter(app)
        } else {
            footer_actions(app)
        },
    }
}

/// Law: the table has one row for each visible entry, and marks at most the
/// selected one.
pub proof fn law_table_rows(
    v: AppView,
    places: Seq<Option<FilePath>>,
    home: Option<Seq<u8>>,
    now: Timestamp,
)
    requires
        v.visible().len() <= usize::MAX,
    ensures
        table_of(v, places, home, now).len() == v.visible().len(),
        forall|k: int|
            0 <= k < v.visible().len() ==> ((#[trigger] table_of(v, places, home, now)[k]).selected
                <==> v.table_state.selected == Some(k as usize)),
{
}

/// Law: without a filter the summary counts all entries and their total; with one it
/// counts what is shown and adds up that alone. A single project is no plural.
pub proof fn law_counts(v: AppView)
    ensures
        v.filter_regex is None && v.entries.len() == 1 ==> counts_of(v) == decimal(1)
            + " project"@ + ""@ + " · "@ + formatted_size(v.total_size) + " total"@,
        v.filter_regex is None && v.entries.len() != 1 ==> counts_of(v) == decimal(
            v.entries.len(),
        ) + " project"@ + "s"@ + " · "@ + formatted_size(v.total_size) + " total"@,
        v.filter_regex is Some ==> counts_of(v) == decimal(v.visible().len()) + " of "@ + decimal(
            v.entries.len(),
        ) + " projects · "@ + formatted_size(total_of(picked(v.entries, v.visible()))) + " shown"@,
{
}

/// Law: the summary starts with the directory that is scanned, bold, by its canonical
/// form where that is known, and the counts follow.
pub proof fn law_summary(v: AppView, canonical: Seq<u8>, home: Option<Seq<u8>>)
    ensures
        summary_of(v, None, home).len() == 2,
        summary_of(v, Some(canonical), home).len() == 2,
        summary_of(v, None, home)[0].text == shown_path(v.root, home),
        summary_of(v, Some(canonical), home)[0].text == shown_path(canonical, home),
        summary_of(v, None, home)[0].bold,
        summary_of(v, None, home)[0].color == Color::Green,
        !summary_of(v, None, home)[1].bold,
        summary_of(v, None, home)[1].color == Color::Plain,
        summary_of(v, None, home)[1].text == " · "@ + counts_of(v),
        summary_of(v, Some(canonical), home)[1] == summary_of(v, None, home)[1],
{
}

/// Law: the line on the build cache shows what was measured of it, also during a scan;
/// without a measurement a running scan counts before a known place.
pub proof fn law_cache_line(
    v: AppView,
    e: EntryView,
    p: Seq<u8>,
    place: Option<Seq<u8>>,
    home: Option<Seq<u8>>,
    now: Timestamp,
)
    ensures
        v.build_cache == Some(e) && place is None ==> cache_line_of(v, place, home, now)
            == formatted_size_opt(e.size) + " ("@ + entry_modified(e, now) + ")  "@ + shown_path(
            e.target_dir,
            home,
        ),
        v.build_cache == Some(e) && place is Some ==> cache_line_of(v, place, home, now)
            == formatted_size_opt(e.size) + " ("@ + entry_modified(e, now) + ")  "@ + shown_path(
            place->0,
            home,
        ),
        v.build_cache is None && v.scanning ==> cache_line_of(v, place, home, now)
            == "Measuring…"@,
        v.build_cache is None && !v.scanning && v.build_cache_path == Some(p) && place is None
            ==> cache_line_of(v, place, home, now) == "not present: "@ + shown_path(p, home),
        v.build_cache is None && !v.scanning && v.build_cache_path is None ==> cache_line_of(
            v,
            place,
            home,
            now,
        ) == "no cargo home found"@,
{
}

/// Law: the row at a place of the table tells of the entry that is visible there, by
/// the canonical form of its own output directory where that is known. An entry that
/// was measured and has no time is deleted.
pub proof fn law_row(
    v: AppView,
    places: Seq<Option<FilePath>>,
    home: Option<Seq<u8>>,
    now: Timestamp,
    k: int,
)
    requires
        0 <= k < v.visible().len(),
        v.visible().len() <= usize::MAX,
    ensures
        ({
            let i = v.visible()[k] as int;
            let e = v.entries[i];
            let row = table_of(v, places, home, now)[k];
            &&& row.name == project_name_of(e.project_path)
            &&& row.size == formatted_size_opt(e.size)
            &&& row.heat == heat_of(e.size)
            &&& row.modified == entry_modified(e, now)
            &&& row.deleted <==> e.size is Some && e.last_modified is None
            &&& row.selected <==> v.table_state.selected == Some(k as usize)
            &&& (i >= places.len() || places[i] is None) ==> row.path == shown_path(
                e.target_dir,
                home,
            )
            &&& (i < places.len() && places[i] is Some) ==> row.path == shown_path(
                places[i]->0@,
                home,
            )
        }),
{
}

/// Law: the table is shown exactly if a row is visible. A table without entries says
/// so, or that a scan runs; one whose entries are all filtered away names the filter.
pub proof fn law_body(
    v: AppView,
    places: Seq<Option<FilePath>>,
    home: Option<Seq<u8>>,
    now: Timestamp,
)
    ensures
        v.entries.len() > 0 && v.visible().len() > 0 ==> body_of(v, places, home, now)
            == BodyView::Table(table_of(v, places, home, now)),
        v.entries.len() > 0 && v.visible().len() == 0 ==> body_of(v, places, home, now)
            == BodyView::Message("No match for /"@ + v.filter_text + "."@),
        v.entries.len() == 0 && v.scanning ==> body_of(v, places, home, now)
            == BodyView::Scanning,
        v.entries.len() == 0 && !v.scanning ==> body_of(v, places, home, now)
            == BodyView::Message("No target/ directories found."@),
{
}

/// Law: the footer of the table names every key with what it does, in this order; each
/// key is bold, followed by a blank, and gaps stand only between the hints.
pub proof fn law_action_hints(v: AppView)
    ensures
        ({
            let h = action_hints(v);
            &&& h.len() == 27
            &&& h[0].text == "↑↓"@ && h[2].text == "Navigate"@
            &&& h[4].text == "g/G"@ && h[6].text == "Top/Bottom"@
            &&& h[8].text == "/"@ && h[10].text == "Filter"@
            &&& h[12].text == "s"@ && h[14].text == "Sort: "@ + key_label(v.sort)
            &&& h[16].text == "r"@ && h[18].text == "Rescan"@
            &&& h[20].text == "d"@ && h[22].text == "Delete"@
            &&& h[24].text == "q"@ && h[26].text == "Quit"@
            &&& forall|i: int|
                0 <= i < 27 ==> ((#[trigger] h[i]).bold <==> i % 4 == 0) && (h[i].color
                    == Color::Muted <==> i % 4 == 2) && (i % 4 != 2 ==> h[i].color == Color::Plain)
                    && (i % 4 == 1 ==> h[i].text == " "@) && (i % 4 == 3 ==> h[i].text == "  "@)
        }),
{
}

/// Law: while a filter is typed the footer names the keys that end it, and shows what
/// was typed, with the reason why it does not compile if it does not.
pub proof fn law_filter_footer(v: AppView)
    ensures
        ({
            let h = filter_hints();
            &&& h.len() == 11
            &&& h[0].text == "Enter"@ && h[2].text == "Done"@
            &&& h[4].text == "Esc"@ && h[6].text == "Clear"@
            &&& h[8].text == "^U"@ && h[10].text == "Clear"@
            &&& forall|i: int|
                0 <= i < 11 ==> ((#[trigger] h[i]).bold <==> i % 4 == 0) && (h[i].color
                    == Color::Muted <==> i % 4 == 2) && (i % 4 != 2 ==> h[i].color == Color::Plain)
                    && (i % 4 == 1 ==> h[i].text == " "@) && (i % 4 == 3 ==> h[i].text == "  "@)
        }),
        filter_prompt(v)[0].text == "/"@ + v.filter_text + "/"@,
        filter_prompt(v)[0].bold,
        v.filter_error is None ==> filter_prompt(v).len() == 1,
        v.filter_error matches Some(e) ==> filter_prompt(v).len() == 3 && filter_prompt(v)[2].text
            == e && filter_prompt(v)[2].color == Color::Rose && !filter_prompt(v)[2].bold
            && filter_prompt(v)[1] == (SpanView {
            text: "  "@,
            color: Color::Plain,
            bold: false,
        }),
        filter_prompt(v)[0].color == Color::Plain,
        v.filtering ==> footer_of(v).left == filter_prompt(v) && footer_of(v).right
            == filter_hints(),
        !v.filtering ==> footer_of(v).left == action_hints(v) && footer_of(v).right
            == status_of(v),
{
}

/// Law: what goes on stands in the footer: a scan first, then the filter between
/// slashes, then why a deletion failed; of each nothing if there is nothing to tell.
pub proof fn law_status(v: AppView)
    ensures
        ({
            let s = status_of(v);
            let scan: int = if v.scanning { 1 } else { 0 };
            let gap: int = if v.scanning { 1 } else { 0 };
            let filter: int = if v.filter_text.len() > 0 { gap + 2 } else { 0 };
            let head = scan + filter;
            &&& v.scanning ==> s[0].text == "Scanning…"@ && s[0].color == Color::Mint && s[0].bold
            &&& v.filter_text.len() > 0 ==> s[head - 2].text == "Filter: "@ && s[head - 1].text
                == "/"@ + v.filter_text + "/"@ && s[head - 1].bold
            &&& v.delete_error is None ==> s.len() == head
            &&& v.delete_error matches Some(e) ==> s.last().text == "Delete failed: "@ + e
                && s.last().color == Color::Rose && !s.last().bold && s.len() == head + (if head
                > 0 {
                2int
            } else {
                1
            })
            &&& v.filter_text.len() > 0 ==> s[head - 2].color == Color::Muted && !s[head - 2].bold
                && s[head - 1].color == Color::Plain
            &&& v.scanning && v.filter_text.len() > 0 ==> s[1] == (SpanView {
                text: "  "@,
                color: Color::Plain,
                bold: false,
            })
            &&& head > 0 && v.delete_error is Some ==> s[head] == (SpanView {
                text: "  "@,
                color: Color::Plain,
                bold: false,
            })
        }),
{
}

/// Law: the texts of the spans count, one after the other.
pub proof fn law_span_chars(a: Seq<SpanView>, s: SpanView)
    ensures
        span_chars(Seq::empty()) == 0,
        span_chars(a.push(s)) == span_chars(a) + s.text.len(),
{
    assert(a.push(s).drop_last() =~= a);
}

/// Law: the right side of the footer is as wide as its text, as far as there is room.
pub proof fn law_right_width(right: Seq<SpanView>, inner: u16)
    ensures
        right_width_of(right, inner) <= inner,
        span_chars(right) <= inner ==> right_width_of(right, inner) == span_chars(right),
        inner <= span_chars(right) < 0x1_0000 ==> right_width_of(right, inner) == inner,
{
}

/// Law: all but nine lines of a frame are rows of the table.
pub proof fn law_rows_in(frame_height: u16)
    ensures
        frame_height >= 9 ==> rows_in(frame_height) == frame_height - 9,
        frame_height <= 9 ==> rows_in(frame_height) == 0,
{
}

} // verus!
