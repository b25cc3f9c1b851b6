use cargo_shepherd::app::App;
use cargo_shepherd::file_path::FilePath;
use cargo_shepherd::order::SortKey;
use cargo_shepherd::scan::{DiscoveredEntry, Measurement, TargetEntry};
use cargo_shepherd::ui::format::Heat;
use cargo_shepherd::ui::screen::{
    page_rows, render, render_build_cache, right_width, Body, Color, Places, Screen, Span, MODIFIED_HEADING,
    NAME_HEADING, PATH_HEADING, SELECTION_MARK, SIZE_HEADING,
};

const NOW: i128 = 1_000_000_000_000_000;

fn path(text: &str) -> FilePath {
    FilePath::new(text)
}

fn places() -> Places {
    Places { home: Some(path("/home/u")), root: None, cache: None, rows: Vec::new() }
}

fn app_with(projects: &[&str]) -> App {
    let mut app = App::new(path("/home/u/w"), None, 0);
    app.set_discovered(projects.iter().map(|p| DiscoveredEntry::from(path(p))).collect());
    app.finish_scan(None);
    app
}

fn text_of(spans: &[Span]) -> String {
    spans.iter().map(|s| s.text.as_str()).collect()
}

fn screen_text(screen: &Screen) -> String {
    let mut text = text_of(&screen.summary);
    text.push('\n');
    match &screen.body {
        Body::Scanning => text.push_str("Scanning"),
        Body::Message(m) => text.push_str(m),
        Body::Table(rows) => {
            for heading in [NAME_HEADING, SIZE_HEADING, MODIFIED_HEADING, PATH_HEADING] {
                text.push_str(heading);
            }
            for row in rows {
                if row.selected {
                    text.push_str(SELECTION_MARK);
                }
                text.push_str(&row.name);
            }
        }
    }
    text.push('\n');
    text.push_str(&text_of(&screen.footer.left));
    text.push_str(&text_of(&screen.footer.right));
    text
}

#[test]
fn footer_bar_shows_hints_and_sort_without_dup_key() {
    let mut app = app_with(&[]);
    let text = screen_text(&render(&mut app, &places(), NOW, 24));
    for want in [
        "Navigate",
        "Top/Bottom",
        "Filter",
        "Sort: size",
        "Rescan",
        "Delete",
        "Quit",
    ] {
        assert!(text.contains(want), "missing {want}");
    }
    assert!(!text.contains("(s)"), "duplicated sort key hint");
}

#[test]
fn table_shows_uppercase_header_and_selection_marker() {
    let mut app = app_with(&["proj-a", "proj-b"]);
    let text = screen_text(&render(&mut app, &places(), NOW, 24));
    for want in ["PROJECT", "SIZE", "MODIFIED", "PATH", "▶"] {
        assert!(text.contains(want), "missing {want}");
    }
}

#[test]
fn footers_list_the_keys_in_order() {
    let mut app = app_with(&["a"]);
    app.cycle_sort();
    let footer = render(&mut app, &places(), NOW, 24).footer;
    assert_eq!(
        text_of(&footer.left),
        "↑↓ Navigate  g/G Top/Bottom  / Filter  s Sort: modified  r Rescan  d Delete  q Quit"
    );
    assert_eq!(text_of(&footer.right), "");
    assert!(footer.left[0].bold);
    assert_eq!(footer.left[2].color, Color::Muted);
    assert_eq!(SortKey::Name.label(), "name");
}

#[test]
fn footers_report_what_goes_on() {
    let mut app = app_with(&["a"]);
    app.begin_scan(0);
    app.set_filter("a".to_string());
    app.delete_error = Some("delete x: denied".to_string());
    let right = render(&mut app, &places(), NOW, 24).footer.right;
    assert_eq!(text_of(&right), "Scanning…  Filter: /a/  Delete failed: delete x: denied");
    assert_eq!(right[0].color, Color::Mint);
    assert_eq!(right.last().map(|s| s.color), Some(Color::Rose));
    assert_eq!(right_width(&right, 100), 55);
    assert_eq!(right_width(&right, 20), 20);
}

#[test]
fn typing_has_its_own_footer() {
    let mut app = app_with(&["a"]);
    app.filtering = true;
    app.set_filter("a(".to_string());
    let footer = render(&mut app, &places(), NOW, 24).footer;
    assert_eq!(text_of(&footer.left), "/a(/  regex parse error:");
    assert_eq!(text_of(&footer.right), "Enter Done  Esc Clear  ^U Clear");
    app.set_filter("a".to_string());
    assert_eq!(text_of(&render(&mut app, &places(), NOW, 24).footer.left), "/a/");
}

#[test]
fn summaries_count_and_add_up() {
    let mut app = app_with(&["a", "b"]);
    app.apply_measurements(&[
        Measurement { target_dir: path("a/target"), size: 100, last_modified: Some(0) },
        Measurement { target_dir: path("b/target"), size: 200, last_modified: Some(0) },
    ]);
    let summary = render(&mut app, &places(), NOW, 24).summary;
    assert_eq!(text_of(&summary), "~/w · 2 projects · 300 B total");
    assert!(summary[0].bold);
    assert_eq!(summary[0].color, Color::Green);
    app.set_filter("^a".to_string());
    assert_eq!(
        text_of(&render(&mut app, &places(), NOW, 24).summary),
        "~/w · 1 of 2 projects · 100 B shown"
    );
    let mut one = app_with(&["a"]);
    let at = Places { root: Some(path("/real")), ..places() };
    assert_eq!(text_of(&render(&mut one, &at, NOW, 24).summary), "/real · 1 project · 0 B total");
}

#[test]
fn bodies_say_why_there_is_no_table() {
    let mut app = app_with(&[]);
    assert!(matches!(
        render(&mut app, &places(), NOW, 24).body,
        Body::Message(m) if m == "No target/ directories found."
    ));
    app.begin_scan(0);
    assert!(matches!(render(&mut app, &places(), NOW, 24).body, Body::Scanning));
    let mut app = app_with(&["a"]);
    app.set_filter("zzz".to_string());
    assert!(matches!(
        render(&mut app, &places(), NOW, 24).body,
        Body::Message(m) if m == "No match for /zzz."
    ));
}

#[test]
fn rows_show_what_is_known() {
    let mut app = app_with(&["/home/u/a", "/srv/b", "/srv/c"]);
    app.apply_measurements(&[
        Measurement {
            target_dir: path("/home/u/a/target"),
            size: 2 << 30,
            last_modified: Some(NOW - 7_200_000_000_000),
        },
        Measurement { target_dir: path("/srv/b/target"), size: 0, last_modified: None },
    ]);
    let mut at = places();
    at.rows = vec![None, None, Some(path("/real/b"))];
    let rows = match render(&mut app, &at, NOW, 24).body {
        Body::Table(rows) => rows,
        _ => panic!("there is a table"),
    };
    let cells: Vec<(&str, &str, &str, &str)> = rows
        .iter()
        .map(|r| (r.name.as_str(), r.size.as_str(), r.modified.as_str(), r.path.as_str()))
        .collect();
    assert_eq!(
        cells,
        vec![
            ("c", "-", "-", "/srv/c/target"),
            ("a", "2 GiB", "2 hours ago", "~/a/target"),
            ("b", "0 B", "deleted", "/real/b"),
        ]
    );
    assert_eq!(rows.iter().map(|r| r.selected).collect::<Vec<_>>(), vec![true, false, false]);
    assert_eq!(rows.iter().map(|r| r.deleted).collect::<Vec<_>>(), vec![false, false, true]);
    assert_eq!(rows[1].heat, Heat::Amber);
}

#[test]
fn paging_follows_the_rows_of_the_last_frame() {
    let projects: Vec<String> = (0..30).map(|i| format!("proj-{i:02}")).collect();
    let names: Vec<&str> = projects.iter().map(String::as_str).collect();
    let mut app = app_with(&names);
    render(&mut app, &places(), NOW, 24);
    assert_eq!(app.page_len, 15);
    app.page_down();
    assert_eq!(app.table_state.selected(), Some(15));
    render(&mut app, &places(), NOW, 9);
    assert_eq!(app.page_len, 0);
    app.page_up();
    assert_eq!(app.table_state.selected(), Some(14));
    assert_eq!((page_rows(0), page_rows(10), page_rows(u16::MAX)), (0, 1, 65_526));
}

#[test]
fn the_build_cache_has_a_line() {
    let mut app = app_with(&[]);
    assert!(render(&mut app, &places(), NOW, 24).cache.is_none());
    assert_eq!(render_build_cache(&app, &places(), NOW), "no cargo home found");
    app.build_cache_path = Some(path("/home/u/.cargo/build-cache"));
    assert_eq!(
        render_build_cache(&app, &places(), NOW),
        "not present: ~/.cargo/build-cache"
    );
    app.begin_scan(0);
    assert_eq!(render_build_cache(&app, &places(), NOW), "Measuring…");
    app.finish_scan(Some(TargetEntry {
        project_path: path("/c"),
        target_dir: path("/c"),
        kind: Default::default(),
        size: Some(12),
        last_modified: Some(NOW - 60_000_000_000),
    }));
    assert_eq!(
        render(&mut app, &places(), NOW, 24).cache.as_deref(),
        Some("12 B (1 minute ago)  /c")
    );
}
