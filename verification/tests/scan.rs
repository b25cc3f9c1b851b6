use cargo_shepherd::app::App;
use cargo_shepherd::args::Args;
use cargo_shepherd::file_path::FilePath;
use cargo_shepherd::poll::Poller;
use cargo_shepherd::scan::cache::{build_cache_entry, build_cache_entry_at, build_cache_path};
use cargo_shepherd::scan::discover::{
    keep_entry, manifest_beside, resolve_root, scan_stream, visit_bare, visit_entry, walk_rule,
    ScanEvent, ScanStream, Visited, WalkRule,
};
use cargo_shepherd::scan::measure::{
    fold_records, measure_target, record_entry, recursive_scan_target, EntryRec,
};
use cargo_shepherd::scan::search::{find_projects_task, scan, Listed, Reading};
use cargo_shepherd::scan::{DiscoveredEntry, Measurement, OutputKind, TargetEntry};
use cargo_shepherd::session::{check_root, frame_budget, handle_event, Session};
use cargo_shepherd::ui::input::{Action, KeyCode, KeyEvent};
use cargo_shepherd::trace::{init, DEFAULT_PATH, ENV_VAR};
use cargo_shepherd::util::{cpu_count, threads_for};
use cargo_shepherd::watch::{changed_dirs, ChangeKind, Flush, LiveWatcher, Notice};

fn path(text: &str) -> FilePath {
    FilePath::new(text)
}

fn rec(ino: u64, blocks: u64, mtime: i128) -> EntryRec {
    record_entry(1, ino, blocks, Some(mtime))
}

#[test]
fn measure_hardlinked_file_counts_once_like_du() {
    let mut recs = vec![rec(1, 8, 5), rec(2, 8, 6), rec(3, 16, 4)];
    let (alone, _) = fold_records(&recs);
    assert_eq!(alone, 32 * 512);
    recs.push(rec(2, 8, 6));
    let (deduped, mtime) = fold_records(&recs);
    assert_eq!(deduped, alone);
    assert!(mtime > 0);
    assert_eq!(recursive_scan_target(&None), (0, 0));
}

#[test]
fn one_inode_number_on_two_devices_counts_twice() {
    let recs = vec![
        record_entry(1, 2, 1, None),
        record_entry(2, 1, 1, None),
        record_entry(2, 2, 1, Some(-7)),
    ];
    assert_eq!(fold_records(&recs), (3 * 512, 0));
}

#[test]
fn newest_mtime_tracks_deep_writes() {
    let walk = Some(vec![rec(1, 8, 100), rec(2, 8, 900), rec(3, 8, 300)]);
    let (_, mtime) = recursive_scan_target(&walk);
    assert_eq!(mtime, 900);
}

#[test]
fn measuring_keeps_the_directory() {
    let m = measure_target(&path("a/target"), &Some(vec![rec(1, 2, 3)]));
    assert_eq!((m.target_dir, m.size, m.last_modified), (path("a/target"), 1024, Some(3)));
    let m = measure_target(&path("a/target"), &Some(vec![]));
    assert_eq!((m.size, m.last_modified), (0, Some(0)));
    let m = measure_target(&path("a/target"), &None);
    assert_eq!((m.size, m.last_modified), (0, None));
}

#[test]
fn cache_build_cache_entry_measures_present_dir() {
    let place = path("/tmp/targeter-test-build-cache/build-cache");
    let entry = build_cache_entry_at(&place, true, false, &vec![rec(1, 8, 9)])
        .expect("cache dir exists");
    assert_eq!(entry.project_path, place);
    assert_eq!(entry.target_dir, place);
    assert!(entry.size.is_some_and(|s| s >= 8));
    assert!(entry.last_modified > Some(0));
}

#[test]
fn cache_build_cache_entry_missing_dir_is_none() {
    let place = path("/tmp/targeter-test-build-cache-missing/build-cache");
    assert!(build_cache_entry_at(&place, false, false, &vec![]).is_none());
    assert!(build_cache_entry_at(&place, true, true, &vec![]).is_none());
    assert!(build_cache_entry(&None, true, false, &vec![]).is_none());
    assert!(build_cache_entry(&Some(place), true, false, &vec![]).is_some());
}

#[test]
fn build_cache_is_in_cargo_home() {
    let text = |s: &str| Some(s.to_string());
    let at = |c, h| build_cache_path(&c, &h).map(|p| p.to_text());
    assert_eq!(at(text("/ch"), text("/h")).as_deref(), Some("/ch/build-cache"));
    assert_eq!(at(text("  "), text("/h")).as_deref(), Some("/h/.cargo/build-cache"));
    assert_eq!(at(None, text("\n")), None);
    assert_eq!(at(None, None), None);
}

fn visited(has_manifest: bool, has_target: bool) -> Visited {
    Visited { is_symlink: false, is_dir: true, has_manifest, has_target }
}

#[test]
fn projects_are_real_directories_with_manifest_and_output() {
    let mut projects = Vec::new();
    visit_entry(&path("r/proj-a"), visited(true, true), &mut projects);
    visit_entry(&path("r/loose-target"), visited(false, true), &mut projects);
    visit_entry(&path("r/plain"), visited(false, false), &mut projects);
    visit_entry(&path("r/no-output"), visited(true, false), &mut projects);
    let link = Visited { is_symlink: true, ..visited(true, true) };
    visit_entry(&path("r/link"), link, &mut projects);
    let file = Visited { is_dir: false, ..visited(true, true) };
    visit_entry(&path("r/file"), file, &mut projects);
    assert_eq!(projects, vec![path("r/proj-a")]);
    let mut bare = Vec::new();
    visit_bare(&path("r/no-output"), visited(true, false), &mut bare);
    visit_bare(&path("r/proj-a"), visited(true, true), &mut bare);
    visit_bare(&path("r/plain"), visited(false, false), &mut bare);
    visit_bare(&path("r/link"), Visited { is_symlink: true, ..visited(true, false) }, &mut bare);
    assert_eq!(bare, vec![path("r/no-output")]);
}

#[test]
fn walks_leave_out_git_cargo_and_own_output() {
    assert_eq!(walk_rule(0, b".git"), WalkRule::Keep);
    assert_eq!(walk_rule(1, b".git"), WalkRule::Prune);
    assert_eq!(walk_rule(3, b".cargo"), WalkRule::Prune);
    assert_eq!(walk_rule(1, b"target"), WalkRule::PruneBesideManifest);
    assert_eq!(walk_rule(1, b"src"), WalkRule::Keep);
    assert!(keep_entry(WalkRule::PruneBesideManifest, false));
    assert!(!keep_entry(WalkRule::PruneBesideManifest, true));
    assert!(!keep_entry(WalkRule::Prune, false));
    assert_eq!(manifest_beside(&path("/a/target")), Some(path("/a/Cargo.toml")));
    assert_eq!(manifest_beside(&path("/")), None);
}

fn listing(dirs: &[&str], files: &[&str]) -> Vec<Listed> {
    let entry = |name: &&str, is_dir| Listed { name: name.as_bytes().to_vec(), is_dir };
    dirs.iter()
        .map(|n| entry(n, true))
        .chain(files.iter().map(|n| entry(n, false)))
        .collect()
}

#[test]
fn searches_go_on_below_projects_but_not_in_their_output() {
    let f = find_projects_task(&listing(&["target", ".git", "src", ".cargo"], &["Cargo.toml"]));
    assert!(f.is_project);
    assert_eq!(f.explore, vec![2]);
    let f = find_projects_task(&listing(&["target", "src"], &["README.md"]));
    assert!(!f.is_project);
    assert_eq!(f.explore, vec![0, 1]);
    let f = find_projects_task(&listing(&["Cargo.toml"], &["target"]));
    assert!(!f.is_project);
    assert_eq!(f.explore, vec![0]);
}

/// The reports of a scan, in words.
fn words(events: &[ScanEvent]) -> Vec<String> {
    events
        .iter()
        .map(|event| match event {
            ScanEvent::Discovered(found) => {
                let dirs: Vec<String> = found.iter().map(|d| d.target_dir.to_text()).collect();
                format!("found {}", dirs.join(" "))
            }
            ScanEvent::Measured(m) => {
                format!("{} {} {:?}", m.target_dir.to_text(), m.size, m.last_modified)
            }
            ScanEvent::Done { build_cache } => {
                format!("done {:?}", build_cache.as_ref().and_then(|e| e.size))
            }
        })
        .collect()
}

fn cache() -> Option<TargetEntry> {
    build_cache_entry_at(&path("/ch/build-cache"), true, false, &vec![rec(1, 8, 9)])
}

#[test]
fn scans_report_findings_then_each_measurement_then_the_end() {
    let projects = vec![path("b"), path("a/z"), path("a"), path("a/b"), path("B")];
    let walks = vec![
        Some(vec![rec(1, 1, 10)]),
        Some(vec![rec(1, 2, 20)]),
        None,
        Some(vec![]),
        Some(vec![rec(1, 1, 5), rec(2, 4, 50), rec(1, 1, 5)]),
    ];
    assert_eq!(
        words(&scan_stream(projects, &walks, cache())),
        vec![
            "found B/target a/target a/b/target a/z/target b/target",
            "B/target 512 Some(10)",
            "a/target 1024 Some(20)",
            "a/b/target 0 None",
            "a/z/target 0 Some(0)",
            "b/target 2560 Some(50)",
            "done Some(4096)",
        ]
    );
    assert_eq!(words(&scan_stream(vec![], &vec![], None)), vec!["found ", "done None"]);
}

#[test]
fn walks_may_end_in_any_order_but_the_end_comes_last() {
    let found = vec![
        DiscoveredEntry::from(path("a")),
        DiscoveredEntry::new(path("a"), path("/out/a"), OutputKind::Build),
    ];
    let (mut stream, first) = ScanStream::start(found);
    let mut events = vec![first];
    events.extend(stream.finish(None));
    events.extend(stream.walked(1, &Some(vec![rec(1, 2, 3)])));
    events.extend(stream.walked(1, &Some(vec![rec(1, 9, 9)])));
    events.extend(stream.finish(None));
    events.extend(stream.walked(2, &None));
    events.extend(stream.walked(0, &None));
    events.extend(stream.finish(cache()));
    events.extend(stream.finish(None));
    assert_eq!(
        words(&events),
        vec!["found a/target /out/a", "/out/a 1024 Some(3)", "a/target 0 None", "done Some(4096)"]
    );
}

#[test]
fn scans_put_the_biggest_first() {
    let reading = |p: &str, size| Reading { project_path: path(p), size, last_modified: 1 };
    let entries = scan(&vec![reading("a", 1), reading("b", 9), reading("c", 1), reading("d", 4)]);
    let names: Vec<String> = entries.iter().map(|e| e.project_name()).collect();
    assert_eq!(names, vec!["b", "d", "a", "c"]);
    assert_eq!(entries[0].target_dir, path("b/target"));
}

#[test]
fn the_reports_of_a_scan_fill_the_table() {
    let mut app = App::new(path("/r"), None, 0);
    let mut poller = Poller::new();
    let events = scan_stream(vec![path("/r/proj-a")], &vec![Some(vec![rec(1, 1, 1)])], None);
    let mut done = Vec::new();
    for event in events {
        done.push(handle_event(&mut app, &mut poller, event, 10, 20));
    }
    assert_eq!(done, vec![false, false, true]);
    assert_eq!(app.entries.len(), 1);
    assert_eq!(app.entries[0].size, Some(512));
    assert!(!app.scanning);
    assert_eq!(poller.dirs.len(), 1);
    assert_eq!(poller.dirs[0].last_size, Some(512));
}

fn discovered(projects: Vec<FilePath>) -> ScanEvent {
    ScanEvent::Discovered(projects.into_iter().map(DiscoveredEntry::from).collect())
}

fn measured(dir: &str, size: u64) -> Measurement {
    Measurement { target_dir: path(dir), size, last_modified: Some(1) }
}

#[test]
fn rounds_follow_a_scan_to_its_end() {
    let mut s = Session::new(path("/r"), None, 0);
    let events = vec![
        discovered(vec![path("/r/a"), path("/r/b")]),
        ScanEvent::Measured(measured("/r/a/target", 5)),
    ];
    let round = s.tick(events, &vec![], 10, 1);
    assert!(round.measure.is_empty());
    assert_eq!(round.budget, 16);
    assert!(s.listening && s.app.scanning);
    // The scan ends: a batch from before it is dropped.
    let stale = vec![vec![measured("/r/a/target", 99)]];
    let round = s.tick(vec![ScanEvent::Done { build_cache: None }], &stale, 20, 1);
    assert!(!s.listening && !s.app.scanning);
    assert_eq!(round.budget, 100);
    assert_eq!(s.app.total_size, 5);
    assert_eq!(s.poller.dirs.len(), 2);
    assert!(!s.poller.in_flight);
    // Both rows are due one interval later, and then one batch is under way.
    let later = 20 + 10_000_000_000;
    assert_eq!(s.tick(vec![], &vec![], later, 1).measure.len(), 2);
    assert!(s.poller.in_flight);
    assert!(s.tick(vec![], &vec![], later + 1, 1).measure.is_empty());
    let batch = vec![vec![measured("/r/b/target", 7)]];
    assert_eq!(s.tick(vec![], &batch, later + 2, 1).measure, vec![path("/r/a/target")]);
    assert_eq!(s.app.total_size, 12);
    // Nobody listens any more.
    s.tick(vec![discovered(vec![])], &vec![], later + 3, 1);
    assert_eq!(s.app.entries.len(), 2);
    let key = KeyEvent { code: KeyCode::Char('r'), control: false };
    assert!(matches!(s.press(key, later + 4), Action::Rescan));
    assert!(s.listening && s.app.scanning);
    assert_eq!(s.app.loading_start, later + 4);
    s.tick(vec![discovered(vec![])], &vec![], later + 5, 1);
    assert!(s.app.entries.is_empty());
}

#[test]
fn scan_root_falls_back_when_missing() {
    let missing = path("targeter-no-such-dir-xyz");
    assert_eq!(resolve_root(&missing, None), missing);
}

#[test]
fn scan_root_resolves_absolute() {
    assert!(resolve_root(&path("."), Some(path("/work"))).is_absolute());
}

#[test]
fn roots_must_be_directories() {
    assert_eq!(check_root(&path("/x"), true), Ok(()));
    assert_eq!(
        check_root(&path("/x"), false),
        Err("scan root is not a directory: /x".to_string())
    );
}

#[test]
fn frames_are_short_while_scanning() {
    let mut app = App::new(path("."), None, 0);
    assert_eq!(frame_budget(&app), 16);
    app.finish_scan(None);
    assert_eq!(frame_budget(&app), 100);
}

#[test]
fn arguments_drop_the_subcommand_word() {
    let words = |w: &[&str]| w.iter().map(|s| s.to_string()).collect::<Vec<String>>();
    assert_eq!(
        Args::parse_args(words(&["cargo-shepherd", "shepherd", "list"])),
        words(&["cargo-shepherd", "list"])
    );
    assert_eq!(
        Args::parse_args(words(&["cargo-shepherd", "list", "shepherd"])),
        words(&["cargo-shepherd", "list", "shepherd"])
    );
    assert_eq!(Args::parse_args(words(&["x"])), words(&["x"]));
}

#[test]
fn roots_fall_back_to_home_and_here() {
    let p = |s: &str| Some(path(s));
    assert_eq!(Args::root_for(p("a"), p("b"), p("h")), path("a"));
    assert_eq!(Args::root_for(None, p("b"), p("h")), path("b"));
    assert_eq!(Args::root_for(None, None, p("h")), path("h"));
    assert_eq!(Args::root_for(None, None, None), path("."));
    assert_eq!(Args { root: p("a") }.root(p("h")), path("a"));
    assert_eq!(Args { root: None }.root(p("h")), path("h"));
}

#[test]
fn traces_are_written_on_request() {
    let at = |s: &str| init(&Some(s.to_string())).map(|p| p.to_text());
    assert_eq!(ENV_VAR, "TARGETER_TRACING");
    assert!(init(&None).is_none());
    for no in ["", "  ", "0", "false", "No", " OFF "] {
        assert!(at(no).is_none(), "{no:?}");
    }
    for yes in ["1", "true", "YES", " on "] {
        assert_eq!(at(yes).as_deref(), Some(DEFAULT_PATH), "{yes:?}");
    }
    assert_eq!(at(" out.json ").as_deref(), Some("out.json"));
}

#[test]
fn threads_follow_the_processors() {
    assert_eq!(threads_for(0), 1);
    assert_eq!(threads_for(3), 3);
    assert_eq!(threads_for(64), 6);
    assert!((1..=6).contains(&cpu_count()));
}

#[test]
fn only_the_newest_flush_counts() {
    let mut app = App::new(path("."), None, 0);
    app.set_discovered(vec![DiscoveredEntry::from(path("a"))]);
    let flush = |id, size| Flush {
        id,
        measurements: vec![Measurement {
            target_dir: path("a/target"),
            size,
            last_modified: Some(1),
        }],
    };
    let mut w = LiveWatcher::new();
    w.rewatch(true);
    assert!(w.watching);
    assert_eq!(w.poll(&mut app, true, &vec![]), Some(1));
    assert_eq!(w.poll(&mut app, true, &vec![flush(1, 10)]), Some(2));
    assert_eq!(app.entries[0].size, None);
    assert_eq!(w.poll(&mut app, false, &vec![flush(2, 20), flush(1, 30)]), None);
    assert_eq!(app.entries[0].size, Some(20));
    w.clear();
    assert!(!w.watching);
    assert_eq!(LiveWatcher::default(), LiveWatcher::new());
}

#[test]
fn changes_mark_their_directories_but_reads_do_not() {
    let at = |dirs: &[&str]| -> Vec<Option<FilePath>> {
        dirs.iter().map(|d| if d.is_empty() { None } else { Some(path(d)) }).collect()
    };
    let notice = |kind, dirs: &[&str]| Notice::Changed { kind, dirs: at(dirs) };
    let notices = vec![
        notice(ChangeKind::Modify, &["b/target", "", "a/target"]),
        notice(ChangeKind::Access, &["c/target"]),
        Notice::Failed,
        notice(ChangeKind::Create, &[]),
        notice(ChangeKind::Remove, &["b/target"]),
        notice(ChangeKind::Any, &["d/target"]),
        notice(ChangeKind::Other, &[""]),
    ];
    let marked = vec![path("b/target"), path("a/target"), path("b/target"), path("d/target")];
    assert_eq!(changed_dirs(&notices), marked);
    assert_eq!(changed_dirs(&vec![notice(ChangeKind::Access, &["a/target"])]), vec![]);
    assert_eq!(changed_dirs(&vec![]), vec![]);
}

#[test]
fn watches_are_renewed_only_after_the_newest_flush() {
    let mut app = App::new(path("."), None, 0);
    let flush = |id| Flush { id, measurements: vec![] };
    let mut w = LiveWatcher::new();
    w.poll(&mut app, true, &vec![]);
    w.poll(&mut app, true, &vec![flush(1)]);
    assert!(!w.needs_rewatch(&vec![flush(1)], true));
    assert!(!w.needs_rewatch(&vec![], true));
    w.poll(&mut app, false, &vec![flush(1), flush(2)]);
    assert!(w.needs_rewatch(&vec![flush(1), flush(2)], true));
    assert!(!w.needs_rewatch(&vec![flush(1), flush(2)], false));
}

#[test]
fn projects_without_a_name_have_none() {
    let name = |p: &str| {
        let mut app = App::new(path("."), None, 0);
        app.set_discovered(vec![DiscoveredEntry::new(
            path(p),
            path("t"),
            OutputKind::default(),
        )]);
        app.entries[0].project_name()
    };
    assert_eq!(name("/work/proj"), "proj");
    assert_eq!(name("/work/proj/."), "proj");
    assert_eq!(name("/"), "");
    assert_eq!(name(".."), "");
    assert_eq!(name("a/.."), "");
}
