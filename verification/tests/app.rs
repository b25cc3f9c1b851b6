use cargo_shepherd::app::{App, DeleteOutcome};
use cargo_shepherd::file_path::FilePath;
use cargo_shepherd::order::SortKey;
use cargo_shepherd::scan::measure::{measure_target, record_entry};
use cargo_shepherd::scan::{DiscoveredEntry, Measurement, TargetEntry};

fn path(text: &str) -> FilePath {
    FilePath::new(text)
}

fn found(projects: &[&str]) -> Vec<DiscoveredEntry> {
    projects.iter().map(|p| DiscoveredEntry::from(path(p))).collect()
}

fn new_app() -> App {
    App::new(path("."), None, 0)
}

fn measured(dir: &str, size: u64) -> Measurement {
    Measurement { target_dir: path(dir), size, last_modified: Some(0) }
}

fn app_with_entries() -> App {
    let mut app = new_app();
    app.set_discovered(found(&["proj-big", "proj-small"]));
    app.apply_measurements(&[
        measured("proj-big/target", 100),
        measured("proj-small/target", 10),
    ]);
    app.finish_scan(None);
    app.navigated = true;
    app
}

#[test]
fn measurements_update_size_and_keep_selection_on_project() {
    let mut app = app_with_entries();
    app.table_state.select(Some(1));
    app.apply_measurements(&[measured("proj-small/target", 200)]);
    assert_eq!(app.entries[0].project_path, path("proj-small"));
    assert_eq!(app.total_size, 300);
    let selected = app
        .table_state
        .selected()
        .and_then(|i| app.entries.get(i))
        .expect("selection kept");
    assert_eq!(selected.project_path, path("proj-small"));
    assert_eq!(selected.size, Some(200));
}

#[test]
fn unknown_measurement_is_ignored() {
    let mut app = app_with_entries();
    app.apply_measurements(&[measured("gone/target", 999)]);
    assert_eq!(app.total_size, 110);
}

#[test]
fn discovered_rows_stay_pending_until_measured() {
    let mut app = new_app();
    app.set_discovered(found(&["proj-b", "proj-a"]));
    assert!(app.scanning);
    assert_eq!(app.total_size, 0);
    assert!(app.entries.iter().all(|e| e.size.is_none()));
    app.apply_measurements(&[measured("proj-a/target", 50)]);
    assert!(app.scanning);
    assert_eq!(app.total_size, 50);
    assert_eq!(app.entries[0].size, None);
    assert_eq!(app.entries[1].project_path, path("proj-a"));
    assert_eq!(app.entries[1].size, Some(50));
    app.finish_scan(None);
    assert!(!app.scanning);
    assert_eq!(app.entries[0].size, None);
}

#[test]
fn fresh_discovery_jumps_to_top() {
    let mut app = app_with_entries();
    app.table_state.select(Some(1));
    app.begin_scan(1);
    app.set_discovered(found(&["proj-small", "proj-big"]));
    assert_eq!(app.table_state.selected(), Some(0));
}

#[test]
fn measurements_pin_to_top_until_taken_over() {
    let mut app = new_app();
    app.set_discovered(found(&["proj-a", "proj-b"]));
    app.apply_measurements(&[measured("proj-b/target", 200)]);
    assert_eq!(app.entries[0].project_path, path("proj-a"));
    assert_eq!(app.table_state.selected(), Some(0));
}

#[test]
fn pending_rows_float_above_measured_in_size_order() {
    let mut app = new_app();
    app.set_discovered(found(&["proj-a", "proj-b"]));
    app.apply_measurements(&[measured("proj-b/target", 10)]);
    assert_eq!(app.entries[0].project_path, path("proj-a"));
    assert_eq!(app.entries[0].size, None);
    assert_eq!(app.entries[1].project_path, path("proj-b"));
    app.apply_measurements(&[measured("proj-a/target", 200)]);
    assert_eq!(app.entries[0].project_path, path("proj-a"));
    assert_eq!(app.entries[1].project_path, path("proj-b"));
}

#[test]
fn navigation_suppresses_auto_top() {
    let mut app = new_app();
    app.set_discovered(found(&["proj-a", "proj-b"]));
    app.next();
    assert_eq!(app.table_state.selected(), Some(1));
    app.apply_measurements(&[measured("proj-a/target", 200)]);
    assert_eq!(app.entries[0].project_path, path("proj-b"));
    assert_eq!(app.table_state.selected(), Some(0));
}

#[test]
fn deleted_and_recreated_dir_zeroes_then_restores_row() {
    let mut app = App::new(path("/tmp/targeter-test-recreate"), None, 0);
    app.set_discovered(found(&["/tmp/targeter-test-recreate/proj"]));
    app.apply_measurements(&[measured("/tmp/targeter-test-recreate/proj/target", 1)]);
    app.finish_scan(None);
    let target = path("/tmp/targeter-test-recreate/proj/target");

    app.apply_measurements(&[measure_target(&target, &None)]);
    assert_eq!(app.entries[0].size, Some(0));
    assert_eq!(app.entries[0].last_modified, None);

    let walk = Some(vec![record_entry(1, 2, 8, Some(5)), record_entry(1, 3, 8, Some(7))]);
    app.apply_measurements(&[measure_target(&target, &walk)]);
    assert!(app.entries[0].size.is_some_and(|s| s > 0));
    assert_eq!(app.entries[0].last_modified, Some(7));
}

#[test]
fn first_cache_measurement_creates_entry() {
    let mut app = app_with_entries();
    app.build_cache = None;
    app.build_cache_path = Some(path("/tmp/targeter-test-cache-arrival/build-cache"));
    let place = path("/tmp/targeter-test-cache-arrival/build-cache");

    app.apply_measurements(&[measure_target(&place, &None)]);
    assert!(app.build_cache.is_none());

    let walk = Some(vec![record_entry(1, 2, 8, Some(5))]);
    app.apply_measurements(&[measure_target(&place, &walk)]);
    let cache = app.build_cache.as_ref().expect("cache row created");
    assert!(cache.size.is_some_and(|s| s > 0));

    // From now on the row itself is updated, also when the cache goes away.
    app.apply_measurements(&[measure_target(&place, &None)]);
    let cache = app.build_cache.as_ref().expect("cache row kept");
    assert_eq!(cache.size, Some(0));
    assert_eq!(cache.last_modified, None);
    assert_eq!(app.total_size, 110);
}

#[test]
fn filter_alternation_narrows_to_matches() {
    let mut app = app_with_entries();
    app.set_filter("big|zzz".to_string());
    assert_eq!(app.visible_indices(), vec![0]);
    app.set_filter("proj-".to_string());
    assert_eq!(app.visible_indices().len(), 2);
}

#[test]
fn filter_matches_path_substring() {
    let mut app = new_app();
    app.set_discovered(found(&["ws/member-a", "other"]));
    app.set_filter("member".to_string());
    assert_eq!(app.visible_indices(), vec![1]);
}

#[test]
fn invalid_filter_keeps_last_good() {
    let mut app = app_with_entries();
    app.set_filter("big".to_string());
    assert_eq!(app.visible_indices(), vec![0]);
    app.set_filter("big(".to_string());
    assert!(app.filter_error.is_some());
    assert_eq!(app.visible_indices(), vec![0]);
    app.set_filter(String::new());
    assert!(app.filter_error.is_none());
    assert!(app.filter_regex.is_none());
    assert_eq!(app.visible_indices().len(), 2);
}

#[test]
fn filter_error_is_one_line() {
    let mut app = app_with_entries();
    app.set_filter("big(".to_string());
    assert_eq!(app.filter_error.as_deref(), Some("regex parse error:"));
    app.apply_filter("x".to_string(), Err("first\nsecond".to_string()));
    assert_eq!(app.filter_error.as_deref(), Some("first"));
    app.apply_filter("x".to_string(), Err(String::new()));
    assert_eq!(app.filter_error.as_deref(), Some("invalid regex"));
    assert_eq!(app.filter_text, "x");
}

#[test]
fn filter_resets_selection_and_nav_wraps_visible() {
    let mut app = app_with_entries();
    app.table_state.select(Some(1));
    app.set_filter("small".to_string());
    assert_eq!(app.visible_indices(), vec![1]);
    assert_eq!(app.table_state.selected(), Some(0));
    app.next();
    assert_eq!(app.table_state.selected(), Some(0));
    app.previous();
    assert_eq!(app.table_state.selected(), Some(0));
}

#[test]
fn filter_without_match_shows_nothing() {
    let mut app = app_with_entries();
    app.set_filter("zzz".to_string());
    assert!(app.visible_indices().is_empty());
    app.table_state.select(Some(1));
    app.next();
    assert_eq!(app.table_state.selected(), Some(1));
    assert!(app.delete_selected().is_none());
    app.finish_scan(None);
    assert_eq!(app.table_state.selected(), None);
}

#[test]
fn delete_selected_removes_target_and_zeroes_row() {
    let mut app = App::new(path("/root"), None, 0);
    app.set_discovered(found(&["/root/proj"]));
    app.apply_measurements(&[measured("/root/proj/target", 4)]);
    app.finish_scan(None);
    let plan = app.delete_selected().expect("a row is selected");
    assert_eq!(plan.target_dir, path("/root/proj/target"));
    app.finish_delete(plan, DeleteOutcome::Removed);
    assert_eq!(app.entries[0].size, Some(0));
    assert_eq!(app.entries[0].last_modified, None);
    assert_eq!(app.total_size, 0);
    assert!(app.delete_error.is_none());
}

#[test]
fn delete_selected_follows_filtered_selection() {
    let mut app = App::new(path("/root"), None, 0);
    app.set_discovered(found(&["/root/proj-a", "/root/proj-b"]));
    app.finish_scan(None);
    app.set_filter("proj-b".to_string());
    assert_eq!(app.visible_indices().len(), 1);
    let plan = app.delete_selected().expect("a row is selected");
    assert_eq!(plan.target_dir, path("/root/proj-b/target"));
    assert!(plan.neighbor.is_none());
}

fn delete(app: &mut App) {
    if let Some(plan) = app.delete_selected() {
        app.finish_delete(plan, DeleteOutcome::Missing);
    }
}

fn selected_project(app: &App) -> FilePath {
    app.table_state
        .selected()
        .and_then(|i| app.visible_indices().get(i).copied())
        .and_then(|i| app.entries.get(i))
        .map(|e| e.project_path.clone())
        .expect("selection kept")
}

#[test]
fn delete_selected_moves_to_neighbor_row() {
    let mut app = app_with_entries();
    app.table_state.select(Some(1));
    delete(&mut app);
    assert_eq!(selected_project(&app), path("proj-big"));
    app.table_state.select(Some(0));
    delete(&mut app);
    assert_eq!(selected_project(&app), path("proj-small"));
    let mut solo = new_app();
    solo.set_discovered(found(&["only"]));
    delete(&mut solo);
    assert_eq!(solo.table_state.selected(), Some(0));
}

#[test]
fn failed_delete_is_reported_and_changes_nothing_else() {
    let mut app = app_with_entries();
    let plan = app.delete_selected().expect("a row is selected");
    app.finish_delete(plan, DeleteOutcome::Failed("denied".to_string()));
    assert_eq!(app.delete_error.as_deref(), Some("delete proj-big/target: denied"));
    assert_eq!(app.total_size, 110);
    delete(&mut app);
    assert!(app.delete_error.is_none());
    assert_eq!(app.total_size, 10);
}

#[test]
fn paging_jumps_one_screen_and_clamps() {
    let mut app = new_app();
    let projects: Vec<DiscoveredEntry> = (0..30)
        .map(|i| DiscoveredEntry::from(path(&format!("proj-{i:02}"))))
        .collect();
    app.set_discovered(projects);
    app.finish_scan(None);
    app.page_len = 10;
    app.table_state.select(Some(0));
    app.page_down();
    assert_eq!(app.table_state.selected(), Some(10));
    app.page_down();
    assert_eq!(app.table_state.selected(), Some(20));
    app.page_down();
    assert_eq!(app.table_state.selected(), Some(29));
    app.page_up();
    assert_eq!(app.table_state.selected(), Some(19));
    app.page_up();
    app.page_up();
    assert_eq!(app.table_state.selected(), Some(0));
}

#[test]
fn page_of_no_rows_moves_by_one() {
    let mut app = app_with_entries();
    app.page_len = 0;
    app.table_state.select(Some(0));
    app.page_down();
    assert_eq!(app.table_state.selected(), Some(1));
    app.page_up();
    assert_eq!(app.table_state.selected(), Some(0));
}

#[test]
fn steps_wrap_around_and_undo_each_other() {
    let mut app = app_with_entries();
    app.table_state.select(Some(1));
    app.next();
    assert_eq!(app.table_state.selected(), Some(0));
    app.previous();
    assert_eq!(app.table_state.selected(), Some(1));
    app.top();
    assert_eq!(app.table_state.selected(), Some(0));
    app.bottom();
    assert_eq!(app.table_state.selected(), Some(1));
}

#[test]
fn keys_of_the_order_cycle() {
    let mut app = app_with_entries();
    assert_eq!(app.sort, SortKey::Size);
    app.cycle_sort();
    assert_eq!(app.sort, SortKey::Modified);
    app.cycle_sort();
    assert_eq!(app.sort, SortKey::Name);
    app.cycle_sort();
    assert_eq!(app.sort, SortKey::Size);
    assert_eq!(SortKey::default(), SortKey::Size);
}

fn project_order(app: &App) -> Vec<String> {
    app.entries.iter().map(|e| e.project_name()).collect()
}

#[test]
fn orders_by_time_and_by_name() {
    let mut app = new_app();
    app.set_discovered(found(&["c", "a", "b", "d"]));
    app.apply_measurements(&[
        Measurement { target_dir: path("a/target"), size: 1, last_modified: Some(10) },
        Measurement { target_dir: path("b/target"), size: 1, last_modified: Some(30) },
        Measurement { target_dir: path("c/target"), size: 1, last_modified: None },
    ]);
    // Equal sizes keep the order that they had; what is not measured comes first.
    assert_eq!(project_order(&app), vec!["d", "a", "b", "c"]);
    app.cycle_sort();
    assert_eq!(project_order(&app), vec!["b", "a", "c", "d"]);
    app.cycle_sort();
    assert_eq!(project_order(&app), vec!["a", "b", "c", "d"]);
}

#[test]
fn last_measurement_of_a_batch_wins() {
    let mut app = app_with_entries();
    app.apply_measurements(&[
        measured("proj-big/target", 1),
        measured("proj-big/./target/", 7),
        measured("proj-big//target", 3),
    ]);
    let big = app.entries.iter().find(|e| e.project_name() == "proj-big");
    assert_eq!(big.and_then(|e| e.size), Some(3));
}

#[test]
fn scan_end_takes_over_the_build_cache() {
    let mut app = app_with_entries();
    app.finish_scan(Some(TargetEntry {
        project_path: path("/c"),
        target_dir: path("/c"),
        kind: Default::default(),
        size: Some(3),
        last_modified: Some(4),
    }));
    app.apply_measurements(&[Measurement {
        target_dir: path("/c"),
        size: 9,
        last_modified: Some(5),
    }]);
    let cache = app.build_cache.as_ref().expect("cache");
    assert_eq!((cache.size, cache.last_modified), (Some(9), Some(5)));
    assert_eq!(app.total_size, 110);
}
