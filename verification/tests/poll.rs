use cargo_shepherd::app::App;
use cargo_shepherd::file_path::FilePath;
use cargo_shepherd::poll::{
    Poller, Tier, ACTIVE_INTERVAL, DORMANT_INTERVAL, UNKNOWN_INTERVAL,
};
use cargo_shepherd::scan::{DiscoveredEntry, Measurement};

const SECOND: i128 = 1_000_000_000;
const WALL: i128 = 1_700_000_000 * SECOND;
const NOW: u128 = 5_000_000_000_000;

fn root() -> FilePath {
    FilePath::new("/tmp/targeter-test-poll")
}

fn target_dir(proj: &str) -> FilePath {
    root().join(proj).join("target")
}

fn found(projects: &[&str]) -> Vec<DiscoveredEntry> {
    projects.iter().map(|p| DiscoveredEntry::from(root().join(p))).collect()
}

fn app_with_targets() -> App {
    let mut app = App::new(root(), None, NOW);
    app.set_discovered(found(&["proj-a", "proj-b"]));
    app.apply_measurements(&[measurement("proj-a", 100), measurement("proj-b", 50)]);
    app.finish_scan(None);
    app
}

fn missing_measurement(proj: &str) -> Measurement {
    Measurement { target_dir: target_dir(proj), size: 0, last_modified: None }
}

fn measurement(proj: &str, size: u64) -> Measurement {
    Measurement {
        target_dir: target_dir(proj),
        size,
        last_modified: Some(WALL - 3600 * SECOND),
    }
}

fn stale_measurement(proj: &str, size: u64) -> Measurement {
    Measurement { target_dir: target_dir(proj), size, last_modified: Some(0) }
}

fn tier_of(poller: &Poller, proj: &str) -> Tier {
    poller
        .dirs
        .iter()
        .find(|t| t.target_dir == target_dir(proj))
        .expect("dir followed")
        .tier
}

#[test]
fn change_promotes_to_active_and_active_never_relaxes() {
    let app = app_with_targets();
    let mut poller = Poller::new();
    poller.reset(&app, NOW, WALL);
    assert_eq!(tier_of(&poller, "proj-a"), Tier::Unknown(0));

    let mut app2 = app_with_targets();
    poller.apply(&vec![measurement("proj-a", 200)], &mut app2, NOW);
    assert_eq!(tier_of(&poller, "proj-a"), Tier::Active);

    for _ in 0..10 {
        let mut app2 = app_with_targets();
        poller.apply(&vec![measurement("proj-a", 200)], &mut app2, NOW);
    }
    assert_eq!(tier_of(&poller, "proj-a"), Tier::Active);
}

#[test]
fn unknown_relaxes_after_six_quiet_polls() {
    let app = app_with_targets();
    let mut poller = Poller::new();
    poller.reset(&app, NOW, WALL);
    let mut app2 = app_with_targets();
    for i in 0..5 {
        poller.apply(&vec![measurement("proj-a", 100)], &mut app2, NOW);
        assert_eq!(tier_of(&poller, "proj-a"), Tier::Unknown(i + 1));
    }
    poller.apply(&vec![measurement("proj-a", 100)], &mut app2, NOW);
    assert_eq!(tier_of(&poller, "proj-a"), Tier::SemiDormant(0));
}

#[test]
fn semidormant_relaxes_to_dormant_and_change_wakes() {
    let app = app_with_targets();
    let mut poller = Poller::new();
    poller.reset(&app, NOW, WALL);
    let mut app2 = app_with_targets();
    for _ in 0..12 {
        poller.apply(&vec![measurement("proj-a", 100)], &mut app2, NOW);
    }
    assert_eq!(tier_of(&poller, "proj-a"), Tier::Dormant);

    poller.apply(&vec![measurement("proj-a", 101)], &mut app2, NOW);
    assert_eq!(tier_of(&poller, "proj-a"), Tier::Active);
}

#[test]
fn due_targets_follow_tier_intervals() {
    let app = app_with_targets();
    let mut poller = Poller::new();
    let start = NOW;
    poller.reset(&app, start, WALL);
    assert!(poller.due_targets(start).is_empty());
    assert_eq!(poller.due_targets(start + UNKNOWN_INTERVAL).len(), 2);

    let mut app2 = app_with_targets();
    let change_at = start + UNKNOWN_INTERVAL;
    poller.apply(&vec![measurement("proj-a", 200)], &mut app2, change_at);
    assert_eq!(
        poller.due_targets(change_at + 2_000_000_000),
        vec![target_dir("proj-b")]
    );
    assert!(poller
        .due_targets(change_at + ACTIVE_INTERVAL)
        .contains(&target_dir("proj-a")));
}

#[test]
fn missing_dir_goes_active_until_recreation() {
    let mut app = App::new(root(), None, NOW);
    app.set_discovered(found(&["proj-gone"]));
    app.apply_measurements(&[measurement("proj-gone", 100)]);
    app.finish_scan(None);
    let mut poller = Poller::new();
    poller.reset(&app, NOW, WALL);
    poller.apply(&vec![missing_measurement("proj-gone")], &mut app, NOW);
    assert_eq!(app.entries[0].size, Some(0));
    assert!(app.entries[0].last_modified.is_none());
    assert_eq!(tier_of(&poller, "proj-gone"), Tier::Active);
    poller.apply(&vec![missing_measurement("proj-gone")], &mut app, NOW);
    assert_eq!(tier_of(&poller, "proj-gone"), Tier::Active);
    poller.apply(&vec![measurement("proj-gone", 50)], &mut app, NOW);
    assert_eq!(tier_of(&poller, "proj-gone"), Tier::Active);
}

#[test]
fn reset_restarts_tiers_with_scan_as_baseline() {
    let app = app_with_targets();
    let mut poller = Poller::new();
    poller.reset(&app, NOW, WALL);
    let mut app2 = app_with_targets();
    poller.apply(&vec![measurement("proj-a", 200)], &mut app2, NOW);
    assert_eq!(tier_of(&poller, "proj-a"), Tier::Active);
    poller.reset(&app2, NOW, WALL);
    assert_eq!(tier_of(&poller, "proj-a"), Tier::Unknown(0));
}

#[test]
fn stale_dir_skips_unknown_straight_to_dormant() {
    let mut app = App::new(root(), None, NOW);
    app.set_discovered(found(&["proj-old"]));
    app.apply_measurements(&[stale_measurement("proj-old", 100)]);
    app.finish_scan(None);
    let mut poller = Poller::default();
    poller.reset(&app, NOW, WALL);
    assert_eq!(tier_of(&poller, "proj-old"), Tier::Dormant);
    assert!(poller.due_targets(NOW + UNKNOWN_INTERVAL).is_empty());
    assert_eq!(poller.due_targets(NOW + DORMANT_INTERVAL).len(), 1);
    poller.apply(&vec![stale_measurement("proj-old", 200)], &mut app, NOW);
    assert_eq!(tier_of(&poller, "proj-old"), Tier::Active);
}

#[test]
fn first_polls_are_spread_in_whole_milliseconds() {
    let mut app = App::new(root(), None, NOW);
    app.set_discovered(found(&["a", "b", "c"]));
    app.finish_scan(None);
    let mut poller = Poller::new();
    poller.reset(&app, NOW, WALL);
    let due: Vec<u128> = poller.dirs.iter().map(|d| d.next_due - NOW).collect();
    assert_eq!(due, vec![3_333_000_000, 6_666_000_000, 10_000_000_000]);
}

#[test]
fn staleness_starts_at_thirty_days() {
    let day = 86_400 * SECOND;
    let tier_at = |age: i128| {
        let mut app = App::new(root(), None, NOW);
        app.set_discovered(found(&["a"]));
        app.apply_measurements(&[Measurement {
            target_dir: target_dir("a"),
            size: 1,
            last_modified: Some(WALL - age),
        }]);
        let mut poller = Poller::new();
        poller.reset(&app, NOW, WALL);
        tier_of(&poller, "a")
    };
    assert_eq!(tier_at(30 * day - 1), Tier::Unknown(0));
    assert_eq!(tier_at(30 * day), Tier::Dormant);
    assert_eq!(tier_at(-5 * day), Tier::Unknown(0));
}

#[test]
fn the_build_cache_rides_along() {
    let mut app = App::new(root(), Some(FilePath::new("/home/u/.cargo/build-cache")), NOW);
    app.set_discovered(found(&["a"]));
    app.finish_scan(None);
    let mut poller = Poller::new();
    poller.reset(&app, NOW, WALL);
    assert_eq!(poller.dirs.len(), 2);
    assert_eq!(poller.dirs[1].target_dir, FilePath::new("/home/u/.cargo/build-cache"));
    assert_eq!(poller.dirs[1].last_size, None);
}

#[test]
fn one_batch_is_under_way_at_a_time() {
    let mut app = app_with_targets();
    let mut poller = Poller::new();
    poller.reset(&app, NOW, WALL);
    let later = NOW + UNKNOWN_INTERVAL;
    let batch = poller.poll(&mut app, &vec![], later);
    assert_eq!(batch, vec![target_dir("proj-a"), target_dir("proj-b")]);
    assert!(poller.in_flight);
    assert!(poller.poll(&mut app, &vec![], later).is_empty());
    let arrived = vec![vec![measurement("proj-a", 300), measurement("proj-b", 50)]];
    assert!(poller.poll(&mut app, &arrived, later).is_empty());
    assert!(!poller.in_flight);
    assert_eq!(app.total_size, 350);
    assert_eq!(tier_of(&poller, "proj-a"), Tier::Active);
    assert_eq!(tier_of(&poller, "proj-b"), Tier::Unknown(1));
    assert_eq!(
        poller.poll(&mut app, &vec![], later + ACTIVE_INTERVAL),
        vec![target_dir("proj-a")]
    );
}
