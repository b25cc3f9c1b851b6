use cargo_shepherd::file_path::FilePath;
use cargo_shepherd::scan::cache::build_cache_entry_at;
use cargo_shepherd::scan::discover::{
    keep_entry, manifest_beside, scan_stream, visit_entry, walk_rule, ScanEvent, Visited,
};
use cargo_shepherd::scan::measure::{measure_target, record_entry, recursive_scan_target, EntryRec};
use cargo_shepherd::scan::search::{scan, Listed, Reading, Search};

const SECOND: i128 = 1_000_000_000;
const NOW: i128 = 1_700_000_000 * SECOND;

/// A tree of files and directories in memory; directories end in a slash.
struct Tree(Vec<&'static str>);

impl Tree {
    fn holds(&self, path: &FilePath, is_dir: bool) -> bool {
        self.0
            .iter()
            .any(|p| FilePath::new(p) == *path && p.ends_with('/') == is_dir)
    }

    fn children(&self, dir: &FilePath) -> Vec<(FilePath, bool)> {
        self.0
            .iter()
            .filter(|p| FilePath::new(p).parent().as_ref() == Some(dir))
            .map(|p| (FilePath::new(p), p.ends_with('/')))
            .collect()
    }

    /// Walks the tree and returns the projects in it.
    fn discover(&self, root: &str) -> Vec<FilePath> {
        let mut projects = Vec::new();
        let mut left = vec![(FilePath::new(root), true, 0)];
        while let Some((path, is_dir, depth)) = left.pop() {
            let rule = walk_rule(depth, path.file_name().unwrap_or_default());
            let beside = manifest_beside(&path).is_some_and(|m| self.holds(&m, false));
            if !keep_entry(rule, beside) {
                continue;
            }
            let visited = Visited {
                is_symlink: false,
                is_dir,
                has_manifest: self.holds(&path.join("Cargo.toml"), false),
                has_target: self.holds(&path.join("target"), true),
            };
            visit_entry(&path, visited, &mut projects);
            for (child, is_dir) in self.children(&path) {
                left.push((child, is_dir, depth + 1));
            }
        }
        projects
    }

    /// Searches the tree, one directory after the other, for projects.
    fn search(&self, root: &str) -> Vec<FilePath> {
        let mut search = Search::new(FilePath::new(root));
        while let Some(dir) = search.next() {
            let listing = self
                .children(&dir)
                .iter()
                .map(|(path, is_dir)| Listed {
                    name: path.file_name().unwrap_or_default().to_vec(),
                    is_dir: *is_dir,
                })
                .collect();
            search.visit(dir, &listing);
        }
        search.projects
    }
}

/// A project, one under `.git`, a bare `target` and a plain directory.
fn setup_tree() -> Tree {
    Tree(vec![
        "/r/proj-a/",
        "/r/proj-a/target/",
        "/r/proj-a/Cargo.toml",
        "/r/proj-a/target/blob.bin",
        "/r/proj-a/.git/",
        "/r/proj-a/.git/Cargo.toml",
        "/r/proj-a/.git/target/",
        "/r/loose-target/",
        "/r/loose-target/target/",
        "/r/plain/",
    ])
}

/// The records of a directory and of one file of five bytes in it.
fn blob_records() -> Vec<EntryRec> {
    vec![
        record_entry(1, 1, 8, Some(NOW)),
        record_entry(1, 2, 8, Some(NOW)),
    ]
}

#[test]
fn discover_finds_only_projects_with_cargo_toml_and_target() {
    assert_eq!(setup_tree().discover("/r"), vec![FilePath::new("/r/proj-a")]);
    let m = measure_target(&FilePath::new("/r/proj-a/target"), &Some(blob_records()));
    assert!(m.size >= 5);
    assert!(m.last_modified.is_some_and(|t| t > 0));
}

#[test]
fn scan_finds_only_projects_with_cargo_toml_and_target() {
    let projects = setup_tree().search("/r");
    let (size, last_modified) = recursive_scan_target(&Some(blob_records()));
    let readings: Vec<Reading> = projects
        .into_iter()
        .map(|project_path| Reading { project_path, size, last_modified })
        .collect();
    let entries = scan(&readings);
    assert_eq!(entries.len(), 1);
    assert_eq!(entries[0].project_name(), "proj-a");
    assert!(entries[0].size.is_some_and(|s| s >= 5));
    assert!(entries[0].last_modified > Some(0));
}

#[test]
fn scan_hardlinked_file_counts_once_like_du() {
    let mut recs = vec![
        record_entry(1, 1, 8, Some(NOW)),
        record_entry(1, 2, 8, Some(NOW)),
        record_entry(1, 3, 8, Some(NOW)),
    ];
    let (alone, _) = recursive_scan_target(&Some(recs.clone()));
    recs.push(record_entry(1, 2, 8, Some(NOW)));
    let (deduped, mtime) = recursive_scan_target(&Some(recs));
    assert_eq!(deduped, alone);
    assert!(mtime > 0);
    assert_eq!(recursive_scan_target(&None), (0, 0));
}

/// A workspace without output whose member has some.
fn nested_tree() -> Tree {
    Tree(vec![
        "/r/workspace/",
        "/r/workspace/Cargo.toml",
        "/r/workspace/member/",
        "/r/workspace/member/Cargo.toml",
        "/r/workspace/member/target/",
        "/r/workspace/member/target/blob.bin",
    ])
}

#[test]
fn discover_nested_workspace_member_is_found() {
    let projects = nested_tree().discover("/r");
    assert_eq!(projects, vec![FilePath::new("/r/workspace/member")]);
    let mtime = measure_target(&projects[0].join("target"), &Some(blob_records()))
        .last_modified
        .expect("target exists");
    assert!(NOW - mtime < 3_600 * SECOND);
}

#[test]
fn scan_nested_workspace_member_is_found() {
    let projects = nested_tree().search("/r");
    assert_eq!(projects, vec![FilePath::new("/r/workspace/member")]);
    let (_, mtime) = recursive_scan_target(&Some(blob_records()));
    assert!(NOW - mtime < 3_600 * SECOND);
}

#[test]
fn bare_targets_may_hide_projects() {
    let tree = Tree(vec![
        "/r/target/",
        "/r/target/inner/",
        "/r/target/inner/Cargo.toml",
        "/r/target/inner/target/",
        "/r/target/inner/target/deep/",
        "/r/target/inner/target/deep/Cargo.toml",
        "/r/target/inner/target/deep/target/",
    ]);
    let inner = vec![FilePath::new("/r/target/inner")];
    assert_eq!(tree.discover("/r"), inner);
    assert_eq!(tree.search("/r"), inner);
}

#[test]
fn scan_build_cache_entry_measures_present_dir() {
    let place = FilePath::new("/tmp/targeter-test-build-cache/build-cache");
    let entry = build_cache_entry_at(&place, true, false, &blob_records()).expect("cache dir exists");
    assert_eq!(entry.project_path, place);
    assert!(entry.size.is_some_and(|s| s >= 8));
    assert!(entry.last_modified > Some(0));
}

#[test]
fn scan_build_cache_entry_missing_dir_is_none() {
    let place = FilePath::new("/tmp/targeter-test-build-cache-missing/build-cache");
    assert!(build_cache_entry_at(&place, false, false, &vec![]).is_none());
    assert!(build_cache_entry_at(&place, true, true, &blob_records()).is_none());
}

#[test]
fn stream_delivers_discovery_before_measurements() {
    let projects = setup_tree().discover("/r");
    let events = scan_stream(projects, &vec![Some(blob_records())], None);
    assert!(matches!(
        &events[0],
        ScanEvent::Discovered(found)
            if found.len() == 1 && found[0].project_path == FilePath::new("/r/proj-a")
    ));
    assert!(events.iter().any(|event| matches!(
        event,
        ScanEvent::Measured(m)
            if m.target_dir == FilePath::new("/r/proj-a/target") && m.size >= 5
    )));
    assert!(matches!(events.last(), Some(ScanEvent::Done { .. })));
    assert_eq!(events.len(), 3);
}

#[test]
fn searches_find_each_project_once() {
    let tree = Tree(vec![
        "/r/a/",
        "/r/a/Cargo.toml",
        "/r/a/target/",
        "/r/a/b/",
        "/r/a/b/Cargo.toml",
        "/r/a/b/target/",
        "/r/a/.git/",
        "/r/a/.git/Cargo.toml",
        "/r/a/.git/target/",
        "/r/a/target/c/",
        "/r/a/target/c/Cargo.toml",
        "/r/a/target/c/target/",
        "/r/d/",
        "/r/d/target",
        "/r/d/Cargo.toml/",
    ]);
    for root in ["/r", "/r/"] {
        let mut found: Vec<String> = tree.search(root).iter().map(FilePath::to_text).collect();
        found.sort();
        assert_eq!(found, vec!["/r/a", "/r/a/b"], "{root}");
    }
    let mut search = Search::new(FilePath::new("nowhere"));
    assert_eq!(search.next(), Some(FilePath::new("nowhere")));
    search.visit(FilePath::new("nowhere"), &vec![]);
    assert_eq!(search.next(), None);
    assert!(search.projects.is_empty());
}
