use cargo_shepherd::app::{App, DeleteOutcome};
use cargo_shepherd::file_path::FilePath;
use cargo_shepherd::scan::DiscoveredEntry;
use cargo_shepherd::session::Session;
use cargo_shepherd::ui::input::{handle_key, Action, KeyCode, KeyEvent};

fn key(code: KeyCode) -> KeyEvent {
    KeyEvent { code, control: false }
}

fn control(c: char) -> KeyEvent {
    KeyEvent { code: KeyCode::Char(c), control: true }
}

fn new_app() -> App {
    App::new(FilePath::new("."), None, 0)
}

fn app_with(projects: &[&str]) -> App {
    let mut app = new_app();
    app.set_discovered(
        projects.iter().map(|p| DiscoveredEntry::from(FilePath::new(p))).collect(),
    );
    app
}

#[test]
fn esc_clears_applied_filter() {
    let mut app = new_app();
    app.set_filter("big".to_string());
    assert!(matches!(handle_key(&mut app, key(KeyCode::Esc)), Action::Continue));
    assert!(app.filter_text.is_empty());
    assert!(app.filter_regex.is_none());
}

#[test]
fn esc_quits_without_filter() {
    let mut app = new_app();
    assert!(matches!(handle_key(&mut app, key(KeyCode::Esc)), Action::Quit));
}

#[test]
fn esc_while_typing_clears_and_exits_mode() {
    let mut app = new_app();
    app.filtering = true;
    app.set_filter("bi".to_string());
    assert!(matches!(handle_key(&mut app, key(KeyCode::Esc)), Action::Continue));
    assert!(!app.filtering);
    assert!(app.filter_text.is_empty());
}

#[test]
fn esc_while_typing_empty_just_exits_mode() {
    let mut app = new_app();
    app.filtering = true;
    assert!(matches!(handle_key(&mut app, key(KeyCode::Esc)), Action::Continue));
    assert!(!app.filtering);
}

#[test]
fn d_deletes_selected_target() {
    let mut app = app_with(&["/tmp/targeter-test-input-delete/proj"]);
    let plan = match handle_key(&mut app, key(KeyCode::Char('d'))) {
        Action::Delete(plan) => plan,
        _ => panic!("a deletion is planned"),
    };
    assert_eq!(
        plan.target_dir,
        FilePath::new("/tmp/targeter-test-input-delete/proj/target")
    );
    app.finish_delete(plan, DeleteOutcome::Removed);
    assert_eq!(app.entries[0].size, Some(0));
}

#[test]
fn d_while_filtering_types_instead_of_deleting() {
    let mut app = app_with(&["/tmp/targeter-test-input-delete-filter/proj"]);
    app.filtering = true;
    assert!(matches!(handle_key(&mut app, key(KeyCode::Char('d'))), Action::Continue));
    assert_eq!(app.entries[0].size, None);
    assert_eq!(app.filter_text, "d");
}

#[test]
fn d_without_a_row_does_nothing() {
    let mut app = new_app();
    assert!(matches!(handle_key(&mut app, key(KeyCode::Char('d'))), Action::Continue));
    assert!(app.navigated);
}

#[test]
fn page_keys_jump_one_screen() {
    let mut app = new_app();
    let projects: Vec<DiscoveredEntry> = (0..30)
        .map(|i| DiscoveredEntry::from(FilePath::new(&format!("proj-{i:02}"))))
        .collect();
    app.set_discovered(projects);
    app.finish_scan(None);
    app.page_len = 10;
    app.table_state.select(Some(0));
    assert!(matches!(handle_key(&mut app, key(KeyCode::PageDown)), Action::Continue));
    assert_eq!(app.table_state.selected(), Some(10));
    assert!(matches!(handle_key(&mut app, key(KeyCode::PageUp)), Action::Continue));
    assert_eq!(app.table_state.selected(), Some(0));
}

#[test]
fn control_c_always_quits() {
    let mut app = new_app();
    assert!(matches!(handle_key(&mut app, control('c')), Action::Quit));
    app.filtering = true;
    assert!(matches!(handle_key(&mut app, control('c')), Action::Quit));
    assert!(matches!(handle_key(&mut app, key(KeyCode::Char('c'))), Action::Continue));
    assert_eq!(app.filter_text, "c");
}

#[test]
fn typing_edits_the_filter() {
    let mut app = app_with(&["alpha", "beta"]);
    handle_key(&mut app, key(KeyCode::Char('/')));
    assert!(app.filtering);
    for c in ['b', 'e', 'x'] {
        handle_key(&mut app, key(KeyCode::Char(c)));
    }
    assert_eq!(app.filter_text, "bex");
    assert!(app.visible_indices().is_empty());
    handle_key(&mut app, key(KeyCode::Backspace));
    assert_eq!(app.filter_text, "be");
    assert_eq!(app.visible_indices(), vec![1]);
    handle_key(&mut app, key(KeyCode::Enter));
    assert!(!app.filtering);
    assert_eq!(app.filter_text, "be");
    app.filtering = true;
    handle_key(&mut app, control('u'));
    assert_eq!(app.filter_text, "");
    handle_key(&mut app, key(KeyCode::Backspace));
    assert_eq!(app.filter_text, "");
    handle_key(&mut app, key(KeyCode::Other));
    assert!(app.filtering);
}

#[test]
fn letters_move_and_sort() {
    let mut app = app_with(&["a", "b", "c"]);
    handle_key(&mut app, key(KeyCode::Char('j')));
    assert_eq!(app.table_state.selected(), Some(1));
    handle_key(&mut app, key(KeyCode::Down));
    assert_eq!(app.table_state.selected(), Some(2));
    handle_key(&mut app, key(KeyCode::Char('k')));
    handle_key(&mut app, key(KeyCode::Up));
    assert_eq!(app.table_state.selected(), Some(0));
    handle_key(&mut app, key(KeyCode::Char('G')));
    assert_eq!(app.table_state.selected(), Some(2));
    handle_key(&mut app, key(KeyCode::Char('g')));
    assert_eq!(app.table_state.selected(), Some(0));
    handle_key(&mut app, key(KeyCode::Char('s')));
    assert_eq!(app.sort.label(), "modified");
    assert!(matches!(handle_key(&mut app, key(KeyCode::Char('q'))), Action::Quit));
    assert!(matches!(handle_key(&mut app, key(KeyCode::Char('x'))), Action::Continue));
}

#[test]
fn rescan_starts_at_once() {
    let mut session = Session::new(FilePath::new("."), None, 0);
    session.app.finish_scan(None);
    session.app.navigated = true;
    assert!(matches!(session.press(key(KeyCode::Char('r')), 77), Action::Rescan));
    assert!(session.app.scanning);
    assert!(!session.app.navigated);
    assert_eq!(session.app.loading_start, 77);
}
