use tudiff::rows::flatten_tree_with_filter;
use tudiff::{
    Action, App, AppMode, Area, DirStats, DirectoryComparison, EntryMeta, FileNode, FileStatus, FilterMode, Key,
    KeyInput, PendingComparison, ScanEntry, ScannedTree,
};

fn dir() -> EntryMeta {
    EntryMeta { is_dir: true, size: 0, modified: None }
}

fn file(size: u64) -> EntryMeta {
    EntryMeta { is_dir: false, size, modified: Some(0) }
}

fn entry(path: &str, meta: EntryMeta) -> ScanEntry {
    ScanEntry { path: path.split('/').map(|s| s.to_string()).collect(), meta }
}

fn comparison(left: Vec<ScanEntry>, right: Vec<ScanEntry>) -> DirectoryComparison {
    let l = ScannedTree { root: "/l".to_string(), root_name: "l".to_string(), entries: left };
    let r = ScannedTree { root: "/r".to_string(), root_name: "r".to_string(), entries: right };
    let pending = PendingComparison::align(&l, &r);
    let verdicts = vec![true; pending.checks().len()];
    DirectoryComparison::new(pending, &verdicts)
}

fn flat_files(n: usize) -> Vec<ScanEntry> {
    (0..n).map(|i| entry(&format!("f{:02}", i), file(1))).collect()
}

fn press(key: Key) -> KeyInput {
    KeyInput { key, ctrl: false, press: true }
}

#[test]
fn moving_selection_keeps_panels_in_step() {
    let mut app = App::new(comparison(flat_files(10), flat_files(10)));
    assert_eq!(app.left_items.len(), 10);
    app.left_selected = Some(2);
    app.move_selection(3);
    assert_eq!(app.left_selected, Some(5));
    assert_eq!(app.right_selected, Some(5));
    app.move_selection(100);
    assert_eq!(app.left_selected, Some(9));
    app.move_selection(-100);
    assert_eq!(app.left_selected, Some(0));
    assert_eq!(app.right_selected, Some(0));
}

#[test]
fn mirrored_selection_is_clamped_to_the_shorter_panel() {
    let mut left = flat_files(10);
    left.push(entry("zz", file(1)));
    let mut app = App::new(comparison(left, flat_files(3)));
    app.set_filter(FilterMode::Different);
    assert_eq!(app.left_items.len(), 8);
    assert_eq!(app.right_items.len(), 8);
    app.set_filter(FilterMode::All);
    app.scroll_to_bottom();
    assert_eq!(app.left_selected, Some(10));
    assert_eq!(app.right_selected, Some(10));
    app.right_items.truncate(3);
    app.left_selected = Some(2);
    app.move_selection(5);
    assert_eq!(app.left_selected, Some(7));
    assert_eq!(app.right_selected, Some(2));
    app.scroll_to_bottom();
    assert_eq!(app.left_selected, Some(10));
    assert_eq!(app.right_selected, Some(2));
    app.scroll_to_top();
    assert_eq!(app.left_selected, Some(0));
    assert_eq!(app.right_selected, Some(0));
}

#[test]
fn jumping_to_the_end_mirrors_the_index() {
    let mut app = App::new(comparison(flat_files(10), flat_files(10)));
    app.left_items.truncate(3);
    app.scroll_to_bottom();
    assert_eq!(app.left_selected, Some(2));
    assert_eq!(app.right_selected, Some(2));
    app.left_items.clear();
    app.left_selected = Some(1);
    app.scroll_to_bottom();
    assert_eq!(app.left_selected, Some(1));
}

#[test]
fn switching_panels_carries_the_index() {
    let mut app = App::new(comparison(flat_files(4), flat_files(4)));
    app.left_selected = Some(3);
    app.handle_key_event(press(Key::Right));
    assert_eq!(app.active_panel, 1);
    assert_eq!(app.right_selected, Some(3));
}

#[test]
fn rows_follow_expansion_and_filter() {
    let c = comparison(
        vec![entry("d", dir()), entry("d/x", file(1)), entry("y", file(2))],
        vec![entry("d", dir()), entry("y", file(2))],
    );
    let rows = flatten_tree_with_filter(&c.left_tree, 0, FilterMode::All);
    assert_eq!(rows.len(), 2);
    assert_eq!(rows[0].display, "\u{1F4C1} d");
    assert_eq!(rows[1].display, "\u{1F4C4} y");
    let mut app = App::new(c);
    app.handle_key_event(press(Key::Enter));
    assert_eq!(app.left_items.len(), 3);
    assert_eq!(app.right_items.len(), 3);
    assert_eq!(app.left_items[0].display, "\u{1F4C2} d");
    assert_eq!(app.left_items[1].display, "  \u{1F4C4} x");
    assert_eq!(app.right_items[1].display, "  ");
    assert_eq!(app.right_items[1].status, FileStatus::LeftOnly);
    app.handle_key_event(press(Key::Char('3')));
    assert_eq!(app.filter_mode, FilterMode::DifferentNotOrphans);
    assert_eq!(app.left_items.len(), 0);
    app.handle_key_event(press(Key::Char('2')));
    assert_eq!(app.left_items.len(), 2);
}

#[test]
fn refresh_keeps_expansion_by_path() {
    let before = comparison(
        vec![entry("a", dir()), entry("a/b", dir()), entry("a/c", dir())],
        vec![entry("a", dir()), entry("a/b", dir()), entry("a/c", dir())],
    );
    let mut app = App::new(before);
    app.expand_all();
    app.left_selected = Some(2);
    app.handle_key_event(press(Key::Enter));
    app.left_selected = Some(0);
    app.copy_info = None;
    app.save_current_state();
    assert_eq!(app.start_refresh(), true);
    assert_eq!(app.start_refresh(), false);
    let after = comparison(
        vec![entry("a", dir()), entry("a/c", dir()), entry("a/d", dir())],
        vec![entry("a", dir()), entry("a/c", dir()), entry("a/d", dir())],
    );
    app.on_refresh_complete(after);
    assert!(!app.is_refreshing);
    let a = &app.comparison.left_tree.children[0];
    assert!(a.expanded);
    let c = a.children.iter().find(|n| n.path[1] == "c").unwrap();
    let d = a.children.iter().find(|n| n.path[1] == "d").unwrap();
    assert!(!c.expanded);
    assert!(!d.expanded);
    assert!(app.comparison.left_tree.expanded);
    assert_eq!(app.left_selected, Some(0));
}

#[test]
fn failed_refresh_keeps_the_comparison() {
    let mut app = App::new(comparison(flat_files(2), flat_files(2)));
    assert!(app.start_refresh());
    app.on_refresh_progress("Scanning... 50 files".to_string());
    assert_eq!(app.refresh_progress, "Scanning... 50 files");
    app.on_refresh_error("Error: gone");
    assert!(!app.is_refreshing);
    assert_eq!(app.refresh_progress, "Refresh failed: Error: gone (Press F5 to retry)");
    assert_eq!(app.left_items.len(), 2);
}

#[test]
fn copy_flow() {
    let mut app = App::new(comparison(vec![entry("only", file(7))], vec![]));
    assert!(app.can_copy());
    assert_eq!(app.copy_paths(), Some(("/l/only".to_string(), "/r/only".to_string())));
    let action = app.handle_key_event(KeyInput { key: Key::Char('r'), ctrl: true, press: true });
    assert!(matches!(action, Action::PrepareCopy));
    app.prepare_copy(DirStats { file_count: 0, folder_count: 0, total_bytes: 0 });
    assert_eq!(app.mode, AppMode::CopyConfirm);
    let info = app.copy_info.as_ref().unwrap();
    assert_eq!((info.file_count, info.folder_count, info.total_bytes), (1, 0, 7));
    assert!(info.from_left_to_right);
    match app.handle_key_event(press(Key::Enter)) {
        Action::ExecuteCopy(info) => assert_eq!(info.target_path, "/r/only"),
        other => panic!("unexpected {:?}", other),
    }
    assert!(app.saved.is_some());
    assert!(app.finish_copy());
    assert_eq!(app.mode, AppMode::DirectoryView);
    app.switch_panel(1);
    assert!(!app.can_copy());
}

#[test]
fn escape_cancels_a_copy_then_exits() {
    let mut app = App::new(comparison(vec![entry("only", file(7))], vec![]));
    app.prepare_copy(DirStats { file_count: 0, folder_count: 0, total_bytes: 0 });
    assert!(matches!(app.handle_key_event(press(Key::Esc)), Action::Nothing));
    assert_eq!(app.mode, AppMode::DirectoryView);
    assert!(app.copy_info.is_none());
    assert!(matches!(app.handle_key_event(press(Key::Char('q'))), Action::Exit));
    let release = KeyInput { key: Key::Char('q'), ctrl: false, press: false };
    assert!(matches!(app.handle_key_event(release), Action::Nothing));
}

#[test]
fn toolbar_clicks() {
    let mut app = App::new(comparison(flat_files(2), vec![]));
    app.toolbar_area = Area { x: 0, y: 0, width: 200, height: 3 };
    app.handle_mouse_click(20, 1);
    assert_eq!(app.filter_mode, FilterMode::Different);
    app.handle_mouse_click(40, 1);
    assert_eq!(app.filter_mode, FilterMode::DifferentNotOrphans);
    app.handle_mouse_click(5, 1);
    assert_eq!(app.filter_mode, FilterMode::All);
    assert!(matches!(app.handle_mouse_click(100, 1), Action::StartRefresh));
    assert!(matches!(app.handle_mouse_click(100, 1), Action::Nothing));
    assert!(matches!(app.handle_mouse_click(140, 1), Action::PrepareCopy));
    assert!(matches!(app.handle_mouse_click(5, 10), Action::Nothing));
    app.handle_mouse_click(120, 0);
    assert_eq!(app.comparison.left_dir, "/r");
}

#[test]
fn entering_a_file_asks_to_compare_it() {
    let mut app = App::new(comparison(vec![entry("f", file(1))], vec![entry("f", file(1))]));
    match app.handle_key_event(press(Key::Enter)) {
        Action::CompareFiles { status, left_path, right_path } => {
            assert_eq!(status, FileStatus::Same);
            assert_eq!(left_path, "/l/f");
            assert_eq!(right_path, "/r/f");
        }
        other => panic!("unexpected {:?}", other),
    }
}

#[test]
fn half_page() {
    let mut app = App::new(comparison(vec![], vec![]));
    assert_eq!(app.calculate_half_page(), 9);
    app.viewport_height = 3;
    assert_eq!(app.calculate_half_page(), 1);
    let node = FileNode::new("n".to_string(), vec!["n".to_string()], true, FileStatus::Same);
    assert!(!node.expanded);
}
