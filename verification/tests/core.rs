use dua_core::glob::glob_matches;
use dua_core::navigation::Navigation;
use dua_core::sorted::{sorted_entries, EntryDataBundle, SortMode};
use dua_core::state::{
    Action, AppState, Event, FocussedPane, KeyInput, Message, TraversalStats, TraverseError,
    WalkOptions,
};
use dua_core::tree::{EntryData, EntryKind, Tree};

fn file(name: &str, size: u64) -> EntryData {
    EntryData { name: name.as_bytes().to_vec(), kind: EntryKind::File, size, is_error: false }
}

fn dir(name: &str) -> EntryData {
    EntryData { name: name.as_bytes().to_vec(), kind: EntryKind::Directory, size: 0, is_error: false }
}

fn options() -> WalkOptions {
    WalkOptions { follow_symlinks: false, cross_filesystems: false }
}

/// Root with `dirA` (aggregated 500 from two files) and `fileB` (200).
fn sample_tree() -> (Tree, usize, usize) {
    let mut t = Tree::new();
    let dir_a = t.add_node(dir("dirA"), 0);
    t.add_node(file("one", 300), dir_a);
    t.add_node(file("two", 200), dir_a);
    let file_b = t.add_node(file("fileB", 200), 0);
    (t, dir_a, file_b)
}

fn names(entries: &Vec<EntryDataBundle>) -> Vec<String> {
    entries
        .iter()
        .map(|b| String::from_utf8(b.name.clone()).unwrap())
        .collect()
}

#[test]
fn aggregation_sums_bottom_up() {
    let (t, dir_a, file_b) = sample_tree();
    assert_eq!(t.entry_at(dir_a).aggregated, 500);
    assert_eq!(t.entry_at(dir_a).entry_count, 2);
    assert_eq!(t.entry_at(file_b).aggregated, 200);
    assert_eq!(t.entry_at(0).aggregated, 700);
    assert_eq!(t.entry_at(0).entry_count, 3);
}

#[test]
fn size_descending_orders_dir_a_before_file_b() {
    let (t, dir_a, file_b) = sample_tree();
    let entries = sorted_entries(&t, 0, SortMode::SizeDescending, None);
    assert_eq!(names(&entries), vec!["dirA".to_string(), "fileB".to_string()]);
    assert_eq!(entries[0].index, dir_a);
    assert_eq!(entries[1].index, file_b);
}

#[test]
fn sorted_entries_returns_exactly_the_children() {
    let (t, dir_a, file_b) = sample_tree();
    let entries = sorted_entries(&t, 0, SortMode::NameAscending, None);
    assert_eq!(entries.len(), 2);
    let mut idx: Vec<usize> = entries.iter().map(|b| b.index).collect();
    idx.sort();
    let mut expect = vec![dir_a, file_b];
    expect.sort();
    assert_eq!(idx, expect);
    // never deeper: the grandchildren under dirA are absent
    for b in &entries {
        assert!(b.index == dir_a || b.index == file_b);
    }
}

#[test]
fn name_ascending_breaks_size_ties() {
    let mut t = Tree::new();
    let b = t.add_node(file("bbb", 100), 0);
    let a = t.add_node(file("aaa", 100), 0);
    let entries = sorted_entries(&t, 0, SortMode::SizeDescending, None);
    assert_eq!(entries[0].index, a);
    assert_eq!(entries[1].index, b);
}

#[test]
fn full_ties_keep_discovery_order() {
    let mut t = Tree::new();
    let first = t.add_node(file("same", 100), 0);
    let second = t.add_node(file("same", 100), 0);
    let entries = sorted_entries(&t, 0, SortMode::SizeDescending, None);
    assert_eq!(entries[0].index, first);
    assert_eq!(entries[1].index, second);
}

#[test]
fn count_descending_orders_by_entry_count() {
    let (t, dir_a, file_b) = sample_tree();
    let entries = sorted_entries(&t, 0, SortMode::CountDescending, None);
    // dirA counts two entries, fileB one
    assert_eq!(entries[0].index, dir_a);
    assert_eq!(entries[1].index, file_b);
}

#[test]
fn percent_of_parent_is_exact() {
    let (t, _, _) = sample_tree();
    let entries = sorted_entries(&t, 0, SortMode::SizeDescending, None);
    assert_eq!(entries[0].percent_of_parent, 500 * 100 / 700);
    assert_eq!(entries[1].percent_of_parent, 200 * 100 / 700);
}

#[test]
fn glob_matcher_handles_star_and_question() {
    assert!(glob_matches(&b"*".to_vec(), &b"/dirA/one".to_vec()));
    assert!(glob_matches(&b"*fileB".to_vec(), &b"/fileB".to_vec()));
    assert!(glob_matches(&b"/dir?/one".to_vec(), &b"/dirA/one".to_vec()));
    assert!(!glob_matches(&b"*fileB".to_vec(), &b"/dirA/one".to_vec()));
    assert!(glob_matches(&b"".to_vec(), &b"".to_vec()));
    assert!(!glob_matches(&b"".to_vec(), &b"x".to_vec()));
}

#[test]
fn glob_filter_restricts_the_view() {
    let (t, _, file_b) = sample_tree();
    let pat = b"*fileB".to_vec();
    let entries = sorted_entries(&t, 0, SortMode::SizeDescending, Some(&pat));
    assert_eq!(entries.len(), 1);
    assert_eq!(entries[0].index, file_b);
}

#[test]
fn enter_then_leave_restores_cursor() {
    let (t, dir_a, _) = sample_tree();
    let entries = sorted_entries(&t, 0, SortMode::SizeDescending, None);
    let mut nav = Navigation::default();
    nav.view_root = 0;
    nav.selected = Some(entries[0].index);
    let prior_root = nav.view_root;
    let prior_sel = nav.selected;
    let inner = sorted_entries(&t, dir_a, SortMode::SizeDescending, None);
    nav.enter(dir_a, &inner);
    assert_eq!(nav.view_root, dir_a);
    assert_eq!(nav.selected, Some(inner[0].index));
    assert!(nav.leave());
    assert_eq!(nav.view_root, prior_root);
    assert_eq!(nav.selected, prior_sel);
    // a further leave with empty history stays put
    assert!(!nav.leave());
    assert_eq!(nav.view_root, prior_root);
}

#[test]
fn move_down_on_last_entry_stays() {
    let (t, _, file_b) = sample_tree();
    let entries = sorted_entries(&t, 0, SortMode::SizeDescending, None);
    let mut nav = Navigation::default();
    nav.selected = Some(file_b);
    nav.move_selection(1, &entries);
    assert_eq!(nav.selected, Some(file_b));
}

#[test]
fn move_up_on_first_entry_stays() {
    let (t, dir_a, _) = sample_tree();
    let entries = sorted_entries(&t, 0, SortMode::SizeDescending, None);
    let mut nav = Navigation::default();
    nav.selected = Some(dir_a);
    nav.move_selection(-3, &entries);
    assert_eq!(nav.selected, Some(dir_a));
}

#[test]
fn restore_selection_falls_back_to_first() {
    let (t, dir_a, _) = sample_tree();
    let entries = sorted_entries(&t, 0, SortMode::SizeDescending, None);
    let mut nav = Navigation::default();
    nav.restore_selection(&b"/nowhere".to_vec(), &t, &entries);
    assert_eq!(nav.selected, Some(dir_a));
}

#[test]
fn restore_selection_finds_the_path() {
    let (t, _, file_b) = sample_tree();
    let entries = sorted_entries(&t, 0, SortMode::SizeDescending, None);
    let mut nav = Navigation::default();
    nav.restore_selection(&b"/fileB".to_vec(), &t, &entries);
    assert_eq!(nav.selected, Some(file_b));
}

#[test]
fn second_traversal_fails_with_already_running() {
    let (t, _, _) = sample_tree();
    let mut state = AppState::new(options());
    state.refresh_entries(&t);
    assert!(state.traverse(&t).is_ok());
    assert_eq!(state.traverse(&t), Err(TraverseError::AlreadyRunning));
    // after completion a new traversal may start again
    state.scan_done(&t, &TraversalStats::default());
    assert!(state.traverse(&t).is_ok());
}

#[test]
fn selection_survives_rescan_when_path_still_resolves() {
    let (t, _, file_b) = sample_tree();
    let mut state = AppState::new(options());
    state.refresh_entries(&t);
    state.navigation.selected = Some(file_b);
    assert!(state.traverse(&t).is_ok());
    let delta = TraversalStats { entries_traversed: 3, io_errors: 0, total_bytes: 700, elapsed_millis: 5 };
    state.scan_tick(&t, &delta);
    state.scan_done(&t, &TraversalStats::default());
    assert!(state.scan.is_none());
    assert_eq!(state.navigation.selected, Some(file_b));
    assert_eq!(state.stats.entries_traversed, 3);
}

#[test]
fn no_stats_tick_lands_after_the_join() {
    let (t, _, _) = sample_tree();
    let mut state = AppState::new(options());
    state.refresh_entries(&t);
    assert!(state.traverse(&t).is_ok());
    state.scan_done(&t, &TraversalStats::default());
    let before = state.stats;
    let late = TraversalStats { entries_traversed: 9, io_errors: 9, total_bytes: 9, elapsed_millis: 9 };
    state.scan_tick(&t, &late);
    assert_eq!(state.stats, before);
}

#[test]
fn quit_while_scanning_reports_accumulated_errors() {
    let (t, _, _) = sample_tree();
    let mut state = AppState::new(options());
    state.refresh_entries(&t);
    assert!(state.traverse(&t).is_ok());
    let delta = TraversalStats { entries_traversed: 2, io_errors: 3, total_bytes: 0, elapsed_millis: 1 };
    state.scan_tick(&t, &delta);
    // a quit event arrives while scanning
    let action = state.process_event(&t, Event::Key(KeyInput::Quit));
    assert!(matches!(action, Action::Quit));
    // the loop cancels the worker, joins it, and folds in the final stats
    let final_stats = TraversalStats { entries_traversed: 0, io_errors: 1, total_bytes: 0, elapsed_millis: 0 };
    state.scan_done(&t, &final_stats);
    assert_eq!(state.quit_result().num_errors, 4);
}

#[test]
fn confirmed_deletion_removes_the_subtree_only() {
    let (mut t, dir_a, file_b) = sample_tree();
    let mut state = AppState::new(options());
    state.refresh_entries(&t);
    state.navigation.selected = Some(file_b);
    // mark fileB and confirm
    state.process_event(&t, Event::Key(KeyInput::OpenMark));
    assert_eq!(state.focussed, FocussedPane::Mark);
    state.process_event(&t, Event::Key(KeyInput::ToggleMark));
    let action = state.process_event(&t, Event::Key(KeyInput::Confirm));
    let doomed = match action {
        Action::DeleteMarked(v) => v,
        _ => panic!("expected a deletion request"),
    };
    assert_eq!(doomed, vec![file_b]);
    // the external delete succeeds
    state.delete_result(&mut t, file_b, true);
    assert!(!t.is_occupied(file_b));
    let entries = sorted_entries(&t, 0, SortMode::SizeDescending, None);
    assert_eq!(entries.len(), 1);
    assert_eq!(entries[0].index, dir_a);
    assert_eq!(t.entry_at(dir_a).aggregated, 500);
    assert_eq!(t.entry_at(0).aggregated, 500);
}

#[test]
fn failed_deletion_keeps_the_node_and_counts_the_error() {
    let (mut t, _, file_b) = sample_tree();
    let mut state = AppState::new(options());
    state.refresh_entries(&t);
    let errors_before = state.stats.io_errors;
    state.delete_result(&mut t, file_b, false);
    assert!(t.is_occupied(file_b));
    assert_eq!(state.stats.io_errors, errors_before + 1);
    assert_eq!(state.message, Some(Message::DeletionFailed(file_b)));
}

#[test]
fn help_pane_is_a_modal_overlay() {
    let (t, _, _) = sample_tree();
    let mut state = AppState::new(options());
    state.refresh_entries(&t);
    let nav_before = (state.navigation.view_root, state.navigation.selected);
    state.process_event(&t, Event::Key(KeyInput::OpenHelp));
    assert_eq!(state.focussed, FocussedPane::Help);
    assert_eq!((state.navigation.view_root, state.navigation.selected), nav_before);
    state.process_event(&t, Event::Key(KeyInput::Cancel));
    assert_eq!(state.focussed, FocussedPane::Main);
    assert_eq!((state.navigation.view_root, state.navigation.selected), nav_before);
}

#[test]
fn glob_pane_filters_and_cancel_discards() {
    let (t, dir_a, file_b) = sample_tree();
    let mut state = AppState::new(options());
    state.refresh_entries(&t);
    state.process_event(&t, Event::Key(KeyInput::OpenGlob));
    assert_eq!(state.focussed, FocussedPane::Glob);
    for c in b"*fileB" {
        state.process_event(&t, Event::Key(KeyInput::Edit(*c)));
    }
    assert_eq!(state.entries.len(), 1);
    assert_eq!(state.entries[0].index, file_b);
    state.process_event(&t, Event::Key(KeyInput::Cancel));
    assert_eq!(state.focussed, FocussedPane::Main);
    assert_eq!(state.entries.len(), 2);
    assert_eq!(state.entries[0].index, dir_a);
}

#[test]
fn sort_mode_toggle_reorders_the_view() {
    let (t, dir_a, file_b) = sample_tree();
    let mut state = AppState::new(options());
    state.refresh_entries(&t);
    assert_eq!(state.entries[0].index, dir_a);
    state.process_event(&t, Event::Key(KeyInput::SortByName));
    assert_eq!(state.sorting, SortMode::NameAscending);
    // "dirA" before "fileB" by name too; count descending keeps dirA first
    state.process_event(&t, Event::Key(KeyInput::SortByCount));
    assert_eq!(state.sorting, SortMode::CountDescending);
    assert_eq!(state.entries[0].index, dir_a);
    assert_eq!(state.entries[1].index, file_b);
}

#[test]
fn error_placeholder_has_size_zero_and_flag() {
    let mut t = Tree::new();
    let e = t.add_node(
        EntryData { name: b"denied".to_vec(), kind: EntryKind::File, size: 0, is_error: true },
        0,
    );
    assert!(t.entry_at(e).is_error);
    assert_eq!(t.entry_at(e).aggregated, 0);
    let entries = sorted_entries(&t, 0, SortMode::SizeDescending, None);
    assert!(entries[0].is_error);
}

#[test]
fn entering_a_directory_shows_its_children() {
    let (t, dir_a, _) = sample_tree();
    let mut state = AppState::new(options());
    state.refresh_entries(&t);
    // dirA is first and selected; Enter descends into it
    assert_eq!(state.navigation.selected, Some(dir_a));
    state.process_event(&t, Event::Key(KeyInput::Enter));
    assert_eq!(state.navigation.view_root, dir_a);
    assert_eq!(state.entries.len(), 2);
    state.process_event(&t, Event::Key(KeyInput::Leave));
    assert_eq!(state.navigation.view_root, 0);
}

#[test]
fn paths_join_names_from_the_root() {
    let (t, dir_a, _) = sample_tree();
    let children = t.children_of(dir_a).clone();
    let p = t.path_of(children[0]);
    assert_eq!(p, b"/dirA/one".to_vec());
}

#[test]
fn enter_on_a_file_selection_changes_nothing() {
    let (t, _, file_b) = sample_tree();
    let mut state = AppState::new(options());
    state.refresh_entries(&t);
    state.navigation.selected = Some(file_b);
    let entries_before: Vec<usize> = state.entries.iter().map(|b| b.index).collect();
    state.process_event(&t, Event::Key(KeyInput::Enter));
    assert_eq!(state.navigation.view_root, 0);
    assert_eq!(state.navigation.selected, Some(file_b));
    let entries_after: Vec<usize> = state.entries.iter().map(|b| b.index).collect();
    assert_eq!(entries_before, entries_after);
}

#[test]
fn traverse_captures_path_and_list_position() {
    let (t, _, file_b) = sample_tree();
    let mut state = AppState::new(options());
    state.refresh_entries(&t);
    state.navigation.selected = Some(file_b);
    assert!(state.traverse(&t).is_ok());
    let scan = state.scan.as_ref().unwrap();
    let (path, pos) = scan.previous_selection.as_ref().unwrap();
    assert_eq!(path, &b"/fileB".to_vec());
    // fileB sorts after dirA under the default size-descending order
    assert_eq!(*pos, 1);
}

#[test]
fn mixed_deletion_outcomes_are_independent() {
    let mut t = Tree::new();
    let f1 = t.add_node(file("first", 100), 0);
    let f2 = t.add_node(file("second", 50), 0);
    let mut state = AppState::new(options());
    state.refresh_entries(&t);
    state.process_event(&t, Event::Key(KeyInput::OpenMark));
    state.navigation.selected = Some(f1);
    state.process_event(&t, Event::Key(KeyInput::ToggleMark));
    state.navigation.selected = Some(f2);
    state.process_event(&t, Event::Key(KeyInput::ToggleMark));
    let doomed = match state.process_event(&t, Event::Key(KeyInput::Confirm)) {
        Action::DeleteMarked(v) => v,
        _ => panic!("expected a deletion request"),
    };
    assert_eq!(doomed.len(), 2);
    // the first path succeeds, the second fails
    state.delete_result(&mut t, f1, true);
    state.delete_result(&mut t, f2, false);
    assert!(!t.is_occupied(f1));
    assert!(t.is_occupied(f2));
    assert_eq!(t.entry_at(f2).aggregated, 50);
    assert_eq!(t.entry_at(0).aggregated, 50);
    assert_eq!(state.stats.io_errors, 1);
    assert_eq!(state.message, Some(Message::DeletionFailed(f2)));
    let idx: Vec<usize> = state.entries.iter().map(|b| b.index).collect();
    assert_eq!(idx, vec![f2]);
}

#[test]
fn glob_confirm_jumps_the_main_selection() {
    let (t, dir_a, file_b) = sample_tree();
    let mut state = AppState::new(options());
    state.refresh_entries(&t);
    assert_eq!(state.navigation.selected, Some(dir_a));
    state.process_event(&t, Event::Key(KeyInput::OpenGlob));
    for c in b"*fileB" {
        state.process_event(&t, Event::Key(KeyInput::Edit(*c)));
    }
    state.process_event(&t, Event::Key(KeyInput::Confirm));
    assert_eq!(state.focussed, FocussedPane::Main);
    assert!(state.glob_navigation.is_none());
    assert_eq!(state.navigation.selected, Some(file_b));
}

#[test]
fn movement_keys_move_through_the_dispatcher() {
    let (t, dir_a, file_b) = sample_tree();
    let mut state = AppState::new(options());
    state.refresh_entries(&t);
    assert_eq!(state.navigation.selected, Some(dir_a));
    state.process_event(&t, Event::Key(KeyInput::Down));
    assert_eq!(state.navigation.selected, Some(file_b));
    state.process_event(&t, Event::Key(KeyInput::Up));
    assert_eq!(state.navigation.selected, Some(dir_a));
}
