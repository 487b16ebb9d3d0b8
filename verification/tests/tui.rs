use pathy::path::{EntryType, PathEntry};
use pathy::tui::centered_area;
use ratatui::layout::{Constraint, Direction, Layout, Rect};
use pathy::tui::{
    parse_unsigned, trim_text, tui_row_cells_at, tui_row_problem, tui_viewport, InputMode, KeyCode, KeyInput,
    KeyOutcome, TuiApp,
};

fn entry(index: usize, path: &str, entry_type: EntryType) -> PathEntry {
    PathEntry {
        index,
        path: path.to_string(),
        entry_type,
        exists: !matches!(entry_type, EntryType::Missing),
        executable_count: usize::from(matches!(entry_type, EntryType::Directory)),
        non_executable_count: 0,
        size_bytes: 0,
        duplicate: false,
        modified: None,
    }
}

fn key(code: KeyCode) -> KeyInput {
    KeyInput { code, control: false }
}

fn ctrl(code: KeyCode) -> KeyInput {
    KeyInput { code, control: true }
}

fn paths(app: &TuiApp) -> Vec<String> {
    app.entries.iter().map(|e| e.path.clone()).collect()
}

fn three() -> TuiApp {
    TuiApp::new(vec![
        entry(1, "/a", EntryType::Directory),
        entry(2, "/b", EntryType::Directory),
        entry(3, "/c", EntryType::Directory),
    ])
}

#[test]
fn move_selected_reorders_and_renumbers() {
    let mut app = TuiApp::new(vec![
        entry(1, "/a", EntryType::Directory),
        entry(2, "/b", EntryType::Directory),
    ]);
    app.selected = 1;

    app.move_selected_up();

    assert_eq!(app.entries[0].path, "/b");
    assert_eq!(app.entries[0].index, 1);
    assert_eq!(app.entries[1].index, 2);
    assert_eq!(app.selected, 0);
}

#[test]
fn remove_duplicates_keeps_first_occurrence() {
    let mut app = TuiApp::new(vec![
        entry(1, "/a", EntryType::Directory),
        entry(2, "/b", EntryType::Directory),
        entry(3, "/a", EntryType::Directory),
    ]);

    app.remove_duplicates();

    assert_eq!(app.entries.len(), 2);
    assert_eq!(app.entries[0].path, "/a");
    assert_eq!(app.entries[1].path, "/b");
}

#[test]
fn cleanup_removes_missing_non_directories_and_duplicates() {
    let mut app = TuiApp::new(vec![
        entry(1, "/a", EntryType::Directory),
        entry(2, "/missing", EntryType::Missing),
        entry(3, "/file", EntryType::File),
        entry(4, "/a", EntryType::Directory),
    ]);

    app.cleanup();

    assert_eq!(app.entries.len(), 1);
    assert_eq!(app.entries[0].path, "/a");
}

#[test]
fn goto_row_selects_one_based_row_number() {
    let mut app = TuiApp::new(vec![
        entry(1, "/a", EntryType::Directory),
        entry(2, "/b", EntryType::Directory),
    ]);

    app.goto_row("2".to_string());

    assert_eq!(app.selected, 1);
}

#[test]
fn new_numbers_marks_and_selects_the_first_row() {
    let app = TuiApp::new(vec![
        entry(7, "/a", EntryType::Directory),
        entry(7, "/b", EntryType::Directory),
        entry(7, "/a/", EntryType::Directory),
    ]);
    let indexes: Vec<usize> = app.entries.iter().map(|e| e.index).collect();
    let marks: Vec<bool> = app.entries.iter().map(|e| e.duplicate).collect();

    assert_eq!(indexes, vec![1, 2, 3]);
    // `/a/` names the same path as `/a`: paths compare by their components.
    assert_eq!(marks, vec![false, false, true]);
    assert_eq!(app.selected, 0);
    assert_eq!(app.table_selection, Some(0));
    assert_eq!(app.message, "Use arrows or j/k to move. Press ? for keys.");
    assert!(!app.export_after_quit);
    assert_eq!(app.mode_label(), "NORMAL");
}

#[test]
fn empty_editor_selects_nothing() {
    let mut app = TuiApp::new(Vec::new());
    assert_eq!(app.table_selection, None);
    app.select_next();
    app.select_last();
    app.remove_selected();
    app.move_selected_down();
    assert_eq!(app.selected, 0);
    assert_eq!(app.table_selection, None);
    assert_eq!(app.header_summary(), "  0 entries | 0 existing | 0 duplicates");
}

#[test]
fn selection_moves_and_stops_at_the_ends() {
    let mut app = three();
    app.select_previous();
    assert_eq!(app.selected, 0);
    app.select_next();
    app.select_next();
    app.select_next();
    assert_eq!(app.selected, 2);
    assert_eq!(app.table_selection, Some(2));
    app.select_first();
    assert_eq!(app.selected, 0);
    app.select_last();
    assert_eq!(app.selected, 2);
}

#[test]
fn moving_up_then_down_restores_the_rows() {
    let mut app = three();
    app.selected = 1;
    app.move_selected_up();
    assert_eq!(paths(&app), vec!["/b", "/a", "/c"]);
    assert_eq!(app.message, "Moved row up.");
    app.move_selected_down();
    assert_eq!(paths(&app), vec!["/a", "/b", "/c"]);
    assert_eq!(app.selected, 1);
    assert_eq!(app.message, "Moved row down.");
    let indexes: Vec<usize> = app.entries.iter().map(|e| e.index).collect();
    assert_eq!(indexes, vec![1, 2, 3]);
}

#[test]
fn moving_past_the_ends_changes_nothing() {
    let mut app = three();
    app.move_selected_up();
    assert_eq!(paths(&app), vec!["/a", "/b", "/c"]);
    app.select_last();
    app.move_selected_down();
    assert_eq!(paths(&app), vec!["/a", "/b", "/c"]);
    assert_eq!(app.message, "Use arrows or j/k to move. Press ? for keys.");
}

#[test]
fn removing_the_last_row_selects_the_new_last_row() {
    let mut app = three();
    app.select_last();
    app.remove_selected();
    assert_eq!(paths(&app), vec!["/a", "/b"]);
    assert_eq!(app.selected, 1);
    assert_eq!(app.message, "Removed /c.");
}

#[test]
fn inserting_then_removing_restores_the_rows() {
    let mut app = three();
    app.insert_entry(entry(0, "/new", EntryType::Directory));
    assert_eq!(paths(&app), vec!["/a", "/new", "/b", "/c"]);
    assert_eq!(app.selected, 1);
    assert_eq!(app.entries[1].index, 2);
    assert_eq!(app.message, "Inserted directory.");
    app.remove_selected();
    assert_eq!(paths(&app), vec!["/a", "/b", "/c"]);
}

#[test]
fn inserting_into_an_empty_editor_selects_the_new_row() {
    let mut app = TuiApp::new(Vec::new());
    app.insert_entry(entry(0, "/new", EntryType::Directory));
    assert_eq!(paths(&app), vec!["/new"]);
    assert_eq!(app.selected, 0);
    assert_eq!(app.table_selection, Some(0));
}

#[test]
fn refused_insert_says_why() {
    let mut app = three();
    app.reject_insert("/nope");
    assert_eq!(app.message, "Insert rejected: /nope is not an existing directory.");
    assert_eq!(app.entries.len(), 3);
}

#[test]
fn bulk_removals_report_their_counts() {
    let mut app = TuiApp::new(vec![
        entry(1, "/a", EntryType::Directory),
        entry(2, "/missing", EntryType::Missing),
        entry(3, "/file", EntryType::File),
        entry(4, "/a", EntryType::Directory),
    ]);
    app.select_last();
    app.remove_missing();
    assert_eq!(paths(&app), vec!["/a", "/file", "/a"]);
    assert_eq!(app.message, "Removed 1 missing row(s).");
    assert_eq!(app.selected, 2);
    app.remove_non_directories();
    assert_eq!(paths(&app), vec!["/a", "/a"]);
    assert_eq!(app.message, "Removed 1 non-directory row(s).");
    assert_eq!(app.selected, 1);
    assert!(app.entries[1].duplicate);
    app.remove_duplicates();
    assert_eq!(paths(&app), vec!["/a"]);
    assert_eq!(app.message, "Removed 1 duplicate row(s).");
    assert_eq!(app.selected, 0);
    assert!(!app.entries[0].duplicate);
    app.cleanup();
    assert_eq!(app.message, "Removed 0 problem row(s).");
}

#[test]
fn goto_row_reports_bad_numbers() {
    let mut app = three();
    app.goto_row("0".to_string());
    assert_eq!(app.message, "Row must be between 1 and 3.");
    app.goto_row("4".to_string());
    assert_eq!(app.message, "Row must be between 1 and 3.");
    app.goto_row("x".to_string());
    assert_eq!(app.message, "Invalid row number.");
    app.goto_row("".to_string());
    assert_eq!(app.message, "Invalid row number.");
    app.goto_row("+3".to_string());
    assert_eq!(app.selected, 2);
    assert_eq!(app.message, "Selected row 3.");
    assert_eq!(app.selected, 2);
}

#[test]
fn keys_quit_and_export() {
    let mut app = three();
    assert!(matches!(app.handle_key(key(KeyCode::Char('q'))), KeyOutcome::Quit));
    assert!(!app.export_after_quit);
    assert!(matches!(app.handle_key(key(KeyCode::Esc)), KeyOutcome::Quit));
    assert!(matches!(app.handle_key(key(KeyCode::Char('x'))), KeyOutcome::Quit));
    assert!(app.export_after_quit);
}

#[test]
fn keys_select_and_reorder() {
    let mut app = three();
    assert!(matches!(app.handle_key(key(KeyCode::Char('j'))), KeyOutcome::Continue));
    assert_eq!(app.selected, 1);
    app.handle_key(key(KeyCode::Down));
    assert_eq!(app.selected, 2);
    app.handle_key(key(KeyCode::Char('k')));
    assert_eq!(app.selected, 1);
    app.handle_key(ctrl(KeyCode::Char('k')));
    assert_eq!(paths(&app), vec!["/b", "/a", "/c"]);
    assert_eq!(app.selected, 0);
    app.handle_key(ctrl(KeyCode::Down));
    assert_eq!(paths(&app), vec!["/a", "/b", "/c"]);
    assert_eq!(app.selected, 1);
    app.handle_key(key(KeyCode::End));
    assert_eq!(app.selected, 2);
    app.handle_key(key(KeyCode::Home));
    assert_eq!(app.selected, 0);
    app.handle_key(key(KeyCode::Delete));
    assert_eq!(paths(&app), vec!["/b", "/c"]);
    app.handle_key(key(KeyCode::Char('?')));
    assert!(app.message.starts_with("Keys: q quit"));
    app.handle_key(key(KeyCode::Other));
    assert_eq!(paths(&app), vec!["/b", "/c"]);
}

#[test]
fn insert_mode_collects_and_trims_the_path() {
    let mut app = three();
    app.handle_key(key(KeyCode::Char('i')));
    assert_eq!(app.mode_label(), "INSERT");
    assert_eq!(app.message, "Insert directory path, then Enter.");
    for c in " /usr/binx".chars() {
        app.handle_key(key(KeyCode::Char(c)));
    }
    app.handle_key(key(KeyCode::Backspace));
    app.handle_key(key(KeyCode::Char(' ')));
    match app.prompt() {
        Some((title, value)) => {
            assert_eq!(title, "Insert directory");
            assert_eq!(value, " /usr/bin ");
        }
        None => panic!("the insert prompt is shown"),
    }
    match app.handle_key(key(KeyCode::Enter)) {
        KeyOutcome::InsertPath(p) => assert_eq!(p, "/usr/bin"),
        _ => panic!("Enter hands the path to the application"),
    }
    assert!(matches!(app.input_mode, InputMode::Normal));
    assert!(app.prompt().is_none());
}

#[test]
fn blank_or_cancelled_insert_inserts_nothing() {
    let mut app = three();
    app.handle_key(key(KeyCode::Char('i')));
    app.handle_key(key(KeyCode::Char(' ')));
    assert!(matches!(app.handle_key(key(KeyCode::Enter)), KeyOutcome::Continue));
    assert_eq!(app.message, "No path inserted.");
    app.handle_key(key(KeyCode::Char('i')));
    app.handle_key(key(KeyCode::Char('q')));
    assert!(matches!(app.handle_key(key(KeyCode::Esc)), KeyOutcome::Continue));
    assert_eq!(app.message, "Insert cancelled.");
    assert_eq!(app.entries.len(), 3);
}

#[test]
fn goto_mode_takes_digits_only() {
    let mut app = three();
    app.handle_key(key(KeyCode::Char('g')));
    assert_eq!(app.mode_label(), "GOTO");
    assert_eq!(app.message, "Jump to row number, then Enter.");
    app.handle_key(key(KeyCode::Char('a')));
    app.handle_key(key(KeyCode::Char('3')));
    app.handle_key(key(KeyCode::Char('1')));
    app.handle_key(key(KeyCode::Backspace));
    match app.prompt() {
        Some((title, value)) => {
            assert_eq!(title, "Jump to row");
            assert_eq!(value, "3");
        }
        None => panic!("the jump prompt is shown"),
    }
    app.handle_key(key(KeyCode::Enter));
    assert_eq!(app.selected, 2);
    assert_eq!(app.message, "Selected row 3.");
    app.handle_key(key(KeyCode::Char('g')));
    app.handle_key(key(KeyCode::Esc));
    assert_eq!(app.message, "Jump cancelled.");
    assert_eq!(app.mode_label(), "NORMAL");
}

#[test]
fn cleanup_keys_match_the_methods() {
    let rows = || {
        vec![
            entry(1, "/a", EntryType::Directory),
            entry(2, "/missing", EntryType::Missing),
            entry(3, "/file", EntryType::File),
            entry(4, "/a", EntryType::Directory),
        ]
    };
    let mut app = TuiApp::new(rows());
    app.handle_key(key(KeyCode::Char('D')));
    assert_eq!(paths(&app), vec!["/a", "/missing", "/file"]);
    let mut app = TuiApp::new(rows());
    app.handle_key(key(KeyCode::Char('M')));
    assert_eq!(paths(&app), vec!["/a", "/file", "/a"]);
    let mut app = TuiApp::new(rows());
    app.handle_key(key(KeyCode::Char('N')));
    assert_eq!(paths(&app), vec!["/a", "/a"]);
    let mut app = TuiApp::new(rows());
    app.handle_key(key(KeyCode::Char('C')));
    assert_eq!(paths(&app), vec!["/a"]);
}

#[test]
fn export_joins_paths_with_colons() {
    let app = three();
    assert_eq!(app.export_path(false), "export PATH=\"/a:/b:/c\"");
    let empty = TuiApp::new(Vec::new());
    assert_eq!(empty.export_path(false), "export PATH=\"\"");
    let bad = TuiApp::new(vec![entry(1, "/a", EntryType::Directory), entry(2, "/b:c", EntryType::Directory)]);
    assert_eq!(bad.export_path(false), "export PATH=\"\"");
}

#[test]
fn export_joins_windows_paths_with_semicolons() {
    let app = TuiApp::new(vec![
        entry(1, "C:\\Windows", EntryType::Directory),
        entry(2, "D:\\tools;old", EntryType::Directory),
    ]);
    assert_eq!(app.export_path(true), "export PATH=\"C:\\Windows;\"D:\\tools;old\"\"");
    let bad = TuiApp::new(vec![entry(1, "C:\\a\"b", EntryType::Directory)]);
    assert_eq!(bad.export_path(true), "export PATH=\"\"");
    let colon = TuiApp::new(vec![entry(1, "/b:c", EntryType::Directory)]);
    assert_eq!(colon.export_path(true), "export PATH=\"/b:c\"");
}

#[test]
fn header_counts_existing_and_duplicate_rows() {
    let app = TuiApp::new(vec![
        entry(1, "/a", EntryType::Directory),
        entry(2, "/missing", EntryType::Missing),
        entry(3, "/a", EntryType::Directory),
    ]);
    assert_eq!(app.header_summary(), "  3 entries | 2 existing | 1 duplicates");
}

#[test]
fn problem_rows_in_the_editor() {
    assert!(!tui_row_problem(&entry(1, "/a", EntryType::Directory)));
    assert!(tui_row_problem(&entry(1, "/f", EntryType::File)));
    assert!(tui_row_problem(&entry(1, "/m", EntryType::Missing)));
    let mut empty_dir = entry(1, "/e", EntryType::Directory);
    empty_dir.executable_count = 0;
    assert!(tui_row_problem(&empty_dir));
    let mut dup = entry(1, "/d", EntryType::Directory);
    dup.duplicate = true;
    assert!(tui_row_problem(&dup));
}

#[test]
fn editor_rows_show_the_table_cells() {
    let mut e = entry(3, "/usr/bin", EntryType::Directory);
    e.size_bytes = 2048;
    e.executable_count = 12;
    e.non_executable_count = 4;
    e.duplicate = true;
    let cells = tui_row_cells_at(&e, 0);
    assert_eq!(cells, vec!["3", "Y", "/usr/bin", "dir", "12", "4", "2.0 KB", "-", "YES"]);
    let m = entry(1, "/gone", EntryType::Missing);
    let cells = tui_row_cells_at(&m, 0);
    assert_eq!(cells, vec!["1", "N", "/gone", "missing", "0", "0", "0 B", "-", ""]);
}

#[test]
fn viewport_reads_columns_and_lines() {
    assert_eq!(tui_viewport(&None, &None), (120, 40));
    assert_eq!(tui_viewport(&Some("200".to_string()), &Some("50".to_string())), (200, 50));
    assert_eq!(tui_viewport(&Some("10".to_string()), &Some("3".to_string())), (40, 12));
    assert_eq!(tui_viewport(&Some("wide".to_string()), &Some("70000".to_string())), (120, 40));
    assert_eq!(tui_viewport(&Some("+65535".to_string()), &Some(" 50".to_string())), (65535, 40));
}

#[test]
fn numbers_parse_like_from_str() {
    assert_eq!(parse_unsigned("42", 100), Some(42));
    assert_eq!(parse_unsigned("+7", 100), Some(7));
    assert_eq!(parse_unsigned("007", 100), Some(7));
    assert_eq!(parse_unsigned("101", 100), None);
    assert_eq!(parse_unsigned("", 100), None);
    assert_eq!(parse_unsigned("+", 100), None);
    assert_eq!(parse_unsigned("-1", 100), None);
    assert_eq!(parse_unsigned("1 ", 100), None);
    assert_eq!(parse_unsigned("18446744073709551615", u64::MAX as u128), Some(u64::MAX as u128));
    assert_eq!(parse_unsigned("18446744073709551616", u64::MAX as u128), None);
    for text in ["0", "9", "12", "+3", "x", "99999"] {
        assert_eq!(parse_unsigned(text, 65535), text.parse::<u16>().ok().map(u128::from));
    }
}

#[test]
fn trimming_drops_surrounding_white_space() {
    let t = |s: &str| trim_text(&s.chars().collect()).into_iter().collect::<String>();
    assert_eq!(t("  /usr/bin \t\n"), "/usr/bin");
    assert_eq!(t("\u{3000}a b\u{2003}"), "a b");
    assert_eq!(t("   "), "");
    assert_eq!(t(""), "");
    for s in ["  x  ", "\u{85}y\u{a0}", "z"] {
        assert_eq!(t(s), s.trim());
    }
}

#[test]
fn centered_area_is_the_middle_of_the_middle_row() {
    let middle = |area: Rect, direction: Direction, percent: u16| {
        let margin = (100 - percent) / 2;
        Layout::default()
            .direction(direction)
            .constraints([
                Constraint::Percentage(margin),
                Constraint::Percentage(percent),
                Constraint::Percentage(margin),
            ])
            .split(area)[1]
    };
    for (area, w, h) in [
        (Rect { x: 0, y: 0, width: 120, height: 40 }, 94, 86),
        (Rect { x: 0, y: 0, width: 120, height: 40 }, 68, 20),
        (Rect { x: 3, y: 5, width: 40, height: 12 }, 94, 86),
    ] {
        let expected = middle(middle(area, Direction::Vertical, h), Direction::Horizontal, w);
        let got = centered_area((area.x, area.y, area.width, area.height), w, h);
        assert_eq!(got, (expected.x, expected.y, expected.width, expected.height));
        assert!(got.0 > area.x && got.1 > area.y);
        assert!(got.2 < area.width && got.3 < area.height);
        assert!(got.0 + got.2 <= area.x + area.width && got.1 + got.3 <= area.y + area.height);
    }
}
