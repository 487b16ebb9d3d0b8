use pathy::display::{
    collect_display_rows, render_ascii_compact, render_ascii_minimal, render_ascii_narrow,
    render_table, AsciiFormat, DisplayConfig,
};
use pathy::layout::{aligned_cell, truncate_to_width, unicode_column, wrap_path_by_folder, Alignment};
use pathy::path::{EntryType, PathEntry};
use pathy::terminal::{Style, TerminalCapabilities};

const SECOND: i128 = 1_000_000_000;

fn fixture_now() -> i128 {
    1_000_000 * SECOND
}

fn entry(index: usize, name: &str, entry_type: EntryType, size_bytes: u64) -> PathEntry {
    let now = fixture_now();

    PathEntry {
        index,
        path: name.to_string(),
        entry_type,
        exists: !matches!(entry_type, EntryType::Missing),
        executable_count: 0,
        non_executable_count: 2,
        size_bytes,
        duplicate: false,
        modified: Some(now - 7 * 60 * SECOND),
    }
}

fn fixture_entries() -> Vec<PathEntry> {
    vec![
        entry(0, "AGENTS.md", EntryType::File, 764),
        entry(1, "CHANGELOG.md", EntryType::File, 1024),
        entry(2, "assets", EntryType::Directory, 96),
        entry(
            10,
            "a-very-long-file-name-that-must-not-break.txt",
            EntryType::File,
            63_488,
        ),
    ]
}

fn unicode_config() -> DisplayConfig {
    DisplayConfig {
        style: Style::plain(),
        use_unicode: true,
        ascii_format: AsciiFormat::Compact,
        terminal_width: Some(120),
        long_paths: false,
        folder_wrap: false,
    }
}

fn ascii_config(ascii_format: AsciiFormat) -> DisplayConfig {
    DisplayConfig {
        style: Style::plain(),
        use_unicode: false,
        ascii_format,
        terminal_width: Some(120),
        long_paths: false,
        folder_wrap: false,
    }
}

fn wrapped_ascii_config(ascii_format: AsciiFormat, terminal_width: usize) -> DisplayConfig {
    DisplayConfig {
        style: Style::plain(),
        use_unicode: false,
        ascii_format,
        terminal_width: Some(terminal_width),
        long_paths: false,
        folder_wrap: true,
    }
}

#[test]
fn ascii_format_forces_ascii_rendering() {
    let config = DisplayConfig::from_capabilities(
        TerminalCapabilities {
            is_tty: true,
            is_dumb: false,
            width: Some(120),
            use_unicode: true,
            use_colors: false,
        },
        Some(AsciiFormat::Narrow),
        false,
        false,
        false,
    );

    let output = render_table(&fixture_entries(), &config);

    assert!(!config.use_unicode);
    assert!(output.starts_with(" #   Name"));
    assert!(!output.contains('╭'));
}

#[test]
fn no_ascii_format_preserves_detected_unicode() {
    let config = DisplayConfig::from_capabilities(
        TerminalCapabilities {
            is_tty: true,
            is_dumb: false,
            width: Some(120),
            use_unicode: true,
            use_colors: false,
        },
        None,
        false,
        false,
        false,
    );

    assert!(config.use_unicode);
}

#[test]
fn monochrome_disables_color_without_changing_layout_selection() {
    let config = DisplayConfig::from_capabilities(
        TerminalCapabilities {
            is_tty: true,
            is_dumb: false,
            width: Some(120),
            use_unicode: true,
            use_colors: true,
        },
        None,
        true,
        false,
        false,
    );

    assert!(config.use_unicode);
    assert!(!config.style.use_colors);
}

#[test]
fn auto_ascii_format_uses_compact_for_wide_terminals() {
    let config = DisplayConfig::from_capabilities(
        TerminalCapabilities {
            is_tty: true,
            is_dumb: false,
            width: Some(120),
            use_unicode: false,
            use_colors: false,
        },
        None,
        false,
        false,
        false,
    );

    assert_eq!(config.ascii_format, AsciiFormat::Compact);
}

#[test]
fn auto_ascii_format_uses_narrow_for_constrained_terminals() {
    let config = DisplayConfig::from_capabilities(
        TerminalCapabilities {
            is_tty: true,
            is_dumb: false,
            width: Some(80),
            use_unicode: false,
            use_colors: false,
        },
        None,
        false,
        false,
        false,
    );

    assert_eq!(config.ascii_format, AsciiFormat::Narrow);
}

#[test]
fn auto_ascii_format_uses_minimal_for_dumb_or_non_tty_output() {
    for caps in [
        TerminalCapabilities {
            is_tty: true,
            is_dumb: true,
            width: Some(120),
            use_unicode: false,
            use_colors: false,
        },
        TerminalCapabilities {
            is_tty: false,
            is_dumb: false,
            width: None,
            use_unicode: false,
            use_colors: false,
        },
    ] {
        let config = DisplayConfig::from_capabilities(caps, None, false, false, false);

        assert_eq!(config.ascii_format, AsciiFormat::Minimal);
    }
}

#[test]
fn rows_append_directory_suffix_and_preserve_files() {
    let rows = collect_display_rows(&fixture_entries(), fixture_now());

    assert_eq!(rows[0].name, "AGENTS.md");
    assert_eq!(rows[2].name, "assets/");
}

#[test]
fn compact_has_expected_columns_and_exact_output() {
    let rows = collect_display_rows(&fixture_entries(), fixture_now());
    let output = render_ascii_compact(&rows, &ascii_config(AsciiFormat::Compact));

    assert!(output.contains("|  # | Name"));
    assert!(output.contains("| Size    | Modified  |"));
    assert!(!output.contains("TYPE"));
    assert_eq!(
        output,
        "\
+----+-----------------------------------------------+---------+-----------+
|  # | Name                                          | Size    | Modified  |
+----+-----------------------------------------------+---------+-----------+
|  0 | AGENTS.md                                     | 764 B   | 7 min ago |
|  1 | CHANGELOG.md                                  | 1.0 kB  | 7 min ago |
|  2 | assets/                                       | 96 B    | 7 min ago |
| 10 | a-very-long-file-name-that-must-not-break.txt | 62.0 kB | 7 min ago |
+----+-----------------------------------------------+---------+-----------+"
    );
}

#[test]
fn narrow_has_expected_columns_and_exact_output() {
    let rows = collect_display_rows(&fixture_entries(), fixture_now());
    let output = render_ascii_narrow(&rows, &ascii_config(AsciiFormat::Narrow));

    assert!(output.starts_with(" #   Name"));
    assert!(!output.contains("Modified"));
    assert!(!output.contains('|'));
    assert_eq!(
        output,
        [
            " #   Name                                               Size\n",
            "--   ---------------------------------------------   -------\n",
            " 0   AGENTS.md                                         764 B\n",
            " 1   CHANGELOG.md                                     1.0 kB\n",
            " 2   assets/                                            96 B\n",
            "10   a-very-long-file-name-that-must-not-break.txt   62.0 kB"
        ]
        .concat()
    );
}

#[test]
fn minimal_has_headers_but_no_borders_and_exact_output() {
    let rows = collect_display_rows(&fixture_entries(), fixture_now());
    let output = render_ascii_minimal(&rows, &ascii_config(AsciiFormat::Minimal));

    assert!(!output.contains('|'));
    assert!(!output.contains('+'));
    assert_eq!(
        output,
        "#   Name                                             Size\n\
0   AGENTS.md                                        764B\n\
1   CHANGELOG.md                                    1.0kB\n\
2   assets/                                           96B\n\
10  a-very-long-file-name-that-must-not-break.txt  62.0kB"
    );
}

#[test]
fn empty_results_are_rendered_gracefully() {
    let rows = collect_display_rows(&[], fixture_now());

    assert_eq!(
        render_ascii_compact(&rows, &ascii_config(AsciiFormat::Compact)),
        "\
+----+------+------+----------+
|  # | Name | Size | Modified |
+----+------+------+----------+
+----+------+------+----------+"
    );
    assert_eq!(
        render_ascii_narrow(&rows, &ascii_config(AsciiFormat::Narrow)),
        "\
#   Name   Size
-   ----   ----"
    );
    assert_eq!(
        render_ascii_minimal(&rows, &ascii_config(AsciiFormat::Minimal)),
        "#  Name  Size"
    );
}

#[test]
fn preserves_existing_unicode_renderer() {
    let output = render_table(&fixture_entries(), &unicode_config());

    assert!(output.starts_with('╭'));
    let header = output.lines().nth(1).unwrap();
    let path_position = header.find("PATH").unwrap();
    let type_position = header.find("TYPE").unwrap();

    assert!(path_position < type_position);
    assert!(output.contains("MODIFIED"));
}

#[test]
fn unicode_renderer_caps_long_paths_to_target_width() {
    let entries = vec![entry(
        123,
        "/this/is/a/very/long/path/that/would/otherwise/stretch/the/table/far/past/a/readable/terminal/width/bin",
        EntryType::Directory,
        1024 * 1024,
    )];
    let config = DisplayConfig {
        style: Style::plain(),
        use_unicode: true,
        ascii_format: AsciiFormat::Compact,
        terminal_width: Some(120),
        long_paths: false,
        folder_wrap: false,
    };
    let output = render_table(&entries, &config);

    assert!(output.contains('…'));
    assert!(output.lines().all(|line| line.chars().count() <= 120));
}

#[test]
fn long_paths_disable_unicode_path_truncation() {
    let long_path = "/this/is/a/very/long/path/that/would/otherwise/stretch/the/table/far/past/a/readable/terminal/width/bin";
    let entries = vec![entry(123, long_path, EntryType::Directory, 1024 * 1024)];
    let config = DisplayConfig {
        style: Style::plain(),
        use_unicode: true,
        ascii_format: AsciiFormat::Compact,
        terminal_width: Some(120),
        long_paths: true,
        folder_wrap: false,
    };
    let output = render_table(&entries, &config);

    assert!(output.contains(long_path));
    assert!(!output.contains('…'));
}

#[test]
fn wide_detected_terminal_avoids_default_truncation() {
    let long_path = "/this/is/a/very/long/path/that/would/otherwise/stretch/the/table/far/past/a/readable/terminal/width/bin";
    let entries = vec![entry(123, long_path, EntryType::Directory, 1024 * 1024)];
    let config = DisplayConfig {
        style: Style::plain(),
        use_unicode: true,
        ascii_format: AsciiFormat::Compact,
        terminal_width: Some(240),
        long_paths: false,
        folder_wrap: false,
    };
    let output = render_table(&entries, &config);

    assert!(output.contains(long_path));
    assert!(!output.contains('…'));
}

#[test]
fn folder_wrap_splits_paths_at_folder_boundaries() {
    assert_eq!(
        wrap_path_by_folder("/alpha/beta/gamma", 12),
        vec!["/alpha/beta/".to_string(), "gamma".to_string(),]
    );
}

#[test]
fn folder_wrap_keeps_row_metadata_on_last_physical_line() {
    let path = "/alpha/beta/gamma/delta";
    let entries = vec![entry(7, path, EntryType::Directory, 1024)];
    let config = DisplayConfig {
        style: Style::plain(),
        use_unicode: true,
        ascii_format: AsciiFormat::Compact,
        terminal_width: Some(72),
        long_paths: false,
        folder_wrap: true,
    };
    let output = render_table(&entries, &config);
    let data_lines = output
        .lines()
        .filter(|line| line.starts_with('│') && !line.contains("PATH"))
        .collect::<Vec<_>>();

    assert!(data_lines.len() > 1);
    assert!(!data_lines[0].contains("  7 "));
    assert!(!data_lines[0].contains(" dir "));
    assert!(data_lines.last().expect("last data line").contains(" 7 "));
    assert!(data_lines.last().expect("last data line").contains(" dir "));
    assert!(!output.contains('…'));
}

#[test]
fn ascii_folder_wrap_keeps_metadata_on_last_physical_line() {
    let rows = collect_display_rows(
        &[entry(
            7,
            "/alpha/beta/gamma/delta",
            EntryType::Directory,
            1024,
        )],
        fixture_now(),
    );
    let output = render_ascii_narrow(&rows, &wrapped_ascii_config(AsciiFormat::Narrow, 28));
    let lines = output.lines().collect::<Vec<_>>();

    assert!(lines.len() > 3);
    assert!(!lines[2].contains("7"));
    assert!(lines.last().expect("last line").contains("7"));
    assert!(lines.last().expect("last line").contains("1.0 kB"));
}

#[test]
fn compact_folder_wrap_keeps_table_structure_and_last_line_metadata() {
    let rows = collect_display_rows(
        &[entry(
            7,
            "/alpha/beta/gamma/delta",
            EntryType::Directory,
            1024,
        )],
        fixture_now(),
    );
    let output = render_ascii_compact(&rows, &wrapped_ascii_config(AsciiFormat::Compact, 42));
    let lines = output.lines().collect::<Vec<_>>();

    assert!(
        lines
            .iter()
            .all(|line| line.starts_with('+') || line.starts_with('|'))
    );
    assert!(lines.len() > 5);
    assert!(!lines[3].contains("7"));
    assert!(lines[4].contains("7"));
    assert!(lines[4].contains("1.0 kB"));
}

#[test]
fn ascii_long_paths_keep_full_name_without_wrapping() {
    let long_path = "/alpha/beta/gamma/delta/epsilon/zeta";
    let rows = collect_display_rows(
        &[entry(7, long_path, EntryType::Directory, 1024)],
        fixture_now(),
    );
    let mut config = ascii_config(AsciiFormat::Narrow);
    config.terminal_width = Some(24);
    config.long_paths = true;
    let output = render_ascii_narrow(&rows, &config);

    assert!(output.contains("/alpha/beta/gamma/delta/epsilon/zeta/"));
    assert!(!output.contains('…'));
}

#[test]
fn minimal_folder_wrap_has_headers_and_last_line_metadata() {
    let rows = collect_display_rows(
        &[entry(
            7,
            "/alpha/beta/gamma/delta",
            EntryType::Directory,
            1024,
        )],
        fixture_now(),
    );
    let output = render_ascii_minimal(&rows, &wrapped_ascii_config(AsciiFormat::Minimal, 28));
    let lines = output.lines().collect::<Vec<_>>();

    assert!(lines[0].contains("Name"));
    assert!(!lines[1].contains("7"));
    assert!(lines.last().expect("last line").contains("7"));
    assert!(lines.last().expect("last line").contains("1.0kB"));
}

#[test]
fn unicode_columns_have_declared_alignment() {
    assert_eq!(unicode_column(0).alignment, Alignment::Right);
    assert_eq!(unicode_column(1).alignment, Alignment::Right);
    assert_eq!(unicode_column(2).alignment, Alignment::Left);
    assert_eq!(unicode_column(3).alignment, Alignment::Center);
    assert_eq!(unicode_column(4).alignment, Alignment::Right);
    assert_eq!(unicode_column(5).alignment, Alignment::Right);
    assert_eq!(unicode_column(6).alignment, Alignment::Right);
    assert_eq!(unicode_column(7).alignment, Alignment::Right);
    assert_eq!(unicode_column(8).alignment, Alignment::Left);
}

#[test]
fn unicode_non_binary_column_is_a_counter() {
    let output = render_table(&fixture_entries(), &unicode_config());

    assert!(output.contains("│   0 │    2 │"));
    assert!(!output.contains("│ 0   │ Y    │"));
    assert!(!output.contains("│ 0   │ N    │"));
}

#[test]
fn aligned_cells_pad_left_center_and_right() {
    assert_eq!(aligned_cell("x", 5, Alignment::Left), "x    ");
    assert_eq!(aligned_cell("x", 5, Alignment::Center), "  x  ");
    assert_eq!(aligned_cell("x", 5, Alignment::Right), "    x");
}

#[test]
fn unicode_renderer_applies_color_roles_after_padding() {
    let mut ok = entry(1, "/ok", EntryType::Directory, 1024);
    ok.executable_count = 1;
    let mut problem = entry(2, "/missing", EntryType::Missing, 0);
    problem.exists = false;
    problem.executable_count = 0;

    let config = DisplayConfig {
        style: Style { use_colors: true },
        use_unicode: true,
        ascii_format: AsciiFormat::Compact,
        terminal_width: Some(120),
        long_paths: false,
        folder_wrap: false,
    };
    let output = render_table(&[ok, problem], &config);

    assert!(output.contains("\x1b[33m"));
    assert!(output.contains("\x1b[36m"));
    assert!(output.contains("\x1b[32m"));
    assert!(output.contains("\x1b[31m"));
    assert!(
        output.find("\x1b[36m").expect("cyan header")
            < output.find("\x1b[33m").expect("yellow row number")
    );
}

#[test]
fn ascii_config_renders_all_formats() {
    for format in [
        AsciiFormat::Compact,
        AsciiFormat::Narrow,
        AsciiFormat::Minimal,
    ] {
        let output = render_table(&fixture_entries(), &ascii_config(format));

        assert!(!output.contains('╭'));
    }
}

#[test]
fn wrapped_lines_rebuild_the_path_and_fit() {
    for (path, width) in [
        ("/alpha/beta/gamma/delta", 8usize),
        ("/alpha/beta/gamma/delta/", 12),
        ("relative/dir/name", 5),
        ("/", 3),
        ("plain", 2),
        ("/averyveryverylongname/x", 6),
    ] {
        let lines = wrap_path_by_folder(path, width);
        assert!(!lines.is_empty());
        assert_eq!(lines.concat(), path, "path = {path}");
        for line in &lines {
            assert!(line.chars().count() <= width || !line[..line.len() - 1].contains('/'), "line = {line}");
        }
    }
    assert_eq!(wrap_path_by_folder("/alpha/beta/gamma/delta", 8), vec!["/alpha/", "beta/", "gamma/", "delta"]);
    assert_eq!(wrap_path_by_folder("", 8), vec![""]);
    assert_eq!(wrap_path_by_folder("/a/b", 0), vec!["/a/b"]);
}

#[test]
fn truncation_keeps_the_beginning_and_adds_an_ellipsis() {
    let t = |s: &str, w: usize| truncate_to_width(&s.chars().collect(), w).into_iter().collect::<String>();
    assert_eq!(t("/usr/local/bin", 8), "/usr/lo…");
    assert_eq!(t("/usr/local/bin", 14), "/usr/local/bin");
    assert_eq!(t("/usr", 1), "…");
    assert_eq!(t("/usr", 0), "…");
    assert_eq!(t("", 0), "");
}

#[test]
fn unicode_lines_all_have_the_table_width() {
    let mut entries = fixture_entries();
    entries.push(entry(
        11,
        "/an/extremely/long/path/that/has/to/be/cut/down/to/fit/inside/the/narrow/terminal/width/given/below",
        EntryType::Directory,
        u64::MAX,
    ));
    for (width, long_paths) in [(Some(120), false), (Some(80), false), (None, false), (Some(60), true)] {
        let config = DisplayConfig {
            style: Style::plain(),
            use_unicode: true,
            ascii_format: AsciiFormat::Compact,
            terminal_width: width,
            long_paths,
            folder_wrap: false,
        };
        let output = render_table(&entries, &config);
        let lengths: Vec<usize> = output.lines().map(|line| line.chars().count()).collect();
        assert_eq!(lengths.len(), entries.len() + 4);
        assert!(lengths.iter().all(|&n| n == lengths[0]), "lengths = {lengths:?}");
        if !long_paths && width != Some(80) {
            assert!(lengths[0] <= width.unwrap_or(120) as usize);
        }
        if width == Some(80) {
            // Too narrow for the other columns: the path column stops at 16.
            assert!(lengths[0] > 80);
            assert!(output.contains("│ /an/extremely/l… │"));
        }
    }
}

#[test]
fn monochrome_turns_off_colors_only() {
    let caps = TerminalCapabilities { is_tty: true, is_dumb: false, width: Some(80), use_unicode: true, use_colors: true };
    let colored = DisplayConfig::from_capabilities(caps, None, false, true, false);
    let plain = DisplayConfig::from_capabilities(caps, None, true, true, false);
    assert!(colored.style.use_colors);
    assert!(!plain.style.use_colors);
    assert_eq!(colored.use_unicode, plain.use_unicode);
    assert_eq!(colored.ascii_format, plain.ascii_format);
    assert_eq!(colored.terminal_width, plain.terminal_width);
    assert_eq!((colored.long_paths, colored.folder_wrap), (plain.long_paths, plain.folder_wrap));
    let minimal = DisplayConfig::from_capabilities(caps, Some(AsciiFormat::Minimal), false, false, false);
    assert!(!minimal.style.use_colors);
    assert!(!minimal.use_unicode);
}

#[test]
fn compact_lines_all_have_the_table_width() {
    let mut entries = fixture_entries();
    entries.push(entry(12, "/opt/bïn-ünïcode", EntryType::Directory, 5));
    let rows = collect_display_rows(&entries, fixture_now());
    let output = render_ascii_compact(&rows, &ascii_config(AsciiFormat::Compact));
    let lengths: Vec<usize> = output.lines().map(|line| line.chars().count()).collect();
    assert_eq!(lengths.len(), entries.len() + 4);
    assert!(lengths.iter().all(|&n| n == lengths[0]), "lengths = {lengths:?}");
}

#[test]
fn plain_output_has_no_escape_codes() {
    let mut entries = fixture_entries();
    entries.push(entry(11, "/alpha/beta/gamma/delta/epsilon", EntryType::Directory, 1 << 40));
    entries[0].duplicate = true;
    entries[1].exists = false;
    for use_unicode in [true, false] {
        for ascii_format in [AsciiFormat::Compact, AsciiFormat::Narrow, AsciiFormat::Minimal] {
            for (long_paths, folder_wrap) in [(false, false), (true, false), (false, true)] {
                let config = DisplayConfig {
                    style: Style::plain(),
                    use_unicode,
                    ascii_format,
                    terminal_width: Some(40),
                    long_paths,
                    folder_wrap,
                };
                let output = render_table(&entries, &config);
                assert!(!output.is_empty());
                assert!(!output.contains('\x1b'), "{output}");
            }
        }
    }
    let summary = pathy::display::render_summary(&entries, &Style::plain());
    assert!(!summary.contains('\x1b'));
    let colored = pathy::display::render_summary(&entries, &Style { use_colors: true });
    assert!(colored.contains('\x1b'));
}

#[test]
fn narrow_and_minimal_lines_all_have_the_same_width() {
    let mut entries = fixture_entries();
    entries.push(entry(12, "/opt/bïn-ünïcode", EntryType::Directory, 5));
    let rows = collect_display_rows(&entries, fixture_now());
    for output in [
        render_ascii_narrow(&rows, &ascii_config(AsciiFormat::Narrow)),
        render_ascii_minimal(&rows, &ascii_config(AsciiFormat::Minimal)),
    ] {
        let lengths: Vec<usize> = output.lines().map(|line| line.chars().count()).collect();
        assert!(lengths.len() >= entries.len() + 1);
        assert!(lengths.iter().all(|&n| n == lengths[0]), "lengths = {lengths:?}");
    }
}

#[test]
fn minimal_output_ignores_style_unicode_and_long_paths() {
    let entries = fixture_entries();
    let rows = collect_display_rows(&entries, fixture_now());
    let base = render_ascii_minimal(&rows, &ascii_config(AsciiFormat::Minimal));
    for (use_colors, use_unicode, long_paths, width) in
        [(true, true, true, Some(20)), (false, false, true, None), (true, false, false, Some(300))]
    {
        let config = DisplayConfig {
            style: Style { use_colors },
            use_unicode,
            ascii_format: AsciiFormat::Compact,
            terminal_width: width,
            long_paths,
            folder_wrap: false,
        };
        assert_eq!(render_ascii_minimal(&rows, &config), base);
    }
    assert_eq!(base.lines().count(), rows.len() + 1);
    assert!(!base.ends_with('\n'));
    assert!(!base.contains('\x1b'));
}

#[test]
fn wrapped_lines_are_runs_of_whole_components() {
    let lines = wrap_path_by_folder("/usr/local/share/applications/", 10);
    assert_eq!(lines, vec!["/usr/", "local/", "share/", "applications/"]);
    let lines = wrap_path_by_folder("/a/b/c/d/e", 6);
    assert_eq!(lines, vec!["/a/b/", "c/d/e"]);
}
