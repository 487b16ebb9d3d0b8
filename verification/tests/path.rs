use pathy::path::{format_modified, format_modified_at, format_size};
use std::time::{Duration, SystemTime, UNIX_EPOCH};

fn nanos(t: SystemTime) -> i128 {
    match t.duration_since(UNIX_EPOCH) {
        Ok(d) => d.as_nanos() as i128,
        Err(e) => -(e.duration().as_nanos() as i128),
    }
}

#[test]
fn formats_bytes() {
    assert_eq!(format_size(0), "0 B");
    assert_eq!(format_size(512), "512 B");
}

#[test]
fn formats_kilobytes() {
    assert_eq!(format_size(1024), "1.0 KB");
}

#[test]
fn formats_megabytes() {
    assert_eq!(format_size(1024 * 1024), "1.0 MB");
}

#[test]
fn formats_gigabytes() {
    assert_eq!(format_size(1024 * 1024 * 1024), "1.0 GB");
}

#[test]
fn formats_missing_modified_time() {
    assert_eq!(format_modified(None), "-");
}

#[test]
fn formats_recent_modified_time_as_now() {
    assert_eq!(format_modified(Some(nanos(SystemTime::now()))), "now");
}

#[test]
fn formats_past_modified_time() {
    let modified = SystemTime::now() - Duration::from_secs(2 * 60 * 60);

    assert_eq!(format_modified(Some(nanos(modified))), "2 hours ago");
}

fn float_reference(bytes: u64) -> String {
    const UNITS: [&str; 5] = ["B", "KB", "MB", "GB", "TB"];
    let mut value = bytes as f64;
    let mut unit_index = 0;
    while value >= 1024.0 && unit_index < UNITS.len() - 1 {
        value /= 1024.0;
        unit_index += 1;
    }
    if unit_index == 0 {
        format!("{} B", bytes)
    } else {
        format!("{:.1} {}", value, UNITS[unit_index])
    }
}

#[test]
fn size_rounding_matches_float_formatting() {
    let samples: Vec<u64> = vec![
        1023, 1024, 1075, 1076, 1126, 1127, 1280, 1331, 1332, 1536, 3840, 10_188,
        1_048_575, 1_048_576, 1_310_720, 1_101_004_800, 1_099_511_627_775,
        1_099_511_627_776, 1_125_899_906_842_624, 9_007_199_254_740_993,
        18_014_398_509_481_985, u64::MAX - 1, u64::MAX,
    ];
    for bytes in samples {
        assert_eq!(format_size(bytes), float_reference(bytes), "bytes = {bytes}");
    }
    let mut b: u64 = 1;
    while b < u64::MAX / 3 {
        for d in [0u64, 1, 51, 52, 102, 103] {
            let v = b.saturating_add(d);
            assert_eq!(format_size(v), float_reference(v), "bytes = {v}");
        }
        b = b * 3 + 7;
    }
}

#[test]
fn ages_use_the_largest_whole_unit() {
    let now: i128 = 10_000_000_000 * 1_000_000_000;
    let s = 1_000_000_000i128;
    assert_eq!(format_modified_at(Some(now - 59 * s), now), "now");
    assert_eq!(format_modified_at(Some(now - 60 * s), now), "1 minute ago");
    assert_eq!(format_modified_at(Some(now - 150 * s), now), "2 minutes ago");
    assert_eq!(format_modified_at(Some(now - 86_400 * s), now), "1 day ago");
    assert_eq!(format_modified_at(Some(now - 40 * 86_400 * s), now), "1 month ago");
    assert_eq!(format_modified_at(Some(now - 800 * 86_400 * s), now), "2 years ago");
    assert_eq!(format_modified_at(Some(now + 3 * 3600 * s), now), "3 hours from now");
    assert_eq!(format_modified_at(Some(now), now), "now");
    assert_eq!(format_modified_at(None, now), "-");
}

#[test]
fn ages_work_across_the_epoch_and_extremes() {
    assert_eq!(format_modified_at(Some(i128::MIN), i128::MAX), "10790283070806014188970 years ago");
    assert_eq!(format_modified_at(Some(-120_000_000_000), 0), "2 minutes ago");
}

use pathy::path::{
    count_directory_files, directory_size, entries_from_probes, entry_type_from_metadata, is_executable,
    paths_equal, EntryType, FileMode, FileProbe, MetadataKind, PathProbe, SizeProbe,
};

#[test]
fn directory_size_counts_direct_regular_files() {
    let items = vec![
        Some(SizeProbe { is_file: true, len: 1024 }),
        Some(SizeProbe { is_file: false, len: 4096 }),
        None,
        Some(SizeProbe { is_file: true, len: 2048 }),
    ];
    assert_eq!(directory_size(&items), 3072);
    assert_eq!(directory_size(&Vec::new()), 0);
}

#[test]
fn file_counts_split_executable_and_non_executable_files() {
    let items = vec![
        FileProbe { is_file: true, metadata: Some(FileMode { is_file: true, mode: 0o755 }) },
        FileProbe { is_file: true, metadata: Some(FileMode { is_file: true, mode: 0o644 }) },
        FileProbe { is_file: false, metadata: Some(FileMode { is_file: false, mode: 0o755 }) },
        FileProbe { is_file: true, metadata: None },
        FileProbe { is_file: true, metadata: Some(FileMode { is_file: true, mode: 0o001 }) },
    ];
    let counts = count_directory_files(&items);
    assert_eq!(counts.executable, 2);
    assert_eq!(counts.non_executable, 2);
}

#[test]
fn executable_needs_a_regular_file_with_an_execute_bit() {
    assert!(is_executable(Some(FileMode { is_file: true, mode: 0o100 })));
    assert!(is_executable(Some(FileMode { is_file: true, mode: 0o010 })));
    assert!(!is_executable(Some(FileMode { is_file: true, mode: 0o666 })));
    assert!(!is_executable(Some(FileMode { is_file: false, mode: 0o777 })));
    assert!(!is_executable(None));
}

#[test]
fn entry_types_come_from_metadata() {
    assert_eq!(entry_type_from_metadata(Some(MetadataKind { is_dir: true, is_file: false })), EntryType::Directory);
    assert_eq!(entry_type_from_metadata(Some(MetadataKind { is_dir: false, is_file: true })), EntryType::File);
    assert_eq!(entry_type_from_metadata(Some(MetadataKind { is_dir: false, is_file: false })), EntryType::Other);
    assert_eq!(entry_type_from_metadata(None), EntryType::Missing);
    assert_eq!(EntryType::Directory.label(), "dir");
    assert_eq!(EntryType::File.label(), "file");
    assert_eq!(EntryType::Other.label(), "other");
    assert_eq!(EntryType::Missing.label(), "missing");
}

fn probe(path: &str, entry_type: EntryType) -> PathProbe {
    PathProbe {
        path: path.to_string(),
        entry_type,
        metadata_len: 77,
        modified: Some(5),
        executable_count: 3,
        non_executable_count: 4,
        directory_size: 900,
    }
}

#[test]
fn entries_keep_path_order_and_mark_repeats() {
    let entries = entries_from_probes(vec![
        probe("/usr/bin", EntryType::Directory),
        probe("/missing", EntryType::Missing),
        probe("/etc/passwd", EntryType::File),
        probe("/usr//bin", EntryType::Directory),
    ]);
    let paths: Vec<&str> = entries.iter().map(|e| e.path.as_str()).collect();
    assert_eq!(paths, vec!["/usr/bin", "/missing", "/etc/passwd", "/usr//bin"]);
    let indexes: Vec<usize> = entries.iter().map(|e| e.index).collect();
    assert_eq!(indexes, vec![1, 2, 3, 4]);
    let dups: Vec<bool> = entries.iter().map(|e| e.duplicate).collect();
    assert_eq!(dups, vec![false, false, false, true]);
    assert!(entries[0].exists && !entries[1].exists && entries[2].exists);
    assert_eq!((entries[0].executable_count, entries[0].non_executable_count, entries[0].size_bytes), (3, 4, 900));
    assert_eq!((entries[1].executable_count, entries[1].non_executable_count, entries[1].size_bytes), (0, 0, 0));
    assert_eq!((entries[2].executable_count, entries[2].non_executable_count, entries[2].size_bytes), (0, 0, 77));
    assert_eq!(entries[2].modified, Some(5));
}

#[test]
fn paths_compare_by_components() {
    assert!(paths_equal("/usr/bin", "/usr/bin/"));
    assert!(paths_equal("/usr//bin", "/usr/bin"));
    assert!(!paths_equal("/usr/bin", "/usr/sbin"));
    assert!(!paths_equal("/usr/bin", "usr/bin"));
}

#[test]
fn sizes_under_a_kilobyte_are_shown_in_bytes() {
    assert_eq!(format_size(1), "1 B");
    assert_eq!(format_size(1023), "1023 B");
    assert_eq!(format_size(1024 * 1024 - 1), "1024.0 KB");
    assert_eq!(format_size(u64::MAX), "16777216.0 TB");
}
