use rustybackup::backup::vacuum;
use rustybackup::config::{BackupOptions, BackupPaths, Config};
use rustybackup::paths::{history_file_name, history_path};
use rustybackup::retention::{
    is_stamp_text, is_usable_stamp, read_candidate, read_version, select_prunable, Version,
};

fn keeping(max_versions: Option<u32>) -> Config {
    Config {
        paths: BackupPaths { includes: vec![], exclude: vec![] },
        backup: BackupOptions { destination: "/dest".to_string(), max_versions },
    }
}

fn files(list: &[&str]) -> Vec<String> {
    list.iter().map(|s| s.to_string()).collect()
}

const T1: &str = "/dest/History/-src/report_2024-01-01T10-00-00.txt";
const T2: &str = "/dest/History/-src/report_2024-01-02T09-00-00.txt";
const T3: &str = "/dest/History/-src/report_2024-03-01T00-00-00.txt";

#[test]
fn version_names_are_read() {
    let (version, stamp) = read_candidate(T1).unwrap();
    assert_eq!(version.key, "/dest/History/-src/report.txt");
    assert_eq!(version.moment, 2024_01_01_10_00_00);
    assert_eq!(stamp, "2024-01-01T10-00-00");
    assert_eq!(
        read_version("/h/README_1999-12-31T23-59-59"),
        Some(Version { key: "/h/README".to_string(), moment: 1999_12_31_23_59_59 })
    );
    assert_eq!(
        read_version("archive.tar_2024-05-06T07-08-09.gz"),
        Some(Version { key: "archive.tar.gz".to_string(), moment: 2024_05_06_07_08_09 })
    );
    assert_eq!(
        read_version("_2024-05-06T07-08-09"),
        Some(Version { key: "".to_string(), moment: 2024_05_06_07_08_09 })
    );
}

#[test]
fn names_without_a_stamp_are_no_versions() {
    for name in [
        "/h/report.txt",
        "/h/report_2024-01-01.txt",
        "/h/report_2024-01-01T10-00-00.",
        "/h/report_2024-01-01T10-00-0.txt",
        "/h/report_2024-01-01t10-00-00.txt",
        "/h/report_2024-01-01T10:00:00.txt",
        "/h/report-2024-01-01T10-00-00.txt",
        "/h/report_2024-01-01T10-00-00txt",
        "/h/report_2024-01-01T10-00-00_.txt",
        "/h/report_\u{0662}024-01-01T10-00-00.txt",
        "/h/2024-01-01T10-00-00.txt",
        "/h/re\nport_2024-01-01T10-00-00.txt",
        "/h/report_2024-01-01T10-00-00.t\nxt",
        "/h_2024-01-01T10-00-00/report.txt",
        "",
    ] {
        assert_eq!(read_candidate(name), None, "{:?}", name);
        assert_eq!(read_version(name), None, "{:?}", name);
    }
}

#[test]
fn stamps_that_are_no_dates_are_no_versions() {
    for name in [
        "/h/report_2024-13-01T10-00-00.txt",
        "/h/report_2024-02-30T10-00-00.txt",
        "/h/report_2023-02-29T10-00-00.txt",
        "/h/report_2024-00-10T10-00-00.txt",
        "/h/report_2024-01-00T10-00-00.txt",
        "/h/report_2024-01-01T24-00-00.txt",
        "/h/report_2024-01-01T10-60-00.txt",
        "/h/report_2024-01-01T10-00-61.txt",
    ] {
        assert!(read_candidate(name).is_some(), "{:?}", name);
        assert_eq!(read_version(name), None, "{:?}", name);
    }
    assert!(read_version("/h/report_2024-02-29T10-00-00.txt").is_some());
    assert!(read_version("/h/report_0001-01-01T00-00-00.txt").is_some());
    assert!(read_version("/h/report_9999-12-31T23-59-59.txt").is_some());
}

#[test]
fn the_last_stamp_in_a_name_counts() {
    assert_eq!(
        read_version("a_2024-01-01T00-00-00.b_2025-02-02T00-00-00.c"),
        Some(Version { key: "a_2024-01-01T00-00-00.b.c".to_string(), moment: 2025_02_02_00_00_00 })
    );
    assert_eq!(
        read_version("a_2024-01-01T00-00-00_2025-02-02T00-00-00"),
        Some(Version { key: "a_2024-01-01T00-00-00".to_string(), moment: 2025_02_02_00_00_00 })
    );
    assert_eq!(
        read_version("a_2024-01-01T00-00-00.b_2025-02-02T00-00-00."),
        Some(Version { key: "a.b_2025-02-02T00-00-00.".to_string(), moment: 2024_01_01_00_00_00 })
    );
}

#[test]
fn keys_are_separator_normalised() {
    let a = read_version("C:\\dest\\History\\x\\f_2024-01-01T00-00-00.txt").unwrap();
    let b = read_version("C:/dest/History/x/f_2024-01-02T00-00-00.txt").unwrap();
    assert_eq!(a.key, "C:/dest/History/x/f.txt");
    assert_eq!(a.key, b.key);
}

#[test]
fn keeping_one_prunes_all_but_the_newest() {
    assert_eq!(vacuum(&keeping(Some(1)), &files(&[T1, T2, T3])), files(&[T1, T2]));
    assert_eq!(vacuum(&keeping(Some(1)), &files(&[T3, T1, T2])), files(&[T1, T2]));
    assert_eq!(vacuum(&keeping(Some(1)), &files(&[T2, T3, T1])), files(&[T2, T1]));
}

#[test]
fn keeping_none_prunes_every_version() {
    assert_eq!(vacuum(&keeping(Some(0)), &files(&[T1, T2, T3])), files(&[T1, T2, T3]));
    assert_eq!(vacuum(&keeping(None), &files(&[T1, T2, T3])), files(&[T1, T2, T3]));
}

#[test]
fn keeping_more_than_there_are_prunes_nothing() {
    assert_eq!(vacuum(&keeping(Some(2)), &files(&[T1, T2, T3])), files(&[T1]));
    assert_eq!(vacuum(&keeping(Some(3)), &files(&[T1, T2, T3])), Vec::<String>::new());
    assert_eq!(vacuum(&keeping(Some(u32::MAX)), &files(&[T1, T2, T3])), Vec::<String>::new());
    assert_eq!(vacuum(&keeping(Some(1)), &Vec::new()), Vec::<String>::new());
}

#[test]
fn files_without_a_stamp_are_never_pruned() {
    let plain = "/dest/History/-src/report.txt";
    let no_date = "/dest/History/-src/report_2024-13-01T10-00-00.txt";
    let other = "/dest/History/-src/notes";
    assert_eq!(
        vacuum(&keeping(Some(0)), &files(&[plain, T1, no_date, other])),
        files(&[T1])
    );
    assert_eq!(vacuum(&keeping(Some(0)), &files(&[plain, no_date, other])), Vec::<String>::new());
}

#[test]
fn versions_group_by_their_file() {
    let a1 = "/h/a/f_2024-01-01T00-00-00.txt";
    let a2 = "/h/a/f_2024-01-02T00-00-00.txt";
    let b1 = "/h/b/f_2024-01-01T00-00-00.txt";
    let c1 = "/h/a/f_2023-01-01T00-00-00.md";
    let c2 = "/h/a/f_2022-01-01T00-00-00.md";
    let w1 = "\\h\\a\\f_2021-01-01T00-00-00.txt";
    assert_eq!(
        vacuum(&keeping(Some(1)), &files(&[a1, a2, b1, c1, c2, w1])),
        files(&[a1, c2, w1])
    );
}

#[test]
fn of_equal_stamps_the_first_listed_is_kept() {
    let a = "/h/a/f_2024-01-01T00-00-00.txt";
    let b = "\\h\\a\\f_2024-01-01T00-00-00.txt";
    assert_eq!(vacuum(&keeping(Some(1)), &files(&[a, b])), files(&[b]));
    assert_eq!(vacuum(&keeping(Some(1)), &files(&[b, a])), files(&[a]));
}

#[test]
fn pruned_places_are_selected_from_what_was_read() {
    let version = |key: &str, moment: u64| Some(Version { key: key.to_string(), moment });
    let read = vec![
        version("a", 3),
        None,
        version("a", 1),
        version("b", 1),
        version("a", 2),
        version("b", 5),
        None,
    ];
    assert_eq!(select_prunable(&read, 0), vec![0, 2, 3, 4, 5]);
    assert_eq!(select_prunable(&read, 1), vec![2, 3, 4]);
    assert_eq!(select_prunable(&read, 2), vec![2]);
    assert_eq!(select_prunable(&read, 3), Vec::<usize>::new());
    assert_eq!(select_prunable(&Vec::new(), 0), Vec::<usize>::new());
}

#[test]
fn history_names_read_back_as_versions_of_their_file() {
    let stamp = "2024-05-06T07-08-09";
    for name in ["report.txt", "README", ".bashrc", "archive.tar.gz", "a_b.c", "x_2020-01-01T00-00-00.txt"] {
        let kept = history_file_name(name, stamp);
        let (version, read) = read_candidate(&kept).unwrap();
        assert_eq!(version.key, name);
        assert_eq!(read, stamp);
        assert_eq!(version.moment, 2024_05_06_07_08_09);
    }
    let roots = vec!["/src".to_string()];
    let first = history_path("/dest", &roots, "/src/a/report.txt", "2024-05-06T07-08-09");
    let second = history_path("/dest", &roots, "/src/a/report.txt", "2024-05-07T00-00-00");
    let other = history_path("/dest", &roots, "/src/b/report.txt", "2024-05-07T00-00-00");
    let config = keeping(Some(1));
    assert_eq!(vacuum(&config, &vec![first.clone(), second, other]), vec![first]);
}

#[test]
fn stamps_are_told_by_shape_and_by_the_calendar() {
    assert!(is_stamp_text("2024-05-06T07-08-09"));
    assert!(is_stamp_text("2024-13-45T99-99-99"));
    assert!(!is_stamp_text("2024-05-06T07-08-0"));
    assert!(!is_stamp_text("2024-05-06T07-08-099"));
    assert!(!is_stamp_text("2024-05-06 07-08-09"));
    assert!(!is_stamp_text("2024_05-06T07-08-09"));
    assert!(!is_stamp_text("\u{0662}024-05-06T07-08-09"));
    assert!(!is_stamp_text(""));
    assert!(is_usable_stamp("2024-05-06T07-08-09"));
    assert!(is_usable_stamp("2024-02-29T23-59-59"));
    assert!(!is_usable_stamp("2024-13-45T99-99-99"));
    assert!(!is_usable_stamp("2023-02-29T00-00-00"));
    assert!(!is_usable_stamp("2024-05-06T07-08"));
}
