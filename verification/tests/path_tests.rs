use rpxlog_core::path::{
    format_of_extension, log_format, path_split, reads, select_dirs, split_str, LogFormat, Operation,
    SearchError,
};

#[test]
fn split_on_a_delimiter() {
    assert_eq!(split_str("A_B_C", "_"), vec!["A", "B", "C"]);
    assert_eq!(split_str("_A__", "_"), vec!["", "A", "", ""]);
    assert_eq!(split_str("ABC", "_"), vec!["ABC"]);
    assert_eq!(split_str("", "_"), vec![""]);
    assert_eq!(split_str("a--b-c", "--"), vec!["a", "b-c"]);
    assert_eq!(split_str("a---b", "--"), vec!["a", "-b"]);
}

#[test]
fn split_on_an_empty_delimiter() {
    assert_eq!(split_str("ab", ""), vec!["", "a", "b", ""]);
    assert_eq!(split_str("", ""), vec!["", ""]);
}

#[test]
fn split_then_join_gives_the_text_back() {
    for (s, d) in [("x_y__z_", "_"), ("abc", "b"), ("héllo wörld", "ö"), ("ab", "")] {
        assert_eq!(split_str(s, d).join(d), s);
    }
}

#[test]
fn split_matches_std() {
    for (s, d) in [("1_2_3", "_"), ("aaa", "a"), ("aaaa", "aa"), ("日本_語", "_")] {
        let expected: Vec<&str> = s.split(d).collect();
        assert_eq!(split_str(s, d), expected);
    }
}

#[test]
fn path_stem_fields() {
    assert_eq!(
        path_split("/data/lot01_wafer07_site3.stdf", "_").unwrap(),
        vec!["lot01", "wafer07", "site3"]
    );
    assert_eq!(path_split("dir/name.tar.gz", ".").unwrap(), vec!["name", "tar"]);
    assert_eq!(path_split("plain", "_").unwrap(), vec!["plain"]);
    assert!(path_split("", "_").is_none());
    assert!(path_split("/", "_").is_none());
}

#[test]
fn directories_picked_by_pattern() {
    let dirs = vec![
        "logs/2023/lotA".to_string(),
        "logs/2023/lotB".to_string(),
        "logs/2024/lotA".to_string(),
    ];
    assert_eq!(
        select_dirs("lotA$", dirs.clone()).unwrap(),
        vec!["logs/2023/lotA".to_string(), "logs/2024/lotA".to_string()]
    );
    assert_eq!(select_dirs("2023", dirs.clone()).unwrap().len(), 2);
    assert!(select_dirs("^x", dirs.clone()).unwrap().is_empty());
}

#[test]
fn directories_with_bad_pattern() {
    assert_eq!(
        select_dirs("lot(", vec!["a".to_string()]),
        Err(SearchError::BadPattern)
    );
}

#[test]
fn format_told_by_extension() {
    assert_eq!(log_format("../../sample/1.stdf"), Some(LogFormat::Stdf));
    assert_eq!(log_format("/tmp/dummy.txt"), Some(LogFormat::Txt));
    assert_eq!(log_format("archive.stdf.gz"), None);
    assert_eq!(log_format("noext"), None);
    assert_eq!(log_format("upper.STDF"), None);
    assert_eq!(format_of_extension("stdf"), Some(LogFormat::Stdf));
    assert_eq!(format_of_extension("txt"), Some(LogFormat::Txt));
    assert_eq!(format_of_extension("tx"), None);
    assert_eq!(format_of_extension(""), None);
}

#[test]
fn plain_file_names_by_their_dots() {
    assert_eq!(path_split(".hidden", "_").unwrap(), vec![".hidden"]);
    assert_eq!(path_split("dir/a_b.", "_").unwrap(), vec!["a", "b"]);
    assert_eq!(path_split("x/...stdf", ".").unwrap(), vec!["", "", ""]);
    assert_eq!(log_format("x/...stdf"), Some(LogFormat::Stdf));
    assert_eq!(log_format("a."), None);
    assert_eq!(log_format(".txt"), None);
    assert_eq!(log_format("logs/run.1.txt"), Some(LogFormat::Txt));
}

#[test]
fn operations_read_by_format() {
    assert!(reads(Operation::Summary, LogFormat::Stdf));
    assert!(reads(Operation::Header, LogFormat::Stdf));
    assert!(reads(Operation::Dtr, LogFormat::Stdf));
    assert!(reads(Operation::Ptr, LogFormat::Stdf));
    assert!(reads(Operation::Ptr, LogFormat::Txt));
    assert!(!reads(Operation::Summary, LogFormat::Txt));
    assert!(!reads(Operation::Header, LogFormat::Txt));
    assert!(!reads(Operation::Dtr, LogFormat::Txt));
}
