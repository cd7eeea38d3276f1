use whar::path::{archive_path, extraction_dir};

#[test]
fn suffix_is_added_where_absent() {
    assert_eq!(archive_path("backup"), "backup.whar");
    assert_eq!(archive_path(""), ".whar");
    assert_eq!(archive_path("whar"), "whar.whar");
    assert_eq!(archive_path("a.whar.d"), "a.whar.d.whar");
    assert_eq!(archive_path("caf\u{e9}"), "caf\u{e9}.whar");
}

#[test]
fn suffix_is_kept_where_present() {
    assert_eq!(archive_path("backup.whar"), "backup.whar");
    assert_eq!(archive_path(".whar"), ".whar");
    assert_eq!(archive_path("dir/x.whar"), "dir/x.whar");
}

#[test]
fn directory_is_the_name_without_the_suffix() {
    assert_eq!(extraction_dir("backup.whar"), "backup");
    assert_eq!(extraction_dir("dir/x.whar"), "dir/x");
    assert_eq!(extraction_dir(".whar"), "");
    assert_eq!(extraction_dir(""), "");
    assert_eq!(extraction_dir("plain"), "plain");
    assert_eq!(extraction_dir("caf\u{e9}.whar"), "caf\u{e9}");
}

#[test]
fn suffix_is_left_out_wherever_it_stands() {
    assert_eq!(extraction_dir("a.whar.d/x.whar"), "a.d/x");
    assert_eq!(extraction_dir(".whar.whar"), "");
    assert_eq!(extraction_dir(".wha.wharr"), ".whar");
    assert_eq!(extraction_dir("x.wha"), "x.wha");
    assert_eq!(extraction_dir("a.whar.d/x.whar"), "a.whar.d/x.whar".replace(".whar", ""));
    assert_eq!(extraction_dir("..whar.."), "...");
}
