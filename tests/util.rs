use fish_history::util::{wcsfilecmp, wcsfilecmp_, wcsfilecmp_glob, wcsfilecmp_glob_};

#[test]
fn test_wcsfilecmp() {
    assert_eq!(wcsfilecmp_("abc12", "abc5"), 1);
}

#[test]
fn test_wcsfilecmp_glob() {
    assert_eq!(wcsfilecmp_glob_("alpha.txt", "beta.txt"), -1);
}

#[test]
fn filecmp_orders_numbers_by_value() {
    assert_eq!(wcsfilecmp("file5.txt", "file12.txt"), -1);
    assert_eq!(wcsfilecmp("file12.txt", "file5.txt"), 1);
    assert_eq!(wcsfilecmp("file1", "file1"), 0);
    assert_eq!(wcsfilecmp("a-b", "aZb"), 1);
    assert_eq!(wcsfilecmp_glob("a-b", "aZb"), -1);
    assert_eq!(wcsfilecmp("file01", "file1"), -1);
}

#[test]
fn filecmp_folds_case_and_skips_whitespace_after_numbers() {
    assert_eq!(wcsfilecmp("abc", "ABD"), -1);
    assert_eq!(wcsfilecmp_glob("abc", "ABD"), -1);
    assert_eq!(wcsfilecmp("1 b", "1a"), 1);
    assert_eq!(wcsfilecmp("File1", "file1"), -1);
}
