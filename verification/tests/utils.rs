use rsync_chunks::utils::{file_name_of, has_gz_extension, is_absolute, normalize_path};
use std::path::Path;

fn norm(p: &str) -> Result<String, String> {
    normalize_path(p, None)
}

#[test]
fn test_normalize_absolute_path() {
    assert_eq!(norm("/foo/bar"), Ok("/foo/bar".to_string()));
    assert_eq!(norm("/foo/../bar"), Ok("/bar".to_string()));
    assert_eq!(norm("/foo/./bar"), Ok("/foo/bar".to_string()));
    assert_eq!(norm("/foo/./bar/.."), Ok("/foo".to_string()));
    assert_eq!(norm("/foo/./bar/../.."), Ok("/".to_string()));
    assert_eq!(norm("/foo/./bar/../../.."), Ok("/".to_string()));
}

#[test]
fn test_normalize_relative_path() {
    let dir = "/tmp/scratch".to_string();
    let result = normalize_path("foo/bar", Some(Ok(dir.clone())));
    assert_eq!(result, Ok(format!("{}/foo/bar", dir)));
}

#[test]
fn test_normalize_link_path() {
    // The name is taken as it is: a link named `bar` is not followed.
    let dir = "/tmp/scratch".to_string();
    let result = normalize_path("bar", Some(Ok(dir.clone())));
    assert_eq!(result, Ok(format!("{}/bar", dir)));
}

#[test]
fn normalize_collapses_repeated_and_trailing_slashes() {
    assert_eq!(norm("//a//b/"), Ok("/a/b".to_string()));
    assert_eq!(norm("/"), Ok("/".to_string()));
    assert_eq!(norm("/.."), Ok("/".to_string()));
    assert_eq!(norm("/../a/./b/../c"), Ok("/a/c".to_string()));
}

#[test]
fn normalize_relative_parent_of_current_dir() {
    let result = normalize_path("../x.log", Some(Ok("/var/log".to_string())));
    assert_eq!(result, Ok("/var/x.log".to_string()));
}

#[test]
fn normalize_relative_reports_current_dir_error() {
    let result = normalize_path("x.log", Some(Err("no current directory".to_string())));
    assert_eq!(result, Err("no current directory".to_string()));
}

#[test]
fn normalize_is_idempotent_on_examples() {
    for p in ["/a/../b/./c//", "/x/y/../../..", "/rsync/./logs/rsyncd.log"] {
        let once = norm(p).unwrap();
        assert_eq!(norm(&once), Ok(once.clone()));
        assert!(is_absolute(&once));
    }
}

#[test]
fn absolute_paths_start_at_the_root() {
    assert!(is_absolute("/var"));
    assert!(!is_absolute("var"));
    assert!(!is_absolute(""));
}

#[test]
fn file_names_match_std_paths() {
    for p in [
        "/var/log/rsyncd.log", "/var/log/rsyncd_2023-02-27.log.gz", "a/b/", "a/b/.", "a/..",
        "/", ".", "./x", "x", "", ".gz", "..gz", "a/.gz", "a.gz/", "a.tar.gz", "gz", "a.gzip",
    ] {
        let std_name = Path::new(p).file_name().map(|n| n.to_str().unwrap().to_string());
        assert_eq!(file_name_of(p), std_name, "{:?}", p);
        let std_gz = Path::new(p).extension().map_or(false, |e| e == "gz");
        assert_eq!(has_gz_extension(p), std_gz, "{:?}", p);
    }
}
