use rsync_chunks::order::{glob_order, name_le, select_files, sort_names};
use std::path::PathBuf;

fn strings(v: &[&str]) -> Vec<String> {
    v.iter().map(|s| s.to_string()).collect()
}

#[test]
fn names_are_sorted_as_std_sorts_paths() {
    let names = strings(&[
        "b_2023-02-27.log", "b_2023-02-26.log.gz", "a", "b", "ab", "", "é", "z",
        "/a/x_2023-02-27.log", "/a-b/x_2023-02-26.log", "/a/x.log", "/a//x.log", "./a", "a/./b",
        "../a", "/", "a/", "a", "a/b", "a-b",
    ]);
    let mut expected: Vec<PathBuf> = names.iter().map(PathBuf::from).collect();
    expected.sort();
    let sorted: Vec<PathBuf> = sort_names(&names).iter().map(PathBuf::from).collect();
    assert_eq!(sorted, expected);
    // Paths with the same components keep their order, as a stable sort keeps them.
    assert_eq!(sort_names(&strings(&["a/", "a"])), strings(&["a/", "a"]));
    assert_eq!(sort_names(&strings(&["a", "a/"])), strings(&["a", "a/"]));
    assert_eq!(sort_names(&vec![]), Vec::<String>::new());
}

#[test]
fn paths_sort_by_components_not_by_characters() {
    assert_eq!(
        sort_names(&strings(&["/a-b/x_2023-02-26.log", "/a/x_2023-02-27.log"])),
        strings(&["/a/x_2023-02-27.log", "/a-b/x_2023-02-26.log"])
    );
}

#[test]
fn name_order_puts_prefixes_first() {
    let v = |s: &str| s.chars().collect::<Vec<char>>();
    assert!(name_le(&v("ab"), &v("abc")));
    assert!(!name_le(&v("abc"), &v("ab")));
    assert!(name_le(&v("abc"), &v("abc")));
    assert!(name_le(&v("abc"), &v("abd")));
    assert!(!name_le(&v("b"), &v("abc")));
}

#[test]
fn glob_groups_keep_pattern_order() {
    let groups = vec![
        Some(strings(&["/l/r_2023-02-27.log.gz", "/l/r_2023-02-25.log.gz"])),
        None,
        Some(strings(&["/l/r_2023-02-28.log", "/l/r_2023-02-26.log"])),
        Some(strings(&["/l/r.log"])),
    ];
    assert_eq!(
        glob_order(&groups),
        strings(&[
            "/l/r_2023-02-25.log.gz",
            "/l/r_2023-02-27.log.gz",
            "/l/r_2023-02-26.log",
            "/l/r_2023-02-28.log",
            "/l/r.log",
        ])
    );
}

#[test]
fn files_before_the_cursor_day_are_not_read() {
    let paths = strings(&["/l/r_2023-02-26.log.gz", "/l/r_2023-02-27.log", "/l/r.log"]);
    assert_eq!(
        select_files(&paths, 1677456000),
        Ok(strings(&["/l/r_2023-02-27.log", "/l/r.log"]))
    );
    assert_eq!(select_files(&paths, 0), Ok(paths.clone()));
    assert_eq!(
        select_files(&strings(&["/l/r.log", "/", "/l/x.log"]), 0),
        Err("Couldn't get base name of /".to_string())
    );
}
