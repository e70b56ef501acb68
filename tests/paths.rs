use imgor::paths::reference_text;
use imgor::common_prefix;
use imgor::paths::{extension, file_name, file_stem, join_components, join_path, path_components};

fn strings(v: &[&str]) -> Vec<String> {
    v.iter().map(|s| s.to_string()).collect()
}

#[test]
fn components_of_absolute_and_relative_paths() {
    assert_eq!(path_components("/a/b/1.jpg"), strings(&["/", "a", "b", "1.jpg"]));
    assert_eq!(path_components("a//b/"), strings(&["a", "b"]));
    assert_eq!(path_components(""), strings(&[]));
    assert_eq!(path_components("/"), strings(&["/"]));
}

#[test]
fn common_prefix_of_siblings() {
    let c = common_prefix("/tmp/x.jpg", "/tmp/x.cr2");
    assert_eq!(c.prefix, strings(&["/", "tmp"]));
    assert_eq!(c.suffix1, strings(&["x.jpg"]));
    assert_eq!(c.suffix2, strings(&["x.cr2"]));
    assert_eq!(join_components(&c.prefix), "/tmp");
}

#[test]
fn common_prefix_when_one_path_contains_the_other() {
    let c = common_prefix("/a/b", "/a/b/c/d");
    assert_eq!(c.prefix, strings(&["/", "a", "b"]));
    assert!(c.suffix1.is_empty());
    assert_eq!(c.suffix2, strings(&["c", "d"]));
}

#[test]
fn common_prefix_of_unrelated_paths() {
    let c = common_prefix("a/b", "c/d");
    assert!(c.prefix.is_empty());
    assert_eq!(c.suffix1, strings(&["a", "b"]));
    assert_eq!(c.suffix2, strings(&["c", "d"]));
}

#[test]
fn joining_paths() {
    assert_eq!(join_path("/tmp", "x.cr2"), "/tmp/x.cr2");
    assert_eq!(join_path("/tmp/", "x.cr2"), "/tmp/x.cr2");
    assert_eq!(join_path("", "x.cr2"), "x.cr2");
    assert_eq!(join_components(&strings(&["/", "a", "b"])), "/a/b");
    assert_eq!(join_components(&strings(&["a", "b"])), "a/b");
}

#[test]
fn names_stems_and_extensions() {
    assert_eq!(file_name("/a/1.cr2.xmp"), Some("1.cr2.xmp".to_string()));
    assert_eq!(file_name("/a/.."), None);
    assert_eq!(file_name("/"), None);
    assert_eq!(file_stem("1.cr2.xmp"), "1.cr2");
    assert_eq!(file_stem(".hidden"), ".hidden");
    assert_eq!(extension("1.cr2.xmp"), Some("xmp".to_string()));
    assert_eq!(extension(".hidden"), None);
    assert_eq!(extension("noext"), None);
}

#[test]
fn back_reference_of_files_side_by_side() {
    assert_eq!(reference_text("/tmp/x.jpg", "/tmp/x.cr2"), Some("x.cr2".to_string()));
    assert_eq!(reference_text("/tmp/a/x.jpg", "/tmp/x.cr2"), None);
    assert_eq!(reference_text("/tmp/x.cr2", "/tmp/x.cr2"), None);
    assert_eq!(reference_text("x.jpg", "y.cr2"), Some("y.cr2".to_string()));
}
