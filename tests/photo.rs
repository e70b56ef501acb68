use imgor::photo::is_media_extension;
use imgor::photo::{classify_files_impl, group_photo_files_impl, File};
use imgor::{group_photo_files, Error, Photo};

fn media_file_vec(v: &[(&str, Option<&str>)]) -> Vec<File> {
    v.iter()
        .map(|&(p, d)| File { path: p.to_string(), derived_from: d.map(|e| e.to_string()) })
        .collect()
}

fn photo(source: &str, derived: &[&str]) -> Photo {
    Photo { source: source.to_string(), derived: derived.iter().map(|e| e.to_string()).collect() }
}

#[test]
fn test_classify_files() {
    let paths = vec!["/a/1.jpg", "/a/1.cr2", "/a/x.mov", "/a/1.xmp", "/a/1.txt", "/a/2.JPG"]
        .iter()
        .map(|&e| e.to_string())
        .collect::<Vec<_>>();
    let a = classify_files_impl(&paths, |path: &String| {
        if path == "/a/1.jpg" || path == "/a/1.xmp" {
            Some("/a/1.cr2".to_string())
        } else {
            None
        }
    });
    let e = media_file_vec(&[
        ("/a/1.jpg", Some("/a/1.cr2")),
        ("/a/1.cr2", None),
        ("/a/x.mov", None),
        ("/a/1.xmp", Some("/a/1.cr2")),
        ("/a/2.JPG", None),
    ]);
    assert_eq!(a, e);
}

#[test]
fn classify_drops_files_without_extension() {
    let paths = vec!["/a/README".to_string(), "/a/.jpg".to_string(), "/a/b.JPEG".to_string()];
    let a = classify_files_impl(&paths, |_: &String| None);
    assert_eq!(a, media_file_vec(&[("/a/b.JPEG", None)]));
}

#[test]
fn test_group_photo_files_impl_1() {
    // associate JPG and RAW file by common basename
    let f = media_file_vec(&[
        ("/a/3.JPG", Some("/a/3.cr2")),
        ("/a/3.cr2", None),
        ("/a/1.jpg", Some("/a/1.CR2")),
        ("/a/1.CR2", None),
        ("/a/2.JPG", Some("/a/2.CR2")),
        ("/a/2.CR2", None),
        ("/a/4.CR2", None),
        ("/a/b/4.JPG", None),
    ]);

    let a = group_photo_files_impl(&f).unwrap();

    // 1.) output is sorted
    // 2.) associations RAW <-> JPG are correct
    let e = vec![
        photo("/a/1.CR2", &["/a/1.jpg"]),
        photo("/a/2.CR2", &["/a/2.JPG"]),
        photo("/a/3.cr2", &["/a/3.JPG"]),
        photo("/a/4.CR2", &[]),
        photo("/a/b/4.JPG", &[]),
    ];
    assert_eq!(a, e);
}

#[test]
fn test_group_photo_files_impl_2() {
    let f = media_file_vec(&[
        ("/a/1.jpg", Some("/a/1.cr2")),
        ("/a/1.cr2", None),
        ("/a/2.mov", None),
        ("/a/1.xmp", Some("/a/1.cr2")),
        ("/a/1_v2.xmp", Some("/a/1.cr2")),
        ("/a/3.jpg", None),
    ]);

    let a = group_photo_files_impl(&f).unwrap();
    let e = vec![
        photo("/a/1.cr2", &["/a/1.jpg", "/a/1.xmp", "/a/1_v2.xmp"]),
        photo("/a/2.mov", &[]),
        photo("/a/3.jpg", &[]),
    ];

    assert_eq!(a, e);
}

#[test]
fn group_sorted_by_source_with_derived_in_order() {
    let f = media_file_vec(&[
        ("1.jpg", Some("1.CR2")),
        ("1.CR2", None),
        ("2.JPG", Some("2.CR2")),
        ("2.CR2", None),
        ("4.CR2", None),
    ]);
    let a = group_photo_files_impl(&f).unwrap();
    assert_eq!(a, vec![photo("1.CR2", &["1.jpg"]), photo("2.CR2", &["2.JPG"]), photo("4.CR2", &[])]);
}

#[test]
fn group_reports_a_missing_source() {
    let f = media_file_vec(&[("/a/1.cr2", None), ("/a/2.jpg", Some("/a/2.cr2"))]);
    assert_eq!(
        group_photo_files_impl(&f),
        Err(Error::MissingSource("/a/2.jpg".to_string(), "/a/2.cr2".to_string()))
    );
}

#[test]
fn group_matches_sources_by_components() {
    let f = media_file_vec(&[("/a//1.cr2", None), ("/a/1.jpg", Some("/a/1.cr2"))]);
    assert_eq!(group_photo_files_impl(&f).unwrap(), vec![photo("/a//1.cr2", &["/a/1.jpg"])]);
}

#[test]
fn group_photo_files_classifies_then_groups() {
    let files = vec!["/a/1.jpg".to_string(), "/a/1.cr2".to_string(), "/a/notes.txt".to_string()];
    let a = group_photo_files(&files, |p: &String| {
        if p == "/a/1.jpg" {
            Some("/a/1.cr2".to_string())
        } else {
            None
        }
    });
    assert_eq!(a, Ok(vec![photo("/a/1.cr2", &["/a/1.jpg"])]));
}

#[test]
fn photo_new_and_add_derived() {
    let mut p = Photo::new("/a/1.cr2".to_string());
    assert!(p.derived.is_empty());
    p.add_derived("/a/1.jpg".to_string());
    assert_eq!(p, photo("/a/1.cr2", &["/a/1.jpg"]));
}

#[test]
fn media_extensions() {
    assert!(is_media_extension("cr2"));
    assert!(is_media_extension("jpeg"));
    assert!(is_media_extension("xmp"));
    assert!(!is_media_extension("JPG"));
    assert!(!is_media_extension("txt"));
    assert!(!is_media_extension(""));
}

#[test]
fn group_reports_the_first_missing_source() {
    let f = media_file_vec(&[
        ("/a/3.jpg", Some("/a/3.cr2")),
        ("/a/1.cr2", None),
        ("/a/2.jpg", Some("/a/2.cr2")),
    ]);
    assert_eq!(
        group_photo_files_impl(&f),
        Err(Error::MissingSource("/a/3.jpg".to_string(), "/a/3.cr2".to_string()))
    );
}
