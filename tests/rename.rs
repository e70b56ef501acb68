use imgor::rename::{create_move_commands, make_new_filename, Cmd};
use imgor::{Error, Photo};

fn s(x: &str) -> String {
    x.to_string()
}

#[test]
fn test_make_new_filename() {
    let inputs = vec!["my_file.JPG", "my_file.CR2.JPG", "my_file.cr2.JPG", "my_file"];
    let old = "my_file";
    let new = "0000";

    let a: Vec<_> = inputs.iter().map(|e| make_new_filename(e, &old, &new)).collect();
    let e = vec!["0000.jpg", "0000.cr2.jpg", "0000.cr2.jpg", "0000"];

    assert_eq!(a, e);
}

#[test]
fn new_filename_replaces_every_match_in_the_stem_only() {
    assert_eq!(make_new_filename("ab_ab.AB", "ab", "x"), "x_x.ab");
    assert_eq!(make_new_filename("IMG_1.Jpg", "2", "x"), "IMG_1.jpg");
}

#[test]
fn test_create_move_commands() {
    let p = Photo {
        source: s("/a/1.CR2"),
        derived: vec![s("/a/1.cr2.xmp"), s("/a/1_v2.CR2.xmp"), s("/a/1.jpg")],
    };
    let out_dir = "/tmp";
    let a = create_move_commands(&p, "x", out_dir);
    let e = vec![
        Cmd::Rename(p.source.clone(), s("/tmp/x.cr2")),
        Cmd::Rename(p.derived[0].clone(), s("/tmp/x.cr2.xmp")),
        Cmd::AdjustRef(s("/tmp/x.cr2.xmp"), s("/tmp/x.cr2")),
        Cmd::Rename(p.derived[1].clone(), s("/tmp/x_v2.cr2.xmp")),
        Cmd::AdjustRef(s("/tmp/x_v2.cr2.xmp"), s("/tmp/x.cr2")),
        Cmd::Rename(p.derived[2].clone(), s("/tmp/x.jpg")),
        Cmd::AdjustRef(s("/tmp/x.jpg"), s("/tmp/x.cr2")),
    ];
    assert_eq!(a.unwrap(), e);
}

#[test]
fn move_commands_for_source_and_two_derived() {
    let p = Photo { source: s("/a/1.CR2"), derived: vec![s("/a/1.cr2.xmp"), s("/a/1.jpg")] };
    let a = create_move_commands(&p, "x", "/tmp").unwrap();
    assert_eq!(
        a,
        vec![
            Cmd::Rename(s("/a/1.CR2"), s("/tmp/x.cr2")),
            Cmd::Rename(s("/a/1.cr2.xmp"), s("/tmp/x.cr2.xmp")),
            Cmd::AdjustRef(s("/tmp/x.cr2.xmp"), s("/tmp/x.cr2")),
            Cmd::Rename(s("/a/1.jpg"), s("/tmp/x.jpg")),
            Cmd::AdjustRef(s("/tmp/x.jpg"), s("/tmp/x.cr2")),
        ]
    );
}

#[test]
fn move_commands_without_a_source_name() {
    let p = Photo { source: s("/a/.."), derived: vec![] };
    assert_eq!(create_move_commands(&p, "x", "/tmp"), Err(Error::NoBasename(s("/a/.."))));
    let q = Photo { source: s("/a/1.cr2"), derived: vec![s("/")] };
    assert_eq!(create_move_commands(&q, "x", "/tmp"), Err(Error::NoBasename(s("/"))));
}

#[test]
fn move_commands_name_the_first_derived_file_without_a_name() {
    let p = Photo { source: s("/a/1.cr2"), derived: vec![s("/a/1.jpg"), s("/a/.."), s("/")] };
    assert_eq!(create_move_commands(&p, "x", "/tmp"), Err(Error::NoBasename(s("/a/.."))));
}
