use imgor::label::index_stem;
use imgor::plan::{group_files_by_date, sort_by_capture_time, AnnotatedPhoto, CaptureTime};
use imgor::rename::Cmd;
use imgor::{Error, Photo};

fn s(x: &str) -> String {
    x.to_string()
}

fn at(year: i32, month: u32, day: u32, hour: u32) -> Option<CaptureTime> {
    Some(CaptureTime { year, month, day, hour, minute: 0, second: 0 })
}

fn dated(source: &str, t: Option<CaptureTime>) -> AnnotatedPhoto {
    AnnotatedPhoto { photo: Photo::new(s(source)), captured_at: t }
}

#[test]
fn sorting_puts_unknown_times_first_and_keeps_ties() {
    let v = vec![
        dated("/in/c.cr2", at(2017, 5, 3, 12)),
        dated("/in/a.cr2", None),
        dated("/in/b.cr2", at(2017, 5, 3, 9)),
        dated("/in/d.cr2", None),
        dated("/in/e.cr2", at(2017, 5, 3, 9)),
    ];
    let sorted: Vec<String> = sort_by_capture_time(v).into_iter().map(|a| a.photo.source).collect();
    assert_eq!(sorted, vec![s("/in/a.cr2"), s("/in/d.cr2"), s("/in/b.cr2"), s("/in/e.cr2"), s("/in/c.cr2")]);
}

fn sample() -> Vec<AnnotatedPhoto> {
    vec![
        dated("/in/z.cr2", at(2017, 5, 3, 12)),
        dated("/in/y.cr2", None),
        dated("/in/x.cr2", at(2017, 5, 3, 9)),
        dated("/in/w.mov", at(2018, 1, 2, 7)),
        dated("/in/v.cr2", None),
    ]
}

#[test]
fn plan_groups_by_date_with_numbered_stems() {
    let cmds = group_files_by_date(sample(), "/out").unwrap();
    assert_eq!(
        cmds,
        vec![
            Cmd::CreateDirectory(s("/out/no-date")),
            Cmd::Rename(s("/in/y.cr2"), s("/out/no-date/0000_no-date.cr2")),
            Cmd::Rename(s("/in/v.cr2"), s("/out/no-date/0001_no-date.cr2")),
            Cmd::CreateDirectory(s("/out/2017-05-03")),
            Cmd::Rename(s("/in/x.cr2"), s("/out/2017-05-03/0000_2017-05-03.cr2")),
            Cmd::Rename(s("/in/z.cr2"), s("/out/2017-05-03/0001_2017-05-03.cr2")),
            Cmd::CreateDirectory(s("/out/2018-01-02")),
            Cmd::Rename(s("/in/w.mov"), s("/out/2018-01-02/0000_2018-01-02.mov")),
        ]
    );
}

#[test]
fn plan_moves_derived_files_along() {
    let mut p = Photo::new(s("/in/IMG_1.CR2"));
    p.add_derived(s("/in/IMG_1.CR2.xmp"));
    let v = vec![AnnotatedPhoto { photo: p, captured_at: at(987, 12, 31, 1) }];
    let cmds = group_files_by_date(v, "/out").unwrap();
    assert_eq!(
        cmds,
        vec![
            Cmd::CreateDirectory(s("/out/0987-12-31")),
            Cmd::Rename(s("/in/IMG_1.CR2"), s("/out/0987-12-31/0000_0987-12-31.cr2")),
            Cmd::Rename(s("/in/IMG_1.CR2.xmp"), s("/out/0987-12-31/0000_0987-12-31.cr2.xmp")),
            Cmd::AdjustRef(
                s("/out/0987-12-31/0000_0987-12-31.cr2.xmp"),
                s("/out/0987-12-31/0000_0987-12-31.cr2")
            ),
        ]
    );
}

#[test]
fn plan_twice_gives_the_same_steps() {
    assert_eq!(group_files_by_date(sample(), "/out"), group_files_by_date(sample(), "/out"));
}

#[test]
fn plan_of_nothing_is_empty() {
    assert_eq!(group_files_by_date(vec![], "/out"), Ok(vec![]));
}

#[test]
fn plan_rejects_a_date_that_does_not_exist() {
    let v = vec![dated("/in/a.cr2", at(2017, 2, 29, 0))];
    assert_eq!(group_files_by_date(v, "/out"), Err(Error::InvalidDate(2017, 2, 29)));
    let w = vec![dated("/in/a.cr2", at(2016, 2, 29, 0))];
    assert!(group_files_by_date(w, "/out").is_ok());
}

#[test]
fn plan_reports_a_photo_without_a_name() {
    let v = vec![dated("/in/..", None)];
    assert_eq!(group_files_by_date(v, "/out"), Err(Error::NoBasename(s("/in/.."))));
}

#[test]
fn plan_pads_indices_beyond_four_digits() {
    let v: Vec<AnnotatedPhoto> = (0..10001).map(|i| dated(&format!("/in/{}.jpg", i), None)).collect();
    let cmds = group_files_by_date(v, "o").unwrap();
    assert_eq!(cmds[1], Cmd::Rename(s("/in/0.jpg"), s("o/no-date/0000_no-date.jpg")));
    assert_eq!(cmds[10001], Cmd::Rename(s("/in/10000.jpg"), s("o/no-date/10000_no-date.jpg")));
}

#[test]
fn plan_stops_at_the_first_error_in_sorted_order() {
    let v = vec![
        dated("/in/late/..", at(2017, 5, 4, 0)),
        dated("/in/a.cr2", at(2017, 2, 30, 0)),
        dated("/in/early/..", at(2017, 1, 1, 0)),
    ];
    assert_eq!(group_files_by_date(v, "/out"), Err(Error::NoBasename(s("/in/early/.."))));
    let w = vec![dated("/in/late/..", at(2017, 5, 4, 0)), dated("/in/a.cr2", at(2017, 2, 30, 0))];
    assert_eq!(group_files_by_date(w, "/out"), Err(Error::InvalidDate(2017, 2, 30)));
}

#[test]
fn index_stems_are_padded_and_labelled() {
    assert_eq!(index_stem(7, "2017-05-03"), "0007_2017-05-03");
    assert_eq!(index_stem(12345, "no-date"), "12345_no-date");
}
