use imgor::darktable::{parse_colorlabels, DarktableColor};
use imgor::text::split_pieces;

#[test]
fn label_numbers_name_colors() {
    assert_eq!(DarktableColor::from_label(0), Some(DarktableColor::Red));
    assert_eq!(DarktableColor::from_label(4), Some(DarktableColor::Magenta));
    assert_eq!(DarktableColor::from_label(5), None);
    assert_eq!(DarktableColor::from_label(-1), None);
    assert_eq!(DarktableColor::from_label(2), Some(DarktableColor::Green));
}

#[test]
fn label_lists_are_parsed() {
    assert_eq!(parse_colorlabels("0, 3"), Some(vec![DarktableColor::Red, DarktableColor::Blue]));
    assert_eq!(parse_colorlabels(" +2 ,\t1"), Some(vec![DarktableColor::Green, DarktableColor::Yellow]));
    assert_eq!(parse_colorlabels("0,,1"), None);
    assert_eq!(parse_colorlabels("0, x"), None);
    assert_eq!(parse_colorlabels("9"), None);
    assert_eq!(parse_colorlabels(""), None);
}

#[test]
fn splitting_keeps_empty_pieces() {
    assert_eq!(split_pieces("a,,b,", ','), vec!["a", "", "b", ""]);
    assert_eq!(split_pieces("", ','), vec![""]);
}
