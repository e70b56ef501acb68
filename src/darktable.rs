use vstd::prelude::*;
use crate::text::{int_value, parse_i32, pieces, split_pieces, trim, trimmed};

verus! {

/// A color label that darktable gives an image.
#[derive(Debug, Clone, Copy, PartialEq, Eq)]
pub enum DarktableColor {
    Red,
    Yellow,
    Green,
    Blue,
    Magenta,
}

/// The color that darktable numbers `n`, if any.
pub open spec fn color_of(n: int) -> Option<DarktableColor> {
    if n == 0 {
        Some(DarktableColor::Red)
    } else if n == 1 {
        Some(DarktableColor::Yellow)
    } else if n == 2 {
        Some(DarktableColor::Green)
    } else if n == 3 {
        Some(DarktableColor::Blue)
    } else if n == 4 {
        Some(DarktableColor::Magenta)
    } else {
        None
    }
}

impl DarktableColor {
    /// The color that darktable numbers `n`, if any.
    pub fn from_label(n: i32) -> (r: Option<DarktableColor>)
        ensures
            r == color_of(n as int),
    {
        match n {
            0 => Some(DarktableColor::Red),
            1 => Some(DarktableColor::Yellow),
            2 => Some(DarktableColor::Green),
            3 => Some(DarktableColor::Blue),
            4 => Some(DarktableColor::Magenta),
            _ => None,
        }
    }
}

/// The color that one comma-separated entry of a label list names: the
/// entry, without surrounding white space, is a label number.
pub open spec fn entry_color(entry: Seq<char>) -> Option<DarktableColor> {
    match int_value(trimmed(entry)) {
        Some(v) => color_of(v),
        None => None,
    }
}

/// The colors of the entries, in order; none if one entry names no color.
pub open spec fn entry_colors(entries: Seq<Seq<char>>) -> Option<Seq<DarktableColor>>
    decreases entries.len(),
{
    if entries.len() == 0 {
        Some(Seq::empty())
    } else {
        match (entry_colors(entries.drop_last()), entry_color(entries.last())) {
            (Some(cs), Some(c)) => Some(cs.push(c)),
            _ => None,
        }
    }
}

proof fn lemma_entries_fail_on(es: Seq<Seq<char>>, k: int)
    requires
        0 < k <= es.len(),
        entry_colors(es.subrange(0, k)) is None,
    ensures
        entry_colors(es) is None,
    decreases es.len(),
{
    if k == es.len() {
        assert(es.subrange(0, k) =~= es);
    } else {
        assert(es.drop_last().subrange(0, k) =~= es.subrange(0, k));
        lemma_entries_fail_on(es.drop_last(), k);
    }
}

/// The colors of a darktable label list such as `0, 3`: label numbers
/// separated by commas. `None` where an entry is not a number, or is a number
/// that names no color (only 0 to 4 do); the list is refused, not cut short.
pub fn parse_colorlabels(text: &str) -> (r: Option<Vec<DarktableColor>>)
    ensures
        r is Some <==> entry_colors(pieces(text@, ',')) is Some,
        r matches Some(cs) ==> entry_colors(pieces(text@, ',')) == Some(cs@),
{
    let entries = split_pieces(text, ',');
    let ghost es = pieces(text@, ',');
    let mut out: Vec<DarktableColor> = Vec::new();
    let mut i: usize = 0;
    proof {
        assert(es.subrange(0, 0) =~= Seq::<Seq<char>>::empty());
    }
    while i < entries.len()
        invariant
            es == crate::paths::texts(entries@),
            es == pieces(text@, ','),
            i <= entries@.len(),
            entry_colors(es.subrange(0, i as int)) == Some(out@),
        decreases entries@.len() - i,
    {
        proof {
            assert(es.subrange(0, i + 1).drop_last() =~= es.subrange(0, i as int));
            assert(es[i as int] == entries@[i as int]@);
        }
        let t = trim(entries[i].as_str());
        let color = match parse_i32(t.as_str()) {
            Some(n) => DarktableColor::from_label(n),
            None => None,
        };
        match color {
            Some(c) => out.push(c),
            None => {
                proof {
                    assert(trimmed(entries@[i as int]@) == t@);
                    assert(entry_color(es[i as int]) is None);
                    assert(es.subrange(0, i + 1).last() == es[i as int]);
                    assert(entry_colors(es.subrange(0, i + 1)) is None);
                    lemma_entries_fail_on(es, i as int + 1);
                }
                return None;
            },
        }
        i = i + 1;
    }
    proof {
        assert(es.subrange(0, i as int) =~= es);
    }
    Some(out)
}

} // verus!
