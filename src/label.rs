use vstd::prelude::*;

verus! {

/// The decimal digit for `d < 10`.
pub open spec fn digit(d: nat) -> char {
    seq!['0', '1', '2', '3', '4', '5', '6', '7', '8', '9'][d as int]
}

/// The decimal digits of `n`, without leading zeros.
pub open spec fn decimal(n: nat) -> Seq<char>
    decreases n,
{
    if n < 10 {
        seq![digit(n)]
    } else {
        decimal(n / 10).push(digit(n % 10))
    }
}

/// `s` with zeros in front up to `width` characters.
pub open spec fn zero_pad(s: Seq<char>, width: nat) -> Seq<char>
    decreases width - s.len(),
{
    if s.len() >= width {
        s
    } else {
        zero_pad(seq!['0'] + s, width)
    }
}

/// A year as `%Y` writes it: four digits or more, with a sign outside
/// `0..=9999`.
pub open spec fn year_text(y: int) -> Seq<char> {
    if 0 <= y <= 9999 {
        zero_pad(decimal(y as nat), 4)
    } else if y < 0 {
        seq!['-'] + zero_pad(decimal((-y) as nat), 4)
    } else {
        seq!['+'] + zero_pad(decimal(y as nat), 4)
    }
}

/// A calendar date written `YYYY-MM-DD`.
pub open spec fn ymd_text(y: i32, m: u32, d: u32) -> Seq<char> {
    year_text(y as int) + seq!['-'] + zero_pad(decimal(m as nat), 2) + seq!['-'] + zero_pad(
        decimal(d as nat),
        2,
    )
}

/// A leap year of the Gregorian calendar.
pub open spec fn is_leap(y: int) -> bool {
    (y % 4 == 0 && y % 100 != 0) || y % 400 == 0
}

/// The number of days of month `m` in year `y`.
pub open spec fn days_in_month(y: int, m: int) -> int {
    if m == 2 {
        if is_leap(y) {
            29
        } else {
            28
        }
    } else if m == 4 || m == 6 || m == 9 || m == 11 {
        30
    } else {
        31
    }
}

/// The least and greatest years of a calendar date.
pub const MIN_YEAR: i32 = -262143;

pub const MAX_YEAR: i32 = 262142;

/// A calendar date that exists, within the range of years that dates have.
pub open spec fn valid_ymd(y: i32, m: u32, d: u32) -> bool {
    &&& MIN_YEAR <= y <= MAX_YEAR
    &&& 1 <= m <= 12
    &&& 1 <= d <= days_in_month(y as int, m as int)
}

/// Relies on `chrono::NaiveDate::from_ymd_opt`, which gives `None` for a date
/// out of range or with no such month or day, and on the `%Y-%m-%d` format of
/// `chrono::NaiveDate::format`.
#[verifier::external_body]
pub(crate) fn date_label(year: i32, month: u32, day: u32) -> (r: Option<String>)
    ensures
        r is Some <==> valid_ymd(year, month, day),
        r matches Some(s) ==> s@ == ymd_text(year, month, day),
{
    chrono::NaiveDate::from_ymd_opt(year, month, day).map(|d| d.format("%Y-%m-%d").to_string())
}

/// The stem of the `i`-th photo of a group: `i` in four digits or more, `_`
/// and the group's label.
pub open spec fn stem_text(i: nat, label: Seq<char>) -> Seq<char> {
    zero_pad(decimal(i), 4) + seq!['_'] + label
}

/// Relies on `format!` with `{:04}`: the decimal digits of `i`, with zeros in
/// front up to four characters.
#[verifier::external_body]
pub(crate) fn zero_padded(i: usize) -> (r: String)
    ensures
        r@ == zero_pad(decimal(i as nat), 4),
{
    format!("{:04}", i)
}

/// The stem of the `i`-th photo of a group: `i` in four digits or more, `_`
/// and the group's label.
pub fn index_stem(i: usize, label: &str) -> (r: String)
    ensures
        r@ == stem_text(i as nat, label@),
{
    let mut r = zero_padded(i);
    r.append("_");
    r.append(label);
    proof {
        reveal_strlit("_");
        assert("_"@ =~= seq!['_']);
    }
    r
}

} // verus!
