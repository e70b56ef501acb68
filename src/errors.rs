use vstd::prelude::*;

verus! {

/// What can go wrong while grouping files and planning renames.
#[derive(Debug, PartialEq, Eq)]
pub enum Error {
    /// A path that cannot be written as text.
    PathNotUtf8(String),
    /// A source path without a file name.
    NoBasename(String),
    /// A derived file (first) refers to a source (second) that is not among
    /// the source files.
    MissingSource(String, String),
    /// A capture date that is no calendar date: year, month, day.
    InvalidDate(i32, u32, u32),
}

/// An error, over texts.
pub enum ErrorView {
    PathNotUtf8(Seq<char>),
    NoBasename(Seq<char>),
    MissingSource(Seq<char>, Seq<char>),
    InvalidDate(i32, u32, u32),
}

impl View for Error {
    type V = ErrorView;

    open spec fn view(&self) -> ErrorView {
        match self {
            Error::PathNotUtf8(p) => ErrorView::PathNotUtf8(p@),
            Error::NoBasename(p) => ErrorView::NoBasename(p@),
            Error::MissingSource(f, s) => ErrorView::MissingSource(f@, s@),
            Error::InvalidDate(y, m, d) => ErrorView::InvalidDate(*y, *m, *d),
        }
    }
}

} // verus!
