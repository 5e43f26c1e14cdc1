use vstd::prelude::*;

verus! {

/// One line of a model file, as the parser classifies it.
#[derive(Clone, Debug, PartialEq)]
pub enum Line {
    /// A line that is blank once trimmed.
    Empty,
    /// A trimmed line that starts with `#`, kept verbatim.
    Comment(String),
    /// The fields of any other line, in column order.
    Record(Vec<String>),
}

/// What a `Line` holds, as sequences of characters.
pub enum LineView {
    Empty,
    Comment(Seq<char>),
    Record(Seq<Seq<char>>),
}

/// The characters of each string.
pub open spec fn string_views(v: Seq<String>) -> Seq<Seq<char>> {
    v.map_values(|x: String| x@)
}

impl View for Line {
    type V = LineView;

    open spec fn view(&self) -> LineView {
        match self {
            Line::Empty => LineView::Empty,
            Line::Comment(s) => LineView::Comment(s@),
            Line::Record(fs) => LineView::Record(string_views(fs@)),
        }
    }
}

/// The view of each line.
pub open spec fn line_views(v: Seq<Line>) -> Seq<LineView> {
    v.map_values(|l: Line| l@)
}

/// Relies on std's `FromIterator<&char>` for `String`: the string holds the
/// characters in the order given.
#[verifier::external_body]
pub(crate) fn string_of(v: &Vec<char>) -> (r: String)
    ensures
        r@ == v@,
{
    v.iter().collect::<String>()
}

} // verus!
