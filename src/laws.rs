use vstd::prelude::*;

use crate::format_text;
use crate::line::LineView;
use crate::parse::{lemma_parse_well_formed, parse, parse_line, well_formed_line};
use crate::render::{
    cell, lemma_parse_render_line, pad, render, render_cells, render_line, rendered_lines,
};
use crate::text::{joined, lemma_lines_of_joined, lines_of, no_newline, trim};
use crate::widths::{column_width, field_count, max_widths, num_columns, width_at};

verus! {

/// Writing well-formed lines and parsing the text again gives the same lines,
/// whatever the column widths.
pub proof fn lemma_parse_render(ls: Seq<LineView>, ws: Seq<int>)
    requires
        forall|i: int| 0 <= i < ls.len() ==> well_formed_line(#[trigger] ls[i]),
    ensures
        lines_of(render(ls, ws)) == rendered_lines(ls, ws),
        parse(render(ls, ws)) == ls,
{
    let rl = rendered_lines(ls, ws);
    assert forall|i: int| 0 <= i < rl.len() implies no_newline(#[trigger] rl[i]) by {
        lemma_parse_render_line(ls[i], ws);
    }
    lemma_lines_of_joined(rl);
    assert forall|i: int| 0 <= i < ls.len() implies #[trigger] parse(render(ls, ws))[i]
        == ls[i] by {
        lemma_parse_render_line(ls[i], ws);
    }
    assert(parse(render(ls, ws)) =~= ls);
}

/// Formatting alters no field: the formatted text parses to the very lines,
/// fields and comments of the original text.
pub proof fn lemma_fields_preserved(s: Seq<char>)
    ensures
        parse(format_text(s)) == parse(s),
{
    lemma_parse_well_formed(s);
    lemma_parse_render(parse(s), max_widths(parse(s)));
}

/// Formatting a formatted text gives it back unchanged.
pub proof fn lemma_format_idempotent(s: Seq<char>)
    ensures
        format_text(format_text(s)) == format_text(s),
{
    lemma_fields_preserved(s);
}

/// The formatted text has one line for each line of the text, that line as
/// it is written.
pub proof fn lemma_line_count(s: Seq<char>)
    ensures
        lines_of(format_text(s)) == rendered_lines(parse(s), max_widths(parse(s))),
        lines_of(format_text(s)).len() == lines_of(s).len(),
{
    lemma_parse_well_formed(s);
    lemma_parse_render(parse(s), max_widths(parse(s)));
}

/// Where field `i` of a record starts once written: the widths of the columns
/// before it, each with its separator.
pub open spec fn column_start(ws: Seq<int>, i: int) -> int
    decreases i,
{
    if i <= 0 {
        0
    } else {
        column_start(ws, i - 1) + ws[i - 1] + 2
    }
}

proof fn lemma_num_columns_bound(ls: Seq<LineView>, r: int)
    requires
        0 <= r < ls.len(),
    ensures
        field_count(ls[r]) <= num_columns(ls),
    decreases ls.len(),
{
    if r < ls.len() - 1 {
        lemma_num_columns_bound(ls.drop_last(), r);
    }
}

proof fn lemma_column_width_bound(ls: Seq<LineView>, r: int, c: int)
    requires
        0 <= r < ls.len(),
    ensures
        width_at(ls[r], c) <= column_width(ls, c),
    decreases ls.len(),
{
    if r < ls.len() - 1 {
        lemma_column_width_bound(ls.drop_last(), r, c);
    }
}

proof fn lemma_cells_len(fs: Seq<Seq<char>>, ws: Seq<int>, k: nat)
    requires
        k < fs.len(),
        k <= ws.len(),
        forall|j: int| 0 <= j < k ==> ws[j] >= fs[j].len(),
    ensures
        render_cells(fs, ws, k).len() == column_start(ws, k as int),
    decreases k,
{
    if k > 0 {
        lemma_cells_len(fs, ws, (k - 1) as nat);
        assert(pad(ws, k - 1, fs[k - 1].len()) == ws[k - 1] - fs[k - 1].len());
    }
}

proof fn lemma_cells_prefix(fs: Seq<Seq<char>>, ws: Seq<int>, m: nat, k: nat)
    requires
        m <= k <= fs.len(),
    ensures
        render_cells(fs, ws, m).len() <= render_cells(fs, ws, k).len(),
        render_cells(fs, ws, k).subrange(0, render_cells(fs, ws, m).len() as int)
            == render_cells(fs, ws, m),
    decreases k,
{
    if k > m {
        lemma_cells_prefix(fs, ws, m, (k - 1) as nat);
        let a = render_cells(fs, ws, (k - 1) as nat);
        let b = cell(fs, ws, k - 1);
        assert((a + b).subrange(0, render_cells(fs, ws, m).len() as int) =~= a.subrange(
            0,
            render_cells(fs, ws, m).len() as int,
        ));
    } else {
        assert(render_cells(fs, ws, k).subrange(0, render_cells(fs, ws, k).len() as int)
            =~= render_cells(fs, ws, k));
    }
}

/// Columns line up: with the widths that the lines themselves give, field `i`
/// of every record starts at the same offset of its written line, an offset
/// that depends on the column alone.
pub proof fn lemma_columns_align(ls: Seq<LineView>, r: int, i: int)
    requires
        0 <= r < ls.len(),
        ls[r] is Record,
        0 <= i < ls[r]->Record_0.len(),
    ensures
        ({
            let ws = max_widths(ls);
            let f = ls[r]->Record_0[i];
            render_line(ls[r], ws).subrange(column_start(ws, i), column_start(ws, i) + f.len())
                == f
        }),
{
    let ws = max_widths(ls);
    let fs = ls[r]->Record_0;
    lemma_num_columns_bound(ls, r);
    assert(i <= ws.len());
    assert forall|j: int| 0 <= j < i implies ws[j] >= fs[j].len() by {
        lemma_column_width_bound(ls, r, j);
    }
    lemma_cells_len(fs, ws, i as nat);
    lemma_cells_prefix(fs, ws, (i + 1) as nat, fs.len());
    let a = render_cells(fs, ws, i as nat);
    let b = cell(fs, ws, i);
    let whole = render_cells(fs, ws, fs.len());
    let start = column_start(ws, i);
    assert(render_cells(fs, ws, (i + 1) as nat) == a + b);
    assert(b.subrange(0, fs[i].len() as int) =~= fs[i]);
    assert(whole.subrange(start, start + fs[i].len()) =~= (a + b).subrange(
        start,
        start + fs[i].len(),
    ));
    assert((a + b).subrange(start, start + fs[i].len()) =~= b.subrange(0, fs[i].len() as int));
}

/// A text of comments and blank lines alone comes out as its lines trimmed,
/// each closed by a line feed.
pub proof fn lemma_no_records(s: Seq<char>)
    requires
        forall|i: int| 0 <= i < parse(s).len() ==> !(#[trigger] parse(s)[i] is Record),
    ensures
        format_text(s) == joined(lines_of(s).map_values(|l: Seq<char>| trim(l))),
{
    let ls = parse(s);
    let ws = max_widths(ls);
    let want = lines_of(s).map_values(|l: Seq<char>| trim(l));
    assert forall|i: int| 0 <= i < ls.len() implies #[trigger] rendered_lines(ls, ws)[i]
        == want[i] by {
        let l = lines_of(s)[i];
        assert(ls[i] == parse_line(l));
        assert(!(ls[i] is Record));
        if trim(l).len() == 0 {
            assert(trim(l) =~= Seq::<char>::empty());
        }
    }
    assert(rendered_lines(ls, ws) =~= want);
}

/// A record of a single field is written as that field alone: no padding and
/// no separator.
pub proof fn lemma_single_field(f: Seq<char>, ws: Seq<int>)
    ensures
        render_line(LineView::Record(seq![f]), ws) == f,
{
    assert(render_cells(seq![f], ws, 0) =~= Seq::<char>::empty());
    assert(render_cells(seq![f], ws, 1) =~= f);
}

} // verus!
