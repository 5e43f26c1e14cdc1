use vstd::prelude::*;

use crate::line::{line_views, Line, LineView};

verus! {

/// How many fields a line has: none unless it is a record.
pub open spec fn field_count(l: LineView) -> nat {
    match l {
        LineView::Record(fs) => fs.len(),
        _ => 0,
    }
}

/// The largest field count of the lines.
pub open spec fn num_columns(ls: Seq<LineView>) -> nat
    decreases ls.len(),
{
    if ls.len() == 0 {
        0
    } else {
        let a = num_columns(ls.drop_last());
        let b = field_count(ls.last());
        if a >= b {
            a
        } else {
            b
        }
    }
}

/// The length in characters (Unicode scalar values) of a line's field in column `col`; a line with no
/// such field gives nothing to the column.
pub open spec fn width_at(l: LineView, col: int) -> nat {
    match l {
        LineView::Record(fs) => if 0 <= col < fs.len() {
            fs[col].len()
        } else {
            0
        },
        _ => 0,
    }
}

/// The length of the longest field in column `col`.
pub open spec fn column_width(ls: Seq<LineView>, col: int) -> nat
    decreases ls.len(),
{
    if ls.len() == 0 {
        0
    } else {
        let a = column_width(ls.drop_last(), col);
        let b = width_at(ls.last(), col);
        if a >= b {
            a
        } else {
            b
        }
    }
}

/// One width for each column, the length of its longest field.
pub open spec fn max_widths(ls: Seq<LineView>) -> Seq<int> {
    Seq::new(num_columns(ls), |c: int| column_width(ls, c) as int)
}

/// The widths as integers.
pub open spec fn ints(v: Seq<usize>) -> Seq<int> {
    v.map_values(|w: usize| w as int)
}

/// The number of fields of a line.
fn count_fields(l: &Line) -> (r: usize)
    ensures
        r == field_count(l@),
{
    match l {
        Line::Record(fs) => fs.len(),
        _ => 0,
    }
}

/// The length of a line's field in column `col`, or 0 where it has none.
fn field_width(l: &Line, col: usize) -> (r: usize)
    ensures
        r == width_at(l@, col as int),
{
    match l {
        Line::Record(fs) => if col < fs.len() {
            fs[col].as_str().unicode_len()
        } else {
            0
        },
        _ => 0,
    }
}

/// For each column, the largest length in characters of a record field in that
/// column. There are as many columns as the longest record has fields; blank
/// lines and comments count for nothing.
pub fn calculate_max_widths(lines: &[Line]) -> (r: Vec<usize>)
    ensures
        ints(r@) == max_widths(line_views(lines@)),
{
    let ghost ls = line_views(lines@);
    let mut n: usize = 0;
    let mut j: usize = 0;
    while j < lines.len()
        invariant
            j <= lines.len(),
            ls == line_views(lines@),
            n == num_columns(ls.take(j as int)),
        decreases lines.len() - j,
    {
        proof {
            assert(ls.take(j + 1).drop_last() =~= ls.take(j as int));
        }
        let k = count_fields(&lines[j]);
        if k > n {
            n = k;
        }
        j += 1;
    }
    proof {
        assert(ls.take(lines.len() as int) =~= ls);
    }
    let mut r: Vec<usize> = Vec::new();
    let mut col: usize = 0;
    while col < n
        invariant
            col <= n == num_columns(ls),
            ls == line_views(lines@),
            ints(r@) == max_widths(ls).take(col as int),
        decreases n - col,
    {
        let mut m: usize = 0;
        let mut j: usize = 0;
        while j < lines.len()
            invariant
                j <= lines.len(),
                col < n,
                ls == line_views(lines@),
                m == column_width(ls.take(j as int), col as int),
            decreases lines.len() - j,
        {
            proof {
                assert(ls.take(j + 1).drop_last() =~= ls.take(j as int));
            }
            let w = field_width(&lines[j], col);
            if w > m {
                m = w;
            }
            j += 1;
        }
        proof {
            assert(ls.take(lines.len() as int) =~= ls);
        }
        let ghost r0 = r@;
        r.push(m);
        proof {
            assert(ints(r@) =~= ints(r0).push(m as int));
            assert(max_widths(ls).take(col + 1) =~= max_widths(ls).take(col as int).push(
                m as int,
            ));
        }
        col += 1;
    }
    proof {
        assert(max_widths(ls).take(n as int) =~= max_widths(ls));
    }
    r
}

} // verus!
