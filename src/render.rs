use vstd::prelude::*;

use crate::line::{line_views, Line, LineView};
use crate::parse::{
    clean_field, lemma_hash_not_ws, no_double_space, normalize, parse_line,
    scan_from, scan_start, scan_step, tokens, well_formed_fields, well_formed_line, ScanState,
};
use crate::text::{
    is_ws, joined, lemma_space_is_ws, lemma_trim_of_trimmed, no_newline, trim, trim_start,
};
use crate::widths::ints;

verus! {

/// `n` spaces.
pub open spec fn spaces(n: nat) -> Seq<char> {
    Seq::new(n, |_i: int| ' ')
}

/// The separator between two fields.
pub open spec fn separator() -> Seq<char> {
    seq![' ', ' ']
}

/// The spaces that bring a field of length `len` in column `i` up to the
/// column's width; none where the width is unknown or already reached.
pub open spec fn pad(ws: Seq<int>, i: int, len: nat) -> nat {
    if 0 <= i < ws.len() && ws[i] > len {
        (ws[i] - len) as nat
    } else {
        0
    }
}

/// Field `i` of a record as it is written: padded and followed by the
/// separator, unless it is the last field.
pub open spec fn cell(fs: Seq<Seq<char>>, ws: Seq<int>, i: int) -> Seq<char> {
    if i + 1 < fs.len() {
        fs[i] + spaces(pad(ws, i, fs[i].len())) + separator()
    } else {
        fs[i]
    }
}

/// The first `k` cells of a record.
pub open spec fn render_cells(fs: Seq<Seq<char>>, ws: Seq<int>, k: nat) -> Seq<char>
    decreases k,
{
    if k == 0 {
        Seq::empty()
    } else {
        render_cells(fs, ws, (k - 1) as nat) + cell(fs, ws, k - 1)
    }
}

/// A line as it is written, without its line feed.
pub open spec fn render_line(l: LineView, ws: Seq<int>) -> Seq<char> {
    match l {
        LineView::Empty => Seq::empty(),
        LineView::Comment(t) => t,
        LineView::Record(fs) => render_cells(fs, ws, fs.len()),
    }
}

/// Each line as it is written.
pub open spec fn rendered_lines(ls: Seq<LineView>, ws: Seq<int>) -> Seq<Seq<char>> {
    ls.map_values(|l: LineView| render_line(l, ws))
}

/// The lines as they are written, each closed by a line feed.
pub open spec fn render(ls: Seq<LineView>, ws: Seq<int>) -> Seq<char> {
    joined(rendered_lines(ls, ws))
}

/// The non-empty fields, in order.
pub open spec fn present(fs: Seq<Seq<char>>) -> Seq<Seq<char>>
    decreases fs.len(),
{
    if fs.len() == 0 {
        Seq::empty()
    } else {
        let r = present(fs.drop_last());
        if fs.last().len() > 0 {
            r.push(fs.last())
        } else {
            r
        }
    }
}

/// No piece is pending, or a single space is.
pub open spec fn at_gap(st: ScanState) -> bool {
    st.1 == Seq::<char>::empty() || st.1 == seq![' ']
}

/// A field that may stand in a record: empty, or opening with no white space
/// and holding no two spaces side by side.
pub open spec fn fits_cell(f: Seq<char>) -> bool {
    f.len() == 0 || (!is_ws(f[0]) && no_double_space(f))
}

/// Reading in two parts reads the whole.
pub proof fn lemma_scan_append(st: ScanState, a: Seq<char>, b: Seq<char>)
    ensures
        scan_from(st, a + b) == scan_from(scan_from(st, a), b),
    decreases b.len(),
{
    if b.len() == 0 {
        assert(a + b =~= a);
    } else {
        lemma_scan_append(st, a, b.drop_last());
        assert((a + b).drop_last() =~= a + b.drop_last());
        assert((a + b).last() == b.last());
    }
}

/// A field read at a gap is added to the pending piece whole.
pub proof fn lemma_scan_field(st: ScanState, f: Seq<char>)
    requires
        at_gap(st),
        fits_cell(f),
    ensures
        scan_from(st, f) == (st.0, st.1 + f),
    decreases f.len(),
{
    lemma_space_is_ws();
    if f.len() == 0 {
        assert(st.1 + f =~= st.1);
    } else {
        let f0 = f.drop_last();
        if f0.len() > 0 {
            assert(f0[0] == f[0]);
            assert forall|i: int| 0 <= i && i + 1 < f0.len() implies !(#[trigger] f0[i] == ' '
                && f0[i + 1] == ' ') by {
                assert(f0[i] == f[i]);
                assert(f0[i + 1] == f[i + 1]);
            }
        }
        lemma_scan_field(st, f0);
        let c = f.last();
        let cur = st.1 + f0;
        if f.len() >= 2 {
            assert(cur.last() == f[f.len() - 2]);
            assert(c == f[f.len() - 1]);
        } else {
            assert(c == f[0]);
        }
        assert(cur.push(c) =~= st.1 + f);
    }
}

/// Spaces read at a gap add no field and leave a gap.
pub proof fn lemma_scan_spaces(st: ScanState, m: nat)
    requires
        at_gap(st),
    ensures
        scan_from(st, spaces(m)).0 == st.0,
        at_gap(scan_from(st, spaces(m))),
    decreases m,
{
    if m > 0 {
        assert(spaces(m).drop_last() =~= spaces((m - 1) as nat));
        lemma_scan_spaces(st, (m - 1) as nat);
        let prev = scan_from(st, spaces((m - 1) as nat));
        assert(spaces(m).last() == ' ');
        if prev.1 == seq![' '] {
            assert(prev.1.drop_last() =~= Seq::<char>::empty());
            assert(trim_start(Seq::<char>::empty()) == Seq::<char>::empty());
            assert(trim(Seq::<char>::empty()).len() == 0);
        } else {
            assert(prev.1.push(' ') =~= seq![' ']);
        }
    } else {
        assert(spaces(0) =~= Seq::<char>::empty());
    }
}

/// A clean field after a gap trims to itself.
pub proof fn lemma_trim_after_gap(c: Seq<char>, f: Seq<char>)
    requires
        c == Seq::<char>::empty() || c == seq![' '],
        f.len() > 0,
        !is_ws(f[0]),
        !is_ws(f.last()),
    ensures
        trim(c + f) == f,
{
    lemma_space_is_ws();
    lemma_trim_of_trimmed(f);
    if c.len() == 0 {
        assert(c + f =~= f);
    } else {
        assert((c + f).drop_first() =~= f);
        assert((c + f)[0] == ' ');
        assert(trim_start(c + f) == trim_start(f));
    }
}

/// A cell that is followed by a separator: the field, if not empty, is found,
/// and a gap is left.
pub proof fn lemma_scan_cell(st: ScanState, f: Seq<char>, m: nat)
    requires
        at_gap(st),
        fits_cell(f),
        f.len() > 0 ==> !is_ws(f.last()),
        m >= 2,
    ensures
        at_gap(scan_from(st, f + spaces(m))),
        scan_from(st, f + spaces(m)).0 == if f.len() > 0 {
            st.0.push(f)
        } else {
            st.0
        },
{
    lemma_space_is_ws();
    lemma_scan_append(st, f, spaces(m));
    lemma_scan_field(st, f);
    let st1 = scan_from(st, f);
    if f.len() == 0 {
        assert(st.1 + f =~= st.1);
        lemma_scan_spaces(st1, m);
    } else {
        let two = seq![' ', ' '];
        assert(spaces(m) =~= two + spaces((m - 2) as nat));
        lemma_scan_append(st1, two, spaces((m - 2) as nat));
        assert(two.drop_last() =~= seq![' ']);
        assert(seq![' '].drop_last() =~= Seq::<char>::empty());
        let cur = st.1 + f;
        assert(cur.last() == f.last());
        let s1 = scan_step(st1, ' ');
        assert(s1 == (st.0, cur.push(' ')));
        assert(scan_from(st1, Seq::<char>::empty()) == st1);
        assert(seq![' '].last() == ' ');
        assert(two.last() == ' ');
        assert(scan_from(st1, seq![' ']) == s1);
        assert(cur.push(' ').drop_last() =~= cur);
        lemma_trim_after_gap(st.1, f);
        let s2 = scan_step(s1, ' ');
        assert(s2 == (st.0.push(f), Seq::<char>::empty()));
        assert(scan_from(st1, two) == s2);
        lemma_scan_spaces(s2, (m - 2) as nat);
    }
}

/// Each cell of a record but the last ends in at least two spaces.
pub proof fn lemma_cell_spaces(fs: Seq<Seq<char>>, ws: Seq<int>, i: int)
    requires
        0 <= i,
        i + 1 < fs.len(),
    ensures
        cell(fs, ws, i) == fs[i] + spaces(pad(ws, i, fs[i].len()) + 2),
{
    assert(spaces(pad(ws, i, fs[i].len())) + separator() =~= spaces(pad(ws, i, fs[i].len()) + 2));
    assert(fs[i] + spaces(pad(ws, i, fs[i].len())) + separator() =~= fs[i] + spaces(
        pad(ws, i, fs[i].len()) + 2,
    ));
}

/// Reading the cells before the last finds their non-empty fields.
pub proof fn lemma_scan_cells(fs: Seq<Seq<char>>, ws: Seq<int>, k: nat)
    requires
        k < fs.len(),
        forall|i: int| 0 <= i < fs.len() ==> fits_cell(#[trigger] fs[i]),
        forall|i: int| 0 <= i < fs.len() && fs[i].len() > 0 ==> !is_ws(#[trigger] fs[i].last()),
    ensures
        at_gap(scan_from(scan_start(), render_cells(fs, ws, k))),
        scan_from(scan_start(), render_cells(fs, ws, k)).0 == present(fs.take(k as int)),
    decreases k,
{
    if k == 0 {
        assert(fs.take(0) =~= Seq::<Seq<char>>::empty());
        assert(render_cells(fs, ws, 0) =~= Seq::<char>::empty());
        assert(scan_from(scan_start(), Seq::<char>::empty()) == scan_start());
    } else {
        let j = k - 1;
        lemma_scan_cells(fs, ws, j as nat);
        let prev = render_cells(fs, ws, j as nat);
        let st = scan_from(scan_start(), prev);
        lemma_cell_spaces(fs, ws, j);
        let m = pad(ws, j, fs[j].len()) + 2;
        lemma_scan_append(scan_start(), prev, fs[j] + spaces(m));
        lemma_scan_cell(st, fs[j], m);
        assert(fs.take(k as int).drop_last() =~= fs.take(j));
        assert(fs.take(k as int).last() == fs[j]);
    }
}

/// Reading a record as written finds its non-empty fields.
pub proof fn lemma_tokens_of_cells(fs: Seq<Seq<char>>, ws: Seq<int>)
    requires
        fs.len() > 0,
        forall|i: int| 0 <= i < fs.len() ==> fits_cell(#[trigger] fs[i]),
        forall|i: int| 0 <= i < fs.len() && fs[i].len() > 0 ==> !is_ws(#[trigger] fs[i].last()),
        fs.last().len() > 0,
    ensures
        tokens(render_cells(fs, ws, fs.len())) == present(fs),
{
    let n = fs.len();
    let j = (n - 1) as nat;
    lemma_scan_cells(fs, ws, j);
    let prev = render_cells(fs, ws, j);
    let st = scan_from(scan_start(), prev);
    let f = fs[n - 1];
    assert(render_cells(fs, ws, n) == prev + f);
    lemma_scan_append(scan_start(), prev, f);
    lemma_scan_field(st, f);
    lemma_trim_after_gap(st.1, f);
    assert(fs.take(n as int) =~= fs);
    assert(fs.drop_last() =~= fs.take(j as int));
}

/// A record as written opens with its first field and closes with its last.
pub proof fn lemma_cells_ends(fs: Seq<Seq<char>>, ws: Seq<int>, k: nat)
    requires
        1 <= k <= fs.len(),
        fs[0].len() > 0,
    ensures
        render_cells(fs, ws, k).len() > 0,
        render_cells(fs, ws, k)[0] == fs[0][0],
    decreases k,
{
    if k == 1 {
        assert(render_cells(fs, ws, 0) =~= Seq::<char>::empty());
        assert(render_cells(fs, ws, 1) =~= cell(fs, ws, 0));
    } else {
        lemma_cells_ends(fs, ws, (k - 1) as nat);
    }
}

/// Two texts without a line feed make one without.
pub proof fn lemma_no_newline_concat(a: Seq<char>, b: Seq<char>)
    requires
        no_newline(a),
        no_newline(b),
    ensures
        no_newline(a + b),
{
    assert forall|i: int| 0 <= i < (a + b).len() implies (a + b)[i] != '\n' by {
        if i >= a.len() {
            assert((a + b)[i] == b[i - a.len()]);
        }
    }
}

/// A record with no line feed in its fields is written without one.
pub proof fn lemma_cells_no_newline(fs: Seq<Seq<char>>, ws: Seq<int>, k: nat)
    requires
        k <= fs.len(),
        forall|i: int| 0 <= i < fs.len() ==> no_newline(#[trigger] fs[i]),
    ensures
        no_newline(render_cells(fs, ws, k)),
    decreases k,
{
    if k > 0 {
        let j = k - 1;
        lemma_cells_no_newline(fs, ws, j as nat);
        assert(no_newline(fs[j]));
        if j + 1 < fs.len() {
            let p = pad(ws, j, fs[j].len());
            lemma_no_newline_concat(fs[j], spaces(p));
            lemma_no_newline_concat(fs[j] + spaces(p), separator());
        }
        lemma_no_newline_concat(render_cells(fs, ws, j as nat), cell(fs, ws, j));
    }
}

/// The non-empty fields of a well-formed record, put back in columns, are the
/// record.
pub proof fn lemma_normalize_present(fs: Seq<Seq<char>>)
    requires
        well_formed_fields(fs),
    ensures
        normalize(present(fs)) == fs,
{
    let n = fs.len();
    if n > 1 && fs[1].len() == 0 {
        assert forall|k: int| 2 <= k <= n implies present(fs.take(k)) == seq![fs[0]]
            + fs.subrange(2, k) by {
            lemma_present_skip(fs, k);
        }
        let p = present(fs);
        assert(fs.take(n as int) =~= fs);
        assert(p == seq![fs[0]] + fs.subrange(2, n as int));
        assert(p[1] == fs[2]);
        assert(fs[1] =~= Seq::<char>::empty());
        assert(p.insert(1, Seq::empty()) =~= fs);
    } else {
        lemma_present_all(fs, n as nat);
        assert(fs.take(n as int) =~= fs);
    }
}

/// With an empty second field, the non-empty fields are the others.
pub proof fn lemma_present_skip(fs: Seq<Seq<char>>, k: int)
    requires
        well_formed_fields(fs),
        fs.len() > 1,
        fs[1].len() == 0,
        2 <= k <= fs.len(),
    ensures
        present(fs.take(k)) == seq![fs[0]] + fs.subrange(2, k),
    decreases k,
{
    assert(clean_field(fs[0]));
    if k == 2 {
        let t = fs.take(2);
        assert(t.drop_last() =~= seq![fs[0]]);
        assert(seq![fs[0]].drop_last() =~= Seq::<Seq<char>>::empty());
        assert(present(Seq::<Seq<char>>::empty()) == Seq::<Seq<char>>::empty());
        assert(seq![fs[0]].last() == fs[0]);
        assert(present(seq![fs[0]]) =~= seq![fs[0]]);
        assert(seq![fs[0]] + fs.subrange(2, 2) =~= seq![fs[0]]);
    } else {
        lemma_present_skip(fs, k - 1);
        assert(fs.take(k).drop_last() =~= fs.take(k - 1));
        assert(clean_field(fs[k - 1]));
        assert(seq![fs[0]] + fs.subrange(2, k) =~= (seq![fs[0]] + fs.subrange(2, k - 1)).push(
            fs[k - 1],
        ));
    }
}

/// With no empty field, all fields are kept.
pub proof fn lemma_present_all(fs: Seq<Seq<char>>, k: nat)
    requires
        k <= fs.len(),
        forall|i: int| 0 <= i < fs.len() ==> (#[trigger] fs[i]).len() > 0,
    ensures
        present(fs.take(k as int)) == fs.take(k as int),
    decreases k,
{
    if k == 0 {
        assert(fs.take(0) =~= Seq::<Seq<char>>::empty());
    } else {
        lemma_present_all(fs, (k - 1) as nat);
        assert(fs.take(k as int).drop_last() =~= fs.take(k - 1));
        assert(fs.take(k - 1).push(fs[k - 1]) =~= fs.take(k as int));
    }
}

/// A well-formed line, written and parsed again, is the same line.
pub proof fn lemma_parse_render_line(l: LineView, ws: Seq<int>)
    requires
        well_formed_line(l),
    ensures
        parse_line(render_line(l, ws)) == l,
        no_newline(render_line(l, ws)),
{
    lemma_hash_not_ws();
    match l {
        LineView::Empty => {
            assert(trim_start(Seq::<char>::empty()) == Seq::<char>::empty());
            assert(trim(Seq::<char>::empty()).len() == 0);
        },
        LineView::Comment(t) => {
            lemma_trim_of_trimmed(t);
        },
        LineView::Record(fs) => {
            let n = fs.len();
            assert(clean_field(fs[0]));
            assert forall|i: int| 0 <= i < n implies fits_cell(#[trigger] fs[i]) && no_newline(
                fs[i],
            ) && (fs[i].len() > 0 ==> !is_ws(fs[i].last())) by {
                if i != 1 {
                    assert(clean_field(fs[i]));
                } else if fs[1].len() > 0 {
                    assert(clean_field(fs[1]));
                } else {
                    assert(no_newline(fs[1]));
                }
            }
            assert(clean_field(fs[n - 1])) by {
                if n - 1 == 1 {
                    assert(fs[1].len() > 0);
                }
            }
            let r = render_cells(fs, ws, n);
            lemma_tokens_of_cells(fs, ws);
            lemma_cells_ends(fs, ws, n);
            lemma_cells_no_newline(fs, ws, n);
            assert(r == render_cells(fs, ws, (n - 1) as nat) + fs[n - 1]);
            assert(r.last() == fs[n - 1].last());
            lemma_trim_of_trimmed(r);
            lemma_normalize_present(fs);
        },
    }
}

/// Writes the fields of a record onto `out`.
fn write_record(out: &mut String, fs: &Vec<String>, ws: &[usize])
    ensures
        final(out)@ == old(out)@ + render_cells(
            fs@.map_values(|x: String| x@),
            ints(ws@),
            fs.len() as nat,
        ),
{
    let ghost fv = fs@.map_values(|x: String| x@);
    let ghost wv = ints(ws@);
    let ghost start = out@;
    let n = fs.len();
    let mut i: usize = 0;
    proof {
        reveal_strlit(" ");
        reveal_strlit("  ");
        assert(start + render_cells(fv, wv, 0) =~= start);
    }
    while i < n
        invariant
            i <= n == fs.len(),
            fv == fs@.map_values(|x: String| x@),
            wv == ints(ws@),
            out@ == start + render_cells(fv, wv, i as nat),
            " "@ == seq![' '],
            "  "@ == separator(),
        decreases n - i,
    {
        let f = &fs[i];
        let ghost before = out@;
        out.append(f.as_str());
        if i + 1 < n {
            let len = f.as_str().unicode_len();
            let p: usize = if i < ws.len() && ws[i] > len {
                ws[i] - len
            } else {
                0
            };
            proof {
                assert(p == pad(wv, i as int, fv[i as int].len()));
            }
            let ghost mid = out@;
            let mut k: usize = 0;
            while k < p
                invariant
                    k <= p,
                    out@ == mid + spaces(k as nat),
                    " "@ == seq![' '],
                decreases p - k,
            {
                out.append(" ");
                k += 1;
                proof {
                    assert(out@ =~= mid + spaces(k as nat));
                }
            }
            out.append("  ");
            proof {
                assert(out@ =~= before + cell(fv, wv, i as int));
            }
        } else {
            proof {
                assert(out@ =~= before + cell(fv, wv, i as int));
            }
        }
        i += 1;
        proof {
            assert(out@ =~= start + render_cells(fv, wv, i as nat));
        }
    }
}

/// Writes each line, each followed by a line feed. A record's fields are
/// padded to the width of their column and joined by two spaces; its last
/// field is neither padded nor followed by a separator. Blank lines come out
/// empty and comments as they are.
pub fn generate_aligned_output(lines: &[Line], max_widths: &[usize]) -> (r: String)
    ensures
        r@ == render(line_views(lines@), ints(max_widths@)),
{
    let ghost ls = line_views(lines@);
    let ghost wv = ints(max_widths@);
    let mut out = String::new();
    let mut j: usize = 0;
    proof {
        reveal_strlit("\n");
        assert(rendered_lines(ls.take(0), wv) =~= Seq::<Seq<char>>::empty());
    }
    while j < lines.len()
        invariant
            j <= lines.len(),
            ls == line_views(lines@),
            wv == ints(max_widths@),
            out@ == render(ls.take(j as int), wv),
            "\n"@ == seq!['\n'],
        decreases lines.len() - j,
    {
        proof {
            assert(rendered_lines(ls.take(j + 1), wv).drop_last() =~= rendered_lines(
                ls.take(j as int),
                wv,
            ));
        }
        let ghost before = out@;
        match &lines[j] {
            Line::Empty => {},
            Line::Comment(t) => {
                out.append(t.as_str());
            },
            Line::Record(fs) => {
                write_record(&mut out, fs, max_widths);
            },
        }
        out.append("\n");
        proof {
            assert(out@ =~= before + render_line(ls[j as int], wv) + seq!['\n']);
        }
        j += 1;
    }
    proof {
        assert(ls.take(lines.len() as int) =~= ls);
    }
    out
}

} // verus!
