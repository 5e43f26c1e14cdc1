use vstd::prelude::*;

use crate::line::{line_views, string_of, string_views, Line, LineView};
use crate::text::{
    is_ws, lemma_lines_no_newline, lemma_space_is_ws, lemma_trim, lines_of,
    no_newline, split_lines, to_chars, trim, trim_chars, views,
};

verus! {

/// The fields found so far, and the piece being read.
pub type ScanState = (Seq<Seq<char>>, Seq<char>);

/// Closes a piece: its trimmed text becomes a field unless it is empty.
pub open spec fn emit(fs: Seq<Seq<char>>, piece: Seq<char>) -> Seq<Seq<char>> {
    if trim(piece).len() > 0 {
        fs.push(trim(piece))
    } else {
        fs
    }
}

/// Reads one character. A space that follows a pending space completes the
/// two-space delimiter, which closes the piece before it.
pub open spec fn scan_step(st: ScanState, c: char) -> ScanState {
    if c == ' ' && st.1.len() > 0 && st.1.last() == ' ' {
        (emit(st.0, st.1.drop_last()), Seq::empty())
    } else {
        (st.0, st.1.push(c))
    }
}

/// Reads `s` from left to right, starting in `st`.
pub open spec fn scan_from(st: ScanState, s: Seq<char>) -> ScanState
    decreases s.len(),
{
    if s.len() == 0 {
        st
    } else {
        scan_step(scan_from(st, s.drop_last()), s.last())
    }
}

/// Nothing found and nothing pending.
pub open spec fn scan_start() -> ScanState {
    (Seq::empty(), Seq::empty())
}

/// The fields of a record line: the text split at each two-space delimiter,
/// found from left to right, each piece trimmed, and the empty ones dropped.
pub open spec fn tokens(s: Seq<char>) -> Seq<Seq<char>> {
    let st = scan_from(scan_start(), s);
    emit(st.0, st.1)
}

/// Whether a field opens with `[`, the mark of the annotation column.
pub open spec fn is_annotation(f: Seq<char>) -> bool {
    f.len() > 0 && f[0] == '['
}

/// Keeps column 1 for the annotation: where a record has a second field that
/// is no annotation, an empty field is put before it.
pub open spec fn normalize(fs: Seq<Seq<char>>) -> Seq<Seq<char>> {
    if fs.len() > 1 && !is_annotation(fs[1]) {
        fs.insert(1, Seq::empty())
    } else {
        fs
    }
}

/// How one raw line is classified.
pub open spec fn parse_line(raw: Seq<char>) -> LineView {
    let t = trim(raw);
    if t.len() == 0 {
        LineView::Empty
    } else if t[0] == '#' {
        LineView::Comment(t)
    } else {
        LineView::Record(normalize(tokens(t)))
    }
}

/// One classified line for each line of the text.
pub open spec fn parse(s: Seq<char>) -> Seq<LineView> {
    lines_of(s).map_values(|l: Seq<char>| parse_line(l))
}

/// No two spaces stand side by side in `s`.
pub open spec fn no_double_space(s: Seq<char>) -> bool {
    forall|i: int| 0 <= i && i + 1 < s.len() ==> !(#[trigger] s[i] == ' ' && s[i + 1] == ' ')
}

/// A field as parsing leaves it: not empty, no white space at either end, no
/// two spaces side by side and no line feed.
pub open spec fn clean_field(f: Seq<char>) -> bool {
    &&& f.len() > 0
    &&& !is_ws(f[0])
    &&& !is_ws(f.last())
    &&& no_double_space(f)
    &&& no_newline(f)
}

/// The fields of a record as parsing leaves them: the first is clean and opens
/// with no `#`; every field but the second is clean; the second is either an
/// annotation or an empty placeholder before a field that is no annotation.
pub open spec fn well_formed_fields(fs: Seq<Seq<char>>) -> bool {
    &&& fs.len() > 0
    &&& forall|i: int| 0 <= i < fs.len() && i != 1 ==> clean_field(#[trigger] fs[i])
    &&& fs[0][0] != '#'
    &&& fs.len() > 1 ==> if fs[1].len() == 0 {
        fs.len() > 2 && !is_annotation(fs[2])
    } else {
        clean_field(fs[1]) && is_annotation(fs[1])
    }
}

/// A line as parsing leaves it.
pub open spec fn well_formed_line(l: LineView) -> bool {
    match l {
        LineView::Empty => true,
        LineView::Comment(t) => t.len() > 0 && t[0] == '#' && !is_ws(t.last()) && no_newline(t),
        LineView::Record(fs) => well_formed_fields(fs),
    }
}

/// Every field found so far is clean, and the pending piece has no two spaces
/// side by side and no line feed.
pub open spec fn scan_ok(st: ScanState) -> bool {
    &&& forall|i: int| 0 <= i < st.0.len() ==> clean_field(#[trigger] st.0[i])
    &&& no_double_space(st.1)
    &&& no_newline(st.1)
}

/// The trimmed part of a piece keeps its shape.
pub proof fn lemma_trim_clean(p: Seq<char>)
    requires
        no_double_space(p),
        no_newline(p),
        trim(p).len() > 0,
    ensures
        clean_field(trim(p)),
{
    let ab = lemma_trim(p);
    let t = trim(p);
    assert(t[0] == p[ab.0]);
    assert(t.last() == p[ab.1 - 1]);
    assert forall|i: int| 0 <= i && i + 1 < t.len() implies !(#[trigger] t[i] == ' ' && t[i + 1]
        == ' ') by {
        assert(t[i] == p[ab.0 + i]);
        assert(t[i + 1] == p[ab.0 + i + 1]);
    }
    assert forall|i: int| 0 <= i < t.len() implies t[i] != '\n' by {
        assert(t[i] == p[ab.0 + i]);
    }
}

/// Closing a piece with no two spaces side by side and no line feed adds
/// only a clean field.
pub proof fn lemma_emit_ok(fs: Seq<Seq<char>>, p: Seq<char>)
    requires
        forall|i: int| 0 <= i < fs.len() ==> clean_field(#[trigger] fs[i]),
        no_double_space(p),
        no_newline(p),
    ensures
        forall|i: int|
            0 <= i < emit(fs, p).len() ==> clean_field(#[trigger] emit(fs, p)[i]),
{
    if trim(p).len() > 0 {
        lemma_trim_clean(p);
    }
}

/// Scanning keeps `scan_ok`.
pub proof fn lemma_scan_ok(st: ScanState, s: Seq<char>)
    requires
        scan_ok(st),
        no_newline(s),
    ensures
        scan_ok(scan_from(st, s)),
    decreases s.len(),
{
    if s.len() > 0 {
        let s0 = s.drop_last();
        assert(no_newline(s0)) by {
            assert forall|i: int| 0 <= i < s0.len() implies s0[i] != '\n' by {
                assert(s0[i] == s[i]);
            }
        }
        lemma_scan_ok(st, s0);
        let prev = scan_from(st, s0);
        let c = s.last();
        assert(c == s[s.len() - 1]);
        if c == ' ' && prev.1.len() > 0 && prev.1.last() == ' ' {
            let piece = prev.1.drop_last();
            assert(no_double_space(piece)) by {
                assert forall|i: int| 0 <= i && i + 1 < piece.len() implies !(
                #[trigger] piece[i] == ' ' && piece[i + 1] == ' ') by {
                    assert(piece[i] == prev.1[i]);
                    assert(piece[i + 1] == prev.1[i + 1]);
                }
            }
            assert(no_newline(piece)) by {
                assert forall|i: int| 0 <= i < piece.len() implies piece[i] != '\n' by {
                    assert(piece[i] == prev.1[i]);
                }
            }
            lemma_emit_ok(prev.0, piece);
            assert(no_double_space(Seq::<char>::empty()));
        } else {
            let cur = prev.1.push(c);
            assert(no_double_space(cur)) by {
                assert forall|i: int| 0 <= i && i + 1 < cur.len() implies !(#[trigger] cur[i]
                    == ' ' && cur[i + 1] == ' ') by {
                    assert(cur[i] == prev.1[i]);
                    if i + 1 < prev.1.len() {
                        assert(cur[i + 1] == prev.1[i + 1]);
                    }
                }
            }
        }
    }
}

/// Every field of a line is clean.
pub proof fn lemma_tokens_clean(s: Seq<char>)
    requires
        no_newline(s),
    ensures
        forall|i: int| 0 <= i < tokens(s).len() ==> clean_field(#[trigger] tokens(s)[i]),
{
    assert(scan_ok(scan_start()));
    lemma_scan_ok(scan_start(), s);
    let st = scan_from(scan_start(), s);
    lemma_emit_ok(st.0, st.1);
}

/// The first field found, or else the pending piece, opens with `c0`.
pub open spec fn opens_with(st: ScanState, c0: char) -> bool {
    &&& st.0.len() == 0 ==> st.1.len() > 0 && st.1[0] == c0
    &&& st.0.len() > 0 ==> st.0[0].len() > 0 && st.0[0][0] == c0
}

/// A piece that opens with no white space keeps its first character when
/// trimmed.
pub proof fn lemma_trim_keeps_first(p: Seq<char>)
    requires
        p.len() > 0,
        !is_ws(p[0]),
    ensures
        trim(p).len() > 0,
        trim(p)[0] == p[0],
{
    let ab = lemma_trim(p);
    if ab.0 > 0 {
        assert(is_ws(p[0]));
    }
    if ab.1 == 0 {
        assert(is_ws(p[0]));
    }
}

/// Reading a text that opens with no white space keeps its first character
/// at the front.
pub proof fn lemma_scan_opens(s: Seq<char>)
    requires
        s.len() > 0,
        !is_ws(s[0]),
    ensures
        opens_with(scan_from(scan_start(), s), s[0]),
    decreases s.len(),
{
    lemma_space_is_ws();
    if s.len() == 1 {
        assert(s.drop_last() =~= Seq::<char>::empty());
        assert(s.last() == s[0]);
        assert(scan_from(scan_start(), s.drop_last()) == scan_start());
        assert(scan_from(scan_start(), s) == scan_step(scan_start(), s[0]));
        assert(seq![s[0]][0] == s[0]);
        assert(Seq::<char>::empty().push(s[0]) =~= seq![s[0]]);
    } else {
        let s0 = s.drop_last();
        assert(s0[0] == s[0]);
        lemma_scan_opens(s0);
        let prev = scan_from(scan_start(), s0);
        let c = s.last();
        if c == ' ' && prev.1.len() > 0 && prev.1.last() == ' ' {
            let piece = prev.1.drop_last();
            if prev.0.len() == 0 {
                assert(prev.1.len() >= 2);
                assert(piece[0] == s[0]);
                lemma_trim_keeps_first(piece);
                assert(emit(prev.0, piece) =~= seq![trim(piece)]);
            } else {
                assert(emit(prev.0, piece)[0] == prev.0[0]);
            }
        } else {
            if prev.0.len() == 0 {
                assert(prev.1.push(c)[0] == prev.1[0]);
            }
        }
    }
}

/// The first field of a line that opens with no white space opens with the
/// line's first character.
pub proof fn lemma_tokens_first(s: Seq<char>)
    requires
        s.len() > 0,
        !is_ws(s[0]),
    ensures
        tokens(s).len() > 0,
        tokens(s)[0].len() > 0,
        tokens(s)[0][0] == s[0],
{
    lemma_scan_opens(s);
    let st = scan_from(scan_start(), s);
    if st.0.len() == 0 {
        lemma_trim_keeps_first(st.1);
    }
}

/// '#' is no white space.
pub proof fn lemma_hash_not_ws()
    ensures
        !is_ws('#'),
{
    reveal(is_ws);
}

/// Each line that parsing gives is well formed.
pub proof fn lemma_parse_line_well_formed(raw: Seq<char>)
    requires
        no_newline(raw),
    ensures
        well_formed_line(parse_line(raw)),
{
    let t = trim(raw);
    let ab = lemma_trim(raw);
    crate::text::lemma_trim_no_newline(raw);
    if t.len() > 0 {
        assert(t[0] == raw[ab.0]);
        assert(t.last() == raw[ab.1 - 1]);
        if t[0] != '#' {
            lemma_tokens_clean(t);
            lemma_tokens_first(t);
            let ts = tokens(t);
            let fs = normalize(ts);
            if ts.len() > 1 && !is_annotation(ts[1]) {
                assert forall|i: int| 0 <= i < fs.len() && i != 1 implies clean_field(
                    #[trigger] fs[i],
                ) by {
                    if i == 0 {
                        assert(fs[0] == ts[0]);
                    } else {
                        assert(fs[i] == ts[i - 1]);
                    }
                }
                assert(fs[2] == ts[1]);
                assert(fs[0] == ts[0]);
            }
        }
    }
}

/// Each line of a parsed text is well formed.
pub proof fn lemma_parse_well_formed(s: Seq<char>)
    ensures
        forall|i: int| 0 <= i < parse(s).len() ==> well_formed_line(#[trigger] parse(s)[i]),
{
    lemma_lines_no_newline(s);
    assert forall|i: int| 0 <= i < parse(s).len() implies well_formed_line(
        #[trigger] parse(s)[i],
    ) by {
        lemma_parse_line_well_formed(lines_of(s)[i]);
    }
}

/// Closes a piece into `fs`.
fn emit_piece(fs: &mut Vec<Vec<char>>, piece: &Vec<char>)
    ensures
        views(final(fs)@) == emit(views(old(fs)@), piece@),
{
    let t = trim_chars(piece);
    if t.len() > 0 {
        fs.push(t);
        proof {
            assert(views(final(fs)@) =~= views(old(fs)@).push(trim(piece@)));
        }
    }
}

/// The fields of a trimmed record line, before normalization.
pub fn tokenize(t: &Vec<char>) -> (r: Vec<Vec<char>>)
    ensures
        views(r@) == tokens(t@),
{
    let mut fs: Vec<Vec<char>> = Vec::new();
    let mut cur: Vec<char> = Vec::new();
    let mut i: usize = 0;
    proof {
        assert(views(fs@) =~= Seq::<Seq<char>>::empty());
        assert(t@.take(0) =~= Seq::<char>::empty());
    }
    while i < t.len()
        invariant
            i <= t.len(),
            scan_from(scan_start(), t@.take(i as int)) == (views(fs@), cur@),
        decreases t.len() - i,
    {
        proof {
            assert(t@.take(i + 1).drop_last() =~= t@.take(i as int));
            assert(t@.take(i + 1).last() == t@[i as int]);
        }
        let c = t[i];
        if c == ' ' && cur.len() > 0 && cur[cur.len() - 1] == ' ' {
            cur.pop();
            emit_piece(&mut fs, &cur);
            cur = Vec::new();
        } else {
            cur.push(c);
        }
        i += 1;
    }
    proof {
        assert(t@.take(t.len() as int) =~= t@);
    }
    emit_piece(&mut fs, &cur);
    fs
}

/// Turns each vector of characters into a string.
fn strings_of(v: &Vec<Vec<char>>) -> (r: Vec<String>)
    ensures
        string_views(r@) == views(v@),
{
    let mut r: Vec<String> = Vec::new();
    let mut i: usize = 0;
    while i < v.len()
        invariant
            i <= v.len(),
            string_views(r@) == views(v@).take(i as int),
        decreases v.len() - i,
    {
        let x = string_of(&v[i]);
        let ghost r0 = r@;
        r.push(x);
        proof {
            assert(r@ == r0.push(x));
            assert(views(v@)[i as int] == x@);
            assert(string_views(r@) =~= string_views(r0).push(x@));
            assert(views(v@).take(i + 1) =~= views(v@).take(i as int).push(x@));
        }
        i += 1;
        proof {
            assert(string_views(r@) =~= views(v@).take(i as int));
        }
    }
    proof {
        assert(views(v@).take(v.len() as int) =~= views(v@));
    }
    r
}

/// Puts an empty field at column 1 where `normalize` says so.
fn normalize_fields(fs: Vec<Vec<char>>) -> (r: Vec<Vec<char>>)
    ensures
        views(r@) == normalize(views(fs@)),
{
    let mut fs = fs;
    if fs.len() > 1 && !(fs[1].len() > 0 && fs[1][0] == '[') {
        let ghost before = views(fs@);
        fs.insert(1, Vec::new());
        proof {
            assert(views(fs@) =~= before.insert(1, Seq::empty()));
        }
    }
    fs
}

/// Classifies one raw line.
pub fn parse_one_line(raw: &Vec<char>) -> (r: Line)
    ensures
        r@ == parse_line(raw@),
{
    let t = trim_chars(raw);
    if t.len() == 0 {
        Line::Empty
    } else if t[0] == '#' {
        Line::Comment(string_of(&t))
    } else {
        let fs = normalize_fields(tokenize(&t));
        Line::Record(strings_of(&fs))
    }
}

/// Splits a text into lines and classifies each: one `Line` per line of the
/// text, in order.
pub fn parse_file_contents(contents: &str) -> (r: Vec<Line>)
    ensures
        line_views(r@) == parse(contents@),
{
    let chars = to_chars(contents);
    let raw = split_lines(&chars);
    let mut r: Vec<Line> = Vec::new();
    let mut i: usize = 0;
    while i < raw.len()
        invariant
            i <= raw.len(),
            views(raw@) == lines_of(contents@),
            line_views(r@) == parse(contents@).take(i as int),
        decreases raw.len() - i,
    {
        let x = parse_one_line(&raw[i]);
        let ghost r0 = r@;
        r.push(x);
        proof {
            assert(r@ == r0.push(x));
            assert(views(raw@)[i as int] == raw@[i as int]@);
            assert(parse(contents@)[i as int] == x@);
            assert(line_views(r@) =~= line_views(r0).push(x@));
            assert(parse(contents@).take(i + 1) =~= parse(contents@).take(i as int).push(x@));
        }
        i += 1;
        proof {
            assert(line_views(r@) =~= parse(contents@).take(i as int));
        }
    }
    proof {
        assert(parse(contents@).take(raw.len() as int) =~= parse(contents@));
    }
    r
}

} // verus!
