use vstd::prelude::*;

verus! {

/// White space as Unicode's `White_Space` property lists it; this is the set
/// that `char::is_whitespace`, and hence `str::trim`, removes.
#[verifier::opaque]
pub open spec fn is_ws(c: char) -> bool {
    let u = c as u32;
    ||| 0x09 <= u <= 0x0d
    ||| u == 0x20
    ||| u == 0x85
    ||| u == 0xa0
    ||| u == 0x1680
    ||| 0x2000 <= u <= 0x200a
    ||| u == 0x2028
    ||| u == 0x2029
    ||| u == 0x202f
    ||| u == 0x205f
    ||| u == 0x3000
}

/// A space is white space.
pub proof fn lemma_space_is_ws()
    ensures
        is_ws(' '),
{
    reveal(is_ws);
}

/// `s` without its leading white space.
pub open spec fn trim_start(s: Seq<char>) -> Seq<char>
    decreases s.len(),
{
    if s.len() > 0 && is_ws(s[0]) {
        trim_start(s.drop_first())
    } else {
        s
    }
}

/// `s` without its trailing white space.
pub open spec fn trim_end(s: Seq<char>) -> Seq<char>
    decreases s.len(),
{
    if s.len() > 0 && is_ws(s.last()) {
        trim_end(s.drop_last())
    } else {
        s
    }
}

/// `s` without leading and trailing white space.
pub open spec fn trim(s: Seq<char>) -> Seq<char> {
    trim_end(trim_start(s))
}

/// The pieces of `s` between line feeds: one more than there are line feeds.
pub open spec fn newline_pieces(s: Seq<char>) -> Seq<Seq<char>>
    decreases s.len(),
{
    if s.len() == 0 {
        seq![Seq::empty()]
    } else {
        let p = newline_pieces(s.drop_last());
        if s.last() == '\n' {
            p.push(Seq::empty())
        } else {
            p.update(p.len() - 1, p.last().push(s.last()))
        }
    }
}

/// The lines of a text: the pieces between line feeds, where a final empty
/// piece (after a closing line feed, or of an empty text) is no line.
pub open spec fn lines_of(s: Seq<char>) -> Seq<Seq<char>> {
    let p = newline_pieces(s);
    if p.last().len() == 0 {
        p.drop_last()
    } else {
        p
    }
}

/// Lines, each closed by a line feed.
pub open spec fn joined(ls: Seq<Seq<char>>) -> Seq<char>
    decreases ls.len(),
{
    if ls.len() == 0 {
        Seq::empty()
    } else {
        joined(ls.drop_last()) + ls.last() + seq!['\n']
    }
}

/// `s` holds no line feed.
pub open spec fn no_newline(s: Seq<char>) -> bool {
    forall|i: int| 0 <= i < s.len() ==> s[i] != '\n'
}

/// `trim_start` drops a run of white space from the front.
pub proof fn lemma_trim_start(p: Seq<char>) -> (i: int)
    ensures
        0 <= i <= p.len(),
        trim_start(p) == p.subrange(i, p.len() as int),
        i < p.len() ==> !is_ws(p[i]),
        forall|k: int| 0 <= k < i ==> is_ws(#[trigger] p[k]),
    decreases p.len(),
{
    if p.len() > 0 && is_ws(p[0]) {
        let j = lemma_trim_start(p.drop_first());
        assert(p.drop_first().subrange(j, p.len() - 1) =~= p.subrange(j + 1, p.len() as int));
        assert forall|k: int| 0 <= k < j + 1 implies is_ws(#[trigger] p[k]) by {
            if k > 0 {
                assert(p[k] == p.drop_first()[k - 1]);
            }
        }
        j + 1
    } else {
        assert(p.subrange(0, p.len() as int) =~= p);
        0
    }
}

/// `trim_end` drops a run of white space from the back.
pub proof fn lemma_trim_end(q: Seq<char>) -> (j: int)
    ensures
        0 <= j <= q.len(),
        trim_end(q) == q.subrange(0, j),
        j > 0 ==> !is_ws(q[j - 1]),
        forall|k: int| j <= k < q.len() ==> is_ws(#[trigger] q[k]),
    decreases q.len(),
{
    if q.len() > 0 && is_ws(q.last()) {
        let j = lemma_trim_end(q.drop_last());
        assert(q.drop_last().subrange(0, j) =~= q.subrange(0, j));
        assert forall|k: int| j <= k < q.len() implies is_ws(#[trigger] q[k]) by {
            if k < q.len() - 1 {
                assert(q[k] == q.drop_last()[k]);
            }
        }
        j
    } else {
        assert(q.subrange(0, q.len() as int) =~= q);
        q.len() as int
    }
}

/// `trim` keeps the part of `p` between two runs of white space.
pub proof fn lemma_trim(p: Seq<char>) -> (ab: (int, int))
    ensures
        0 <= ab.0 <= ab.1 <= p.len(),
        trim(p) == p.subrange(ab.0, ab.1),
        ab.0 < ab.1 ==> !is_ws(p[ab.0]) && !is_ws(p[ab.1 - 1]),
        forall|k: int| 0 <= k < ab.0 ==> is_ws(#[trigger] p[k]),
        forall|k: int| ab.1 <= k < p.len() ==> is_ws(#[trigger] p[k]),
{
    let i = lemma_trim_start(p);
    let q = trim_start(p);
    let j = lemma_trim_end(q);
    assert(q.subrange(0, j) =~= p.subrange(i, i + j));
    assert forall|k: int| i + j <= k < p.len() implies is_ws(#[trigger] p[k]) by {
        assert(p[k] == q[k - i]);
    }
    if j > 0 {
        assert(q[0] == p[i]);
        assert(q[j - 1] == p[i + j - 1]);
    }
    (i, i + j)
}

/// A text with no white space at either end is its own trim.
pub proof fn lemma_trim_of_trimmed(p: Seq<char>)
    requires
        p.len() > 0,
        !is_ws(p[0]),
        !is_ws(p.last()),
    ensures
        trim(p) == p,
{
    assert(trim_start(p) == p);
    assert(trim_end(p) == p);
}

/// Trimming adds no line feed.
pub proof fn lemma_trim_no_newline(p: Seq<char>)
    requires
        no_newline(p),
    ensures
        no_newline(trim(p)),
{
    let ab = lemma_trim(p);
    assert forall|i: int| 0 <= i < trim(p).len() implies trim(p)[i] != '\n' by {
        assert(trim(p)[i] == p[ab.0 + i]);
    }
}

/// Text without a line feed extends the last piece.
pub proof fn lemma_newline_pieces_extend(a: Seq<char>, b: Seq<char>)
    requires
        no_newline(b),
    ensures
        newline_pieces(a + b) == newline_pieces(a).update(
            newline_pieces(a).len() - 1,
            newline_pieces(a).last() + b,
        ),
    decreases b.len(),
{
    lemma_newline_pieces_nonempty(a);
    if b.len() == 0 {
        assert(a + b =~= a);
        assert(newline_pieces(a).last() + b =~= newline_pieces(a).last());
        assert(newline_pieces(a).update(newline_pieces(a).len() - 1, newline_pieces(a).last())
            =~= newline_pieces(a));
    } else {
        let c = b.last();
        assert(c == b[b.len() - 1]);
        lemma_newline_pieces_extend(a, b.drop_last());
        assert((a + b).drop_last() =~= a + b.drop_last());
        assert((a + b).last() == c);
        let p = newline_pieces(a);
        let q = newline_pieces(a + b.drop_last());
        assert(q == p.update(p.len() - 1, p.last() + b.drop_last()));
        assert(q.len() == p.len());
        assert(q.last() == p.last() + b.drop_last());
        assert(newline_pieces(a + b) == q.update(q.len() - 1, q.last().push(c)));
        assert((p.last() + b.drop_last()).push(c) =~= p.last() + b);
        assert(newline_pieces(a + b) =~= p.update(p.len() - 1, p.last() + b));
    }
}

/// The lines of lines that are joined are those lines.
pub proof fn lemma_lines_of_joined(ls: Seq<Seq<char>>)
    requires
        forall|i: int| 0 <= i < ls.len() ==> no_newline(#[trigger] ls[i]),
    ensures
        newline_pieces(joined(ls)) == ls.push(Seq::empty()),
        lines_of(joined(ls)) == ls,
    decreases ls.len(),
{
    if ls.len() == 0 {
        assert(newline_pieces(Seq::empty()) =~= seq![Seq::<char>::empty()]);
        assert(ls.push(Seq::empty()) =~= seq![Seq::<char>::empty()]);
    } else {
        let front = ls.drop_last();
        let x = ls.last();
        assert(no_newline(ls[ls.len() - 1]));
        lemma_lines_of_joined(front);
        let j = joined(front);
        lemma_newline_pieces_extend(j, x);
        assert(Seq::<char>::empty() + x =~= x);
        let jx = j + x;
        assert(joined(ls) =~= jx.push('\n'));
        assert(jx.push('\n').drop_last() =~= jx);
        assert(newline_pieces(joined(ls)) =~= ls.push(Seq::empty()));
    }
    assert(ls.push(Seq::empty()).drop_last() =~= ls);
}

/// Each line of a text holds no line feed.
pub proof fn lemma_lines_no_newline(s: Seq<char>)
    ensures
        forall|i: int| 0 <= i < lines_of(s).len() ==> no_newline(#[trigger] lines_of(s)[i]),
{
    lemma_newline_pieces_no_newline(s);
    lemma_newline_pieces_nonempty(s);
}

/// No piece between line feeds holds one.
pub proof fn lemma_newline_pieces_no_newline(s: Seq<char>)
    ensures
        forall|i: int| 0 <= i < newline_pieces(s).len() ==> no_newline(
            #[trigger] newline_pieces(s)[i],
        ),
    decreases s.len(),
{
    if s.len() > 0 {
        lemma_newline_pieces_no_newline(s.drop_last());
        lemma_newline_pieces_nonempty(s.drop_last());
        let p = newline_pieces(s.drop_last());
        if s.last() != '\n' {
            assert(no_newline(p[p.len() - 1]));
            assert(no_newline(p.last().push(s.last())));
        } else {
            assert(no_newline(Seq::<char>::empty()));
        }
    }
}

/// There is always at least one piece.
pub proof fn lemma_newline_pieces_nonempty(s: Seq<char>)
    ensures
        newline_pieces(s).len() >= 1,
    decreases s.len(),
{
    if s.len() > 0 {
        lemma_newline_pieces_nonempty(s.drop_last());
    }
}

/// The contents of each vector of characters.
pub open spec fn views(v: Seq<Vec<char>>) -> Seq<Seq<char>> {
    v.map_values(|x: Vec<char>| x@)
}

/// Copies the characters of a string slice into a vector, in order.
pub fn to_chars(s: &str) -> (v: Vec<char>)
    ensures
        v@ == s@,
{
    let mut v: Vec<char> = Vec::new();
    for c in it: s.chars()
        invariant
            v@ == it.history(),
    {
        v.push(c);
    }
    v
}

/// Tells white space from other characters, as `char::is_whitespace` does.
pub fn is_ws_char(c: char) -> (r: bool)
    ensures
        r == is_ws(c),
{
    proof {
        reveal(is_ws);
    }
    let u = c as u32;
    (0x09 <= u && u <= 0x0d) || u == 0x20 || u == 0x85 || u == 0xa0 || u == 0x1680 || (0x2000
        <= u && u <= 0x200a) || u == 0x2028 || u == 0x2029 || u == 0x202f || u == 0x205f || u
        == 0x3000
}

/// The characters of `s` from `lo` up to `hi`.
pub fn copy_range(s: &Vec<char>, lo: usize, hi: usize) -> (r: Vec<char>)
    requires
        lo <= hi <= s.len(),
    ensures
        r@ == s@.subrange(lo as int, hi as int),
{
    let mut r: Vec<char> = Vec::new();
    let mut i: usize = lo;
    while i < hi
        invariant
            lo <= i <= hi <= s.len(),
            r@ == s@.subrange(lo as int, i as int),
        decreases hi - i,
    {
        r.push(s[i]);
        i += 1;
        proof {
            assert(r@ =~= s@.subrange(lo as int, i as int));
        }
    }
    r
}

/// `s` without leading and trailing white space.
pub fn trim_chars(s: &Vec<char>) -> (r: Vec<char>)
    ensures
        r@ == trim(s@),
{
    let n = s.len();
    let mut i: usize = 0;
    proof {
        assert(s@.subrange(0, n as int) =~= s@);
    }
    while i < n && is_ws_char(s[i])
        invariant
            i <= n == s.len(),
            trim_start(s@) == trim_start(s@.subrange(i as int, n as int)),
        decreases n - i,
    {
        proof {
            assert(s@.subrange(i as int, n as int).drop_first() =~= s@.subrange(
                i + 1,
                n as int,
            ));
        }
        i += 1;
    }
    proof {
        assert(s@.subrange(i as int, n as int) == trim_start(s@.subrange(i as int, n as int)));
    }
    let mut j: usize = n;
    while j > i && is_ws_char(s[j - 1])
        invariant
            i <= j <= n == s.len(),
            trim(s@) == trim_end(s@.subrange(i as int, j as int)),
        decreases j,
    {
        proof {
            assert(s@.subrange(i as int, j as int).drop_last() =~= s@.subrange(
                i as int,
                j - 1,
            ));
        }
        j -= 1;
    }
    copy_range(s, i, j)
}

/// The pieces of `s` between line feeds.
pub fn split_lines(s: &Vec<char>) -> (r: Vec<Vec<char>>)
    ensures
        views(r@) == lines_of(s@),
{
    let mut done: Vec<Vec<char>> = Vec::new();
    let mut cur: Vec<char> = Vec::new();
    let mut i: usize = 0;
    while i < s.len()
        invariant
            i <= s.len(),
            newline_pieces(s@.take(i as int)) == views(done@).push(cur@),
        decreases s.len() - i,
    {
        let ghost p = newline_pieces(s@.take(i as int));
        let ghost d0 = views(done@);
        let ghost c0 = cur@;
        proof {
            assert(s@.take(i + 1).drop_last() =~= s@.take(i as int));
            assert(s@.take(i + 1).last() == s@[i as int]);
        }
        if s[i] == '\n' {
            done.push(cur);
            cur = Vec::new();
            proof {
                assert(views(done@) =~= d0.push(c0));
                assert(newline_pieces(s@.take(i + 1)) =~= views(done@).push(cur@));
            }
        } else {
            cur.push(s[i]);
            proof {
                assert(p =~= d0.push(c0));
                assert(views(done@) =~= d0);
                assert(newline_pieces(s@.take(i + 1)) =~= views(done@).push(cur@));
            }
        }
        i += 1;
    }
    proof {
        assert(s@.take(s.len() as int) =~= s@);
    }
    let ghost d0 = views(done@);
    let ghost c0 = cur@;
    if cur.len() > 0 {
        done.push(cur);
        proof {
            assert(views(done@) =~= d0.push(c0));
        }
        proof {
            assert(lines_of(s@) =~= views(done@));
        }
    } else {
        proof {
            assert(lines_of(s@) =~= views(done@));
        }
    }
    done
}

} // verus!
