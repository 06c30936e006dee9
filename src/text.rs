use vstd::prelude::*;

verus! {

/// The characters with Unicode's `White_Space` property.
pub open spec fn is_white_space(c: char) -> bool {
    let u = c as u32;
    ||| (0x09 <= u && u <= 0x0d)
    ||| u == 0x20
    ||| u == 0x85
    ||| u == 0xa0
    ||| u == 0x1680
    ||| (0x2000 <= u && u <= 0x200a)
    ||| u == 0x2028
    ||| u == 0x2029
    ||| u == 0x202f
    ||| u == 0x205f
    ||| u == 0x3000
}

/// Whether `c` separates the fields of a listing line.
pub fn is_separator(c: char) -> (r: bool)
    ensures
        r == is_white_space(c),
{
    let u = c as u32;
    (0x09 <= u && u <= 0x0d) || u == 0x20 || u == 0x85 || u == 0xa0 || u == 0x1680 || (0x2000
        <= u && u <= 0x200a) || u == 0x2028 || u == 0x2029 || u == 0x202f || u == 0x205f || u
        == 0x3000
}

/// The text split at each `'\n'`: one more piece than there are newlines.
pub open spec fn lines(t: Seq<char>) -> Seq<Seq<char>>
    decreases t.len(),
{
    if t.len() == 0 {
        seq![Seq::<char>::empty()]
    } else {
        let ls = lines(t.drop_last());
        if t.last() == '\n' {
            ls.push(Seq::<char>::empty())
        } else {
            ls.update(ls.len() - 1, ls.last().push(t.last()))
        }
    }
}

/// The maximal runs of non-white-space characters of `t`, in order.
pub open spec fn words(t: Seq<char>) -> Seq<Seq<char>>
    decreases t.len(),
{
    if t.len() == 0 {
        Seq::<Seq<char>>::empty()
    } else {
        let ws = words(t.drop_last());
        if is_white_space(t.last()) {
            ws
        } else if t.len() >= 2 && !is_white_space(t[t.len() - 2]) {
            ws.update(ws.len() - 1, ws.last().push(t.last()))
        } else {
            ws.push(seq![t.last()])
        }
    }
}

/// The pieces of `t` that a list of half-open spans marks.
pub open spec fn pieces(t: Seq<char>, spans: Seq<(usize, usize)>) -> Seq<Seq<char>> {
    spans.map_values(|p: (usize, usize)| t.subrange(p.0 as int, p.1 as int))
}

/// Every span lies within `from..to` and starts no later than it ends.
pub open spec fn spans_within(spans: Seq<(usize, usize)>, from: int, to: int) -> bool {
    forall|i: int| 0 <= i < spans.len() ==> from <= #[trigger] spans[i].0 <= spans[i].1 <= to
}

proof fn lemma_lines_nonempty(t: Seq<char>)
    ensures
        lines(t).len() >= 1,
    decreases t.len(),
{
    if t.len() > 0 {
        lemma_lines_nonempty(t.drop_last());
    }
}

/// The characters of a string, one element each.
pub fn chars_of(s: &str) -> (r: Vec<char>)
    ensures
        r@ == s@,
{
    let mut r: Vec<char> = Vec::new();
    for c in it: s.chars()
        invariant
            r@ == it.seq().take(it.index() as int),
    {
        r.push(c);
    }
    r
}

/// Spans of the lines of `t`, as `str::split('\n')` gives them.
pub fn line_spans(t: &Vec<char>) -> (r: Vec<(usize, usize)>)
    ensures
        pieces(t@, r@) == lines(t@),
        spans_within(r@, 0, t@.len() as int),
{
    let mut r: Vec<(usize, usize)> = Vec::new();
    let mut start: usize = 0;
    let mut i: usize = 0;
    assert(pieces(t@, r@).push(t@.subrange(0, 0)) =~~= lines(t@.subrange(0, 0)));
    while i < t.len()
        invariant
            start <= i <= t@.len(),
            spans_within(r@, 0, start as int),
            pieces(t@, r@).push(t@.subrange(start as int, i as int)) == lines(
                t@.subrange(0, i as int),
            ),
        decreases t.len() - i,
    {
        let ghost before = t@.subrange(0, i as int);
        let ghost after = t@.subrange(0, i + 1);
        assert(after.drop_last() == before);
        proof {
            lemma_lines_nonempty(before);
        }
        if t[i] == '\n' {
            r.push((start, i));
            start = i + 1;
            assert(pieces(t@, r@).push(t@.subrange(start as int, i + 1)) =~~= lines(after));
        } else {
            assert(t@.subrange(start as int, i + 1) == t@.subrange(start as int, i as int).push(
                t@[i as int],
            ));
            assert(pieces(t@, r@).push(t@.subrange(start as int, i + 1)) =~~= lines(after));
        }
        i = i + 1;
    }
    assert(t@.subrange(0, t@.len() as int) == t@);
    r.push((start, t.len()));
    r
}

/// Spans of the fields of `t[from..to]`, as `str::split_whitespace` gives them.
pub fn word_spans(t: &Vec<char>, from: usize, to: usize) -> (r: Vec<(usize, usize)>)
    requires
        from <= to <= t@.len(),
    ensures
        pieces(t@, r@) == words(t@.subrange(from as int, to as int)),
        spans_within(r@, from as int, to as int),
{
    let mut r: Vec<(usize, usize)> = Vec::new();
    let mut start: usize = from;
    let mut in_word = false;
    let mut i: usize = from;
    assert(pieces(t@, r@) =~~= words(t@.subrange(from as int, from as int)));
    while i < to
        invariant
            from <= start <= i <= to <= t@.len(),
            spans_within(r@, from as int, i as int),
            in_word <==> (i > from && !is_white_space(t@[i - 1])),
            in_word ==> start < i,
            in_word ==> pieces(t@, r@).push(t@.subrange(start as int, i as int)) == words(
                t@.subrange(from as int, i as int),
            ),
            !in_word ==> pieces(t@, r@) == words(t@.subrange(from as int, i as int)),
        decreases to - i,
    {
        let ghost before = t@.subrange(from as int, i as int);
        let ghost after = t@.subrange(from as int, i + 1);
        assert(after.drop_last() =~= before);
        if is_separator(t[i]) {
            if in_word {
                r.push((start, i));
                in_word = false;
                assert(pieces(t@, r@) =~~= words(after));
            }
        } else if in_word {
            assert(after[after.len() - 2] == t@[i - 1]);
            assert(t@.subrange(start as int, i + 1) =~= t@.subrange(start as int, i as int).push(
                t@[i as int],
            ));
            assert(pieces(t@, r@).push(t@.subrange(start as int, i + 1)) =~~= words(after));
        } else {
            start = i;
            in_word = true;
            assert(after.len() >= 2 ==> after[after.len() - 2] == t@[i - 1]);
            assert(pieces(t@, r@).push(t@.subrange(start as int, i + 1)) =~~= words(after));
        }
        i = i + 1;
    }
    if in_word {
        r.push((start, to));
        assert(pieces(t@, r@) =~~= words(t@.subrange(from as int, to as int)));
    }
    r
}

} // verus!
