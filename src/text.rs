use vstd::prelude::*;

verus! {

/// Relies on String::push: appends one character to the end of the string.
#[verifier::external_body]
pub(crate) fn push_char(s: &mut String, c: char)
    ensures
        final(s)@ == old(s)@.push(c),
{
    s.push(c)
}

/// Whitespace in Unicode's sense (the `White_Space` property): the characters
/// that separate fields.
pub open spec fn is_space(c: char) -> bool {
    ('\u{9}' <= c && c <= '\u{d}') || c == ' ' || c == '\u{85}' || c == '\u{a0}' || c == '\u{1680}'
        || ('\u{2000}' <= c && c <= '\u{200a}') || c == '\u{2028}' || c == '\u{2029}' || c
        == '\u{202f}' || c == '\u{205f}' || c == '\u{3000}'
}

/// Pieces of `s` between occurrences of `sep`; `k` separators give `k + 1` pieces.
pub open spec fn split_on(s: Seq<char>, sep: char) -> Seq<Seq<char>>
    decreases s.len(),
{
    if s.len() == 0 {
        seq![Seq::<char>::empty()]
    } else {
        let p = split_on(s.drop_last(), sep);
        if s.last() == sep {
            p.push(Seq::<char>::empty())
        } else {
            p.update(p.len() - 1, p.last().push(s.last()))
        }
    }
}

/// A line without its terminating carriage return, if any.
pub open spec fn strip_cr(l: Seq<char>) -> Seq<char> {
    if l.len() > 0 && l.last() == '\r' {
        l.drop_last()
    } else {
        l
    }
}

/// The lines of a text: pieces between line feeds, each without a trailing
/// carriage return; a line feed at the very end opens no further line.
pub open spec fn lines_of(s: Seq<char>) -> Seq<Seq<char>> {
    let p = split_on(s, '\n');
    let q = if p.last().len() == 0 {
        p.drop_last()
    } else {
        p
    };
    q.map_values(|l: Seq<char>| strip_cr(l))
}

/// The maximal runs of non-space characters of `s`, in order.
pub open spec fn fields(s: Seq<char>) -> Seq<Seq<char>>
    decreases s.len(),
{
    if s.len() == 0 {
        Seq::empty()
    } else {
        let f = fields(s.drop_last());
        let c = s.last();
        if is_space(c) {
            f
        } else if s.len() >= 2 && !is_space(s[s.len() - 2]) {
            f.update(f.len() - 1, f.last().push(c))
        } else {
            f.push(seq![c])
        }
    }
}

/// `s` without the space characters at its end.
pub open spec fn trim_end(s: Seq<char>) -> Seq<char>
    decreases s.len(),
{
    if s.len() > 0 && is_space(s.last()) {
        trim_end(s.drop_last())
    } else {
        s
    }
}

/// `s` without the space characters at its start.
pub open spec fn trim_start(s: Seq<char>) -> Seq<char>
    decreases s.len(),
{
    if s.len() > 0 && is_space(s[0]) {
        trim_start(s.subrange(1, s.len() as int))
    } else {
        s
    }
}

/// `s` without the space characters at either end.
pub open spec fn trim(s: Seq<char>) -> Seq<char> {
    trim_start(trim_end(s))
}

/// The contents of each string of `v`.
pub open spec fn string_views(v: Seq<String>) -> Seq<Seq<char>> {
    v.map_values(|x: String| x@)
}

/// The contents of each character vector of `v`.
pub open spec fn char_vec_views(v: Seq<Vec<char>>) -> Seq<Seq<char>> {
    v.map_values(|x: Vec<char>| x@)
}

/// `n` copies of the gap character `-`.
pub open spec fn gaps(n: nat) -> Seq<char> {
    Seq::new(n, |i: int| '-')
}

/// The characters of `s`, in order.
pub fn chars_of(s: &str) -> (r: Vec<char>)
    ensures
        r@ == s@,
{
    let mut out: Vec<char> = Vec::new();
    for c in it: s.chars()
        invariant
            it.seq() == s@,
            out@ == it.seq().take(it.index() as int),
    {
        out.push(c);
        proof {
            assert(out@ =~= it.seq().take(it.index() as int + 1));
        }
    }
    proof {
        assert(out@ =~= s@);
    }
    out
}

/// The string made of `v[lo..hi]`.
pub fn string_of(v: &Vec<char>, lo: usize, hi: usize) -> (r: String)
    requires
        lo <= hi <= v.len(),
    ensures
        r@ == v@.subrange(lo as int, hi as int),
{
    let mut out = String::new();
    let mut i = lo;
    while i < hi
        invariant
            lo <= i <= hi <= v.len(),
            out@ == v@.subrange(lo as int, i as int),
        decreases hi - i,
    {
        push_char(&mut out, v[i]);
        proof {
            assert(out@ =~= v@.subrange(lo as int, i + 1));
        }
        i = i + 1;
    }
    out
}

/// Appends `n` gap characters to `s`.
pub fn push_gaps(s: &mut String, n: usize)
    ensures
        final(s)@ == old(s)@ + gaps(n as nat),
{
    let ghost start = s@;
    let mut i: usize = 0;
    while i < n
        invariant
            i <= n,
            s@ == start + gaps(i as nat),
        decreases n - i,
    {
        push_char(s, '-');
        proof {
            assert(s@ =~= start + gaps((i + 1) as nat));
        }
        i = i + 1;
    }
}

/// Appends the characters `v[lo..hi]` to `s`.
pub fn push_range(s: &mut String, v: &Vec<char>, lo: usize, hi: usize)
    requires
        lo <= hi <= v.len(),
    ensures
        final(s)@ == old(s)@ + v@.subrange(lo as int, hi as int),
{
    let ghost start = s@;
    let mut i = lo;
    while i < hi
        invariant
            lo <= i <= hi <= v.len(),
            s@ == start + v@.subrange(lo as int, i as int),
        decreases hi - i,
    {
        push_char(s, v[i]);
        proof {
            assert(s@ =~= start + v@.subrange(lo as int, i + 1));
        }
        i = i + 1;
    }
}

pub(crate) proof fn lemma_split_on_nonempty(s: Seq<char>, sep: char)
    ensures
        split_on(s, sep).len() >= 1,
    decreases s.len(),
{
    if s.len() > 0 {
        lemma_split_on_nonempty(s.drop_last(), sep);
    }
}

/// The pieces of `v` between occurrences of `sep` (see `split_on`).
pub fn pieces(v: &Vec<char>, sep: char) -> (r: Vec<Vec<char>>)
    ensures
        char_vec_views(r@) == split_on(v@, sep),
{
    let mut done: Vec<Vec<char>> = Vec::new();
    let mut cur: Vec<char> = Vec::new();
    let mut i: usize = 0;
    proof {
        assert(v@.take(0) =~= Seq::<char>::empty());
    }
    while i < v.len()
        invariant
            i <= v.len(),
            char_vec_views(done@).push(cur@) == split_on(v@.take(i as int), sep),
        decreases v.len() - i,
    {
        let c = v[i];
        let ghost p = char_vec_views(done@).push(cur@);
        proof {
            assert(v@.take(i + 1).drop_last() =~= v@.take(i as int));
            lemma_split_on_nonempty(v@.take(i as int), sep);
        }
        if c == sep {
            let old_cur = cur;
            done.push(old_cur);
            cur = Vec::new();
            proof {
                assert(char_vec_views(done@).push(cur@) =~= p.push(Seq::<char>::empty()));
            }
        } else {
            cur.push(c);
            proof {
                assert(char_vec_views(done@).push(cur@) =~= p.update(
                    p.len() - 1,
                    p.last().push(c),
                ));
            }
        }
        i = i + 1;
    }
    proof {
        assert(v@.take(i as int) =~= v@);
    }
    let ghost before = char_vec_views(done@);
    done.push(cur);
    proof {
        assert(char_vec_views(done@) =~= before.push(done@[done@.len() - 1]@));
    }
    done
}

/// The lines of `s` (see `lines_of`), each as its characters.
pub fn lines(s: &str) -> (r: Vec<Vec<char>>)
    ensures
        char_vec_views(r@) == lines_of(s@),
{
    let cs = chars_of(s);
    let mut done = pieces(&cs, '\n');
    proof {
        lemma_split_on_nonempty(s@, '\n');
    }
    let last = done.len() - 1;
    if done[last].len() == 0 {
        let ghost before = char_vec_views(done@);
        done.pop();
        proof {
            assert(char_vec_views(done@) =~= before.drop_last());
        }
    }
    let ghost q = char_vec_views(done@);
    let mut out: Vec<Vec<char>> = Vec::new();
    let mut j: usize = 0;
    while j < done.len()
        invariant
            j <= done.len(),
            q == char_vec_views(done@),
            char_vec_views(out@) == q.take(j as int).map_values(|l: Seq<char>| strip_cr(l)),
        decreases done.len() - j,
    {
        let mut l = done[j].clone();
        proof {
            assert(l@ == q[j as int]);
        }
        let n = l.len();
        if n > 0 && l[n - 1] == '\r' {
            l.pop();
            proof {
                assert(l@ =~= q[j as int].drop_last());
            }
        }
        proof {
            assert(l@ == strip_cr(q[j as int]));
        }
        let ghost before = char_vec_views(out@);
        out.push(l);
        proof {
            assert(char_vec_views(out@) =~= before.push(strip_cr(q[j as int])));
            assert(q.take(j + 1).map_values(|l: Seq<char>| strip_cr(l)) =~= q.take(
                j as int,
            ).map_values(|l: Seq<char>| strip_cr(l)).push(strip_cr(q[j as int])));
            assert(char_vec_views(out@) =~= q.take(j + 1).map_values(|l: Seq<char>| strip_cr(l)));
        }
        j = j + 1;
    }
    proof {
        assert(q.take(j as int) =~= q);
        assert(char_vec_views(out@) =~= lines_of(s@));
    }
    out
}

/// The whitespace-separated fields of `v` (see `fields`), each as a string.
pub fn fields_of(v: &Vec<char>) -> (r: Vec<String>)
    ensures
        string_views(r@) == fields(v@),
{
    let mut out: Vec<String> = Vec::new();
    let mut i: usize = 0;
    while i < v.len()
        invariant
            i <= v.len(),
            string_views(out@) == fields(v@.take(i as int)),
        decreases v.len() - i,
    {
        let c = v[i];
        proof {
            assert(v@.take(i + 1).drop_last() =~= v@.take(i as int));
        }
        if is_space_char(c) {
        } else if i >= 1 && !is_space_char(v[i - 1]) {
            proof {
                assert(v@.take(i as int).last() == v@[i - 1]);
                lemma_fields_last(v@.take(i as int));
            }
            let k = out.len() - 1;
            let mut last = out[k].clone();
            push_char(&mut last, c);
            out.set(k, last);
        } else {
            let mut fresh = String::new();
            push_char(&mut fresh, c);
            out.push(fresh);
        }
        proof {
            assert(string_views(out@) =~= fields(v@.take(i + 1)));
        }
        i = i + 1;
    }
    proof {
        assert(v@.take(i as int) =~= v@);
    }
    out
}

proof fn lemma_fields_last(s: Seq<char>)
    requires
        s.len() > 0,
        !is_space(s.last()),
    ensures
        fields(s).len() > 0,
    decreases s.len(),
{
    let f = fields(s.drop_last());
    if s.len() >= 2 && !is_space(s[s.len() - 2]) {
        lemma_fields_last(s.drop_last());
    }
}

/// Whether `c` is whitespace (see `is_space`).
pub fn is_space_char(c: char) -> (r: bool)
    ensures
        r == is_space(c),
{
    ('\u{9}' <= c && c <= '\u{d}') || c == ' ' || c == '\u{85}' || c == '\u{a0}' || c == '\u{1680}'
        || ('\u{2000}' <= c && c <= '\u{200a}') || c == '\u{2028}' || c == '\u{2029}' || c
        == '\u{202f}' || c == '\u{205f}' || c == '\u{3000}'
}

/// The bounds of `v[lo..]` without the space characters at either end (see `trim`).
pub fn trim_bounds(v: &Vec<char>, lo: usize) -> (r: (usize, usize))
    requires
        lo <= v.len(),
    ensures
        lo <= r.0 <= r.1 <= v.len(),
        v@.subrange(r.0 as int, r.1 as int) == trim(v@.subrange(lo as int, v@.len() as int)),
{
    let mut hi = v.len();
    while hi > lo && is_space_char(v[hi - 1])
        invariant
            lo <= hi <= v.len(),
            trim_end(v@.subrange(lo as int, hi as int)) == trim_end(
                v@.subrange(lo as int, v@.len() as int),
            ),
        decreases hi,
    {
        proof {
            assert(v@.subrange(lo as int, hi as int).drop_last() =~= v@.subrange(
                lo as int,
                hi - 1,
            ));
        }
        hi = hi - 1;
    }
    let ghost e = v@.subrange(lo as int, hi as int);
    proof {
        assert(trim_end(e) == e);
    }
    let mut a = lo;
    while a < hi && is_space_char(v[a])
        invariant
            lo <= a <= hi <= v.len(),
            e == v@.subrange(lo as int, hi as int),
            trim_start(v@.subrange(a as int, hi as int)) == trim_start(e),
        decreases hi - a,
    {
        proof {
            let t = v@.subrange(a as int, hi as int);
            assert(t.subrange(1, t.len() as int) =~= v@.subrange(a + 1, hi as int));
        }
        a = a + 1;
    }
    proof {
        assert(trim_start(v@.subrange(a as int, hi as int)) == v@.subrange(a as int, hi as int));
    }
    (a, hi)
}

} // verus!
