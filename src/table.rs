use vstd::prelude::*;
use crate::profile::pair_views;
use crate::text::{char_vec_views, fields, fields_of, lines, lines_of, push_char, string_views};
use vstd::string::StringExecFns;

verus! {

/// A line of a table that has fewer than two fields.
#[derive(Debug)]
pub struct LineError {
    /// Its number, counting from 1.
    pub line: usize,
}

/// Whether a table line has at least two whitespace-separated fields.
pub open spec fn row_ok(l: Seq<char>) -> bool {
    fields(l).len() >= 2
}

/// The first two fields of a table line.
pub open spec fn first_two(l: Seq<char>) -> (Seq<char>, Seq<char>) {
    (fields(l)[0], fields(l)[1])
}

/// Whether every line of `ls` has at least two fields.
pub open spec fn all_rows_ok(ls: Seq<Seq<char>>) -> bool {
    forall|i: int| 0 <= i < ls.len() ==> row_ok(#[trigger] ls[i])
}

/// The text of `pairs`: one line `a<TAB>b` per pair.
pub open spec fn pairs_text(pairs: Seq<(Seq<char>, Seq<char>)>) -> Seq<char>
    decreases pairs.len(),
{
    if pairs.len() == 0 {
        Seq::empty()
    } else {
        let p = pairs.last();
        pairs_text(pairs.drop_last()) + p.0 + seq!['\t'] + p.1 + seq!['\n']
    }
}

/// Reads a table of whitespace-separated columns, keeping the first two columns
/// of each line; fails on the first line with fewer than two fields.
pub fn parse_pairs(text: &str) -> (r: Result<Vec<(String, String)>, LineError>)
    ensures
        match r {
            Ok(v) => all_rows_ok(lines_of(text@)) && pair_views(v@) == lines_of(text@).map_values(
                |l: Seq<char>| first_two(l),
            ),
            Err(e) => 1 <= e.line <= lines_of(text@).len() && !row_ok(lines_of(text@)[e.line - 1])
                && all_rows_ok(lines_of(text@).take(e.line - 1)),
        },
{
    let ls = lines(text);
    let ghost lv = char_vec_views(ls@);
    let mut out: Vec<(String, String)> = Vec::new();
    let mut i: usize = 0;
    proof {
        assert(pair_views(out@) =~= lv.take(0).map_values(|l: Seq<char>| first_two(l)));
    }
    while i < ls.len()
        invariant
            i <= ls@.len(),
            lv == char_vec_views(ls@),
            lv == lines_of(text@),
            all_rows_ok(lv.take(i as int)),
            pair_views(out@) == lv.take(i as int).map_values(|l: Seq<char>| first_two(l)),
        decreases ls@.len() - i,
    {
        let f = fields_of(&ls[i]);
        proof {
            assert(ls@[i as int]@ == lv[i as int]);
            assert(string_views(f@) == fields(lv[i as int]));
        }
        if f.len() < 2 {
            return Err(LineError { line: i + 1 });
        }
        let a = f[0].clone();
        let b = f[1].clone();
        let ghost before = pair_views(out@);
        out.push((a, b));
        proof {
            assert(f@[0]@ == fields(lv[i as int])[0]);
            assert(f@[1]@ == fields(lv[i as int])[1]);
            assert(pair_views(out@) =~= before.push(first_two(lv[i as int])));
            assert(lv.take(i + 1) =~= lv.take(i as int).push(lv[i as int]));
            assert(pair_views(out@) =~= lv.take(i + 1).map_values(|l: Seq<char>| first_two(l)));
            assert forall|j: int| 0 <= j < i + 1 implies row_ok(#[trigger] lv.take(i + 1)[j]) by {
                if j < i {
                    assert(lv.take(i + 1)[j] == lv.take(i as int)[j]);
                }
            }
        }
        i = i + 1;
    }
    proof {
        assert(lv.take(i as int) =~= lv);
    }
    Ok(out)
}

/// The text of `pairs` (see `pairs_text`).
pub fn write_pairs(pairs: &Vec<(String, String)>) -> (r: String)
    ensures
        r@ == pairs_text(pair_views(pairs@)),
{
    let ghost pv = pair_views(pairs@);
    let mut out = String::new();
    let mut i: usize = 0;
    proof {
        assert(pv.take(0) =~= Seq::<(Seq<char>, Seq<char>)>::empty());
    }
    while i < pairs.len()
        invariant
            i <= pairs@.len(),
            pv == pair_views(pairs@),
            out@ == pairs_text(pv.take(i as int)),
        decreases pairs@.len() - i,
    {
        proof {
            assert(pv.take(i + 1).drop_last() =~= pv.take(i as int));
        }
        out.append(pairs[i].0.as_str());
        push_char(&mut out, '\t');
        out.append(pairs[i].1.as_str());
        push_char(&mut out, '\n');
        proof {
            let p = pv[i as int];
            assert(out@ =~= pairs_text(pv.take(i as int)) + p.0 + seq!['\t'] + p.1 + seq!['\n']);
        }
        i = i + 1;
    }
    proof {
        assert(pv.take(i as int) =~= pv);
    }
    out
}

} // verus!
