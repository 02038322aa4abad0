use vstd::prelude::*;
use crate::fasta::{has_id, unique_ids, FastaStore};
use crate::text::{chars_of, push_char};

verus! {

/// Number of rows of `rows` whose column `c` holds something other than a gap.
pub open spec fn non_gap_count(rows: Seq<Seq<char>>, c: int) -> nat
    decreases rows.len(),
{
    if rows.len() == 0 {
        0
    } else {
        non_gap_count(rows.drop_last(), c) + if rows.last()[c] != '-' {
            1nat
        } else {
            0nat
        }
    }
}

/// The sequences of the records, in order.
pub open spec fn rows_of(recs: Seq<(Seq<char>, Seq<char>)>) -> Seq<Seq<char>> {
    recs.map_values(|r: (Seq<char>, Seq<char>)| r.1)
}

/// All records have sequences of one length.
pub open spec fn same_width(recs: Seq<(Seq<char>, Seq<char>)>) -> bool {
    forall|i: int| 0 <= i < recs.len() ==> #[trigger] recs[i].1.len() == recs[0].1.len()
}

/// The width of an alignment: the length of its first sequence (0 when empty).
pub open spec fn width_of(recs: Seq<(Seq<char>, Seq<char>)>) -> nat {
    if recs.len() == 0 {
        0
    } else {
        recs[0].1.len()
    }
}

/// Whether column `c` is covered well enough: its non-gap count, times 100, is at
/// least `threshold` times the number of sequences.
pub open spec fn column_kept(recs: Seq<(Seq<char>, Seq<char>)>, c: int, threshold: nat) -> bool {
    non_gap_count(rows_of(recs), c) * 100 >= threshold * recs.len()
}

/// The columns below `n` that are kept, in increasing order.
pub open spec fn kept_columns(recs: Seq<(Seq<char>, Seq<char>)>, n: nat, threshold: nat) -> Seq<int>
    decreases n,
{
    if n == 0 {
        Seq::empty()
    } else {
        let k = kept_columns(recs, (n - 1) as nat, threshold);
        if column_kept(recs, n - 1, threshold) {
            k.push(n - 1)
        } else {
            k
        }
    }
}

/// The characters of `row` at the columns `cols`, in that order.
pub open spec fn select(row: Seq<char>, cols: Seq<int>) -> Seq<char> {
    cols.map_values(|c: int| row[c])
}

/// The alignment restricted to its kept columns; identifiers and order stay.
pub open spec fn filtered(recs: Seq<(Seq<char>, Seq<char>)>, threshold: nat) -> Seq<
    (Seq<char>, Seq<char>),
> {
    let cols = kept_columns(recs, width_of(recs), threshold);
    recs.map_values(|r: (Seq<char>, Seq<char>)| (r.0, select(r.1, cols)))
}

proof fn lemma_kept_columns_bounds(recs: Seq<(Seq<char>, Seq<char>)>, n: nat, threshold: nat)
    ensures
        forall|k: int|
            0 <= k < kept_columns(recs, n, threshold).len() ==> 0 <= #[trigger] kept_columns(
                recs,
                n,
                threshold,
            )[k] < n,
        kept_columns(recs, n, threshold).len() <= n,
    decreases n,
{
    if n > 0 {
        lemma_kept_columns_bounds(recs, (n - 1) as nat, threshold);
    }
}

/// Which columns are kept: exactly those whose coverage meets the threshold.
pub proof fn lemma_kept_columns_exact(recs: Seq<(Seq<char>, Seq<char>)>, n: nat, threshold: nat)
    ensures
        forall|c: int|
            0 <= c < n ==> (kept_columns(recs, n, threshold).contains(c) <==> column_kept(
                recs,
                c,
                threshold,
            )),
    decreases n,
{
    if n > 0 {
        let m = (n - 1) as nat;
        lemma_kept_columns_exact(recs, m, threshold);
        lemma_kept_columns_bounds(recs, m, threshold);
        let k = kept_columns(recs, m, threshold);
        assert forall|c: int| 0 <= c < n implies (kept_columns(recs, n, threshold).contains(c)
            <==> column_kept(recs, c, threshold)) by {
            if column_kept(recs, m as int, threshold) {
                let kk = k.push(m as int);
                if c < m {
                    if kk.contains(c) {
                        let j = choose|j: int| 0 <= j < kk.len() && kk[j] == c;
                        if j < k.len() {
                            assert(k.contains(c));
                        }
                    }
                    if k.contains(c) {
                        let j = choose|j: int| 0 <= j < k.len() && k[j] == c;
                        assert(kk[j] == c);
                    }
                } else {
                    assert(kk[k.len() as int] == c);
                }
            } else {
                if c == m {
                    if k.contains(c) {
                        let j = choose|j: int| 0 <= j < k.len() && k[j] == c;
                        assert(k[j] < m);
                    }
                }
            }
        }
    }
}

/// Every column that the filter keeps meets the coverage threshold, every column
/// it drops falls short of it, and columns keep their order.
pub proof fn lemma_filter_columns(recs: Seq<(Seq<char>, Seq<char>)>, threshold: nat)
    ensures
        forall|c: int|
            0 <= c < width_of(recs) ==> (kept_columns(recs, width_of(recs), threshold).contains(c)
                <==> non_gap_count(rows_of(recs), c) * 100 >= threshold * recs.len()),
        forall|i: int, j: int|
            0 <= i < j < kept_columns(recs, width_of(recs), threshold).len() ==> kept_columns(
                recs,
                width_of(recs),
                threshold,
            )[i] < kept_columns(recs, width_of(recs), threshold)[j],
{
    lemma_kept_columns_exact(recs, width_of(recs), threshold);
    lemma_kept_columns_increasing(recs, width_of(recs), threshold);
    assert forall|c: int| 0 <= c < width_of(recs) implies (kept_columns(
        recs,
        width_of(recs),
        threshold,
    ).contains(c) <==> non_gap_count(rows_of(recs), c) * 100 >= threshold * recs.len()) by {
        assert(column_kept(recs, c, threshold) == (non_gap_count(rows_of(recs), c) * 100
            >= threshold * recs.len()));
    }
}

/// Filtering keeps every record, in order, under its own identifier; only the
/// sequences change.
pub proof fn lemma_filter_keeps_rows(recs: Seq<(Seq<char>, Seq<char>)>, threshold: nat)
    ensures
        filtered(recs, threshold).len() == recs.len(),
        forall|i: int| 0 <= i < recs.len() ==> (#[trigger] filtered(recs, threshold)[i]).0 == recs[i].0,
{
}

proof fn lemma_kept_columns_increasing(recs: Seq<(Seq<char>, Seq<char>)>, n: nat, threshold: nat)
    ensures
        forall|i: int, j: int|
            0 <= i < j < kept_columns(recs, n, threshold).len() ==> kept_columns(
                recs,
                n,
                threshold,
            )[i] < kept_columns(recs, n, threshold)[j],
    decreases n,
{
    if n > 0 {
        lemma_kept_columns_increasing(recs, (n - 1) as nat, threshold);
        lemma_kept_columns_bounds(recs, (n - 1) as nat, threshold);
    }
}

pub(crate) proof fn lemma_wide_product(a: u128, b: u128)
    requires
        a <= 0xffff_ffff_ffff_ffff,
        b <= 0xffff_ffff_ffff_ffff,
    ensures
        a * b <= 0xffff_ffff_ffff_fffe_0000_0000_0000_0001,
{
    assert(a * b <= 0xffff_ffff_ffff_ffff * 0xffff_ffff_ffff_ffff) by (nonlinear_arith)
        requires
            a <= 0xffff_ffff_ffff_ffff,
            b <= 0xffff_ffff_ffff_ffff,
    ;
}

/// Keeps the columns of an alignment whose non-gap count, times 100, is at least
/// `threshold` times the number of sequences (see `filtered`).
pub fn filter_columns(msa: &FastaStore, threshold: usize) -> (r: FastaStore)
    requires
        msa.wf(),
        same_width(msa@),
    ensures
        r.wf(),
        r@ == filtered(msa@, threshold as nat),
{
    let ghost recs = msa@;
    proof {
        msa.lemma_unique();
    }
    let n = msa.len();
    let mut rows: Vec<Vec<char>> = Vec::new();
    let mut j: usize = 0;
    while j < n
        invariant
            j <= n,
            n == recs.len(),
            recs == msa@,
            rows@.len() == j,
            forall|k: int| 0 <= k < j ==> (#[trigger] rows@[k])@ == recs[k].1,
        decreases n - j,
    {
        rows.push(chars_of(msa.sequence(j).as_str()));
        j = j + 1;
    }
    let ghost rv = rows_of(recs);
    proof {
        assert forall|k: int| 0 <= k < n implies (#[trigger] rows@[k])@ == rv[k] by {}
    }
    let width: usize = if n == 0 {
        0
    } else {
        rows[0].len()
    };
    let mut counts: Vec<usize> = Vec::new();
    let mut c: usize = 0;
    while c < width
        invariant
            c <= width,
            counts@.len() == c,
            forall|i: int| 0 <= i < c ==> #[trigger] counts@[i] == 0,
        decreases width - c,
    {
        counts.push(0);
        c = c + 1;
    }
    j = 0;
    proof {
        assert forall|i: int| 0 <= i < width implies #[trigger] counts@[i] == non_gap_count(
            rv.take(0),
            i,
        ) by {}
    }
    while j < n
        invariant
            j <= n,
            n == recs.len(),
            rv == rows_of(recs),
            rv.len() == n,
            recs == msa@,
            same_width(recs),
            width == width_of(recs),
            rows@.len() == n,
            forall|k: int| 0 <= k < n ==> (#[trigger] rows@[k])@ == rv[k],
            counts@.len() == width,
            forall|i: int| 0 <= i < width ==> #[trigger] counts@[i] == non_gap_count(rv.take(j as int), i),
            forall|i: int| 0 <= i < width ==> #[trigger] counts@[i] <= j,
        decreases n - j,
    {
        let row = &rows[j];
        proof {
            assert(recs[j as int].1.len() == recs[0].1.len());
            assert(rv.take(j + 1).drop_last() =~= rv.take(j as int));
            assert(rv.take(j + 1).last() == rv[j as int]);
        }
        let mut i: usize = 0;
        while i < width
            invariant
                i <= width,
                j < n,
                rv.len() == n,
                row@ == rv[j as int],
                row@.len() == width,
                counts@.len() == width,
                forall|q: int| 0 <= q < i ==> #[trigger] counts@[q] == non_gap_count(rv.take(j + 1), q),
                forall|q: int| i <= q < width ==> #[trigger] counts@[q] == non_gap_count(rv.take(j as int), q),
                forall|q: int| 0 <= q < i ==> #[trigger] counts@[q] <= j + 1,
                forall|q: int| i <= q < width ==> #[trigger] counts@[q] <= j,
                rv.take(j + 1).drop_last() == rv.take(j as int),
                rv.take(j + 1).last() == rv[j as int],
            decreases width - i,
        {
            proof {
                assert(non_gap_count(rv.take(j + 1), i as int) == non_gap_count(rv.take(j as int), i as int)
                    + if rv[j as int][i as int] != '-' { 1nat } else { 0nat });
            }
            if row[i] != '-' {
                let v = counts[i] + 1;
                counts.set(i, v);
            }
            i = i + 1;
        }
        j = j + 1;
    }
    proof {
        assert(rv.take(n as int) =~= rv);
    }
    let mut cols: Vec<usize> = Vec::new();
    c = 0;
    while c < width
        invariant
            c <= width,
            n == recs.len(),
            rv == rows_of(recs),
            width == width_of(recs),
            counts@.len() == width,
            forall|i: int| 0 <= i < width ==> #[trigger] counts@[i] == non_gap_count(rv, i),
            cols@.map_values(|x: usize| x as int) == kept_columns(recs, c as nat, threshold as nat),
        decreases width - c,
    {
        let cnt = counts[c] as u128;
        let t = threshold as u128;
        let m = n as u128;
        proof {
            lemma_wide_product(cnt, 100);
            lemma_wide_product(t, m);
        }
        if cnt * 100 >= t * m {
            cols.push(c);
        }
        proof {
            assert(cols@.map_values(|x: usize| x as int) =~= kept_columns(
                recs,
                (c + 1) as nat,
                threshold as nat,
            ));
        }
        c = c + 1;
    }
    let ghost kc = kept_columns(recs, width as nat, threshold as nat);
    proof {
        lemma_kept_columns_bounds(recs, width as nat, threshold as nat);
    }
    let mut out = FastaStore::new();
    j = 0;
    while j < n
        invariant
            j <= n,
            n == recs.len(),
            recs == msa@,
            msa.wf(),
            unique_ids(recs),
            same_width(recs),
            width == width_of(recs),
            rows@.len() == n,
            forall|k: int| 0 <= k < n ==> (#[trigger] rows@[k])@ == recs[k].1,
            cols@.map_values(|x: usize| x as int) == kc,
            kc == kept_columns(recs, width as nat, threshold as nat),
            forall|k: int| 0 <= k < kc.len() ==> 0 <= #[trigger] kc[k] < width,
            out.wf(),
            out@ == filtered(recs, threshold as nat).take(j as int),
        decreases n - j,
    {
        let row = &rows[j];
        proof {
            assert(recs[j as int].1.len() == recs[0].1.len());
            assert(row@ == recs[j as int].1);
        }
        let mut s = String::new();
        let mut k: usize = 0;
        while k < cols.len()
            invariant
                k <= cols.len(),
                cols@.map_values(|x: usize| x as int) == kc,
                forall|q: int| 0 <= q < kc.len() ==> 0 <= #[trigger] kc[q] < width,
                row@.len() == width,
                s@ == select(row@, kc.take(k as int)),
            decreases cols.len() - k,
        {
            let col = cols[k];
            proof {
                assert(kc[k as int] == col as int);
            }
            push_char(&mut s, row[col]);
            proof {
                assert(s@ =~= select(row@, kc.take(k + 1)));
            }
            k = k + 1;
        }
        proof {
            assert(kc.take(k as int) =~= kc);
            assert forall|q: int| 0 <= q < out@.len() implies out@[q].0 != recs[j as int].0 by {
                assert(out@[q].0 == recs[q].0);
            }
        }
        let ghost before = out@;
        let id = msa.id(j).clone();
        out.insert(id, s);
        proof {
            assert(!has_id(before, recs[j as int].0));
            assert(s@ == select(recs[j as int].1, kc));
            assert(out@ == before.push((recs[j as int].0, s@)));
            assert(filtered(recs, threshold as nat) == recs.map_values(
                |r: (Seq<char>, Seq<char>)| (r.0, select(r.1, kc)),
            ));
            assert(out@ =~= filtered(recs, threshold as nat).take(j + 1));
        }
        j = j + 1;
    }
    proof {
        assert(filtered(recs, threshold as nat).take(n as int) =~= filtered(recs, threshold as nat));
    }
    out
}

} // verus!
