use vstd::prelude::*;
use crate::fasta::{fasta_text, has_id, trimmed_records, FastaStore};
use crate::text::{gaps, push_gaps};
use vstd::string::StringExecFns;

verus! {

/// Width of a gene block: the length of its longest sequence (0 when empty).
pub open spec fn block_width(b: Seq<(Seq<char>, Seq<char>)>) -> nat
    decreases b.len(),
{
    if b.len() == 0 {
        0
    } else {
        let w = block_width(b.drop_last());
        if b.last().1.len() > w {
            b.last().1.len()
        } else {
            w
        }
    }
}

/// Sum of the widths of the blocks.
pub open spec fn total_width(blocks: Seq<Seq<(Seq<char>, Seq<char>)>>) -> nat
    decreases blocks.len(),
{
    if blocks.len() == 0 {
        0
    } else {
        total_width(blocks.drop_last()) + block_width(blocks.last())
    }
}

/// `s` followed by gaps up to length `w`.
pub open spec fn pad_to(s: Seq<char>, w: nat) -> Seq<char> {
    s + gaps((w - s.len()) as nat)
}

/// What block `b` contributes to the row of taxon `t`: its sequence there, padded
/// with gaps to the block's width, or only gaps when the taxon is absent.
pub open spec fn cell(b: Seq<(Seq<char>, Seq<char>)>, t: Seq<char>) -> Seq<char> {
    if has_id(b, t) {
        let i = choose|i: int| 0 <= i < b.len() && b[i].0 == t;
        pad_to(b[i].1, block_width(b))
    } else {
        gaps(block_width(b))
    }
}

/// The row of taxon `t`: the cells of all blocks, in block order.
pub open spec fn row(blocks: Seq<Seq<(Seq<char>, Seq<char>)>>, t: Seq<char>) -> Seq<char>
    decreases blocks.len(),
{
    if blocks.len() == 0 {
        Seq::empty()
    } else {
        row(blocks.drop_last(), t) + cell(blocks.last(), t)
    }
}

/// `names` followed by the identifiers of `b` that it lacks, in block order.
pub open spec fn add_new(names: Seq<Seq<char>>, b: Seq<(Seq<char>, Seq<char>)>) -> Seq<Seq<char>>
    decreases b.len(),
{
    if b.len() == 0 {
        names
    } else {
        let n = add_new(names, b.drop_last());
        if n.contains(b.last().0) {
            n
        } else {
            n.push(b.last().0)
        }
    }
}

/// All taxa of the blocks, in order of first appearance.
pub open spec fn taxa(blocks: Seq<Seq<(Seq<char>, Seq<char>)>>) -> Seq<Seq<char>>
    decreases blocks.len(),
{
    if blocks.len() == 0 {
        Seq::empty()
    } else {
        add_new(taxa(blocks.drop_last()), blocks.last())
    }
}

/// The supermatrix: one record per taxon, in order of first appearance.
pub open spec fn supermatrix(blocks: Seq<Seq<(Seq<char>, Seq<char>)>>) -> Seq<
    (Seq<char>, Seq<char>),
> {
    taxa(blocks).map_values(|t: Seq<char>| (t, row(blocks, t)))
}

/// The contents of each store.
pub open spec fn store_views(v: Seq<FastaStore>) -> Seq<Seq<(Seq<char>, Seq<char>)>> {
    v.map_values(|s: FastaStore| s@)
}

proof fn lemma_block_width_bounds(b: Seq<(Seq<char>, Seq<char>)>)
    ensures
        forall|i: int| 0 <= i < b.len() ==> (#[trigger] b[i]).1.len() <= block_width(b),
    decreases b.len(),
{
    if b.len() > 0 {
        lemma_block_width_bounds(b.drop_last());
        assert forall|i: int| 0 <= i < b.len() implies (#[trigger] b[i]).1.len() <= block_width(
            b,
        ) by {
            if i < b.len() - 1 {
                assert(b[i] == b.drop_last()[i]);
            }
        }
    }
}

proof fn lemma_cell_len(b: Seq<(Seq<char>, Seq<char>)>, t: Seq<char>)
    ensures
        cell(b, t).len() == block_width(b),
{
    lemma_block_width_bounds(b);
    if has_id(b, t) {
        let i = choose|i: int| 0 <= i < b.len() && b[i].0 == t;
        assert(b[i].1.len() <= block_width(b));
    }
}

/// Every row has the same length: the sum of the widths of all blocks, whichever
/// blocks its taxon appears in.
pub proof fn lemma_row_len(blocks: Seq<Seq<(Seq<char>, Seq<char>)>>, t: Seq<char>)
    ensures
        row(blocks, t).len() == total_width(blocks),
    decreases blocks.len(),
{
    if blocks.len() > 0 {
        lemma_row_len(blocks.drop_last(), t);
        lemma_cell_len(blocks.last(), t);
    }
}

/// Each record of the supermatrix is as long as all blocks together.
pub proof fn lemma_supermatrix_width(blocks: Seq<Seq<(Seq<char>, Seq<char>)>>)
    ensures
        forall|i: int|
            0 <= i < supermatrix(blocks).len() ==> (#[trigger] supermatrix(blocks)[i]).1.len()
                == total_width(blocks),
{
    assert forall|i: int| 0 <= i < supermatrix(blocks).len() implies (#[trigger] supermatrix(
        blocks,
    )[i]).1.len() == total_width(blocks) by {
        lemma_row_len(blocks, taxa(blocks)[i]);
    }
}

/// Consolidating the same blocks twice gives the same text.
pub proof fn lemma_combine_deterministic(texts1: Seq<Seq<char>>, texts2: Seq<Seq<char>>)
    requires
        texts1 == texts2,
    ensures
        fasta_text(supermatrix(texts1.map_values(|t: Seq<char>| trimmed_records(t)))) == fasta_text(
            supermatrix(texts2.map_values(|t: Seq<char>| trimmed_records(t))),
        ),
{
}

/// Width of a block (see `block_width`).
pub fn width_of_block(b: &FastaStore) -> (r: usize)
    ensures
        r == block_width(b@),
{
    let mut w: usize = 0;
    let mut i: usize = 0;
    proof {
        assert(b@.take(0) =~= Seq::<(Seq<char>, Seq<char>)>::empty());
    }
    while i < b.len()
        invariant
            i <= b@.len(),
            w == block_width(b@.take(i as int)),
        decreases b@.len() - i,
    {
        let l = b.sequence(i).as_str().unicode_len();
        proof {
            assert(b@.take(i + 1).drop_last() =~= b@.take(i as int));
        }
        if l > w {
            w = l;
        }
        i = i + 1;
    }
    proof {
        assert(b@.take(i as int) =~= b@);
    }
    w
}

/// Identifiers of the records of `b` whose sequence is shorter than `w`, in order.
pub open spec fn short_rows(b: Seq<(Seq<char>, Seq<char>)>, w: nat) -> Seq<Seq<char>>
    decreases b.len(),
{
    if b.len() == 0 {
        Seq::empty()
    } else if b.last().1.len() < w {
        short_rows(b.drop_last(), w).push(b.last().0)
    } else {
        short_rows(b.drop_last(), w)
    }
}

/// Identifiers of the records of `b` whose sequence is shorter than the block's
/// width, in block order: a well-formed alignment has none.
pub fn uneven_rows(b: &FastaStore) -> (r: Vec<String>)
    ensures
        r@.map_values(|s: String| s@) == short_rows(b@, block_width(b@)),
{
    let w = width_of_block(b);
    let mut out: Vec<String> = Vec::new();
    let mut i: usize = 0;
    proof {
        assert(b@.take(0) =~= Seq::<(Seq<char>, Seq<char>)>::empty());
        assert(out@.map_values(|s: String| s@) =~= Seq::<Seq<char>>::empty());
    }
    while i < b.len()
        invariant
            i <= b@.len(),
            w == block_width(b@),
            out@.map_values(|s: String| s@) == short_rows(b@.take(i as int), w as nat),
        decreases b@.len() - i,
    {
        let l = b.sequence(i).as_str().unicode_len();
        proof {
            assert(b@.take(i + 1).drop_last() =~= b@.take(i as int));
        }
        let ghost before = out@.map_values(|s: String| s@);
        if l < w {
            out.push(b.id(i).clone());
            proof {
                assert(out@.map_values(|s: String| s@) =~= before.push(b@[i as int].0));
            }
        }
        i = i + 1;
    }
    proof {
        assert(b@.take(i as int) =~= b@);
    }
    out
}

/// Appends to `s` what block `b` contributes to the row of `t` (see `cell`).
fn push_cell(s: &mut String, b: &FastaStore, w: usize, t: &String)
    requires
        b.wf(),
        w == block_width(b@),
    ensures
        final(s)@ == old(s)@ + cell(b@, t@),
{
    proof {
        lemma_block_width_bounds(b@);
        b.lemma_unique();
    }
    match b.find(t) {
        Some(k) => {
            let seq = b.sequence(k);
            let l = seq.as_str().unicode_len();
            proof {
                assert(has_id(b@, t@));
                let i = choose|i: int| 0 <= i < b@.len() && b@[i].0 == t@;
                assert(i == k);
                assert(b@[k as int].1.len() <= block_width(b@));
            }
            s.append(seq.as_str());
            push_gaps(s, w - l);
            proof {
                assert(final(s)@ =~= old(s)@ + cell(b@, t@));
            }
        },
        None => {
            push_gaps(s, w);
        },
    }
}

proof fn lemma_add_new_unique(names: Seq<Seq<char>>, b: Seq<(Seq<char>, Seq<char>)>)
    requires
        forall|i: int, j: int| 0 <= i < j < names.len() ==> names[i] != names[j],
    ensures
        forall|i: int, j: int|
            0 <= i < j < add_new(names, b).len() ==> add_new(names, b)[i] != add_new(names, b)[j],
    decreases b.len(),
{
    if b.len() > 0 {
        lemma_add_new_unique(names, b.drop_last());
        let n = add_new(names, b.drop_last());
        if !n.contains(b.last().0) {
            assert forall|i: int, j: int| 0 <= i < j < n.push(b.last().0).len() implies n.push(
                b.last().0,
            )[i] != n.push(b.last().0)[j] by {
                if j == n.len() {
                    assert(n[i] != b.last().0);
                }
            }
        }
    }
}

proof fn lemma_taxa_unique(blocks: Seq<Seq<(Seq<char>, Seq<char>)>>)
    ensures
        forall|i: int, j: int| 0 <= i < j < taxa(blocks).len() ==> taxa(blocks)[i] != taxa(blocks)[j],
    decreases blocks.len(),
{
    if blocks.len() > 0 {
        lemma_taxa_unique(blocks.drop_last());
        lemma_add_new_unique(taxa(blocks.drop_last()), blocks.last());
    }
}

/// Identifiers of `names`, in order, as contents.
spec fn name_views(v: Seq<String>) -> Seq<Seq<char>> {
    v.map_values(|s: String| s@)
}

/// Consolidates gene blocks into one supermatrix (see `supermatrix`).
pub fn combine(blocks: &Vec<FastaStore>) -> (r: FastaStore)
    requires
        forall|j: int| 0 <= j < blocks@.len() ==> (#[trigger] blocks@[j]).wf(),
    ensures
        r.wf(),
        r@ == supermatrix(store_views(blocks@)),
{
    let ghost bv = store_views(blocks@);
    let mut names: Vec<String> = Vec::new();
    let mut widths: Vec<usize> = Vec::new();
    let mut j: usize = 0;
    proof {
        assert(bv.take(0) =~= Seq::<Seq<(Seq<char>, Seq<char>)>>::empty());
    }
    while j < blocks.len()
        invariant
            j <= blocks@.len(),
            bv == store_views(blocks@),
            name_views(names@) == taxa(bv.take(j as int)),
            widths@.len() == j,
            forall|q: int| 0 <= q < j ==> #[trigger] widths@[q] == block_width(bv[q]),
        decreases blocks@.len() - j,
    {
        let b = &blocks[j];
        proof {
            assert(bv.take(j + 1).drop_last() =~= bv.take(j as int));
            assert(bv[j as int] == b@);
        }
        let ghost start = name_views(names@);
        let mut i: usize = 0;
        proof {
            assert(b@.take(0) =~= Seq::<(Seq<char>, Seq<char>)>::empty());
        }
        while i < b.len()
            invariant
                i <= b@.len(),
                name_views(names@) == add_new(start, b@.take(i as int)),
            decreases b@.len() - i,
        {
            proof {
                assert(b@.take(i + 1).drop_last() =~= b@.take(i as int));
            }
            let id = b.id(i);
            let mut found = false;
            let mut k: usize = 0;
            while k < names.len()
                invariant
                    k <= names@.len(),
                    found == (exists|q: int| 0 <= q < k && names@[q]@ == id@),
                decreases names@.len() - k,
            {
                if names[k] == *id {
                    found = true;
                }
                k = k + 1;
            }
            let ghost nv = name_views(names@);
            proof {
                if found {
                    let q = choose|q: int| 0 <= q < k && names@[q]@ == id@;
                    assert(nv[q] == id@);
                } else {
                    assert forall|q: int| 0 <= q < nv.len() implies nv[q] != id@ by {
                        assert(nv[q] == names@[q]@);
                    }
                }
            }
            if !found {
                names.push(id.clone());
                proof {
                    assert(name_views(names@) =~= nv.push(id@));
                }
            }
            i = i + 1;
        }
        proof {
            assert(b@.take(i as int) =~= b@);
        }
        widths.push(width_of_block(b));
        j = j + 1;
    }
    proof {
        assert(bv.take(j as int) =~= bv);
        lemma_taxa_unique(bv);
    }
    let ghost tv = taxa(bv);
    let mut out = FastaStore::new();
    let mut t: usize = 0;
    while t < names.len()
        invariant
            t <= names@.len(),
            bv == store_views(blocks@),
            name_views(names@) == tv,
            tv == taxa(bv),
            forall|i: int, k: int| 0 <= i < k < tv.len() ==> tv[i] != tv[k],
            widths@.len() == blocks@.len(),
            forall|q: int| 0 <= q < blocks@.len() ==> #[trigger] widths@[q] == block_width(bv[q]),
            forall|q: int| 0 <= q < blocks@.len() ==> (#[trigger] blocks@[q]).wf(),
            out.wf(),
            out@ == supermatrix(bv).take(t as int),
        decreases names@.len() - t,
    {
        let name = &names[t];
        let mut s = String::new();
        let mut q: usize = 0;
        proof {
            assert(bv.take(0) =~= Seq::<Seq<(Seq<char>, Seq<char>)>>::empty());
            assert(name@ == tv[t as int]);
        }
        while q < blocks.len()
            invariant
                q <= blocks@.len(),
                bv == store_views(blocks@),
                widths@.len() == blocks@.len(),
                forall|p: int| 0 <= p < blocks@.len() ==> #[trigger] widths@[p] == block_width(bv[p]),
                forall|p: int| 0 <= p < blocks@.len() ==> (#[trigger] blocks@[p]).wf(),
                s@ == row(bv.take(q as int), name@),
            decreases blocks@.len() - q,
        {
            proof {
                assert(bv.take(q + 1).drop_last() =~= bv.take(q as int));
                assert(bv[q as int] == blocks@[q as int]@);
            }
            push_cell(&mut s, &blocks[q], widths[q], name);
            q = q + 1;
        }
        proof {
            assert(bv.take(q as int) =~= bv);
        }
        let ghost before = out@;
        proof {
            assert forall|p: int| 0 <= p < before.len() implies before[p].0 != name@ by {
                assert(before[p].0 == tv[p]);
            }
        }
        out.insert(name.clone(), s);
        proof {
            assert(!has_id(before, name@));
            assert(out@ =~= supermatrix(bv).take(t + 1));
        }
        t = t + 1;
    }
    proof {
        assert(supermatrix(bv).take(t as int) =~= supermatrix(bv));
    }
    out
}

/// Consolidates the FASTA texts of per-gene alignments, in the given order, into
/// the FASTA text of the supermatrix; headers and sequence lines are read trimmed
/// of spaces at both ends (see `trimmed_records`).
pub fn combine_fasta(texts: &Vec<String>) -> (r: String)
    ensures
        r@ == fasta_text(supermatrix(texts@.map_values(|t: String| trimmed_records(t@)))),
{
    let mut blocks: Vec<FastaStore> = Vec::new();
    let mut i: usize = 0;
    while i < texts.len()
        invariant
            i <= texts@.len(),
            blocks@.len() == i,
            forall|j: int| 0 <= j < i ==> (#[trigger] blocks@[j]).wf(),
            forall|j: int| 0 <= j < i ==> (#[trigger] blocks@[j])@ == trimmed_records(texts@[j]@),
        decreases texts@.len() - i,
    {
        blocks.push(FastaStore::parse_trimmed(texts[i].as_str()));
        i = i + 1;
    }
    proof {
        assert(store_views(blocks@) =~= texts@.map_values(|t: String| trimmed_records(t@)));
    }
    combine(&blocks).to_text()
}

} // verus!
