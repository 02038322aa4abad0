use vstd::prelude::*;
use crate::text::{
    char_vec_views, lines, lines_of, push_char, push_range, split_on, string_of, trim, trim_bounds,
};
use crate::index::NameIndex;
use vstd::string::StringExecFns;

verus! {

/// Whether some record of `recs` has identifier `id`.
pub open spec fn has_id(recs: Seq<(Seq<char>, Seq<char>)>, id: Seq<char>) -> bool {
    exists|i: int| 0 <= i < recs.len() && recs[i].0 == id
}

/// No two records of `recs` share an identifier.
pub open spec fn unique_ids(recs: Seq<(Seq<char>, Seq<char>)>) -> bool {
    forall|i: int, j: int| 0 <= i < recs.len() && 0 <= j < recs.len() && i != j ==> recs[i].0 != recs[j].0
}

/// `recs` after storing `seq` under `id`: an existing record with that
/// identifier takes the new sequence in place, otherwise the record goes last.
pub open spec fn put(recs: Seq<(Seq<char>, Seq<char>)>, id: Seq<char>, seq: Seq<char>) -> Seq<
    (Seq<char>, Seq<char>),
> {
    if has_id(recs, id) {
        recs.map_values(
            |r: (Seq<char>, Seq<char>)|
                if r.0 == id {
                    (id, seq)
                } else {
                    r
                },
        )
    } else {
        recs.push((id, seq))
    }
}

/// Whether a line of a FASTA text is a header line.
pub open spec fn is_header(line: Seq<char>) -> bool {
    line.len() > 0 && line[0] == '>'
}

/// A line as read: as it stands, or without the space characters at either end
/// when `trimmed` holds.
pub open spec fn cleaned(l: Seq<char>, trimmed: bool) -> Seq<char> {
    if trimmed {
        trim(l)
    } else {
        l
    }
}

/// The identifier that a header line names: what follows `>`.
pub open spec fn header_id(line: Seq<char>, trimmed: bool) -> Seq<char> {
    cleaned(line.subrange(1, line.len() as int), trimmed)
}

/// The records read so far, and the record being read, after one more line.
/// A header closes the open record and opens a new, empty one; any other line
/// is added to the open record (or is ignored if none is open).
pub open spec fn parse_step(
    st: (Seq<(Seq<char>, Seq<char>)>, Option<(Seq<char>, Seq<char>)>),
    line: Seq<char>,
    trimmed: bool,
) -> (Seq<(Seq<char>, Seq<char>)>, Option<(Seq<char>, Seq<char>)>) {
    if is_header(line) {
        (close_open(st), Some((header_id(line, trimmed), Seq::empty())))
    } else {
        match st.1 {
            Some(r) => (st.0, Some((r.0, r.1 + cleaned(line, trimmed)))),
            None => st,
        }
    }
}

/// The records once the open record, if any, is stored.
pub open spec fn close_open(
    st: (Seq<(Seq<char>, Seq<char>)>, Option<(Seq<char>, Seq<char>)>),
) -> Seq<(Seq<char>, Seq<char>)> {
    match st.1 {
        Some(r) => put(st.0, r.0, r.1),
        None => st.0,
    }
}

/// The reading state after the given lines.
pub open spec fn parse_lines(ls: Seq<Seq<char>>, trimmed: bool) -> (
    Seq<(Seq<char>, Seq<char>)>,
    Option<(Seq<char>, Seq<char>)>,
)
    decreases ls.len(),
{
    if ls.len() == 0 {
        (Seq::empty(), None)
    } else {
        parse_step(parse_lines(ls.drop_last(), trimmed), ls.last(), trimmed)
    }
}

/// The records of a FASTA text, in order of first appearance of each identifier,
/// each with the sequence of its last occurrence: a header's text after `>` and
/// the concatenated lines that follow it, as they stand.
pub open spec fn fasta_records(text: Seq<char>) -> Seq<(Seq<char>, Seq<char>)> {
    close_open(parse_lines(lines_of(text), false))
}

/// The records of a FASTA text as `fasta_records` reads them, but with headers
/// and sequence lines trimmed of spaces at both ends.
pub open spec fn trimmed_records(text: Seq<char>) -> Seq<(Seq<char>, Seq<char>)> {
    close_open(parse_lines(lines_of(text), true))
}

/// The FASTA text of `recs`: a header line and one sequence line per record.
pub open spec fn fasta_text(recs: Seq<(Seq<char>, Seq<char>)>) -> Seq<char>
    decreases recs.len(),
{
    if recs.len() == 0 {
        Seq::empty()
    } else {
        let r = recs.last();
        fasta_text(recs.drop_last()) + seq!['>'] + r.0 + seq!['\n'] + r.1 + seq!['\n']
    }
}

/// Sequences keyed by identifier, in order of first insertion; identifiers are unique.
pub struct FastaStore {
    records: Vec<(String, String)>,
    index: NameIndex,
}

impl View for FastaStore {
    type V = Seq<(Seq<char>, Seq<char>)>;

    closed spec fn view(&self) -> Seq<(Seq<char>, Seq<char>)> {
        self.records@.map_values(|r: (String, String)| (r.0@, r.1@))
    }
}

impl FastaStore {
    /// The store's invariant: no two records share an identifier, and the index
    /// holds the identifiers in record order.
    pub closed spec fn wf(&self) -> bool {
        &&& unique_ids(self@)
        &&& self.index.wf()
        &&& self.index@ == self@.map_values(|r: (Seq<char>, Seq<char>)| r.0)
    }

    /// The identifiers of a well-formed store are unique.
    pub proof fn lemma_unique(&self)
        requires
            self.wf(),
        ensures
            unique_ids(self@),
    {
    }

    /// An empty store.
    pub fn new() -> (r: FastaStore)
        ensures
            r@ == Seq::<(Seq<char>, Seq<char>)>::empty(),
            r.wf(),
    {
        let r = FastaStore { records: Vec::new(), index: NameIndex::new() };
        proof {
            assert(r@ =~= Seq::<(Seq<char>, Seq<char>)>::empty());
            assert(r.index@ =~= r@.map_values(|r: (Seq<char>, Seq<char>)| r.0));
        }
        r
    }

    /// Number of records.
    pub fn len(&self) -> (r: usize)
        ensures
            r == self@.len(),
    {
        self.records.len()
    }

    /// Identifier of record `i`.
    pub fn id(&self, i: usize) -> (r: &String)
        requires
            i < self@.len(),
        ensures
            r@ == self@[i as int].0,
    {
        &self.records[i].0
    }

    /// Sequence of record `i`.
    pub fn sequence(&self, i: usize) -> (r: &String)
        requires
            i < self@.len(),
        ensures
            r@ == self@[i as int].1,
    {
        &self.records[i].1
    }

    /// Position of the record with identifier `id`, if any.
    pub fn find(&self, id: &String) -> (r: Option<usize>)
        requires
            self.wf(),
        ensures
            match r {
                Some(k) => k < self@.len() && self@[k as int].0 == id@,
                None => !has_id(self@, id@),
            },
    {
        let r = self.index.find(id);
        proof {
            match r {
                Some(k) => {
                    assert(self.index@[k as int] == self@[k as int].0);
                },
                None => {
                    if has_id(self@, id@) {
                        let i = choose|i: int| 0 <= i < self@.len() && self@[i].0 == id@;
                        assert(self.index@[i] == id@);
                    }
                },
            }
        }
        r
    }

    /// Stores `seq` under `id`; an existing record with that identifier keeps its
    /// place and takes the new sequence.
    pub fn insert(&mut self, id: String, seq: String)
        requires
            old(self).wf(),
        ensures
            final(self)@ == put(old(self)@, id@, seq@),
            final(self).wf(),
    {
        let ghost before = self@;
        match self.find(&id) {
            Some(k) => {
                proof {
                    assert(has_id(before, id@));
                }
                self.records.set(k, (id, seq));
                proof {
                    assert forall|j: int| 0 <= j < before.len() && j != k implies before[j].0
                        != id@ by {
                        assert(before[k as int].0 == id@);
                    }
                    assert(self@ =~= put(before, id@, seq@));
                    assert(self.index@ =~= self@.map_values(|r: (Seq<char>, Seq<char>)| r.0));
                }
            },
            None => {
                let ghost old_index = self.index@;
                proof {
                    assert(!old_index.contains(id@)) by {
                        if old_index.contains(id@) {
                            let i = choose|i: int| 0 <= i < old_index.len() && old_index[i] == id@;
                            assert(before[i].0 == id@);
                        }
                    }
                }
                self.index.intern(id.clone());
                self.records.push((id, seq));
                proof {
                    assert(self@ =~= put(before, id@, seq@));
                    assert(self.index@ =~= self@.map_values(|r: (Seq<char>, Seq<char>)| r.0));
                }
            },
        }
    }

    /// Reads a FASTA text (see `fasta_records`).
    pub fn parse(text: &str) -> (r: FastaStore)
        ensures
            r@ == fasta_records(text@),
            r.wf(),
    {
        Self::parse_lines_of(text, false)
    }

    /// Reads a FASTA text, trimming headers and sequence lines (see `trimmed_records`).
    pub fn parse_trimmed(text: &str) -> (r: FastaStore)
        ensures
            r@ == trimmed_records(text@),
            r.wf(),
    {
        Self::parse_lines_of(text, true)
    }

    fn parse_lines_of(text: &str, trimmed: bool) -> (r: FastaStore)
        ensures
            r@ == close_open(parse_lines(lines_of(text@), trimmed)),
            r.wf(),
    {
        let ls = lines(text);
        let ghost lv = char_vec_views(ls@);
        let mut store = FastaStore::new();
        let mut open_id: Option<String> = None;
        let mut open_seq = String::new();
        let mut i: usize = 0;
        proof {
            assert(lv.take(0) =~= Seq::<Seq<char>>::empty());
        }
        while i < ls.len()
            invariant
                i <= ls.len(),
                lv == char_vec_views(ls@),
                lv == lines_of(text@),
                store.wf(),
                parse_lines(lv.take(i as int), trimmed) == (
                    store@,
                    match open_id {
                        Some(id) => Some((id@, open_seq@)),
                        None => None::<(Seq<char>, Seq<char>)>,
                    },
                ),
            decreases ls.len() - i,
        {
            let line = &ls[i];
            proof {
                assert(lv.take(i + 1).drop_last() =~= lv.take(i as int));
                assert(line@ == lv[i as int]);
            }
            if line.len() > 0 && line[0] == '>' {
                match open_id {
                    Some(id) => {
                        store.insert(id, open_seq);
                    },
                    None => {},
                }
                let (a, b) = if trimmed {
                    trim_bounds(line, 1)
                } else {
                    (1, line.len())
                };
                open_id = Some(string_of(line, a, b));
                open_seq = String::new();
            } else {
                if open_id.is_some() {
                    let (a, b) = if trimmed {
                        trim_bounds(line, 0)
                    } else {
                        (0, line.len())
                    };
                    proof {
                        assert(line@.subrange(0, line@.len() as int) =~= line@);
                    }
                    push_range(&mut open_seq, line, a, b);
                }
            }
            i = i + 1;
        }
        proof {
            assert(lv.take(i as int) =~= lv);
        }
        match open_id {
            Some(id) => {
                store.insert(id, open_seq);
            },
            None => {},
        }
        store
    }

    /// The FASTA text of the store (see `fasta_text`).
    pub fn to_text(&self) -> (r: String)
        ensures
            r@ == fasta_text(self@),
    {
        let mut out = String::new();
        let mut i: usize = 0;
        proof {
            assert(self@.take(0) =~= Seq::<(Seq<char>, Seq<char>)>::empty());
        }
        while i < self.records.len()
            invariant
                i <= self.records.len(),
                self@.len() == self.records.len(),
                out@ == fasta_text(self@.take(i as int)),
            decreases self.records.len() - i,
        {
            proof {
                assert(self@.take(i + 1).drop_last() =~= self@.take(i as int));
            }
            push_char(&mut out, '>');
            out.append(self.records[i].0.as_str());
            push_char(&mut out, '\n');
            out.append(self.records[i].1.as_str());
            push_char(&mut out, '\n');
            proof {
                let r = self@[i as int];
                assert(out@ =~= fasta_text(self@.take(i as int)) + seq!['>'] + r.0 + seq!['\n']
                    + r.1 + seq!['\n']);
            }
            i = i + 1;
        }
        proof {
            assert(self@.take(i as int) =~= self@);
        }
        out
    }
}

} // verus!

verus! {

/// Records that a FASTA text can carry: unique identifiers, no line feed or
/// carriage return in an identifier or a sequence, and no sequence that starts
/// with `>`.
pub open spec fn writable(recs: Seq<(Seq<char>, Seq<char>)>) -> bool {
    &&& unique_ids(recs)
    &&& forall|i: int, k: int|
        0 <= i < recs.len() && 0 <= k < recs[i].0.len() ==> (#[trigger] recs[i].0[k]) != '\n'
            && recs[i].0[k] != '\r'
    &&& forall|i: int, k: int|
        0 <= i < recs.len() && 0 <= k < recs[i].1.len() ==> (#[trigger] recs[i].1[k]) != '\n'
            && recs[i].1[k] != '\r'
    &&& forall|i: int| 0 <= i < recs.len() && (#[trigger] recs[i]).1.len() > 0 ==> recs[i].1[0] != '>'
}

/// The lines that `fasta_text` writes: a header and a sequence line per record.
pub open spec fn record_lines(recs: Seq<(Seq<char>, Seq<char>)>) -> Seq<Seq<char>>
    decreases recs.len(),
{
    if recs.len() == 0 {
        Seq::empty()
    } else {
        record_lines(recs.drop_last()) + seq![seq!['>'] + recs.last().0, recs.last().1]
    }
}

/// Whether `s` holds neither a line feed nor a carriage return.
pub open spec fn one_line(s: Seq<char>) -> bool {
    forall|k: int| 0 <= k < s.len() ==> s[k] != '\n' && s[k] != '\r'
}

proof fn lemma_split_append(s: Seq<char>, t: Seq<char>)
    requires
        forall|k: int| 0 <= k < t.len() ==> t[k] != '\n',
    ensures
        split_on(s + t, '\n') == split_on(s, '\n').update(
            split_on(s, '\n').len() - 1,
            split_on(s, '\n').last() + t,
        ),
    decreases t.len(),
{
    crate::text::lemma_split_on_nonempty(s, '\n');
    if t.len() == 0 {
        assert(s + t =~= s);
        assert(split_on(s, '\n').last() + t =~= split_on(s, '\n').last());
        assert(split_on(s, '\n').update(split_on(s, '\n').len() - 1, split_on(s, '\n').last())
            =~= split_on(s, '\n'));
    } else {
        let u = t.drop_last();
        lemma_split_append(s, u);
        assert((s + t).drop_last() =~= s + u);
        crate::text::lemma_split_on_nonempty(s + u, '\n');
        let p = split_on(s, '\n');
        let q = split_on(s + u, '\n');
        assert((s + t).last() == t.last());
        assert(t[t.len() - 1] != '\n');
        assert(q.len() == p.len());
        assert(q.last() == p.last() + u);
        assert(split_on(s + t, '\n') == q.update(q.len() - 1, q.last().push(t.last())));
        assert(p.last() + u + seq![t.last()] =~= p.last() + t);
        assert(q.last().push(t.last()) =~= p.last() + t);
        assert(split_on(s + t, '\n') =~= p.update(p.len() - 1, p.last() + t));
    }
}

proof fn lemma_split_newline(s: Seq<char>)
    ensures
        split_on(s + seq!['\n'], '\n') == split_on(s, '\n').push(Seq::empty()),
{
    assert((s + seq!['\n']).drop_last() =~= s);
}

proof fn lemma_text_pieces(recs: Seq<(Seq<char>, Seq<char>)>)
    requires
        writable(recs),
    ensures
        split_on(fasta_text(recs), '\n') == record_lines(recs).push(Seq::empty()),
        forall|j: int| 0 <= j < record_lines(recs).len() ==> one_line(#[trigger] record_lines(recs)[j]),
    decreases recs.len(),
{
    if recs.len() == 0 {
        assert(split_on(Seq::<char>::empty(), '\n') =~= seq![Seq::<char>::empty()]);
        assert(record_lines(recs).push(Seq::empty()) =~= seq![Seq::<char>::empty()]);
    } else {
        let d = recs.drop_last();
        let r = recs.last();
        assert(writable(d)) by {
            assert forall|i: int| 0 <= i < d.len() implies d[i] == recs[i] by {}
        }
        lemma_text_pieces(d);
        let t0 = fasta_text(d);
        let h = seq!['>'] + r.0;
        let n = recs.len() - 1;
        assert(r == recs[n]);
        assert forall|k: int| 0 <= k < h.len() implies h[k] != '\n' && h[k] != '\r' by {
            if k > 0 {
                assert(h[k] == recs[n].0[k - 1]);
            }
        }
        assert forall|k: int| 0 <= k < r.1.len() implies r.1[k] != '\n' && r.1[k] != '\r' by {
            assert(r.1[k] == recs[n].1[k]);
        }
        let l0 = record_lines(d);
        lemma_split_append(t0, h);
        assert(l0.push(Seq::empty()).update(l0.len() as int, Seq::<char>::empty() + h) =~= l0.push(h));
        lemma_split_newline(t0 + h);
        lemma_split_append(t0 + h + seq!['\n'], r.1);
        assert(l0.push(h).push(Seq::empty()).update(l0.len() as int + 1, Seq::<char>::empty() + r.1)
            =~= l0.push(h).push(r.1));
        lemma_split_newline(t0 + h + seq!['\n'] + r.1);
        assert(fasta_text(recs) =~= t0 + h + seq!['\n'] + r.1 + seq!['\n']);
        assert(record_lines(recs) =~= l0.push(h).push(r.1));
        assert forall|j: int| 0 <= j < record_lines(recs).len() implies one_line(
            #[trigger] record_lines(recs)[j],
        ) by {
            if j < l0.len() {
                assert(record_lines(recs)[j] == l0[j]);
            }
        }
    }
}

proof fn lemma_parse_record_lines(recs: Seq<(Seq<char>, Seq<char>)>)
    requires
        writable(recs),
        recs.len() > 0,
    ensures
        parse_lines(record_lines(recs), false) == (recs.drop_last(), Some(recs.last())),
    decreases recs.len(),
{
    let d = recs.drop_last();
    let r = recs.last();
    let n = recs.len() - 1;
    assert(r == recs[n]);
    assert(writable(d)) by {
        assert forall|i: int| 0 <= i < d.len() implies d[i] == recs[i] by {}
    }
    let l0 = record_lines(d);
    let h = seq!['>'] + r.0;
    let ls = record_lines(recs);
    assert(ls =~= l0.push(h).push(r.1));
    assert(ls.drop_last() =~= l0.push(h));
    assert(ls.drop_last().drop_last() =~= l0);
    let st0 = parse_lines(l0, false);
    if d.len() == 0 {
        assert(l0 =~= Seq::<Seq<char>>::empty());
        assert(close_open(st0) =~= d);
    } else {
        lemma_parse_record_lines(d);
        assert(!has_id(d.drop_last(), d.last().0)) by {
            if has_id(d.drop_last(), d.last().0) {
                let i = choose|i: int| 0 <= i < d.drop_last().len() && d.drop_last()[i].0 == d.last().0;
                assert(recs[i].0 == recs[d.len() - 1].0);
            }
        }
        assert(close_open(st0) =~= d);
    }
    assert(h.subrange(1, h.len() as int) =~= r.0);
    assert(is_header(h));
    assert(!is_header(r.1)) by {
        if r.1.len() > 0 {
            assert(recs[n].1[0] != '>');
        }
    }
    assert(Seq::<char>::empty() + r.1 =~= r.1);
    let st1 = parse_step(st0, h, false);
    assert(parse_lines(ls.drop_last(), false) == st1);
    assert(st1 == (d, Some((r.0, Seq::<char>::empty()))));
    assert(parse_lines(ls, false) == parse_step(st1, r.1, false));
    assert(recs.drop_last() == d);
}

/// Writing records as FASTA text and reading the text back gives the same
/// records, when the records can be carried by the format (see `writable`).
pub proof fn lemma_fasta_round_trip(recs: Seq<(Seq<char>, Seq<char>)>)
    requires
        writable(recs),
    ensures
        fasta_records(fasta_text(recs)) == recs,
{
    lemma_text_pieces(recs);
    crate::text::lemma_split_on_nonempty(fasta_text(recs), '\n');
    let p = split_on(fasta_text(recs), '\n');
    let ls = record_lines(recs);
    assert(p.drop_last() =~= ls);
    assert(lines_of(fasta_text(recs)) =~= ls) by {
        assert forall|j: int| 0 <= j < ls.len() implies crate::text::strip_cr(ls[j]) == ls[j] by {
            assert(one_line(ls[j]));
            if ls[j].len() > 0 {
                assert(ls[j][ls[j].len() - 1] != '\r');
            }
        }
    }
    if recs.len() == 0 {
        assert(ls =~= Seq::<Seq<char>>::empty());
        assert(fasta_records(fasta_text(recs)) =~= recs);
    } else {
        lemma_parse_record_lines(recs);
        assert(!has_id(recs.drop_last(), recs.last().0)) by {
            if has_id(recs.drop_last(), recs.last().0) {
                let i = choose|i: int|
                    0 <= i < recs.drop_last().len() && recs.drop_last()[i].0 == recs.last().0;
                assert(recs[i].0 == recs[recs.len() - 1].0);
            }
        }
        assert(put(recs.drop_last(), recs.last().0, recs.last().1) =~= recs);
    }
}

} // verus!
