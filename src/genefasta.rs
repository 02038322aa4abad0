use vstd::prelude::*;
use crate::index::NameIndex;
use crate::text::{
    char_vec_views, fields, fields_of, lines, lines_of, push_char, string_of, string_views,
};
use vstd::string::StringExecFns;

verus! {

/// A database entry line without its leading NUL character, if it has one.
pub open spec fn strip_nul(l: Seq<char>) -> Seq<char> {
    if l.len() > 0 && l[0] == '\0' {
        l.subrange(1, l.len() as int)
    } else {
        l
    }
}

/// The entries of a database text: its lines without a leading NUL, empty ones dropped.
pub open spec fn db_entries(ls: Seq<Seq<char>>) -> Seq<Seq<char>>
    decreases ls.len(),
{
    if ls.len() == 0 {
        Seq::empty()
    } else {
        let e = db_entries(ls.drop_last());
        let l = strip_nul(ls.last());
        if l.len() > 0 {
            e.push(l)
        } else {
            e
        }
    }
}

/// Reads the entries of a database text (see `db_entries`).
pub fn read_db(text: &str) -> (r: Vec<String>)
    ensures
        string_views(r@) == db_entries(lines_of(text@)),
{
    let ls = lines(text);
    let ghost lv = char_vec_views(ls@);
    let mut out: Vec<String> = Vec::new();
    let mut i: usize = 0;
    proof {
        assert(lv.take(0) =~= Seq::<Seq<char>>::empty());
        assert(string_views(out@) =~= Seq::<Seq<char>>::empty());
    }
    while i < ls.len()
        invariant
            i <= ls@.len(),
            lv == char_vec_views(ls@),
            lv == lines_of(text@),
            string_views(out@) == db_entries(lv.take(i as int)),
        decreases ls@.len() - i,
    {
        let l = &ls[i];
        proof {
            assert(l@ == lv[i as int]);
            assert(lv.take(i + 1).drop_last() =~= lv.take(i as int));
            assert(lv.take(i + 1).last() == lv[i as int]);
        }
        let start: usize = if l.len() > 0 && l[0] == '\0' {
            1
        } else {
            0
        };
        proof {
            assert(l@.subrange(start as int, l@.len() as int) =~= strip_nul(l@));
        }
        if start < l.len() {
            let ghost before = string_views(out@);
            out.push(string_of(l, start, l.len()));
            proof {
                assert(string_views(out@) =~= before.push(strip_nul(l@)));
            }
        }
        i = i + 1;
    }
    proof {
        assert(lv.take(i as int) =~= lv);
    }
    out
}

/// Why gene-specific FASTA texts could not be made.
#[derive(Debug)]
pub enum GeneFastaError {
    /// The name, amino-acid and structure lists differ in length.
    LengthMismatch,
    /// A line of the membership text is not two fields (its number, from 1).
    InvalidLine(usize),
    /// A membership line names a sequence that the database lacks (line number, name).
    NotFound(usize, String),
}

/// The last position of `name` in `names`, if any.
pub open spec fn last_index(names: Seq<Seq<char>>, name: Seq<char>) -> Option<int>
    decreases names.len(),
{
    if names.len() == 0 {
        None
    } else if names.last() == name {
        Some(names.len() - 1)
    } else {
        last_index(names.drop_last(), name)
    }
}

/// A sequence database: names with their amino-acid and structure sequences;
/// a name given twice takes its last sequences.
pub struct SequenceDb {
    index: NameIndex,
    row: Vec<usize>,
    names: Vec<String>,
    aa: Vec<String>,
    di: Vec<String>,
}

impl SequenceDb {
    /// The names, in order.
    pub closed spec fn names(&self) -> Seq<Seq<char>> {
        string_views(self.names@)
    }

    /// The amino-acid sequences, in order.
    pub closed spec fn aa(&self) -> Seq<Seq<char>> {
        string_views(self.aa@)
    }

    /// The structure sequences, in order.
    pub closed spec fn di(&self) -> Seq<Seq<char>> {
        string_views(self.di@)
    }

    /// The database's invariant: the three lists are aligned, and the index
    /// leads each name to its last position.
    pub closed spec fn wf(&self) -> bool {
        &&& self.index.wf()
        &&& self.names@.len() == self.aa@.len()
        &&& self.names@.len() == self.di@.len()
        &&& self.row@.len() == self.index@.len()
        &&& forall|x: Seq<char>| #[trigger] self.index@.contains(x) <==> last_index(self.names(), x).is_some()
        &&& forall|k: int|
            0 <= k < self.index@.len() ==> last_index(self.names(), self.index@[k]) == Some(
                #[trigger] self.row@[k] as int,
            )
    }

    /// A database from aligned lists; fails when their lengths differ.
    pub fn new(names: Vec<String>, aa: Vec<String>, di: Vec<String>) -> (r: Result<SequenceDb, GeneFastaError>)
        ensures
            match r {
                Ok(db) => db.wf() && db.names() == string_views(names@) && db.aa() == string_views(aa@)
                    && db.di() == string_views(di@),
                Err(e) => e is LengthMismatch && (names@.len() != aa@.len() || names@.len() != di@.len()),
            },
    {
        if names.len() != aa.len() || names.len() != di.len() {
            return Err(GeneFastaError::LengthMismatch);
        }
        let ghost nv = string_views(names@);
        let mut index = NameIndex::new();
        let mut row: Vec<usize> = Vec::new();
        let mut i: usize = 0;
        proof {
            assert(nv.take(0) =~= Seq::<Seq<char>>::empty());
        }
        while i < names.len()
            invariant
                i <= names@.len(),
                nv == string_views(names@),
                index.wf(),
                row@.len() == index@.len(),
                forall|x: Seq<char>| #[trigger] index@.contains(x) <==> last_index(nv.take(i as int), x).is_some(),
                forall|k: int|
                    0 <= k < index@.len() ==> last_index(nv.take(i as int), index@[k]) == Some(
                        #[trigger] row@[k] as int,
                    ),
            decreases names@.len() - i,
        {
            let ghost old_index = index@;
            let ghost old_row = row@;
            proof {
                assert(nv.take(i + 1).drop_last() =~= nv.take(i as int));
                assert(nv.take(i + 1).last() == nv[i as int]);
                index.lemma_distinct();
            }
            let k = index.intern(names[i].clone());
            if k == row.len() {
                row.push(i);
            } else {
                row.set(k, i);
            }
            proof {
                index.lemma_distinct();
                assert forall|x: Seq<char>| #[trigger] index@.contains(x) <==> last_index(
                    nv.take(i + 1),
                    x,
                ).is_some() by {
                    if x == nv[i as int] {
                        assert(index@[k as int] == x);
                    } else {
                        if index@.contains(x) {
                            let j = choose|j: int| 0 <= j < index@.len() && index@[j] == x;
                            if j < old_index.len() {
                                assert(old_index[j] == x);
                            }
                        }
                        if old_index.contains(x) {
                            let j = choose|j: int| 0 <= j < old_index.len() && old_index[j] == x;
                            assert(index@[j] == x);
                        }
                    }
                }
                assert forall|q: int| 0 <= q < index@.len() implies last_index(
                    nv.take(i + 1),
                    index@[q],
                ) == Some(#[trigger] row@[q] as int) by {
                    if q != k {
                        assert(index@[q] == old_index[q]);
                        assert(index@[q] != index@[k as int]);
                        assert(row@[q] == old_row[q]);
                    }
                }
            }
            i = i + 1;
        }
        proof {
            assert(nv.take(i as int) =~= nv);
        }
        Ok(SequenceDb { index, row, names, aa, di })
    }

    /// Position of the last entry called `name`, if any.
    pub fn find(&self, name: &String) -> (r: Option<usize>)
        requires
            self.wf(),
        ensures
            match r {
                Some(i) => last_index(self.names(), name@) == Some(i as int) && i < self.aa().len(),
                None => last_index(self.names(), name@).is_none(),
            },
    {
        match self.index.find(name) {
            Some(k) => {
                let i = self.row[k];
                proof {
                    lemma_last_index_bound(self.names(), name@);
                }
                Some(i)
            },
            None => None,
        }
    }
}

proof fn lemma_last_index_bound(names: Seq<Seq<char>>, name: Seq<char>)
    ensures
        match last_index(names, name) {
            Some(i) => 0 <= i < names.len() && names[i] == name,
            None => true,
        },
    decreases names.len(),
{
    if names.len() > 0 && names.last() != name {
        lemma_last_index_bound(names.drop_last(), name);
    }
}

/// The FASTA texts of one gene after its membership lines: for each line
/// `name<TAB>species`, a record `>species` with the named entry's amino-acid
/// sequence, and one with its structure sequence; `None` once a line fails.
pub open spec fn gene_texts(
    names: Seq<Seq<char>>,
    aa: Seq<Seq<char>>,
    di: Seq<Seq<char>>,
    ls: Seq<Seq<char>>,
) -> (Seq<char>, Seq<char>)
    decreases ls.len(),
{
    if ls.len() == 0 {
        (Seq::empty(), Seq::empty())
    } else {
        let t = gene_texts(names, aa, di, ls.drop_last());
        let f = fields(ls.last());
        let i = last_index(names, f[0]).unwrap();
        (
            t.0 + seq!['>'] + f[1] + seq!['\n'] + aa[i] + seq!['\n'],
            t.1 + seq!['>'] + f[1] + seq!['\n'] + di[i] + seq!['\n'],
        )
    }
}

/// Whether a membership line is usable: two fields, the first a known name.
pub open spec fn line_ok(names: Seq<Seq<char>>, l: Seq<char>) -> bool {
    fields(l).len() == 2 && last_index(names, fields(l)[0]).is_some()
}

/// The amino-acid and structure FASTA texts of one gene from its membership text
/// (see `gene_texts`); fails on the first line that is not two fields, or that
/// names a sequence the database lacks.
pub fn gene_fasta(db: &SequenceDb, membership: &str) -> (r: Result<(String, String), GeneFastaError>)
    requires
        db.wf(),
    ensures
        match r {
            Ok(t) => (forall|i: int|
                0 <= i < lines_of(membership@).len() ==> line_ok(db.names(), #[trigger] lines_of(membership@)[i]))
                && (t.0@, t.1@) == gene_texts(db.names(), db.aa(), db.di(), lines_of(membership@)),
            Err(GeneFastaError::InvalidLine(n)) => 1 <= n <= lines_of(membership@).len() && fields(
                lines_of(membership@)[n - 1],
            ).len() != 2,
            Err(GeneFastaError::NotFound(n, name)) => 1 <= n <= lines_of(membership@).len()
                && fields(lines_of(membership@)[n - 1]).len() == 2 && name@ == fields(
                lines_of(membership@)[n - 1],
            )[0] && last_index(db.names(), name@).is_none(),
            Err(GeneFastaError::LengthMismatch) => false,
        },
{
    let ls = lines(membership);
    let ghost lv = char_vec_views(ls@);
    let mut aa_text = String::new();
    let mut di_text = String::new();
    let mut i: usize = 0;
    proof {
        assert(lv.take(0) =~= Seq::<Seq<char>>::empty());
    }
    while i < ls.len()
        invariant
            i <= ls@.len(),
            db.wf(),
            lv == char_vec_views(ls@),
            lv == lines_of(membership@),
            forall|j: int| 0 <= j < i ==> line_ok(db.names(), #[trigger] lv[j]),
            (aa_text@, di_text@) == gene_texts(db.names(), db.aa(), db.di(), lv.take(i as int)),
        decreases ls@.len() - i,
    {
        let f = fields_of(&ls[i]);
        proof {
            assert(ls@[i as int]@ == lv[i as int]);
            assert(lv.take(i + 1).drop_last() =~= lv.take(i as int));
            assert(lv.take(i + 1).last() == lv[i as int]);
        }
        if f.len() != 2 {
            return Err(GeneFastaError::InvalidLine(i + 1));
        }
        proof {
            assert(f@[0]@ == fields(lv[i as int])[0]);
            assert(f@[1]@ == fields(lv[i as int])[1]);
        }
        match db.find(&f[0]) {
            Some(k) => {
                proof {
                    lemma_last_index_bound(db.names(), f@[0]@);
                }
                push_char(&mut aa_text, '>');
                aa_text.append(f[1].as_str());
                push_char(&mut aa_text, '\n');
                aa_text.append(db.aa[k].as_str());
                push_char(&mut aa_text, '\n');
                push_char(&mut di_text, '>');
                di_text.append(f[1].as_str());
                push_char(&mut di_text, '\n');
                di_text.append(db.di[k].as_str());
                push_char(&mut di_text, '\n');
                proof {
                    assert(db.aa()[k as int] == db.aa@[k as int]@);
                    assert(db.di()[k as int] == db.di@[k as int]@);
                }
            },
            None => {
                return Err(GeneFastaError::NotFound(i + 1, f[0].clone()));
            },
        }
        i = i + 1;
    }
    proof {
        assert(lv.take(i as int) =~= lv);
    }
    Ok((aa_text, di_text))
}

} // verus!
