use vstd::prelude::*;
use crate::fasta::{put, FastaStore};
use crate::lookup::{hex_char, md5_digest, md5_of};
use crate::text::{chars_of, is_space, is_space_char, push_char};
use vstd::string::{StrSliceExecFns, StringExecFns};

verus! {

/// Whether a character of a sequence name is replaced by `_`: whitespace and
/// `;` `:` `,` `=` `/` `(` `)`.
pub open spec fn needs_replacement(c: char) -> bool {
    is_space(c) || c == ';' || c == ':' || c == ',' || c == '=' || c == '/' || c == '('
        || c == ')'
}

/// Whether a character of a sequence name is replaced (see `needs_replacement`).
pub fn need_replacement(c: char) -> (r: bool)
    ensures
        r == needs_replacement(c),
{
    is_space_char(c) || c == ';' || c == ':' || c == ',' || c == '=' || c == '/' || c == '('
        || c == ')'
}

/// A sequence name with each replaced character turned into `_`.
pub open spec fn sanitized(s: Seq<char>) -> Seq<char> {
    s.map_values(
        |c: char|
            if needs_replacement(c) {
                '_'
            } else {
                c
            },
    )
}

/// A sequence name made safe for the downstream tools (see `sanitized`).
pub fn sanitize(s: &String) -> (r: String)
    ensures
        r@ == sanitized(s@),
{
    let cs = chars_of(s.as_str());
    let mut out = String::new();
    let mut i: usize = 0;
    while i < cs.len()
        invariant
            i <= cs@.len(),
            cs@ == s@,
            out@ == sanitized(s@).take(i as int),
        decreases cs@.len() - i,
    {
        let c = cs[i];
        if need_replacement(c) {
            push_char(&mut out, '_');
        } else {
            push_char(&mut out, c);
        }
        proof {
            assert(out@ =~= sanitized(s@).take(i + 1));
        }
        i = i + 1;
    }
    proof {
        assert(sanitized(s@).take(i as int) =~= sanitized(s@));
    }
    out
}

/// Two lowercase hexadecimal digits per byte.
pub open spec fn hex_bytes(b: Seq<u8>) -> Seq<char>
    decreases b.len(),
{
    if b.len() == 0 {
        Seq::empty()
    } else {
        hex_bytes(b.drop_last()) + seq![hex_char(b.last() as nat / 16), hex_char(b.last() as nat % 16)]
    }
}

/// The name under which a sequence is stored: `unicore_` and the first ten
/// hexadecimal digits of the MD5 digest of its UTF-8 bytes.
pub open spec fn hashed_name(s: Seq<char>) -> Seq<char> {
    "unicore_"@ + hex_bytes(md5_of(vstd::utf8::encode_utf8(s)).take(5))
}

/// The name under which a sequence is stored (see `hashed_name`).
pub fn hashed_sequence_name(s: &String) -> (r: String)
    ensures
        r@ == hashed_name(s@),
{
    let bytes = s.as_str().as_bytes_vec();
    let d = md5_digest(bytes.as_slice());
    let mut out = String::from_str("unicore_");
    let ghost start = out@;
    let mut i: usize = 0;
    proof {
        assert(d@.take(0) =~= Seq::<u8>::empty());
    }
    while i < 5
        invariant
            i <= 5,
            d@.len() == 16,
            d@ == md5_of(vstd::utf8::encode_utf8(s@)),
            start == "unicore_"@,
            out@ == start + hex_bytes(d@.take(i as int)),
        decreases 5 - i,
    {
        let b = d[i];
        let hi = crate::lookup::hex_byte(b as usize);
        proof {
            assert(d@.take(i + 1).drop_last() =~= d@.take(i as int));
        }
        out.append(hi.as_str());
        proof {
            assert(out@ =~= start + hex_bytes(d@.take(i + 1)));
        }
        i = i + 1;
    }
    out
}

/// Number of UTF-8 bytes of a sequence.
pub open spec fn byte_len(s: Seq<char>) -> nat {
    vstd::utf8::encode_utf8(s).len()
}

/// A proteome database in the making: its sequences under their hashed names,
/// one mapping row `(hashed name, species, original name)` per accepted
/// sequence, and the names of the sequences too short to keep.
pub struct Proteome {
    pub sequences: FastaStore,
    pub mapping: Vec<(String, String, String)>,
    pub too_short: Vec<String>,
}

/// The contents of a list of string triples.
pub open spec fn triple_views(v: Seq<(String, String, String)>) -> Seq<(Seq<char>, Seq<char>, Seq<char>)> {
    v.map_values(|t: (String, String, String)| (t.0@, t.1@, t.2@))
}

/// A proteome's state as plain values.
pub type ProteomeView = (
    Seq<(Seq<char>, Seq<char>)>,
    Seq<(Seq<char>, Seq<char>, Seq<char>)>,
    Seq<Seq<char>>,
);

/// The proteome after one record of `species`: sequences longer than `max_len`
/// (in bytes) are left out, those under two bytes are noted as too short, and
/// the others are stored under their hashed name with a mapping row.
pub open spec fn add_step(
    st: ProteomeView,
    species: Seq<char>,
    rec: (Seq<char>, Seq<char>),
    max_len: Option<usize>,
) -> ProteomeView {
    let n = byte_len(rec.1);
    if max_len.is_some() && n > max_len.unwrap() {
        st
    } else if n < 2 {
        (st.0, st.1, st.2.push(rec.0))
    } else {
        let h = hashed_name(rec.1);
        (put(st.0, h, rec.1), st.1.push((h, species, sanitized(rec.0))), st.2)
    }
}

/// The proteome after the records `recs` of `species`.
pub open spec fn add_all(
    st: ProteomeView,
    species: Seq<char>,
    recs: Seq<(Seq<char>, Seq<char>)>,
    max_len: Option<usize>,
) -> ProteomeView
    decreases recs.len(),
{
    if recs.len() == 0 {
        st
    } else {
        add_step(add_all(st, species, recs.drop_last(), max_len), species, recs.last(), max_len)
    }
}

/// The text of a mapping: one line `hashed<TAB>species<TAB>name` per row.
pub open spec fn mapping_text(rows: Seq<(Seq<char>, Seq<char>, Seq<char>)>) -> Seq<char>
    decreases rows.len(),
{
    if rows.len() == 0 {
        Seq::empty()
    } else {
        let r = rows.last();
        mapping_text(rows.drop_last()) + r.0 + seq!['\t'] + r.1 + seq!['\t'] + r.2 + seq!['\n']
    }
}

impl Proteome {
    /// An empty proteome.
    pub fn new() -> (r: Proteome)
        ensures
            r.sequences.wf(),
            r.view() == (
                Seq::<(Seq<char>, Seq<char>)>::empty(),
                Seq::<(Seq<char>, Seq<char>, Seq<char>)>::empty(),
                Seq::<Seq<char>>::empty(),
            ),
    {
        let r = Proteome { sequences: FastaStore::new(), mapping: Vec::new(), too_short: Vec::new() };
        proof {
            assert(triple_views(r.mapping@) =~= Seq::<(Seq<char>, Seq<char>, Seq<char>)>::empty());
            assert(r.too_short@.map_values(|s: String| s@) =~= Seq::<Seq<char>>::empty());
        }
        r
    }

    /// The proteome as plain values.
    pub open spec fn view(&self) -> ProteomeView {
        (self.sequences@, triple_views(self.mapping@), self.too_short@.map_values(|s: String| s@))
    }

    /// Adds the records of one species' FASTA file (see `add_all`).
    pub fn add_species(&mut self, species: &String, records: &FastaStore, max_len: Option<usize>)
        requires
            old(self).sequences.wf(),
        ensures
            final(self).sequences.wf(),
            final(self).view() == add_all(old(self).view(), species@, records@, max_len),
    {
        let ghost start = self.view();
        let ghost recs = records@;
        let mut i: usize = 0;
        proof {
            assert(recs.take(0) =~= Seq::<(Seq<char>, Seq<char>)>::empty());
        }
        while i < records.len()
            invariant
                i <= recs.len(),
                recs == records@,
                self.sequences.wf(),
                self.view() == add_all(start, species@, recs.take(i as int), max_len),
            decreases recs.len() - i,
        {
            let seq = records.sequence(i);
            let name = records.id(i);
            let n = seq.as_str().as_bytes().len();
            proof {
                assert(recs.take(i + 1).drop_last() =~= recs.take(i as int));
                assert(recs.take(i + 1).last() == recs[i as int]);
                assert(n == byte_len(seq@));
            }
            let ghost before = self.view();
            let skip = match max_len {
                Some(m) => n > m,
                None => false,
            };
            if skip {
            } else if n < 2 {
                self.too_short.push(name.clone());
                proof {
                    assert(self.view().2 =~= before.2.push(name@));
                }
            } else {
                let h = hashed_sequence_name(seq);
                self.sequences.insert(h.clone(), seq.clone());
                self.mapping.push((h, species.clone(), sanitize(name)));
                proof {
                    assert(self.view().1 =~= before.1.push((hashed_name(seq@), species@, sanitized(name@))));
                }
            }
            i = i + 1;
        }
        proof {
            assert(recs.take(i as int) =~= recs);
        }
    }

    /// The text of the mapping (see `mapping_text`).
    pub fn mapping_text(&self) -> (r: String)
        ensures
            r@ == mapping_text(triple_views(self.mapping@)),
    {
        let ghost rows = triple_views(self.mapping@);
        let mut out = String::new();
        let mut i: usize = 0;
        proof {
            assert(rows.take(0) =~= Seq::<(Seq<char>, Seq<char>, Seq<char>)>::empty());
        }
        while i < self.mapping.len()
            invariant
                i <= self.mapping@.len(),
                rows == triple_views(self.mapping@),
                out@ == mapping_text(rows.take(i as int)),
            decreases self.mapping@.len() - i,
        {
            proof {
                assert(rows.take(i + 1).drop_last() =~= rows.take(i as int));
            }
            let r = &self.mapping[i];
            out.append(r.0.as_str());
            push_char(&mut out, '\t');
            out.append(r.1.as_str());
            push_char(&mut out, '\t');
            out.append(r.2.as_str());
            push_char(&mut out, '\n');
            proof {
                let v = rows[i as int];
                assert(out@ =~= mapping_text(rows.take(i as int)) + v.0 + seq!['\t'] + v.1 + seq!['\t']
                    + v.2 + seq!['\n']);
            }
            i = i + 1;
        }
        proof {
            assert(rows.take(i as int) =~= rows);
        }
        out
    }
}

} // verus!
