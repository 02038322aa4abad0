use vstd::prelude::*;
use std::collections::HashMap;
use crate::fasta::FastaStore;
use crate::table::LineError;
use crate::text::{char_vec_views, lines, lines_of, pieces, split_on, string_of};
use vstd::string::StrSliceExecFns;

verus! {

broadcast use vstd::std_specs::hash::group_hash_axioms;

/// The MD5 digest of a byte string.
pub uninterp spec fn md5_of(data: Seq<u8>) -> Seq<u8>;

/// Relies on md5::compute: the 16 bytes of the MD5 digest of `data`.
#[verifier::external_body]
pub(crate) fn md5_digest(data: &[u8]) -> (r: Vec<u8>)
    ensures
        r@ == md5_of(data@),
        r@.len() == 16,
{
    md5::compute(data).0.to_vec()
}

/// The bytes that are hashed for a sequence: its UTF-8 encoding and a line feed.
pub open spec fn hash_input(s: Seq<char>) -> Seq<u8> {
    vstd::utf8::encode_utf8(s).push(10u8)
}

/// The digest of a sequence.
pub open spec fn seq_digest(s: Seq<char>) -> Seq<u8> {
    md5_of(hash_input(s))
}

/// `16^n`.
pub open spec fn pow16(n: nat) -> nat
    decreases n,
{
    if n == 0 {
        1
    } else {
        16 * pow16((n - 1) as nat)
    }
}

/// `256^n`.
pub open spec fn pow256(n: nat) -> nat
    decreases n,
{
    if n == 0 {
        1
    } else {
        256 * pow256((n - 1) as nat)
    }
}

/// The bytes of `d` read as a big-endian number.
pub open spec fn digest_value(d: Seq<u8>) -> nat
    decreases d.len(),
{
    if d.len() == 0 {
        0
    } else {
        digest_value(d.drop_last()) * 256 + d.last() as nat
    }
}

/// The bucket of a sequence: the first byte of its digest.
pub open spec fn bucket_of(s: Seq<char>) -> nat {
    seq_digest(s)[0] as nat
}

/// The lookup key of a sequence: its digest as a 128-bit number.
pub open spec fn key_of(s: Seq<char>) -> nat {
    digest_value(seq_digest(s))
}

/// Whether `c` is a lowercase hexadecimal digit.
pub open spec fn is_hex_digit(c: char) -> bool {
    ('0' <= c && c <= '9') || ('a' <= c && c <= 'f')
}

/// Value of a lowercase hexadecimal digit.
pub open spec fn hex_digit_value(c: char) -> nat {
    if '0' <= c && c <= '9' {
        (c as u32 - '0' as u32) as nat
    } else {
        (c as u32 - 'a' as u32 + 10) as nat
    }
}

/// Value of a string of lowercase hexadecimal digits.
pub open spec fn hex_value(s: Seq<char>) -> nat
    decreases s.len(),
{
    if s.len() == 0 {
        0
    } else {
        hex_value(s.drop_last()) * 16 + hex_digit_value(s.last())
    }
}

/// Whether `s` writes a digest: 32 lowercase hexadecimal digits.
pub open spec fn is_digest_text(s: Seq<char>) -> bool {
    s.len() == 32 && forall|i: int| 0 <= i < 32 ==> is_hex_digit(#[trigger] s[i])
}

proof fn lemma_pow256_16()
    ensures
        pow256(16) == 0x1_0000_0000_0000_0000_0000_0000_0000_0000,
{
    reveal_with_fuel(pow256, 17);
}

proof fn lemma_pow16_32()
    ensures
        pow16(32) == 0x1_0000_0000_0000_0000_0000_0000_0000_0000,
{
    reveal_with_fuel(pow16, 33);
}

/// A digest as a number (see `digest_value`).
fn digest_number(d: &Vec<u8>) -> (r: u128)
    requires
        d@.len() == 16,
    ensures
        r as nat == digest_value(d@),
{
    let mut v: u128 = 0;
    let mut i: usize = 0;
    proof {
        assert(d@.take(0) =~= Seq::<u8>::empty());
        lemma_pow256_16();
    }
    while i < 16
        invariant
            i <= 16,
            d@.len() == 16,
            v as nat == digest_value(d@.take(i as int)),
            (v as nat) < pow256(i as nat),
            pow256(16) == 0x1_0000_0000_0000_0000_0000_0000_0000_0000,
        decreases 16 - i,
    {
        proof {
            assert(d@.take(i + 1).drop_last() =~= d@.take(i as int));
            lemma_pow256_mono(i as nat + 1, 16);
            assert((v as nat) * 256 + (d[i as int] as nat) < pow256(i as nat + 1)) by (nonlinear_arith)
                requires
                    (v as nat) < pow256(i as nat),
                    pow256(i as nat + 1) == 256 * pow256(i as nat),
                    d[i as int] < 256,
            ;
        }
        v = v * 256 + d[i] as u128;
        i = i + 1;
    }
    proof {
        assert(d@.take(16) =~= d@);
    }
    v
}

proof fn lemma_pow256_mono(a: nat, b: nat)
    requires
        a <= b,
    ensures
        pow256(a) <= pow256(b),
    decreases b,
{
    if a < b {
        lemma_pow256_mono(a, (b - 1) as nat);
    }
}

proof fn lemma_pow16_mono(a: nat, b: nat)
    requires
        a <= b,
    ensures
        pow16(a) <= pow16(b),
    decreases b,
{
    if a < b {
        lemma_pow16_mono(a, (b - 1) as nat);
    }
}

/// The number that a digest text writes, if `v` is one (see `is_digest_text`).
pub fn parse_digest_text(v: &Vec<char>) -> (r: Option<u128>)
    ensures
        match r {
            Some(k) => is_digest_text(v@) && k as nat == hex_value(v@),
            None => !is_digest_text(v@),
        },
{
    if v.len() != 32 {
        return None;
    }
    let mut acc: u128 = 0;
    let mut i: usize = 0;
    proof {
        assert(v@.take(0) =~= Seq::<char>::empty());
        lemma_pow16_32();
    }
    while i < 32
        invariant
            i <= 32,
            v@.len() == 32,
            forall|j: int| 0 <= j < i ==> is_hex_digit(#[trigger] v@[j]),
            acc as nat == hex_value(v@.take(i as int)),
            (acc as nat) < pow16(i as nat),
            pow16(32) == 0x1_0000_0000_0000_0000_0000_0000_0000_0000,
        decreases 32 - i,
    {
        let c = v[i];
        let d: u128 = if '0' <= c && c <= '9' {
            (c as u32 - '0' as u32) as u128
        } else if 'a' <= c && c <= 'f' {
            (c as u32 - 'a' as u32 + 10) as u128
        } else {
            return None;
        };
        proof {
            assert(v@.take(i + 1).drop_last() =~= v@.take(i as int));
            assert(d as nat == hex_digit_value(c));
            assert(d < 16);
            lemma_pow16_mono(i as nat + 1, 32);
            assert((acc as nat) * 16 + (d as nat) < pow16(i as nat + 1)) by (nonlinear_arith)
                requires
                    (acc as nat) < pow16(i as nat),
                    pow16(i as nat + 1) == 16 * pow16(i as nat),
                    d < 16,
            ;
        }
        acc = acc * 16 + d;
        i = i + 1;
    }
    proof {
        assert(v@.take(32) =~= v@);
    }
    Some(acc)
}

/// A sequence waiting in a bucket: its identifier, its residues and its key.
pub struct BucketEntry {
    pub id: String,
    pub seq: String,
    pub key: u128,
}

/// The contents of a list of bucket entries.
pub open spec fn entry_views(v: Seq<BucketEntry>) -> Seq<(Seq<char>, Seq<char>, nat)> {
    v.map_values(|e: BucketEntry| (e.id@, e.seq@, e.key as nat))
}

/// The records of `recs` that fall in bucket `b`, in order, with their keys.
pub open spec fn bucket(recs: Seq<(Seq<char>, Seq<char>)>, b: nat) -> Seq<(Seq<char>, Seq<char>, nat)>
    decreases recs.len(),
{
    if recs.len() == 0 {
        Seq::empty()
    } else {
        let rest = bucket(recs.drop_last(), b);
        let r = recs.last();
        if bucket_of(r.1) == b {
            rest.push((r.0, r.1, key_of(r.1)))
        } else {
            rest
        }
    }
}

/// Number of buckets.
pub const BUCKETS: usize = 256;

/// The digest of a sequence (see `seq_digest`).
fn sequence_digest(s: &String) -> (r: Vec<u8>)
    ensures
        r@ == seq_digest(s@),
        r@.len() == 16,
{
    let mut bytes = s.as_str().as_bytes_vec();
    bytes.push(10u8);
    md5_digest(bytes.as_slice())
}

/// Splits a store into its buckets by digest (see `bucket`).
pub fn split_into_buckets(store: &FastaStore) -> (r: Vec<Vec<BucketEntry>>)
    ensures
        r@.len() == BUCKETS,
        forall|b: int| 0 <= b < BUCKETS ==> entry_views((#[trigger] r@[b])@) == bucket(store@, b as nat),
{
    let mut buckets: Vec<Vec<BucketEntry>> = Vec::new();
    let mut b: usize = 0;
    while b < BUCKETS
        invariant
            b <= BUCKETS,
            buckets@.len() == b,
            forall|j: int| 0 <= j < b ==> (#[trigger] buckets@[j])@.len() == 0,
        decreases BUCKETS - b,
    {
        buckets.push(Vec::new());
        b = b + 1;
    }
    let ghost recs = store@;
    let mut i: usize = 0;
    proof {
        assert(recs.take(0) =~= Seq::<(Seq<char>, Seq<char>)>::empty());
        assert forall|j: int| 0 <= j < BUCKETS implies entry_views((#[trigger] buckets@[j])@) == bucket(
            recs.take(0),
            j as nat,
        ) by {
            assert(entry_views(buckets@[j]@) =~= Seq::<(Seq<char>, Seq<char>, nat)>::empty());
        }
    }
    while i < store.len()
        invariant
            i <= recs.len(),
            recs == store@,
            buckets@.len() == BUCKETS,
            forall|j: int| 0 <= j < BUCKETS ==> entry_views((#[trigger] buckets@[j])@) == bucket(
                recs.take(i as int),
                j as nat,
            ),
        decreases recs.len() - i,
    {
        let seq = store.sequence(i);
        let d = sequence_digest(seq);
        let k = d[0] as usize;
        let key = digest_number(&d);
        let e = BucketEntry { id: store.id(i).clone(), seq: seq.clone(), key };
        proof {
            assert(recs.take(i + 1).drop_last() =~= recs.take(i as int));
            assert(recs.take(i + 1).last() == recs[i as int]);
        }
        let ghost old_b = buckets@;
        let mut list = Vec::new();
        std::mem::swap(&mut list, &mut buckets[k]);
        let ghost before = entry_views(list@);
        list.push(e);
        std::mem::swap(&mut list, &mut buckets[k]);
        proof {
            assert(entry_views(buckets@[k as int]@) =~= before.push(
                (recs[i as int].0, recs[i as int].1, key_of(recs[i as int].1)),
            ));
            assert forall|j: int| 0 <= j < BUCKETS implies entry_views((#[trigger] buckets@[j])@) == bucket(
                recs.take(i + 1),
                j as nat,
            ) by {
                if j != k {
                    assert(buckets@[j] == old_b[j]);
                }
            }
        }
        i = i + 1;
    }
    proof {
        assert(recs.take(i as int) =~= recs);
    }
    buckets
}

} // verus!

verus! {

/// Whether a table line has a tab, so a key and a value.
pub open spec fn table_line_ok(l: Seq<char>) -> bool {
    split_on(l, '\t').len() >= 2
}

/// The entries of a lookup table's lines: each line `key<TAB>value` whose key is a
/// digest text maps the key's number to the value; a later line wins.
pub open spec fn table_map(ls: Seq<Seq<char>>) -> Map<nat, Seq<char>>
    decreases ls.len(),
{
    if ls.len() == 0 {
        Map::empty()
    } else {
        let m = table_map(ls.drop_last());
        let p = split_on(ls.last(), '\t');
        if is_digest_text(p[0]) {
            m.insert(hex_value(p[0]), p[1])
        } else {
            m
        }
    }
}

/// A lookup table: converted values keyed by digest.
pub struct LookupTable {
    map: HashMap<u128, String>,
    contents: Ghost<Map<nat, Seq<char>>>,
}

impl LookupTable {
    /// The table's entries.
    pub closed spec fn contents(&self) -> Map<nat, Seq<char>> {
        self.contents@
    }

    /// The table's invariant: the hash map holds exactly its entries.
    pub closed spec fn wf(&self) -> bool {
        &&& forall|k: u128| #[trigger] self.map@.contains_key(k) <==> self.contents@.contains_key(k as nat)
        &&& forall|k: u128| #[trigger] self.map@.contains_key(k) ==> self.map@[k]@ == self.contents@[k as nat]
        &&& forall|k: nat| #[trigger] self.contents@.contains_key(k) ==> k <= u128::MAX
    }

    /// Reads a lookup table; fails on the first line without a tab.
    pub fn parse(text: &str) -> (r: Result<LookupTable, LineError>)
        ensures
            match r {
                Ok(t) => t.wf() && t.contents() == table_map(lines_of(text@)) && forall|i: int|
                    0 <= i < lines_of(text@).len() ==> table_line_ok(#[trigger] lines_of(text@)[i]),
                Err(e) => 1 <= e.line <= lines_of(text@).len() && !table_line_ok(
                    lines_of(text@)[e.line - 1],
                ) && forall|i: int| 0 <= i < e.line - 1 ==> table_line_ok(#[trigger] lines_of(text@)[i]),
            },
    {
        let ls = lines(text);
        let ghost lv = char_vec_views(ls@);
        let mut t = LookupTable { map: HashMap::new(), contents: Ghost(Map::empty()) };
        let mut i: usize = 0;
        proof {
            assert(lv.take(0) =~= Seq::<Seq<char>>::empty());
        }
        while i < ls.len()
            invariant
                i <= ls@.len(),
                lv == char_vec_views(ls@),
                lv == lines_of(text@),
                t.wf(),
                t.contents@ == table_map(lv.take(i as int)),
                forall|j: int| 0 <= j < i ==> table_line_ok(#[trigger] lv[j]),
            decreases ls@.len() - i,
        {
            let p = pieces(&ls[i], '\t');
            proof {
                assert(ls@[i as int]@ == lv[i as int]);
                assert(lv.take(i + 1).drop_last() =~= lv.take(i as int));
                assert(lv.take(i + 1).last() == lv[i as int]);
            }
            if p.len() < 2 {
                return Err(LineError { line: i + 1 });
            }
            proof {
                assert(p@[0]@ == char_vec_views(p@)[0]);
                assert(p@[1]@ == char_vec_views(p@)[1]);
            }
            match parse_digest_text(&p[0]) {
                Some(k) => {
                    let v = string_of(&p[1], 0, p[1].len());
                    proof {
                        assert(p@[1]@.subrange(0, p@[1]@.len() as int) =~= p@[1]@);
                    }
                    t.map.insert(k, v);
                    t.contents = Ghost(t.contents@.insert(k as nat, v@));
                },
                None => {},
            }
            i = i + 1;
        }
        proof {
            assert(lv.take(i as int) =~= lv);
        }
        Ok(t)
    }

    /// The value under key `k`, if any.
    pub fn get(&self, k: u128) -> (r: Option<&String>)
        requires
            self.wf(),
        ensures
            match r {
                Some(v) => self.contents().contains_key(k as nat) && v@ == self.contents()[k as nat],
                None => !self.contents().contains_key(k as nat),
            },
    {
        self.map.get(&k)
    }
}

/// `(id, sequence)` of each entry whose key the table has, in order.
pub open spec fn found(es: Seq<(Seq<char>, Seq<char>, nat)>, t: Map<nat, Seq<char>>) -> Seq<
    (Seq<char>, Seq<char>),
>
    decreases es.len(),
{
    if es.len() == 0 {
        Seq::empty()
    } else {
        let e = es.last();
        if t.contains_key(e.2) {
            found(es.drop_last(), t).push((e.0, e.1))
        } else {
            found(es.drop_last(), t)
        }
    }
}

/// `(id, converted value)` of each entry whose key the table has, in order.
pub open spec fn converted(es: Seq<(Seq<char>, Seq<char>, nat)>, t: Map<nat, Seq<char>>) -> Seq<
    (Seq<char>, Seq<char>),
>
    decreases es.len(),
{
    if es.len() == 0 {
        Seq::empty()
    } else {
        let e = es.last();
        if t.contains_key(e.2) {
            converted(es.drop_last(), t).push((e.0, t[e.2]))
        } else {
            converted(es.drop_last(), t)
        }
    }
}

/// `(id, sequence)` of each entry whose key the table lacks, in order.
pub open spec fn missing(es: Seq<(Seq<char>, Seq<char>, nat)>, t: Map<nat, Seq<char>>) -> Seq<
    (Seq<char>, Seq<char>),
>
    decreases es.len(),
{
    if es.len() == 0 {
        Seq::empty()
    } else {
        let e = es.last();
        if t.contains_key(e.2) {
            missing(es.drop_last(), t)
        } else {
            missing(es.drop_last(), t).push((e.0, e.1))
        }
    }
}

/// Where the entries of one bucket went.
pub struct Resolved {
    /// `(id, sequence)` of the entries found in the table.
    pub found: Vec<(String, String)>,
    /// `(id, converted value)` of the entries found in the table.
    pub converted: Vec<(String, String)>,
    /// `(id, sequence)` of the entries not in the table.
    pub missing: Vec<(String, String)>,
}

/// Looks each entry of a bucket up in its table (see `found`, `converted`, `missing`).
pub fn resolve_bucket(entries: &Vec<BucketEntry>, table: &LookupTable) -> (r: Resolved)
    requires
        table.wf(),
    ensures
        crate::profile::pair_views(r.found@) == found(entry_views(entries@), table.contents()),
        crate::profile::pair_views(r.converted@) == converted(entry_views(entries@), table.contents()),
        crate::profile::pair_views(r.missing@) == missing(entry_views(entries@), table.contents()),
{
    let ghost ev = entry_views(entries@);
    let ghost t = table.contents();
    let mut r = Resolved { found: Vec::new(), converted: Vec::new(), missing: Vec::new() };
    let mut i: usize = 0;
    proof {
        assert(ev.take(0) =~= Seq::<(Seq<char>, Seq<char>, nat)>::empty());
        assert(crate::profile::pair_views(r.found@) =~= Seq::<(Seq<char>, Seq<char>)>::empty());
        assert(crate::profile::pair_views(r.converted@) =~= Seq::<(Seq<char>, Seq<char>)>::empty());
        assert(crate::profile::pair_views(r.missing@) =~= Seq::<(Seq<char>, Seq<char>)>::empty());
    }
    while i < entries.len()
        invariant
            i <= entries@.len(),
            ev == entry_views(entries@),
            t == table.contents(),
            table.wf(),
            crate::profile::pair_views(r.found@) == found(ev.take(i as int), t),
            crate::profile::pair_views(r.converted@) == converted(ev.take(i as int), t),
            crate::profile::pair_views(r.missing@) == missing(ev.take(i as int), t),
        decreases entries@.len() - i,
    {
        let e = &entries[i];
        proof {
            assert(ev.take(i + 1).drop_last() =~= ev.take(i as int));
            assert(ev.take(i + 1).last() == (e.id@, e.seq@, e.key as nat));
        }
        let ghost f0 = crate::profile::pair_views(r.found@);
        let ghost c0 = crate::profile::pair_views(r.converted@);
        let ghost m0 = crate::profile::pair_views(r.missing@);
        match table.get(e.key) {
            Some(v) => {
                r.found.push((e.id.clone(), e.seq.clone()));
                r.converted.push((e.id.clone(), v.clone()));
                proof {
                    assert(crate::profile::pair_views(r.found@) =~= f0.push((e.id@, e.seq@)));
                    assert(crate::profile::pair_views(r.converted@) =~= c0.push((e.id@, t[e.key as nat])));
                    assert(crate::profile::pair_views(r.missing@) =~= m0);
                }
            },
            None => {
                r.missing.push((e.id.clone(), e.seq.clone()));
                proof {
                    assert(crate::profile::pair_views(r.missing@) =~= m0.push((e.id@, e.seq@)));
                }
            },
        }
        i = i + 1;
    }
    proof {
        assert(ev.take(i as int) =~= ev);
    }
    r
}

/// Number of occurrences of `x` in `s`.
pub open spec fn occurrences(s: Seq<(Seq<char>, Seq<char>)>, x: (Seq<char>, Seq<char>)) -> nat
    decreases s.len(),
{
    if s.len() == 0 {
        0
    } else {
        occurrences(s.drop_last(), x) + if s.last() == x {
            1nat
        } else {
            0nat
        }
    }
}

/// `(id, sequence)` of each entry, in order.
pub open spec fn entry_records(es: Seq<(Seq<char>, Seq<char>, nat)>) -> Seq<(Seq<char>, Seq<char>)> {
    es.map_values(|e: (Seq<char>, Seq<char>, nat)| (e.0, e.1))
}

/// Each entry of a bucket ends up either among the found ones or among the
/// missing ones, never both and never neither: for every record, its
/// occurrences in the two outputs add up to its occurrences in the bucket.
pub proof fn lemma_resolve_partition(es: Seq<(Seq<char>, Seq<char>, nat)>, t: Map<nat, Seq<char>>)
    ensures
        forall|x: (Seq<char>, Seq<char>)|
            #[trigger] occurrences(found(es, t), x) + occurrences(missing(es, t), x) == occurrences(
                entry_records(es),
                x,
            ),
        found(es, t).len() + missing(es, t).len() == es.len(),
    decreases es.len(),
{
    if es.len() > 0 {
        lemma_resolve_partition(es.drop_last(), t);
        assert(entry_records(es).drop_last() =~= entry_records(es.drop_last()));
        assert forall|x: (Seq<char>, Seq<char>)|
            #[trigger] occurrences(found(es, t), x) + occurrences(missing(es, t), x) == occurrences(
                entry_records(es),
                x,
            ) by {
            let e = es.last();
            if t.contains_key(e.2) {
                assert(found(es, t).drop_last() =~= found(es.drop_last(), t));
            } else {
                assert(missing(es, t).drop_last() =~= missing(es.drop_last(), t));
            }
            assert(occurrences(found(es.drop_last(), t), x) + occurrences(missing(es.drop_last(), t), x)
                == occurrences(entry_records(es.drop_last()), x));
        }
    }
}

/// Every record of a store lies in the bucket of its digest's first byte and in
/// no other.
pub proof fn lemma_bucket_partition(recs: Seq<(Seq<char>, Seq<char>)>, b: nat)
    ensures
        forall|x: (Seq<char>, Seq<char>)|
            #[trigger] occurrences(entry_records(bucket(recs, b)), x) == if bucket_of(x.1) == b {
                occurrences(recs, x)
            } else {
                0
            },
    decreases recs.len(),
{
    if recs.len() > 0 {
        lemma_bucket_partition(recs.drop_last(), b);
        assert forall|x: (Seq<char>, Seq<char>)|
            #[trigger] occurrences(entry_records(bucket(recs, b)), x) == if bucket_of(x.1) == b {
                occurrences(recs, x)
            } else {
                0
            } by {
            let r = recs.last();
            if bucket_of(r.1) == b {
                assert(entry_records(bucket(recs, b)).drop_last() =~= entry_records(
                    bucket(recs.drop_last(), b),
                ));
            } else {
                assert(entry_records(bucket(recs, b)) =~= entry_records(bucket(recs.drop_last(), b)));
            }
            assert(occurrences(entry_records(bucket(recs.drop_last(), b)), x) == if bucket_of(x.1) == b {
                occurrences(recs.drop_last(), x)
            } else {
                0
            });
        }
    }
}

/// `b` as two lowercase hexadecimal digits.
pub open spec fn hex_pair(b: nat) -> Seq<char> {
    seq![hex_char(b / 16), hex_char(b % 16)]
}

/// The lowercase hexadecimal digit for `d < 16`.
pub open spec fn hex_char(d: nat) -> char {
    if d < 10 {
        (('0' as u32) + d) as char
    } else {
        (('a' as u32) + d - 10) as char
    }
}

/// `b` as two lowercase hexadecimal digits (see `hex_pair`); the lookup table of
/// bucket `b` is named after it.
pub fn hex_byte(b: usize) -> (r: String)
    requires
        b < BUCKETS,
    ensures
        r@ == hex_pair(b as nat),
{
    let digits = ['0', '1', '2', '3', '4', '5', '6', '7', '8', '9', 'a', 'b', 'c', 'd', 'e', 'f'];
    let mut s = String::new();
    let hi = digits[b / 16];
    let lo = digits[b % 16];
    proof {
        assert(hi == hex_char((b / 16) as nat)) by {
            assert(digits@ == seq!['0', '1', '2', '3', '4', '5', '6', '7', '8', '9', 'a', 'b', 'c', 'd', 'e', 'f']);
        }
        assert(lo == hex_char((b % 16) as nat)) by {
            assert(digits@ == seq!['0', '1', '2', '3', '4', '5', '6', '7', '8', '9', 'a', 'b', 'c', 'd', 'e', 'f']);
        }
    }
    crate::text::push_char(&mut s, hi);
    crate::text::push_char(&mut s, lo);
    proof {
        assert(s@ =~= hex_pair(b as nat));
    }
    s
}

} // verus!

verus! {

/// The found records of buckets `0..n`, bucket by bucket, each bucket looked up
/// in its own table `tables(b)`.
pub open spec fn found_in_buckets(
    recs: Seq<(Seq<char>, Seq<char>)>,
    tables: spec_fn(nat) -> Map<nat, Seq<char>>,
    n: nat,
) -> Seq<(Seq<char>, Seq<char>)>
    decreases n,
{
    if n == 0 {
        Seq::empty()
    } else {
        found_in_buckets(recs, tables, (n - 1) as nat) + found(
            bucket(recs, (n - 1) as nat),
            tables((n - 1) as nat),
        )
    }
}

/// The missing records of buckets `0..n`, bucket by bucket.
pub open spec fn missing_in_buckets(
    recs: Seq<(Seq<char>, Seq<char>)>,
    tables: spec_fn(nat) -> Map<nat, Seq<char>>,
    n: nat,
) -> Seq<(Seq<char>, Seq<char>)>
    decreases n,
{
    if n == 0 {
        Seq::empty()
    } else {
        missing_in_buckets(recs, tables, (n - 1) as nat) + missing(
            bucket(recs, (n - 1) as nat),
            tables((n - 1) as nat),
        )
    }
}

proof fn lemma_occurrences_concat(
    a: Seq<(Seq<char>, Seq<char>)>,
    b: Seq<(Seq<char>, Seq<char>)>,
    x: (Seq<char>, Seq<char>),
)
    ensures
        occurrences(a + b, x) == occurrences(a, x) + occurrences(b, x),
    decreases b.len(),
{
    if b.len() == 0 {
        assert(a + b =~= a);
    } else {
        lemma_occurrences_concat(a, b.drop_last(), x);
        assert((a + b).drop_last() =~= a + b.drop_last());
        assert((a + b).last() == b.last());
    }
}

proof fn lemma_buckets_prefix(
    recs: Seq<(Seq<char>, Seq<char>)>,
    tables: spec_fn(nat) -> Map<nat, Seq<char>>,
    n: nat,
    x: (Seq<char>, Seq<char>),
)
    ensures
        occurrences(found_in_buckets(recs, tables, n), x) + occurrences(
            missing_in_buckets(recs, tables, n),
            x,
        ) == if bucket_of(x.1) < n {
            occurrences(recs, x)
        } else {
            0
        },
    decreases n,
{
    if n > 0 {
        let m = (n - 1) as nat;
        lemma_buckets_prefix(recs, tables, m, x);
        let b = bucket(recs, m);
        lemma_occurrences_concat(found_in_buckets(recs, tables, m), found(b, tables(m)), x);
        lemma_occurrences_concat(missing_in_buckets(recs, tables, m), missing(b, tables(m)), x);
        lemma_resolve_partition(b, tables(m));
        lemma_bucket_partition(recs, m);
    }
}

/// Splitting a whole store, bucket by bucket with each bucket's table, puts every
/// record either among the found ones or among the missing ones, never both and
/// never neither: its occurrences in the two outputs add up to its occurrences
/// in the store.
pub proof fn lemma_split_partition(
    recs: Seq<(Seq<char>, Seq<char>)>,
    tables: spec_fn(nat) -> Map<nat, Seq<char>>,
)
    ensures
        forall|x: (Seq<char>, Seq<char>)|
            #[trigger] occurrences(found_in_buckets(recs, tables, BUCKETS as nat), x) + occurrences(
                missing_in_buckets(recs, tables, BUCKETS as nat),
                x,
            ) == occurrences(recs, x),
{
    assert forall|x: (Seq<char>, Seq<char>)|
        #[trigger] occurrences(found_in_buckets(recs, tables, BUCKETS as nat), x) + occurrences(
            missing_in_buckets(recs, tables, BUCKETS as nat),
            x,
        ) == occurrences(recs, x) by {
        lemma_buckets_prefix(recs, tables, BUCKETS as nat, x);
        assert(bucket_of(x.1) < 256);
    }
}

} // verus!
