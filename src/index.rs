use vstd::prelude::*;
use std::collections::HashMap;

verus! {

broadcast use vstd::std_specs::hash::group_hash_axioms;

/// Modulus of the name hash: the largest prime below 2^32.
pub const HASH_MODULUS: u64 = 4294967291;

/// A polynomial hash of a name, used only to bucket names.
pub open spec fn name_hash(s: Seq<char>) -> nat
    decreases s.len(),
{
    if s.len() == 0 {
        0
    } else {
        ((name_hash(s.drop_last()) * 31 + (s.last() as u32) as nat) % (HASH_MODULUS as nat)) as nat
    }
}

proof fn lemma_name_hash_bound(s: Seq<char>)
    ensures
        name_hash(s) < HASH_MODULUS,
{
}

/// The hash of a name (see `name_hash`).
pub fn hash_name(s: &String) -> (r: u64)
    ensures
        r as nat == name_hash(s@),
{
    let mut h: u64 = 0;
    let ghost v = s@;
    for c in it: s.as_str().chars()
        invariant
            it.seq() == v,
            h as nat == name_hash(v.take(it.index() as int)),
            h < HASH_MODULUS,
    {
        proof {
            assert(v.take(it.index() + 1).drop_last() =~= v.take(it.index() as int));
        }
        h = (h * 31 + (c as u32) as u64) % HASH_MODULUS;
    }
    proof {
        assert(v.take(v.len() as int) =~= v);
    }
    h
}

/// Distinct names, each with its position; finding a name takes one hash lookup
/// and a few comparisons.
pub struct NameIndex {
    names: Vec<String>,
    buckets: HashMap<u64, Vec<usize>>,
}

impl View for NameIndex {
    type V = Seq<Seq<char>>;

    closed spec fn view(&self) -> Seq<Seq<char>> {
        self.names@.map_values(|s: String| s@)
    }
}

/// Whether the bucket `b` holds position `i`.
pub open spec fn bucket_has(b: Seq<usize>, i: int) -> bool {
    exists|q: int| 0 <= q < b.len() && b[q] as int == i
}

/// No two entries of `names` are equal.
pub open spec fn distinct_names(names: Seq<Seq<char>>) -> bool {
    forall|i: int, j: int| 0 <= i < names.len() && 0 <= j < names.len() && i != j ==> names[i] != names[j]
}

impl NameIndex {
    /// The index's invariant: its names are distinct, and the buckets hold the
    /// position of each name under the name's hash, and nothing else.
    pub closed spec fn wf(&self) -> bool {
        &&& distinct_names(self@)
        &&& forall|i: int|
            0 <= i < self.names@.len() ==> {
                let k = name_hash(#[trigger] self.names@[i]@) as u64;
                &&& self.buckets@.contains_key(k)
                &&& bucket_has(self.buckets@[k]@, i)
            }
        &&& forall|k: u64, q: int|
            self.buckets@.contains_key(k) && 0 <= q < self.buckets@[k]@.len() ==> {
                let i = #[trigger] self.buckets@[k]@[q];
                &&& i < self.names@.len()
                &&& name_hash(self.names@[i as int]@) as u64 == k
            }
    }

    /// The names of a well-formed index are distinct.
    pub proof fn lemma_distinct(&self)
        requires
            self.wf(),
        ensures
            distinct_names(self@),
    {
    }

    /// An empty index.
    pub fn new() -> (r: NameIndex)
        ensures
            r.wf(),
            r@ == Seq::<Seq<char>>::empty(),
    {
        let r = NameIndex { names: Vec::new(), buckets: HashMap::new() };
        proof {
            assert(r@ =~= Seq::<Seq<char>>::empty());
        }
        r
    }

    /// Number of names.
    pub fn len(&self) -> (r: usize)
        ensures
            r == self@.len(),
    {
        self.names.len()
    }

    /// Name at position `i`.
    pub fn name(&self, i: usize) -> (r: &String)
        requires
            i < self@.len(),
        ensures
            r@ == self@[i as int],
    {
        &self.names[i]
    }

    /// Position of `s`, if it is in the index.
    pub fn find(&self, s: &String) -> (r: Option<usize>)
        requires
            self.wf(),
        ensures
            match r {
                Some(i) => i < self@.len() && self@[i as int] == s@,
                None => !self@.contains(s@),
            },
    {
        let h = hash_name(s);
        match self.buckets.get(&h) {
            Some(b) => {
                let mut q: usize = 0;
                while q < b.len()
                    invariant
                        self.wf(),
                        self.buckets@.contains_key(h),
                        *b == self.buckets@[h],
                        h as nat == name_hash(s@),
                        q <= b@.len(),
                        forall|p: int| 0 <= p < q ==> self@[b@[p] as int] != s@,
                    decreases b@.len() - q,
                {
                    let i = b[q];
                    proof {
                        assert(0 <= q < self.buckets@[h]@.len());
                        assert(self.buckets@[h]@[q as int] == i);
                        assert(i < self.names@.len());
                        assert(self@[i as int] == self.names@[i as int]@);
                    }
                    if self.names[i] == *s {
                        proof {
                            assert(self.names@[i as int]@ == s@);
                            assert(self@[i as int] == s@);
                        }
                        return Some(i);
                    }
                    q = q + 1;
                }
                proof {
                    lemma_name_hash_bound(s@);
                    assert(name_hash(s@) as u64 == h);
                    if self@.contains(s@) {
                        let i = choose|i: int| 0 <= i < self@.len() && self@[i] == s@;
                        assert(self.names@[i]@ == s@);
                        assert(bucket_has(self.buckets@[h]@, i));
                        let p = choose|p: int| 0 <= p < b@.len() && b@[p] as int == i;
                        assert(b@[p] as int == i);
                        assert(self@[b@[p] as int] != s@);
                        assert(false);
                    }
                }
                None
            },
            None => {
                proof {
                    lemma_name_hash_bound(s@);
                    assert(name_hash(s@) as u64 == h);
                    assert(!self.buckets@.contains_key(h));
                    if self@.contains(s@) {
                        let i = choose|i: int| 0 <= i < self@.len() && self@[i] == s@;
                        assert(self.names@[i]@ == s@);
                    }
                }
                None
            },
        }
    }

    /// Adds `s` at the end, unless it is already there; returns its position.
    pub fn intern(&mut self, s: String) -> (r: usize)
        requires
            old(self).wf(),
        ensures
            final(self).wf(),
            old(self)@.contains(s@) ==> final(self)@ == old(self)@,
            !old(self)@.contains(s@) ==> final(self)@ == old(self)@.push(s@),
            r < final(self)@.len(),
            final(self)@[r as int] == s@,
    {
        match self.find(&s) {
            Some(i) => i,
            None => {
                let h = hash_name(&s);
                let i = self.names.len();
                let ghost old_names = self.names@;
                let ghost old_view = self@;
                let ghost old_buckets = self.buckets@;
                let mut b = match self.buckets.get(&h) {
                    Some(b) => b.clone(),
                    None => Vec::new(),
                };
                proof {
                    if old_buckets.contains_key(h) {
                        assert(b@ == old_buckets[h]@);
                    }
                }
                b.push(i);
                self.buckets.insert(h, b);
                self.names.push(s);
                proof {
                    assert(self@ =~= old_view.push(self.names@[i as int]@));
                    assert forall|a: int| 0 <= a < self.names@.len() implies {
                        let k = name_hash(#[trigger] self.names@[a]@) as u64;
                        &&& self.buckets@.contains_key(k)
                        &&& bucket_has(self.buckets@[k]@, a)
                    } by {
                        let k = name_hash(self.names@[a]@) as u64;
                        if a < i {
                            assert(self.names@[a] == old_names[a]);
                            if k == h {
                                let p = choose|p: int|
                                    0 <= p < old_buckets[k]@.len() && old_buckets[k]@[p] as int == a;
                                assert(self.buckets@[k]@[p] as int == a);
                            } else {
                                assert(self.buckets@[k] == old_buckets[k]);
                            }
                        } else {
                            assert(self.buckets@[h]@[self.buckets@[h]@.len() - 1] as int == a);
                        }
                    }
                    assert forall|k: u64, q: int|
                        self.buckets@.contains_key(k) && 0 <= q < self.buckets@[k]@.len() implies {
                        let a = #[trigger] self.buckets@[k]@[q];
                        &&& a < self.names@.len()
                        &&& name_hash(self.names@[a as int]@) as u64 == k
                    } by {
                        if k == h {
                            if q < self.buckets@[k]@.len() - 1 {
                                assert(self.buckets@[k]@[q] == old_buckets[k]@[q]);
                            }
                        } else {
                            assert(self.buckets@[k] == old_buckets[k]);
                        }
                    }
                    assert forall|a: int, c: int|
                        0 <= a < self@.len() && 0 <= c < self@.len() && a != c implies self@[a]
                        != self@[c] by {
                        if a < i && c < i {
                            assert(self@[a] == old_view[a]);
                            assert(self@[c] == old_view[c]);
                        } else if a < i {
                            assert(self@[a] == old_view[a]);
                        } else if c < i {
                            assert(self@[c] == old_view[c]);
                        }
                    }
                }
                i
            },
        }
    }
}

} // verus!
