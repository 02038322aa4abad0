use vstd::prelude::*;
use crate::index::NameIndex;

verus! {

/// The contents of a list of string pairs.
pub open spec fn pair_views(v: Seq<(String, String)>) -> Seq<(Seq<char>, Seq<char>)> {
    v.map_values(|p: (String, String)| (p.0@, p.1@))
}

/// Whether some mapping row assigns gene `g` to species `s`.
pub open spec fn maps_to(rows: Seq<(Seq<char>, Seq<char>)>, g: Seq<char>, s: Seq<char>) -> bool {
    exists|i: int| 0 <= i < rows.len() && rows[i].0 == g && rows[i].1 == s
}

/// Whether some mapping row names gene `g`.
pub open spec fn has_gene(rows: Seq<(Seq<char>, Seq<char>)>, g: Seq<char>) -> bool {
    exists|i: int| 0 <= i < rows.len() && rows[i].0 == g
}

/// The species universe: every species of the mapping, in order of first appearance.
pub open spec fn universe(rows: Seq<(Seq<char>, Seq<char>)>) -> Seq<Seq<char>>
    decreases rows.len(),
{
    if rows.len() == 0 {
        Seq::empty()
    } else {
        let u = universe(rows.drop_last());
        if u.contains(rows.last().1) {
            u
        } else {
            u.push(rows.last().1)
        }
    }
}

/// Gene-to-species mapping rows, indexed for lookup.
pub struct SpeciesMap {
    genes: NameIndex,
    gene_species: Vec<Vec<usize>>,
    species: NameIndex,
    rows: Ghost<Seq<(Seq<char>, Seq<char>)>>,
}

impl SpeciesMap {
    /// The mapping rows this map was built from.
    pub closed spec fn rows(&self) -> Seq<(Seq<char>, Seq<char>)> {
        self.rows@
    }

    /// The map's invariant: its indexes agree with the rows it was built from.
    pub closed spec fn wf(&self) -> bool {
        &&& self.genes.wf()
        &&& self.species.wf()
        &&& self.species@ == universe(self.rows@)
        &&& self.gene_species@.len() == self.genes@.len()
        &&& forall|g: int, k: int|
            0 <= g < self.genes@.len() && 0 <= k < self.gene_species@[g]@.len() ==> (
            #[trigger] self.gene_species@[g]@[k]) < self.species@.len()
        &&& forall|g: int, k: int, l: int|
            0 <= g < self.genes@.len() && 0 <= k < l < self.gene_species@[g]@.len() ==> (
            #[trigger] self.gene_species@[g]@[k]) != (#[trigger] self.gene_species@[g]@[l])
        &&& forall|g: int, s: usize|
            0 <= g < self.genes@.len() && s < self.species@.len() ==> (
            #[trigger] self.gene_species@[g]@.contains(s) <==> maps_to(
                self.rows@,
                self.genes@[g],
                self.species@[s as int],
            ))
        &&& forall|x: Seq<char>| #[trigger] self.genes@.contains(x) <==> has_gene(self.rows@, x)
    }

    /// Number of species in the universe.
    pub fn species_count(&self) -> (r: usize)
        requires
            self.wf(),
        ensures
            r == universe(self.rows()).len(),
    {
        self.species.len()
    }

    /// Name of species `s`.
    pub fn species_name(&self, s: usize) -> (r: &String)
        requires
            self.wf(),
            s < universe(self.rows()).len(),
        ensures
            r@ == universe(self.rows())[s as int],
    {
        self.species.name(s)
    }

    /// Builds the map from mapping rows `(gene, species)`.
    pub fn from_rows(rows: &Vec<(String, String)>) -> (r: SpeciesMap)
        ensures
            r.wf(),
            r.rows() == pair_views(rows@),
    {
        let ghost rv = pair_views(rows@);
        let mut m = SpeciesMap {
            genes: NameIndex::new(),
            gene_species: Vec::new(),
            species: NameIndex::new(),
            rows: Ghost(rv.take(0)),
        };
        proof {
            assert(rv.take(0) =~= Seq::<(Seq<char>, Seq<char>)>::empty());
        }
        let mut i: usize = 0;
        while i < rows.len()
            invariant
                i <= rows@.len(),
                rv == pair_views(rows@),
                m.rows@ == rv.take(i as int),
                m.wf(),
            decreases rows@.len() - i,
        {
            let ghost old_m = m;
            let ghost row = rv[i as int];
            proof {
                assert(rv.take(i + 1) =~= rv.take(i as int).push(row));
            }
            let sid = m.species.intern(rows[i].1.clone());
            let gid = m.genes.intern(rows[i].0.clone());
            if gid == m.gene_species.len() {
                m.gene_species.push(Vec::new());
            }
            let mut list = m.gene_species[gid].clone();
            let mut present = false;
            let mut k: usize = 0;
            while k < list.len()
                invariant
                    k <= list@.len(),
                    present == (exists|q: int| 0 <= q < k && list@[q] == sid),
                decreases list@.len() - k,
            {
                if list[k] == sid {
                    present = true;
                }
                k = k + 1;
            }
            if !present {
                list.push(sid);
            }
            m.gene_species.set(gid, list);
            m.rows = Ghost(rv.take(i + 1));
            proof {
                lemma_species_map_step(old_m, m, row, sid, gid);
            }
            i = i + 1;
        }
        proof {
            assert(rv.take(i as int) =~= rv);
        }
        m
    }
}

proof fn lemma_species_map_step(
    old_m: SpeciesMap,
    m: SpeciesMap,
    row: (Seq<char>, Seq<char>),
    sid: usize,
    gid: usize,
)
    requires
        old_m.wf(),
        m.genes.wf(),
        m.species.wf(),
        m.rows@ == old_m.rows@.push(row),
        old_m.species@.contains(row.1) ==> m.species@ == old_m.species@,
        !old_m.species@.contains(row.1) ==> m.species@ == old_m.species@.push(row.1),
        sid < m.species@.len(),
        m.species@[sid as int] == row.1,
        old_m.genes@.contains(row.0) ==> m.genes@ == old_m.genes@,
        !old_m.genes@.contains(row.0) ==> m.genes@ == old_m.genes@.push(row.0),
        gid < m.genes@.len(),
        m.genes@[gid as int] == row.0,
        m.gene_species@.len() == m.genes@.len(),
        forall|g: int| 0 <= g < m.genes@.len() && g != gid ==> m.gene_species@[g] == old_m.gene_species@[g],
        gid < old_m.gene_species@.len() ==> (m.gene_species@[gid as int]@ == old_m.gene_species@[gid as int]@
            || m.gene_species@[gid as int]@ == old_m.gene_species@[gid as int]@.push(sid)),
        gid < old_m.gene_species@.len() ==> (old_m.gene_species@[gid as int]@.contains(sid) <==> m.gene_species@[gid as int]@ == old_m.gene_species@[gid as int]@),
        gid >= old_m.gene_species@.len() ==> m.gene_species@[gid as int]@ == seq![sid],
    ensures
        m.wf(),
{
    let rows = m.rows@;
    let old_rows = old_m.rows@;
    assert(rows.drop_last() =~= old_rows);
    assert(m.species@ == universe(rows));
    m.genes.lemma_distinct();
    assert forall|g: int, s: usize|
        0 <= g < m.genes@.len() && s < m.species@.len() implies (
        #[trigger] m.gene_species@[g]@.contains(s) <==> maps_to(
            rows,
            m.genes@[g],
            m.species@[s as int],
        )) by {
        lemma_step_pair(old_m, m, row, sid, gid, g, s);
    }
    assert forall|g: int, k: int|
        0 <= g < m.genes@.len() && 0 <= k < m.gene_species@[g]@.len() implies (
        #[trigger] m.gene_species@[g]@[k]) < m.species@.len() by {
        if g == gid && gid < old_m.gene_species@.len() && k < old_m.gene_species@[g]@.len() {
            assert(m.gene_species@[g]@[k] == old_m.gene_species@[g]@[k]);
        }
    }
    assert forall|g: int, k: int, l: int|
        0 <= g < m.genes@.len() && 0 <= k < l < m.gene_species@[g]@.len() implies (
        #[trigger] m.gene_species@[g]@[k]) != (#[trigger] m.gene_species@[g]@[l]) by {
        if g == gid && gid < old_m.gene_species@.len() {
            let old_list = old_m.gene_species@[g]@;
            if l < old_list.len() {
                assert(m.gene_species@[g]@[k] == old_list[k]);
                assert(m.gene_species@[g]@[l] == old_list[l]);
            } else if m.gene_species@[g]@ != old_list {
                assert(m.gene_species@[g]@[k] == old_list[k]);
                assert(!old_list.contains(sid));
            }
        }
    }
    assert forall|x: Seq<char>| #[trigger] m.genes@.contains(x) <==> has_gene(rows, x) by {
        assert(has_gene(rows, x) <==> (has_gene(old_rows, x) || x == row.0)) by {
            if has_gene(rows, x) {
                let i = choose|i: int| 0 <= i < rows.len() && rows[i].0 == x;
                if i < old_rows.len() {
                    assert(old_rows[i] == rows[i]);
                }
            }
            if has_gene(old_rows, x) {
                let i = choose|i: int| 0 <= i < old_rows.len() && old_rows[i].0 == x;
                assert(rows[i] == old_rows[i]);
            }
            if x == row.0 {
                assert(rows[rows.len() - 1] == row);
            }
        }
        assert(old_m.genes@.contains(x) <==> has_gene(old_rows, x));
        if m.genes@.contains(x) && !old_m.genes@.contains(row.0) {
            let i = choose|i: int| 0 <= i < m.genes@.len() && m.genes@[i] == x;
            if i < old_m.genes@.len() {
                assert(old_m.genes@[i] == x);
            }
        }
        if old_m.genes@.contains(x) && !old_m.genes@.contains(row.0) {
            let i = choose|i: int| 0 <= i < old_m.genes@.len() && old_m.genes@[i] == x;
            assert(m.genes@[i] == x);
        }
        if x == row.0 {
            assert(m.genes@[gid as int] == x);
        }
    }
}

proof fn lemma_step_pair(
    old_m: SpeciesMap,
    m: SpeciesMap,
    row: (Seq<char>, Seq<char>),
    sid: usize,
    gid: usize,
    g: int,
    s: usize,
)
    requires
        old_m.wf(),
        m.genes.wf(),
        m.species.wf(),
        m.rows@ == old_m.rows@.push(row),
        old_m.species@.contains(row.1) ==> m.species@ == old_m.species@,
        !old_m.species@.contains(row.1) ==> m.species@ == old_m.species@.push(row.1),
        sid < m.species@.len(),
        m.species@[sid as int] == row.1,
        old_m.genes@.contains(row.0) ==> m.genes@ == old_m.genes@,
        !old_m.genes@.contains(row.0) ==> m.genes@ == old_m.genes@.push(row.0),
        gid < m.genes@.len(),
        m.genes@[gid as int] == row.0,
        m.gene_species@.len() == m.genes@.len(),
        forall|g: int| 0 <= g < m.genes@.len() && g != gid ==> m.gene_species@[g] == old_m.gene_species@[g],
        gid < old_m.gene_species@.len() ==> (m.gene_species@[gid as int]@ == old_m.gene_species@[gid as int]@
            || m.gene_species@[gid as int]@ == old_m.gene_species@[gid as int]@.push(sid)),
        gid < old_m.gene_species@.len() ==> (old_m.gene_species@[gid as int]@.contains(sid) <==> m.gene_species@[gid as int]@ == old_m.gene_species@[gid as int]@),
        gid >= old_m.gene_species@.len() ==> m.gene_species@[gid as int]@ == seq![sid],
        0 <= g < m.genes@.len(),
        s < m.species@.len(),
    ensures
        m.gene_species@[g]@.contains(s) <==> maps_to(m.rows@, m.genes@[g], m.species@[s as int]),
{
    let rows = m.rows@;
    let old_rows = old_m.rows@;
    let gn = m.genes@[g];
    let sn = m.species@[s as int];
    m.genes.lemma_distinct();
    m.species.lemma_distinct();
    assert(maps_to(rows, gn, sn) <==> (maps_to(old_rows, gn, sn) || (gn == row.0 && sn == row.1))) by {
        if maps_to(rows, gn, sn) {
            let i = choose|i: int| 0 <= i < rows.len() && rows[i].0 == gn && rows[i].1 == sn;
            if i < old_rows.len() {
                assert(old_rows[i] == rows[i]);
            }
        }
        if maps_to(old_rows, gn, sn) {
            let i = choose|i: int| 0 <= i < old_rows.len() && old_rows[i].0 == gn && old_rows[i].1 == sn;
            assert(rows[i] == old_rows[i]);
        }
        if gn == row.0 && sn == row.1 {
            assert(rows[rows.len() - 1] == row);
        }
    }
    let new_species = s >= old_m.species@.len();
    if new_species {
        assert(!old_m.species@.contains(row.1));
        assert(sn == row.1);
        assert(s == sid) by {
            if s != sid {
                assert(m.species@[sid as int] == m.species@[s as int]);
            }
        }
        assert(!maps_to(old_rows, gn, sn)) by {
            if maps_to(old_rows, gn, sn) {
                let i = choose|i: int| 0 <= i < old_rows.len() && old_rows[i].0 == gn && old_rows[i].1 == sn;
                lemma_universe_has(old_rows, i);
            }
        }
    } else {
        assert(old_m.species@[s as int] == sn);
    }
    if g != gid as int {
        assert(gn != row.0);
        assert(g < old_m.genes@.len());
        assert(old_m.genes@[g] == gn);
        assert(m.gene_species@[g] == old_m.gene_species@[g]);
        if new_species {
            assert forall|k: int| 0 <= k < old_m.gene_species@[g]@.len() implies old_m.gene_species@[g]@[k] != s by {
                assert(old_m.gene_species@[g]@[k] < old_m.species@.len());
            }
        } else {
            assert(old_m.gene_species@[g]@.contains(s) <==> maps_to(old_rows, old_m.genes@[g], old_m.species@[s as int]));
        }
    } else if gid < old_m.gene_species@.len() {
        let old_list = old_m.gene_species@[g]@;
        let new_list = m.gene_species@[g]@;
        assert(old_m.genes@[g] == gn);
        assert(new_list.contains(s) <==> (old_list.contains(s) || s == sid)) by {
            if new_list == old_list.push(sid) {
                if new_list.contains(s) {
                    let k = choose|k: int| 0 <= k < new_list.len() && new_list[k] == s;
                    if k < old_list.len() {
                        assert(old_list[k] == s);
                    }
                }
                if old_list.contains(s) {
                    let k = choose|k: int| 0 <= k < old_list.len() && old_list[k] == s;
                    assert(new_list[k] == s);
                }
                if s == sid {
                    assert(new_list[old_list.len() as int] == s);
                }
            }
        }
        if new_species {
            assert forall|k: int| 0 <= k < old_list.len() implies old_list[k] != s by {
                assert(old_list[k] < old_m.species@.len());
            }
        } else {
            assert(old_list.contains(s) <==> maps_to(old_rows, old_m.genes@[g], old_m.species@[s as int]));
            if s != sid {
                assert(sn != row.1);
            }
        }
    } else {
        assert(!old_m.genes@.contains(row.0));
        assert(!has_gene(old_rows, gn));
        assert(!maps_to(old_rows, gn, sn));
        assert(m.gene_species@[g]@ == seq![sid]);
        if m.gene_species@[g]@.contains(s) {
            let k = choose|k: int| 0 <= k < m.gene_species@[g]@.len() && m.gene_species@[g]@[k] == s;
            assert(s == sid);
        }
        if s == sid {
            assert(m.gene_species@[g]@[0] == s);
        } else {
            assert(sn != row.1);
        }
    }
}

/// Every species of a row is in the universe.
proof fn lemma_universe_has(rows: Seq<(Seq<char>, Seq<char>)>, i: int)
    requires
        0 <= i < rows.len(),
    ensures
        universe(rows).contains(rows[i].1),
    decreases rows.len(),
{
    let u = universe(rows.drop_last());
    if i < rows.len() - 1 {
        lemma_universe_has(rows.drop_last(), i);
        assert(rows.drop_last()[i] == rows[i]);
        if !u.contains(rows.last().1) {
            let k = choose|k: int| 0 <= k < u.len() && u[k] == rows[i].1;
            assert(u.push(rows.last().1)[k] == rows[i].1);
        }
    } else {
        if !u.contains(rows.last().1) {
            assert(u.push(rows.last().1)[u.len() as int] == rows[i].1);
        }
    }
}

} // verus!

verus! {

/// Number of targets of a query group that some row assigns to species `s`.
pub open spec fn hit_count(rows: Seq<(Seq<char>, Seq<char>)>, targets: Seq<Seq<char>>, s: Seq<char>) -> nat
    decreases targets.len(),
{
    if targets.len() == 0 {
        0
    } else {
        hit_count(rows, targets.drop_last(), s) + if maps_to(rows, targets.last(), s) {
            1nat
        } else {
            0nat
        }
    }
}

/// The last target of a query group that some row assigns to species `s`; for a
/// single-copy species, its only one.
pub open spec fn representative(
    rows: Seq<(Seq<char>, Seq<char>)>,
    targets: Seq<Seq<char>>,
    s: Seq<char>,
) -> Seq<char>
    decreases targets.len(),
{
    if targets.len() == 0 {
        Seq::empty()
    } else if maps_to(rows, targets.last(), s) {
        targets.last()
    } else {
        representative(rows, targets.drop_last(), s)
    }
}

/// Number of species of `sps` with exactly one hit in the group.
pub open spec fn single_copy(
    rows: Seq<(Seq<char>, Seq<char>)>,
    targets: Seq<Seq<char>>,
    sps: Seq<Seq<char>>,
) -> nat
    decreases sps.len(),
{
    if sps.len() == 0 {
        0
    } else {
        single_copy(rows, targets, sps.drop_last()) + if hit_count(rows, targets, sps.last()) == 1 {
            1nat
        } else {
            0nat
        }
    }
}

/// Number of species of `sps` with at least one hit in the group.
pub open spec fn species_hit(
    rows: Seq<(Seq<char>, Seq<char>)>,
    targets: Seq<Seq<char>>,
    sps: Seq<Seq<char>>,
) -> nat
    decreases sps.len(),
{
    if sps.len() == 0 {
        0
    } else {
        species_hit(rows, targets, sps.drop_last()) + if hit_count(rows, targets, sps.last()) >= 1 {
            1nat
        } else {
            0nat
        }
    }
}

/// `(representative, species)` for each species of `sps` with exactly one hit, in order.
pub open spec fn members(
    rows: Seq<(Seq<char>, Seq<char>)>,
    targets: Seq<Seq<char>>,
    sps: Seq<Seq<char>>,
) -> Seq<(Seq<char>, Seq<char>)>
    decreases sps.len(),
{
    if sps.len() == 0 {
        Seq::empty()
    } else {
        let m = members(rows, targets, sps.drop_last());
        if hit_count(rows, targets, sps.last()) == 1 {
            m.push((representative(rows, targets, sps.last()), sps.last()))
        } else {
            m
        }
    }
}

/// The core-gene predicate: single-copy species, times 100, reach `threshold`
/// times the size of the species universe.
pub open spec fn is_core(single: nat, total: nat, threshold: nat) -> bool {
    single * 100 >= threshold * total
}

/// The hit rows grouped by query: each maximal run of rows with equal query
/// becomes one group `(query, targets)`, in input order.
pub open spec fn groups(hits: Seq<(Seq<char>, Seq<char>)>) -> Seq<(Seq<char>, Seq<Seq<char>>)>
    decreases hits.len(),
{
    if hits.len() == 0 {
        Seq::empty()
    } else {
        let g = groups(hits.drop_last());
        let h = hits.last();
        if g.len() > 0 && g.last().0 == h.0 {
            g.update(g.len() - 1, (h.0, g.last().1.push(h.1)))
        } else {
            g.push((h.0, seq![h.1]))
        }
    }
}

/// What the profiler reports of one query group.
pub struct ReportView {
    pub query: Seq<char>,
    pub species_hit: nat,
    pub single_copy: nat,
    pub core: bool,
    pub members: Seq<(Seq<char>, Seq<char>)>,
}

/// The report of query group `g` against the mapping `rows`.
pub open spec fn report(
    rows: Seq<(Seq<char>, Seq<char>)>,
    g: (Seq<char>, Seq<Seq<char>>),
    threshold: nat,
) -> ReportView {
    let u = universe(rows);
    ReportView {
        query: g.0,
        species_hit: species_hit(rows, g.1, u),
        single_copy: single_copy(rows, g.1, u),
        core: is_core(single_copy(rows, g.1, u), u.len(), threshold),
        members: members(rows, g.1, u),
    }
}

/// The reports of all query groups of `hits`, in order.
pub open spec fn profile_of(
    rows: Seq<(Seq<char>, Seq<char>)>,
    hits: Seq<(Seq<char>, Seq<char>)>,
    threshold: nat,
) -> Seq<ReportView> {
    groups(hits).map_values(|g: (Seq<char>, Seq<Seq<char>>)| report(rows, g, threshold))
}

/// What the profiler found for one query.
pub struct QueryReport {
    /// The query identifier.
    pub query: String,
    /// Number of species with at least one hit.
    pub species_hit: usize,
    /// Number of species with exactly one hit.
    pub single_copy: usize,
    /// Whether the query is a core gene.
    pub core: bool,
    /// `(representative target, species)` for each single-copy species, in universe order.
    pub members: Vec<(String, String)>,
}

impl View for QueryReport {
    type V = ReportView;

    open spec fn view(&self) -> ReportView {
        ReportView {
            query: self.query@,
            species_hit: self.species_hit as nat,
            single_copy: self.single_copy as nat,
            core: self.core,
            members: pair_views(self.members@),
        }
    }
}

/// The contents of each report.
pub open spec fn report_views(v: Seq<QueryReport>) -> Seq<ReportView> {
    v.map_values(|r: QueryReport| r@)
}

} // verus!

verus! {

/// `n` zeros.
fn zeros(n: usize) -> (r: Vec<usize>)
    ensures
        r@.len() == n,
        forall|i: int| 0 <= i < n ==> #[trigger] r@[i] == 0,
{
    let mut v: Vec<usize> = Vec::new();
    let mut i: usize = 0;
    while i < n
        invariant
            i <= n,
            v@.len() == i,
            forall|j: int| 0 <= j < i ==> #[trigger] v@[j] == 0,
        decreases n - i,
    {
        v.push(0);
        i = i + 1;
    }
    v
}

proof fn lemma_hit_push(
    rows: Seq<(Seq<char>, Seq<char>)>,
    targets: Seq<Seq<char>>,
    t: Seq<char>,
    sp: Seq<char>,
)
    ensures
        hit_count(rows, targets.push(t), sp) == hit_count(rows, targets, sp) + if maps_to(rows, t, sp) {
            1nat
        } else {
            0nat
        },
        representative(rows, targets.push(t), sp) == if maps_to(rows, t, sp) {
            t
        } else {
            representative(rows, targets, sp)
        },
{
    assert(targets.push(t).drop_last() =~= targets);
}

proof fn lemma_hit_push_all(rows: Seq<(Seq<char>, Seq<char>)>, targets: Seq<Seq<char>>, t: Seq<char>)
    ensures
        forall|sp: Seq<char>|
            #[trigger] hit_count(rows, targets.push(t), sp) == hit_count(rows, targets, sp) + if maps_to(
                rows,
                t,
                sp,
            ) {
                1nat
            } else {
                0nat
            },
        forall|sp: Seq<char>|
            #[trigger] representative(rows, targets.push(t), sp) == if maps_to(rows, t, sp) {
                t
            } else {
                representative(rows, targets, sp)
            },
{
    assert forall|sp: Seq<char>| #[trigger] hit_count(rows, targets.push(t), sp) == hit_count(rows, targets, sp) + if maps_to(
                rows,
                t,
                sp,
            ) {
                1nat
            } else {
                0nat
            } by {
        lemma_hit_push(rows, targets, t, sp);
    }
    assert forall|sp: Seq<char>| #[trigger] representative(rows, targets.push(t), sp) == if maps_to(rows, t, sp) {
                t
            } else {
                representative(rows, targets, sp)
            } by {
        lemma_hit_push(rows, targets, t, sp);
    }
}

impl SpeciesMap {
    /// The per-species counters of an open group hold, for each species, its hit
    /// count and (when it has hits) the gene position of its representative.
    pub closed spec fn counters_ok(
        &self,
        counts: Seq<usize>,
        reps: Seq<usize>,
        targets: Seq<Seq<char>>,
    ) -> bool {
        &&& counts.len() == self.species@.len()
        &&& reps.len() == self.species@.len()
        &&& forall|s: usize|
            s < counts.len() ==> #[trigger] counts[s as int] as nat == hit_count(
                self.rows@,
                targets,
                self.species@[s as int],
            )
        &&& forall|s: usize| s < counts.len() ==> #[trigger] counts[s as int] <= targets.len()
        &&& forall|s: usize|
            s < counts.len() && #[trigger] counts[s as int] >= 1 ==> reps[s as int] < self.genes@.len()
                && self.genes@[reps[s as int] as int] == representative(
                self.rows@,
                targets,
                self.species@[s as int],
            )
    }

    /// Counts one more hit of the open group, to `target`.
    fn add_hit(
        &self,
        counts: &mut Vec<usize>,
        reps: &mut Vec<usize>,
        target: &String,
        Ghost(targets): Ghost<Seq<Seq<char>>>,
    )
        requires
            self.wf(),
            self.counters_ok(old(counts)@, old(reps)@, targets),
            targets.len() < usize::MAX,
        ensures
            self.counters_ok(final(counts)@, final(reps)@, targets.push(target@)),
    {
        let ghost nt = targets.push(target@);
        proof {
            assert(nt.drop_last() =~= targets);
            lemma_hit_push_all(self.rows@, targets, target@);
        }
        match self.genes.find(target) {
            Some(gid) => {
                let list = &self.gene_species[gid];
                let mut k: usize = 0;
                while k < list.len()
                    invariant
                        self.wf(),
                        gid < self.genes@.len(),
                        self.genes@[gid as int] == target@,
                        *list == self.gene_species@[gid as int],
                        k <= list@.len(),
                        nt == targets.push(target@),
                        nt.drop_last() == targets,
                        nt.last() == target@,
                        targets.len() < usize::MAX,
                        counts.len() == self.species@.len(),
                        reps.len() == self.species@.len(),
                        forall|s: usize|
                            s < counts.len() ==> #[trigger] counts@[s as int] as nat == if list@.take(
                                k as int,
                            ).contains(s) {
                                hit_count(self.rows@, nt, self.species@[s as int])
                            } else {
                                hit_count(self.rows@, targets, self.species@[s as int])
                            },
                        forall|s: usize|
                            s < counts.len() ==> #[trigger] counts@[s as int] <= if list@.take(
                                k as int,
                            ).contains(s) {
                                nt.len()
                            } else {
                                targets.len()
                            },
                        forall|s: usize|
                            s < counts.len() && #[trigger] counts@[s as int] >= 1 ==> reps@[s as int]
                                < self.genes@.len() && self.genes@[reps@[s as int] as int] == if list@.take(
                                k as int,
                            ).contains(s) {
                                representative(self.rows@, nt, self.species@[s as int])
                            } else {
                                representative(self.rows@, targets, self.species@[s as int])
                            },
                    decreases list@.len() - k,
                {
                    let s = list[k];
                    proof {
                        assert(s < self.species@.len());
                        assert(list@[k as int] == s);
                        assert(self.gene_species@[gid as int]@.contains(s));
                        assert(maps_to(self.rows@, target@, self.species@[s as int]));
                        assert(!list@.take(k as int).contains(s)) by {
                            if list@.take(k as int).contains(s) {
                                let tk = list@.take(k as int);
                                let l = choose|l: int| 0 <= l < tk.len() && tk[l] == s;
                                assert(list@[l] == list@[k as int]);
                            }
                        }
                        let t0 = list@.take(k as int);
                        let t1 = list@.take(k + 1);
                        assert forall|x: usize| #[trigger] t1.contains(x) <==> (t0.contains(x) || x == s) by {
                            if t1.contains(x) {
                                let l = choose|l: int| 0 <= l < t1.len() && t1[l] == x;
                                if l < k {
                                    assert(t0[l] == x);
                                }
                            }
                            if t0.contains(x) {
                                let l = choose|l: int| 0 <= l < t0.len() && t0[l] == x;
                                assert(t1[l] == x);
                            }
                            if x == s {
                                assert(t1[k as int] == x);
                            }
                        }
                    }
                    let ghost oc = counts@;
                    let ghost t0 = list@.take(k as int);
                    let ghost t1 = list@.take(k + 1);
                    proof {
                        lemma_hit_push(self.rows@, targets, target@, self.species@[s as int]);
                        assert(!t0.contains(s));
                        assert(oc[s as int] as nat == hit_count(self.rows@, targets, self.species@[s as int]));
                    }
                    let c = counts[s] + 1;
                    counts.set(s, c);
                    reps.set(s, gid);
                    proof {
                        assert forall|x: usize| x < counts.len() implies #[trigger] counts@[x as int] as nat == if t1.contains(x) {
                            hit_count(self.rows@, nt, self.species@[x as int])
                        } else {
                            hit_count(self.rows@, targets, self.species@[x as int])
                        } by {
                            if x != s {
                                assert(counts@[x as int] == oc[x as int]);
                                assert(t1.contains(x) == t0.contains(x));
                            } else {
                                assert(t1.contains(x));
                            }
                        }
                        assert forall|x: usize| x < counts.len() implies #[trigger] counts@[x as int] <= if t1.contains(x) {
                            nt.len()
                        } else {
                            targets.len()
                        } by {
                            if x != s {
                                assert(counts@[x as int] == oc[x as int]);
                                assert(t1.contains(x) == t0.contains(x));
                            } else {
                                assert(t1.contains(x));
                            }
                        }
                    }
                    k = k + 1;
                }
                proof {
                    assert(list@.take(k as int) =~= list@);
                    assert forall|s: usize| s < counts.len() && !list@.contains(s) implies !maps_to(self.rows@, target@, self.species@[s as int]) by {
                        assert(self.gene_species@[gid as int]@.contains(s) <==> maps_to(
                            self.rows@,
                            self.genes@[gid as int],
                            self.species@[s as int],
                        ));
                    }
                    lemma_hit_push_all(self.rows@, targets, target@);
                }
            },
            None => {
                proof {
                    assert forall|s: usize| s < counts.len() implies !maps_to(
                        self.rows@,
                        target@,
                        self.species@[s as int],
                    ) by {
                        lemma_hit_push(self.rows@, targets, target@, self.species@[s as int]);
                        if maps_to(self.rows@, target@, self.species@[s as int]) {
                            let i = choose|i: int|
                                0 <= i < self.rows@.len() && self.rows@[i].0 == target@
                                    && self.rows@[i].1 == self.species@[s as int];
                            assert(has_gene(self.rows@, target@));
                            assert(self.genes@.contains(target@));
                        }
                    }
                }
            },
        }
    }

    /// The report of the open group, whose counters are `counts` and `reps`.
    fn close_group(
        &self,
        query: String,
        counts: &Vec<usize>,
        reps: &Vec<usize>,
        threshold: usize,
        Ghost(targets): Ghost<Seq<Seq<char>>>,
    ) -> (r: QueryReport)
        requires
            self.wf(),
            self.counters_ok(counts@, reps@, targets),
        ensures
            r@ == report(self.rows@, (query@, targets), threshold as nat),
    {
        let n = self.species.len();
        let ghost u = self.species@;
        let ghost rows = self.rows@;
        let mut single: usize = 0;
        let mut hit: usize = 0;
        let mut mem: Vec<(String, String)> = Vec::new();
        let mut s: usize = 0;
        proof {
            assert(u.take(0) =~= Seq::<Seq<char>>::empty());
            assert(pair_views(mem@) =~= Seq::<(Seq<char>, Seq<char>)>::empty());
        }
        while s < n
            invariant
                s <= n,
                n == u.len(),
                u == self.species@,
                rows == self.rows@,
                self.wf(),
                self.counters_ok(counts@, reps@, targets),
                single as nat == single_copy(rows, targets, u.take(s as int)),
                hit as nat == species_hit(rows, targets, u.take(s as int)),
                single <= s,
                hit <= s,
                pair_views(mem@) == members(rows, targets, u.take(s as int)),
            decreases n - s,
        {
            proof {
                assert(u.take(s + 1).drop_last() =~= u.take(s as int));
                assert(u.take(s + 1).last() == u[s as int]);
            }
            let c = counts[s];
            if c == 1 {
                single = single + 1;
                let g = reps[s];
                let pair = (self.genes.name(g).clone(), self.species.name(s).clone());
                let ghost before = pair_views(mem@);
                mem.push(pair);
                proof {
                    assert(pair_views(mem@) =~= before.push(
                        (representative(rows, targets, u[s as int]), u[s as int]),
                    ));
                }
            }
            if c >= 1 {
                hit = hit + 1;
            }
            s = s + 1;
        }
        proof {
            assert(u.take(s as int) =~= u);
            crate::filter::lemma_wide_product(single as u128, 100);
            crate::filter::lemma_wide_product(threshold as u128, n as u128);
        }
        let core = (single as u128) * 100 >= (threshold as u128) * (n as u128);
        QueryReport { query, species_hit: hit, single_copy: single, core, members: mem }
    }

    /// Profiles a hit table, already grouped by query: one report per maximal run
    /// of rows with equal query, in input order (see `profile_of`).
    pub fn profile(&self, hits: &Vec<(String, String)>, threshold: usize) -> (r: Vec<QueryReport>)
        requires
            self.wf(),
        ensures
            report_views(r@) == profile_of(self.rows(), pair_views(hits@), threshold as nat),
    {
        let ghost hv = pair_views(hits@);
        let ghost rows = self.rows@;
        let n = self.species.len();
        let mut reports: Vec<QueryReport> = Vec::new();
        let mut open: Option<String> = None;
        let mut counts = zeros(n);
        let mut reps = zeros(n);
        let ghost mut targets: Seq<Seq<char>> = Seq::empty();
        let mut i: usize = 0;
        proof {
            assert(hv.take(0) =~= Seq::<(Seq<char>, Seq<char>)>::empty());
            assert(report_views(reports@) =~= Seq::<ReportView>::empty());
        }
        while i < hits.len()
            invariant
                i <= hits@.len(),
                hv == pair_views(hits@),
                rows == self.rows@,
                n == self.species@.len(),
                self.wf(),
                self.counters_ok(counts@, reps@, targets),
                targets.len() <= i,
                open is None <==> i == 0,
                open is None ==> report_views(reports@) == Seq::<ReportView>::empty(),
                match open {
                    Some(q) => {
                        let gs = groups(hv.take(i as int));
                        &&& gs.len() >= 1
                        &&& gs.last() == (q@, targets)
                        &&& report_views(reports@) == gs.drop_last().map_values(
                            |g: (Seq<char>, Seq<Seq<char>>)| report(rows, g, threshold as nat),
                        )
                    },
                    None => true,
                },
            decreases hits@.len() - i,
        {
            let ghost gs = groups(hv.take(i as int));
            proof {
                assert(hv.take(i + 1).drop_last() =~= hv.take(i as int));
                assert(hv.take(i + 1).last() == hv[i as int]);
            }
            let same = match &open {
                Some(q) => *q == hits[i].0,
                None => false,
            };
            if !same {
                match open {
                    Some(q) => {
                        let rep = self.close_group(q, &counts, &reps, threshold, Ghost(targets));
                        let ghost before = report_views(reports@);
                        reports.push(rep);
                        proof {
                            assert(report_views(reports@) =~= before.push(rep@));
                            assert(gs =~= gs.drop_last().push(gs.last()));
                            assert(report_views(reports@) =~= gs.map_values(
                                |g: (Seq<char>, Seq<Seq<char>>)| report(rows, g, threshold as nat),
                            ));
                        }
                    },
                    None => {
                        proof {
                            assert(i == 0);
                            assert(gs =~= Seq::<(Seq<char>, Seq<Seq<char>>)>::empty());
                            assert(report_views(reports@) =~= gs.map_values(
                                |g: (Seq<char>, Seq<Seq<char>>)| report(rows, g, threshold as nat),
                            ));
                        }
                    },
                }
                counts = zeros(n);
                reps = zeros(n);
                proof {
                    targets = Seq::empty();
                }
                open = Some(hits[i].0.clone());
                proof {
                    let ng = groups(hv.take(i + 1));
                    assert(ng == gs.push((hv[i as int].0, seq![hv[i as int].1])));
                    assert(ng.drop_last() =~= gs);
                    assert(seq![hv[i as int].1] =~= targets.push(hv[i as int].1));
                }
            } else {
                proof {
                    let ng = groups(hv.take(i + 1));
                    assert(ng == gs.update(gs.len() - 1, (hv[i as int].0, targets.push(hv[i as int].1))));
                    assert(ng.drop_last() =~= gs.drop_last());
                }
            }
            self.add_hit(&mut counts, &mut reps, &hits[i].1, Ghost(targets));
            proof {
                targets = targets.push(hv[i as int].1);
            }
            i = i + 1;
        }
        proof {
            assert(hv.take(i as int) =~= hv);
        }
        match open {
            Some(q) => {
                let rep = self.close_group(q, &counts, &reps, threshold, Ghost(targets));
                let ghost before = report_views(reports@);
                reports.push(rep);
                proof {
                    let gs = groups(hv);
                    assert(report_views(reports@) =~= before.push(rep@));
                    assert(gs =~= gs.drop_last().push(gs.last()));
                    assert(report_views(reports@) =~= profile_of(rows, hv, threshold as nat));
                }
            },
            None => {
                proof {
                    assert(groups(hv) =~= Seq::<(Seq<char>, Seq<Seq<char>>)>::empty());
                    assert(report_views(reports@) =~= profile_of(rows, hv, threshold as nat));
                }
            },
        }
        reports
    }
}

} // verus!

verus! {

/// The file name stem of a query: the second `-`-separated piece of its
/// identifier when there is one, otherwise the whole identifier.
pub open spec fn local_name(q: Seq<char>) -> Seq<char> {
    let p = crate::text::split_on(q, '-');
    if p.len() >= 2 {
        p[1]
    } else {
        q
    }
}

/// The file name stem of a query (see `local_name`).
pub fn query_local_name(q: &String) -> (r: String)
    ensures
        r@ == local_name(q@),
{
    let cs = crate::text::chars_of(q.as_str());
    let p = crate::text::pieces(&cs, '-');
    if p.len() >= 2 {
        proof {
            assert(p@[1]@ == crate::text::char_vec_views(p@)[1]);
        }
        crate::text::string_of(&p[1], 0, p[1].len())
    } else {
        proof {
            assert(cs@.subrange(0, cs@.len() as int) =~= cs@);
        }
        crate::text::string_of(&cs, 0, cs.len())
    }
}

/// Whether some member of `m` is for species `s`.
pub open spec fn has_member(m: Seq<(Seq<char>, Seq<char>)>, s: Seq<char>) -> bool {
    exists|k: int| 0 <= k < m.len() && m[k].1 == s
}

/// Number of core genes of `reports` in which species `s` is single-copy.
pub open spec fn support(reports: Seq<ReportView>, s: Seq<char>) -> nat
    decreases reports.len(),
{
    if reports.len() == 0 {
        0
    } else {
        support(reports.drop_last(), s) + if reports.last().core && has_member(
            reports.last().members,
            s,
        ) {
            1nat
        } else {
            0nat
        }
    }
}

/// Number of core genes among `reports`.
pub open spec fn core_total(reports: Seq<ReportView>) -> nat
    decreases reports.len(),
{
    if reports.len() == 0 {
        0
    } else {
        core_total(reports.drop_last()) + if reports.last().core {
            1nat
        } else {
            0nat
        }
    }
}

/// The species of `sps` that are single-copy in fewer than half of the core
/// genes, each with its count, in order.
pub open spec fn low_coverage(reports: Seq<ReportView>, sps: Seq<Seq<char>>) -> Seq<(Seq<char>, nat)>
    decreases sps.len(),
{
    if sps.len() == 0 {
        Seq::empty()
    } else {
        let l = low_coverage(reports, sps.drop_last());
        let s = sps.last();
        if support(reports, s) * 2 < core_total(reports) {
            l.push((s, support(reports, s)))
        } else {
            l
        }
    }
}

impl SpeciesMap {
    /// The species of the universe that are single-copy in fewer than half of the
    /// core genes among `reports`, with their counts (see `low_coverage`).
    pub fn low_coverage(&self, reports: &Vec<QueryReport>) -> (r: Vec<(String, usize)>)
        requires
            self.wf(),
        ensures
            r@.map_values(|p: (String, usize)| (p.0@, p.1 as nat)) == low_coverage(
                report_views(reports@),
                universe(self.rows()),
            ),
    {
        let ghost rv = report_views(reports@);
        let ghost u = self.species@;
        let n = self.species.len();
        let mut counts = zeros(n);
        let mut stamp = zeros(n);
        let mut core: usize = 0;
        let mut i: usize = 0;
        proof {
            assert(rv.take(0) =~= Seq::<ReportView>::empty());
        }
        while i < reports.len()
            invariant
                i <= reports@.len(),
                rv == report_views(reports@),
                u == self.species@,
                self.wf(),
                n == u.len(),
                counts.len() == n,
                stamp.len() == n,
                core as nat == core_total(rv.take(i as int)),
                core <= i,
                forall|s: int| 0 <= s < n ==> #[trigger] counts@[s] as nat == support(rv.take(i as int), u[s]),
                forall|s: int| 0 <= s < n ==> #[trigger] counts@[s] <= i,
                forall|s: int| 0 <= s < n ==> #[trigger] stamp@[s] <= i,
            decreases reports@.len() - i,
        {
            let r = &reports[i];
            proof {
                assert(rv.take(i + 1).drop_last() =~= rv.take(i as int));
                assert(rv.take(i + 1).last() == r@);
            }
            if r.core {
                core = core + 1;
                let mut k: usize = 0;
                let ghost mv = pair_views(r.members@);
                let ghost base = counts@;
                let mark = i + 1;
                while k < r.members.len()
                    invariant
                        k <= r.members@.len(),
                        mv == pair_views(r.members@),
                        self.wf(),
                        u == self.species@,
                        n == u.len(),
                        counts.len() == n,
                        stamp.len() == n,
                        mark == i + 1,
                        base.len() == n,
                        forall|s: int| 0 <= s < n ==> #[trigger] base[s] <= i,
                        forall|s: int| 0 <= s < n ==> #[trigger] stamp@[s] <= mark,
                        forall|s: int| 0 <= s < n ==> (#[trigger] stamp@[s] == mark <==> has_member(mv.take(k as int), u[s])),
                        forall|s: int| 0 <= s < n ==> #[trigger] counts@[s] == base[s] + if stamp@[s] == mark { 1usize } else { 0usize },
                    decreases r.members@.len() - k,
                {
                    proof {
                        self.species.lemma_distinct();
                    }
                    let ghost t0 = mv.take(k as int);
                    let ghost t1 = mv.take(k + 1);
                    proof {
                        assert forall|x: Seq<char>| #[trigger] has_member(t1, x) <==> (has_member(t0, x) || mv[k as int].1 == x) by {
                            if has_member(t1, x) {
                                let l = choose|l: int| 0 <= l < t1.len() && t1[l].1 == x;
                                if l < k {
                                    assert(t0[l].1 == x);
                                }
                            }
                            if has_member(t0, x) {
                                let l = choose|l: int| 0 <= l < t0.len() && t0[l].1 == x;
                                assert(t1[l].1 == x);
                            }
                            if mv[k as int].1 == x {
                                assert(t1[k as int].1 == x);
                            }
                        }
                    }
                    match self.species.find(&r.members[k].1) {
                        Some(s) => {
                            if stamp[s] != mark {
                                let c = counts[s] + 1;
                                counts.set(s, c);
                                stamp.set(s, mark);
                            }
                            proof {
                                assert forall|x: int| 0 <= x < n && x != s implies mv[k as int].1 != u[x] by {
                                    assert(u[s as int] == mv[k as int].1);
                                }
                            }
                        },
                        None => {
                            proof {
                                assert forall|x: int| 0 <= x < n implies mv[k as int].1 != u[x] by {
                                    if mv[k as int].1 == u[x] {
                                        assert(u.contains(u[x]));
                                    }
                                }
                            }
                        },
                    }
                    k = k + 1;
                }
                proof {
                    assert(mv.take(k as int) =~= mv);
                }
            } else {
                proof {
                    assert forall|s: int| 0 <= s < n implies #[trigger] counts@[s] as nat == support(rv.take(i + 1), u[s]) by {}
                }
            }
            i = i + 1;
        }
        proof {
            assert(rv.take(i as int) =~= rv);
        }
        let mut out: Vec<(String, usize)> = Vec::new();
        let mut s: usize = 0;
        proof {
            assert(u.take(0) =~= Seq::<Seq<char>>::empty());
            assert(out@.map_values(|p: (String, usize)| (p.0@, p.1 as nat)) =~= Seq::<(Seq<char>, nat)>::empty());
        }
        while s < n
            invariant
                s <= n,
                n == u.len(),
                u == self.species@,
                self.wf(),
                counts.len() == n,
                core as nat == core_total(rv),
                core <= reports@.len(),
                forall|x: int| 0 <= x < n ==> #[trigger] counts@[x] as nat == support(rv, u[x]),
                out@.map_values(|p: (String, usize)| (p.0@, p.1 as nat)) == low_coverage(rv, u.take(s as int)),
            decreases n - s,
        {
            proof {
                assert(u.take(s + 1).drop_last() =~= u.take(s as int));
                assert(u.take(s + 1).last() == u[s as int]);
            }
            let c = counts[s];
            if (c as u128) * 2 < core as u128 {
                let ghost before = out@.map_values(|p: (String, usize)| (p.0@, p.1 as nat));
                out.push((self.species.name(s).clone(), c));
                proof {
                    assert(out@.map_values(|p: (String, usize)| (p.0@, p.1 as nat)) =~= before.push((u[s as int], c as nat)));
                }
            }
            s = s + 1;
        }
        proof {
            assert(u.take(s as int) =~= u);
        }
        out
    }
}

/// Running the profiler twice on the same tables gives the same reports and the
/// same membership files.
pub proof fn lemma_profile_deterministic(
    rows1: Seq<(Seq<char>, Seq<char>)>,
    hits1: Seq<(Seq<char>, Seq<char>)>,
    rows2: Seq<(Seq<char>, Seq<char>)>,
    hits2: Seq<(Seq<char>, Seq<char>)>,
    threshold: nat,
)
    requires
        rows1 == rows2,
        hits1 == hits2,
    ensures
        profile_of(rows1, hits1, threshold) == profile_of(rows2, hits2, threshold),
        forall|i: int|
            0 <= i < profile_of(rows1, hits1, threshold).len() ==> crate::table::pairs_text(
                #[trigger] profile_of(rows1, hits1, threshold)[i].members,
            ) == crate::table::pairs_text(profile_of(rows2, hits2, threshold)[i].members),
{
}

} // verus!

verus! {

/// The rows `(first column, second column)` of a table text whose lines all have
/// at least two fields.
pub open spec fn table_rows(text: Seq<char>) -> Seq<(Seq<char>, Seq<char>)> {
    crate::text::lines_of(text).map_values(|l: Seq<char>| crate::table::first_two(l))
}

/// Which table of the profiler had a malformed line.
#[derive(Debug)]
pub enum ProfileError {
    /// A line of the gene-to-species mapping.
    Mapping(crate::table::LineError),
    /// A line of the hit table.
    Hits(crate::table::LineError),
}

/// What the profiler found for a hit table.
pub struct CoreProfile {
    /// One report per query, in input order.
    pub reports: Vec<QueryReport>,
    /// Size of the species universe.
    pub species_total: usize,
    /// Species that are single-copy in fewer than half of the core genes, with their counts.
    pub low_coverage: Vec<(String, usize)>,
}

/// Profiles the hit table `hits_text` (query, target; grouped by query) against
/// the gene-to-species mapping `mapping_text` (gene, species) with a core-gene
/// threshold in percent.
pub fn profile(hits_text: &str, mapping_text: &str, threshold: usize) -> (r: Result<
    CoreProfile,
    ProfileError,
>)
    ensures
        match r {
            Ok(p) => {
                let rows = table_rows(mapping_text@);
                let reports = profile_of(rows, table_rows(hits_text@), threshold as nat);
                &&& crate::table::all_rows_ok(crate::text::lines_of(mapping_text@))
                &&& crate::table::all_rows_ok(crate::text::lines_of(hits_text@))
                &&& report_views(p.reports@) == reports
                &&& p.species_total == universe(rows).len()
                &&& p.low_coverage@.map_values(|q: (String, usize)| (q.0@, q.1 as nat))
                    == low_coverage(reports, universe(rows))
            },
            Err(ProfileError::Mapping(e)) => {
                let ls = crate::text::lines_of(mapping_text@);
                &&& 1 <= e.line <= ls.len()
                &&& !crate::table::row_ok(ls[e.line - 1])
                &&& crate::table::all_rows_ok(ls.take(e.line - 1))
            },
            Err(ProfileError::Hits(e)) => {
                let ls = crate::text::lines_of(hits_text@);
                &&& crate::table::all_rows_ok(crate::text::lines_of(mapping_text@))
                &&& 1 <= e.line <= ls.len()
                &&& !crate::table::row_ok(ls[e.line - 1])
                &&& crate::table::all_rows_ok(ls.take(e.line - 1))
            },
        },
{
    let rows = match crate::table::parse_pairs(mapping_text) {
        Ok(v) => v,
        Err(e) => {
            return Err(ProfileError::Mapping(e));
        },
    };
    let hits = match crate::table::parse_pairs(hits_text) {
        Ok(v) => v,
        Err(e) => {
            return Err(ProfileError::Hits(e));
        },
    };
    let map = SpeciesMap::from_rows(&rows);
    let reports = map.profile(&hits, threshold);
    let low = map.low_coverage(&reports);
    let total = map.species_count();
    Ok(CoreProfile { reports, species_total: total, low_coverage: low })
}

} // verus!
