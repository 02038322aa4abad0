use vstd::prelude::*;
use crate::text::{char_vec_views, lines, lines_of, pieces, split_on, string_of};
use vstd::string::StringExecFns;

verus! {

/// The external programs whose paths can be configured, in order.
pub open spec fn valid_binaries() -> Seq<Seq<char>> {
    seq![
        "mmseqs"@,
        "foldseek"@,
        "mafft"@,
        "mafft-linsi"@,
        "foldmason"@,
        "iqtree"@,
        "fasttree"@,
        "raxml-ng"@,
    ]
}

/// An external program: its name, the path to run it by, and whether that path
/// came from the configuration.
pub struct Binary {
    pub name: String,
    pub path: String,
    pub set: bool,
}

impl View for Binary {
    type V = (Seq<char>, Seq<char>, bool);

    open spec fn view(&self) -> (Seq<char>, Seq<char>, bool) {
        (self.name@, self.path@, self.set)
    }
}

impl Binary {
    /// A program called `name`, run by `path`, not configured.
    pub fn new(name: &str, path: &str) -> (r: Binary)
        ensures
            r@ == (name@, path@, false),
    {
        Binary { name: String::from_str(name), path: String::from_str(path), set: false }
    }

    /// The program's name.
    pub fn name(&self) -> (r: &String)
        ensures
            r@ == self@.0,
    {
        &self.name
    }

    /// The path the program is run by.
    pub fn path(&self) -> (r: &String)
        ensures
            r@ == self@.1,
    {
        &self.path
    }

    /// Whether the path came from the configuration.
    pub fn is_set(&self) -> (r: bool)
        ensures
            r == self@.2,
    {
        self.set
    }
}

/// The paths of the external programs.
pub struct BinaryPaths {
    bin: Vec<Binary>,
}

impl View for BinaryPaths {
    type V = Seq<(Seq<char>, Seq<char>, bool)>;

    closed spec fn view(&self) -> Seq<(Seq<char>, Seq<char>, bool)> {
        self.bin@.map_values(|b: Binary| b@)
    }
}

/// Position of the first program called `name`, if any.
pub open spec fn position_of(v: Seq<(Seq<char>, Seq<char>, bool)>, name: Seq<char>) -> Option<int>
    decreases v.len(),
{
    if v.len() == 0 {
        None
    } else {
        match position_of(v.drop_last(), name) {
            Some(i) => Some(i),
            None => if v.last().0 == name {
                Some(v.len() - 1)
            } else {
                None
            },
        }
    }
}

/// `v` with the program called `name` (if any) run by `path`, and marked
/// configured when `mark` holds.
pub open spec fn with_path(
    v: Seq<(Seq<char>, Seq<char>, bool)>,
    name: Seq<char>,
    path: Seq<char>,
    mark: bool,
) -> Seq<(Seq<char>, Seq<char>, bool)> {
    match position_of(v, name) {
        Some(i) => v.update(i, (v[i].0, path, if mark { true } else { v[i].2 })),
        None => v,
    }
}

/// The paths after one configuration line: empty lines and lines starting with
/// `#` are skipped; otherwise `name=path` sets the path of a known program, unless
/// the path is empty.
pub open spec fn config_step(v: Seq<(Seq<char>, Seq<char>, bool)>, line: Seq<char>) -> Seq<
    (Seq<char>, Seq<char>, bool),
> {
    let p = split_on(line, '=');
    if line.len() == 0 || line[0] == '#' || p.len() < 2 || p[1].len() == 0 {
        v
    } else {
        with_path(v, p[0], p[1], true)
    }
}

/// The paths after a configuration text.
pub open spec fn configured(v: Seq<(Seq<char>, Seq<char>, bool)>, ls: Seq<Seq<char>>) -> Seq<
    (Seq<char>, Seq<char>, bool),
>
    decreases ls.len(),
{
    if ls.len() == 0 {
        v
    } else {
        config_step(configured(v, ls.drop_last()), ls.last())
    }
}

impl BinaryPaths {
    /// Every known program, run by its own name, none configured.
    pub fn new() -> (r: BinaryPaths)
        ensures
            r@ == valid_binaries().map_values(|n: Seq<char>| (n, n, false)),
    {
        let names = [
            "mmseqs",
            "foldseek",
            "mafft",
            "mafft-linsi",
            "foldmason",
            "iqtree",
            "fasttree",
            "raxml-ng",
        ];
        let mut bin: Vec<Binary> = Vec::new();
        let mut i: usize = 0;
        while i < 8
            invariant
                i <= 8,
                names@ == seq![
                    "mmseqs",
                    "foldseek",
                    "mafft",
                    "mafft-linsi",
                    "foldmason",
                    "iqtree",
                    "fasttree",
                    "raxml-ng",
                ],
                bin@.map_values(|b: Binary| b@) == valid_binaries().take(i as int).map_values(
                    |n: Seq<char>| (n, n, false),
                ),
            decreases 8 - i,
        {
            let b = Binary::new(names[i], names[i]);
            let ghost before = bin@.map_values(|b: Binary| b@);
            bin.push(b);
            proof {
                let vb = valid_binaries();
                assert(names@[i as int]@ == vb[i as int]);
                assert(b@ == (vb[i as int], vb[i as int], false));
                assert(vb.take(i + 1) =~= vb.take(i as int).push(vb[i as int]));
                assert(vb.take(i + 1).map_values(|n: Seq<char>| (n, n, false)) =~= vb.take(
                    i as int,
                ).map_values(|n: Seq<char>| (n, n, false)).push((vb[i as int], vb[i as int], false)));
                assert(bin@.map_values(|b: Binary| b@) =~= before.push(b@));
            }
            i = i + 1;
        }
        proof {
            assert(valid_binaries().take(8) =~= valid_binaries());
        }
        BinaryPaths { bin }
    }

    /// Position of the program called `name` (see `position_of`).
    fn position(&self, name: &String) -> (r: Option<usize>)
        ensures
            match r {
                Some(i) => position_of(self@, name@) == Some(i as int) && i < self@.len(),
                None => position_of(self@, name@).is_none(),
            },
    {
        let ghost v = self@;
        let mut i: usize = 0;
        proof {
            assert(v.take(0) =~= Seq::<(Seq<char>, Seq<char>, bool)>::empty());
        }
        while i < self.bin.len()
            invariant
                i <= self.bin@.len(),
                v == self@,
                position_of(v.take(i as int), name@).is_none(),
            decreases self.bin@.len() - i,
        {
            proof {
                assert(v.take(i + 1).drop_last() =~= v.take(i as int));
                assert(v.take(i + 1).last() == self.bin@[i as int]@);
            }
            if self.bin[i].name == *name {
                proof {
                    lemma_position_prefix(v, i as int + 1, name@);
                }
                return Some(i);
            }
            i = i + 1;
        }
        proof {
            assert(v.take(i as int) =~= v);
        }
        None
    }

    /// The program called `name`, if it is a known one.
    pub fn get(&self, name: &str) -> (r: Option<&Binary>)
        ensures
            match r {
                Some(b) => exists|i: int| position_of(self@, name@) == Some(i) && b@ == self@[i],
                None => position_of(self@, name@).is_none(),
            },
    {
        let n = String::from_str(name);
        match self.position(&n) {
            Some(i) => {
                proof {
                    assert(self.bin@[i as int]@ == self@[i as int]);
                }
                Some(&self.bin[i])
            },
            None => None,
        }
    }

    /// Runs the program called `name` by `path`, if it is a known one.
    pub fn set(&mut self, name: &str, path: &str)
        ensures
            final(self)@ == with_path(old(self)@, name@, path@, false),
    {
        let n = String::from_str(name);
        self.set_path(&n, String::from_str(path), false);
    }

    fn set_path(&mut self, name: &String, path: String, mark: bool)
        ensures
            final(self)@ == with_path(old(self)@, name@, path@, mark),
    {
        match self.position(name) {
            Some(i) => {
                let ghost v = self@;
                let old_set = self.bin[i].set;
                let b = Binary {
                    name: self.bin[i].name.clone(),
                    path,
                    set: if mark {
                        true
                    } else {
                        old_set
                    },
                };
                self.bin.set(i, b);
                proof {
                    assert(self@ =~= with_path(v, name@, path@, mark));
                }
            },
            None => {},
        }
    }

    /// Applies a configuration text: one `name=path` per line (see `configured`).
    pub fn apply_config(&mut self, text: &str)
        ensures
            final(self)@ == configured(old(self)@, lines_of(text@)),
    {
        let ls = lines(text);
        let ghost lv = char_vec_views(ls@);
        let ghost start = self@;
        let mut i: usize = 0;
        proof {
            assert(lv.take(0) =~= Seq::<Seq<char>>::empty());
        }
        while i < ls.len()
            invariant
                i <= ls@.len(),
                lv == char_vec_views(ls@),
                lv == lines_of(text@),
                self@ == configured(start, lv.take(i as int)),
            decreases ls@.len() - i,
        {
            let line = &ls[i];
            proof {
                assert(line@ == lv[i as int]);
                assert(lv.take(i + 1).drop_last() =~= lv.take(i as int));
                assert(lv.take(i + 1).last() == lv[i as int]);
            }
            if line.len() > 0 && line[0] != '#' {
                let p = pieces(line, '=');
                proof {
                    assert(char_vec_views(p@) == split_on(line@, '='));
                }
                if p.len() >= 2 && p[1].len() > 0 {
                    proof {
                        assert(p@[0]@ == char_vec_views(p@)[0]);
                        assert(p@[1]@ == char_vec_views(p@)[1]);
                        assert(p@[0]@.subrange(0, p@[0]@.len() as int) =~= p@[0]@);
                        assert(p@[1]@.subrange(0, p@[1]@.len() as int) =~= p@[1]@);
                    }
                    let name = string_of(&p[0], 0, p[0].len());
                    let path = string_of(&p[1], 0, p[1].len());
                    self.set_path(&name, path, true);
                }
            }
            i = i + 1;
        }
        proof {
            assert(lv.take(i as int) =~= lv);
        }
    }
}

proof fn lemma_position_prefix(v: Seq<(Seq<char>, Seq<char>, bool)>, n: int, name: Seq<char>)
    requires
        0 < n <= v.len(),
        position_of(v.take(n - 1), name).is_none(),
        v[n - 1].0 == name,
    ensures
        position_of(v, name) == Some(n - 1),
    decreases v.len(),
{
    assert(v.take(n).drop_last() =~= v.take(n - 1));
    if n < v.len() {
        assert(v.drop_last().take(n - 1) =~= v.take(n - 1));
        assert(v.drop_last()[n - 1] == v[n - 1]);
        lemma_position_prefix(v.drop_last(), n, name);
    } else {
        assert(v.take(n) =~= v);
    }
}

} // verus!

verus! {

/// What a caller learns from `new` and `get`: a known program starts out run by
/// its own name and not configured; an unknown name has no entry.
pub proof fn lemma_new_entries(v: Seq<(Seq<char>, Seq<char>, bool)>, name: Seq<char>)
    requires
        v == valid_binaries().map_values(|n: Seq<char>| (n, n, false)),
    ensures
        match position_of(v, name) {
            Some(i) => 0 <= i < v.len() && v[i] == (name, name, false),
            None => !valid_binaries().contains(name),
        },
{
    lemma_position_of(v, name);
    if position_of(v, name).is_none() {
        if valid_binaries().contains(name) {
            let k = choose|k: int| 0 <= k < valid_binaries().len() && valid_binaries()[k] == name;
            assert(v[k].0 == name);
        }
    }
}

/// `position_of` finds an entry with the name, and only when there is one.
pub proof fn lemma_position_of(v: Seq<(Seq<char>, Seq<char>, bool)>, name: Seq<char>)
    ensures
        match position_of(v, name) {
            Some(i) => 0 <= i < v.len() && v[i].0 == name,
            None => forall|k: int| 0 <= k < v.len() ==> v[k].0 != name,
        },
    decreases v.len(),
{
    if v.len() > 0 {
        lemma_position_of(v.drop_last(), name);
        match position_of(v.drop_last(), name) {
            Some(i) => {
                assert(v[i] == v.drop_last()[i]);
            },
            None => {
                assert forall|k: int| 0 <= k < v.len() - 1 implies v[k].0 != name by {
                    assert(v[k] == v.drop_last()[k]);
                }
            },
        }
    }
}

} // verus!
