use vstd::prelude::*;

verus! {

/// A module of the pipeline.
#[derive(PartialEq, Eq, Structural, Clone, Copy, Debug)]
pub enum Stage {
    Createdb,
    Cluster,
    Search,
    Profile,
    Tree,
}

/// An end-to-end workflow.
#[derive(PartialEq, Eq, Structural, Clone, Copy, Debug)]
pub enum Workflow {
    /// Database, clustering, profiling, tree.
    EasyCore,
    /// Database, search against a target, profiling, tree.
    EasySearch,
}

/// The stages of a workflow, in order.
pub open spec fn stages_of(w: Workflow) -> Seq<Stage> {
    match w {
        Workflow::EasyCore => seq![Stage::Createdb, Stage::Cluster, Stage::Profile, Stage::Tree],
        Workflow::EasySearch => seq![Stage::Createdb, Stage::Search, Stage::Profile, Stage::Tree],
    }
}

/// Whether a stage must run, given what its checkpoint file holds (`None` when
/// there is no such file): the database is rebuilt when asked to or when its
/// checkpoint says `0`; any other stage runs unless its checkpoint says `1`.
pub open spec fn stage_needed(s: Stage, checkpoint: Option<Seq<char>>, overwrite: bool) -> bool {
    match checkpoint {
        None => true,
        Some(c) => if s == Stage::Createdb {
            overwrite || c == "0"@
        } else {
            c != "1"@
        },
    }
}

/// The stages of `w` to run, in order, given the checkpoint of each stage.
pub open spec fn plan(w: Workflow, checkpoints: Seq<Option<Seq<char>>>, overwrite: bool) -> Seq<Stage>
    decreases checkpoints.len(),
{
    if checkpoints.len() == 0 {
        Seq::empty()
    } else {
        let k = (checkpoints.len() - 1) as int;
        let p = plan(w, checkpoints.drop_last(), overwrite);
        if stage_needed(stages_of(w)[k], checkpoints.last(), overwrite) {
            p.push(stages_of(w)[k])
        } else {
            p
        }
    }
}

/// The stages of a workflow, in order.
pub fn stages(w: Workflow) -> (r: Vec<Stage>)
    ensures
        r@ == stages_of(w),
{
    let r = match w {
        Workflow::EasyCore => vec![Stage::Createdb, Stage::Cluster, Stage::Profile, Stage::Tree],
        Workflow::EasySearch => vec![Stage::Createdb, Stage::Search, Stage::Profile, Stage::Tree],
    };
    proof {
        assert(r@ =~= stages_of(w));
    }
    r
}

/// Whether stage `s` must run (see `stage_needed`).
pub fn needed(s: Stage, checkpoint: &Option<String>, overwrite: bool) -> (r: bool)
    ensures
        r == stage_needed(
            s,
            match checkpoint {
                Some(c) => Some(c@),
                None => None,
            },
            overwrite,
        ),
{
    match checkpoint {
        None => true,
        Some(c) => {
            let zero = String::from_str("0");
            let one = String::from_str("1");
            if s == Stage::Createdb {
                overwrite || *c == zero
            } else {
                !(*c == one)
            }
        },
    }
}

/// Decides which stages of workflow `w` run, given what the checkpoint of each
/// stage holds, in stage order (see `plan`).
pub fn run(w: Workflow, checkpoints: &Vec<Option<String>>, overwrite: bool) -> (r: Vec<Stage>)
    requires
        checkpoints@.len() == stages_of(w).len(),
    ensures
        r@ == plan(
            w,
            checkpoints@.map_values(
                |c: Option<String>|
                    match c {
                        Some(s) => Some(s@),
                        None => None,
                    },
            ),
            overwrite,
        ),
{
    let ghost cv = checkpoints@.map_values(
        |c: Option<String>|
            match c {
                Some(s) => Some(s@),
                None => None,
            },
    );
    let all = stages(w);
    let mut out: Vec<Stage> = Vec::new();
    let mut i: usize = 0;
    proof {
        assert(cv.take(0) =~= Seq::<Option<Seq<char>>>::empty());
    }
    while i < checkpoints.len()
        invariant
            i <= checkpoints@.len(),
            checkpoints@.len() == stages_of(w).len(),
            all@ == stages_of(w),
            cv == checkpoints@.map_values(
                |c: Option<String>|
                    match c {
                        Some(s) => Some(s@),
                        None => None,
                    },
            ),
            out@ == plan(w, cv.take(i as int), overwrite),
        decreases checkpoints@.len() - i,
    {
        proof {
            assert(cv.take(i + 1).drop_last() =~= cv.take(i as int));
            assert(cv.take(i + 1).last() == cv[i as int]);
        }
        if needed(all[i], &checkpoints[i], overwrite) {
            out.push(all[i]);
        }
        i = i + 1;
    }
    proof {
        assert(cv.take(i as int) =~= cv);
    }
    out
}

} // verus!
