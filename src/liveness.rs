//! Storage liveness: which local slots may have live storage at a program
//! point, from the `StorageStart` / `StorageEnd` markers alone.
use vstd::prelude::*;
use crate::graph::{adj, propagate, reached};
use crate::ir::{body_succs, Body, Location, Statement};

verus! {

/// The effect of one statement on the storage of `l`: `Some(true)` starts
/// it, `Some(false)` ends it, `None` leaves it as it was.
pub open spec fn stmt_storage(s: Statement, l: usize) -> Option<bool> {
    match s {
        Statement::StorageStart(x) => if x == l { Some(true) } else { None },
        Statement::StorageEnd(x) => if x == l { Some(false) } else { None },
        _ => None,
    }
}

/// The combined effect of the first `k` statements on the storage of `l`:
/// that of the last one that touches it.
pub open spec fn storage_effect(stmts: Seq<Statement>, l: usize, k: int) -> Option<bool>
    decreases k,
{
    if k <= 0 {
        None
    } else {
        match stmt_storage(stmts[k - 1], l) {
            Some(e) => Some(e),
            None => storage_effect(stmts, l, k - 1),
        }
    }
}

pub open spec fn block_effect(body: Body, b: int, l: usize) -> Option<bool> {
    let stmts = body.blocks@[b].statements@;
    storage_effect(stmts, l, stmts.len() as int)
}

/// Storage of `l` is live on entry to `s` without passing through any
/// earlier block: `l` is an argument and `s` the entry block, or a
/// predecessor of `s` starts the storage of `l`.
pub open spec fn live_seed(body: Body, l: usize, s: int) -> bool {
    ||| s == 0 && body.is_arg(l as int)
    ||| exists|b: int|
        0 <= b < body.blocks@.len() && #[trigger] block_effect(body, b, l) == Some(true)
            && body_succs(body)[b].contains(s as usize)
}

pub open spec fn live_seeds(body: Body, l: usize) -> Seq<bool> {
    Seq::new(body.blocks@.len(), |s: int| live_seed(body, l, s))
}

/// Blocks that leave the storage of `l` as they found it.
pub open spec fn transparent(body: Body, l: usize) -> Seq<bool> {
    Seq::new(body.blocks@.len(), |b: int| block_effect(body, b, l) is None)
}

/// The least solution of the forward may-analysis: storage of `l` may be
/// live on entry to block `b`.
pub open spec fn live_on_entry(body: Body, l: usize, b: int) -> bool {
    reached(body_succs(body), live_seeds(body, l), transparent(body, l), b)
}

/// Storage of `l` may be live just before `loc`.
pub open spec fn live_at(body: Body, l: usize, loc: Location) -> bool {
    match storage_effect(body.blocks@[loc.block as int].statements@, l, loc.statement_index as int) {
        Some(e) => e,
        None => live_on_entry(body, l, loc.block as int),
    }
}

/// The effect of one statement on the storage of `l`.
pub fn statement_effect(s: &Statement, l: usize) -> (r: Option<bool>)
    ensures
        r == stmt_storage(*s, l),
{
    match s {
        Statement::StorageStart(x) => if *x == l { Some(true) } else { None },
        Statement::StorageEnd(x) => if *x == l { Some(false) } else { None },
        _ => None,
    }
}

/// The combined effect of the first `k` statements on the storage of `l`.
pub fn storage_effect_upto(stmts: &Vec<Statement>, l: usize, k: usize) -> (r: Option<bool>)
    requires
        k <= stmts@.len(),
    ensures
        r == storage_effect(stmts@, l, k as int),
{
    let mut r: Option<bool> = None;
    let mut i: usize = 0;
    while i < k
        invariant
            k <= stmts@.len(),
            0 <= i <= k,
            r == storage_effect(stmts@, l, i as int),
        decreases k - i,
    {
        match statement_effect(&stmts[i], l) {
            Some(e) => r = Some(e),
            None => {},
        }
        i = i + 1;
    }
    r
}

/// Arguments have live storage on entry to the procedure.
pub fn start_block_effect(body: &Body, l: usize) -> (r: bool)
    ensures
        r == body.is_arg(l as int),
{
    1 <= l && l <= body.arg_count
}

/// Maybe-live storage on entry to every block, for every local.
pub struct MaybeStorageLive {
    /// Indexed by local, then by block.
    pub entry: Vec<Vec<bool>>,
}

impl MaybeStorageLive {
    pub open spec fn solves(&self, body: Body) -> bool {
        &&& self.entry@.len() == body.locals@.len()
        &&& forall|l: int| 0 <= l < self.entry@.len() ==> (#[trigger] self.entry@[l])@.len() == body.blocks@.len()
        &&& forall|l: int, b: int| 0 <= l < self.entry@.len() && 0 <= b < body.blocks@.len() ==>
            (#[trigger] self.entry@[l]@[b] <==> live_on_entry(body, l as usize, b))
    }

    /// Solves the storage-liveness dataflow of `body`.
    pub fn new(body: &Body) -> (r: Self)
        requires
            body.wf(),
        ensures
            r.solves(*body),
    {
        let succs = body.successor_lists();
        let nb = body.blocks.len();
        assert(adj(&succs).len() == body_succs(*body).len());
        let mut entry: Vec<Vec<bool>> = Vec::new();
        let mut l: usize = 0;
        while l < body.locals.len()
            invariant
                body.wf(),
                nb == body.blocks@.len(),
                succs@.len() == nb,
                adj(&succs) == body_succs(*body),
                crate::graph::graph_ok(adj(&succs)),
                0 <= l <= body.locals@.len(),
                entry@.len() == l,
                forall|i: int| 0 <= i < l ==> (#[trigger] entry@[i])@.len() == nb,
                forall|i: int, b: int| 0 <= i < l && 0 <= b < nb ==>
                    (#[trigger] entry@[i]@[b] <==> live_on_entry(*body, i as usize, b)),
            decreases body.locals@.len() - l,
        {
            let mut seeds: Vec<bool> = Vec::new();
            let mut pass: Vec<bool> = Vec::new();
            let mut b: usize = 0;
            while b < nb
                invariant
                    nb == body.blocks@.len(),
                    0 <= b <= nb,
                    seeds@.len() == b,
                    pass@.len() == b,
                    forall|i: int| 0 <= i < b ==> #[trigger] pass@[i] == (block_effect(*body, i, l) is None),
                    forall|i: int| 0 <= i < b ==> seeds@[i] == (i == 0 && body.is_arg(l as int)),
                decreases nb - b,
            {
                let e = storage_effect_upto(&body.blocks[b].statements, l, body.blocks[b].statements.len());
                pass.push(e.is_none());
                seeds.push(b == 0 && start_block_effect(body, l));
                b = b + 1;
            }
            let ghost arg_seeds = seeds@;
            b = 0;
            while b < nb
                invariant
                    nb == body.blocks@.len(),
                    succs@.len() == nb,
                    adj(&succs) == body_succs(*body),
                    crate::graph::graph_ok(adj(&succs)),
                    0 <= b <= nb,
                    seeds@.len() == nb,
                    forall|s: int| 0 <= s < nb ==> (#[trigger] seeds@[s] <==> (arg_seeds[s] || exists|p: int|
                        0 <= p < b && #[trigger] block_effect(*body, p, l) == Some(true)
                            && body_succs(*body)[p].contains(s as usize))),
                    forall|i: int| 0 <= i < nb ==> arg_seeds[i] == (i == 0 && body.is_arg(l as int)),
                decreases nb - b,
            {
                let e = storage_effect_upto(&body.blocks[b].statements, l, body.blocks[b].statements.len());
                if e == Some(true) {
                    let row = &succs[b];
                    assert(row@ == body_succs(*body)[b as int]);
                    let ghost before = seeds@;
                    let mut j: usize = 0;
                    while j < row.len()
                        invariant
                            nb == body.blocks@.len(),
                            0 <= b < nb,
                            row@ == body_succs(*body)[b as int],
                            crate::graph::graph_ok(body_succs(*body)),
                            body_succs(*body).len() == nb,
                            block_effect(*body, b as int, l) == Some(true),
                            seeds@.len() == nb,
                            0 <= j <= row@.len(),
                            forall|s: int| 0 <= s < nb ==> (#[trigger] seeds@[s] <==> (before[s] || exists|jj: int|
                                0 <= jj < j && row@[jj] == s as usize)),
                        decreases row@.len() - j,
                    {
                        let s = row[j];
                        seeds.set(s, true);
                        j = j + 1;
                    }
                    proof {
                        assert forall|s: int| 0 <= s < nb implies (#[trigger] seeds@[s] <==> (arg_seeds[s] || exists|p: int|
                            0 <= p < b + 1 && #[trigger] block_effect(*body, p, l) == Some(true)
                                && body_succs(*body)[p].contains(s as usize))) by {
                            if seeds@[s] && !before[s] {
                                let jj = choose|jj: int| 0 <= jj < row@.len() && row@[jj] == s as usize;
                                assert(body_succs(*body)[b as int].contains(s as usize));
                            }
                            if exists|p: int| 0 <= p < b + 1 && #[trigger] block_effect(*body, p, l) == Some(true)
                                && body_succs(*body)[p].contains(s as usize) {
                                let p = choose|p: int| 0 <= p < b + 1 && #[trigger] block_effect(*body, p, l) == Some(true)
                                    && body_succs(*body)[p].contains(s as usize);
                                if p == b {
                                    let jj = choose|jj: int| 0 <= jj < row@.len() && row@[jj] == s as usize;
                                    assert(0 <= jj < row@.len() && row@[jj] == s as usize);
                                }
                            }
                        }
                    }
                }
                b = b + 1;
            }
            assert(seeds@ =~= live_seeds(*body, l));
            assert(pass@ =~= transparent(*body, l));
            let row = propagate(&succs, &seeds, &pass);
            entry.push(row);
            l = l + 1;
        }
        MaybeStorageLive { entry }
    }

    /// Storage of `l` may be live just before `loc`.
    pub fn contains(&self, body: &Body, l: usize, loc: Location) -> (r: bool)
        requires
            self.solves(*body),
            l < body.locals@.len(),
            loc.block < body.blocks@.len(),
            loc.statement_index <= body.blocks@[loc.block as int].statements@.len(),
        ensures
            r == live_at(*body, l, loc),
    {
        match storage_effect_upto(&body.blocks[loc.block].statements, l, loc.statement_index) {
            Some(e) => e,
            None => self.entry[l][loc.block],
        }
    }
}

} // verus!
