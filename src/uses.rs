//! Whether a local is read again, other than by its destructor, on some path
//! forward from a block; and the unique predecessor of a block.
use vstd::prelude::*;
use crate::graph::{adj, graph_ok, propagate, reached};
use crate::ir::{body_succs, Body, Operand, Place, ProjectionElem, Rvalue, Statement, Terminator};

verus! {

/// `l` is indexed by in the projection chain of `p`.
pub open spec fn index_mentions(p: Place, l: usize) -> bool {
    exists|i: int| 0 <= i < p.projection@.len() && #[trigger] p.projection@[i] == ProjectionElem::Index(l)
}

pub open spec fn place_mentions(p: Place, l: usize) -> bool {
    p.local == l || index_mentions(p, l)
}

pub open spec fn operand_mentions(o: Operand, l: usize) -> bool {
    match o {
        Operand::Copy(p) => place_mentions(p, l),
        Operand::Move(p) => place_mentions(p, l),
        Operand::Constant => false,
    }
}

pub open spec fn rvalue_mentions(rv: Rvalue, l: usize) -> bool {
    match rv {
        Rvalue::Use(o) => operand_mentions(o, l),
        Rvalue::Ref(p) => place_mentions(p, l),
        Rvalue::Aggregate(ops) => exists|i: int| 0 <= i < ops@.len() && operand_mentions(#[trigger] ops@[i], l),
        Rvalue::BinaryOp(a, b) => operand_mentions(a, l) || operand_mentions(b, l),
        Rvalue::UnaryOp(o) => operand_mentions(o, l),
        Rvalue::Cast(o) => operand_mentions(o, l),
        Rvalue::Repeat(o) => operand_mentions(o, l),
    }
}

/// A statement uses `l`; storage markers do not count.
pub open spec fn stmt_uses(s: Statement, l: usize) -> bool {
    match s {
        Statement::Assign(p, rv) => place_mentions(p, l) || rvalue_mentions(rv, l),
        _ => false,
    }
}

/// A terminator uses `l`; running the destructor of `l` itself does not
/// count, but dropping a part of `l` reaches `l` through a projection, and
/// returning reads the return slot.
pub open spec fn term_uses(t: Terminator, l: usize) -> bool {
    match t {
        Terminator::Goto { .. } => false,
        Terminator::Branch { condition, .. } => operand_mentions(condition, l),
        Terminator::Call { args, destination, .. } => {
            ||| exists|i: int| 0 <= i < args@.len() && operand_mentions(#[trigger] args@[i], l)
            ||| match destination {
                Some(p) => place_mentions(p, l),
                None => false,
            }
        },
        Terminator::Drop { place, .. } => (place.local == l && place.projection@.len() > 0) || index_mentions(place, l),
        Terminator::Return => l == 0,
    }
}

pub open spec fn block_uses(body: Body, b: int, l: usize) -> bool {
    ||| exists|i: int| 0 <= i < body.blocks@[b].statements@.len()
            && stmt_uses(#[trigger] body.blocks@[b].statements@[i], l)
    ||| term_uses(body.blocks@[b].terminator, l)
}

/// `t` can be reached from `bb` by following one or more edges.
pub open spec fn reachable_after(body: Body, bb: int, t: int) -> bool {
    let g = body_succs(body);
    reached(g, Seq::new(g.len(), |y: int| g[bb].contains(y as usize)), Seq::new(g.len(), |y: int| true), t)
}

/// Some block reachable from `bb`, other than `bb` itself, uses `l` or leads
/// straight back to `bb`.
pub open spec fn used_later(body: Body, bb: int, l: usize) -> bool {
    exists|t: int|
        0 <= t < body.blocks@.len() && t != bb && #[trigger] reachable_after(body, bb, t) && (body_succs(body)[t].contains(
            bb as usize,
        ) || block_uses(body, t, l))
}

fn index_mentions_exec(p: &Place, l: usize) -> (r: bool)
    ensures
        r == index_mentions(*p, l),
{
    let mut i: usize = 0;
    while i < p.projection.len()
        invariant
            0 <= i <= p.projection@.len(),
            forall|k: int| 0 <= k < i ==> #[trigger] p.projection@[k] != ProjectionElem::Index(l),
        decreases p.projection@.len() - i,
    {
        match p.projection[i] {
            ProjectionElem::Index(x) => {
                if x == l {
                    return true;
                }
            },
            _ => {},
        }
        i = i + 1;
    }
    false
}

fn place_mentions_exec(p: &Place, l: usize) -> (r: bool)
    ensures
        r == place_mentions(*p, l),
{
    p.local == l || index_mentions_exec(p, l)
}

fn operand_mentions_exec(o: &Operand, l: usize) -> (r: bool)
    ensures
        r == operand_mentions(*o, l),
{
    match o {
        Operand::Copy(p) | Operand::Move(p) => place_mentions_exec(p, l),
        Operand::Constant => false,
    }
}

fn operands_mention(ops: &Vec<Operand>, l: usize) -> (r: bool)
    ensures
        r == exists|i: int| 0 <= i < ops@.len() && operand_mentions(#[trigger] ops@[i], l),
{
    let mut i: usize = 0;
    while i < ops.len()
        invariant
            0 <= i <= ops@.len(),
            forall|k: int| 0 <= k < i ==> !operand_mentions(#[trigger] ops@[k], l),
        decreases ops@.len() - i,
    {
        if operand_mentions_exec(&ops[i], l) {
            return true;
        }
        i = i + 1;
    }
    false
}

fn statement_uses(s: &Statement, l: usize) -> (r: bool)
    ensures
        r == stmt_uses(*s, l),
{
    match s {
        Statement::Assign(p, rv) => {
            place_mentions_exec(p, l) || match rv {
                Rvalue::Use(o) | Rvalue::UnaryOp(o) | Rvalue::Cast(o) | Rvalue::Repeat(o) => operand_mentions_exec(o, l),
                Rvalue::Ref(q) => place_mentions_exec(q, l),
                Rvalue::Aggregate(ops) => operands_mention(ops, l),
                Rvalue::BinaryOp(a, b) => operand_mentions_exec(a, l) || operand_mentions_exec(b, l),
            }
        },
        _ => false,
    }
}

fn terminator_uses(t: &Terminator, l: usize) -> (r: bool)
    ensures
        r == term_uses(*t, l),
{
    match t {
        Terminator::Goto { .. } => false,
        Terminator::Branch { condition, .. } => operand_mentions_exec(condition, l),
        Terminator::Call { args, destination, .. } => {
            operands_mention(args, l) || match destination {
                Some(p) => place_mentions_exec(p, l),
                None => false,
            }
        },
        Terminator::Drop { place, .. } => (place.local == l && place.projection.len() > 0) || index_mentions_exec(place, l),
        Terminator::Return => l == 0,
    }
}

/// Block `b` uses `l` other than by dropping it or by a storage marker.
pub fn local_used_in_block(body: &Body, b: usize, l: usize) -> (r: bool)
    requires
        b < body.blocks@.len(),
    ensures
        r == block_uses(*body, b as int, l),
{
    let block = &body.blocks[b];
    let mut i: usize = 0;
    while i < block.statements.len()
        invariant
            *block == body.blocks@[b as int],
            0 <= i <= block.statements@.len(),
            forall|k: int| 0 <= k < i ==> !stmt_uses(#[trigger] block.statements@[k], l),
        decreases block.statements@.len() - i,
    {
        if statement_uses(&block.statements[i], l) {
            return true;
        }
        i = i + 1;
    }
    terminator_uses(&block.terminator, l)
}

fn contains_block(v: &Vec<usize>, x: usize) -> (r: bool)
    ensures
        r == v@.contains(x),
{
    let mut i: usize = 0;
    while i < v.len()
        invariant
            0 <= i <= v@.len(),
            forall|k: int| 0 <= k < i ==> v@[k] != x,
        decreases v@.len() - i,
    {
        if v[i] == x {
            return true;
        }
        i = i + 1;
    }
    false
}

/// Whether `l` may be read again after the call that ends block `bb`:
/// conservatively true when a path forward leads back to `bb`.
pub fn is_used_later(body: &Body, succs: &Vec<Vec<usize>>, bb: usize, l: usize) -> (r: bool)
    requires
        body.wf(),
        adj(succs) == body_succs(*body),
        graph_ok(adj(succs)),
        bb < body.blocks@.len(),
    ensures
        r == used_later(*body, bb as int, l),
{
    let n = succs.len();
    assert(adj(succs).len() == n);
    let ghost g = adj(succs);
    let mut seeds: Vec<bool> = Vec::new();
    let mut pass: Vec<bool> = Vec::new();
    let mut y: usize = 0;
    while y < n
        invariant
            n == succs@.len(),
            g == adj(succs),
            bb < n,
            0 <= y <= n,
            seeds@.len() == y,
            pass@.len() == y,
            forall|k: int| 0 <= k < y ==> #[trigger] pass@[k],
            forall|k: int| 0 <= k < y ==> #[trigger] seeds@[k] == g[bb as int].contains(k as usize),
        decreases n - y,
    {
        assert(succs@[bb as int]@ == g[bb as int]);
        seeds.push(contains_block(&succs[bb], y));
        pass.push(true);
        y = y + 1;
    }
    assert(seeds@ =~= Seq::new(g.len(), |k: int| g[bb as int].contains(k as usize)));
    assert(pass@ =~= Seq::new(g.len(), |k: int| true));
    let reach = propagate(succs, &seeds, &pass);
    let mut t: usize = 0;
    while t < n
        invariant
            body.wf(),
            n == succs@.len(),
            n == body.blocks@.len(),
            g == adj(succs),
            g == body_succs(*body),
            reach@.len() == n,
            forall|k: int| 0 <= k < n ==> (#[trigger] reach@[k] <==> reachable_after(*body, bb as int, k)),
            0 <= t <= n,
            forall|k: int| 0 <= k < t ==> !(k != bb && #[trigger] reachable_after(*body, bb as int, k) && (
                body_succs(*body)[k].contains(bb as usize) || block_uses(*body, k, l))),
        decreases n - t,
    {
        if t != bb && reach[t] {
            assert(succs@[t as int]@ == g[t as int]);
            if contains_block(&succs[t], bb) || local_used_in_block(body, t, l) {
                return true;
            }
        }
        t = t + 1;
    }
    false
}

pub open spec fn is_block(bb: usize) -> spec_fn(usize) -> bool {
    |s: usize| s == bb
}

/// How many entries of `v` are `bb`.
pub open spec fn hits(v: Seq<usize>, bb: usize) -> nat {
    v.filter(is_block(bb)).len()
}

/// Number of edges into `bb` from the blocks before `k`.
pub open spec fn in_edges(g: Seq<Seq<usize>>, bb: usize, k: int) -> nat
    decreases k,
{
    if k <= 0 {
        0
    } else {
        in_edges(g, bb, k - 1) + hits(g[k - 1], bb)
    }
}

/// Edges from `p` into `bb`.
pub open spec fn edges_from(g: Seq<Seq<usize>>, p: int, bb: usize) -> nat {
    hits(g[p], bb)
}

fn count_edges(v: &Vec<usize>, bb: usize) -> (r: usize)
    ensures
        r == hits(v@, bb),
{
    let mut c: usize = 0;
    let mut i: usize = 0;
    while i < v.len()
        invariant
            0 <= i <= v@.len(),
            c == hits(v@.subrange(0, i as int), bb),
            c <= i,
        decreases v@.len() - i,
    {
        proof {
            let pre = v@.subrange(0, i as int);
            assert(v@.subrange(0, i as int + 1) =~= pre.push(v@[i as int]));
            pre.lemma_filter_push(v@[i as int], is_block(bb));
        }
        if v[i] == bb {
            c = c + 1;
        }
        i = i + 1;
    }
    assert(v@.subrange(0, v@.len() as int) =~= v@);
    c
}

/// The one block with an edge into `bb`, when there is exactly one such
/// edge in the whole graph.
pub fn unique_predecessor(succs: &Vec<Vec<usize>>, bb: usize) -> (r: Option<usize>)
    ensures
        match r {
            Some(p) => p < succs@.len() && in_edges(adj(succs), bb, succs@.len() as int) == 1
                && edges_from(adj(succs), p as int, bb) == 1,
            None => in_edges(adj(succs), bb, succs@.len() as int) != 1,
        },
{
    let ghost g = adj(succs);
    let mut total: usize = 0;
    let mut found: Option<usize> = None;
    let mut k: usize = 0;
    while k < succs.len()
        invariant
            g == adj(succs),
            0 <= k <= succs@.len(),
            total == if in_edges(g, bb, k as int) >= 2 { 2 } else { in_edges(g, bb, k as int) },
            total == 1 ==> match found {
                Some(p) => p < k && edges_from(g, p as int, bb) == 1,
                None => false,
            },
        decreases succs@.len() - k,
    {
        assert(succs@[k as int]@ == g[k as int]);
        let c = count_edges(&succs[k], bb);
        assert(in_edges(g, bb, k as int + 1) == in_edges(g, bb, k as int) + hits(g[k as int], bb));
        if c >= 2 || total + c >= 2 {
            total = 2;
        } else {
            if c == 1 {
                found = Some(k);
            }
            total = total + c;
        }
        k = k + 1;
    }
    if total == 1 {
        found
    } else {
        None
    }
}

} // verus!
