//! The possible-borrower relation: which locals may hold a reference into
//! another local, directly or through a chain of other locals.
use vstd::prelude::*;
use crate::graph::{adj, graph_ok, is_walk, propagate, reached};
use crate::ir::{block_ok, operand_ok, place_ok, rvalue_ok, statement_ok, terminator_ok, Body, Location, Operand, Place, Rvalue, Statement, Terminator};
use crate::liveness::{MaybeStorageLive, live_at};

verus! {

/// The local that an operand reads, if any.
pub open spec fn operand_local(o: Operand) -> Option<usize> {
    match o {
        Operand::Copy(p) => Some(p.local),
        Operand::Move(p) => Some(p.local),
        Operand::Constant => None,
    }
}

/// The local an operand reads, as a sequence of zero or one element.
pub open spec fn operand_local_seq(o: Operand) -> Seq<usize> {
    match operand_local(o) {
        Some(l) => seq![l],
        None => Seq::empty(),
    }
}

/// The locals that the first `k` operands read, in order.
pub open spec fn operands_local_seq(ops: Seq<Operand>, k: int) -> Seq<usize>
    decreases k,
{
    if k <= 0 {
        Seq::empty()
    } else {
        operands_local_seq(ops, k - 1) + operand_local_seq(ops[k - 1])
    }
}

/// The locals that `rv` reads through its operands, in operand order,
/// skipping constants; a reference creation reads none.
pub open spec fn rvalue_local_seq(rv: Rvalue) -> Seq<usize> {
    match rv {
        Rvalue::Use(o) => operand_local_seq(o),
        Rvalue::Repeat(o) => operand_local_seq(o),
        Rvalue::Cast(o) => operand_local_seq(o),
        Rvalue::UnaryOp(o) => operand_local_seq(o),
        Rvalue::BinaryOp(a, b) => operand_local_seq(a) + operand_local_seq(b),
        Rvalue::Aggregate(ops) => operands_local_seq(ops@, ops@.len() as int),
        Rvalue::Ref(_) => Seq::empty(),
    }
}

/// `rv` reads local `x` through one of its operands (a reference creation
/// reads nothing).
pub open spec fn rvalue_reads(rv: Rvalue, x: usize) -> bool {
    match rv {
        Rvalue::Use(o) => operand_local(o) == Some(x),
        Rvalue::Repeat(o) => operand_local(o) == Some(x),
        Rvalue::Cast(o) => operand_local(o) == Some(x),
        Rvalue::UnaryOp(o) => operand_local(o) == Some(x),
        Rvalue::BinaryOp(a, b) => operand_local(a) == Some(x) || operand_local(b) == Some(x),
        Rvalue::Aggregate(ops) => exists|i: int| 0 <= i < ops@.len() && operand_local(#[trigger] ops@[i]) == Some(x),
        Rvalue::Ref(_) => false,
    }
}

/// `lhs = rv` makes `b` a possible borrower of `a`.
pub open spec fn assign_edge(body: Body, lhs: Place, rv: Rvalue, a: usize, b: usize) -> bool {
    &&& b == lhs.local
    &&& match rv {
        Rvalue::Ref(p) => a == p.local,
        _ => body.locals@[lhs.local as int].carries_ref && a != lhs.local && rvalue_reads(rv, a),
    }
}

/// A call whose result can carry a reference makes its destination a
/// possible borrower of every local among its arguments.
pub open spec fn call_edge(body: Body, t: Terminator, a: usize, b: usize) -> bool {
    match t {
        Terminator::Call { args, destination, .. } => match destination {
            Some(d) => b == d.local && body.locals@[d.local as int].carries_ref && exists|i: int|
                0 <= i < args@.len() && operand_local(#[trigger] args@[i]) == Some(a),
            None => false,
        },
        _ => false,
    }
}

pub open spec fn stmt_edge(body: Body, s: Statement, a: usize, b: usize) -> bool {
    match s {
        Statement::Assign(p, rv) => assign_edge(body, p, rv, a, b),
        _ => false,
    }
}

/// Some statement or terminator of block `blk` makes `b` a possible borrower of `a`.
pub open spec fn block_edge(body: Body, blk: int, a: usize, b: usize) -> bool {
    ||| exists|i: int| 0 <= i < body.blocks@[blk].statements@.len()
            && stmt_edge(body, #[trigger] body.blocks@[blk].statements@[i], a, b)
    ||| call_edge(body, body.blocks@[blk].terminator, a, b)
}

/// The direct possible-borrower edges of the whole procedure.
pub open spec fn borrow_edge(body: Body, a: usize, b: usize) -> bool {
    exists|blk: int| 0 <= blk < body.blocks@.len() && #[trigger] block_edge(body, blk, a, b)
}

pub open spec fn edge_in(g: Seq<Seq<usize>>, a: usize, b: usize) -> bool {
    g[a as int].contains(b)
}

/// A chain of locals in which each next one is a direct possible borrower
/// of the one before.
pub open spec fn borrow_walk(body: Body, p: Seq<int>) -> bool {
    &&& p.len() > 0
    &&& forall|i: int| 0 <= i < p.len() ==> 0 <= #[trigger] p[i] < body.locals@.len()
    &&& forall|i: int| 0 <= i < p.len() - 1 ==> borrow_edge(body, #[trigger] p[i] as usize, p[i + 1] as usize)
}

/// `b` may borrow from `a` through one or more edges: the transitive
/// closure of the direct relation.
pub open spec fn borrows_from(body: Body, a: usize, b: usize) -> bool {
    exists|p: Seq<int>| #[trigger] borrow_walk(body, p) && p.len() >= 2 && p[0] == a as int && p.last() == b as int
}

proof fn lemma_reads_in_range(rv: Rvalue, nl: int, x: usize)
    requires
        rvalue_ok(rv, nl),
        rvalue_reads(rv, x),
    ensures
        x < nl,
{
    match rv {
        Rvalue::Aggregate(ops) => {
            let i = choose|i: int| 0 <= i < ops@.len() && operand_local(#[trigger] ops@[i]) == Some(x);
            assert(operand_ok(ops@[i], nl));
        },
        _ => {},
    }
}

fn add_edge(lists: &mut Vec<Vec<usize>>, a: usize, b: usize)
    requires
        a < old(lists)@.len(),
        b < old(lists)@.len(),
        graph_ok(adj(old(lists))),
    ensures
        final(lists)@.len() == old(lists)@.len(),
        graph_ok(adj(final(lists))),
        forall|x: usize, y: usize| #![trigger edge_in(adj(final(lists)), x, y)] x < final(lists)@.len() ==>
            (edge_in(adj(final(lists)), x, y) <==> edge_in(adj(old(lists)), x, y) || (x == a && y == b)),
{
    let mut row = lists[a].clone();
    let ghost old_row = row@;
    row.push(b);
    assert(row@ == old_row.push(b));
    lists.set(a, row);
    proof {
        let g = adj(lists);
        let g0 = adj(old(lists));
        assert forall|x: int, j: int| 0 <= x < g.len() && 0 <= j < g[x].len() implies #[trigger] g[x][j] < g.len() by {
            if x == a {
                if j < old_row.len() {
                    assert(g[x][j] == g0[x][j]);
                }
            } else {
                assert(g[x] == g0[x]);
            }
        }
        assert forall|x: usize, y: usize| #![trigger edge_in(adj(lists), x, y)] x < lists@.len() implies
            (edge_in(adj(lists), x, y) <==> edge_in(adj(old(lists)), x, y) || (x == a && y == b)) by {
            if x == a {
                if edge_in(adj(old(lists)), x, y) {
                    let k = choose|k: int| 0 <= k < old_row.len() && old_row[k] == y;
                    assert(row@[k] == y);
                }
                if y == b {
                    assert(row@[old_row.len() as int] == b);
                }
                if edge_in(adj(lists), x, y) {
                    let k = choose|k: int| 0 <= k < row@.len() && row@[k] == y;
                    if k < old_row.len() {
                        assert(old_row[k] == y);
                    }
                }
            }
        }
    }
}

/// The locals that `rv` reads through its operands, in order.
pub fn rvalue_locals(rv: &Rvalue) -> (r: Vec<usize>)
    ensures
        r@ == rvalue_local_seq(*rv),
        forall|x: usize| r@.contains(x) <==> rvalue_reads(*rv, x),
{
    let mut r: Vec<usize> = Vec::new();
    match rv {
        Rvalue::Use(o) | Rvalue::Repeat(o) | Rvalue::Cast(o) | Rvalue::UnaryOp(o) => {
            match o {
                Operand::Copy(p) | Operand::Move(p) => r.push(p.local),
                Operand::Constant => {},
            }
            assert(r@ =~= rvalue_local_seq(*rv));
            proof {
                assert forall|x: usize| r@.contains(x) <==> rvalue_reads(*rv, x) by {
                    if r@.contains(x) {
                        let k = choose|k: int| 0 <= k < r@.len() && r@[k] == x;
                    }
                    if rvalue_reads(*rv, x) {
                        assert(r@[0] == x);
                    }
                }
            }
        },
        Rvalue::BinaryOp(a, b) => {
            match a {
                Operand::Copy(p) | Operand::Move(p) => r.push(p.local),
                Operand::Constant => {},
            }
            let ghost r1 = r@;
            assert(r1 =~= operand_local_seq(*a));
            match b {
                Operand::Copy(p) | Operand::Move(p) => r.push(p.local),
                Operand::Constant => {},
            }
            assert(r@ =~= rvalue_local_seq(*rv));
            proof {
                assert forall|x: usize| r@.contains(x) <==> rvalue_reads(*rv, x) by {
                    if r@.contains(x) {
                        let k = choose|k: int| 0 <= k < r@.len() && r@[k] == x;
                    }
                    if operand_local(*a) == Some(x) {
                        assert(r@[0] == x);
                    }
                    if operand_local(*b) == Some(x) {
                        assert(r@[r@.len() - 1] == x);
                    }
                }
            }
        },
        Rvalue::Aggregate(ops) => {
            let mut i: usize = 0;
            while i < ops.len()
                invariant
                    0 <= i <= ops@.len(),
                    r@ == operands_local_seq(ops@, i as int),
                    forall|x: usize| r@.contains(x) <==> exists|k: int| 0 <= k < i && operand_local(#[trigger] ops@[k]) == Some(x),
                decreases ops@.len() - i,
            {
                let ghost before = r@;
                match &ops[i] {
                    Operand::Copy(p) | Operand::Move(p) => r.push(p.local),
                    Operand::Constant => {},
                }
                assert(r@ =~= operands_local_seq(ops@, i as int + 1));
                proof {
                    assert forall|x: usize| r@.contains(x) <==> exists|k: int| 0 <= k < i + 1 && operand_local(#[trigger] ops@[k]) == Some(x) by {
                        if r@.contains(x) {
                            let k = choose|k: int| 0 <= k < r@.len() && r@[k] == x;
                            if k < before.len() {
                                assert(before[k] == x);
                                assert(before.contains(x));
                            }
                        }
                        if exists|k: int| 0 <= k < i + 1 && operand_local(#[trigger] ops@[k]) == Some(x) {
                            let k = choose|k: int| 0 <= k < i + 1 && operand_local(#[trigger] ops@[k]) == Some(x);
                            if k < i {
                                assert(exists|k2: int| 0 <= k2 < i && operand_local(#[trigger] ops@[k2]) == Some(x));
                                assert(before.contains(x));
                                let m = choose|m: int| 0 <= m < before.len() && before[m] == x;
                                assert(r@[m] == x);
                            } else {
                                assert(r@[r@.len() - 1] == x);
                            }
                        }
                    }
                }
                i = i + 1;
            }
        },
        Rvalue::Ref(_) => {},
    }
    r
}

/// Records the edges that `place = rv` contributes.
fn visit_assign(body: &Body, lists: &mut Vec<Vec<usize>>, place: &Place, rv: &Rvalue)
    requires
        old(lists)@.len() == body.locals@.len(),
        graph_ok(adj(old(lists))),
        place_ok(*place, body.locals@.len() as int),
        rvalue_ok(*rv, body.locals@.len() as int),
    ensures
        final(lists)@.len() == old(lists)@.len(),
        graph_ok(adj(final(lists))),
        forall|x: usize, y: usize| #![trigger edge_in(adj(final(lists)), x, y)] x < final(lists)@.len() ==>
            (edge_in(adj(final(lists)), x, y) <==> edge_in(adj(old(lists)), x, y) || assign_edge(*body, *place, *rv, x, y)),
{
    let lhs = place.local;
    match rv {
        Rvalue::Ref(borrowed) => {
            add_edge(lists, borrowed.local, lhs);
        },
        _ => {
            if !body.locals[lhs].carries_ref {
                return;
            }
            let reads = rvalue_locals(rv);
            let mut i: usize = 0;
            while i < reads.len()
                invariant
                    lists@.len() == body.locals@.len(),
                    graph_ok(adj(lists)),
                    rvalue_ok(*rv, body.locals@.len() as int),
                    lhs == place.local,
                    lhs < body.locals@.len(),
                    body.locals@[lhs as int].carries_ref,
                    !(rv is Ref),
                    forall|x: usize| reads@.contains(x) <==> rvalue_reads(*rv, x),
                    0 <= i <= reads@.len(),
                    forall|x: usize, y: usize| #![trigger edge_in(adj(lists), x, y)] x < lists@.len() ==>
                        (edge_in(adj(lists), x, y) <==> edge_in(adj(old(lists)), x, y) || (y == lhs && x != lhs
                            && exists|k: int| 0 <= k < i && reads@[k] == x)),
                decreases reads@.len() - i,
            {
                let r = reads[i];
                assert(reads@.contains(r));
                proof {
                    lemma_reads_in_range(*rv, body.locals@.len() as int, r);
                }
                let ghost mid = adj(lists);
                if r != lhs {
                    add_edge(lists, r, lhs);
                }
                proof {
                    assert forall|x: usize, y: usize| #![trigger edge_in(adj(lists), x, y)] x < lists@.len() implies
                        (edge_in(adj(lists), x, y) <==> edge_in(adj(old(lists)), x, y) || (y == lhs && x != lhs
                            && exists|k: int| 0 <= k < i + 1 && reads@[k] == x)) by {
                        if y == lhs && x != lhs && exists|k: int| 0 <= k < i + 1 && reads@[k] == x {
                            let k = choose|k: int| 0 <= k < i + 1 && reads@[k] == x;
                            if k < i {
                                assert(exists|k2: int| 0 <= k2 < i && reads@[k2] == x);
                            }
                        }
                        if edge_in(mid, x, y) && !edge_in(adj(old(lists)), x, y) {
                            let k = choose|k: int| 0 <= k < i && reads@[k] == x;
                            assert(0 <= k < i + 1 && reads@[k] == x);
                        }
                    }
                }
                i = i + 1;
            }
            proof {
                assert forall|x: usize, y: usize| #![trigger edge_in(adj(lists), x, y)] x < lists@.len() implies
                    (edge_in(adj(lists), x, y) <==> edge_in(adj(old(lists)), x, y) || assign_edge(*body, *place, *rv, x, y)) by {
                    if assign_edge(*body, *place, *rv, x, y) {
                        assert(reads@.contains(x));
                        let k = choose|k: int| 0 <= k < reads@.len() && reads@[k] == x;
                    }
                    if exists|k: int| 0 <= k < reads@.len() && reads@[k] == x {
                        let k = choose|k: int| 0 <= k < reads@.len() && reads@[k] == x;
                        assert(reads@.contains(x));
                    }
                }
            }
        },
    }
}

/// Records the edges that a call terminator contributes.
fn visit_terminator(body: &Body, lists: &mut Vec<Vec<usize>>, t: &Terminator)
    requires
        old(lists)@.len() == body.locals@.len(),
        graph_ok(adj(old(lists))),
        terminator_ok(*t, body.locals@.len() as int, body.blocks@.len() as int),
    ensures
        final(lists)@.len() == old(lists)@.len(),
        graph_ok(adj(final(lists))),
        forall|x: usize, y: usize| #![trigger edge_in(adj(final(lists)), x, y)] x < final(lists)@.len() ==>
            (edge_in(adj(final(lists)), x, y) <==> edge_in(adj(old(lists)), x, y) || call_edge(*body, *t, x, y)),
{
    if let Terminator::Call { args, destination: Some(dest), .. } = t {
        let d = dest.local;
        if !body.locals[d].carries_ref {
            return;
        }
        assert(forall|k: int| 0 <= k < args@.len() ==> operand_ok(#[trigger] args@[k], body.locals@.len() as int));
        let mut i: usize = 0;
        while i < args.len()
            invariant
                forall|k: int| 0 <= k < args@.len() ==> operand_ok(#[trigger] args@[k], body.locals@.len() as int),
                lists@.len() == body.locals@.len(),
                graph_ok(adj(lists)),
                terminator_ok(*t, body.locals@.len() as int, body.blocks@.len() as int),
                d == dest.local,
                d < body.locals@.len(),
                0 <= i <= args@.len(),
                forall|x: usize, y: usize| #![trigger edge_in(adj(lists), x, y)] x < lists@.len() ==>
                    (edge_in(adj(lists), x, y) <==> edge_in(adj(old(lists)), x, y) || (y == d
                        && exists|k: int| 0 <= k < i && operand_local(#[trigger] args@[k]) == Some(x))),
            decreases args@.len() - i,
        {
            let ghost mid = adj(lists);
            assert(operand_ok(args@[i as int], body.locals@.len() as int));
            match &args[i] {
                Operand::Copy(p) | Operand::Move(p) => add_edge(lists, p.local, d),
                Operand::Constant => {},
            }
            proof {
                assert forall|x: usize, y: usize| #![trigger edge_in(adj(lists), x, y)] x < lists@.len() implies
                    (edge_in(adj(lists), x, y) <==> edge_in(adj(old(lists)), x, y) || (y == d
                        && exists|k: int| 0 <= k < i + 1 && operand_local(#[trigger] args@[k]) == Some(x))) by {
                    if y == d && exists|k: int| 0 <= k < i + 1 && operand_local(#[trigger] args@[k]) == Some(x) {
                        let k = choose|k: int| 0 <= k < i + 1 && operand_local(#[trigger] args@[k]) == Some(x);
                        if k < i {
                            assert(exists|k2: int| 0 <= k2 < i && operand_local(#[trigger] args@[k2]) == Some(x));
                        }
                    }
                    if edge_in(mid, x, y) && !edge_in(adj(old(lists)), x, y) {
                        let k = choose|k: int| 0 <= k < i && operand_local(#[trigger] args@[k]) == Some(x);
                        assert(0 <= k < i + 1 && operand_local(args@[k]) == Some(x));
                    }
                }
            }
            i = i + 1;
        }
    }
}

/// The direct possible-borrower edges of `body`, as adjacency lists indexed
/// by the borrowed local.
pub fn possible_borrower_graph(body: &Body) -> (r: Vec<Vec<usize>>)
    requires
        body.wf(),
    ensures
        r@.len() == body.locals@.len(),
        graph_ok(adj(&r)),
        forall|x: usize, y: usize| #![trigger edge_in(adj(&r), x, y)] x < r@.len() ==> (edge_in(adj(&r), x, y) <==> borrow_edge(*body, x, y)),
{
    let nl = body.locals.len();
    let mut lists: Vec<Vec<usize>> = Vec::new();
    let mut l: usize = 0;
    while l < nl
        invariant
            0 <= l <= nl,
            lists@.len() == l,
            forall|i: int| 0 <= i < l ==> (#[trigger] lists@[i])@.len() == 0,
        decreases nl - l,
    {
        lists.push(Vec::new());
        l = l + 1;
    }
    assert(graph_ok(adj(&lists)));
    let mut b: usize = 0;
    while b < body.blocks.len()
        invariant
            body.wf(),
            nl == body.locals@.len(),
            lists@.len() == nl,
            graph_ok(adj(&lists)),
            0 <= b <= body.blocks@.len(),
            forall|x: usize, y: usize| #![trigger edge_in(adj(&lists), x, y)] x < nl ==> (edge_in(adj(&lists), x, y) <==> exists|blk: int|
                0 <= blk < b && #[trigger] block_edge(*body, blk, x, y)),
        decreases body.blocks@.len() - b,
    {
        let block = &body.blocks[b];
        assert(block_ok(*block, nl as int, body.blocks@.len() as int));
        let ghost start = adj(&lists);
        let mut i: usize = 0;
        while i < block.statements.len()
            invariant
                body.wf(),
                *block == body.blocks@[b as int],
                block_ok(*block, nl as int, body.blocks@.len() as int),
                nl == body.locals@.len(),
                lists@.len() == nl,
                graph_ok(adj(&lists)),
                0 <= i <= block.statements@.len(),
                forall|x: usize, y: usize| #![trigger edge_in(adj(&lists), x, y)] x < nl ==> (edge_in(adj(&lists), x, y) <==> edge_in(start, x, y) || exists|k: int|
                    0 <= k < i && stmt_edge(*body, #[trigger] block.statements@[k], x, y)),
            decreases block.statements@.len() - i,
        {
            let ghost mid = adj(&lists);
            assert(statement_ok(block.statements@[i as int], nl as int));
            match &block.statements[i] {
                Statement::Assign(place, rv) => {
                    visit_assign(body, &mut lists, place, rv);
                    assert(forall|x: usize, y: usize| #![trigger edge_in(adj(&lists), x, y)] x < nl ==> (edge_in(adj(&lists), x, y) <==> edge_in(mid, x, y)
                        || stmt_edge(*body, block.statements@[i as int], x, y)));
                },
                _ => {
                    assert(adj(&lists) == mid);
                    assert(forall|x: usize, y: usize| !stmt_edge(*body, block.statements@[i as int], x, y));
                },
            }
            proof {
                assert forall|x: usize, y: usize| #![trigger edge_in(adj(&lists), x, y)] x < nl implies (edge_in(adj(&lists), x, y) <==> edge_in(start, x, y) || exists|k: int|
                    0 <= k < i + 1 && stmt_edge(*body, #[trigger] block.statements@[k], x, y)) by {
                    assert(edge_in(adj(&lists), x, y) <==> edge_in(mid, x, y) || stmt_edge(*body, block.statements@[i as int], x, y));
                    assert(edge_in(mid, x, y) <==> edge_in(start, x, y) || exists|k: int|
                        0 <= k < i && stmt_edge(*body, #[trigger] block.statements@[k], x, y));
                    if exists|k: int| 0 <= k < i + 1 && stmt_edge(*body, #[trigger] block.statements@[k], x, y) {
                        let k = choose|k: int| 0 <= k < i + 1 && stmt_edge(*body, #[trigger] block.statements@[k], x, y);
                        if k < i {
                            assert(exists|k2: int| 0 <= k2 < i && stmt_edge(*body, #[trigger] block.statements@[k2], x, y));
                        }
                    }
                    if edge_in(mid, x, y) && !edge_in(start, x, y) {
                        let k = choose|k: int| 0 <= k < i && stmt_edge(*body, #[trigger] block.statements@[k], x, y);
                        assert(0 <= k < i + 1);
                    }
                }
            }
            i = i + 1;
        }
        let ghost mid = adj(&lists);
        visit_terminator(body, &mut lists, &block.terminator);
        proof {
            assert forall|x: usize, y: usize| #![trigger edge_in(adj(&lists), x, y)] x < nl implies (edge_in(adj(&lists), x, y) <==> exists|blk: int|
                0 <= blk < b + 1 && #[trigger] block_edge(*body, blk, x, y)) by {
                assert(edge_in(adj(&lists), x, y) <==> edge_in(mid, x, y) || call_edge(*body, block.terminator, x, y));
                assert(edge_in(mid, x, y) <==> edge_in(start, x, y) || exists|k: int|
                    0 <= k < block.statements@.len() && stmt_edge(*body, #[trigger] block.statements@[k], x, y));
                assert(edge_in(start, x, y) <==> exists|blk: int| 0 <= blk < b && #[trigger] block_edge(*body, blk, x, y));
                if exists|blk: int| 0 <= blk < b + 1 && #[trigger] block_edge(*body, blk, x, y) {
                    let blk = choose|blk: int| 0 <= blk < b + 1 && #[trigger] block_edge(*body, blk, x, y);
                    if blk < b {
                        assert(exists|blk2: int| 0 <= blk2 < b && #[trigger] block_edge(*body, blk2, x, y));
                    } else if !call_edge(*body, block.terminator, x, y) {
                        let k = choose|k: int| 0 <= k < body.blocks@[blk].statements@.len()
                            && stmt_edge(*body, #[trigger] body.blocks@[blk].statements@[k], x, y);
                        assert(stmt_edge(*body, block.statements@[k], x, y));
                    }
                }
                if edge_in(adj(&lists), x, y) {
                    if edge_in(start, x, y) {
                        let blk = choose|blk: int| 0 <= blk < b && #[trigger] block_edge(*body, blk, x, y);
                        assert(0 <= blk < b + 1);
                    } else if edge_in(mid, x, y) {
                        let k = choose|k: int| 0 <= k < block.statements@.len() && stmt_edge(*body, #[trigger] block.statements@[k], x, y);
                        assert(stmt_edge(*body, body.blocks@[b as int].statements@[k], x, y));
                        assert(block_edge(*body, b as int, x, y));
                    } else {
                        assert(block_edge(*body, b as int, x, y));
                    }
                }
            }
        }
        b = b + 1;
    }
    proof {
        assert forall|x: usize, y: usize| #![trigger edge_in(adj(&lists), x, y)] x < nl implies (edge_in(adj(&lists), x, y) <==> borrow_edge(*body, x, y)) by {}
    }
    lists
}

pub open spec fn direct_seeds(g: Seq<Seq<usize>>, a: usize) -> Seq<bool> {
    Seq::new(g.len(), |y: int| edge_in(g, a, y as usize))
}

pub open spec fn all_pass(n: nat) -> Seq<bool> {
    Seq::new(n, |y: int| true)
}

proof fn lemma_closure_is_borrowing(body: Body, g: Seq<Seq<usize>>, a: usize, c: usize)
    requires
        g.len() == body.locals@.len(),
        body.locals@.len() <= usize::MAX,
        a < g.len(),
        c < g.len(),
        forall|x: usize, y: usize| #![trigger edge_in(g, x, y)] x < g.len() ==> (edge_in(g, x, y) <==> borrow_edge(body, x, y)),
    ensures
        reached(g, direct_seeds(g, a), all_pass(g.len()), c as int) <==> borrows_from(body, a, c),
{
    let seeds = direct_seeds(g, a);
    let pass = all_pass(g.len());
    if reached(g, seeds, pass, c as int) {
        let q = choose|q: Seq<int>| #[trigger] is_walk(g, pass, q) && seeds[q[0]] && q.last() == c as int;
        let p = seq![a as int] + q;
        assert(edge_in(g, a, q[0] as usize));
        assert forall|i: int| 0 <= i < p.len() - 1 implies borrow_edge(body, #[trigger] p[i] as usize, p[i + 1] as usize) by {
            if i == 0 {
                assert(p[1] == q[0]);
            } else {
                assert(p[i] == q[i - 1] && p[i + 1] == q[i]);
                assert(pass[q[i - 1]] && g[q[i - 1]].contains(q[i] as usize));
                assert(edge_in(g, q[i - 1] as usize, q[i] as usize));
            }
        }
        assert forall|i: int| 0 <= i < p.len() implies 0 <= #[trigger] p[i] < body.locals@.len() by {
            if i > 0 {
                assert(p[i] == q[i - 1]);
            }
        }
        assert(borrow_walk(body, p) && p.len() >= 2 && p[0] == a as int && p.last() == c as int);
    }
    if borrows_from(body, a, c) {
        let p = choose|p: Seq<int>| #[trigger] borrow_walk(body, p) && p.len() >= 2 && p[0] == a as int && p.last() == c as int;
        let q = p.subrange(1, p.len() as int);
        assert forall|i: int| 0 <= i < q.len() - 1 implies pass[#[trigger] q[i]] && g[q[i]].contains(q[i + 1] as usize) by {
            assert(q[i] == p[i + 1] && q[i + 1] == p[i + 2]);
            assert(borrow_edge(body, p[i + 1] as usize, p[i + 2] as usize));
            assert(edge_in(g, p[i + 1] as usize, p[i + 2] as usize));
        }
        assert forall|i: int| 0 <= i < q.len() implies 0 <= #[trigger] q[i] < g.len() by {
            assert(q[i] == p[i + 1]);
        }
        assert(borrow_edge(body, p[0] as usize, p[1] as usize));
        assert(edge_in(g, a, p[1] as usize));
        assert(is_walk(g, pass, q) && seeds[q[0]] && q.last() == c as int);
    }
}

/// A local that the relation records: not the return slot, not trivially
/// duplicable, and borrowed by some local other than the return slot.
pub open spec fn has_borrowers(body: Body, a: usize) -> bool {
    &&& a >= 1
    &&& !body.locals@[a as int].duplicable
    &&& exists|c: usize| 1 <= c < body.locals@.len() && #[trigger] borrows_from(body, a, c)
}

/// `c` is a possible borrower of `borrowed` with storage that may be live at
/// `at`. The return slot and trivially duplicable locals have none, and the
/// return slot borrows nothing.
pub open spec fn live_borrower(body: Body, borrowed: usize, c: usize, at: Location) -> bool {
    &&& borrowed >= 1
    &&& !body.locals@[borrowed as int].duplicable
    &&& c != 0
    &&& borrows_from(body, borrowed, c)
    &&& live_at(body, c, at)
}

/// The possible borrowers of each tracked local.
pub struct PossibleBorrower {
    /// Indexed by local.
    pub map: Vec<Option<Vec<bool>>>,
}

impl PossibleBorrower {
    pub open spec fn models(&self, body: Body) -> bool {
        &&& self.map@.len() == body.locals@.len()
        &&& forall|a: int| 0 <= a < self.map@.len() ==> ((#[trigger] self.map@[a] is Some) <==> has_borrowers(body, a as usize))
        &&& forall|a: int| 0 <= a < self.map@.len() && #[trigger] self.map@[a] is Some ==> {
            let set = self.map@[a]->0@;
            &&& set.len() == body.locals@.len()
            &&& forall|c: int| 0 <= c < set.len() ==> (#[trigger] set[c] <==> c != 0 && borrows_from(body, a as usize, c as usize))
        }
    }

    /// Collects the direct relation of `body` and closes it transitively.
    pub fn new(body: &Body) -> (r: Self)
        requires
            body.wf(),
        ensures
            r.models(*body),
    {
        let lists = possible_borrower_graph(body);
        let ghost g = adj(&lists);
        let nl = body.locals.len();
        assert(g.len() == nl);
        let mut pass: Vec<bool> = Vec::new();
        let mut k: usize = 0;
        while k < nl
            invariant
                0 <= k <= nl,
                pass@.len() == k,
                forall|i: int| 0 <= i < k ==> pass@[i],
            decreases nl - k,
        {
            pass.push(true);
            k = k + 1;
        }
        assert(pass@ =~= all_pass(nl as nat));
        let mut map: Vec<Option<Vec<bool>>> = Vec::new();
        let mut row: usize = 0;
        while row < nl
            invariant
                body.wf(),
                nl == body.locals@.len(),
                g == adj(&lists),
                g.len() == nl,
                lists@.len() == nl,
                graph_ok(g),
                pass@ == all_pass(nl as nat),
                forall|x: usize, y: usize| #![trigger edge_in(g, x, y)] x < g.len() ==> (edge_in(g, x, y) <==> borrow_edge(*body, x, y)),
                0 <= row <= nl,
                map@.len() == row,
                forall|a: int| 0 <= a < row ==> ((#[trigger] map@[a] is Some) <==> has_borrowers(*body, a as usize)),
                forall|a: int| 0 <= a < row && #[trigger] map@[a] is Some ==> {
                    let set = map@[a]->0@;
                    &&& set.len() == nl
                    &&& forall|c: int| 0 <= c < set.len() ==> (#[trigger] set[c] <==> c != 0 && borrows_from(*body, a as usize, c as usize))
                },
            decreases nl - row,
        {
            if row == 0 || body.locals[row].duplicable {
                map.push(None);
            } else {
                let mut seeds: Vec<bool> = Vec::new();
                let mut y: usize = 0;
                while y < nl
                    invariant
                        0 <= y <= nl,
                        seeds@.len() == y,
                        forall|i: int| 0 <= i < y ==> #[trigger] seeds@[i] == false,
                    decreases nl - y,
                {
                    seeds.push(false);
                    y = y + 1;
                }
                let out = &lists[row];
                assert(out@ == g[row as int]);
                let mut j: usize = 0;
                while j < out.len()
                    invariant
                        0 <= row < nl,
                        g.len() == nl,
                        graph_ok(g),
                        out@ == g[row as int],
                        seeds@.len() == nl,
                        0 <= j <= out@.len(),
                        forall|i: int| 0 <= i < nl ==> (#[trigger] seeds@[i] <==> exists|jj: int| 0 <= jj < j && out@[jj] == i as usize),
                    decreases out@.len() - j,
                {
                    let t = out[j];
                    assert(g[row as int][j as int] == t);
                    seeds.set(t, true);
                    proof {
                        assert forall|i: int| 0 <= i < nl implies (#[trigger] seeds@[i] <==> exists|jj: int| 0 <= jj < j + 1 && out@[jj] == i as usize) by {
                            if exists|jj: int| 0 <= jj < j + 1 && out@[jj] == i as usize {
                                let jj = choose|jj: int| 0 <= jj < j + 1 && out@[jj] == i as usize;
                                if jj < j {
                                    assert(exists|j2: int| 0 <= j2 < j && out@[j2] == i as usize);
                                }
                            }
                        }
                    }
                    j = j + 1;
                }
                proof {
                    assert forall|i: int| 0 <= i < nl implies seeds@[i] == direct_seeds(g, row)[i] by {
                        if seeds@[i] {
                            let jj = choose|jj: int| 0 <= jj < out@.len() && out@[jj] == i as usize;
                        }
                        if direct_seeds(g, row)[i] {
                            assert(out@.contains(i as usize));
                        }
                    }
                    assert(seeds@ =~= direct_seeds(g, row));
                }
                let mut set = propagate(&lists, &seeds, &pass);
                set.set(0, false);
                let mut any = false;
                let mut c: usize = 0;
                while c < nl
                    invariant
                        set@.len() == nl,
                        0 <= c <= nl,
                        any <==> exists|i: int| 0 <= i < c && #[trigger] set@[i],
                    decreases nl - c,
                {
                    if set[c] {
                        any = true;
                    }
                    c = c + 1;
                }
                proof {
                    assert forall|i: int| 0 <= i < nl implies (#[trigger] set@[i] <==> i != 0 && borrows_from(*body, row, i as usize)) by {
                        lemma_closure_is_borrowing(*body, g, row, i as usize);
                    }
                    if any {
                        let i = choose|i: int| 0 <= i < nl && #[trigger] set@[i];
                        assert(borrows_from(*body, row, i as usize));
                    }
                    if has_borrowers(*body, row) {
                        let i = choose|i: usize| 1 <= i < nl && #[trigger] borrows_from(*body, row, i);
                        assert(set@[i as int]);
                    }
                }
                if any {
                    map.push(Some(set));
                } else {
                    map.push(None);
                }
            }
            row = row + 1;
        }
        PossibleBorrower { map }
    }

    /// The borrowers of `borrowed` whose storage may be live at `at` are
    /// exactly `borrowers`.
    pub fn only_borrowers(
        &self,
        body: &Body,
        live: &MaybeStorageLive,
        borrowers: &Vec<usize>,
        borrowed: usize,
        at: Location,
    ) -> (r: bool)
        requires
            self.models(*body),
            live.solves(*body),
            borrowed < body.locals@.len(),
            at.block < body.blocks@.len(),
            at.statement_index <= body.blocks@[at.block as int].statements@.len(),
            forall|i: int| 0 <= i < borrowers@.len() ==> #[trigger] borrowers@[i] < body.locals@.len(),
        ensures
            r == forall|c: usize| c < body.locals@.len() ==>
                (live_borrower(*body, borrowed, c, at) <==> borrowers@.contains(c)),
    {
        let nl = body.locals.len();
        let set = match &self.map[borrowed] {
            Some(set) => set,
            None => {
                proof {
                    assert(!has_borrowers(*body, borrowed));
                    if borrowers@.len() > 0 {
                        assert(borrowers@.contains(borrowers@[0]));
                        assert(!live_borrower(*body, borrowed, borrowers@[0], at));
                    }
                }
                return borrowers.len() == 0;
            },
        };
        let mut wanted: Vec<bool> = Vec::new();
        let mut c: usize = 0;
        while c < nl
            invariant
                0 <= c <= nl,
                wanted@.len() == c,
                forall|i: int| 0 <= i < c ==> !#[trigger] wanted@[i],
            decreases nl - c,
        {
            wanted.push(false);
            c = c + 1;
        }
        let mut i: usize = 0;
        while i < borrowers.len()
            invariant
                nl == body.locals@.len(),
                wanted@.len() == nl,
                forall|k: int| 0 <= k < borrowers@.len() ==> #[trigger] borrowers@[k] < nl,
                0 <= i <= borrowers@.len(),
                forall|x: int| 0 <= x < nl ==> (#[trigger] wanted@[x] <==> exists|k: int| 0 <= k < i && borrowers@[k] == x as usize),
            decreases borrowers@.len() - i,
        {
            let b = borrowers[i];
            wanted.set(b, true);
            proof {
                assert forall|x: int| 0 <= x < nl implies (#[trigger] wanted@[x] <==> exists|k: int| 0 <= k < i + 1 && borrowers@[k] == x as usize) by {
                    if exists|k: int| 0 <= k < i + 1 && borrowers@[k] == x as usize {
                        let k = choose|k: int| 0 <= k < i + 1 && borrowers@[k] == x as usize;
                        if k < i {
                            assert(exists|k2: int| 0 <= k2 < i && borrowers@[k2] == x as usize);
                        }
                    }
                }
            }
            i = i + 1;
        }
        proof {
            assert forall|x: int| 0 <= x < nl implies (#[trigger] wanted@[x] <==> borrowers@.contains(x as usize)) by {
                if borrowers@.contains(x as usize) {
                    let k = choose|k: int| 0 <= k < borrowers@.len() && borrowers@[k] == x as usize;
                    assert(exists|k2: int| 0 <= k2 < i && borrowers@[k2] == x as usize);
                }
            }
        }
        let mut c: usize = 0;
        while c < nl
            invariant
                forall|x: int| 0 <= x < nl ==> (#[trigger] wanted@[x] <==> borrowers@.contains(x as usize)),
                self.models(*body),
                live.solves(*body),
                nl == body.locals@.len(),
                borrowed < nl,
                self.map@[borrowed as int] is Some,
                *set == self.map@[borrowed as int]->0,
                set@.len() == nl,
                wanted@.len() == nl,
                at.block < body.blocks@.len(),
                at.statement_index <= body.blocks@[at.block as int].statements@.len(),
                0 <= c <= nl,
                forall|x: int| 0 <= x < c ==> (#[trigger] wanted@[x] == (set@[x] && live_at(*body, x as usize, at))),
            decreases nl - c,
        {
            let found = set[c] && live.contains(body, c, at);
            if found != wanted[c] {
                proof {
                    let cc = c;
                    assert(wanted@[c as int] <==> borrowers@.contains(cc));
                    assert(set@[c as int] <==> cc != 0 && borrows_from(*body, borrowed, cc));
                    assert(!(live_borrower(*body, borrowed, cc, at) <==> borrowers@.contains(cc)));
                }
                return false;
            }
            c = c + 1;
        }
        proof {
            assert forall|x: usize| x < nl implies
                (live_borrower(*body, borrowed, x, at) <==> borrowers@.contains(x)) by {
                assert(wanted@[x as int] == (set@[x as int] && live_at(*body, x, at)));
                assert(wanted@[x as int] <==> borrowers@.contains(x));
            }
        }
        true
    }
}

} // verus!
