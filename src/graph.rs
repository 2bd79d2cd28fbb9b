//! Least sets of nodes closed under the edges of a directed graph: the one
//! fixpoint solver shared by storage liveness, the borrower closure and the
//! forward-reachability scan.
use vstd::prelude::*;

verus! {

/// The adjacency lists as a mathematical sequence.
pub open spec fn adj(succs: &Vec<Vec<usize>>) -> Seq<Seq<usize>> {
    Seq::new(succs@.len(), |i: int| succs@[i]@)
}

pub open spec fn graph_ok(g: Seq<Seq<usize>>) -> bool {
    forall|x: int, j: int| 0 <= x < g.len() && 0 <= j < g[x].len() ==> #[trigger] g[x][j] < g.len()
}

/// `p` is a walk in `g` that only leaves nodes through which propagation passes.
pub open spec fn is_walk(g: Seq<Seq<usize>>, pass: Seq<bool>, p: Seq<int>) -> bool {
    &&& p.len() > 0
    &&& forall|i: int| 0 <= i < p.len() ==> 0 <= #[trigger] p[i] < g.len()
    &&& forall|i: int| 0 <= i < p.len() - 1 ==> pass[#[trigger] p[i]] && g[p[i]].contains(p[i + 1] as usize)
}

/// `y` belongs to the least set that holds the seeds and every successor of
/// a member through which propagation passes: some walk leads from a seed to it.
pub open spec fn reached(g: Seq<Seq<usize>>, seeds: Seq<bool>, pass: Seq<bool>, y: int) -> bool {
    exists|p: Seq<int>| #[trigger] is_walk(g, pass, p) && seeds[p[0]] && p.last() == y
}

pub open spec fn count_true(s: Seq<bool>) -> nat
    decreases s.len(),
{
    if s.len() == 0 {
        0
    } else {
        count_true(s.drop_last()) + if s.last() { 1nat } else { 0nat }
    }
}

proof fn lemma_count_le(s: Seq<bool>)
    ensures
        count_true(s) <= s.len(),
    decreases s.len(),
{
    if s.len() > 0 {
        lemma_count_le(s.drop_last());
    }
}

proof fn lemma_count_set(s: Seq<bool>, i: int)
    requires
        0 <= i < s.len(),
        !s[i],
    ensures
        count_true(s.update(i, true)) == count_true(s) + 1,
    decreases s.len(),
{
    let t = s.update(i, true);
    if i < s.len() - 1 {
        lemma_count_set(s.drop_last(), i);
        assert(t.drop_last() =~= s.drop_last().update(i, true));
    } else {
        assert(t.drop_last() =~= s.drop_last());
    }
}

proof fn lemma_walk_extend(g: Seq<Seq<usize>>, pass: Seq<bool>, p: Seq<int>, j: int)
    requires
        graph_ok(g),
        is_walk(g, pass, p),
        pass[p.last()],
        0 <= j < g[p.last()].len(),
    ensures
        is_walk(g, pass, p.push(g[p.last()][j] as int)),
        p.push(g[p.last()][j] as int)[0] == p[0],
{
    let x = p.last();
    let y = g[x][j];
    let q = p.push(y as int);
    assert(g[x].contains(y));
    assert forall|i: int| 0 <= i < q.len() - 1 implies pass[#[trigger] q[i]] && g[q[i]].contains(q[i + 1] as usize) by {
        if i < p.len() - 1 {
            assert(q[i] == p[i] && q[i + 1] == p[i + 1]);
        }
    }
}

/// A set that holds the start of a walk and is closed under passing edges
/// holds its end.
proof fn lemma_closed_holds_walk(g: Seq<Seq<usize>>, pass: Seq<bool>, m: Seq<bool>, p: Seq<int>)
    requires
        m.len() == g.len(),
        g.len() <= usize::MAX,
        is_walk(g, pass, p),
        m[p[0]],
        forall|x: int, j: int|
            0 <= x < g.len() && m[x] && pass[x] && 0 <= j < g[x].len() ==> m[#[trigger] g[x][j] as int],
    ensures
        m[p.last()],
    decreases p.len(),
{
    if p.len() > 1 {
        let q = p.drop_last();
        assert forall|i: int| 0 <= i < q.len() - 1 implies pass[#[trigger] q[i]] && g[q[i]].contains(q[i + 1] as usize) by {
            assert(q[i] == p[i] && q[i + 1] == p[i + 1]);
        }
        assert(is_walk(g, pass, q));
        lemma_closed_holds_walk(g, pass, m, q);
        let x = q.last();
        assert(x == p[p.len() - 2]);
        assert(p.last() == p[p.len() - 1]);
        assert(pass[p[p.len() - 2]] && g[p[p.len() - 2]].contains(p[p.len() - 1] as usize));
        let j = choose|j: int| 0 <= j < g[x].len() && g[x][j] == p.last() as usize;
        assert(0 <= p[p.len() - 1] < g.len());
        assert(g[x][j] as int == p.last());
        assert(m[g[x][j] as int]);
    }
}

pub fn propagate(succs: &Vec<Vec<usize>>, seeds: &Vec<bool>, pass: &Vec<bool>) -> (r: Vec<bool>)
    requires
        graph_ok(adj(succs)),
        seeds@.len() == succs@.len(),
        pass@.len() == succs@.len(),
    ensures
        r@.len() == succs@.len(),
        forall|y: int| 0 <= y < r@.len() ==> (#[trigger] r@[y] <==> reached(adj(succs), seeds@, pass@, y)),
{
    let ghost g = adj(succs);
    let n = succs.len();
    let mut marked = seeds.clone();
    assert(marked@ =~= seeds@);
    proof {
        lemma_count_le(marked@);
        assert forall|y: int| 0 <= y < n && marked@[y] implies reached(g, seeds@, pass@, y) by {
            assert(is_walk(g, pass@, seq![y]));
        }
    }
    let mut changed = true;
    while changed
        invariant
            n == succs@.len(),
            g == adj(succs),
            graph_ok(g),
            seeds@.len() == n,
            pass@.len() == n,
            marked@.len() == n,
            count_true(marked@) <= n,
            forall|z: int| 0 <= z < n && seeds@[z] ==> marked@[z],
            forall|y: int| 0 <= y < n && marked@[y] ==> reached(g, seeds@, pass@, y),
            !changed ==> forall|x: int, j: int|
                0 <= x < n && marked@[x] && pass@[x] && 0 <= j < g[x].len() ==> marked@[#[trigger] g[x][j] as int],
        decreases n - count_true(marked@) + if changed { 1int } else { 0int },
    {
        changed = false;
        let ghost start = marked@;
        let mut x: usize = 0;
        while x < n
            invariant
                n == succs@.len(),
                g == adj(succs),
                graph_ok(g),
                seeds@.len() == n,
                pass@.len() == n,
                marked@.len() == n,
                start.len() == n,
                0 <= x <= n,
                forall|z: int| 0 <= z < n && seeds@[z] ==> marked@[z],
                forall|y: int| 0 <= y < n && marked@[y] ==> reached(g, seeds@, pass@, y),
                forall|z: int| 0 <= z < n && start[z] ==> marked@[z],
                count_true(marked@) >= count_true(start),
                changed ==> count_true(marked@) > count_true(start),
                !changed ==> marked@ == start,
                !changed ==> forall|x2: int, j: int|
                    0 <= x2 < x && marked@[x2] && pass@[x2] && 0 <= j < g[x2].len() ==> marked@[#[trigger] g[x2][j] as int],
            decreases n - x,
        {
            if marked[x] && pass[x] {
                let row = &succs[x];
                assert(row@ == g[x as int]);
                let mut j: usize = 0;
                while j < row.len()
                    invariant
                        n == succs@.len(),
                        g == adj(succs),
                        graph_ok(g),
                        row@ == g[x as int],
                        0 <= x < n,
                        marked@[x as int],
                        pass@[x as int],
                        seeds@.len() == n,
                        pass@.len() == n,
                        marked@.len() == n,
                        start.len() == n,
                        0 <= j <= row@.len(),
                        forall|z: int| 0 <= z < n && seeds@[z] ==> marked@[z],
                        forall|y: int| 0 <= y < n && marked@[y] ==> reached(g, seeds@, pass@, y),
                        forall|z: int| 0 <= z < n && start[z] ==> marked@[z],
                        count_true(marked@) >= count_true(start),
                        changed ==> count_true(marked@) > count_true(start),
                        !changed ==> marked@ == start,
                        !changed ==> forall|x2: int, j2: int|
                            0 <= x2 < x && marked@[x2] && pass@[x2] && 0 <= j2 < g[x2].len() ==> marked@[#[trigger] g[x2][j2] as int],
                        forall|j2: int| 0 <= j2 < j ==> marked@[#[trigger] row@[j2] as int],
                    decreases row@.len() - j,
                {
                    let y = row[j];
                    assert(g[x as int][j as int] == y);
                    if !marked[y] {
                        proof {
                            lemma_count_set(marked@, y as int);
                        }
                        let ghost before = marked@;
                        marked.set(y, true);
                        changed = true;
                        proof {
                            assert(forall|z: int| 0 <= z < n && before[z] ==> marked@[z]);
                            assert forall|z: int| 0 <= z < n && marked@[z] implies reached(g, seeds@, pass@, z) by {
                                if z == y as int {
                                    let p = choose|p: Seq<int>| #[trigger] is_walk(g, pass@, p) && seeds@[p[0]] && p.last() == x as int;
                                    lemma_walk_extend(g, pass@, p, j as int);
                                    assert(is_walk(g, pass@, p.push(y as int)));
                                }
                            }
                        }
                    }
                    j = j + 1;
                }
            }
            x = x + 1;
        }
        proof {
            lemma_count_le(marked@);
        }
    }
    proof {
        assert forall|y: int| 0 <= y < n implies (marked@[y] <==> reached(g, seeds@, pass@, y)) by {
            if reached(g, seeds@, pass@, y) {
                let p = choose|p: Seq<int>| #[trigger] is_walk(g, pass@, p) && seeds@[p[0]] && p.last() == y;
                lemma_closed_holds_walk(g, pass@, marked@, p);
            }
        }
    }
    marked
}

} // verus!
