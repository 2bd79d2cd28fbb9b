//! The decision for each call site, and the diagnostics for the accepted ones.
use vstd::prelude::*;
use crate::borrowers::{borrows_from, live_borrower, PossibleBorrower};
use crate::graph::{adj, graph_ok, is_walk};
use crate::ir::{body_succs, term_succs, Body, Callee, Location, SourceInfo, TyKind};
use crate::liveness::{live_at, MaybeStorageLive};
use crate::recognize::{find_stmt_assigns_to, is_call_with_ref_arg, ref_arg_call, source_of, RefArgCall};
use crate::uses::{edges_from, in_edges, is_used_later, reachable_after, unique_predecessor, used_later};

verus! {

/// The call duplicates through a borrow: explicit duplication, owned-from-
/// borrowed conversion, or stringifying an owned string through a reference.
pub open spec fn from_borrow(c: RefArgCall) -> bool {
    ||| c.callee == Callee::Clone
    ||| c.callee == Callee::ToOwned
    ||| (c.callee == Callee::ToString && c.arg_kind == TyKind::OwnedString)
}

/// The call turns a dereferenced buffer back into an owned buffer.
pub open spec fn from_deref(c: RefArgCall) -> bool {
    !from_borrow(c) && (c.callee == Callee::PathToPathBuf || c.callee == Callee::OsStrToOsString)
}

/// The live borrowers of `borrowed` at `at` are exactly `cands`.
pub open spec fn only_borrowers_at(body: Body, cands: Seq<usize>, borrowed: usize, at: Location) -> bool {
    forall|c: usize| c < body.locals@.len() ==> (live_borrower(body, borrowed, c, at) <==> cands.contains(c))
}

/// The only block with an edge into `bb`, when exactly one edge enters it.
pub open spec fn sole_pred(body: Body, bb: int) -> Option<int> {
    let g = body_succs(body);
    if in_edges(g, bb as usize, g.len() as int) == 1 {
        Some(choose|p: int| 0 <= p < g.len() && #[trigger] edges_from(g, p, bb as usize) == 1)
    } else {
        None
    }
}

/// The location of the terminator of `bb`.
pub open spec fn call_site(body: Body, bb: int) -> Location {
    Location { block: bb as usize, statement_index: body.blocks@[bb].statements@.len() as usize }
}

/// The locals that may still refer to the moved local at an accepted call:
/// the call's own argument, and in the dereference-mediated shape the
/// intermediate buffer.
pub open spec fn call_borrowers(body: Body, bb: int) -> Seq<usize> {
    match ref_arg_call(body, body.blocks@[bb].terminator) {
        Some(c) => if from_borrow(c) {
            seq![c.arg]
        } else {
            match source_of(body, c.arg, false, bb) {
                Some(src) => seq![c.arg, src.0],
                None => seq![c.arg],
            }
        },
        None => Seq::empty(),
    }
}

/// In the dereference-mediated shape, the local that the dereference in the
/// sole predecessor `p` borrowed, if the predecessor has that shape.
pub open spec fn deref_source(body: Body, p: int, cloned: usize) -> Option<(usize, bool)> {
    match ref_arg_call(body, body.blocks@[p].terminator) {
        Some(pc) => if pc.destination == Some(cloned) && pc.callee == Callee::Deref && (pc.arg_kind == TyKind::PathBuf
            || pc.arg_kind == TyKind::OsString) {
            source_of(body, pc.arg, true, p)
        } else {
            None
        },
        None => None,
    }
}

/// The local that the call ending `bb` could move instead of duplicating,
/// before the downstream-use check.
pub open spec fn movable_source(body: Body, bb: int) -> Option<usize> {
    let blk = body.blocks@[bb];
    let at = call_site(body, bb);
    if blk.source.synthesized || term_succs(blk.terminator).contains(bb as usize) {
        None
    } else {
        match ref_arg_call(body, blk.terminator) {
            None => None,
            Some(c) => if from_borrow(c) {
                match source_of(body, c.arg, true, bb) {
                    Some(src) => if !src.1 && only_borrowers_at(body, seq![c.arg], src.0, at) {
                        Some(src.0)
                    } else {
                        None
                    },
                    None => None,
                }
            } else if from_deref(c) {
                match source_of(body, c.arg, false, bb) {
                    None => None,
                    Some(src) => match sole_pred(body, bb) {
                        None => None,
                        Some(p) => match deref_source(body, p, src.0) {
                            Some(d) => if !d.1 && only_borrowers_at(body, seq![c.arg, src.0], d.0, at) {
                                Some(d.0)
                            } else {
                                None
                            },
                            None => None,
                        },
                    },
                }
            } else {
                None
            },
        }
    }
}

/// The call ending `bb` is a redundant duplication, and the returned local
/// can be moved in its place.
pub open spec fn accepted(body: Body, bb: int) -> Option<usize> {
    match movable_source(body, bb) {
        Some(l) => if used_later(body, bb, l) { None } else { Some(l) },
        None => None,
    }
}

proof fn lemma_in_edges_mono(g: Seq<Seq<usize>>, bb: usize, j: int, k: int)
    requires
        0 <= j <= k,
    ensures
        in_edges(g, bb, j) <= in_edges(g, bb, k),
    decreases k - j,
{
    if j < k {
        lemma_in_edges_mono(g, bb, j, k - 1);
    }
}

proof fn lemma_sole_pred_unique(g: Seq<Seq<usize>>, bb: usize, p: int, q: int)
    requires
        0 <= p < g.len(),
        0 <= q < g.len(),
        in_edges(g, bb, g.len() as int) == 1,
        edges_from(g, p, bb) == 1,
        edges_from(g, q, bb) == 1,
    ensures
        p == q,
{
    if p < q {
        lemma_in_edges_mono(g, bb, p + 1, q);
        lemma_in_edges_mono(g, bb, q + 1, g.len() as int);
    } else if q < p {
        lemma_in_edges_mono(g, bb, q + 1, p);
        lemma_in_edges_mono(g, bb, p + 1, g.len() as int);
    }
}

fn duplication_kind(c: &RefArgCall) -> (r: (bool, bool))
    ensures
        r.0 == from_borrow(*c),
        r.1 == from_deref(*c),
{
    let borrow = c.callee == Callee::Clone || c.callee == Callee::ToOwned || (c.callee == Callee::ToString && c.arg_kind
        == TyKind::OwnedString);
    let deref = !borrow && (c.callee == Callee::PathToPathBuf || c.callee == Callee::OsStrToOsString);
    (borrow, deref)
}

/// The facts about one procedure that every call-site decision reads.
pub struct Facts {
    pub succs: Vec<Vec<usize>>,
    pub live: MaybeStorageLive,
    pub borrowers: PossibleBorrower,
}

impl Facts {
    pub open spec fn of(&self, body: Body) -> bool {
        &&& adj(&self.succs) == body_succs(body)
        &&& graph_ok(adj(&self.succs))
        &&& self.live.solves(body)
        &&& self.borrowers.models(body)
    }

    /// Runs the liveness dataflow and builds the borrower relation once.
    pub fn new(body: &Body) -> (r: Self)
        requires
            body.wf(),
        ensures
            r.of(*body),
    {
        Facts { succs: body.successor_lists(), live: MaybeStorageLive::new(body), borrowers: PossibleBorrower::new(body) }
    }
}

/// Decides whether the call ending `bb` is a redundant duplication; if so,
/// returns the local to move instead.
pub fn check_call(body: &Body, facts: &Facts, bb: usize) -> (r: Option<usize>)
    requires
        body.wf(),
        facts.of(*body),
        bb < body.blocks@.len(),
    ensures
        r == accepted(*body, bb as int),
{
    let blk = &body.blocks[bb];
    assert(crate::ir::block_ok(*blk, body.locals@.len() as int, body.blocks@.len() as int));
    let at = Location { block: bb, statement_index: blk.statements.len() };
    if blk.source.synthesized {
        return None;
    }
    assert(adj(&facts.succs).len() == body_succs(*body).len());
    assert(adj(&facts.succs)[bb as int] == body_succs(*body)[bb as int]);
    assert(facts.succs@[bb as int]@ == term_succs(blk.terminator));
    let mut i: usize = 0;
    while i < facts.succs[bb].len()
        invariant
            bb < body.blocks@.len(),
            *blk == body.blocks@[bb as int],
            bb < facts.succs@.len(),
            facts.succs@[bb as int]@ == term_succs(blk.terminator),
            0 <= i <= term_succs(blk.terminator).len(),
            forall|k: int| 0 <= k < i ==> term_succs(blk.terminator)[k] != bb,
        decreases term_succs(blk.terminator).len() - i,
    {
        if facts.succs[bb][i] == bb {
            assert(term_succs(blk.terminator)[i as int] == bb);
            assert(term_succs(body.blocks@[bb as int].terminator).contains((bb as int) as usize));
            assert(movable_source(*body, bb as int) is None);
            return None;
        }
        i = i + 1;
    }
    let c = match is_call_with_ref_arg(body, &blk.terminator) {
        Some(c) => c,
        None => return None,
    };
    let (borrow, deref) = duplication_kind(&c);
    if !borrow && !deref {
        return None;
    }
    proof {
        assert(crate::ir::operand_ok(
            match blk.terminator {
                crate::ir::Terminator::Call { args, .. } => args@[0],
                _ => crate::ir::Operand::Constant,
            },
            body.locals@.len() as int,
        ));
    }
    let local = if borrow {
        let (cloned, cannot_move_out) = match find_stmt_assigns_to(body, c.arg, true, bb) {
            Some(src) => src,
            None => return None,
        };
        if cannot_move_out {
            return None;
        }
        assert(crate::ir::statement_ok(blk.statements@[crate::recognize::last_assign(blk.statements@, c.arg, blk.statements@.len() as int)->0], body.locals@.len() as int)) by {
            lemma_last_assign_in(blk.statements@, c.arg, blk.statements@.len() as int);
        }
        let cands = vec![c.arg];
        assert(cands@ == seq![c.arg]);
        if !facts.borrowers.only_borrowers(body, &facts.live, &cands, cloned, at) {
            return None;
        }
        cloned
    } else {
        let (cloned, _) = match find_stmt_assigns_to(body, c.arg, false, bb) {
            Some(src) => src,
            None => return None,
        };
        assert(crate::ir::statement_ok(blk.statements@[crate::recognize::last_assign(blk.statements@, c.arg, blk.statements@.len() as int)->0], body.locals@.len() as int)) by {
            lemma_last_assign_in(blk.statements@, c.arg, blk.statements@.len() as int);
        }
        let p = match unique_predecessor(&facts.succs, bb) {
            Some(p) => p,
            None => return None,
        };
        proof {
            let g = body_succs(*body);
            let q = choose|q: int| 0 <= q < g.len() && #[trigger] edges_from(g, q, bb as usize) == 1;
            lemma_sole_pred_unique(g, bb as usize, p as int, q);
        }
        let pblk = &body.blocks[p];
        assert(crate::ir::block_ok(*pblk, body.locals@.len() as int, body.blocks@.len() as int));
        let pc = match is_call_with_ref_arg(body, &pblk.terminator) {
            Some(pc) => pc,
            None => return None,
        };
        if !(pc.destination == Some(cloned) && pc.callee == Callee::Deref && (pc.arg_kind == TyKind::PathBuf
            || pc.arg_kind == TyKind::OsString)) {
            return None;
        }
        let (local, cannot_move_out) = match find_stmt_assigns_to(body, pc.arg, true, p) {
            Some(src) => src,
            None => return None,
        };
        if cannot_move_out {
            return None;
        }
        assert(crate::ir::statement_ok(pblk.statements@[crate::recognize::last_assign(pblk.statements@, pc.arg, pblk.statements@.len() as int)->0], body.locals@.len() as int)) by {
            lemma_last_assign_in(pblk.statements@, pc.arg, pblk.statements@.len() as int);
        }
        let cands = vec![c.arg, cloned];
        assert(cands@ == seq![c.arg, cloned]);
        if !facts.borrowers.only_borrowers(body, &facts.live, &cands, local, at) {
            return None;
        }
        local
    };
    if is_used_later(body, &facts.succs, bb, local) {
        return None;
    }
    Some(local)
}

proof fn lemma_last_assign_in(stmts: Seq<crate::ir::Statement>, l: usize, k: int)
    requires
        k <= stmts.len(),
    ensures
        match crate::recognize::last_assign(stmts, l, k) {
            Some(i) => 0 <= i < k,
            None => true,
        },
    decreases k,
{
    if k > 0 {
        lemma_last_assign_in(stmts, l, k - 1);
    }
}

/// How a suggested edit may be applied.
#[derive(Clone, Copy, Debug, PartialEq, Eq, Structural)]
pub enum Applicability {
    /// The removed text is a bare call of a name: the edit is safe to apply.
    Automatic,
    /// A person should confirm the edit.
    NeedsReview,
}

/// A byte range of the source text.
#[derive(Clone, Copy, Debug, PartialEq, Eq, Structural)]
pub struct Span {
    pub lo: u32,
    pub hi: u32,
}

/// Replace `span` with nothing.
#[derive(Clone, Copy, Debug, PartialEq, Eq, Structural)]
pub struct Suggestion {
    pub span: Span,
    pub applicability: Applicability,
}

/// A redundant duplication at the call that ends `block`. The note, when
/// present, points at the duplicated value: it is dropped without further use.
#[derive(Clone, Copy, Debug, PartialEq, Eq, Structural)]
pub struct Diagnostic {
    pub block: usize,
    /// The local that can be moved instead.
    pub moved: usize,
    pub span: Span,
    pub suggestion: Option<Suggestion>,
    pub note: Option<Span>,
}

pub open spec fn is_word_byte(b: u8) -> bool {
    (65 <= b <= 90) || (97 <= b <= 122) || b == 95
}

pub open spec fn is_space_byte(b: u8) -> bool {
    b == 32 || (9 <= b <= 13)
}

/// The two UTF-8 bytes of a whitespace character (U+0085, U+00A0).
pub open spec fn is_space2(a: u8, b: u8) -> bool {
    a == 0xC2 && (b == 0x85 || b == 0xA0)
}

/// The three UTF-8 bytes of a whitespace character (U+1680, U+2000 to
/// U+200A, U+2028, U+2029, U+202F, U+205F, U+3000).
pub open spec fn is_space3(a: u8, b: u8, c: u8) -> bool {
    ||| (a == 0xE1 && b == 0x9A && c == 0x80)
    ||| (a == 0xE2 && b == 0x80 && ((0x80 <= c <= 0x8A) || c == 0xA8 || c == 0xA9 || c == 0xAF))
    ||| (a == 0xE2 && b == 0x81 && c == 0x9F)
    ||| (a == 0xE3 && b == 0x80 && c == 0x80)
}

/// The length of the whitespace character that starts at `i` and ends by
/// `hi`, or 0 when none does.
pub open spec fn space_at(s: Seq<u8>, i: int, hi: int) -> int {
    if i < hi && is_space_byte(s[i]) {
        1
    } else if i + 2 <= hi && is_space2(s[i], s[i + 1]) {
        2
    } else if i + 3 <= hi && is_space3(s[i], s[i + 1], s[i + 2]) {
        3
    } else {
        0
    }
}

/// The length of the whitespace character that ends at `j` and starts at
/// `lo` or later, or 0 when none does.
pub open spec fn space_before(s: Seq<u8>, lo: int, j: int) -> int {
    if lo < j && is_space_byte(s[j - 1]) {
        1
    } else if lo <= j - 2 && is_space2(s[j - 2], s[j - 1]) {
        2
    } else if lo <= j - 3 && is_space3(s[j - 3], s[j - 2], s[j - 1]) {
        3
    } else {
        0
    }
}

/// Where `s[lo..hi]` starts once leading whitespace is removed.
pub open spec fn trim_start(s: Seq<u8>, lo: int, hi: int) -> int
    decreases hi - lo,
{
    if lo < hi && space_at(s, lo, hi) > 0 {
        trim_start(s, lo + space_at(s, lo, hi), hi)
    } else {
        lo
    }
}

/// Where `s[lo..hi]` ends once trailing whitespace is removed.
pub open spec fn trim_end(s: Seq<u8>, lo: int, hi: int) -> int
    decreases hi - lo,
{
    if lo < hi && space_before(s, lo, hi) > 0 {
        trim_end(s, lo, hi - space_before(s, lo, hi))
    } else {
        hi
    }
}

/// `s[lo..hi]`, with whitespace removed at both ends, consists of letters
/// and underscores only.
pub open spec fn bare_name(s: Seq<u8>, lo: int, hi: int) -> bool {
    let a = trim_start(s, lo, hi);
    let b = trim_end(s, a, hi);
    forall|k: int| a <= k < b ==> is_word_byte(#[trigger] s[k])
}

/// `s[lo..hi]` is a bare name followed by `()`.
pub open spec fn bare_call(s: Seq<u8>, lo: int, hi: int) -> bool {
    &&& hi - lo >= 2
    &&& s[hi - 2] == 40u8
    &&& s[hi - 1] == 41u8
    &&& bare_name(s, lo, hi - 2)
}

/// The index of the last `.` among the first `k` bytes.
pub open spec fn last_dot(s: Seq<u8>, k: int) -> Option<int>
    decreases k,
{
    if k <= 0 {
        None
    } else if s[k - 1] == 46u8 {
        Some(k - 1)
    } else {
        last_dot(s, k - 1)
    }
}

/// The diagnostic for an accepted call: with the snippet, remove everything
/// from the last `.` on, and point the note at what comes before it.
pub open spec fn diagnostic_of(bb: int, moved: usize, src: SourceInfo) -> Diagnostic {
    let plain = Diagnostic {
        block: bb as usize,
        moved,
        span: Span { lo: src.lo, hi: src.hi },
        suggestion: None,
        note: None,
    };
    match src.snippet {
        Some(t) => match last_dot(t@, t@.len() as int) {
            Some(d) => {
                let cut = (src.lo + d) as u32;
                Diagnostic {
                    block: bb as usize,
                    moved,
                    span: Span { lo: cut, hi: src.hi },
                    suggestion: Some(Suggestion {
                        span: Span { lo: cut, hi: src.hi },
                        applicability: if bare_call(t@, d + 1, t@.len() as int) {
                            Applicability::Automatic
                        } else {
                            Applicability::NeedsReview
                        },
                    }),
                    note: Some(Span { lo: src.lo, hi: cut }),
                }
            },
            None => plain,
        },
        None => plain,
    }
}

fn space_len_at(s: &Vec<u8>, i: usize, hi: usize) -> (r: usize)
    requires
        i <= hi <= s@.len(),
    ensures
        r == space_at(s@, i as int, hi as int),
{
    if i < hi && (s[i] == 32u8 || (9u8 <= s[i] && s[i] <= 13u8)) {
        1
    } else if hi - i >= 2 && s[i] == 0xC2u8 && (s[i + 1] == 0x85u8 || s[i + 1] == 0xA0u8) {
        2
    } else if hi - i >= 3 && is_space_triple(s[i], s[i + 1], s[i + 2]) {
        3
    } else {
        0
    }
}

fn space_len_before(s: &Vec<u8>, lo: usize, j: usize) -> (r: usize)
    requires
        lo <= j <= s@.len(),
    ensures
        r == space_before(s@, lo as int, j as int),
{
    if lo < j && (s[j - 1] == 32u8 || (9u8 <= s[j - 1] && s[j - 1] <= 13u8)) {
        1
    } else if j - lo >= 2 && s[j - 2] == 0xC2u8 && (s[j - 1] == 0x85u8 || s[j - 1] == 0xA0u8) {
        2
    } else if j - lo >= 3 && is_space_triple(s[j - 3], s[j - 2], s[j - 1]) {
        3
    } else {
        0
    }
}

fn is_space_triple(a: u8, b: u8, c: u8) -> (r: bool)
    ensures
        r == is_space3(a, b, c),
{
    (a == 0xE1u8 && b == 0x9Au8 && c == 0x80u8) || (a == 0xE2u8 && b == 0x80u8 && ((0x80u8 <= c && c <= 0x8Au8)
        || c == 0xA8u8 || c == 0xA9u8 || c == 0xAFu8)) || (a == 0xE2u8 && b == 0x81u8 && c == 0x9Fu8) || (a == 0xE3u8
        && b == 0x80u8 && c == 0x80u8)
}

/// Whether `s[lo..hi]`, trimmed of whitespace, is a bare name.
pub fn is_bare_name(s: &Vec<u8>, lo: usize, hi: usize) -> (r: bool)
    requires
        lo <= hi <= s@.len(),
    ensures
        r == bare_name(s@, lo as int, hi as int),
{
    let mut a = lo;
    let mut k = space_len_at(s, a, hi);
    while k > 0
        invariant
            lo <= a <= hi <= s@.len(),
            k == space_at(s@, a as int, hi as int),
            trim_start(s@, lo as int, hi as int) == trim_start(s@, a as int, hi as int),
        decreases hi - a,
    {
        a = a + k;
        k = space_len_at(s, a, hi);
    }
    let mut b = hi;
    k = space_len_before(s, a, b);
    while k > 0
        invariant
            lo <= a <= b <= hi <= s@.len(),
            a as int == trim_start(s@, lo as int, hi as int),
            k == space_before(s@, a as int, b as int),
            trim_end(s@, a as int, hi as int) == trim_end(s@, a as int, b as int),
        decreases b - a,
    {
        b = b - k;
        k = space_len_before(s, a, b);
    }
    assert(trim_end(s@, a as int, b as int) == b as int);
    let mut i = a;
    while i < b
        invariant
            a <= i <= b <= s@.len(),
            a as int == trim_start(s@, lo as int, hi as int),
            b as int == trim_end(s@, a as int, hi as int),
            forall|m: int| a <= m < i ==> is_word_byte(#[trigger] s@[m]),
        decreases b - i,
    {
        let x = s[i];
        if !((65u8 <= x && x <= 90u8) || (97u8 <= x && x <= 122u8) || x == 95u8) {
            assert(!is_word_byte(s@[i as int]));
            return false;
        }
        i = i + 1;
    }
    true
}

proof fn lemma_last_dot_in(s: Seq<u8>, k: int)
    ensures
        match last_dot(s, k) {
            Some(d) => 0 <= d < k,
            None => true,
        },
    decreases k,
{
    if k > 0 {
        lemma_last_dot_in(s, k - 1);
    }
}

/// The index of the last `.` in `s`.
pub fn rfind_dot(s: &Vec<u8>) -> (r: Option<usize>)
    ensures
        match r {
            Some(d) => last_dot(s@, s@.len() as int) == Some(d as int),
            None => last_dot(s@, s@.len() as int) is None,
        },
{
    let mut k = s.len();
    while k > 0
        invariant
            0 <= k <= s@.len(),
            last_dot(s@, s@.len() as int) == last_dot(s@, k as int),
        decreases k,
    {
        if s[k - 1] == 46u8 {
            return Some(k - 1);
        }
        k = k - 1;
    }
    None
}

/// Builds the diagnostic for the accepted call ending `bb`.
pub fn make_diagnostic(bb: usize, moved: usize, src: &SourceInfo) -> (r: Diagnostic)
    requires
        crate::ir::source_ok(*src),
    ensures
        r == diagnostic_of(bb as int, moved, *src),
{
    let plain = Diagnostic { block: bb, moved, span: Span { lo: src.lo, hi: src.hi }, suggestion: None, note: None };
    match &src.snippet {
        Some(t) => match rfind_dot(t) {
            Some(d) => {
                proof {
                    lemma_last_dot_in(t@, t@.len() as int);
                }
                let cut = src.lo + d as u32;
                let n = t.len();
                let automatic = n - (d + 1) >= 2 && t[n - 2] == 40u8 && t[n - 1] == 41u8 && is_bare_name(t, d + 1, n - 2);
                Diagnostic {
                    block: bb,
                    moved,
                    span: Span { lo: cut, hi: src.hi },
                    suggestion: Some(Suggestion {
                        span: Span { lo: cut, hi: src.hi },
                        applicability: if automatic {
                            Applicability::Automatic
                        } else {
                            Applicability::NeedsReview
                        },
                    }),
                    note: Some(Span { lo: src.lo, hi: cut }),
                }
            },
            None => plain,
        },
        None => plain,
    }
}

/// The diagnostics for the first `k` blocks, in block order.
pub open spec fn reports(body: Body, k: int) -> Seq<Diagnostic>
    decreases k,
{
    if k <= 0 {
        Seq::empty()
    } else {
        reports(body, k - 1) + match accepted(body, k - 1) {
            Some(l) => seq![diagnostic_of(k - 1, l, body.blocks@[k - 1].source)],
            None => Seq::empty(),
        }
    }
}

/// Analyzes one procedure: a diagnostic for every call that duplicates a
/// value which could have been moved.
pub fn analyze(body: &Body) -> (r: Vec<Diagnostic>)
    requires
        body.wf(),
    ensures
        r@ == reports(*body, body.blocks@.len() as int),
{
    let facts = Facts::new(body);
    let mut out: Vec<Diagnostic> = Vec::new();
    let mut bb: usize = 0;
    while bb < body.blocks.len()
        invariant
            body.wf(),
            facts.of(*body),
            0 <= bb <= body.blocks@.len(),
            out@ == reports(*body, bb as int),
        decreases body.blocks@.len() - bb,
    {
        assert(crate::ir::block_ok(body.blocks@[bb as int], body.locals@.len() as int, body.blocks@.len() as int));
        match check_call(body, &facts, bb) {
            Some(moved) => {
                out.push(make_diagnostic(bb, moved, &body.blocks[bb].source));
            },
            None => {},
        }
        assert(out@ =~= reports(*body, bb as int + 1));
        bb = bb + 1;
    }
    out
}

/// An accepted call is sound to rewrite into a move: the moved local is not
/// read again on any path forward, and every local that may still refer to
/// it with live storage at the call is one of the call's own temporaries.
/// So a procedure where some other local still refers to it never has the
/// call accepted.
pub proof fn accepted_call_is_last_use(body: Body, bb: int)
    requires
        body.wf(),
        0 <= bb < body.blocks@.len(),
        accepted(body, bb) is Some,
    ensures
        !used_later(body, bb, accepted(body, bb)->0),
        forall|x: usize|
            x < body.locals@.len() && x != 0 && borrows_from(body, accepted(body, bb)->0, x) && live_at(
                body,
                x,
                call_site(body, bb),
            ) ==> call_borrowers(body, bb).contains(x),
        accepted(body, bb)->0 >= 1,
        !body.locals@[accepted(body, bb)->0 as int].duplicable,
{
    let l = accepted(body, bb)->0;
    assert(movable_source(body, bb) == Some(l));
    let blk = body.blocks@[bb];
    let c = ref_arg_call(body, blk.terminator)->0;
    assert(crate::ir::block_ok(blk, body.locals@.len() as int, body.blocks@.len() as int));
    if let crate::ir::Terminator::Call { args, .. } = blk.terminator {
        assert(crate::ir::operand_ok(args@[0], body.locals@.len() as int));
    }
    let cands = call_borrowers(body, bb);
    assert(cands[0] == c.arg);
    assert(cands.contains(c.arg));
    assert(only_borrowers_at(body, cands, l, call_site(body, bb)));
    assert(live_borrower(body, l, c.arg, call_site(body, bb)));
}

/// The diagnostics depend on the procedure alone: analyzing the same
/// procedure twice yields the same diagnostics, in the same order.
pub proof fn analysis_is_repeatable(first: Body, second: Body)
    requires
        first == second,
    ensures
        reports(first, first.blocks@.len() as int) == reports(second, second.blocks@.len() as int),
{
}

/// A call in a loop is never accepted: when the block that ends with the
/// call can be reached again from itself, it yields no diagnostic.
pub proof fn call_in_loop_not_accepted(body: Body, bb: int)
    requires
        body.wf(),
        0 <= bb < body.blocks@.len(),
        reachable_after(body, bb, bb),
    ensures
        accepted(body, bb) is None,
{
    let g = body_succs(body);
    let seeds = Seq::new(g.len(), |y: int| g[bb].contains(y as usize));
    let pass = Seq::new(g.len(), |y: int| true);
    let q = choose|q: Seq<int>| #[trigger] is_walk(g, pass, q) && seeds[q[0]] && q.last() == bb;
    if q.len() == 1 {
        assert(g[bb].contains(bb as usize));
        assert(term_succs(body.blocks@[bb].terminator).contains(bb as usize));
    } else {
        let t = q[q.len() - 2];
        let r = q.subrange(0, q.len() - 1);
        assert forall|i: int| 0 <= i < r.len() - 1 implies pass[#[trigger] r[i]] && g[r[i]].contains(r[i + 1] as usize) by {
            assert(r[i] == q[i] && r[i + 1] == q[i + 1]);
        }
        assert forall|i: int| 0 <= i < r.len() implies 0 <= #[trigger] r[i] < g.len() by {
            assert(r[i] == q[i]);
        }
        assert(is_walk(g, pass, r) && seeds[r[0]] && r.last() == t);
        assert(reachable_after(body, bb, t));
        assert(pass[q[q.len() - 2]] && g[q[q.len() - 2]].contains(q[q.len() - 1] as usize));
        assert(g[t].contains(bb as usize));
        if t == bb {
            assert(term_succs(body.blocks@[bb].terminator).contains(bb as usize));
        } else {
            if movable_source(body, bb) is Some {
                assert(used_later(body, bb, movable_source(body, bb)->0));
            }
        }
    }
}

} // verus!
