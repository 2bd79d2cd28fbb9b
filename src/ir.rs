//! The mid-level intermediate representation that the analysis reads: a
//! control-flow graph of basic blocks over numbered local slots.
use vstd::prelude::*;
use crate::graph::{adj, graph_ok};

verus! {

/// What the front-end's type oracle answered for a slot's declared type.
#[derive(Clone, Copy, Debug, PartialEq, Eq, Structural)]
pub enum TyKind {
    /// An owned string.
    OwnedString,
    /// An owned filesystem path buffer.
    PathBuf,
    /// An owned platform string buffer.
    OsString,
    /// Any other type.
    Other,
}

/// Declaration of one local slot. The type facts come from the type oracle.
#[derive(Clone, Copy, Debug)]
pub struct LocalDecl {
    /// Duplicating a value of the slot's own type is a trivial bitwise copy.
    pub duplicable: bool,
    /// How many reference layers wrap the slot's type.
    pub ref_depth: u32,
    /// The type under all reference layers is trivially duplicable.
    pub pointee_duplicable: bool,
    /// Classification of the type under all reference layers.
    pub pointee_kind: TyKind,
    /// The slot's type can hold a reference.
    pub carries_ref: bool,
}

/// One step of a place's projection chain.
#[derive(Clone, Copy, Debug)]
pub enum ProjectionElem {
    Deref,
    /// Field access; `owner_has_destructor` tells whether the aggregate that
    /// holds the field has a destructor.
    Field { index: u32, owner_has_destructor: bool },
    /// Indexing by the value of a local.
    Index(usize),
}

/// A base local followed by a projection chain.
#[derive(Clone, Debug)]
pub struct Place {
    pub local: usize,
    pub projection: Vec<ProjectionElem>,
}

#[derive(Clone, Debug)]
pub enum Operand {
    Copy(Place),
    Move(Place),
    Constant,
}

#[derive(Clone, Debug)]
pub enum Rvalue {
    Use(Operand),
    Ref(Place),
    Aggregate(Vec<Operand>),
    BinaryOp(Operand, Operand),
    UnaryOp(Operand),
    Cast(Operand),
    Repeat(Operand),
}

#[derive(Clone, Debug)]
pub enum Statement {
    Assign(Place, Rvalue),
    StorageStart(usize),
    StorageEnd(usize),
    Nop,
}

/// Callees that the type oracle recognises; everything else is `Unknown`.
#[derive(Clone, Copy, Debug, PartialEq, Eq, Structural)]
pub enum Callee {
    /// Explicit value duplication.
    Clone,
    /// Owned value from a borrowed one.
    ToOwned,
    /// Stringify through a reference.
    ToString,
    /// Borrowed path to an owned path buffer.
    PathToPathBuf,
    /// Borrowed platform string to an owned one.
    OsStrToOsString,
    /// Dereference of a buffer to its borrowed form.
    Deref,
    Unknown(u64),
}

#[derive(Clone, Debug)]
pub enum Terminator {
    Goto { target: usize },
    Branch { condition: Operand, targets: Vec<usize> },
    Call { callee: Callee, args: Vec<Operand>, destination: Option<Place>, target: Option<usize> },
    /// Runs the destructor of a place, then continues.
    Drop { place: Place, target: usize },
    Return,
}

/// Where a terminator stands in the source text.
#[derive(Clone, Debug)]
pub struct SourceInfo {
    pub lo: u32,
    pub hi: u32,
    /// The code was produced by macro expansion, not written literally.
    pub synthesized: bool,
    /// The source text of `lo..hi`, when it is available.
    pub snippet: Option<Vec<u8>>,
}

#[derive(Clone, Debug)]
pub struct BasicBlock {
    pub statements: Vec<Statement>,
    pub terminator: Terminator,
    pub source: SourceInfo,
}

/// A procedure. Block 0 is the entry; local 0 is the return slot and locals
/// `1..=arg_count` are the arguments.
#[derive(Clone, Debug)]
pub struct Body {
    pub locals: Vec<LocalDecl>,
    pub blocks: Vec<BasicBlock>,
    pub arg_count: usize,
}

pub open spec fn term_succs(t: Terminator) -> Seq<usize> {
    match t {
        Terminator::Goto { target } => seq![target],
        Terminator::Branch { targets, .. } => targets@,
        Terminator::Call { target, .. } => match target {
            Some(b) => seq![b],
            None => Seq::empty(),
        },
        Terminator::Drop { target, .. } => seq![target],
        Terminator::Return => Seq::empty(),
    }
}

pub open spec fn body_succs(body: Body) -> Seq<Seq<usize>> {
    Seq::new(body.blocks@.len(), |b: int| term_succs(body.blocks@[b].terminator))
}

pub open spec fn place_ok(p: Place, nl: int) -> bool {
    &&& p.local < nl
    &&& forall|i: int| 0 <= i < p.projection@.len() ==>
        (match #[trigger] p.projection@[i] {
            ProjectionElem::Index(l) => l < nl,
            _ => true,
        })
}

pub open spec fn operand_ok(o: Operand, nl: int) -> bool {
    match o {
        Operand::Copy(p) => place_ok(p, nl),
        Operand::Move(p) => place_ok(p, nl),
        Operand::Constant => true,
    }
}

pub open spec fn rvalue_ok(r: Rvalue, nl: int) -> bool {
    match r {
        Rvalue::Use(o) => operand_ok(o, nl),
        Rvalue::Ref(p) => place_ok(p, nl),
        Rvalue::Aggregate(ops) => forall|i: int| 0 <= i < ops@.len() ==> operand_ok(#[trigger] ops@[i], nl),
        Rvalue::BinaryOp(a, b) => operand_ok(a, nl) && operand_ok(b, nl),
        Rvalue::UnaryOp(o) => operand_ok(o, nl),
        Rvalue::Cast(o) => operand_ok(o, nl),
        Rvalue::Repeat(o) => operand_ok(o, nl),
    }
}

pub open spec fn statement_ok(s: Statement, nl: int) -> bool {
    match s {
        Statement::Assign(p, r) => place_ok(p, nl) && rvalue_ok(r, nl),
        Statement::StorageStart(l) => l < nl,
        Statement::StorageEnd(l) => l < nl,
        Statement::Nop => true,
    }
}

pub open spec fn terminator_ok(t: Terminator, nl: int, nb: int) -> bool {
    &&& forall|i: int| 0 <= i < term_succs(t).len() ==> #[trigger] term_succs(t)[i] < nb
    &&& match t {
        Terminator::Branch { condition, .. } => operand_ok(condition, nl),
        Terminator::Call { args, destination, .. } => {
            &&& forall|i: int| 0 <= i < args@.len() ==> operand_ok(#[trigger] args@[i], nl)
            &&& match destination {
                Some(p) => place_ok(p, nl),
                None => true,
            }
        },
        Terminator::Drop { place, .. } => place_ok(place, nl),
        _ => true,
    }
}

pub open spec fn source_ok(s: SourceInfo) -> bool {
    &&& s.lo <= s.hi
    &&& match s.snippet {
        Some(t) => t@.len() == s.hi - s.lo,
        None => true,
    }
}

pub open spec fn block_ok(b: BasicBlock, nl: int, nb: int) -> bool {
    &&& forall|i: int| 0 <= i < b.statements@.len() ==> statement_ok(#[trigger] b.statements@[i], nl)
    &&& terminator_ok(b.terminator, nl, nb)
    &&& source_ok(b.source)
}

impl Body {
    /// Well-formedness: every local and block that is named exists, there is
    /// an entry block and a return slot, and each snippet spans its source range.
    pub open spec fn wf(&self) -> bool {
        &&& self.blocks@.len() > 0
        &&& self.arg_count < self.locals@.len()
        &&& forall|b: int| 0 <= b < self.blocks@.len() ==>
            block_ok(#[trigger] self.blocks@[b], self.locals@.len() as int, self.blocks@.len() as int)
    }

    pub open spec fn is_arg(&self, l: int) -> bool {
        1 <= l <= self.arg_count
    }
}

/// A program point: before statement `statement_index` of `block`, or at its
/// terminator when the index is the number of statements.
#[derive(Clone, Copy, Debug, PartialEq, Eq, Structural)]
pub struct Location {
    pub block: usize,
    pub statement_index: usize,
}

/// The successor blocks of a terminator, in order.
pub fn successors(t: &Terminator) -> (r: Vec<usize>)
    ensures
        r@ == term_succs(*t),
{
    match t {
        Terminator::Goto { target } => vec![*target],
        Terminator::Branch { targets, .. } => targets.clone(),
        Terminator::Call { target, .. } => match target {
            Some(b) => vec![*b],
            None => Vec::new(),
        },
        Terminator::Drop { target, .. } => vec![*target],
        Terminator::Return => Vec::new(),
    }
}

fn place_is_ok(p: &Place, nl: usize) -> (r: bool)
    ensures
        r == place_ok(*p, nl as int),
{
    if p.local >= nl {
        return false;
    }
    let mut i: usize = 0;
    while i < p.projection.len()
        invariant
            0 <= i <= p.projection@.len(),
            forall|k: int| 0 <= k < i ==> (match #[trigger] p.projection@[k] {
                ProjectionElem::Index(l) => l < nl,
                _ => true,
            }),
        decreases p.projection@.len() - i,
    {
        if let ProjectionElem::Index(l) = p.projection[i] {
            if l >= nl {
                return false;
            }
        }
        i = i + 1;
    }
    true
}

fn operand_is_ok(o: &Operand, nl: usize) -> (r: bool)
    ensures
        r == operand_ok(*o, nl as int),
{
    match o {
        Operand::Copy(p) | Operand::Move(p) => place_is_ok(p, nl),
        Operand::Constant => true,
    }
}

fn operands_are_ok(ops: &Vec<Operand>, nl: usize) -> (r: bool)
    ensures
        r == forall|i: int| 0 <= i < ops@.len() ==> operand_ok(#[trigger] ops@[i], nl as int),
{
    let mut i: usize = 0;
    while i < ops.len()
        invariant
            0 <= i <= ops@.len(),
            forall|k: int| 0 <= k < i ==> operand_ok(#[trigger] ops@[k], nl as int),
        decreases ops@.len() - i,
    {
        if !operand_is_ok(&ops[i], nl) {
            return false;
        }
        i = i + 1;
    }
    true
}

fn statement_is_ok(s: &Statement, nl: usize) -> (r: bool)
    ensures
        r == statement_ok(*s, nl as int),
{
    match s {
        Statement::Assign(p, rv) => place_is_ok(p, nl) && match rv {
            Rvalue::Use(o) | Rvalue::UnaryOp(o) | Rvalue::Cast(o) | Rvalue::Repeat(o) => operand_is_ok(o, nl),
            Rvalue::Ref(q) => place_is_ok(q, nl),
            Rvalue::Aggregate(ops) => operands_are_ok(ops, nl),
            Rvalue::BinaryOp(a, b) => operand_is_ok(a, nl) && operand_is_ok(b, nl),
        },
        Statement::StorageStart(l) | Statement::StorageEnd(l) => *l < nl,
        Statement::Nop => true,
    }
}

fn terminator_is_ok(t: &Terminator, nl: usize, nb: usize) -> (r: bool)
    ensures
        r == terminator_ok(*t, nl as int, nb as int),
{
    let succs = successors(t);
    let mut i: usize = 0;
    while i < succs.len()
        invariant
            succs@ == term_succs(*t),
            0 <= i <= succs@.len(),
            forall|k: int| 0 <= k < i ==> #[trigger] term_succs(*t)[k] < nb,
        decreases succs@.len() - i,
    {
        if succs[i] >= nb {
            return false;
        }
        i = i + 1;
    }
    match t {
        Terminator::Branch { condition, .. } => operand_is_ok(condition, nl),
        Terminator::Call { args, destination, .. } => operands_are_ok(args, nl) && match destination {
            Some(p) => place_is_ok(p, nl),
            None => true,
        },
        Terminator::Drop { place, .. } => place_is_ok(place, nl),
        _ => true,
    }
}

fn block_is_ok(b: &BasicBlock, nl: usize, nb: usize) -> (r: bool)
    ensures
        r == block_ok(*b, nl as int, nb as int),
{
    let mut i: usize = 0;
    while i < b.statements.len()
        invariant
            0 <= i <= b.statements@.len(),
            forall|k: int| 0 <= k < i ==> statement_ok(#[trigger] b.statements@[k], nl as int),
        decreases b.statements@.len() - i,
    {
        if !statement_is_ok(&b.statements[i], nl) {
            return false;
        }
        i = i + 1;
    }
    if !terminator_is_ok(&b.terminator, nl, nb) {
        return false;
    }
    if b.source.lo > b.source.hi {
        return false;
    }
    match &b.source.snippet {
        Some(t) => t.len() as u64 == (b.source.hi - b.source.lo) as u64,
        None => true,
    }
}

impl Body {
    /// Tests the well-formedness that the analysis requires.
    pub fn is_well_formed(&self) -> (r: bool)
        ensures
            r == self.wf(),
    {
        let nl = self.locals.len();
        let nb = self.blocks.len();
        if nb == 0 || self.arg_count >= nl {
            return false;
        }
        let mut b: usize = 0;
        while b < nb
            invariant
                nl == self.locals@.len(),
                nb == self.blocks@.len(),
                0 <= b <= nb,
                forall|k: int| 0 <= k < b ==> block_ok(#[trigger] self.blocks@[k], nl as int, nb as int),
            decreases nb - b,
        {
            if !block_is_ok(&self.blocks[b], nl, nb) {
                return false;
            }
            b = b + 1;
        }
        true
    }

    /// The successor list of every block, indexed by block.
    pub fn successor_lists(&self) -> (r: Vec<Vec<usize>>)
        requires
            self.wf(),
        ensures
            adj(&r) == body_succs(*self),
            graph_ok(adj(&r)),
    {
        let mut r: Vec<Vec<usize>> = Vec::new();
        let mut b: usize = 0;
        while b < self.blocks.len()
            invariant
                self.wf(),
                0 <= b <= self.blocks@.len(),
                r@.len() == b,
                forall|i: int| 0 <= i < b ==> (#[trigger] r@[i])@ == term_succs(self.blocks@[i].terminator),
            decreases self.blocks@.len() - b,
        {
            r.push(successors(&self.blocks[b].terminator));
            b = b + 1;
        }
        assert(adj(&r) =~= body_succs(*self));
        proof {
            let g = adj(&r);
            assert forall|x: int, j: int| 0 <= x < g.len() && 0 <= j < g[x].len() implies #[trigger] g[x][j] < g.len() by {
                assert(block_ok(self.blocks@[x], self.locals@.len() as int, self.blocks@.len() as int));
                assert(term_succs(self.blocks@[x].terminator)[j] < self.blocks@.len());
            }
        }
        r
    }
}

} // verus!
