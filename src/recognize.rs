//! Recognition of duplication-call shapes and the movability check on the
//! place that would be moved instead.
use vstd::prelude::*;
use crate::ir::{Body, Callee, Operand, Place, ProjectionElem, Rvalue, Statement, Terminator, TyKind};

verus! {

/// Moving out of `p` is impossible: its projection chain passes through a
/// dereference, or through a field of an aggregate that has a destructor.
pub open spec fn cannot_move_out(p: Place) -> bool {
    exists|i: int| 0 <= i < p.projection@.len() && match #[trigger] p.projection@[i] {
        ProjectionElem::Deref => true,
        ProjectionElem::Field { owner_has_destructor, .. } => owner_has_destructor,
        ProjectionElem::Index(_) => false,
    }
}

/// The base local of `place`, and whether `place` cannot be moved out of.
pub fn base_local_and_movability(place: &Place) -> (r: (usize, bool))
    ensures
        r.0 == place.local,
        r.1 == cannot_move_out(*place),
{
    let mut blocked = false;
    let mut i = place.projection.len();
    while i > 0
        invariant
            0 <= i <= place.projection@.len(),
            blocked <==> exists|k: int| i <= k < place.projection@.len() && match #[trigger] place.projection@[k] {
                ProjectionElem::Deref => true,
                ProjectionElem::Field { owner_has_destructor, .. } => owner_has_destructor,
                ProjectionElem::Index(_) => false,
            },
        decreases i,
    {
        i = i - 1;
        match place.projection[i] {
            ProjectionElem::Deref => blocked = true,
            ProjectionElem::Field { owner_has_destructor, .. } => {
                if owner_has_destructor {
                    blocked = true;
                }
            },
            ProjectionElem::Index(_) => {},
        }
    }
    (place.local, blocked)
}

pub open spec fn assigns_to(s: Statement, l: usize) -> bool {
    match s {
        Statement::Assign(p, _) => p.local == l,
        _ => false,
    }
}

/// The index of the last of the first `k` statements that assigns to `l`.
pub open spec fn last_assign(stmts: Seq<Statement>, l: usize, k: int) -> Option<int>
    decreases k,
{
    if k <= 0 {
        None
    } else if assigns_to(stmts[k - 1], l) {
        Some(k - 1)
    } else {
        last_assign(stmts, l, k - 1)
    }
}

/// What the last assignment to `to` in block `bb` copies (`by_ref` false) or
/// borrows (`by_ref` true): its base local and whether it cannot be moved out.
pub open spec fn source_of(body: Body, to: usize, by_ref: bool, bb: int) -> Option<(usize, bool)> {
    let stmts = body.blocks@[bb].statements@;
    match last_assign(stmts, to, stmts.len() as int) {
        None => None,
        Some(i) => match stmts[i] {
            Statement::Assign(_, rv) => match rv {
                Rvalue::Ref(p) => if by_ref { Some((p.local, cannot_move_out(p))) } else { None },
                Rvalue::Use(Operand::Copy(p)) => if !by_ref { Some((p.local, cannot_move_out(p))) } else { None },
                _ => None,
            },
            _ => None,
        },
    }
}

/// Finds the last statement of `bb` that assigns to `to_local` and, when it
/// is `to_local = &place` (`by_ref`) or `to_local = copy place` (not
/// `by_ref`), returns the base local of `place` and whether it cannot be
/// moved out.
pub fn find_stmt_assigns_to(body: &Body, to_local: usize, by_ref: bool, bb: usize) -> (r: Option<(usize, bool)>)
    requires
        bb < body.blocks@.len(),
    ensures
        r == source_of(*body, to_local, by_ref, bb as int),
{
    let stmts = &body.blocks[bb].statements;
    let mut k = stmts.len();
    while k > 0
        invariant
            *stmts == body.blocks@[bb as int].statements,
            0 <= k <= stmts@.len(),
            last_assign(stmts@, to_local, stmts@.len() as int) == last_assign(stmts@, to_local, k as int),
        decreases k,
    {
        if let Statement::Assign(p, rv) = &stmts[k - 1] {
            if p.local == to_local {
                return match rv {
                    Rvalue::Ref(place) => if by_ref { Some(base_local_and_movability(place)) } else { None },
                    Rvalue::Use(Operand::Copy(place)) => if !by_ref { Some(base_local_and_movability(place)) } else { None },
                    _ => None,
                };
            }
        }
        k = k - 1;
    }
    None
}

/// A call that takes one argument, moved out of a local whose type is one
/// reference to a type that is not trivially duplicable. The IR records types
/// per local only, so an argument moved out of a projected place is not
/// recognised and such a call is skipped.
#[derive(Clone, Copy, Debug, PartialEq, Eq, Structural)]
pub struct RefArgCall {
    pub callee: Callee,
    /// The argument's local.
    pub arg: usize,
    /// The referenced type of the argument.
    pub arg_kind: TyKind,
    /// The base local of the destination, if the call has one.
    pub destination: Option<usize>,
}

pub open spec fn ref_arg_call(body: Body, t: Terminator) -> Option<RefArgCall> {
    match t {
        Terminator::Call { callee, args, destination, .. } => {
            if args@.len() == 1 {
                match args@[0] {
                    Operand::Move(p) => {
                        let d = body.locals@[p.local as int];
                        if p.projection@.len() == 0 && d.ref_depth == 1 && !d.pointee_duplicable {
                            Some(RefArgCall {
                                callee,
                                arg: p.local,
                                arg_kind: d.pointee_kind,
                                destination: match destination {
                                    Some(dp) => Some(dp.local),
                                    None => None,
                                },
                            })
                        } else {
                            None
                        }
                    },
                    _ => None,
                }
            } else {
                None
            }
        },
        _ => None,
    }
}

/// Recognises `dest = callee(move arg)` where `arg` is a plain local of type
/// `&T` and `T` is not trivially duplicable.
pub fn is_call_with_ref_arg(body: &Body, t: &Terminator) -> (r: Option<RefArgCall>)
    requires
        crate::ir::terminator_ok(*t, body.locals@.len() as int, body.blocks@.len() as int),
    ensures
        r == ref_arg_call(*body, *t),
{
    if let Terminator::Call { callee, args, destination, .. } = t {
        if args.len() != 1 {
            return None;
        }
        assert(crate::ir::operand_ok(args@[0], body.locals@.len() as int));
        if let Operand::Move(p) = &args[0] {
            let d = &body.locals[p.local];
            if p.projection.len() == 0 && d.ref_depth == 1 && !d.pointee_duplicable {
                let dest = match destination {
                    Some(dp) => Some(dp.local),
                    None => None,
                };
                return Some(RefArgCall { callee: *callee, arg: p.local, arg_kind: d.pointee_kind, destination: dest });
            }
        }
    }
    None
}

} // verus!
