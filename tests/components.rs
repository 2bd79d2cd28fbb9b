use redundant_clone::borrowers::{rvalue_locals, PossibleBorrower};
use redundant_clone::graph::propagate;
use redundant_clone::ir::{
    successors, BasicBlock, Body, Callee, LocalDecl, Location, Operand, Place, ProjectionElem, Rvalue, SourceInfo,
    Statement, Terminator, TyKind,
};
use redundant_clone::lint::{is_bare_name, make_diagnostic, rfind_dot, Applicability, Span};
use redundant_clone::liveness::{storage_effect_upto, MaybeStorageLive};
use redundant_clone::recognize::{base_local_and_movability, find_stmt_assigns_to, is_call_with_ref_arg};
use redundant_clone::uses::{is_used_later, local_used_in_block, unique_predecessor};

fn decl(carries_ref: bool) -> LocalDecl {
    LocalDecl { duplicable: false, ref_depth: 0, pointee_duplicable: false, pointee_kind: TyKind::Other, carries_ref }
}

fn local(l: usize) -> Place {
    Place { local: l, projection: Vec::new() }
}

fn bare_source() -> SourceInfo {
    SourceInfo { lo: 0, hi: 0, synthesized: false, snippet: None }
}

fn block(statements: Vec<Statement>, terminator: Terminator) -> BasicBlock {
    BasicBlock { statements, terminator, source: bare_source() }
}

#[test]
fn propagation_is_least_closed_set() {
    // 0 -> 1 -> 2 -> 3, and 4 -> 0; propagation stops at 2
    let succs = vec![vec![1], vec![2], vec![3], vec![], vec![0]];
    let seeds = vec![true, false, false, false, false];
    let pass = vec![true, true, false, true, true];
    assert_eq!(propagate(&succs, &seeds, &pass), vec![true, true, true, false, false]);
}

#[test]
fn propagation_terminates_on_cycles() {
    let succs = vec![vec![1], vec![0, 2], vec![2]];
    let seeds = vec![false, true, false];
    let pass = vec![true, true, true];
    assert_eq!(propagate(&succs, &seeds, &pass), vec![true, true, true]);
}

#[test]
fn storage_effect_takes_last_marker() {
    let stmts = vec![Statement::StorageStart(2), Statement::Nop, Statement::StorageEnd(2), Statement::StorageStart(3)];
    assert_eq!(storage_effect_upto(&stmts, 2, 0), None);
    assert_eq!(storage_effect_upto(&stmts, 2, 1), Some(true));
    assert_eq!(storage_effect_upto(&stmts, 2, 4), Some(false));
    assert_eq!(storage_effect_upto(&stmts, 3, 4), Some(true));
    assert_eq!(storage_effect_upto(&stmts, 1, 4), None);
}

/// Block 0 branches to 1 and 2, which both go to 3. Local 2 is started in
/// block 1 only; local 1 is an argument that block 2 ends.
fn diamond() -> Body {
    let blocks = vec![
        block(Vec::new(), Terminator::Branch { condition: Operand::Copy(local(1)), targets: vec![1, 2] }),
        block(vec![Statement::StorageStart(2)], Terminator::Goto { target: 3 }),
        block(vec![Statement::StorageEnd(1)], Terminator::Goto { target: 3 }),
        block(vec![Statement::StorageEnd(2)], Terminator::Return),
    ];
    Body { locals: vec![decl(false), decl(false), decl(false)], blocks, arg_count: 1 }
}

#[test]
fn storage_liveness_is_a_may_analysis() {
    let body = diamond();
    let live = MaybeStorageLive::new(&body);
    assert_eq!(live.entry[1], vec![true, true, true, true]);
    assert_eq!(live.entry[2], vec![false, false, false, true]);
    assert!(!live.contains(&body, 2, Location { block: 1, statement_index: 0 }));
    assert!(live.contains(&body, 2, Location { block: 1, statement_index: 1 }));
    assert!(!live.contains(&body, 1, Location { block: 2, statement_index: 1 }));
    assert!(!live.contains(&body, 2, Location { block: 3, statement_index: 1 }));
}

#[test]
fn unique_predecessor_counts_edges() {
    let body = diamond();
    let succs = body.successor_lists();
    assert_eq!(unique_predecessor(&succs, 1), Some(0));
    assert_eq!(unique_predecessor(&succs, 3), None);
    assert_eq!(unique_predecessor(&succs, 0), None);
    let doubled = vec![vec![1, 1], vec![]];
    assert_eq!(unique_predecessor(&doubled, 1), None);
}

#[test]
fn successors_follow_terminators() {
    assert_eq!(successors(&Terminator::Goto { target: 4 }), vec![4]);
    assert_eq!(successors(&Terminator::Return), Vec::<usize>::new());
    let call = Terminator::Call { callee: Callee::Clone, args: Vec::new(), destination: None, target: None };
    assert_eq!(successors(&call), Vec::<usize>::new());
}

#[test]
fn rvalue_locals_lists_operands() {
    let rv = Rvalue::BinaryOp(Operand::Copy(local(3)), Operand::Move(local(5)));
    assert_eq!(rvalue_locals(&rv), vec![3, 5]);
    let agg = Rvalue::Aggregate(vec![Operand::Constant, Operand::Copy(local(1)), Operand::Move(local(2))]);
    assert_eq!(rvalue_locals(&agg), vec![1, 2]);
    assert!(rvalue_locals(&Rvalue::Ref(local(1))).is_empty());
}

/// `_2 = &_1; _3 = copy _2; _4 = _3 + _1` with `_3` holding a reference
/// and `_4` not.
fn chain() -> Body {
    let stmts = vec![
        Statement::StorageStart(2),
        Statement::StorageStart(3),
        Statement::Assign(local(2), Rvalue::Ref(local(1))),
        Statement::Assign(local(3), Rvalue::Use(Operand::Copy(local(2)))),
        Statement::Assign(local(4), Rvalue::BinaryOp(Operand::Copy(local(3)), Operand::Copy(local(1)))),
        Statement::StorageEnd(2),
    ];
    let blocks = vec![block(stmts, Terminator::Return)];
    Body { locals: vec![decl(false), decl(false), decl(true), decl(true), decl(false)], blocks, arg_count: 1 }
}

#[test]
fn borrowers_are_transitive_and_filtered_by_liveness() {
    let body = chain();
    let pb = PossibleBorrower::new(&body);
    assert_eq!(pb.map[1], Some(vec![false, false, true, true, false]));
    assert_eq!(pb.map[2], Some(vec![false, false, false, true, false]));
    assert_eq!(pb.map[3], None);
    assert_eq!(pb.map[0], None);
    let live = MaybeStorageLive::new(&body);
    let end = Location { block: 0, statement_index: 6 };
    assert!(pb.only_borrowers(&body, &live, &vec![3], 1, end));
    assert!(!pb.only_borrowers(&body, &live, &vec![2, 3], 1, end));
    let before_end = Location { block: 0, statement_index: 5 };
    assert!(pb.only_borrowers(&body, &live, &vec![2, 3], 1, before_end));
    assert!(!pb.only_borrowers(&body, &live, &vec![3], 4, end));
}

#[test]
fn movability_through_projections() {
    let plain = Place { local: 4, projection: vec![ProjectionElem::Field { index: 1, owner_has_destructor: false }] };
    assert_eq!(base_local_and_movability(&plain), (4, false));
    let deref = Place { local: 4, projection: vec![ProjectionElem::Deref, ProjectionElem::Index(2)] };
    assert_eq!(base_local_and_movability(&deref), (4, true));
    let dropped = Place { local: 7, projection: vec![ProjectionElem::Field { index: 0, owner_has_destructor: true }] };
    assert_eq!(base_local_and_movability(&dropped), (7, true));
}

#[test]
fn last_assignment_decides_the_source() {
    let body = chain();
    assert_eq!(find_stmt_assigns_to(&body, 2, true, 0), Some((1, false)));
    assert_eq!(find_stmt_assigns_to(&body, 2, false, 0), None);
    assert_eq!(find_stmt_assigns_to(&body, 3, false, 0), Some((2, false)));
    assert_eq!(find_stmt_assigns_to(&body, 4, false, 0), None);
    assert_eq!(find_stmt_assigns_to(&body, 1, true, 0), None);
}

#[test]
fn call_with_ref_arg_needs_one_moved_reference() {
    let mut body = chain();
    body.locals[2] = LocalDecl {
        duplicable: true,
        ref_depth: 1,
        pointee_duplicable: false,
        pointee_kind: TyKind::PathBuf,
        carries_ref: true,
    };
    let good = Terminator::Call {
        callee: Callee::Deref,
        args: vec![Operand::Move(local(2))],
        destination: Some(local(3)),
        target: None,
    };
    let r = is_call_with_ref_arg(&body, &good).unwrap();
    assert_eq!((r.callee, r.arg, r.arg_kind, r.destination), (Callee::Deref, 2, TyKind::PathBuf, Some(3)));
    let copied = Terminator::Call {
        callee: Callee::Deref,
        args: vec![Operand::Copy(local(2))],
        destination: Some(local(3)),
        target: None,
    };
    assert!(is_call_with_ref_arg(&body, &copied).is_none());
    let two = Terminator::Call {
        callee: Callee::Clone,
        args: vec![Operand::Move(local(2)), Operand::Constant],
        destination: None,
        target: None,
    };
    assert!(is_call_with_ref_arg(&body, &two).is_none());
    let not_ref = Terminator::Call {
        callee: Callee::Clone,
        args: vec![Operand::Move(local(3))],
        destination: None,
        target: None,
    };
    assert!(is_call_with_ref_arg(&body, &not_ref).is_none());
}

#[test]
fn uses_ignore_drops_and_storage_markers() {
    let blocks = vec![
        block(vec![Statement::StorageStart(1)], Terminator::Goto { target: 1 }),
        block(vec![Statement::StorageEnd(1)], Terminator::Drop { place: local(1), target: 2 }),
        block(
            vec![Statement::Assign(local(2), Rvalue::Use(Operand::Copy(Place {
                local: 3,
                projection: vec![ProjectionElem::Index(1)],
            })))],
            Terminator::Return,
        ),
    ];
    let body = Body { locals: vec![decl(false), decl(false), decl(false), decl(false)], blocks, arg_count: 0 };
    assert!(!local_used_in_block(&body, 0, 1));
    assert!(!local_used_in_block(&body, 1, 1));
    assert!(local_used_in_block(&body, 2, 1));
    assert!(local_used_in_block(&body, 2, 0));
    let succs = body.successor_lists();
    assert!(is_used_later(&body, &succs, 0, 1));
    assert!(is_used_later(&body, &succs, 1, 3));
    assert!(!is_used_later(&body, &succs, 2, 1));
}

#[test]
fn bare_names_allow_only_surrounding_space() {
    let s = b" clone ".to_vec();
    assert!(is_bare_name(&s, 0, 7));
    let gap = b"to owned".to_vec();
    assert!(!is_bare_name(&gap, 0, 8));
    let digits = b"f1".to_vec();
    assert!(!is_bare_name(&digits, 0, 2));
    assert!(is_bare_name(&digits, 0, 1));
    assert!(is_bare_name(&digits, 1, 1));
}

#[test]
fn last_dot_is_found() {
    assert_eq!(rfind_dot(&b"a.b.c".to_vec()), Some(3));
    assert_eq!(rfind_dot(&b"abc".to_vec()), None);
    assert_eq!(rfind_dot(&Vec::new()), None);
}

#[test]
fn diagnostic_spans_follow_the_last_dot() {
    let src = SourceInfo { lo: 10, hi: 24, synthesized: false, snippet: Some(b"v.iter() .cl()".to_vec()) };
    let d = make_diagnostic(2, 5, &src);
    assert_eq!(d.span, Span { lo: 19, hi: 24 });
    assert_eq!(d.note, Some(Span { lo: 10, hi: 19 }));
    assert_eq!(d.suggestion.unwrap().applicability, Applicability::Automatic);
    let spaced = SourceInfo { lo: 0, hi: 9, synthesized: false, snippet: Some(b"x.a b ( )".to_vec()) };
    assert_eq!(make_diagnostic(0, 1, &spaced).suggestion.unwrap().applicability, Applicability::NeedsReview);
}

#[test]
fn well_formedness_is_tested() {
    assert!(diamond().is_well_formed());
    let mut dangling = diamond();
    dangling.blocks[1].terminator = Terminator::Goto { target: 9 };
    assert!(!dangling.is_well_formed());
    let mut unknown_local = diamond();
    unknown_local.blocks[0].statements.push(Statement::StorageStart(3));
    assert!(!unknown_local.is_well_formed());
    let mut bad_snippet = diamond();
    bad_snippet.blocks[0].source = SourceInfo { lo: 0, hi: 4, synthesized: false, snippet: Some(b"ab".to_vec()) };
    assert!(!bad_snippet.is_well_formed());
    let empty = Body { locals: vec![decl(false)], blocks: Vec::new(), arg_count: 0 };
    assert!(!empty.is_well_formed());
}

#[test]
fn untracked_local_has_no_live_borrowers() {
    let body = chain();
    let pb = PossibleBorrower::new(&body);
    let live = MaybeStorageLive::new(&body);
    let end = Location { block: 0, statement_index: 6 };
    // local 3 is borrowed by nobody, local 0 is the return slot
    assert!(pb.only_borrowers(&body, &live, &Vec::new(), 3, end));
    assert!(pb.only_borrowers(&body, &live, &Vec::new(), 0, end));
    assert!(!pb.only_borrowers(&body, &live, &vec![3], 0, end));
    // local 1 still has a live borrower
    assert!(!pb.only_borrowers(&body, &live, &Vec::new(), 1, end));
}

#[test]
fn rvalue_locals_keep_order_and_repeats() {
    let rv = Rvalue::BinaryOp(Operand::Move(local(1)), Operand::Copy(local(2)));
    assert_eq!(rvalue_locals(&rv), vec![1, 2]);
    let swapped = Rvalue::BinaryOp(Operand::Copy(local(2)), Operand::Copy(local(1)));
    assert_eq!(rvalue_locals(&swapped), vec![2, 1]);
    let twice = Rvalue::Aggregate(vec![Operand::Copy(local(4)), Operand::Constant, Operand::Copy(local(4))]);
    assert_eq!(rvalue_locals(&twice), vec![4, 4]);
    assert_eq!(rvalue_locals(&Rvalue::Cast(Operand::Constant)), Vec::<usize>::new());
    assert_eq!(rvalue_locals(&Rvalue::UnaryOp(Operand::Move(local(6)))), vec![6]);
}

#[test]
fn dropping_part_of_a_local_uses_it() {
    let field = Place { local: 1, projection: vec![ProjectionElem::Field { index: 0, owner_has_destructor: false }] };
    let blocks = vec![
        block(Vec::new(), Terminator::Drop { place: field, target: 1 }),
        block(Vec::new(), Terminator::Drop { place: local(1), target: 2 }),
        block(Vec::new(), Terminator::Return),
    ];
    let body = Body { locals: vec![decl(false), decl(false)], blocks, arg_count: 1 };
    assert!(local_used_in_block(&body, 0, 1));
    assert!(!local_used_in_block(&body, 1, 1));
}

#[test]
fn bare_names_trim_unicode_whitespace() {
    let s = "\u{85}clone\u{3000}".as_bytes().to_vec();
    assert!(is_bare_name(&s, 0, s.len()));
    let nbsp = "\u{a0} to_owned \u{2009}".as_bytes().to_vec();
    assert!(is_bare_name(&nbsp, 0, nbsp.len()));
    let inner = "clone\u{a0}x".as_bytes().to_vec();
    assert!(!is_bare_name(&inner, 0, inner.len()));
    let other = "\u{e9}t\u{e9}".as_bytes().to_vec();
    assert!(!is_bare_name(&other, 0, other.len()));
    let blank = "\u{2028} \t".as_bytes().to_vec();
    assert!(is_bare_name(&blank, 0, blank.len()));
}

#[test]
fn unicode_spaced_call_is_automatic() {
    let text = "x.\u{85}clone\u{85}()".as_bytes().to_vec();
    let src = SourceInfo { lo: 0, hi: text.len() as u32, synthesized: false, snippet: Some(text) };
    assert_eq!(make_diagnostic(0, 1, &src).suggestion.unwrap().applicability, Applicability::Automatic);
}
