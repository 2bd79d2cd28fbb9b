use redundant_clone::ir::{
    BasicBlock, Body, Callee, LocalDecl, Operand, Place, ProjectionElem, Rvalue, SourceInfo, Statement, Terminator,
    TyKind,
};
use redundant_clone::lint::{analyze, Applicability, Diagnostic, Span, Suggestion};

fn owned() -> LocalDecl {
    LocalDecl { duplicable: false, ref_depth: 0, pointee_duplicable: false, pointee_kind: TyKind::Other, carries_ref: false }
}

fn owned_of(kind: TyKind) -> LocalDecl {
    LocalDecl { duplicable: false, ref_depth: 0, pointee_duplicable: false, pointee_kind: kind, carries_ref: false }
}

fn unit() -> LocalDecl {
    LocalDecl { duplicable: true, ref_depth: 0, pointee_duplicable: true, pointee_kind: TyKind::Other, carries_ref: false }
}

fn shared_ref(kind: TyKind) -> LocalDecl {
    LocalDecl { duplicable: true, ref_depth: 1, pointee_duplicable: false, pointee_kind: kind, carries_ref: true }
}

fn local(l: usize) -> Place {
    Place { local: l, projection: Vec::new() }
}

fn no_source() -> SourceInfo {
    SourceInfo { lo: 0, hi: 0, synthesized: false, snippet: None }
}

fn source(lo: u32, text: &str) -> SourceInfo {
    SourceInfo { lo, hi: lo + text.len() as u32, synthesized: false, snippet: Some(text.as_bytes().to_vec()) }
}

fn block(statements: Vec<Statement>, terminator: Terminator, source: SourceInfo) -> BasicBlock {
    BasicBlock { statements, terminator, source }
}

fn call(callee: Callee, arg: usize, dest: usize, target: usize) -> Terminator {
    Terminator::Call {
        callee,
        args: vec![Operand::Move(local(arg))],
        destination: Some(local(dest)),
        target: Some(target),
    }
}

fn other_call(arg: usize, dest: usize, target: usize) -> Terminator {
    call(Callee::Unknown(7), arg, dest, target)
}

/// `let x = Owned::new(); call(x.duplicate()); call(x.duplicate());`
fn two_duplicates_body() -> Body {
    let locals = vec![
        unit(),
        owned(),
        shared_ref(TyKind::Other),
        owned(),
        unit(),
        shared_ref(TyKind::Other),
        owned(),
        unit(),
    ];
    let blocks = vec![
        block(
            vec![Statement::StorageStart(1)],
            Terminator::Call { callee: Callee::Unknown(1), args: Vec::new(), destination: Some(local(1)), target: Some(1) },
            source(0, "Owned::new()"),
        ),
        block(
            vec![Statement::StorageStart(3), Statement::StorageStart(2), Statement::Assign(local(2), Rvalue::Ref(local(1)))],
            call(Callee::Clone, 2, 3, 2),
            source(30, "x.duplicate()"),
        ),
        block(vec![Statement::StorageEnd(2)], other_call(3, 4, 3), no_source()),
        block(
            vec![
                Statement::StorageEnd(3),
                Statement::StorageStart(6),
                Statement::StorageStart(5),
                Statement::Assign(local(5), Rvalue::Ref(local(1))),
            ],
            call(Callee::Clone, 5, 6, 4),
            source(50, "x.duplicate()"),
        ),
        block(vec![Statement::StorageEnd(5)], other_call(6, 7, 5), no_source()),
        block(vec![Statement::StorageEnd(6)], Terminator::Drop { place: local(1), target: 6 }, no_source()),
        block(vec![Statement::StorageEnd(1)], Terminator::Return, no_source()),
    ];
    Body { locals, blocks, arg_count: 0 }
}

#[test]
fn second_duplicate_is_flagged_first_is_not() {
    let d = analyze(&two_duplicates_body());
    assert_eq!(d.len(), 1);
    assert_eq!(
        d[0],
        Diagnostic {
            block: 3,
            moved: 1,
            span: Span { lo: 51, hi: 63 },
            suggestion: Some(Suggestion { span: Span { lo: 51, hi: 63 }, applicability: Applicability::Automatic }),
            note: Some(Span { lo: 50, hi: 51 }),
        }
    );
}

#[test]
fn analysis_is_idempotent() {
    let body = two_duplicates_body();
    let first = analyze(&body);
    let second = analyze(&body);
    assert_eq!(first, second);
}

#[test]
fn synthesized_call_is_skipped() {
    let mut body = two_duplicates_body();
    body.blocks[3].source.synthesized = true;
    assert!(analyze(&body).is_empty());
}

/// `["lorem", "ipsum"].join(" ").to_string();`
fn join_then_stringify_body(kind: TyKind) -> Body {
    let locals = vec![unit(), owned_of(TyKind::OwnedString), owned_of(TyKind::OwnedString), shared_ref(kind)];
    let blocks = vec![
        block(
            vec![Statement::StorageStart(1)],
            Terminator::Call { callee: Callee::Unknown(2), args: Vec::new(), destination: Some(local(1)), target: Some(1) },
            no_source(),
        ),
        block(
            vec![Statement::StorageStart(2), Statement::StorageStart(3), Statement::Assign(local(3), Rvalue::Ref(local(1)))],
            call(Callee::ToString, 3, 2, 2),
            source(100, "[\"lorem\", \"ipsum\"].join(\" \").to_string()"),
        ),
        block(
            vec![Statement::StorageEnd(3)],
            Terminator::Drop { place: local(2), target: 3 },
            no_source(),
        ),
        block(vec![Statement::StorageEnd(2)], Terminator::Drop { place: local(1), target: 4 }, no_source()),
        block(vec![Statement::StorageEnd(1)], Terminator::Return, no_source()),
    ];
    Body { locals, blocks, arg_count: 0 }
}

#[test]
fn joined_then_stringified_is_flagged() {
    let d = analyze(&join_then_stringify_body(TyKind::OwnedString));
    assert_eq!(d.len(), 1);
    assert_eq!(d[0].block, 1);
    assert_eq!(d[0].moved, 1);
    // the snippet is 40 bytes long and its last dot is at 28
    assert_eq!(d[0].span, Span { lo: 128, hi: 140 });
    assert_eq!(d[0].note, Some(Span { lo: 100, hi: 128 }));
    assert_eq!(d[0].suggestion.unwrap().applicability, Applicability::Automatic);
}

#[test]
fn stringify_of_non_string_is_not_flagged() {
    assert!(analyze(&join_then_stringify_body(TyKind::Other)).is_empty());
}

/// `Path::new("/a/b").join("c").to_path_buf();`
fn path_round_trip_body() -> Body {
    let path_ref = LocalDecl {
        duplicable: true,
        ref_depth: 1,
        pointee_duplicable: false,
        pointee_kind: TyKind::Other,
        carries_ref: true,
    };
    let locals = vec![
        unit(),
        owned_of(TyKind::PathBuf),
        unit(),
        path_ref,
        shared_ref(TyKind::PathBuf),
        path_ref,
        owned_of(TyKind::PathBuf),
    ];
    let blocks = vec![
        block(
            vec![Statement::StorageStart(1)],
            Terminator::Call { callee: Callee::Unknown(3), args: Vec::new(), destination: Some(local(1)), target: Some(1) },
            no_source(),
        ),
        block(
            vec![Statement::StorageStart(3), Statement::StorageStart(4), Statement::Assign(local(4), Rvalue::Ref(local(1)))],
            call(Callee::Deref, 4, 3, 2),
            no_source(),
        ),
        block(
            vec![
                Statement::StorageEnd(4),
                Statement::StorageStart(6),
                Statement::StorageStart(5),
                Statement::Assign(local(5), Rvalue::Use(Operand::Copy(local(3)))),
            ],
            call(Callee::PathToPathBuf, 5, 6, 3),
            source(0, "Path::new(\"/a/b\").join(\"c\").to_path_buf()"),
        ),
        block(
            vec![Statement::StorageEnd(5), Statement::StorageEnd(3)],
            Terminator::Drop { place: local(6), target: 4 },
            no_source(),
        ),
        block(vec![Statement::StorageEnd(6)], Terminator::Drop { place: local(1), target: 5 }, no_source()),
        block(vec![Statement::StorageEnd(1)], Terminator::Return, no_source()),
    ];
    Body { locals, blocks, arg_count: 0 }
}

#[test]
fn buffer_round_trip_is_flagged_through_deref() {
    let d = analyze(&path_round_trip_body());
    assert_eq!(d.len(), 1);
    assert_eq!(d[0].block, 2);
    assert_eq!(d[0].moved, 1);
    // `.to_path_buf()` starts at byte 27 of the 41-byte snippet
    assert_eq!(
        d[0].suggestion,
        Some(Suggestion { span: Span { lo: 27, hi: 41 }, applicability: Applicability::Automatic })
    );
}

#[test]
fn buffer_round_trip_with_two_predecessors_is_not_flagged() {
    let mut body = path_round_trip_body();
    body.blocks[0].terminator = Terminator::Goto { target: 2 };
    body.blocks.push(block(Vec::new(), Terminator::Goto { target: 2 }, no_source()));
    assert!(analyze(&body).is_empty());
}

/// `let y = x.clone(); consume(y); let z = x;` all in straight-line code.
fn straight_line_clone_body(read_again: bool) -> Body {
    let locals = vec![unit(), owned(), shared_ref(TyKind::Other), owned(), unit(), owned()];
    let mut tail = vec![Statement::StorageEnd(3)];
    if read_again {
        tail.push(Statement::StorageStart(5));
        tail.push(Statement::Assign(local(5), Rvalue::Use(Operand::Move(local(1)))));
    }
    let blocks = vec![
        block(
            vec![Statement::StorageStart(3), Statement::StorageStart(2), Statement::Assign(local(2), Rvalue::Ref(local(1)))],
            call(Callee::Clone, 2, 3, 1),
            source(10, "x.clone()"),
        ),
        block(vec![Statement::StorageEnd(2)], other_call(3, 4, 2), no_source()),
        block(tail, Terminator::Return, no_source()),
    ];
    Body { locals, blocks, arg_count: 1 }
}

#[test]
fn duplicate_of_value_read_later_is_not_flagged() {
    assert!(analyze(&straight_line_clone_body(true)).is_empty());
}

#[test]
fn duplicate_of_argument_not_read_later_is_flagged() {
    let d = analyze(&straight_line_clone_body(false));
    assert_eq!(d.len(), 1);
    assert_eq!(d[0].span, Span { lo: 11, hi: 19 });
}

/// `call(s.field.clone())` where the aggregate `s` may have a destructor.
fn field_clone_body(owner_has_destructor: bool) -> Body {
    let locals = vec![unit(), owned(), shared_ref(TyKind::Other), owned(), unit()];
    let field = Place { local: 1, projection: vec![ProjectionElem::Field { index: 0, owner_has_destructor }] };
    let blocks = vec![
        block(
            vec![Statement::StorageStart(3), Statement::StorageStart(2), Statement::Assign(local(2), Rvalue::Ref(field))],
            call(Callee::Clone, 2, 3, 1),
            source(0, "s.field.clone()"),
        ),
        block(vec![Statement::StorageEnd(2)], other_call(3, 4, 2), no_source()),
        block(vec![Statement::StorageEnd(3)], Terminator::Return, no_source()),
    ];
    Body { locals, blocks, arg_count: 1 }
}

#[test]
fn field_of_aggregate_with_destructor_is_not_flagged() {
    assert!(analyze(&field_clone_body(true)).is_empty());
}

#[test]
fn field_of_plain_aggregate_is_flagged() {
    let d = analyze(&field_clone_body(false));
    assert_eq!(d.len(), 1);
    assert_eq!(d[0].suggestion.unwrap().span, Span { lo: 7, hi: 15 });
}

#[test]
fn self_looping_call_is_not_flagged() {
    let mut body = straight_line_clone_body(false);
    if let Terminator::Call { target, .. } = &mut body.blocks[0].terminator {
        *target = Some(0);
    }
    assert!(analyze(&body).is_empty());
}

#[test]
fn call_reached_again_through_a_cycle_is_not_flagged() {
    let mut body = straight_line_clone_body(false);
    body.blocks[2].terminator = Terminator::Branch { condition: Operand::Constant, targets: vec![0, 3] };
    body.blocks.push(block(Vec::new(), Terminator::Return, no_source()));
    assert!(analyze(&body).is_empty());
}

#[test]
fn second_live_borrower_blocks_acceptance() {
    let mut body = straight_line_clone_body(false);
    // another reference to `x` that is still live at the call
    body.locals.push(shared_ref(TyKind::Other));
    body.blocks[0].statements.insert(0, Statement::Assign(local(6), Rvalue::Ref(local(1))));
    body.blocks[0].statements.insert(0, Statement::StorageStart(6));
    assert!(analyze(&body).is_empty());
}

#[test]
fn call_with_arguments_in_snippet_needs_review() {
    let mut body = straight_line_clone_body(false);
    body.blocks[0].source = source(0, "x.to_owned_with(1)");
    let d = analyze(&body);
    assert_eq!(d.len(), 1);
    assert_eq!(d[0].suggestion.unwrap().applicability, Applicability::NeedsReview);
}

#[test]
fn snippet_without_dot_gives_plain_diagnostic() {
    let mut body = straight_line_clone_body(false);
    body.blocks[0].source = source(5, "dup(x)");
    let d = analyze(&body);
    assert_eq!(d.len(), 1);
    assert_eq!(d[0].span, Span { lo: 5, hi: 11 });
    assert_eq!(d[0].suggestion, None);
    assert_eq!(d[0].note, None);
}
