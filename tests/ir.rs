use lkql_jit::errors::ErrorKind;
use lkql_jit::lkqlc::bc::{BCInstABC, BCInstAD, BCInstruction, CALL, JMP, KPRI, MOV};
use lkql_jit::lkqlc::ir::{
    get_label_position, process_ir, process_jumps, IRArg, IRInstABC, IRInstAD, IRInstruction, Primitive, Slot,
};

fn labelled(op: u8, label: u64) -> IRInstruction {
    let mut i = IRInstAD::new(op, IRArg::Slot(0), IRArg::Slot(1));
    i.label = Some(label);
    IRInstruction::AD(i)
}

#[test]
fn narrowing_to_8_bits() {
    assert_eq!(IRArg::NoValue.as_8(), Some(0));
    assert_eq!(IRArg::Slot(7).as_8(), Some(7));
    assert_eq!(IRArg::Upvalue(3).as_8(), Some(3));
    assert_eq!(IRArg::Literal(0xFF).as_8(), Some(0xFF));
    assert_eq!(IRArg::Literal(0x100).as_8(), None);
    assert_eq!(IRArg::Str(0x100).as_8(), None);
    assert_eq!(IRArg::Num(4).as_8(), Some(4));
    assert_eq!(IRArg::Primitive(Primitive::True).as_8(), Some(2));
    assert_eq!(IRArg::Primitive(Primitive::False).as_8(), Some(1));
    assert_eq!(IRArg::Primitive(Primitive::Nil).as_8(), Some(0));
    assert_eq!(IRArg::SignedLiteral(1).as_8(), None);
    assert_eq!(IRArg::TNewLiteral(1, 1).as_8(), None);
    assert_eq!(IRArg::Jump(1).as_8(), None);
    assert_eq!(IRArg::JumpLiteral(1).as_8(), None);
}

#[test]
fn narrowing_to_16_bits() {
    assert_eq!(IRArg::Slot(7).as_16(), Some(7));
    assert_eq!(IRArg::Literal(0x1234).as_16(), Some(0x1234));
    assert_eq!(IRArg::SignedLiteral(-1).as_16(), Some(0xFFFF));
    assert_eq!(IRArg::SignedLiteral(5).as_16(), Some(5));
    assert_eq!(IRArg::TNewLiteral(3, 5).as_16(), Some(3 * 2048 + 5));
    assert_eq!(IRArg::TNewLiteral(32, 0).as_16(), None);
    assert_eq!(IRArg::TNewLiteral(0, 0x800).as_16(), None);
    assert_eq!(IRArg::CData(9).as_16(), Some(9));
    assert_eq!(IRArg::Jump(1).as_16(), None);
    assert_eq!(IRArg::JumpLiteral(0x8001).as_16(), Some(0x8001));
}

#[test]
fn lowering_instructions() {
    let abc = IRInstruction::ABC(IRInstABC::new(CALL, IRArg::Slot(1), IRArg::Literal(1), IRArg::Literal(2)));
    assert_eq!(abc.to_bc_instruction(), Some(BCInstruction::Abc(BCInstABC::new(CALL, 1, 1, 2))));
    let ad = IRInstruction::AD(IRInstAD::new(KPRI, IRArg::Slot(4), IRArg::Primitive(Primitive::True)));
    assert_eq!(ad.to_bc_instruction(), Some(BCInstruction::Ad(BCInstAD::new(KPRI, 4, 2))));
    let bad = IRInstruction::AD(IRInstAD::new(MOV, IRArg::Literal(300), IRArg::Slot(0)));
    assert_eq!(bad.to_bc_instruction(), None);
    assert_ne!(Slot::Local(1), Slot::Tmp(1));
}

#[test]
fn label_positions() {
    let ir = vec![labelled(MOV, 3), labelled(MOV, 7), labelled(MOV, 7)];
    assert_eq!(get_label_position(&ir, 7), Some(1));
    assert_eq!(get_label_position(&ir, 3), Some(0));
    assert_eq!(get_label_position(&ir, 9), None);
}

#[test]
fn jumps_resolve_forward_and_backward() {
    let mut ir = vec![
        labelled(MOV, 1),
        IRInstruction::AD(IRInstAD::new(JMP, IRArg::Slot(0), IRArg::Jump(2))),
        IRInstruction::AD(IRInstAD::new(JMP, IRArg::Slot(0), IRArg::Jump(1))),
        labelled(MOV, 2),
    ];
    assert!(process_jumps(&mut ir).is_ok());
    match ir[1] {
        IRInstruction::AD(i) => assert_eq!(i.d, IRArg::JumpLiteral(0x8001)),
        _ => panic!("wrong layout"),
    }
    match ir[2] {
        IRInstruction::AD(i) => assert_eq!(i.d, IRArg::JumpLiteral(0x8000 - 3)),
        _ => panic!("wrong layout"),
    }
}

#[test]
fn jump_resolution_is_idempotent() {
    let mut ir = vec![
        IRInstruction::AD(IRInstAD::new(JMP, IRArg::Slot(0), IRArg::Jump(5))),
        labelled(MOV, 5),
    ];
    assert!(process_jumps(&mut ir).is_ok());
    let once = ir.clone();
    assert!(process_jumps(&mut ir).is_ok());
    assert_eq!(ir, once);
}

#[test]
fn jump_to_missing_label_is_internal_error() {
    let mut ir = vec![IRInstruction::AD(IRInstAD::new(JMP, IRArg::Slot(0), IRArg::Jump(9)))];
    match process_jumps(&mut ir) {
        Err(e) => assert_eq!(e.kind, ErrorKind::Internal),
        Ok(_) => panic!("the label does not exist"),
    }
}

#[test]
fn process_ir_lowers_after_resolving() {
    let mut ir = vec![
        IRInstruction::AD(IRInstAD::new(JMP, IRArg::Slot(0), IRArg::Jump(1))),
        labelled(MOV, 1),
    ];
    let code = process_ir(&mut ir).ok().unwrap();
    assert_eq!(code, vec![BCInstAD::emit(JMP, 0, 0x8000), BCInstAD::emit(MOV, 0, 1)]);
    let mut bad = vec![IRInstruction::AD(IRInstAD::new(MOV, IRArg::SignedLiteral(1), IRArg::Slot(0)))];
    match process_ir(&mut bad) {
        Err(e) => assert_eq!(e.kind, ErrorKind::Internal),
        Ok(_) => panic!("a signed literal has no 8-bit form"),
    }
}

#[test]
fn process_ir_leaves_resolved_instructions() {
    let mut ir = vec![
        IRInstruction::AD(IRInstAD::new(JMP, IRArg::Slot(0), IRArg::Jump(1))),
        labelled(MOV, 1),
    ];
    let first = process_ir(&mut ir).ok().unwrap();
    match ir[0] {
        IRInstruction::AD(i) => assert_eq!(i.d, IRArg::JumpLiteral(0x8000)),
        _ => panic!("wrong layout"),
    }
    let kept = ir.clone();
    let second = process_ir(&mut ir).ok().unwrap();
    assert_eq!(first, second);
    assert_eq!(ir, kept);
}
