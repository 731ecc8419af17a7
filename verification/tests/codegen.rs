use rustfuck::hir::HirGen;
use rustfuck::jit::{Jit, JitError};
use rustfuck::lir::{LirGen, LirOp};

#[test]
fn modify_and_output_encode_to_the_documented_words() {
    let hir = HirGen::new(b"+.".to_vec()).gen();
    let lir = LirGen::gen_ir(&hir);
    assert_eq!(lir, vec![LirOp::OffsetModify(1, 0), LirOp::Out]);
    let code = Jit::jit(&lir).unwrap();
    assert_eq!(
        code,
        vec![
            0xAA0003E5, // mov x5, x0
            0x394000A2, // ldrb w2, [x5]
            0xD2800023, // movz x3, #1
            0x8B030042, // add x2, x2, x3
            0x390000A2, // strb w2, [x5]
            0x39400002, // ldrb w2, [x0]
            0x39000022, // strb w2, [x1]
            0x91000421, // add x1, x1, #1
            0xD65F03C0, // ret
        ]
    );
}

#[test]
fn loop_branches_resolve_across_the_body() {
    let lir = vec![LirOp::BrFor, LirOp::Out, LirOp::BrBack];
    let code = Jit::jit(&lir).unwrap();
    assert_eq!(
        code,
        vec![
            0x39400002, // ldrb w2, [x0]
            0x340000C2, // cbz  w2, +6 words
            0x39400002, // ldrb w2, [x0]
            0x39000022, // strb w2, [x1]
            0x91000421, // add  x1, x1, #1
            0x39400002, // ldrb w2, [x0]
            0x35FFFF82, // cbnz w2, -4 words
            0xD65F03C0, // ret
        ]
    );
}

#[test]
fn negative_offsets_use_subtraction() {
    let lir = vec![LirOp::OffsetModify(-1, -2)];
    let code = Jit::jit(&lir).unwrap();
    assert_eq!(
        code,
        vec![
            0xD2800044, // movz x4, #2
            0xCB040005, // sub  x5, x0, x4
            0x394000A2, // ldrb w2, [x5]
            0xD2800023, // movz x3, #1
            0xCB030042, // sub  x2, x2, x3
            0x390000A2, // strb w2, [x5]
            0xD65F03C0, // ret
        ]
    );
}

#[test]
fn hop_encodes_a_two_label_loop() {
    let code = Jit::jit(&[LirOp::Hop(1)]).unwrap();
    assert_eq!(
        code,
        vec![
            0x52800023, // movz w3, #1
            0x39400002, // ldrb w2, [x0]
            0x34000062, // cbz  w2, +3 words
            0x8B030000, // add  x0, x0, x3
            0x17FFFFFD, // b    -3 words
            0xD65F03C0, // ret
        ]
    );
}

#[test]
fn move_cell_encodes_the_transfer_block() {
    let hir = HirGen::new(b"[->+<]".to_vec()).gen();
    let lir = LirGen::gen_ir(&hir);
    assert_eq!(lir, vec![LirOp::MoveCell(1)]);
    let code = Jit::jit(&lir).unwrap();
    assert_eq!(
        code,
        vec![
            0x52800024, // movz w4, #1
            0x8B040005, // add  x5, x0, x4
            0x39400002, // ldrb w2, [x0]
            0x340000C2, // cbz  w2, +6 words
            0x3900001F, // strb wzr, [x0]
            0x394000A3, // ldrb w3, [x5]
            0x0B030042, // add  w2, w2, w3
            0x12001C42, // and  w2, w2, #0xFF
            0x390000A2, // strb w2, [x5]
            0xD65F03C0, // ret
        ]
    );
}

#[test]
fn input_and_annotations_emit_nothing() {
    let code = Jit::jit(&[LirOp::In, LirOp::Meta("note")]).unwrap();
    assert_eq!(code, vec![0xD65F03C0]);
}

#[test]
fn unmatched_open_bracket_is_rejected() {
    let hir = HirGen::new(b"[+".to_vec()).gen();
    let lir = LirGen::gen_ir(&hir);
    assert_eq!(Jit::jit(&lir), Err(JitError::Malformed(0)));
}

#[test]
fn unmatched_close_bracket_is_rejected() {
    let lir = vec![LirOp::OffsetModify(1, 0), LirOp::BrBack];
    assert_eq!(Jit::jit(&lir), Err(JitError::Malformed(1)));
}

#[test]
fn oversized_immediates_are_rejected() {
    let lir = vec![LirOp::Move(70000)];
    assert_eq!(Jit::jit(&lir), Err(JitError::ImmediateTooLarge(0)));
}
