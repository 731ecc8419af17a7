use rustfuck::hir::{HirGen, HirOp, IrGen};
use rustfuck::lir::{LirGen, LirOp};
use rustfuck::parser::{BfOp, BfParser};

#[test]
fn parse_keeps_the_eight_characters_only() {
    let parsed = BfParser::parse("a+b- > <hello. ,[]\n".as_bytes()).unwrap();
    assert_eq!(
        parsed,
        vec![
            BfOp::Inc,
            BfOp::Dec,
            BfOp::MvRight,
            BfOp::MvLeft,
            BfOp::Out,
            BfOp::In,
            BfOp::BrFor,
            BfOp::BrBack,
        ]
    );
}

#[test]
fn parse_of_empty_source_is_empty() {
    assert_eq!(BfParser::parse(&[]).unwrap(), vec![]);
}

#[test]
fn additive_runs_collapse() {
    assert_eq!(HirGen::new(b"+++".to_vec()).gen(), vec![HirOp::Modify(3)]);
    assert_eq!(HirGen::new(b"+-+".to_vec()).gen(), vec![HirOp::Modify(1)]);
    assert_eq!(HirGen::new(b"++--".to_vec()).gen(), vec![HirOp::Modify(0)]);
}

#[test]
fn positional_runs_collapse() {
    assert_eq!(HirGen::new(b"><<".to_vec()).gen(), vec![HirOp::Move(-1)]);
    assert_eq!(HirGen::new(b">>>".to_vec()).gen(), vec![HirOp::Move(3)]);
}

#[test]
fn runs_never_cross_other_operations() {
    assert_eq!(
        HirGen::new(b"+,+".to_vec()).gen(),
        vec![HirOp::Modify(1), HirOp::In, HirOp::Modify(1)]
    );
    assert_eq!(
        HirGen::new(b"+>-".to_vec()).gen(),
        vec![HirOp::Modify(1), HirOp::Move(1), HirOp::Modify(-1)]
    );
}

#[test]
fn ir_gen_is_the_same_lowering() {
    assert_eq!(
        IrGen::new(b"++>--".to_vec()).gen(),
        HirGen::new(b"++>--".to_vec()).gen()
    );
}

#[test]
fn lowered_output_is_coalesced() {
    let hir = HirGen::new(b"+++>><<--[->>+<<]++".to_vec()).gen();
    for k in 1..hir.len() {
        let both_modify = matches!(hir[k - 1], HirOp::Modify(_)) && matches!(
            hir[k],
            HirOp::Modify(_)
        );
        let both_move =
            matches!(hir[k - 1], HirOp::Move(_)) && matches!(hir[k], HirOp::Move(_));
        assert!(!both_modify && !both_move);
    }
}

#[test]
fn zero_loop_becomes_write_zero() {
    let hir = HirGen::new(b"[-]".to_vec()).gen();
    assert_eq!(LirGen::gen_ir(&hir), vec![LirOp::WriteZero]);
    let hir = HirGen::new(b"[+]".to_vec()).gen();
    assert_eq!(LirGen::gen_ir(&hir), vec![LirOp::WriteZero]);
}

#[test]
fn scan_loop_becomes_hop() {
    let hir = HirGen::new(b"[>]".to_vec()).gen();
    assert_eq!(LirGen::gen_ir(&hir), vec![LirOp::Hop(1)]);
    let hir = HirGen::new(b"[<<]".to_vec()).gen();
    assert_eq!(LirGen::gen_ir(&hir), vec![LirOp::Hop(-2)]);
}

#[test]
fn transfer_loop_becomes_move_cell() {
    let hir = HirGen::new(b"[->+<]".to_vec()).gen();
    assert_eq!(LirGen::gen_ir(&hir), vec![LirOp::MoveCell(1)]);
    let hir = HirGen::new(b"[-<+>]".to_vec()).gen();
    assert_eq!(LirGen::gen_ir(&hir), vec![LirOp::MoveCell(-1)]);
}

#[test]
fn nested_loops_are_not_simple() {
    let hir = HirGen::new(b"[[-]]".to_vec()).gen();
    let lir = LirGen::gen_ir(&hir);
    assert_eq!(lir, vec![LirOp::BrFor, LirOp::WriteZero, LirOp::BrBack]);
}

#[test]
fn balanced_loop_becomes_offset_block() {
    let hir = HirGen::new(b"[->++>+++<<-]".to_vec()).gen();
    let lir = LirGen::gen_ir(&hir);
    assert_eq!(
        lir,
        vec![
            LirOp::BrFor,
            LirOp::OffsetModify(-1, 0),
            LirOp::OffsetModify(2, 1),
            LirOp::OffsetModify(3, 2),
            LirOp::OffsetModify(-1, 0),
            LirOp::BrBack,
        ]
    );
}

#[test]
fn drifting_loop_keeps_a_fixup_move() {
    let hir = HirGen::new(b"[-->+]".to_vec()).gen();
    let lir = LirGen::gen_ir(&hir);
    assert_eq!(
        lir,
        vec![
            LirOp::BrFor,
            LirOp::OffsetModify(-2, 0),
            LirOp::OffsetModify(1, 1),
            LirOp::Move(1),
            LirOp::BrBack,
        ]
    );
}

#[test]
fn loop_with_output_is_not_rewritten() {
    let hir = HirGen::new(b"[.-]".to_vec()).gen();
    let lir = LirGen::gen_ir(&hir);
    assert_eq!(
        lir,
        vec![
            LirOp::BrFor,
            LirOp::Out,
            LirOp::OffsetModify(-1, 0),
            LirOp::BrBack,
        ]
    );
}

#[test]
fn pass_through_operations_map_one_to_one() {
    let hir = vec![HirOp::In, HirOp::Out, HirOp::Modify(7), HirOp::Move(-2)];
    assert_eq!(
        LirGen::gen_ir(&hir),
        vec![
            LirOp::In,
            LirOp::Out,
            LirOp::OffsetModify(7, 0),
            LirOp::Move(-2),
        ]
    );
}
