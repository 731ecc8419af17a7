use rustfuck::lir::{LirInterpreter, LirOp};
use rustfuck::state::BrainfuckState;

#[test]
fn fresh_tape_reads_zero_everywhere() {
    let state = BrainfuckState::new();
    assert_eq!(state.read_cell(0), 0);
    assert_eq!(state.read_cell(12345), 0);
    assert_eq!(state.read_cur_cell(), 0);
    assert_eq!(state.pos, 0);
}

#[test]
fn writes_extend_the_tape_with_zeros() {
    let mut state = BrainfuckState::new();
    state.set_cell(9, 4);
    assert_eq!(state.cells.len(), 5);
    assert_eq!(state.read_cell(4), 9);
    assert_eq!(state.read_cell(3), 0);
    assert_eq!(state.read_cell(5), 0);
}

#[test]
fn the_cursor_selects_the_current_cell() {
    let mut state = BrainfuckState::new();
    state.pos = 7;
    state.set_cur_cell(42);
    assert_eq!(state.read_cell(7), 42);
    assert_eq!(state.read_cur_cell(), 42);
    state.pos = 0;
    assert_eq!(state.read_cur_cell(), 0);
}

#[test]
fn cell_arithmetic_wraps_modulo_256() {
    let mut state = BrainfuckState::new();
    state.modify_cur_cell_by(-1);
    assert_eq!(state.read_cur_cell(), 255);
    state.modify_cur_cell_by(2);
    assert_eq!(state.read_cur_cell(), 1);
    state.modify_cur_cell_by(255);
    assert_eq!(state.read_cur_cell(), 0);
    state.modify_cur_cell_by(1000);
    assert_eq!(state.read_cur_cell(), (1000 % 256) as u8);
}

#[test]
fn offset_modify_addresses_relative_cells() {
    let prog = vec![
        LirOp::OffsetModify(7, 3),
        LirOp::Move(3),
        LirOp::Out,
        LirOp::Move(-3),
        LirOp::OffsetModify(4, 2),
        LirOp::Move(2),
        LirOp::Out,
    ];
    assert_eq!(LirInterpreter::execute(&prog, &[], 1000), Ok(vec![7, 4]));
}

#[test]
fn write_zero_clears_the_current_cell() {
    let prog = vec![LirOp::OffsetModify(9, 0), LirOp::WriteZero, LirOp::Out];
    assert_eq!(LirInterpreter::execute(&prog, &[], 1000), Ok(vec![0]));
}

#[test]
fn annotations_do_not_affect_a_run() {
    let prog = vec![
        LirOp::OffsetModify(5, 0),
        LirOp::Meta("checked by hand"),
        LirOp::Out,
    ];
    assert_eq!(LirInterpreter::execute(&prog, &[], 1000), Ok(vec![5]));
}

#[test]
fn hop_strides_until_a_zero_cell() {
    let prog = vec![
        LirOp::OffsetModify(1, 0),
        LirOp::OffsetModify(2, 2),
        LirOp::OffsetModify(3, 4),
        LirOp::Hop(2),
        LirOp::Move(-1),
        LirOp::Out,
    ];
    // The hop leaves the cursor at cell 6, the first even cell that is
    // zero; the cell left of it was never written either.
    assert_eq!(LirInterpreter::execute(&prog, &[], 1000), Ok(vec![0]));
}

#[test]
fn many_small_deltas_accumulate_modulo_256() {
    let mut state = BrainfuckState::new();
    for _ in 0..300 {
        state.modify_cur_cell_by(1);
    }
    assert_eq!(state.read_cur_cell(), 44);
}
