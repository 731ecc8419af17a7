use rustfuck::hir::{HirGen, HirInterpreter};
use rustfuck::lir::{LirGen, LirInterpreter};
use rustfuck::parser::{BfInterpreter, BfParser};
use rustfuck::ExecError;

const FUEL: u64 = 1 << 24;

/// Run one source program through the reference, high-level and low-level
/// interpreters and demand byte-identical output from all three.
fn run_all(src: &str, input: &[u8]) -> Vec<u8> {
    let parsed = BfParser::parse(src.as_bytes()).unwrap();
    let bf_out = BfInterpreter::execute(&parsed, input, FUEL).unwrap();
    let hir = HirGen::new(src.as_bytes().to_vec()).gen();
    let hir_out = HirInterpreter::execute(&hir, input, FUEL).unwrap();
    let lir = LirGen::gen_ir(&hir);
    let lir_out = LirInterpreter::execute(&lir, input, FUEL).unwrap();
    assert_eq!(bf_out, hir_out);
    assert_eq!(hir_out, lir_out);
    bf_out
}

#[test]
fn hello_world_trivial() {
    assert_eq!(run_all("+++.", &[]), vec![3]);
}

#[test]
fn zero_idiom() {
    assert_eq!(run_all("+++++[-].", &[]), vec![0]);
}

#[test]
fn hop_scan() {
    // Build three cells to the right, then hop left until a zero cell: the
    // cell left of the leftmost built value is printed, and it is zero.
    assert_eq!(run_all(">+++>++>++[<].", &[]), vec![0]);
}

#[test]
fn hop_over_a_zero_cell_is_immediate() {
    // The cell under the cursor is already zero when the hop begins, so the
    // loop body never runs and the cell right of the built values prints.
    assert_eq!(run_all("++>++>+++>[<]<.", &[]), vec![3]);
}

#[test]
fn move_cell() {
    assert_eq!(run_all("+++++[->+<]>.", &[]), vec![5]);
}

#[test]
fn nested_loop_multiplication() {
    assert_eq!(run_all("++[>+++<-]>.", &[]), vec![6]);
}

#[test]
fn wraparound() {
    assert_eq!(run_all("-.", &[]), vec![255]);
}

#[test]
fn unmatched_bracket() {
    let src = "[+";
    let parsed = BfParser::parse(src.as_bytes()).unwrap();
    assert_eq!(
        BfInterpreter::execute(&parsed, &[], FUEL),
        Err(ExecError::UnmatchedOpen(0))
    );
    let hir = HirGen::new(src.as_bytes().to_vec()).gen();
    assert_eq!(
        HirInterpreter::execute(&hir, &[], FUEL),
        Err(ExecError::UnmatchedOpen(0))
    );
    let lir = LirGen::gen_ir(&hir);
    assert_eq!(
        LirInterpreter::execute(&lir, &[], FUEL),
        Err(ExecError::UnmatchedOpen(0))
    );
}

#[test]
fn nested_loops_multiply_twice() {
    assert_eq!(run_all("++[>++[>++<-]<-]>>.", &[]), vec![8]);
}

#[test]
fn input_is_consumed_in_order() {
    // Read two bytes, print them swapped.
    assert_eq!(run_all(",>,.<.", &[7, 9]), vec![9, 7]);
}

#[test]
fn echo_until_zero_byte() {
    assert_eq!(run_all(",[.,]", &[65, 66, 0]), vec![65, 66]);
}

#[test]
fn input_exhausted_is_fatal() {
    let src = ",.";
    let parsed = BfParser::parse(src.as_bytes()).unwrap();
    assert_eq!(
        BfInterpreter::execute(&parsed, &[], FUEL),
        Err(ExecError::InputExhausted)
    );
    let hir = HirGen::new(src.as_bytes().to_vec()).gen();
    assert_eq!(
        HirInterpreter::execute(&hir, &[], FUEL),
        Err(ExecError::InputExhausted)
    );
    let lir = LirGen::gen_ir(&hir);
    assert_eq!(
        LirInterpreter::execute(&lir, &[], FUEL),
        Err(ExecError::InputExhausted)
    );
}

#[test]
fn move_left_of_origin_is_fatal_in_reference() {
    let parsed = BfParser::parse("<".as_bytes()).unwrap();
    assert_eq!(
        BfInterpreter::execute(&parsed, &[], FUEL),
        Err(ExecError::PositionUnderflow(0))
    );
}

#[test]
fn unmatched_close_is_fatal_in_reference() {
    let parsed = BfParser::parse("+]".as_bytes()).unwrap();
    assert_eq!(
        BfInterpreter::execute(&parsed, &[], FUEL),
        Err(ExecError::UnmatchedClose(1))
    );
}

#[test]
fn infinite_loop_exhausts_the_step_budget() {
    let src = "+[]";
    let parsed = BfParser::parse(src.as_bytes()).unwrap();
    assert_eq!(
        BfInterpreter::execute(&parsed, &[], 1000),
        Err(ExecError::StepLimit)
    );
    let hir = HirGen::new(src.as_bytes().to_vec()).gen();
    assert_eq!(
        HirInterpreter::execute(&hir, &[], 1000),
        Err(ExecError::StepLimit)
    );
    let lir = LirGen::gen_ir(&hir);
    assert_eq!(
        LirInterpreter::execute(&lir, &[], 1000),
        Err(ExecError::StepLimit)
    );
}
