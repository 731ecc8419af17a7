use vstd::prelude::*;
use crate::ExecError;
use crate::brackets::{Br, find_close, find_open};
use crate::state::{
    BrainfuckState, ExecConfig, Step, cell_add, init_config, live_config, tape_read, tape_write,
};

verus! {

/// One source-level operation: exactly the eight significant characters.
#[derive(Debug, Clone, Copy, PartialEq, Eq)]
pub enum BfOp {
    Inc,
    Dec,
    MvRight,
    MvLeft,
    In,
    Out,
    BrFor,
    BrBack,
}

/// The operation a source byte denotes, if any; every other byte is a comment.
pub open spec fn op_of_byte(b: u8) -> Option<BfOp> {
    if b == 43 {
        Some(BfOp::Inc)
    } else if b == 45 {
        Some(BfOp::Dec)
    } else if b == 62 {
        Some(BfOp::MvRight)
    } else if b == 60 {
        Some(BfOp::MvLeft)
    } else if b == 46 {
        Some(BfOp::Out)
    } else if b == 44 {
        Some(BfOp::In)
    } else if b == 91 {
        Some(BfOp::BrFor)
    } else if b == 93 {
        Some(BfOp::BrBack)
    } else {
        None
    }
}

/// The program denoted by the bytes from `i` on: significant bytes in order,
/// all others dropped.
pub open spec fn spec_parse_from(bytes: Seq<u8>, i: nat) -> Seq<BfOp>
    decreases bytes.len() - i,
{
    if i >= bytes.len() {
        Seq::empty()
    } else {
        match op_of_byte(bytes[i as int]) {
            Some(op) => seq![op] + spec_parse_from(bytes, i + 1),
            None => spec_parse_from(bytes, i + 1),
        }
    }
}

/// The program denoted by a byte stream.
pub open spec fn spec_parse(bytes: Seq<u8>) -> Seq<BfOp> {
    spec_parse_from(bytes, 0)
}

/// How each operation counts for bracket matching.
pub open spec fn br_of_bf(op: BfOp) -> Br {
    match op {
        BfOp::BrFor => Br::Open,
        BfOp::BrBack => Br::Close,
        _ => Br::Other,
    }
}

pub open spec fn bf_brs(prog: Seq<BfOp>) -> Seq<Br> {
    Seq::new(prog.len(), |i: int| br_of_bf(prog[i]))
}

pub struct BfParser;

impl BfParser {
    /// Filter a byte stream into the operation sequence it denotes.
    pub fn parse(program: &[u8]) -> (r: Result<Vec<BfOp>, ExecError>)
        ensures
            r matches Ok(v) && v@ == spec_parse(program@),
    {
        let mut ir: Vec<BfOp> = Vec::new();
        let mut i: usize = 0;
        while i < program.len()
            invariant
                i <= program.len(),
                spec_parse(program@) == ir@ + spec_parse_from(program@, i as nat),
            decreases program.len() - i,
        {
            let b: u8 = program[i];
            match b {
                43u8 => ir.push(BfOp::Inc),
                45u8 => ir.push(BfOp::Dec),
                62u8 => ir.push(BfOp::MvRight),
                60u8 => ir.push(BfOp::MvLeft),
                46u8 => ir.push(BfOp::Out),
                44u8 => ir.push(BfOp::In),
                91u8 => ir.push(BfOp::BrFor),
                93u8 => ir.push(BfOp::BrBack),
                _ => {},
            }
            proof {
                assert(spec_parse(program@) =~= ir@ + spec_parse_from(program@, (i + 1) as nat));
            }
            i = i + 1;
        }
        proof {
            assert(spec_parse(program@) =~= ir@);
        }
        Ok(ir)
    }
}

/// One step of the reference machine: the program counter selects an
/// operation, brackets are matched by a fresh scan, and a move left of the
/// origin is fatal.
pub open spec fn bf_step(prog: Seq<BfOp>, input: Seq<u8>, c: ExecConfig) -> Step {
    if c.pc >= prog.len() {
        Step::Done(c)
    } else {
        match prog[c.pc as int] {
            BfOp::Inc => if c.pos == usize::MAX {
                Step::Fail(ExecError::PositionOverflow(c.pc as usize))
            } else {
                Step::Go(
                    ExecConfig {
                        cells: tape_write(
                            c.cells,
                            c.pos as nat,
                            cell_add(tape_read(c.cells, c.pos as nat), 1),
                        ),
                        pc: c.pc + 1,
                        ..c
                    },
                )
            },
            BfOp::Dec => if c.pos == usize::MAX {
                Step::Fail(ExecError::PositionOverflow(c.pc as usize))
            } else {
                Step::Go(
                    ExecConfig {
                        cells: tape_write(
                            c.cells,
                            c.pos as nat,
                            cell_add(tape_read(c.cells, c.pos as nat), -1),
                        ),
                        pc: c.pc + 1,
                        ..c
                    },
                )
            },
            BfOp::MvRight => if c.pos == usize::MAX {
                Step::Fail(ExecError::PositionOverflow(c.pc as usize))
            } else {
                Step::Go(ExecConfig { pos: (c.pos + 1) as usize, pc: c.pc + 1, ..c })
            },
            BfOp::MvLeft => if c.pos == 0 {
                Step::Fail(ExecError::PositionUnderflow(c.pc as usize))
            } else {
                Step::Go(ExecConfig { pos: (c.pos - 1) as usize, pc: c.pc + 1, ..c })
            },
            BfOp::Out => Step::Go(
                ExecConfig { out: c.out.push(tape_read(c.cells, c.pos as nat)), pc: c.pc + 1, ..c },
            ),
            BfOp::In => if c.in_pos >= input.len() {
                Step::Fail(ExecError::InputExhausted)
            } else if c.pos == usize::MAX {
                Step::Fail(ExecError::PositionOverflow(c.pc as usize))
            } else {
                Step::Go(
                    ExecConfig {
                        cells: tape_write(c.cells, c.pos as nat, input[c.in_pos as int]),
                        in_pos: c.in_pos + 1,
                        pc: c.pc + 1,
                        ..c
                    },
                )
            },
            BfOp::BrFor => if tape_read(c.cells, c.pos as nat) == 0 {
                match find_close(bf_brs(prog), c.pc + 1, 0) {
                    Some(j) => Step::Go(ExecConfig { pc: j + 1, ..c }),
                    None => Step::Fail(ExecError::UnmatchedOpen(c.pc as usize)),
                }
            } else {
                Step::Go(ExecConfig { pc: c.pc + 1, ..c })
            },
            BfOp::BrBack => if tape_read(c.cells, c.pos as nat) != 0 {
                if c.pc == 0 {
                    Step::Fail(ExecError::UnmatchedClose(0))
                } else {
                    match find_open(bf_brs(prog), (c.pc - 1) as nat, 0) {
                        Some(k) => Step::Go(ExecConfig { pc: k + 1, ..c }),
                        None => Step::Fail(ExecError::UnmatchedClose(c.pc as usize)),
                    }
                }
            } else {
                Step::Go(ExecConfig { pc: c.pc + 1, ..c })
            },
        }
    }
}

/// The reference machine after `n` steps from the initial configuration.
pub open spec fn bf_run(prog: Seq<BfOp>, input: Seq<u8>, n: nat) -> Step
    decreases n,
{
    if n == 0 {
        Step::Go(init_config())
    } else {
        match bf_run(prog, input, (n - 1) as nat) {
            Step::Go(c) => bf_step(prog, input, c),
            r => r,
        }
    }
}

/// Once the reference machine has finished or failed, more steps change nothing.
pub proof fn lemma_bf_run_stable(prog: Seq<BfOp>, input: Seq<u8>, m: nat, n: nat)
    requires
        m <= n,
        !(bf_run(prog, input, m) is Go),
    ensures
        bf_run(prog, input, n) == bf_run(prog, input, m),
    decreases n,
{
    if n > m {
        lemma_bf_run_stable(prog, input, m, (n - 1) as nat);
    }
}

/// Scan right from the bracket at `start` for the matching close.
fn scan_close(program: &[BfOp], start: usize) -> (r: Option<usize>)
    requires
        start < program@.len(),
    ensures
        match r {
            Some(j) => find_close(bf_brs(program@), (start + 1) as nat, 0) == Some(j as nat),
            None => find_close(bf_brs(program@), (start + 1) as nat, 0) is None,
        },
{
    proof {
        assert(program@.len() <= usize::MAX) by {
            assert(program.len() == program@.len());
        }
    }
    let mut p: usize = start + 1;
    let mut depth: usize = 0;
    while p < program.len()
        invariant
            start + 1 <= p <= program@.len(),
            depth <= p,
            find_close(bf_brs(program@), (start + 1) as nat, 0) == find_close(
                bf_brs(program@),
                p as nat,
                depth as nat,
            ),
        decreases program@.len() - p,
    {
        match program[p] {
            BfOp::BrFor => {
                depth = depth + 1;
            },
            BfOp::BrBack => {
                if depth == 0 {
                    return Some(p);
                } else {
                    depth = depth - 1;
                }
            },
            _ => {},
        }
        p = p + 1;
    }
    None
}

/// Scan left from `start` for the open bracket matching a close.
fn scan_open(program: &[BfOp], start: usize) -> (r: Option<usize>)
    requires
        start < program@.len(),
    ensures
        match r {
            Some(k) => find_open(bf_brs(program@), start as nat, 0) == Some(k as nat),
            None => find_open(bf_brs(program@), start as nat, 0) is None,
        },
{
    let mut p: usize = start;
    let mut depth: usize = 0;
    loop
        invariant
            p <= start < program@.len(),
            depth <= start - p,
            find_open(bf_brs(program@), start as nat, 0) == find_open(
                bf_brs(program@),
                p as nat,
                depth as nat,
            ),
        decreases p,
    {
        match program[p] {
            BfOp::BrFor => {
                if depth == 0 {
                    return Some(p);
                } else {
                    depth = depth - 1;
                }
            },
            BfOp::BrBack => {
                depth = depth + 1;
            },
            _ => {},
        }
        if p == 0 {
            return None;
        }
        p = p - 1;
    }
}

pub struct BfInterpreter;

impl BfInterpreter {
    /// Walk the operation sequence directly, scanning for bracket partners as
    /// they are met. `input` serves the `In` instructions; the bytes the
    /// program writes come back in order. At most `fuel` machine steps are
    /// taken; the step budget ran out exactly when `StepLimit` comes back.
    pub fn execute(program: &[BfOp], input: &[u8], fuel: u64) -> (r: Result<Vec<u8>, ExecError>)
        ensures
            match bf_run(program@, input@, fuel as nat) {
                Step::Done(c) => r matches Ok(out) && out@ == c.out,
                Step::Fail(e) => r == Err::<Vec<u8>, ExecError>(e),
                Step::Go(_) => r == Err::<Vec<u8>, ExecError>(ExecError::StepLimit),
            },
    {
        let mut state = BrainfuckState::new();
        let mut pc: usize = 0;
        let mut in_pos: usize = 0;
        let mut out: Vec<u8> = Vec::new();
        let mut left: u64 = fuel;
        proof {
            assert(live_config(state, pc as nat, in_pos as nat, out@) =~= init_config());
        }
        while left > 0
            invariant
                left <= fuel,
                pc <= program@.len(),
                in_pos <= input@.len(),
                bf_run(program@, input@, (fuel - left) as nat) == Step::Go(
                    live_config(state, pc as nat, in_pos as nat, out@),
                ),
            decreases left,
        {
            let ghost n: nat = (fuel - left) as nat;
            let ghost c = live_config(state, pc as nat, in_pos as nat, out@);
            left = left - 1;
            if pc >= program.len() {
                proof {
                    lemma_bf_run_stable(program@, input@, n + 1, fuel as nat);
                }
                return Ok(out);
            }
            match program[pc] {
                BfOp::Inc => {
                    if state.pos == usize::MAX {
                        proof {
                            lemma_bf_run_stable(program@, input@, n + 1, fuel as nat);
                        }
                        return Err(ExecError::PositionOverflow(pc));
                    }
                    state.modify_cur_cell_by(1);
                    pc = pc + 1;
                },
                BfOp::Dec => {
                    if state.pos == usize::MAX {
                        proof {
                            lemma_bf_run_stable(program@, input@, n + 1, fuel as nat);
                        }
                        return Err(ExecError::PositionOverflow(pc));
                    }
                    state.modify_cur_cell_by(-1);
                    pc = pc + 1;
                },
                BfOp::MvRight => {
                    if state.pos == usize::MAX {
                        proof {
                            lemma_bf_run_stable(program@, input@, n + 1, fuel as nat);
                        }
                        return Err(ExecError::PositionOverflow(pc));
                    }
                    state.pos = state.pos + 1;
                    pc = pc + 1;
                },
                BfOp::MvLeft => {
                    if state.pos == 0 {
                        proof {
                            lemma_bf_run_stable(program@, input@, n + 1, fuel as nat);
                        }
                        return Err(ExecError::PositionUnderflow(pc));
                    }
                    state.pos = state.pos - 1;
                    pc = pc + 1;
                },
                BfOp::Out => {
                    out.push(state.read_cur_cell());
                    pc = pc + 1;
                },
                BfOp::In => {
                    if in_pos >= input.len() {
                        proof {
                            lemma_bf_run_stable(program@, input@, n + 1, fuel as nat);
                        }
                        return Err(ExecError::InputExhausted);
                    }
                    if state.pos == usize::MAX {
                        proof {
                            lemma_bf_run_stable(program@, input@, n + 1, fuel as nat);
                        }
                        return Err(ExecError::PositionOverflow(pc));
                    }
                    state.set_cur_cell(input[in_pos]);
                    in_pos = in_pos + 1;
                    pc = pc + 1;
                },
                BfOp::BrFor => {
                    if state.read_cur_cell() == 0 {
                        match scan_close(program, pc) {
                            Some(j) => {
                                proof {
                                    crate::brackets::lemma_find_close_range(
                                        bf_brs(program@),
                                        (pc + 1) as nat,
                                        0,
                                    );
                                    assert(program@.len() <= usize::MAX) by {
                                        assert(program.len() == program@.len());
                                    }
                                }
                                pc = j + 1;
                            },
                            None => {
                                proof {
                                    lemma_bf_run_stable(program@, input@, n + 1, fuel as nat);
                                }
                                return Err(ExecError::UnmatchedOpen(pc));
                            },
                        }
                    } else {
                        pc = pc + 1;
                    }
                },
                BfOp::BrBack => {
                    if state.read_cur_cell() != 0 {
                        if pc == 0 {
                            proof {
                                lemma_bf_run_stable(program@, input@, n + 1, fuel as nat);
                            }
                            return Err(ExecError::UnmatchedClose(0));
                        }
                        match scan_open(program, pc - 1) {
                            Some(k) => {
                                proof {
                                    crate::brackets::lemma_find_open_range(
                                        bf_brs(program@),
                                        (pc - 1) as nat,
                                        0,
                                    );
                                }
                                pc = k + 1;
                            },
                            None => {
                                proof {
                                    lemma_bf_run_stable(program@, input@, n + 1, fuel as nat);
                                }
                                return Err(ExecError::UnmatchedClose(pc));
                            },
                        }
                    } else {
                        pc = pc + 1;
                    }
                },
            }
            proof {
                assert(bf_run(program@, input@, n + 1) == Step::Go(
                    live_config(state, pc as nat, in_pos as nat, out@),
                ));
            }
        }
        Err(ExecError::StepLimit)
    }
}

} // verus!
