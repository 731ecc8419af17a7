use vstd::prelude::*;
use vstd::arithmetic::div_mod::{lemma_mod_add_multiples_vanish, lemma_small_mod};
use crate::ExecError;
use crate::brackets::{
    all_opens_matched, close_partner, is_close, is_open, lemma_table_entry_in_bounds, mtch,
    opens_to, spec_table, table_entry, well_formed,
};
use crate::lir::{LirInterpreter, LirOp, lir_brs};

verus! {

/// A reason native code could not be emitted for a program.
#[derive(Debug, Clone, Copy, PartialEq, Eq)]
pub enum JitError {
    /// A bracket at the given index has no partner.
    Malformed(usize),
    /// A delta or offset at the given index is beyond the 16-bit immediate
    /// one move-wide instruction carries.
    ImmediateTooLarge(usize),
    /// The brackets at the given index are farther apart than a conditional
    /// branch reaches.
    BranchTooFar(usize),
    /// The code grew past the region a single emission run addresses.
    CodeTooLarge(usize),
}

/// How many 32-bit words the code for one operation takes.
pub open spec fn op_words(op: LirOp) -> nat {
    match op {
        LirOp::OffsetModify(_, off) => if off == 0 {
            5
        } else {
            6
        },
        LirOp::Move(_) => 2,
        LirOp::WriteZero => 1,
        LirOp::Hop(_) => 5,
        LirOp::MoveCell(_) => 9,
        LirOp::In => 0,
        LirOp::Out => 3,
        LirOp::BrFor => 2,
        LirOp::BrBack => 2,
        LirOp::Meta(_) => 0,
    }
}

/// The word index where the code of operation `k` begins.
pub open spec fn code_pos(prog: Seq<LirOp>, k: nat) -> nat
    decreases k,
{
    if k == 0 {
        0
    } else {
        code_pos(prog, (k - 1) as nat) + op_words(prog[k - 1])
    }
}

/// Move wide with zero, 64-bit: `movz xD, #imm16`.
pub open spec fn w_movz_x(rd: int, imm: int) -> u32 {
    (0xD2800000 + imm * 32 + rd) as u32
}

/// Move wide with zero, 32-bit: `movz wD, #imm16`.
pub open spec fn w_movz_w(rd: int, imm: int) -> u32 {
    (0x52800000 + imm * 32 + rd) as u32
}

/// `add xD, xN, xM`.
pub open spec fn w_add_x(rd: int, rn: int, rm: int) -> u32 {
    (0x8B000000 + rm * 0x10000 + rn * 32 + rd) as u32
}

/// `sub xD, xN, xM`.
pub open spec fn w_sub_x(rd: int, rn: int, rm: int) -> u32 {
    (0xCB000000 + rm * 0x10000 + rn * 32 + rd) as u32
}

/// `mov xD, xM`, written as `orr xD, xzr, xM`.
pub open spec fn w_mov_x(rd: int, rm: int) -> u32 {
    (0xAA0003E0 + rm * 0x10000 + rd) as u32
}

/// `add wD, wN, wM`.
pub open spec fn w_add_w(rd: int, rn: int, rm: int) -> u32 {
    (0x0B000000 + rm * 0x10000 + rn * 32 + rd) as u32
}

/// `ldrb wT, [xN]`.
pub open spec fn w_ldrb(rt: int, rn: int) -> u32 {
    (0x39400000 + rn * 32 + rt) as u32
}

/// `strb wT, [xN]`; register 31 is `wzr`.
pub open spec fn w_strb(rt: int, rn: int) -> u32 {
    (0x39000000 + rn * 32 + rt) as u32
}

/// `add xD, xN, #imm12`.
pub open spec fn w_add_imm_x(rd: int, rn: int, imm: int) -> u32 {
    (0x91000000 + imm * 0x400 + rn * 32 + rd) as u32
}

/// `and wD, wN, #0xFF`.
pub open spec fn w_and_ff(rd: int, rn: int) -> u32 {
    (0x12001C00 + rn * 32 + rd) as u32
}

/// A conditional-branch word offset as its 19-bit two's-complement field.
pub open spec fn imm19(off: int) -> int {
    off % 0x80000
}

/// `cbz wT, <off words>`.
pub open spec fn w_cbz(rt: int, off: int) -> u32 {
    (0x34000000 + imm19(off) * 32 + rt) as u32
}

/// `cbnz wT, <off words>`.
pub open spec fn w_cbnz(rt: int, off: int) -> u32 {
    (0x35000000 + imm19(off) * 32 + rt) as u32
}

/// An unconditional-branch word offset as its 26-bit two's-complement field.
pub open spec fn imm26(off: int) -> int {
    off % 0x4000000
}

/// `b <off words>`.
pub open spec fn w_b(off: int) -> u32 {
    (0x14000000 + imm26(off)) as u32
}

/// `ret`.
pub open spec fn w_ret() -> u32 {
    0xD65F03C0
}

pub open spec fn abs_of(d: int) -> int {
    if d >= 0 {
        d
    } else {
        -d
    }
}

/// The branch offset, in words, from a bracket's conditional branch to the
/// word just past its partner's: each bracket binds its label right after
/// the partner's two code words.
pub open spec fn br_off(prog: Seq<LirOp>, k: nat) -> int {
    let j = spec_table(lir_brs(prog))[k as int];
    code_pos(prog, j as nat) + 2 - (code_pos(prog, k) + 1)
}

/// The code emitted for operation `k`, one of the per-operation sequences
/// of the register convention: `x0` the tape pointer, `x1` the output
/// cursor, `x2` to `x5` scratch.
pub open spec fn enc_op(prog: Seq<LirOp>, k: nat) -> Seq<u32> {
    match prog[k as int] {
        LirOp::OffsetModify(d, off) => (if off > 0 {
            seq![w_movz_x(4, off as int), w_add_x(5, 0, 4)]
        } else if off < 0 {
            seq![w_movz_x(4, abs_of(off as int)), w_sub_x(5, 0, 4)]
        } else {
            seq![w_mov_x(5, 0)]
        }) + seq![
            w_ldrb(2, 5),
            w_movz_x(3, abs_of(d as int)),
            if d >= 0 {
                w_add_x(2, 2, 3)
            } else {
                w_sub_x(2, 2, 3)
            },
            w_strb(2, 5),
        ],
        LirOp::Move(d) => seq![
            w_movz_x(3, abs_of(d as int)),
            if d >= 0 {
                w_add_x(0, 0, 3)
            } else {
                w_sub_x(0, 0, 3)
            },
        ],
        LirOp::WriteZero => seq![w_strb(31, 0)],
        LirOp::Hop(d) => seq![
            w_movz_w(3, abs_of(d as int)),
            w_ldrb(2, 0),
            w_cbz(2, 3),
            if d >= 0 {
                w_add_x(0, 0, 3)
            } else {
                w_sub_x(0, 0, 3)
            },
            w_b(-3),
        ],
        LirOp::MoveCell(d) => seq![
            w_movz_w(4, abs_of(d as int)),
            if d >= 0 {
                w_add_x(5, 0, 4)
            } else {
                w_sub_x(5, 0, 4)
            },
            w_ldrb(2, 0),
            w_cbz(2, 6),
            w_strb(31, 0),
            w_ldrb(3, 5),
            w_add_w(2, 2, 3),
            w_and_ff(2, 2),
            w_strb(2, 5),
        ],
        LirOp::Out => seq![w_ldrb(2, 0), w_strb(2, 1), w_add_imm_x(1, 1, 1)],
        LirOp::In => Seq::empty(),
        LirOp::Meta(_) => Seq::empty(),
        LirOp::BrFor => seq![w_ldrb(2, 0), w_cbz(2, br_off(prog, k))],
        LirOp::BrBack => seq![w_ldrb(2, 0), w_cbnz(2, br_off(prog, k))],
    }
}

/// The code for the operations from `k` on, in order.
pub open spec fn cat_ops(prog: Seq<LirOp>, k: nat) -> Seq<u32>
    decreases prog.len() - k,
{
    if k >= prog.len() {
        Seq::empty()
    } else {
        enc_op(prog, k) + cat_ops(prog, k + 1)
    }
}

/// The whole emitted function: each operation's code in order, then `ret`.
pub open spec fn spec_code(prog: Seq<LirOp>) -> Seq<u32> {
    cat_ops(prog, 0) + seq![w_ret()]
}

/// Whether an operation's delta and offset fit the 16-bit immediate of one
/// move-wide instruction.
pub open spec fn imm_ok(op: LirOp) -> bool {
    match op {
        LirOp::OffsetModify(d, off) => -0xFFFF <= d <= 0xFFFF && -0xFFFF <= off <= 0xFFFF,
        LirOp::Move(d) => -0xFFFF <= d <= 0xFFFF,
        LirOp::Hop(d) => -0xFFFF <= d <= 0xFFFF,
        LirOp::MoveCell(d) => -0xFFFF <= d <= 0xFFFF,
        _ => true,
    }
}

pub open spec fn imms_ok(prog: Seq<LirOp>) -> bool {
    forall|k: int| 0 <= k < prog.len() ==> imm_ok(#[trigger] prog[k])
}

/// Whether a bracket's branch offset fits the 19-bit field.
pub open spec fn branch_ok(prog: Seq<LirOp>, k: nat) -> bool {
    if prog[k as int] is BrFor || prog[k as int] is BrBack {
        -0x40000 <= br_off(prog, k) < 0x40000
    } else {
        true
    }
}

pub open spec fn branches_ok(prog: Seq<LirOp>) -> bool {
    forall|k: nat| k < prog.len() ==> #[trigger] branch_ok(prog, k)
}

/// Whether the whole code fits the region one emission run addresses.
pub open spec fn code_fits(prog: Seq<LirOp>) -> bool {
    code_pos(prog, prog.len()) <= 0x7FFFFFFF
}

proof fn lemma_code_pos_monotone(prog: Seq<LirOp>, a: nat, b: nat)
    requires
        a <= b,
    ensures
        code_pos(prog, a) <= code_pos(prog, b),
    decreases b,
{
    if a < b {
        lemma_code_pos_monotone(prog, a, (b - 1) as nat);
    }
}

fn op_words_exec(op: &LirOp) -> (w: usize)
    ensures
        w == op_words(*op),
{
    match op {
        LirOp::OffsetModify(_, off) => if *off == 0 {
            5
        } else {
            6
        },
        LirOp::Move(_) => 2,
        LirOp::WriteZero => 1,
        LirOp::Hop(_) => 5,
        LirOp::MoveCell(_) => 9,
        LirOp::In => 0,
        LirOp::Out => 3,
        LirOp::BrFor => 2,
        LirOp::BrBack => 2,
        LirOp::Meta(_) => 0,
    }
}

/// The 19-bit branch field for an in-range word offset.
fn imm19_exec(off: i64) -> (f: u32)
    requires
        -0x40000 <= off < 0x40000,
    ensures
        f as int == imm19(off as int),
{
    proof {
        if off >= 0 {
            lemma_small_mod(off as nat, 0x80000);
        } else {
            lemma_mod_add_multiples_vanish(off as int, 0x80000);
            lemma_small_mod((off + 0x80000) as nat, 0x80000);
        }
    }
    if off >= 0 {
        off as u32
    } else {
        (off + 0x80000) as u32
    }
}

/// The absolute value of a checked 16-bit immediate.
fn abs16(d: isize) -> (a: u32)
    requires
        -0xFFFF <= d <= 0xFFFF,
    ensures
        a as int == abs_of(d as int),
{
    if d >= 0 {
        d as u32
    } else {
        (-d) as u32
    }
}

pub struct Jit;

impl Jit {
    /// Emit one native function for a program of the low-level form: per
    /// operation the fixed code of `enc_op`, branches resolved through the
    /// branch table, and a final `ret`. The function follows the calling
    /// convention `(cells pointer, output pointer)`; `In` emits nothing, a
    /// documented limitation of this tier.
    pub fn jit(program: &[LirOp]) -> (r: Result<Vec<u32>, JitError>)
        ensures
            r matches Ok(code) ==> well_formed(lir_brs(program@)) && imms_ok(program@)
                && branches_ok(program@) && code_fits(program@) && code@ == spec_code(program@),
            r matches Err(e) ==> match e {
                JitError::Malformed(k) => (is_open(lir_brs(program@), k as nat) && mtch(
                    lir_brs(program@),
                    k as nat,
                ) is None) || (is_close(lir_brs(program@), k as nat) && close_partner(
                    lir_brs(program@),
                    k as nat,
                ) is None),
                JitError::ImmediateTooLarge(k) => k < program@.len() && !imm_ok(program@[k as int]),
                JitError::BranchTooFar(k) => k < program@.len() && !branch_ok(program@, k as nat),
                JitError::CodeTooLarge(k) => !code_fits(program@),
            },
    {
        let ghost brs = lir_brs(program@);
        let n: usize = program.len();
        let table: Vec<usize> = match LirInterpreter::gen_branch_table(program) {
            Ok(t) => t,
            Err(e) => {
                match e {
                    ExecError::UnmatchedOpen(k) => {
                        return Err(JitError::Malformed(k));
                    },
                    _ => {
                        return Err(JitError::Malformed(0));
                    },
                }
            },
        };
        // Word positions of each operation's code, by prefix sums.
        let mut pos_tbl: Vec<usize> = Vec::new();
        let mut acc: usize = 0;
        let mut k: usize = 0;
        while k < n
            invariant
                n == program@.len(),
                k <= n,
                pos_tbl@.len() == k,
                acc == code_pos(program@, k as nat),
                acc <= 0x7FFFFFFF,
                forall|k2: int| 0 <= k2 < k ==> pos_tbl@[k2] == code_pos(program@, k2 as nat),
            decreases n - k,
        {
            pos_tbl.push(acc);
            let w: usize = op_words_exec(&program[k]);
            if acc > 0x7FFFFFFF - w {
                proof {
                    lemma_code_pos_monotone(program@, (k + 1) as nat, program@.len() as nat);
                }
                return Err(JitError::CodeTooLarge(k));
            }
            acc = acc + w;
            k = k + 1;
        }
        let mut code: Vec<u32> = Vec::new();
        let mut k: usize = 0;
        while k < n
            invariant
                n == program@.len(),
                brs == lir_brs(program@),
                all_opens_matched(brs),
                table@ == spec_table(brs),
                table@.len() == n,
                pos_tbl@.len() == n,
                forall|k2: int| 0 <= k2 < n ==> pos_tbl@[k2] == code_pos(program@, k2 as nat),
                code_pos(program@, n as nat) <= 0x7FFFFFFF,
                k <= n,
                cat_ops(program@, 0) == code@ + cat_ops(program@, k as nat),
                forall|k2: nat| k2 < k ==> imm_ok(#[trigger] program@[k2 as int]),
                forall|k2: nat| k2 < k ==> #[trigger] branch_ok(program@, k2),
                forall|k2: nat|
                    k2 < k && is_close(brs, k2) ==> (#[trigger] close_partner(brs, k2)) is Some,
            decreases n - k,
        {
            let op: LirOp = program[k];
            match op {
                LirOp::OffsetModify(d, off) => {
                    if d > 0xFFFF || d < -0xFFFF || off > 0xFFFF || off < -0xFFFF {
                        return Err(JitError::ImmediateTooLarge(k));
                    }
                    if off > 0 {
                        code.push(0xD2800000u32 + abs16(off) * 32 + 4);
                        code.push(0x8B000000u32 + 4 * 0x10000 + 0 * 32 + 5);
                    } else if off < 0 {
                        code.push(0xD2800000u32 + abs16(off) * 32 + 4);
                        code.push(0xCB000000u32 + 4 * 0x10000 + 0 * 32 + 5);
                    } else {
                        code.push(0xAA0003E0u32 + 0 * 0x10000 + 5);
                    }
                    code.push(0x39400000u32 + 5 * 32 + 2);
                    code.push(0xD2800000u32 + abs16(d) * 32 + 3);
                    if d >= 0 {
                        code.push(0x8B000000u32 + 3 * 0x10000 + 2 * 32 + 2);
                    } else {
                        code.push(0xCB000000u32 + 3 * 0x10000 + 2 * 32 + 2);
                    }
                    code.push(0x39000000u32 + 5 * 32 + 2);
                },
                LirOp::Move(d) => {
                    if d > 0xFFFF || d < -0xFFFF {
                        return Err(JitError::ImmediateTooLarge(k));
                    }
                    code.push(0xD2800000u32 + abs16(d) * 32 + 3);
                    if d >= 0 {
                        code.push(0x8B000000u32 + 3 * 0x10000 + 0 * 32 + 0);
                    } else {
                        code.push(0xCB000000u32 + 3 * 0x10000 + 0 * 32 + 0);
                    }
                },
                LirOp::WriteZero => {
                    code.push(0x39000000u32 + 0 * 32 + 31);
                },
                LirOp::Hop(d) => {
                    if d > 0xFFFF || d < -0xFFFF {
                        return Err(JitError::ImmediateTooLarge(k));
                    }
                    code.push(0x52800000u32 + abs16(d) * 32 + 3);
                    code.push(0x39400000u32 + 0 * 32 + 2);
                    code.push(0x34000000u32 + 3 * 32 + 2);
                    proof {
                        lemma_small_mod(3nat, 0x80000);
                    }
                    if d >= 0 {
                        code.push(0x8B000000u32 + 3 * 0x10000 + 0 * 32 + 0);
                    } else {
                        code.push(0xCB000000u32 + 3 * 0x10000 + 0 * 32 + 0);
                    }
                    code.push(0x14000000u32 + 0x3FFFFFD);
                    proof {
                        lemma_mod_add_multiples_vanish(-3, 0x4000000);
                        lemma_small_mod(0x3FFFFFDnat, 0x4000000);
                    }
                },
                LirOp::MoveCell(d) => {
                    if d > 0xFFFF || d < -0xFFFF {
                        return Err(JitError::ImmediateTooLarge(k));
                    }
                    code.push(0x52800000u32 + abs16(d) * 32 + 4);
                    if d >= 0 {
                        code.push(0x8B000000u32 + 4 * 0x10000 + 0 * 32 + 5);
                    } else {
                        code.push(0xCB000000u32 + 4 * 0x10000 + 0 * 32 + 5);
                    }
                    code.push(0x39400000u32 + 0 * 32 + 2);
                    code.push(0x34000000u32 + 6 * 32 + 2);
                    proof {
                        lemma_small_mod(6nat, 0x80000);
                    }
                    code.push(0x39000000u32 + 0 * 32 + 31);
                    code.push(0x39400000u32 + 5 * 32 + 3);
                    code.push(0x0B000000u32 + 3 * 0x10000 + 2 * 32 + 2);
                    code.push(0x12001C00u32 + 2 * 32 + 2);
                    code.push(0x39000000u32 + 5 * 32 + 2);
                },
                LirOp::Out => {
                    code.push(0x39400000u32 + 0 * 32 + 2);
                    code.push(0x39000000u32 + 1 * 32 + 2);
                    code.push(0x91000000u32 + 1 * 0x400 + 1 * 32 + 1);
                },
                LirOp::In => {},
                LirOp::Meta(_) => {},
                LirOp::BrFor => {
                    proof {
                        assert(brs[k as int] == crate::lir::br_of_lir(program@[k as int]));
                        lemma_table_entry_in_bounds(brs, k as nat);
                        lemma_code_pos_monotone(program@, (k + 1) as nat, n as nat);
                        lemma_code_pos_monotone(
                            program@,
                            (spec_table(brs)[k as int] + 1) as nat,
                            n as nat,
                        );
                        lemma_code_pos_monotone(program@, k as nat, (k + 1) as nat);
                        lemma_code_pos_monotone(
                            program@,
                            spec_table(brs)[k as int] as nat,
                            (spec_table(brs)[k as int] + 1) as nat,
                        );
                    }
                    let j: usize = table[k];
                    let off: i64 = (pos_tbl[j] as i64 + 2) - (pos_tbl[k] as i64 + 1);
                    proof {
                        assert(off == br_off(program@, k as nat));
                    }
                    if off < -0x40000 || off >= 0x40000 {
                        return Err(JitError::BranchTooFar(k));
                    }
                    code.push(0x39400000u32 + 0 * 32 + 2);
                    code.push(0x34000000u32 + imm19_exec(off) * 32 + 2);
                },
                LirOp::BrBack => {
                    proof {
                        assert(brs[k as int] == crate::lir::br_of_lir(program@[k as int]));
                        lemma_table_entry_in_bounds(brs, k as nat);
                        lemma_code_pos_monotone(program@, (k + 1) as nat, n as nat);
                        lemma_code_pos_monotone(
                            program@,
                            (spec_table(brs)[k as int] + 1) as nat,
                            n as nat,
                        );
                        lemma_code_pos_monotone(program@, k as nat, (k + 1) as nat);
                        lemma_code_pos_monotone(
                            program@,
                            spec_table(brs)[k as int] as nat,
                            (spec_table(brs)[k as int] + 1) as nat,
                        );
                    }
                    let j: usize = table[k];
                    let partner_ok: bool = matches!(program[j], LirOp::BrFor) && table[j] == k;
                    proof {
                        let kn = k as nat;
                        let jn = table_entry(brs, kn);
                        assert(is_close(brs, kn));
                        assert(j == jn as usize);
                        assert(brs[j as int] == crate::lir::br_of_lir(program@[j as int]));
                        if program@[j as int] is BrFor {
                            lemma_table_entry_in_bounds(brs, j as nat);
                            assert(table@[j as int] == table_entry(brs, j as nat) as usize);
                        }
                        lemma_close_check(brs, kn);
                        if close_partner(brs, kn) is Some {
                            assert(is_open(brs, jn) && table_entry(brs, jn) == kn);
                            assert(partner_ok);
                        } else {
                            assert(!(is_open(brs, jn) && table_entry(brs, jn) == kn));
                            if partner_ok {
                                assert(program@[j as int] is BrFor);
                                assert(brs[j as int] is Open);
                                assert(j as nat == jn);
                                assert(is_open(brs, jn));
                                lemma_table_entry_in_bounds(brs, jn);
                                assert(table@[j as int] == k);
                                assert(table_entry(brs, jn) as usize == k);
                                assert(table_entry(brs, jn) == kn);
                                assert(false);
                            }
                            assert(!partner_ok);
                        }
                    }
                    if !partner_ok {
                        return Err(JitError::Malformed(k));
                    }
                    let off: i64 = (pos_tbl[j] as i64 + 2) - (pos_tbl[k] as i64 + 1);
                    proof {
                        assert(off == br_off(program@, k as nat));
                    }
                    if off < -0x40000 || off >= 0x40000 {
                        return Err(JitError::BranchTooFar(k));
                    }
                    code.push(0x39400000u32 + 0 * 32 + 2);
                    code.push(0x35000000u32 + imm19_exec(off) * 32 + 2);
                },
            }
            proof {
                assert(brs[k as int] == crate::lir::br_of_lir(program@[k as int]));
                assert(cat_ops(program@, 0) =~= code@ + cat_ops(program@, (k + 1) as nat));
            }
            k = k + 1;
        }
        code.push(0xD65F03C0u32);
        proof {
            assert(cat_ops(program@, n as nat) =~= Seq::<u32>::empty());
            assert(code@ =~= spec_code(program@));
        }
        Ok(code)
    }
}

/// A close bracket passes the partner check against the branch table
/// exactly when some open bracket's match it is.
proof fn lemma_close_check(s: Seq<crate::brackets::Br>, k: nat)
    requires
        all_opens_matched(s),
        is_close(s, k),
    ensures
        close_partner(s, k) is Some ==> {
            let j = table_entry(s, k);
            is_open(s, j) && table_entry(s, j) == k
        },
        close_partner(s, k) is None ==> !{
            let j = table_entry(s, k);
            is_open(s, j) && table_entry(s, j) == k
        },
{
    if close_partner(s, k) is Some {
        let i0 = close_partner(s, k)->Some_0;
        assert(opens_to(s, i0, k));
        assert(table_entry(s, k) == i0);
        assert(table_entry(s, i0) == k);
    } else {
        assert(table_entry(s, k) == 0);
        if is_open(s, 0) && table_entry(s, 0) == k {
            assert(mtch(s, 0) is Some);
            if mtch(s, 0)->Some_0 == k {
                assert(opens_to(s, 0, k));
                assert(close_partner(s, k) is Some);
            }
        }
    }
}

} // verus!
