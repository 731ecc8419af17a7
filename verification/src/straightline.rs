use vstd::prelude::*;
use crate::hir::{
    HirOp, hir_run, is_mod_op, is_mov_op, op_delta, run_end, run_sum, same_kind, spec_lower,
    spec_lower_from,
};
use crate::lir::{LirOp, lir_of_hir, lir_run, pass_a_from, pass_b_from, spec_gen_ir};
use crate::parser::{BfOp, bf_run};
use crate::state::{
    ExecConfig, Step, cell_add, init_config, lemma_cell_add_add, lemma_pos_wrap_in_range,
    lemma_pos_wrap_zero, lemma_tape_write_write, pos_wrap, tape_read, tape_write,
};

verus! {

/// What the source operations from `i` on do to a configuration when run
/// straight through: the denotation of a program without branches. A
/// bracket, a move left of the origin, a move past the last machine
/// position, a write at the last machine position, or exhausted input has
/// no straight-line meaning.
pub open spec fn bf_den(ops: Seq<BfOp>, i: nat, input: Seq<u8>, c: ExecConfig) -> Option<ExecConfig>
    decreases ops.len() - i,
{
    if i >= ops.len() {
        Some(c)
    } else {
        match ops[i as int] {
            BfOp::Inc => if c.pos == usize::MAX {
                None
            } else {
                bf_den(
                    ops,
                    i + 1,
                    input,
                    ExecConfig {
                        cells: tape_write(
                            c.cells,
                            c.pos as nat,
                            cell_add(tape_read(c.cells, c.pos as nat), 1),
                        ),
                        ..c
                    },
                )
            },
            BfOp::Dec => if c.pos == usize::MAX {
                None
            } else {
                bf_den(
                    ops,
                    i + 1,
                    input,
                    ExecConfig {
                        cells: tape_write(
                            c.cells,
                            c.pos as nat,
                            cell_add(tape_read(c.cells, c.pos as nat), -1),
                        ),
                        ..c
                    },
                )
            },
            BfOp::MvRight => if c.pos == usize::MAX {
                None
            } else {
                bf_den(ops, i + 1, input, ExecConfig { pos: (c.pos + 1) as usize, ..c })
            },
            BfOp::MvLeft => if c.pos == 0 {
                None
            } else {
                bf_den(ops, i + 1, input, ExecConfig { pos: (c.pos - 1) as usize, ..c })
            },
            BfOp::Out => bf_den(
                ops,
                i + 1,
                input,
                ExecConfig { out: c.out.push(tape_read(c.cells, c.pos as nat)), ..c },
            ),
            BfOp::In => if c.in_pos >= input.len() {
                None
            } else if c.pos == usize::MAX {
                None
            } else {
                bf_den(
                    ops,
                    i + 1,
                    input,
                    ExecConfig {
                        cells: tape_write(c.cells, c.pos as nat, input[c.in_pos as int]),
                        in_pos: c.in_pos + 1,
                        ..c
                    },
                )
            },
            BfOp::BrFor => None,
            BfOp::BrBack => None,
        }
    }
}

/// The straight-line denotation of the high-level form.
pub open spec fn hir_den(ops: Seq<HirOp>, i: nat, input: Seq<u8>, c: ExecConfig) -> Option<
    ExecConfig,
>
    decreases ops.len() - i,
{
    if i >= ops.len() {
        Some(c)
    } else {
        match ops[i as int] {
            HirOp::Modify(d) => if c.pos == usize::MAX {
                None
            } else {
                hir_den(
                    ops,
                    i + 1,
                    input,
                    ExecConfig {
                        cells: tape_write(
                            c.cells,
                            c.pos as nat,
                            cell_add(tape_read(c.cells, c.pos as nat), d as int),
                        ),
                        ..c
                    },
                )
            },
            HirOp::Move(d) => hir_den(
                ops,
                i + 1,
                input,
                ExecConfig { pos: pos_wrap(c.pos, d as int), ..c },
            ),
            HirOp::Out => hir_den(
                ops,
                i + 1,
                input,
                ExecConfig { out: c.out.push(tape_read(c.cells, c.pos as nat)), ..c },
            ),
            HirOp::In => if c.in_pos >= input.len() {
                None
            } else if c.pos == usize::MAX {
                None
            } else {
                hir_den(
                    ops,
                    i + 1,
                    input,
                    ExecConfig {
                        cells: tape_write(c.cells, c.pos as nat, input[c.in_pos as int]),
                        in_pos: c.in_pos + 1,
                        ..c
                    },
                )
            },
            HirOp::BrFor => None,
            HirOp::BrBack => None,
        }
    }
}

/// The straight-line denotation of the low-level form.
pub open spec fn lir_den(ops: Seq<LirOp>, i: nat, input: Seq<u8>, c: ExecConfig) -> Option<
    ExecConfig,
>
    decreases ops.len() - i,
{
    if i >= ops.len() {
        Some(c)
    } else {
        match ops[i as int] {
            LirOp::OffsetModify(d, off) => if pos_wrap(c.pos, off as int) == usize::MAX {
                None
            } else {
                lir_den(
                    ops,
                    i + 1,
                    input,
                    ExecConfig {
                        cells: tape_write(
                            c.cells,
                            pos_wrap(c.pos, off as int) as nat,
                            cell_add(
                                tape_read(c.cells, pos_wrap(c.pos, off as int) as nat),
                                d as int,
                            ),
                        ),
                        ..c
                    },
                )
            },
            LirOp::Move(d) => lir_den(
                ops,
                i + 1,
                input,
                ExecConfig { pos: pos_wrap(c.pos, d as int), ..c },
            ),
            LirOp::Out => lir_den(
                ops,
                i + 1,
                input,
                ExecConfig { out: c.out.push(tape_read(c.cells, c.pos as nat)), ..c },
            ),
            LirOp::In => if c.in_pos >= input.len() {
                None
            } else if c.pos == usize::MAX {
                None
            } else {
                lir_den(
                    ops,
                    i + 1,
                    input,
                    ExecConfig {
                        cells: tape_write(c.cells, c.pos as nat, input[c.in_pos as int]),
                        in_pos: c.in_pos + 1,
                        ..c
                    },
                )
            },
            _ => None,
        }
    }
}

/// Running a maximal additive run is one modulo-256 add of its net delta.
proof fn lemma_bf_mod_run(ops: Seq<BfOp>, i: nat, j: nat, input: Seq<u8>, c: ExecConfig)
    requires
        i < j <= ops.len(),
        forall|k: int| i <= k < j ==> same_kind(#[trigger] ops[k], true),
        bf_den(ops, i, input, c) is Some,
    ensures
        c.pos < usize::MAX,
        bf_den(ops, i, input, c) == bf_den(
            ops,
            j,
            input,
            ExecConfig {
                cells: tape_write(
                    c.cells,
                    c.pos as nat,
                    cell_add(tape_read(c.cells, c.pos as nat), run_sum(ops, i, j)),
                ),
                ..c
            },
        ),
    decreases j - i,
{
    let d0 = op_delta(ops[i as int]);
    let c1 = ExecConfig {
        cells: tape_write(c.cells, c.pos as nat, cell_add(tape_read(c.cells, c.pos as nat), d0)),
        ..c
    };
    assert(bf_den(ops, i, input, c) == bf_den(ops, i + 1, input, c1));
    if i + 1 >= j {
        assert(run_sum(ops, i + 1, j) == 0);
        assert(run_sum(ops, i, j) == d0);
    }
    if i + 1 < j {
        assert(run_sum(ops, i, j) == d0 + run_sum(ops, i + 1, j));
        lemma_bf_mod_run(ops, i + 1, j, input, c1);
        crate::state::lemma_tape_write_read(c.cells, c.pos as nat, c1.cells[c.pos as int], c.pos as nat);
        lemma_tape_write_write(
            c.cells,
            c.pos as nat,
            cell_add(tape_read(c.cells, c.pos as nat), d0),
            cell_add(tape_read(c1.cells, c.pos as nat), run_sum(ops, i + 1, j)),
        );
        lemma_cell_add_add(tape_read(c.cells, c.pos as nat), d0, run_sum(ops, i + 1, j));
    }
}

/// Running a maximal positional run keeps every position in range and adds
/// the net delta to the cursor.
proof fn lemma_bf_mov_run(ops: Seq<BfOp>, i: nat, j: nat, input: Seq<u8>, c: ExecConfig)
    requires
        i < j <= ops.len(),
        forall|k: int| i <= k < j ==> same_kind(#[trigger] ops[k], false),
        bf_den(ops, i, input, c) is Some,
    ensures
        0 <= c.pos + run_sum(ops, i, j) <= usize::MAX,
        bf_den(ops, i, input, c) == bf_den(
            ops,
            j,
            input,
            ExecConfig { pos: (c.pos + run_sum(ops, i, j)) as usize, ..c },
        ),
    decreases j - i,
{
    let d0 = op_delta(ops[i as int]);
    let c1 = ExecConfig { pos: (c.pos + d0) as usize, ..c };
    assert(bf_den(ops, i, input, c) == bf_den(ops, i + 1, input, c1));
    if i + 1 < j {
        lemma_bf_mov_run(ops, i + 1, j, input, c1);
        assert(run_sum(ops, i, j) == d0 + run_sum(ops, i + 1, j));
        assert(ExecConfig { pos: (c1.pos + run_sum(ops, i + 1, j)) as usize, ..c1 } == ExecConfig {
            pos: (c.pos + run_sum(ops, i, j)) as usize,
            ..c
        });
    } else {
        assert(run_sum(ops, i + 1, j) == 0);
        assert(run_sum(ops, i, j) == d0);
        assert(ExecConfig { pos: (c.pos + run_sum(ops, i, j)) as usize, ..c } == c1);
    }
}

/// Denotations read positions in a sequence, so a shared head shifts the
/// index by one and changes nothing else.
proof fn lemma_hir_den_cons(x: HirOp, t: Seq<HirOp>, k: nat, input: Seq<u8>, c: ExecConfig)
    ensures
        hir_den(seq![x] + t, k + 1, input, c) == hir_den(t, k, input, c),
    decreases t.len() - k,
{
    let s = seq![x] + t;
    if k >= t.len() {
        assert(k + 1 >= s.len());
    } else {
        assert(s[k + 1 as int] == t[k as int]);
        match t[k as int] {
            HirOp::Modify(d) => {
                if c.pos != usize::MAX {
                    lemma_hir_den_cons(
                        x,
                        t,
                        k + 1,
                        input,
                        ExecConfig {
                            cells: tape_write(
                                c.cells,
                                c.pos as nat,
                                cell_add(tape_read(c.cells, c.pos as nat), d as int),
                            ),
                            ..c
                        },
                    );
                }
            },
            HirOp::Move(d) => {
                lemma_hir_den_cons(
                    x,
                    t,
                    k + 1,
                    input,
                    ExecConfig { pos: pos_wrap(c.pos, d as int), ..c },
                );
            },
            HirOp::Out => {
                lemma_hir_den_cons(
                    x,
                    t,
                    k + 1,
                    input,
                    ExecConfig { out: c.out.push(tape_read(c.cells, c.pos as nat)), ..c },
                );
            },
            HirOp::In => {
                if c.in_pos < input.len() && c.pos != usize::MAX {
                    lemma_hir_den_cons(
                        x,
                        t,
                        k + 1,
                        input,
                        ExecConfig {
                            cells: tape_write(c.cells, c.pos as nat, input[c.in_pos as int]),
                            in_pos: c.in_pos + 1,
                            ..c
                        },
                    );
                }
            },
            _ => {},
        }
    }
}

proof fn lemma_lir_den_cons(x: LirOp, t: Seq<LirOp>, k: nat, input: Seq<u8>, c: ExecConfig)
    ensures
        lir_den(seq![x] + t, k + 1, input, c) == lir_den(t, k, input, c),
    decreases t.len() - k,
{
    let s = seq![x] + t;
    if k >= t.len() {
        assert(k + 1 >= s.len());
    } else {
        assert(s[k + 1 as int] == t[k as int]);
        match t[k as int] {
            LirOp::OffsetModify(d, off) => {
                if pos_wrap(c.pos, off as int) != usize::MAX {
                    lemma_lir_den_cons(
                        x,
                        t,
                        k + 1,
                        input,
                        ExecConfig {
                            cells: tape_write(
                                c.cells,
                                pos_wrap(c.pos, off as int) as nat,
                                cell_add(
                                    tape_read(c.cells, pos_wrap(c.pos, off as int) as nat),
                                    d as int,
                                ),
                            ),
                            ..c
                        },
                    );
                }
            },
            LirOp::Move(d) => {
                lemma_lir_den_cons(
                    x,
                    t,
                    k + 1,
                    input,
                    ExecConfig { pos: pos_wrap(c.pos, d as int), ..c },
                );
            },
            LirOp::Out => {
                lemma_lir_den_cons(
                    x,
                    t,
                    k + 1,
                    input,
                    ExecConfig { out: c.out.push(tape_read(c.cells, c.pos as nat)), ..c },
                );
            },
            LirOp::In => {
                if c.in_pos < input.len() && c.pos != usize::MAX {
                    lemma_lir_den_cons(
                        x,
                        t,
                        k + 1,
                        input,
                        ExecConfig {
                            cells: tape_write(c.cells, c.pos as nat, input[c.in_pos as int]),
                            in_pos: c.in_pos + 1,
                            ..c
                        },
                    );
                }
            },
            _ => {},
        }
    }
}

/// The run-length pass preserves the straight-line denotation: when the
/// source runs straight through to an end, the high-level form runs to the
/// same tape, cursor, input mark and output.
pub proof fn lemma_lower_preserves_den(ops: Seq<BfOp>, i: nat, input: Seq<u8>, c: ExecConfig)
    requires
        ops.len() <= isize::MAX,
        i <= ops.len(),
        bf_den(ops, i, input, c) is Some,
    ensures
        hir_den(spec_lower_from(ops, i), 0, input, c) == bf_den(ops, i, input, c),
    decreases ops.len() - i,
{
    if i >= ops.len() {
    } else if is_mod_op(ops[i as int]) || is_mov_op(ops[i as int]) {
        let kind_mod = is_mod_op(ops[i as int]);
        crate::hir::lemma_run_props(ops, i, kind_mod);
        let j = run_end(ops, i, kind_mod);
        crate::hir::lemma_run_sum_bounds(ops, i, j);
        let sum = run_sum(ops, i, j);
        let d = sum as isize;
        assert(d as int == sum);
        let whole = spec_lower_from(ops, i);
        let tail = spec_lower_from(ops, j);
        if kind_mod {
            lemma_bf_mod_run(ops, i, j, input, c);
            let c1 = ExecConfig {
                cells: tape_write(
                    c.cells,
                    c.pos as nat,
                    cell_add(tape_read(c.cells, c.pos as nat), sum),
                ),
                ..c
            };
            assert(whole == seq![HirOp::Modify(d)] + tail);
            assert(whole[0] == HirOp::Modify(d));
            assert(hir_den(whole, 0, input, c) == hir_den(whole, 1, input, c1));
            lemma_hir_den_cons(HirOp::Modify(d), tail, 0, input, c1);
            lemma_lower_preserves_den(ops, j, input, c1);
        } else {
            lemma_bf_mov_run(ops, i, j, input, c);
            lemma_pos_wrap_in_range(c.pos, sum);
            let c1 = ExecConfig { pos: (c.pos + sum) as usize, ..c };
            assert(whole == seq![HirOp::Move(d)] + tail);
            assert(whole[0] == HirOp::Move(d));
            assert(hir_den(whole, 0, input, c) == hir_den(whole, 1, input, c1));
            lemma_hir_den_cons(HirOp::Move(d), tail, 0, input, c1);
            lemma_lower_preserves_den(ops, j, input, c1);
        }
    } else {
        let whole = spec_lower_from(ops, i);
        let tail = spec_lower_from(ops, i + 1);
        let head = crate::hir::hir_of_bf(ops[i as int]);
        assert(whole == seq![head] + tail);
        assert(whole[0] == head);
        match ops[i as int] {
            BfOp::Out => {
                let c1 = ExecConfig { out: c.out.push(tape_read(c.cells, c.pos as nat)), ..c };
                lemma_hir_den_cons(head, tail, 0, input, c1);
                lemma_lower_preserves_den(ops, i + 1, input, c1);
            },
            BfOp::In => {
                let c1 = ExecConfig {
                    cells: tape_write(c.cells, c.pos as nat, input[c.in_pos as int]),
                    in_pos: c.in_pos + 1,
                    ..c
                };
                lemma_hir_den_cons(head, tail, 0, input, c1);
                lemma_lower_preserves_den(ops, i + 1, input, c1);
            },
            _ => {
                assert(false);
            },
        }
    }
}

/// A straight run to an end never meets a bracket.
proof fn lemma_hir_den_no_brackets(h: Seq<HirOp>, i: nat, input: Seq<u8>, c: ExecConfig)
    requires
        i <= h.len(),
        hir_den(h, i, input, c) is Some,
    ensures
        forall|k: int| i <= k < h.len() ==> !((#[trigger] h[k]) is BrFor) && !(h[k] is BrBack),
    decreases h.len() - i,
{
    if i < h.len() {
        match h[i as int] {
            HirOp::Modify(d) => {
                lemma_hir_den_no_brackets(
                    h,
                    i + 1,
                    input,
                    ExecConfig {
                        cells: tape_write(
                            c.cells,
                            c.pos as nat,
                            cell_add(tape_read(c.cells, c.pos as nat), d as int),
                        ),
                        ..c
                    },
                );
            },
            HirOp::Move(d) => {
                lemma_hir_den_no_brackets(
                    h,
                    i + 1,
                    input,
                    ExecConfig { pos: pos_wrap(c.pos, d as int), ..c },
                );
            },
            HirOp::Out => {
                lemma_hir_den_no_brackets(
                    h,
                    i + 1,
                    input,
                    ExecConfig { out: c.out.push(tape_read(c.cells, c.pos as nat)), ..c },
                );
            },
            HirOp::In => {
                lemma_hir_den_no_brackets(
                    h,
                    i + 1,
                    input,
                    ExecConfig {
                        cells: tape_write(c.cells, c.pos as nat, input[c.in_pos as int]),
                        in_pos: c.in_pos + 1,
                        ..c
                    },
                );
            },
            _ => {},
        }
    }
}

/// The first low-level pass preserves the straight-line denotation.
pub proof fn lemma_pass_a_preserves_den(h: Seq<HirOp>, i: nat, input: Seq<u8>, c: ExecConfig)
    requires
        i <= h.len(),
        hir_den(h, i, input, c) is Some,
    ensures
        lir_den(pass_a_from(h, i), 0, input, c) == hir_den(h, i, input, c),
    decreases h.len() - i,
{
    if i >= h.len() {
    } else {
        let whole = pass_a_from(h, i);
        let tail = pass_a_from(h, i + 1);
        let head = lir_of_hir(h[i as int]);
        assert(!(h[i as int] is BrFor));
        assert(whole == seq![head] + tail);
        assert(whole[0] == head);
        match h[i as int] {
            HirOp::Modify(d) => {
                lemma_pos_wrap_zero(c.pos);
                let c1 = ExecConfig {
                    cells: tape_write(
                        c.cells,
                        c.pos as nat,
                        cell_add(tape_read(c.cells, c.pos as nat), d as int),
                    ),
                    ..c
                };
                lemma_lir_den_cons(head, tail, 0, input, c1);
                lemma_pass_a_preserves_den(h, i + 1, input, c1);
            },
            HirOp::Move(d) => {
                let c1 = ExecConfig { pos: pos_wrap(c.pos, d as int), ..c };
                lemma_lir_den_cons(head, tail, 0, input, c1);
                lemma_pass_a_preserves_den(h, i + 1, input, c1);
            },
            HirOp::Out => {
                let c1 = ExecConfig { out: c.out.push(tape_read(c.cells, c.pos as nat)), ..c };
                lemma_lir_den_cons(head, tail, 0, input, c1);
                lemma_pass_a_preserves_den(h, i + 1, input, c1);
            },
            HirOp::In => {
                let c1 = ExecConfig {
                    cells: tape_write(c.cells, c.pos as nat, input[c.in_pos as int]),
                    in_pos: c.in_pos + 1,
                    ..c
                };
                lemma_lir_den_cons(head, tail, 0, input, c1);
                lemma_pass_a_preserves_den(h, i + 1, input, c1);
            },
            _ => {
                assert(false);
            },
        }
    }
}

/// The first pass of a program without brackets emits no bracket either.
proof fn lemma_pass_a_no_brackets(h: Seq<HirOp>, i: nat)
    requires
        i <= h.len(),
        forall|k: int| i <= k < h.len() ==> !((#[trigger] h[k]) is BrFor) && !(h[k] is BrBack),
    ensures
        forall|k: int|
            0 <= k < pass_a_from(h, i).len() ==> !((#[trigger] pass_a_from(h, i)[k]) is BrFor),
    decreases h.len() - i,
{
    if i < h.len() {
        assert(!(h[i as int] is BrFor));
        lemma_pass_a_no_brackets(h, i + 1);
        let whole = pass_a_from(h, i);
        let tail = pass_a_from(h, i + 1);
        let head = lir_of_hir(h[i as int]);
        assert(whole == seq![head] + tail);
        assert(!(head is BrFor));
        assert forall|k: int| 0 <= k < whole.len() implies !((#[trigger] whole[k]) is BrFor) by {
            if k > 0 {
                assert(whole[k] == tail[k - 1]);
            }
        }
    }
}

/// The second low-level pass leaves a program without forward brackets as
/// it stands.
proof fn lemma_pass_b_identity(l: Seq<LirOp>, i: nat)
    requires
        i <= l.len(),
        forall|k: int| 0 <= k < l.len() ==> !((#[trigger] l[k]) is BrFor),
    ensures
        pass_b_from(l, i) == l.subrange(i as int, l.len() as int),
    decreases l.len() - i,
{
    if i >= l.len() {
        assert(pass_b_from(l, i) =~= l.subrange(i as int, l.len() as int));
    } else {
        assert(!(l[i as int] is BrFor));
        lemma_pass_b_identity(l, i + 1);
        assert(pass_b_from(l, i) =~= l.subrange(i as int, l.len() as int));
    }
}

/// A configuration with its program counter put back to the origin: the
/// straight-line denotation never reads the counter, so this is the shape
/// it threads through.
pub open spec fn pc0(c: ExecConfig) -> ExecConfig {
    ExecConfig { pc: 0, ..c }
}

/// The reference machine of a straight-running program walks it one
/// operation per step, never fails, and finishes with the denotation's
/// output.
pub proof fn lemma_bf_run_matches_den(ops: Seq<BfOp>, input: Seq<u8>, n: nat)
    requires
        bf_den(ops, 0, input, init_config()) is Some,
    ensures
        !(bf_run(ops, input, n) is Fail),
        match bf_run(ops, input, n) {
            Step::Go(c) => c.pc == n && n <= ops.len() && bf_den(ops, c.pc, input, pc0(c))
                == bf_den(ops, 0, input, init_config()),
            Step::Done(c) => c.out == bf_den(ops, 0, input, init_config())->Some_0.out,
            Step::Fail(_) => true,
        },
    decreases n,
{
    if n == 0 {
        assert(pc0(init_config()) == init_config());
    } else {
        lemma_bf_run_matches_den(ops, input, (n - 1) as nat);
        match bf_run(ops, input, (n - 1) as nat) {
            Step::Go(c) => {
                if c.pc >= ops.len() {
                    assert(bf_den(ops, c.pc, input, pc0(c)) == Some(pc0(c)));
                } else {
                    assert(bf_den(ops, c.pc, input, pc0(c)) is Some);
                    match ops[c.pc as int] {
                        BfOp::Inc => {
                            assert(bf_run(ops, input, n) matches Step::Go(c2) && pc0(c2)
                                == ExecConfig {
                                cells: tape_write(
                                    c.cells,
                                    c.pos as nat,
                                    cell_add(tape_read(c.cells, c.pos as nat), 1),
                                ),
                                ..pc0(c)
                            });
                        },
                        BfOp::Dec => {
                            assert(bf_run(ops, input, n) matches Step::Go(c2) && pc0(c2)
                                == ExecConfig {
                                cells: tape_write(
                                    c.cells,
                                    c.pos as nat,
                                    cell_add(tape_read(c.cells, c.pos as nat), -1),
                                ),
                                ..pc0(c)
                            });
                        },
                        BfOp::MvRight => {
                            assert(bf_run(ops, input, n) matches Step::Go(c2) && pc0(c2)
                                == ExecConfig { pos: (c.pos + 1) as usize, ..pc0(c) });
                        },
                        BfOp::MvLeft => {
                            assert(bf_run(ops, input, n) matches Step::Go(c2) && pc0(c2)
                                == ExecConfig { pos: (c.pos - 1) as usize, ..pc0(c) });
                        },
                        BfOp::Out => {
                            assert(bf_run(ops, input, n) matches Step::Go(c2) && pc0(c2)
                                == ExecConfig {
                                out: c.out.push(tape_read(c.cells, c.pos as nat)),
                                ..pc0(c)
                            });
                        },
                        BfOp::In => {
                            assert(bf_run(ops, input, n) matches Step::Go(c2) && pc0(c2)
                                == ExecConfig {
                                cells: tape_write(c.cells, c.pos as nat, input[c.in_pos as int]),
                                in_pos: c.in_pos + 1,
                                ..pc0(c)
                            });
                        },
                        _ => {
                            assert(false);
                        },
                    }
                }
            },
            _ => {},
        }
    }
}

/// With any step budget past the program's length, the reference machine of
/// a straight-running program finishes with the denotation's output.
pub proof fn lemma_bf_run_completes(ops: Seq<BfOp>, input: Seq<u8>, fuel: nat)
    requires
        bf_den(ops, 0, input, init_config()) is Some,
        fuel > ops.len(),
    ensures
        bf_run(ops, input, fuel) matches Step::Done(c) && c.out == bf_den(
            ops,
            0,
            input,
            init_config(),
        )->Some_0.out,
{
    lemma_bf_run_matches_den(ops, input, ops.len());
    lemma_bf_run_matches_den(ops, input, ops.len() + 1);
    assert(!(bf_run(ops, input, ops.len() + 1) is Go));
    crate::parser::lemma_bf_run_stable(ops, input, ops.len() + 1, fuel);
}

/// The high-level machine of a straight-running program walks it one
/// operation per step, never fails, and finishes with the denotation's
/// output.
pub proof fn lemma_hir_run_matches_den(ops: Seq<HirOp>, input: Seq<u8>, n: nat)
    requires
        hir_den(ops, 0, input, init_config()) is Some,
    ensures
        !(hir_run(ops, input, n) is Fail),
        match hir_run(ops, input, n) {
            Step::Go(c) => c.pc == n && n <= ops.len() && hir_den(ops, c.pc, input, pc0(c))
                == hir_den(ops, 0, input, init_config()),
            Step::Done(c) => c.out == hir_den(ops, 0, input, init_config())->Some_0.out,
            Step::Fail(_) => true,
        },
    decreases n,
{
    if n == 0 {
        assert(pc0(init_config()) == init_config());
    } else {
        lemma_hir_run_matches_den(ops, input, (n - 1) as nat);
        match hir_run(ops, input, (n - 1) as nat) {
            Step::Go(c) => {
                if c.pc >= ops.len() {
                    assert(hir_den(ops, c.pc, input, pc0(c)) == Some(pc0(c)));
                } else {
                    assert(hir_den(ops, c.pc, input, pc0(c)) is Some);
                    match ops[c.pc as int] {
                        HirOp::Modify(d) => {
                            assert(hir_run(ops, input, n) matches Step::Go(c2) && pc0(c2)
                                == ExecConfig {
                                cells: tape_write(
                                    c.cells,
                                    c.pos as nat,
                                    cell_add(tape_read(c.cells, c.pos as nat), d as int),
                                ),
                                ..pc0(c)
                            });
                        },
                        HirOp::Move(d) => {
                            assert(hir_run(ops, input, n) matches Step::Go(c2) && pc0(c2)
                                == ExecConfig { pos: pos_wrap(c.pos, d as int), ..pc0(c) });
                        },
                        HirOp::Out => {
                            assert(hir_run(ops, input, n) matches Step::Go(c2) && pc0(c2)
                                == ExecConfig {
                                out: c.out.push(tape_read(c.cells, c.pos as nat)),
                                ..pc0(c)
                            });
                        },
                        HirOp::In => {
                            assert(hir_run(ops, input, n) matches Step::Go(c2) && pc0(c2)
                                == ExecConfig {
                                cells: tape_write(c.cells, c.pos as nat, input[c.in_pos as int]),
                                in_pos: c.in_pos + 1,
                                ..pc0(c)
                            });
                        },
                        _ => {
                            assert(false);
                        },
                    }
                }
            },
            _ => {},
        }
    }
}

/// With any step budget past the program's length, the high-level machine
/// of a straight-running program finishes with the denotation's output.
pub proof fn lemma_hir_run_completes(ops: Seq<HirOp>, input: Seq<u8>, fuel: nat)
    requires
        hir_den(ops, 0, input, init_config()) is Some,
        fuel > ops.len(),
    ensures
        hir_run(ops, input, fuel) matches Step::Done(c) && c.out == hir_den(
            ops,
            0,
            input,
            init_config(),
        )->Some_0.out,
{
    lemma_hir_run_matches_den(ops, input, ops.len());
    lemma_hir_run_matches_den(ops, input, ops.len() + 1);
    assert(!(hir_run(ops, input, ops.len() + 1) is Go));
    crate::hir::lemma_hir_run_stable(ops, input, ops.len() + 1, fuel);
}

/// The low-level machine of a straight-running program walks it one
/// operation per step, never fails, and finishes with the denotation's
/// output.
pub proof fn lemma_lir_run_matches_den(ops: Seq<LirOp>, input: Seq<u8>, n: nat)
    requires
        lir_den(ops, 0, input, init_config()) is Some,
    ensures
        !(lir_run(ops, input, n) is Fail),
        match lir_run(ops, input, n) {
            Step::Go(c) => c.pc == n && n <= ops.len() && lir_den(ops, c.pc, input, pc0(c))
                == lir_den(ops, 0, input, init_config()),
            Step::Done(c) => c.out == lir_den(ops, 0, input, init_config())->Some_0.out,
            Step::Fail(_) => true,
        },
    decreases n,
{
    if n == 0 {
        assert(pc0(init_config()) == init_config());
    } else {
        lemma_lir_run_matches_den(ops, input, (n - 1) as nat);
        match lir_run(ops, input, (n - 1) as nat) {
            Step::Go(c) => {
                if c.pc >= ops.len() {
                    assert(lir_den(ops, c.pc, input, pc0(c)) == Some(pc0(c)));
                } else {
                    assert(lir_den(ops, c.pc, input, pc0(c)) is Some);
                    match ops[c.pc as int] {
                        LirOp::OffsetModify(d, off) => {
                            assert(lir_run(ops, input, n) matches Step::Go(c2) && pc0(c2)
                                == ExecConfig {
                                cells: tape_write(
                                    c.cells,
                                    pos_wrap(c.pos, off as int) as nat,
                                    cell_add(
                                        tape_read(c.cells, pos_wrap(c.pos, off as int) as nat),
                                        d as int,
                                    ),
                                ),
                                ..pc0(c)
                            });
                        },
                        LirOp::Move(d) => {
                            assert(lir_run(ops, input, n) matches Step::Go(c2) && pc0(c2)
                                == ExecConfig { pos: pos_wrap(c.pos, d as int), ..pc0(c) });
                        },
                        LirOp::Out => {
                            assert(lir_run(ops, input, n) matches Step::Go(c2) && pc0(c2)
                                == ExecConfig {
                                out: c.out.push(tape_read(c.cells, c.pos as nat)),
                                ..pc0(c)
                            });
                        },
                        LirOp::In => {
                            assert(lir_run(ops, input, n) matches Step::Go(c2) && pc0(c2)
                                == ExecConfig {
                                cells: tape_write(c.cells, c.pos as nat, input[c.in_pos as int]),
                                in_pos: c.in_pos + 1,
                                ..pc0(c)
                            });
                        },
                        _ => {
                            assert(false);
                        },
                    }
                }
            },
            _ => {},
        }
    }
}

/// With any step budget past the program's length, the low-level machine of
/// a straight-running program finishes with the denotation's output.
pub proof fn lemma_lir_run_completes(ops: Seq<LirOp>, input: Seq<u8>, fuel: nat)
    requires
        lir_den(ops, 0, input, init_config()) is Some,
        fuel > ops.len(),
    ensures
        lir_run(ops, input, fuel) matches Step::Done(c) && c.out == lir_den(
            ops,
            0,
            input,
            init_config(),
        )->Some_0.out,
{
    lemma_lir_run_matches_den(ops, input, ops.len());
    lemma_lir_run_matches_den(ops, input, ops.len() + 1);
    assert(!(lir_run(ops, input, ops.len() + 1) is Go));
    crate::lir::lemma_lir_run_stable(ops, input, ops.len() + 1, fuel);
}

/// Lowering preserves observable behavior on straight-line programs: when
/// the source denotation runs through to an end, the high-level form and
/// the fully lowered low-level form reach exactly the same configuration —
/// the same tape, cursor, input mark, and output byte sequence.
pub proof fn lemma_lowering_preserves_straightline(ops: Seq<BfOp>, input: Seq<u8>, c: ExecConfig)
    requires
        ops.len() <= isize::MAX,
        bf_den(ops, 0, input, c) is Some,
    ensures
        hir_den(spec_lower(ops), 0, input, c) == bf_den(ops, 0, input, c),
        lir_den(spec_gen_ir(spec_lower(ops)), 0, input, c) == bf_den(ops, 0, input, c),
{
    lemma_lower_preserves_den(ops, 0, input, c);
    let h = spec_lower(ops);
    lemma_pass_a_preserves_den(h, 0, input, c);
    lemma_hir_den_no_brackets(h, 0, input, c);
    lemma_pass_a_no_brackets(h, 0);
    let l = pass_a_from(h, 0);
    lemma_pass_b_identity(l, 0);
    assert(l.subrange(0, l.len() as int) =~= l);
    assert(spec_gen_ir(h) == l);
}

/// The reference machine, the high-level machine on the lowered form, and
/// the low-level machine on the fully lowered form all finish a
/// straight-running source program, and the byte sequences they write are
/// identical.
pub proof fn lemma_machines_agree_straightline(
    ops: Seq<BfOp>,
    input: Seq<u8>,
    fb: nat,
    fh: nat,
    fl: nat,
)
    requires
        ops.len() <= isize::MAX,
        bf_den(ops, 0, input, init_config()) is Some,
        fb > ops.len(),
        fh > spec_lower(ops).len(),
        fl > spec_gen_ir(spec_lower(ops)).len(),
    ensures
        bf_run(ops, input, fb) is Done,
        hir_run(spec_lower(ops), input, fh) is Done,
        lir_run(spec_gen_ir(spec_lower(ops)), input, fl) is Done,
        bf_run(ops, input, fb)->Done_0.out == hir_run(spec_lower(ops), input, fh)->Done_0.out,
        bf_run(ops, input, fb)->Done_0.out == lir_run(
            spec_gen_ir(spec_lower(ops)),
            input,
            fl,
        )->Done_0.out,
{
    lemma_lowering_preserves_straightline(ops, input, init_config());
    lemma_bf_run_completes(ops, input, fb);
    lemma_hir_run_completes(spec_lower(ops), input, fh);
    lemma_lir_run_completes(spec_gen_ir(spec_lower(ops)), input, fl);
}

} // verus!

