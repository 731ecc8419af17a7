use vstd::prelude::*;
use crate::ExecError;
use crate::brackets::{
    Br, all_opens_matched, build_table, is_open, mtch, spec_table,
};
use crate::parser::{BfOp, BfParser, spec_parse};
use crate::state::{
    BrainfuckState, ExecConfig, Step, cell_add, cell_add_exec, init_config, live_config, pos_wrap,
    pos_wrap_exec, tape_read, tape_write,
};

verus! {

/// One operation of the high-level form: contiguous additive and positional
/// runs of the source are collapsed into signed deltas, everything else
/// passes through.
#[derive(Debug, Clone, Copy, PartialEq, Eq)]
pub enum HirOp {
    Modify(isize),
    Move(isize),
    In,
    Out,
    BrFor,
    BrBack,
}

pub open spec fn is_mod_op(op: BfOp) -> bool {
    op == BfOp::Inc || op == BfOp::Dec
}

pub open spec fn is_mov_op(op: BfOp) -> bool {
    op == BfOp::MvRight || op == BfOp::MvLeft
}

/// What one source operation contributes to the delta of its run.
pub open spec fn op_delta(op: BfOp) -> int {
    match op {
        BfOp::Inc => 1,
        BfOp::Dec => -1,
        BfOp::MvRight => 1,
        BfOp::MvLeft => -1,
        _ => 0,
    }
}

pub open spec fn same_kind(op: BfOp, kind_mod: bool) -> bool {
    if kind_mod {
        is_mod_op(op)
    } else {
        is_mov_op(op)
    }
}

/// Where the maximal run of one kind starting at `i` ends.
pub open spec fn run_end(bf: Seq<BfOp>, i: nat, kind_mod: bool) -> nat
    decreases bf.len() - i,
{
    if i >= bf.len() || !same_kind(bf[i as int], kind_mod) {
        i
    } else {
        run_end(bf, i + 1, kind_mod)
    }
}

/// The net delta of the source operations in `[i, j)`.
pub open spec fn run_sum(bf: Seq<BfOp>, i: nat, j: nat) -> int
    decreases j - i,
{
    if i >= j {
        0
    } else {
        op_delta(bf[i as int]) + run_sum(bf, i + 1, j)
    }
}

proof fn lemma_run_sum_snoc(bf: Seq<BfOp>, i: nat, j: nat)
    requires
        i <= j < bf.len(),
    ensures
        run_sum(bf, i, j + 1) == run_sum(bf, i, j) + op_delta(bf[j as int]),
    decreases j - i,
{
    if i < j {
        lemma_run_sum_snoc(bf, i + 1, j);
    } else {
        assert(run_sum(bf, i, j) == 0);
        assert(run_sum(bf, j + 1, j + 1) == 0);
    }
}

/// Everything inside a maximal run is of its kind, the run ends inside the
/// sequence, and the operation after it, if any, is of another kind.
pub proof fn lemma_run_props(bf: Seq<BfOp>, i: nat, kind_mod: bool)
    requires
        i <= bf.len(),
    ensures
        i <= run_end(bf, i, kind_mod) <= bf.len(),
        forall|k: int|
            i <= k < run_end(bf, i, kind_mod) ==> same_kind(#[trigger] bf[k], kind_mod),
        run_end(bf, i, kind_mod) < bf.len() ==> !same_kind(
            bf[run_end(bf, i, kind_mod) as int],
            kind_mod,
        ),
        i < bf.len() && same_kind(bf[i as int], kind_mod) ==> i < run_end(bf, i, kind_mod),
    decreases bf.len() - i,
{
    if i < bf.len() && same_kind(bf[i as int], kind_mod) {
        lemma_run_props(bf, i + 1, kind_mod);
    }
}

/// A run's net delta is bounded by the run's length.
pub proof fn lemma_run_sum_bounds(bf: Seq<BfOp>, i: nat, j: nat)
    requires
        i <= j,
    ensures
        -(j - i) <= run_sum(bf, i, j) <= j - i,
    decreases j - i,
{
    if i < j {
        lemma_run_sum_bounds(bf, i + 1, j);
    }
}

/// How a source operation that is not part of a run passes through.
pub open spec fn hir_of_bf(op: BfOp) -> HirOp {
    match op {
        BfOp::In => HirOp::In,
        BfOp::Out => HirOp::Out,
        BfOp::BrFor => HirOp::BrFor,
        _ => HirOp::BrBack,
    }
}

/// The high-level form of the source from `i` on: each maximal `+`/`-` run
/// becomes one `Modify`, each maximal `>`/`<` run one `Move`, and the other
/// operations pass through unchanged.
pub open spec fn spec_lower_from(bf: Seq<BfOp>, i: nat) -> Seq<HirOp>
    decreases bf.len() - i,
    via spec_lower_from_dec
{
    if i >= bf.len() {
        Seq::empty()
    } else if is_mod_op(bf[i as int]) {
        seq![HirOp::Modify(run_sum(bf, i, run_end(bf, i, true)) as isize)] + spec_lower_from(
            bf,
            run_end(bf, i, true),
        )
    } else if is_mov_op(bf[i as int]) {
        seq![HirOp::Move(run_sum(bf, i, run_end(bf, i, false)) as isize)] + spec_lower_from(
            bf,
            run_end(bf, i, false),
        )
    } else {
        seq![hir_of_bf(bf[i as int])] + spec_lower_from(bf, i + 1)
    }
}

#[via_fn]
proof fn spec_lower_from_dec(bf: Seq<BfOp>, i: nat) {
    if i < bf.len() {
        lemma_run_props(bf, i, true);
        lemma_run_props(bf, i, false);
    }
}

/// The high-level form of a whole source program.
pub open spec fn spec_lower(bf: Seq<BfOp>) -> Seq<HirOp> {
    spec_lower_from(bf, 0)
}

fn is_mod_exec(op: BfOp) -> (b: bool)
    ensures
        b == is_mod_op(op),
{
    matches!(op, BfOp::Inc | BfOp::Dec)
}

fn is_mov_exec(op: BfOp) -> (b: bool)
    ensures
        b == is_mov_op(op),
{
    matches!(op, BfOp::MvRight | BfOp::MvLeft)
}

fn kind_matches(op: BfOp, kind_mod: bool) -> (b: bool)
    ensures
        b == same_kind(op, kind_mod),
{
    if kind_mod {
        is_mod_exec(op)
    } else {
        is_mov_exec(op)
    }
}

/// Collapse runs of additive and positional operations into single deltas.
fn lower(bf: &[BfOp]) -> (r: Vec<HirOp>)
    requires
        bf@.len() <= isize::MAX,
    ensures
        r@ == spec_lower(bf@),
{
    let mut result: Vec<HirOp> = Vec::new();
    let mut pos: usize = 0;
    while pos < bf.len()
        invariant
            pos <= bf@.len(),
            bf@.len() <= isize::MAX,
            spec_lower(bf@) == result@ + spec_lower_from(bf@, pos as nat),
        decreases bf@.len() - pos,
    {
        let ghost start: nat = pos as nat;
        let op: BfOp = bf[pos];
        if is_mod_exec(op) || is_mov_exec(op) {
            let ghost kind_mod: bool = is_mod_op(op);
            let mod_run: bool = is_mod_exec(op);
            let mut delta: isize = 0;
            while pos < bf.len() && kind_matches(bf[pos], mod_run)
                invariant
                    mod_run == kind_mod,
                    start <= pos as nat <= bf@.len(),
                    bf@.len() <= isize::MAX,
                    start < bf@.len() && same_kind(bf@[start as int], kind_mod),
                    run_end(bf@, start, kind_mod) == run_end(bf@, pos as nat, kind_mod),
                    delta as int == run_sum(bf@, start, pos as nat),
                    -(pos as int - start) <= delta as int <= pos as int - start,
                decreases bf@.len() - pos,
            {
                proof {
                    lemma_run_sum_snoc(bf@, start, pos as nat);
                }
                let cur: BfOp = bf[pos];
                let d: isize = if mod_run {
                    if matches!(cur, BfOp::Inc) {
                        1
                    } else {
                        -1
                    }
                } else {
                    if matches!(cur, BfOp::MvRight) {
                        1
                    } else {
                        -1
                    }
                };
                delta = delta + d;
                pos = pos + 1;
            }
            proof {
                assert(run_end(bf@, pos as nat, kind_mod) == pos as nat);
                assert(run_end(bf@, start, kind_mod) == pos as nat);
            }
            if mod_run {
                result.push(HirOp::Modify(delta));
            } else {
                result.push(HirOp::Move(delta));
            }
            proof {
                assert(spec_lower(bf@) =~= result@ + spec_lower_from(bf@, pos as nat));
            }
        } else {
            let h: HirOp = match op {
                BfOp::In => HirOp::In,
                BfOp::Out => HirOp::Out,
                BfOp::BrFor => HirOp::BrFor,
                _ => HirOp::BrBack,
            };
            result.push(h);
            pos = pos + 1;
            proof {
                assert(spec_lower(bf@) =~= result@ + spec_lower_from(bf@, pos as nat));
            }
        }
    }
    proof {
        assert(spec_lower(bf@) =~= result@);
    }
    result
}

/// The generator from source bytes to the high-level form.
pub struct HirGen {
    program: Vec<u8>,
}

impl View for HirGen {
    type V = Seq<u8>;

    /// A generator is seen as the source bytes it holds.
    closed spec fn view(&self) -> Seq<u8> {
        self.program@
    }
}

proof fn lemma_parse_len(bytes: Seq<u8>, i: nat)
    requires
        i <= bytes.len(),
    ensures
        crate::parser::spec_parse_from(bytes, i).len() <= bytes.len() - i,
    decreases bytes.len() - i,
{
    if i < bytes.len() {
        lemma_parse_len(bytes, i + 1);
    }
}

impl HirGen {
    pub fn new(program: Vec<u8>) -> (g: Self)
        ensures
            g@ == program@,
    {
        HirGen { program }
    }

    /// Parse the held source bytes and lower them to the high-level form.
    /// The source must leave each run's delta representable in a signed word.
    pub fn gen(&mut self) -> (r: Vec<HirOp>)
        requires
            old(self)@.len() <= isize::MAX,
        ensures
            r@ == spec_lower(spec_parse(old(self)@)),
            final(self)@ == old(self)@,
    {
        let parsed: Vec<BfOp> = match BfParser::parse(self.program.as_slice()) {
            Ok(v) => v,
            Err(_) => Vec::new(),
        };
        proof {
            lemma_parse_len(self.program@, 0);
        }
        lower(parsed.as_slice())
    }
}

/// An older name for the same generator, kept for callers that know it as
/// the IR generator.
pub struct IrGen {
    program: Vec<u8>,
}

impl View for IrGen {
    type V = Seq<u8>;

    /// A generator is seen as the source bytes it holds.
    closed spec fn view(&self) -> Seq<u8> {
        self.program@
    }
}

impl IrGen {
    pub fn new(program: Vec<u8>) -> (g: Self)
        ensures
            g@ == program@,
    {
        IrGen { program }
    }

    /// Parse the held source bytes and lower them to the high-level form.
    /// The source must leave each run's delta representable in a signed word.
    pub fn gen(&mut self) -> (r: Vec<HirOp>)
        requires
            old(self)@.len() <= isize::MAX,
        ensures
            r@ == spec_lower(spec_parse(old(self)@)),
            final(self)@ == old(self)@,
    {
        let parsed: Vec<BfOp> = match BfParser::parse(self.program.as_slice()) {
            Ok(v) => v,
            Err(_) => Vec::new(),
        };
        proof {
            lemma_parse_len(self.program@, 0);
        }
        lower(parsed.as_slice())
    }
}

/// Whether two adjacent operations are of the same collapsible kind.
pub open spec fn hir_same_kind(op: HirOp, kind_mod: bool) -> bool {
    if kind_mod {
        op is Modify
    } else {
        op is Move
    }
}

/// What an operation contributes to the delta of its run.
pub open spec fn hir_op_delta(op: HirOp) -> int {
    match op {
        HirOp::Modify(d) => d as int,
        HirOp::Move(d) => d as int,
        _ => 0,
    }
}

/// Where the maximal run of one kind starting at `i` ends.
pub open spec fn hir_run_end(h: Seq<HirOp>, i: nat, kind_mod: bool) -> nat
    decreases h.len() - i,
{
    if i >= h.len() || !hir_same_kind(h[i as int], kind_mod) {
        i
    } else {
        hir_run_end(h, i + 1, kind_mod)
    }
}

/// The net delta of the operations in `[i, j)`.
pub open spec fn hir_run_sum(h: Seq<HirOp>, i: nat, j: nat) -> int
    decreases j - i,
{
    if i >= j {
        0
    } else {
        hir_op_delta(h[i as int]) + hir_run_sum(h, i + 1, j)
    }
}

proof fn lemma_hir_run_end_bounds(h: Seq<HirOp>, i: nat, kind_mod: bool)
    ensures
        i <= hir_run_end(h, i, kind_mod),
        i < h.len() && hir_same_kind(h[i as int], kind_mod) ==> i < hir_run_end(h, i, kind_mod)
            <= h.len(),
        hir_run_end(h, i, kind_mod) < h.len() ==> !hir_same_kind(
            h[hir_run_end(h, i, kind_mod) as int],
            kind_mod,
        ),
    decreases h.len() - i,
{
    if i < h.len() && hir_same_kind(h[i as int], kind_mod) {
        lemma_hir_run_end_bounds(h, i + 1, kind_mod);
    }
}

/// The run-length pass applied at the high-level form itself: adjacent
/// `Modify`s and adjacent `Move`s are merged, everything else passes through.
pub open spec fn coalesce_from(h: Seq<HirOp>, i: nat) -> Seq<HirOp>
    decreases h.len() - i,
    via coalesce_from_dec
{
    if i >= h.len() {
        Seq::empty()
    } else if h[i as int] is Modify {
        seq![HirOp::Modify(hir_run_sum(h, i, hir_run_end(h, i, true)) as isize)] + coalesce_from(
            h,
            hir_run_end(h, i, true),
        )
    } else if h[i as int] is Move {
        seq![HirOp::Move(hir_run_sum(h, i, hir_run_end(h, i, false)) as isize)] + coalesce_from(
            h,
            hir_run_end(h, i, false),
        )
    } else {
        seq![h[i as int]] + coalesce_from(h, i + 1)
    }
}

#[via_fn]
proof fn coalesce_from_dec(h: Seq<HirOp>, i: nat) {
    if i < h.len() {
        lemma_hir_run_end_bounds(h, i, true);
        lemma_hir_run_end_bounds(h, i, false);
    }
}

pub open spec fn spec_coalesce(h: Seq<HirOp>) -> Seq<HirOp> {
    coalesce_from(h, 0)
}

/// The invariant of the high-level form: adjacent `Modify`s and adjacent
/// `Move`s never appear.
pub open spec fn coalesced(h: Seq<HirOp>) -> bool {
    forall|k: int|
        0 < k < h.len() ==> !(h[k - 1] is Modify && #[trigger] h[k] is Modify) && !(h[k
            - 1] is Move && h[k] is Move)
}

proof fn lemma_lower_shape(bf: Seq<BfOp>, i: nat)
    ensures
        coalesced(spec_lower_from(bf, i)),
        spec_lower_from(bf, i).len() > 0 && spec_lower_from(bf, i)[0] is Modify ==> i < bf.len()
            && is_mod_op(bf[i as int]),
        spec_lower_from(bf, i).len() > 0 && spec_lower_from(bf, i)[0] is Move ==> i < bf.len()
            && is_mov_op(bf[i as int]),
    decreases bf.len() - i,
{
    if i >= bf.len() {
    } else if is_mod_op(bf[i as int]) || is_mov_op(bf[i as int]) {
        let kind_mod = is_mod_op(bf[i as int]);
        lemma_run_props(bf, i, kind_mod);
        let j = run_end(bf, i, kind_mod);
        lemma_lower_shape(bf, j);
        let tail = spec_lower_from(bf, j);
        let whole = spec_lower_from(bf, i);
        let head: HirOp = if kind_mod {
            HirOp::Modify(run_sum(bf, i, j) as isize)
        } else {
            HirOp::Move(run_sum(bf, i, j) as isize)
        };
        assert(whole == seq![head] + tail);
        assert(whole.len() == 1 + tail.len());
        assert(whole[0] == head);
        assert forall|k: int| 0 < k < whole.len() implies !(whole[k - 1] is Modify
            && #[trigger] whole[k] is Modify) && !(whole[k - 1] is Move && whole[k] is Move) by {
            if k == 1 {
                assert(whole[1] == tail[0]);
                if tail[0] is Modify {
                    assert(is_mod_op(bf[j as int]));
                    assert(!same_kind(bf[j as int], kind_mod));
                }
                if tail[0] is Move {
                    assert(is_mov_op(bf[j as int]));
                    assert(!same_kind(bf[j as int], kind_mod));
                }
            } else {
                assert(whole[k - 1] == tail[k - 2] && whole[k] == tail[k - 1]);
            }
        }
    } else {
        lemma_lower_shape(bf, i + 1);
        let tail = spec_lower_from(bf, i + 1);
        let whole = spec_lower_from(bf, i);
        let head = hir_of_bf(bf[i as int]);
        assert(whole == seq![head] + tail);
        assert(whole.len() == 1 + tail.len());
        assert(whole[0] == head);
        assert(!(whole[0] is Modify) && !(whole[0] is Move));
        assert forall|k: int| 0 < k < whole.len() implies !(whole[k - 1] is Modify
            && #[trigger] whole[k] is Modify) && !(whole[k - 1] is Move && whole[k] is Move) by {
            if k == 1 {
                assert(whole[1] == tail[0]);
            } else {
                assert(whole[k - 1] == tail[k - 2] && whole[k] == tail[k - 1]);
            }
        }
    }
}

proof fn lemma_coalesce_identity(h: Seq<HirOp>, i: nat)
    requires
        coalesced(h),
        i <= h.len(),
    ensures
        coalesce_from(h, i) == h.subrange(i as int, h.len() as int),
    decreases h.len() - i,
{
    if i >= h.len() {
        assert(coalesce_from(h, i) =~= h.subrange(i as int, h.len() as int));
    } else if h[i as int] is Modify || h[i as int] is Move {
        let kind_mod = h[i as int] is Modify;
        assert(hir_run_end(h, (i + 1) as nat, kind_mod) == i + 1);
        assert(hir_run_end(h, i, kind_mod) == i + 1);
        assert(hir_run_sum(h, i + 1, i + 1) == 0);
        assert(hir_run_sum(h, i, i + 1) == hir_op_delta(h[i as int]));
        lemma_coalesce_identity(h, i + 1);
        assert(coalesce_from(h, i) =~= h.subrange(i as int, h.len() as int));
    } else {
        lemma_coalesce_identity(h, i + 1);
        assert(coalesce_from(h, i) =~= h.subrange(i as int, h.len() as int));
    }
}

/// Lowering an already coalesced sequence is a no-op: the high-level form is
/// coalesced, and the run-length pass is the identity on it.
pub proof fn lemma_lower_idempotent(bf: Seq<BfOp>)
    ensures
        coalesced(spec_lower(bf)),
        spec_coalesce(spec_lower(bf)) == spec_lower(bf),
{
    lemma_lower_shape(bf, 0);
    lemma_coalesce_identity(spec_lower(bf), 0);
    assert(spec_lower(bf).subrange(0, spec_lower(bf).len() as int) =~= spec_lower(bf));
}

/// The run-length pass is the identity on any coalesced sequence.
pub proof fn lemma_coalesce_of_coalesced(h: Seq<HirOp>)
    requires
        coalesced(h),
    ensures
        spec_coalesce(h) == h,
{
    lemma_coalesce_identity(h, 0);
    assert(h.subrange(0, h.len() as int) =~= h);
}

/// How each operation of the high-level form counts for bracket matching.
pub open spec fn br_of_hir(op: HirOp) -> Br {
    match op {
        HirOp::BrFor => Br::Open,
        HirOp::BrBack => Br::Close,
        _ => Br::Other,
    }
}

pub open spec fn hir_brs(prog: Seq<HirOp>) -> Seq<Br> {
    Seq::new(prog.len(), |i: int| br_of_hir(prog[i]))
}

fn hir_brs_exec(program: &[HirOp]) -> (r: Vec<Br>)
    ensures
        r@ == hir_brs(program@),
{
    let mut r: Vec<Br> = Vec::new();
    let mut i: usize = 0;
    while i < program.len()
        invariant
            i <= program@.len(),
            r@ == hir_brs(program@).subrange(0, i as int),
        decreases program@.len() - i,
    {
        let b: Br = match program[i] {
            HirOp::BrFor => Br::Open,
            HirOp::BrBack => Br::Close,
            _ => Br::Other,
        };
        r.push(b);
        proof {
            assert(r@ =~= hir_brs(program@).subrange(0, i + 1));
        }
        i = i + 1;
    }
    proof {
        assert(hir_brs(program@).subrange(0, program@.len() as int) =~= hir_brs(program@));
    }
    r
}

/// One step of the high-level machine: deltas are applied modulo 256 to the
/// cell, moves wrap on the position word, and brackets jump through the
/// precomputed branch table.
pub open spec fn hir_step(prog: Seq<HirOp>, input: Seq<u8>, c: ExecConfig) -> Step {
    let table = spec_table(hir_brs(prog));
    if c.pc >= prog.len() {
        Step::Done(c)
    } else {
        match prog[c.pc as int] {
            HirOp::Modify(d) => if c.pos == usize::MAX {
                Step::Fail(ExecError::PositionOverflow(c.pc as usize))
            } else {
                Step::Go(
                    ExecConfig {
                        cells: tape_write(
                            c.cells,
                            c.pos as nat,
                            cell_add(tape_read(c.cells, c.pos as nat), d as int),
                        ),
                        pc: c.pc + 1,
                        ..c
                    },
                )
            },
            HirOp::Move(d) => Step::Go(
                ExecConfig { pos: pos_wrap(c.pos, d as int), pc: c.pc + 1, ..c },
            ),
            HirOp::Out => Step::Go(
                ExecConfig { out: c.out.push(tape_read(c.cells, c.pos as nat)), pc: c.pc + 1, ..c },
            ),
            HirOp::In => if c.in_pos >= input.len() {
                Step::Fail(ExecError::InputExhausted)
            } else if c.pos == usize::MAX {
                Step::Fail(ExecError::PositionOverflow(c.pc as usize))
            } else {
                Step::Go(
                    ExecConfig {
                        cells: tape_write(c.cells, c.pos as nat, input[c.in_pos as int]),
                        in_pos: c.in_pos + 1,
                        pc: c.pc + 1,
                        ..c
                    },
                )
            },
            HirOp::BrFor => if tape_read(c.cells, c.pos as nat) == 0 {
                Step::Go(ExecConfig { pc: (table[c.pc as int] + 1) as nat, ..c })
            } else {
                Step::Go(ExecConfig { pc: c.pc + 1, ..c })
            },
            HirOp::BrBack => if tape_read(c.cells, c.pos as nat) != 0 {
                Step::Go(ExecConfig { pc: (table[c.pc as int] + 1) as nat, ..c })
            } else {
                Step::Go(ExecConfig { pc: c.pc + 1, ..c })
            },
        }
    }
}

/// The high-level machine after `n` steps from the initial configuration.
pub open spec fn hir_run(prog: Seq<HirOp>, input: Seq<u8>, n: nat) -> Step
    decreases n,
{
    if n == 0 {
        Step::Go(init_config())
    } else {
        match hir_run(prog, input, (n - 1) as nat) {
            Step::Go(c) => hir_step(prog, input, c),
            r => r,
        }
    }
}

/// Once the high-level machine has finished or failed, more steps change nothing.
pub proof fn lemma_hir_run_stable(prog: Seq<HirOp>, input: Seq<u8>, m: nat, n: nat)
    requires
        m <= n,
        !(hir_run(prog, input, m) is Go),
    ensures
        hir_run(prog, input, n) == hir_run(prog, input, m),
    decreases n,
{
    if n > m {
        lemma_hir_run_stable(prog, input, m, (n - 1) as nat);
    }
}

pub struct HirInterpreter;

impl HirInterpreter {
    /// Build the branch table for the high-level form; the first `[` without
    /// a matching `]` is a fatal malformed-program error.
    fn gen_branch_table(program: &[HirOp]) -> (r: Result<Vec<usize>, ExecError>)
        ensures
            r matches Ok(t) ==> t@ == spec_table(hir_brs(program@)) && all_opens_matched(
                hir_brs(program@),
            ),
            r matches Err(e) ==> !all_opens_matched(hir_brs(program@)) && (
            e matches ExecError::UnmatchedOpen(k) && is_open(hir_brs(program@), k as nat) && mtch(
                hir_brs(program@),
                k as nat,
            ) is None && (forall|k2: nat|
                k2 < k && is_open(hir_brs(program@), k2) ==> (#[trigger] mtch(
                    hir_brs(program@),
                    k2,
                )) is Some)),
    {
        let brs: Vec<Br> = hir_brs_exec(program);
        build_table(brs.as_slice())
    }

    /// Walk the high-level form with a precomputed branch table. `input`
    /// serves the `In` instructions; the bytes the program writes come back
    /// in order. At most `fuel` machine steps are taken; the step budget ran
    /// out exactly when `StepLimit` comes back.
    pub fn execute(program: &[HirOp], input: &[u8], fuel: u64) -> (r: Result<Vec<u8>, ExecError>)
        ensures
            all_opens_matched(hir_brs(program@)) ==> match hir_run(program@, input@, fuel as nat) {
                Step::Done(c) => r matches Ok(out) && out@ == c.out,
                Step::Fail(e) => r == Err::<Vec<u8>, ExecError>(e),
                Step::Go(_) => r == Err::<Vec<u8>, ExecError>(ExecError::StepLimit),
            },
            !all_opens_matched(hir_brs(program@)) ==> (r matches Err(e)
                && e matches ExecError::UnmatchedOpen(k) && is_open(hir_brs(program@), k as nat)
                && mtch(hir_brs(program@), k as nat) is None && (forall|k2: nat|
                k2 < k && is_open(hir_brs(program@), k2) ==> (#[trigger] mtch(
                    hir_brs(program@),
                    k2,
                )) is Some)),
    {
        let table: Vec<usize> = match Self::gen_branch_table(program) {
            Ok(t) => t,
            Err(e) => {
                return Err(e);
            },
        };
        let ghost brs = hir_brs(program@);
        let mut state = BrainfuckState::new();
        let mut pc: usize = 0;
        let mut in_pos: usize = 0;
        let mut out: Vec<u8> = Vec::new();
        let mut left: u64 = fuel;
        proof {
            assert(live_config(state, pc as nat, in_pos as nat, out@) =~= init_config());
        }
        while left > 0
            invariant
                left <= fuel,
                pc <= program@.len(),
                in_pos <= input@.len(),
                table@ == spec_table(brs),
                table@.len() == program@.len(),
                brs == hir_brs(program@),
                all_opens_matched(brs),
                hir_run(program@, input@, (fuel - left) as nat) == Step::Go(
                    live_config(state, pc as nat, in_pos as nat, out@),
                ),
            decreases left,
        {
            let ghost n: nat = (fuel - left) as nat;
            left = left - 1;
            if pc >= program.len() {
                proof {
                    lemma_hir_run_stable(program@, input@, n + 1, fuel as nat);
                }
                return Ok(out);
            }
            match program[pc] {
                HirOp::Modify(d) => {
                    if state.pos == usize::MAX {
                        proof {
                            lemma_hir_run_stable(program@, input@, n + 1, fuel as nat);
                        }
                        return Err(ExecError::PositionOverflow(pc));
                    }
                    let cur: u8 = state.read_cur_cell();
                    let v: u8 = cell_add_exec(cur, d);
                    state.set_cur_cell(v);
                    pc = pc + 1;
                },
                HirOp::Move(d) => {
                    state.pos = pos_wrap_exec(state.pos, d);
                    pc = pc + 1;
                },
                HirOp::Out => {
                    out.push(state.read_cur_cell());
                    pc = pc + 1;
                },
                HirOp::In => {
                    if in_pos >= input.len() {
                        proof {
                            lemma_hir_run_stable(program@, input@, n + 1, fuel as nat);
                        }
                        return Err(ExecError::InputExhausted);
                    }
                    if state.pos == usize::MAX {
                        proof {
                            lemma_hir_run_stable(program@, input@, n + 1, fuel as nat);
                        }
                        return Err(ExecError::PositionOverflow(pc));
                    }
                    state.set_cur_cell(input[in_pos]);
                    in_pos = in_pos + 1;
                    pc = pc + 1;
                },
                HirOp::BrFor => {
                    proof {
                        crate::brackets::lemma_table_entry_in_bounds(brs, pc as nat);
                    }
                    if state.read_cur_cell() == 0 {
                        pc = table[pc] + 1;
                    } else {
                        pc = pc + 1;
                    }
                },
                HirOp::BrBack => {
                    proof {
                        crate::brackets::lemma_table_entry_in_bounds(brs, pc as nat);
                    }
                    if state.read_cur_cell() != 0 {
                        pc = table[pc] + 1;
                    } else {
                        pc = pc + 1;
                    }
                },
            }
            proof {
                assert(hir_run(program@, input@, n + 1) == Step::Go(
                    live_config(state, pc as nat, in_pos as nat, out@),
                ));
            }
        }
        Err(ExecError::StepLimit)
    }
}

} // verus!
