use vstd::prelude::*;
use crate::ExecError;
use crate::brackets::{
    Br, all_opens_matched, build_table, is_open, mtch, spec_table,
};
use crate::hir::HirOp;
use crate::state::{
    BrainfuckState, ExecConfig, Step, cell_add, cell_add_exec, init_config, live_config, pos_wrap,
    pos_wrap_exec, tape_read, tape_write,
};

verus! {

/// One operation of the low-level form: loop idioms are rewritten into bulk
/// operations, and modifies may address a cell at a fixed offset from the
/// cursor.
#[derive(Debug, Clone, Copy, PartialEq, Eq)]
pub enum LirOp {
    Move(isize),
    /// Add the first field into the cell at the cursor plus the second.
    OffsetModify(isize, isize),
    /// Set the cell at the cursor to zero.
    WriteZero,
    /// Advance the cursor by the stride until the cell under it is zero.
    Hop(isize),
    /// Add the cell at the cursor into the cell at the given offset, then
    /// zero the cell at the cursor.
    MoveCell(isize),
    In,
    Out,
    BrFor,
    BrBack,
    /// An inert annotation: never affects what a program does.
    Meta(&'static str),
}

/// How a high-level operation passes through the first pass when no loop
/// idiom applies.
pub open spec fn lir_of_hir(op: HirOp) -> LirOp {
    match op {
        HirOp::Modify(d) => LirOp::OffsetModify(d, 0),
        HirOp::Move(d) => LirOp::Move(d),
        HirOp::In => LirOp::In,
        HirOp::Out => LirOp::Out,
        HirOp::BrFor => LirOp::BrFor,
        HirOp::BrBack => LirOp::BrBack,
    }
}

/// The first bracket at or after `p` in the high-level form.
pub open spec fn next_br_hir(h: Seq<HirOp>, p: nat) -> Option<nat>
    decreases h.len() - p,
{
    if p >= h.len() {
        None
    } else if h[p as int] is BrFor || h[p as int] is BrBack {
        Some(p)
    } else {
        next_br_hir(h, p + 1)
    }
}

proof fn lemma_next_br_hir_range(h: Seq<HirOp>, p: nat)
    requires
        next_br_hir(h, p) is Some,
    ensures
        p <= next_br_hir(h, p)->Some_0 < h.len(),
    decreases h.len() - p,
{
    if p < h.len() && !(h[p as int] is BrFor || h[p as int] is BrBack) {
        lemma_next_br_hir_range(h, p + 1);
    }
}

/// Simple-loop recognition on the high-level form: for a `[` at `i` whose
/// body holds no nested bracket, the known idioms become one bulk operation.
/// The result carries how many high-level operations the loop consumes.
pub open spec fn spec_try_opt_hir(h: Seq<HirOp>, i: nat) -> Option<(LirOp, nat)> {
    match next_br_hir(h, i + 1) {
        None => None,
        Some(e) => if h[e as int] is BrFor {
            None
        } else {
            let body = h.subrange(i + 1 as int, e as int);
            if body.len() == 1 && body[0] is Modify {
                Some((LirOp::WriteZero, (e + 1 - i) as nat))
            } else if body.len() == 1 && body[0] is Move {
                Some((LirOp::Hop(body[0]->Move_0), (e + 1 - i) as nat))
            } else if body.len() == 4 && body[0] == HirOp::Modify(-1isize) && body[1] is Move
                && body[2] == HirOp::Modify(1isize) && body[3] is Move && body[1]->Move_0
                + body[3]->Move_0 == 0 && body[1]->Move_0 != 0 {
                Some((LirOp::MoveCell(body[1]->Move_0), (e + 1 - i) as nat))
            } else {
                None
            }
        },
    }
}

/// The first pass from `i` on: loop idioms collapse, everything else maps
/// one to one.
pub open spec fn pass_a_from(h: Seq<HirOp>, i: nat) -> Seq<LirOp>
    decreases h.len() - i,
    via pass_a_from_dec
{
    if i >= h.len() {
        Seq::empty()
    } else if h[i as int] is BrFor && spec_try_opt_hir(h, i) is Some {
        let r = spec_try_opt_hir(h, i)->Some_0;
        seq![r.0] + pass_a_from(h, i + r.1)
    } else {
        seq![lir_of_hir(h[i as int])] + pass_a_from(h, i + 1)
    }
}

#[via_fn]
proof fn pass_a_from_dec(h: Seq<HirOp>, i: nat) {
    if i < h.len() && h[i as int] is BrFor && spec_try_opt_hir(h, i) is Some {
        lemma_next_br_hir_range(h, i + 1);
    }
}

/// The first bracket at or after `p` in the low-level form.
pub open spec fn next_br_lir(l: Seq<LirOp>, p: nat) -> Option<nat>
    decreases l.len() - p,
{
    if p >= l.len() {
        None
    } else if l[p as int] is BrFor || l[p as int] is BrBack {
        Some(p)
    } else {
        next_br_lir(l, p + 1)
    }
}

proof fn lemma_next_br_lir_range(l: Seq<LirOp>, p: nat)
    requires
        next_br_lir(l, p) is Some,
    ensures
        p <= next_br_lir(l, p)->Some_0 < l.len(),
    decreases l.len() - p,
{
    if p < l.len() && !(l[p as int] is BrFor || l[p as int] is BrBack) {
        lemma_next_br_lir_range(l, p + 1);
    }
}

/// An operation the balanced-offset transform accepts: a move, or a modify
/// of the cell under the cursor itself.
pub open spec fn flat_op(op: LirOp) -> bool {
    op is Move || (op matches LirOp::OffsetModify(_, off) && off == 0)
}

pub open spec fn body_flat(body: Seq<LirOp>) -> bool {
    forall|k: int| 0 <= k < body.len() ==> flat_op(#[trigger] body[k])
}

/// The net cursor drift after the first `k` operations of a body.
pub open spec fn drift_to(body: Seq<LirOp>, k: nat) -> int
    decreases k,
{
    if k == 0 || k > body.len() {
        0
    } else {
        drift_to(body, (k - 1) as nat) + (match body[k - 1 as int] {
            LirOp::Move(d) => d as int,
            _ => 0,
        })
    }
}

pub open spec fn fits_isize(x: int) -> bool {
    isize::MIN <= x <= isize::MAX
}

/// Every partial drift of the body is representable in a signed word.
pub open spec fn offsets_fit(body: Seq<LirOp>) -> bool {
    forall|k: nat| k <= body.len() ==> fits_isize(#[trigger] drift_to(body, k))
}

/// The offset modifies the balanced-offset transform emits: each modify of
/// the body, addressed at the drift accumulated before it, in body order.
pub open spec fn rewrite_sets(body: Seq<LirOp>, k: nat) -> Seq<LirOp>
    decreases body.len() - k,
{
    if k >= body.len() {
        Seq::empty()
    } else if body[k as int] is OffsetModify {
        seq![LirOp::OffsetModify(body[k as int]->OffsetModify_0, drift_to(body, k) as isize)]
            + rewrite_sets(body, k + 1)
    } else {
        rewrite_sets(body, k + 1)
    }
}

/// The fixup the balanced-offset transform appends: one move by the net
/// drift, or nothing when the body is balanced.
pub open spec fn fixup(body: Seq<LirOp>) -> Seq<LirOp> {
    if drift_to(body, body.len()) != 0 {
        seq![LirOp::Move(drift_to(body, body.len()) as isize)]
    } else {
        Seq::empty()
    }
}

/// The interior the balanced-offset transform emits for a body: the offset
/// modifies, then the fixup move.
pub open spec fn rewrite_body(body: Seq<LirOp>) -> Seq<LirOp> {
    rewrite_sets(body, 0) + fixup(body)
}

/// The balanced-offset transform on the low-level form: a simple loop whose
/// body is all moves and plain modifies is rewritten to modify at fixed
/// offsets and move once. The result carries how many operations the loop
/// consumes.
pub open spec fn spec_try_opt_lir(l: Seq<LirOp>, i: nat) -> Option<(Seq<LirOp>, nat)> {
    match next_br_lir(l, i + 1) {
        None => None,
        Some(e) => if l[e as int] is BrFor {
            None
        } else {
            let body = l.subrange(i + 1 as int, e as int);
            if body_flat(body) && offsets_fit(body) {
                Some(
                    (
                        seq![LirOp::BrFor] + rewrite_body(body) + seq![LirOp::BrBack],
                        (e + 1 - i) as nat,
                    ),
                )
            } else {
                None
            }
        },
    }
}

/// The second pass from `i` on.
pub open spec fn pass_b_from(l: Seq<LirOp>, i: nat) -> Seq<LirOp>
    decreases l.len() - i,
    via pass_b_from_dec
{
    if i >= l.len() {
        Seq::empty()
    } else if l[i as int] is BrFor && spec_try_opt_lir(l, i) is Some {
        let r = spec_try_opt_lir(l, i)->Some_0;
        r.0 + pass_b_from(l, i + r.1)
    } else {
        seq![l[i as int]] + pass_b_from(l, i + 1)
    }
}

#[via_fn]
proof fn pass_b_from_dec(l: Seq<LirOp>, i: nat) {
    if i < l.len() && l[i as int] is BrFor && spec_try_opt_lir(l, i) is Some {
        lemma_next_br_lir_range(l, i + 1);
    }
}

/// Both lowering passes, as the generator applies them.
pub open spec fn spec_gen_ir(h: Seq<HirOp>) -> Seq<LirOp> {
    pass_b_from(pass_a_from(h, 0), 0)
}

fn next_br_hir_exec(hir: &[HirOp], p: usize) -> (r: Option<usize>)
    requires
        p <= hir@.len(),
    ensures
        match r {
            Some(e) => next_br_hir(hir@, p as nat) == Some(e as nat) && p <= e < hir@.len(),
            None => next_br_hir(hir@, p as nat) is None,
        },
{
    let mut q: usize = p;
    while q < hir.len()
        invariant
            p <= q <= hir@.len(),
            next_br_hir(hir@, p as nat) == next_br_hir(hir@, q as nat),
        decreases hir@.len() - q,
    {
        if matches!(hir[q], HirOp::BrFor | HirOp::BrBack) {
            return Some(q);
        }
        q = q + 1;
    }
    None
}

/// Recognize a simple loop at `i` in the high-level form; a recognized loop
/// is consumed whole, brackets included.
fn try_opt_simple_hir_loop(hir: &[HirOp], i: usize) -> (r: Option<(LirOp, usize)>)
    requires
        i < hir@.len(),
        hir@[i as int] is BrFor,
    ensures
        match r {
            Some(p) => spec_try_opt_hir(hir@, i as nat) == Some((p.0, p.1 as nat)) && i + p.1
                <= hir@.len() && p.1 >= 1,
            None => spec_try_opt_hir(hir@, i as nat) is None,
        },
{
    proof {
        assert(hir@.len() <= usize::MAX) by {
            assert(hir.len() == hir@.len());
        }
    }
    let e: usize = match next_br_hir_exec(hir, i + 1) {
        Some(e) => e,
        None => {
            return None;
        },
    };
    if matches!(hir[e], HirOp::BrFor) {
        return None;
    }
    let ghost body = hir@.subrange(i + 1 as int, e as int);
    let body_len: usize = e - (i + 1);
    if body_len == 1 {
        proof {
            assert(body[0] == hir@[i + 1]);
        }
        match hir[i + 1] {
            HirOp::Modify(_) => Some((LirOp::WriteZero, e + 1 - i)),
            HirOp::Move(d) => Some((LirOp::Hop(d), e + 1 - i)),
            _ => None,
        }
    } else if body_len == 4 {
        proof {
            assert(body[0] == hir@[i + 1]);
            assert(body[1] == hir@[i + 2]);
            assert(body[2] == hir@[i + 3]);
            assert(body[3] == hir@[i + 4]);
        }
        match (hir[i + 1], hir[i + 2], hir[i + 3], hir[i + 4]) {
            (HirOp::Modify(a), HirOp::Move(d), HirOp::Modify(b), HirOp::Move(nd)) => {
                if a == -1 && b == 1 && d != 0 && (d as i128) + (nd as i128) == 0 {
                    Some((LirOp::MoveCell(d), e + 1 - i))
                } else {
                    None
                }
            },
            _ => None,
        }
    } else {
        None
    }
}

/// Rewrite the simple loop at `i` in the low-level form as a balanced
/// offset block, when its body is all moves and plain modifies.
#[verifier::loop_isolation(false)]
fn try_opt_simple_lir_loop(lir: &[LirOp], i: usize) -> (r: Option<(Vec<LirOp>, usize)>)
    requires
        i < lir@.len(),
        lir@[i as int] is BrFor,
    ensures
        match r {
            Some(p) => spec_try_opt_lir(lir@, i as nat) matches Some(q) && q.0 == p.0@ && q.1
                == p.1 as nat && i + p.1 <= lir@.len() && p.1 >= 1,
            None => spec_try_opt_lir(lir@, i as nat) is None,
        },
{
    proof {
        assert(lir@.len() <= usize::MAX) by {
            assert(lir.len() == lir@.len());
        }
    }
    let e: usize = match next_br_lir_exec(lir, i + 1) {
        Some(e) => e,
        None => {
            return None;
        },
    };
    if matches!(lir[e], LirOp::BrFor) {
        return None;
    }
    let ghost body = lir@.subrange(i + 1 as int, e as int);
    let mut acc: i128 = 0;
    let mut sets: Vec<LirOp> = Vec::new();
    let mut q: usize = i + 1;
    while q < e
        invariant
            i + 1 <= q <= e < lir@.len(),
            body == lir@.subrange(i + 1 as int, e as int),
            acc == drift_to(body, (q - i - 1) as nat),
            isize::MIN <= acc <= isize::MAX,
            forall|k: int| 0 <= k < q - i - 1 ==> flat_op(#[trigger] body[k]),
            forall|k: nat| k <= q - i - 1 ==> fits_isize(#[trigger] drift_to(body, k)),
            rewrite_sets(body, 0) == sets@ + rewrite_sets(body, (q - i - 1) as nat),
        decreases e - q,
    {
        let ghost m: nat = (q - i - 1) as nat;
        proof {
            assert(body[m as int] == lir@[q as int]);
        }
        match lir[q] {
            LirOp::Move(d) => {
                acc = acc + d as i128;
                proof {
                    assert(drift_to(body, m + 1) == acc);
                }
                if acc > isize::MAX as i128 || acc < isize::MIN as i128 {
                    proof {
                        assert(!fits_isize(drift_to(body, m + 1)));
                        assert(!offsets_fit(body));
                    }
                    return None;
                }
                proof {
                    assert(rewrite_sets(body, 0) =~= sets@ + rewrite_sets(body, m + 1));
                }
            },
            LirOp::OffsetModify(d, off) => {
                if off != 0 {
                    proof {
                        assert(!flat_op(body[m as int]));
                        assert(!body_flat(body));
                    }
                    return None;
                }
                sets.push(LirOp::OffsetModify(d, acc as isize));
                proof {
                    assert(drift_to(body, m + 1) == acc);
                    assert(rewrite_sets(body, 0) =~= sets@ + rewrite_sets(body, m + 1));
                }
            },
            _ => {
                proof {
                    assert(!flat_op(body[m as int]));
                    assert(!body_flat(body));
                }
                return None;
            },
        }
        q = q + 1;
    }
    proof {
        assert(body.len() == e - i - 1);
        assert(body_flat(body));
        assert(offsets_fit(body)) by {
            assert(forall|k: nat| k <= body.len() ==> fits_isize(#[trigger] drift_to(body, k)));
        }
        assert(rewrite_sets(body, (e - i - 1) as nat) =~= Seq::<LirOp>::empty());
        assert(rewrite_sets(body, 0) =~= sets@);
    }
    let mut result: Vec<LirOp> = Vec::new();
    result.push(LirOp::BrFor);
    result.append(&mut sets);
    if acc != 0 {
        result.push(LirOp::Move(acc as isize));
    }
    result.push(LirOp::BrBack);
    proof {
        assert(result@ =~= seq![LirOp::BrFor] + rewrite_body(body) + seq![LirOp::BrBack]);
    }
    Some((result, e + 1 - i))
}

fn next_br_lir_exec(lir: &[LirOp], p: usize) -> (r: Option<usize>)
    requires
        p <= lir@.len(),
    ensures
        match r {
            Some(e) => next_br_lir(lir@, p as nat) == Some(e as nat) && p <= e < lir@.len(),
            None => next_br_lir(lir@, p as nat) is None,
        },
{
    let mut q: usize = p;
    while q < lir.len()
        invariant
            p <= q <= lir@.len(),
            next_br_lir(lir@, p as nat) == next_br_lir(lir@, q as nat),
        decreases lir@.len() - q,
    {
        if matches!(lir[q], LirOp::BrFor | LirOp::BrBack) {
            return Some(q);
        }
        q = q + 1;
    }
    None
}

fn lir_of_hir_exec(op: HirOp) -> (r: LirOp)
    ensures
        r == lir_of_hir(op),
{
    match op {
        HirOp::Modify(d) => LirOp::OffsetModify(d, 0),
        HirOp::Move(d) => LirOp::Move(d),
        HirOp::In => LirOp::In,
        HirOp::Out => LirOp::Out,
        HirOp::BrFor => LirOp::BrFor,
        HirOp::BrBack => LirOp::BrBack,
    }
}

pub struct LirGen;

impl LirGen {
    /// Lower the high-level form to the low-level form: recognize loop
    /// idioms, then rewrite balanced simple loops as offset blocks.
    pub fn gen_ir(hir: &[HirOp]) -> (r: Vec<LirOp>)
        ensures
            r@ == spec_gen_ir(hir@),
    {
        let mut lir: Vec<LirOp> = Vec::new();
        let mut pos: usize = 0;
        while pos < hir.len()
            invariant
                pos <= hir@.len(),
                pass_a_from(hir@, 0) == lir@ + pass_a_from(hir@, pos as nat),
            decreases hir@.len() - pos,
        {
            let op: HirOp = hir[pos];
            if matches!(op, HirOp::BrFor) {
                match try_opt_simple_hir_loop(hir, pos) {
                    Some((lop, k)) => {
                        lir.push(lop);
                        pos = pos + k;
                    },
                    None => {
                        lir.push(LirOp::BrFor);
                        pos = pos + 1;
                    },
                }
            } else {
                lir.push(lir_of_hir_exec(op));
                pos = pos + 1;
            }
            proof {
                assert(pass_a_from(hir@, 0) =~= lir@ + pass_a_from(hir@, pos as nat));
            }
        }
        proof {
            assert(pass_a_from(hir@, 0) =~= lir@);
        }
        let mut lir2: Vec<LirOp> = Vec::new();
        let mut pos2: usize = 0;
        while pos2 < lir.len()
            invariant
                pos2 <= lir@.len(),
                lir@ == pass_a_from(hir@, 0),
                pass_b_from(lir@, 0) == lir2@ + pass_b_from(lir@, pos2 as nat),
            decreases lir@.len() - pos2,
        {
            let op: LirOp = lir[pos2];
            if matches!(op, LirOp::BrFor) {
                match try_opt_simple_lir_loop(lir.as_slice(), pos2) {
                    Some((mut ops, k)) => {
                        lir2.append(&mut ops);
                        pos2 = pos2 + k;
                    },
                    None => {
                        lir2.push(LirOp::BrFor);
                        pos2 = pos2 + 1;
                    },
                }
            } else {
                lir2.push(op);
                pos2 = pos2 + 1;
            }
            proof {
                assert(pass_b_from(lir@, 0) =~= lir2@ + pass_b_from(lir@, pos2 as nat));
            }
        }
        proof {
            assert(pass_b_from(lir@, 0) =~= lir2@);
        }
        lir2
    }
}

/// What a straight-line body does to the tape and the cursor, one operation
/// at a time from `k` on: moves wrap the cursor, offset modifies add into
/// the addressed cell modulo 256, and any other operation is out of scope
/// here and left inert.
pub open spec fn lir_apply(body: Seq<LirOp>, k: nat, cells: Seq<u8>, pos: usize) -> (Seq<u8>, usize)
    decreases body.len() - k,
{
    if k >= body.len() {
        (cells, pos)
    } else {
        match body[k as int] {
            LirOp::Move(d) => lir_apply(body, k + 1, cells, pos_wrap(pos, d as int)),
            LirOp::OffsetModify(d, off) => lir_apply(
                body,
                k + 1,
                tape_write(
                    cells,
                    pos_wrap(pos, off as int) as nat,
                    cell_add(tape_read(cells, pos_wrap(pos, off as int) as nat), d as int),
                ),
                pos,
            ),
            _ => lir_apply(body, k + 1, cells, pos),
        }
    }
}

proof fn lemma_apply_cons(h: LirOp, t: Seq<LirOp>, k: nat, cells: Seq<u8>, pos: usize)
    ensures
        lir_apply(seq![h] + t, k + 1, cells, pos) == lir_apply(t, k, cells, pos),
    decreases t.len() - k,
{
    let s = seq![h] + t;
    if k >= t.len() {
        assert(k + 1 >= s.len());
    } else {
        assert(s[k + 1 as int] == t[k as int]);
        match t[k as int] {
            LirOp::Move(d) => {
                lemma_apply_cons(h, t, k + 1, cells, pos_wrap(pos, d as int));
            },
            LirOp::OffsetModify(d, off) => {
                lemma_apply_cons(
                    h,
                    t,
                    k + 1,
                    tape_write(
                        cells,
                        pos_wrap(pos, off as int) as nat,
                        cell_add(tape_read(cells, pos_wrap(pos, off as int) as nat), d as int),
                    ),
                    pos,
                );
            },
            _ => {
                lemma_apply_cons(h, t, k + 1, cells, pos);
            },
        }
    }
}

proof fn lemma_rewrite_preserves(body: Seq<LirOp>, k: nat, cells: Seq<u8>, pos: usize)
    requires
        body_flat(body),
        offsets_fit(body),
        k <= body.len(),
    ensures
        lir_apply(body, k, cells, crate::state::pos_wrap(pos, drift_to(body, k))) == lir_apply(
            rewrite_sets(body, k) + fixup(body),
            0,
            cells,
            pos,
        ),
    decreases body.len() - k,
{
    let p_k = pos_wrap(pos, drift_to(body, k));
    if k >= body.len() {
        assert(rewrite_sets(body, k) + fixup(body) =~= fixup(body));
        let total = drift_to(body, body.len());
        if total != 0 {
            assert(fixup(body) == seq![LirOp::Move(total as isize)]);
            assert(fixup(body)[0] == LirOp::Move(total as isize));
            assert(fits_isize(total));
            assert(lir_apply(fixup(body), 0, cells, pos) == lir_apply(
                fixup(body),
                1,
                cells,
                pos_wrap(pos, total),
            ));
        } else {
            crate::state::lemma_pos_wrap_zero(pos);
            assert(fixup(body) =~= Seq::<LirOp>::empty());
        }
    } else {
        assert(flat_op(body[k as int]));
        match body[k as int] {
            LirOp::Move(d) => {
                assert(drift_to(body, k + 1) == drift_to(body, k) + d);
                crate::state::lemma_pos_wrap_compose(pos, drift_to(body, k), d as int);
                lemma_rewrite_preserves(body, k + 1, cells, pos);
                assert(rewrite_sets(body, k) == rewrite_sets(body, k + 1));
            },
            LirOp::OffsetModify(d, off) => {
                assert(off == 0);
                crate::state::lemma_pos_wrap_zero(p_k);
                assert(drift_to(body, k + 1) == drift_to(body, k));
                let cells2 = tape_write(
                    cells,
                    p_k as nat,
                    cell_add(tape_read(cells, p_k as nat), d as int),
                );
                assert(lir_apply(body, k, cells, p_k) == lir_apply(body, k + 1, cells2, p_k));
                lemma_rewrite_preserves(body, k + 1, cells2, pos);
                let head = LirOp::OffsetModify(d, drift_to(body, k) as isize);
                let tail = rewrite_sets(body, k + 1) + fixup(body);
                assert(rewrite_sets(body, k) + fixup(body) =~= seq![head] + tail);
                assert(fits_isize(drift_to(body, k)));
                assert((seq![head] + tail)[0] == head);
                assert(lir_apply(seq![head] + tail, 0, cells, pos) == lir_apply(
                    seq![head] + tail,
                    1,
                    cells2,
                    pos,
                ));
                lemma_apply_cons(head, tail, 0, cells2, pos);
            },
            _ => {
                assert(false);
            },
        }
    }
}

/// One pass of a loop body and one pass of its balanced-offset rewrite do
/// the same thing to the tape and the cursor. In particular the cell the
/// loop brackets test evolves identically, so the rewritten loop iterates
/// exactly as often as the original.
pub proof fn lemma_pass_b_body_equiv(body: Seq<LirOp>, cells: Seq<u8>, pos: usize)
    requires
        body_flat(body),
        offsets_fit(body),
    ensures
        lir_apply(rewrite_body(body), 0, cells, pos) == lir_apply(body, 0, cells, pos),
{
    crate::state::lemma_pos_wrap_zero(pos);
    lemma_rewrite_preserves(body, 0, cells, pos);
}

/// How each operation of the low-level form counts for bracket matching.
pub open spec fn br_of_lir(op: LirOp) -> Br {
    match op {
        LirOp::BrFor => Br::Open,
        LirOp::BrBack => Br::Close,
        _ => Br::Other,
    }
}

pub open spec fn lir_brs(prog: Seq<LirOp>) -> Seq<Br> {
    Seq::new(prog.len(), |i: int| br_of_lir(prog[i]))
}

fn lir_brs_exec(program: &[LirOp]) -> (r: Vec<Br>)
    ensures
        r@ == lir_brs(program@),
{
    let mut r: Vec<Br> = Vec::new();
    let mut i: usize = 0;
    while i < program.len()
        invariant
            i <= program@.len(),
            r@ == lir_brs(program@).subrange(0, i as int),
        decreases program@.len() - i,
    {
        let b: Br = match program[i] {
            LirOp::BrFor => Br::Open,
            LirOp::BrBack => Br::Close,
            _ => Br::Other,
        };
        r.push(b);
        proof {
            assert(r@ =~= lir_brs(program@).subrange(0, i + 1));
        }
        i = i + 1;
    }
    proof {
        assert(lir_brs(program@).subrange(0, program@.len() as int) =~= lir_brs(program@));
    }
    r
}

/// One step of the low-level machine: deltas are applied modulo 256 at the
/// addressed cell, moves and hops wrap on the position word, cell transfers
/// carry the cell modulo 256, and brackets jump through the branch table.
pub open spec fn lir_step(prog: Seq<LirOp>, input: Seq<u8>, c: ExecConfig) -> Step {
    let table = spec_table(lir_brs(prog));
    if c.pc >= prog.len() {
        Step::Done(c)
    } else {
        match prog[c.pc as int] {
            LirOp::OffsetModify(d, off) => if pos_wrap(c.pos, off as int) == usize::MAX {
                Step::Fail(ExecError::PositionOverflow(c.pc as usize))
            } else {
                Step::Go(
                    ExecConfig {
                        cells: tape_write(
                            c.cells,
                            pos_wrap(c.pos, off as int) as nat,
                            cell_add(
                                tape_read(c.cells, pos_wrap(c.pos, off as int) as nat),
                                d as int,
                            ),
                        ),
                        pc: c.pc + 1,
                        ..c
                    },
                )
            },
            LirOp::Move(d) => Step::Go(
                ExecConfig { pos: pos_wrap(c.pos, d as int), pc: c.pc + 1, ..c },
            ),
            LirOp::WriteZero => if c.pos == usize::MAX {
                Step::Fail(ExecError::PositionOverflow(c.pc as usize))
            } else {
                Step::Go(
                    ExecConfig { cells: tape_write(c.cells, c.pos as nat, 0), pc: c.pc + 1, ..c },
                )
            },
            LirOp::Hop(stride) => if tape_read(c.cells, c.pos as nat) != 0 {
                Step::Go(ExecConfig { pos: pos_wrap(c.pos, stride as int), ..c })
            } else {
                Step::Go(ExecConfig { pc: c.pc + 1, ..c })
            },
            LirOp::MoveCell(off) => if tape_read(c.cells, c.pos as nat) == 0 {
                Step::Go(ExecConfig { pc: c.pc + 1, ..c })
            } else if pos_wrap(c.pos, off as int) == usize::MAX {
                Step::Fail(ExecError::PositionOverflow(c.pc as usize))
            } else {
                Step::Go(
                    ExecConfig {
                        cells: tape_write(
                            tape_write(
                                c.cells,
                                pos_wrap(c.pos, off as int) as nat,
                                cell_add(
                                    tape_read(c.cells, pos_wrap(c.pos, off as int) as nat),
                                    tape_read(c.cells, c.pos as nat) as int,
                                ),
                            ),
                            c.pos as nat,
                            0,
                        ),
                        pc: c.pc + 1,
                        ..c
                    },
                )
            },
            LirOp::Out => Step::Go(
                ExecConfig { out: c.out.push(tape_read(c.cells, c.pos as nat)), pc: c.pc + 1, ..c },
            ),
            LirOp::In => if c.in_pos >= input.len() {
                Step::Fail(ExecError::InputExhausted)
            } else if c.pos == usize::MAX {
                Step::Fail(ExecError::PositionOverflow(c.pc as usize))
            } else {
                Step::Go(
                    ExecConfig {
                        cells: tape_write(c.cells, c.pos as nat, input[c.in_pos as int]),
                        in_pos: c.in_pos + 1,
                        pc: c.pc + 1,
                        ..c
                    },
                )
            },
            LirOp::BrFor => if tape_read(c.cells, c.pos as nat) == 0 {
                Step::Go(ExecConfig { pc: (table[c.pc as int] + 1) as nat, ..c })
            } else {
                Step::Go(ExecConfig { pc: c.pc + 1, ..c })
            },
            LirOp::BrBack => if tape_read(c.cells, c.pos as nat) != 0 {
                Step::Go(ExecConfig { pc: (table[c.pc as int] + 1) as nat, ..c })
            } else {
                Step::Go(ExecConfig { pc: c.pc + 1, ..c })
            },
            LirOp::Meta(_) => Step::Go(ExecConfig { pc: c.pc + 1, ..c }),
        }
    }
}

/// The low-level machine after `n` steps from the initial configuration.
pub open spec fn lir_run(prog: Seq<LirOp>, input: Seq<u8>, n: nat) -> Step
    decreases n,
{
    if n == 0 {
        Step::Go(init_config())
    } else {
        match lir_run(prog, input, (n - 1) as nat) {
            Step::Go(c) => lir_step(prog, input, c),
            r => r,
        }
    }
}

/// Once the low-level machine has finished or failed, more steps change nothing.
pub proof fn lemma_lir_run_stable(prog: Seq<LirOp>, input: Seq<u8>, m: nat, n: nat)
    requires
        m <= n,
        !(lir_run(prog, input, m) is Go),
    ensures
        lir_run(prog, input, n) == lir_run(prog, input, m),
    decreases n,
{
    if n > m {
        lemma_lir_run_stable(prog, input, m, (n - 1) as nat);
    }
}

pub struct LirInterpreter;

impl LirInterpreter {
    /// Build the branch table for the low-level form; the first `[` without
    /// a matching `]` is a fatal malformed-program error.
    pub(crate) fn gen_branch_table(program: &[LirOp]) -> (r: Result<Vec<usize>, ExecError>)
        ensures
            r matches Ok(t) ==> t@ == spec_table(lir_brs(program@)) && all_opens_matched(
                lir_brs(program@),
            ),
            r matches Err(e) ==> !all_opens_matched(lir_brs(program@)) && (
            e matches ExecError::UnmatchedOpen(k) && is_open(lir_brs(program@), k as nat) && mtch(
                lir_brs(program@),
                k as nat,
            ) is None && (forall|k2: nat|
                k2 < k && is_open(lir_brs(program@), k2) ==> (#[trigger] mtch(
                    lir_brs(program@),
                    k2,
                )) is Some)),
    {
        let brs: Vec<Br> = lir_brs_exec(program);
        build_table(brs.as_slice())
    }

    /// Walk the low-level form with a precomputed branch table. `input`
    /// serves the `In` instructions; the bytes the program writes come back
    /// in order. At most `fuel` machine steps are taken, a hop counting one
    /// step per stride; the step budget ran out exactly when `StepLimit`
    /// comes back.
    pub fn execute(program: &[LirOp], input: &[u8], fuel: u64) -> (r: Result<Vec<u8>, ExecError>)
        ensures
            all_opens_matched(lir_brs(program@)) ==> match lir_run(program@, input@, fuel as nat) {
                Step::Done(c) => r matches Ok(out) && out@ == c.out,
                Step::Fail(e) => r == Err::<Vec<u8>, ExecError>(e),
                Step::Go(_) => r == Err::<Vec<u8>, ExecError>(ExecError::StepLimit),
            },
            !all_opens_matched(lir_brs(program@)) ==> (r matches Err(e)
                && e matches ExecError::UnmatchedOpen(k) && is_open(lir_brs(program@), k as nat)
                && mtch(lir_brs(program@), k as nat) is None && (forall|k2: nat|
                k2 < k && is_open(lir_brs(program@), k2) ==> (#[trigger] mtch(
                    lir_brs(program@),
                    k2,
                )) is Some)),
    {
        let table: Vec<usize> = match Self::gen_branch_table(program) {
            Ok(t) => t,
            Err(e) => {
                return Err(e);
            },
        };
        let ghost brs = lir_brs(program@);
        let mut state = BrainfuckState::new();
        let mut pc: usize = 0;
        let mut in_pos: usize = 0;
        let mut out: Vec<u8> = Vec::new();
        let mut left: u64 = fuel;
        proof {
            assert(live_config(state, pc as nat, in_pos as nat, out@) =~= init_config());
        }
        while left > 0
            invariant
                left <= fuel,
                pc <= program@.len(),
                in_pos <= input@.len(),
                table@ == spec_table(brs),
                table@.len() == program@.len(),
                brs == lir_brs(program@),
                all_opens_matched(brs),
                lir_run(program@, input@, (fuel - left) as nat) == Step::Go(
                    live_config(state, pc as nat, in_pos as nat, out@),
                ),
            decreases left,
        {
            let ghost n: nat = (fuel - left) as nat;
            left = left - 1;
            if pc >= program.len() {
                proof {
                    lemma_lir_run_stable(program@, input@, n + 1, fuel as nat);
                }
                return Ok(out);
            }
            match program[pc] {
                LirOp::OffsetModify(d, off) => {
                    let target: usize = pos_wrap_exec(state.pos, off);
                    if target == usize::MAX {
                        proof {
                            lemma_lir_run_stable(program@, input@, n + 1, fuel as nat);
                        }
                        return Err(ExecError::PositionOverflow(pc));
                    }
                    let cur: u8 = state.read_cell(target);
                    let v: u8 = cell_add_exec(cur, d);
                    state.set_cell(v, target);
                    pc = pc + 1;
                },
                LirOp::Move(d) => {
                    state.pos = pos_wrap_exec(state.pos, d);
                    pc = pc + 1;
                },
                LirOp::WriteZero => {
                    if state.pos == usize::MAX {
                        proof {
                            lemma_lir_run_stable(program@, input@, n + 1, fuel as nat);
                        }
                        return Err(ExecError::PositionOverflow(pc));
                    }
                    state.set_cur_cell(0);
                    pc = pc + 1;
                },
                LirOp::Hop(stride) => {
                    if state.read_cur_cell() != 0 {
                        state.pos = pos_wrap_exec(state.pos, stride);
                    } else {
                        pc = pc + 1;
                    }
                },
                LirOp::MoveCell(off) => {
                    let cur: u8 = state.read_cur_cell();
                    if cur != 0 {
                        let target: usize = pos_wrap_exec(state.pos, off);
                        if target == usize::MAX {
                            proof {
                                lemma_lir_run_stable(program@, input@, n + 1, fuel as nat);
                            }
                            return Err(ExecError::PositionOverflow(pc));
                        }
                        let tv: u8 = state.read_cell(target);
                        let sum: u8 = cell_add_exec(tv, cur as isize);
                        state.set_cell(sum, target);
                        proof {
                            assert(state.pos < state.cells@.len());
                            assert(state.cells@.len() <= usize::MAX) by {
                                assert(state.cells.len() == state.cells@.len());
                            }
                        }
                        state.set_cur_cell(0);
                    }
                    pc = pc + 1;
                },
                LirOp::Out => {
                    out.push(state.read_cur_cell());
                    pc = pc + 1;
                },
                LirOp::In => {
                    if in_pos >= input.len() {
                        proof {
                            lemma_lir_run_stable(program@, input@, n + 1, fuel as nat);
                        }
                        return Err(ExecError::InputExhausted);
                    }
                    if state.pos == usize::MAX {
                        proof {
                            lemma_lir_run_stable(program@, input@, n + 1, fuel as nat);
                        }
                        return Err(ExecError::PositionOverflow(pc));
                    }
                    state.set_cur_cell(input[in_pos]);
                    in_pos = in_pos + 1;
                    pc = pc + 1;
                },
                LirOp::BrFor => {
                    proof {
                        crate::brackets::lemma_table_entry_in_bounds(brs, pc as nat);
                    }
                    if state.read_cur_cell() == 0 {
                        pc = table[pc] + 1;
                    } else {
                        pc = pc + 1;
                    }
                },
                LirOp::BrBack => {
                    proof {
                        crate::brackets::lemma_table_entry_in_bounds(brs, pc as nat);
                    }
                    if state.read_cur_cell() != 0 {
                        pc = table[pc] + 1;
                    } else {
                        pc = pc + 1;
                    }
                },
                LirOp::Meta(_) => {
                    pc = pc + 1;
                },
            }
            proof {
                assert(lir_run(program@, input@, n + 1) == Step::Go(
                    live_config(state, pc as nat, in_pos as nat, out@),
                ));
            }
        }
        Err(ExecError::StepLimit)
    }
}

} // verus!
