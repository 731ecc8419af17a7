use vstd::prelude::*;
use vstd::arithmetic::div_mod::{
    lemma_add_mod_noop, lemma_add_mod_noop_right, lemma_mod_add_multiples_vanish, lemma_mod_bound,
    lemma_small_mod,
};

verus! {

/// The value of cell `i` on a lazily grown tape: cells past the end of the
/// backing store have never been written, so they read as zero.
pub open spec fn tape_read(cells: Seq<u8>, i: nat) -> u8 {
    if i < cells.len() {
        cells[i as int]
    } else {
        0
    }
}

/// The tape after writing `v` at index `i`: writes past the end extend the
/// backing store with zeros up to `i`.
pub open spec fn tape_write(cells: Seq<u8>, i: nat, v: u8) -> Seq<u8> {
    if i < cells.len() {
        cells.update(i as int, v)
    } else {
        (cells + Seq::new((i + 1 - cells.len()) as nat, |j: int| 0u8)).update(i as int, v)
    }
}

/// Cells are 8-bit: adding `delta` wraps modulo 256.
pub open spec fn cell_add(c: u8, delta: int) -> u8 {
    ((c + delta) % 256) as u8
}

/// Positions are machine words: adding `delta` wraps on the word.
pub open spec fn pos_wrap(p: usize, delta: int) -> usize {
    (((p + delta) % (usize::MAX as int + 1))) as usize
}

/// Wrapping position arithmetic composes: two wrapped adds are one wrapped
/// add of the sum.
pub proof fn lemma_pos_wrap_compose(p: usize, a: int, b: int)
    ensures
        pos_wrap(pos_wrap(p, a), b) == pos_wrap(p, a + b),
{
    let m: int = usize::MAX as int + 1;
    lemma_mod_bound(p + a, m);
    lemma_add_mod_noop(p + a, b, m);
    lemma_add_mod_noop_right((p + a) % m, b, m);
}

/// Wrapping a position by zero leaves it in place.
pub proof fn lemma_pos_wrap_zero(p: usize)
    ensures
        pos_wrap(p, 0) == p,
{
    lemma_small_mod(p as nat, (usize::MAX as int + 1) as nat);
}

/// Adding two deltas to a cell one after the other adds their sum.
pub proof fn lemma_cell_add_add(c: u8, a: int, b: int)
    ensures
        cell_add(cell_add(c, a), b) == cell_add(c, a + b),
{
    lemma_mod_bound(c + a, 256);
    lemma_add_mod_noop(c + a, b, 256);
    lemma_add_mod_noop_right((c + a) % 256, b, 256);
}

/// A sequence of deltas applied to a cell, first to last.
pub open spec fn apply_deltas(c: u8, ds: Seq<int>) -> u8
    decreases ds.len(),
{
    if ds.len() == 0 {
        c
    } else {
        apply_deltas(cell_add(c, ds[0]), ds.drop_first())
    }
}

pub open spec fn sum_deltas(ds: Seq<int>) -> int
    decreases ds.len(),
{
    if ds.len() == 0 {
        0
    } else {
        ds[0] + sum_deltas(ds.drop_first())
    }
}

/// A cell is the modulo-256 sum of every delta applied to it: applying the
/// deltas one by one leaves the same byte as one wrapped add of their sum.
pub proof fn lemma_cell_accumulates(c: u8, ds: Seq<int>)
    ensures
        apply_deltas(c, ds) == cell_add(c, sum_deltas(ds)),
    decreases ds.len(),
{
    if ds.len() == 0 {
        lemma_small_mod(c as nat, 256);
    } else {
        lemma_cell_accumulates(cell_add(c, ds[0]), ds.drop_first());
        lemma_cell_add_add(c, ds[0], sum_deltas(ds.drop_first()));
    }
}

/// Two writes at the same index collapse to the second.
pub proof fn lemma_tape_write_write(cells: Seq<u8>, i: nat, v1: u8, v2: u8)
    ensures
        tape_write(tape_write(cells, i, v1), i, v2) == tape_write(cells, i, v2),
{
    assert(tape_write(tape_write(cells, i, v1), i, v2) =~= tape_write(cells, i, v2));
}

/// A wrapped add whose exact result is a machine position is that result.
pub proof fn lemma_pos_wrap_in_range(p: usize, d: int)
    requires
        0 <= p + d <= usize::MAX,
    ensures
        pos_wrap(p, d) == p + d,
{
    lemma_small_mod((p + d) as nat, (usize::MAX as int + 1) as nat);
}

/// A write is read back at its own index and changes no other cell.
pub proof fn lemma_tape_write_read(cells: Seq<u8>, i: nat, v: u8, j: nat)
    ensures
        tape_read(tape_write(cells, i, v), j) == if i == j {
            v
        } else {
            tape_read(cells, j)
        },
{
}

/// Writing keeps the store at least as long as before and long enough to hold `i`.
pub proof fn lemma_tape_write_len(cells: Seq<u8>, i: nat, v: u8)
    ensures
        tape_write(cells, i, v).len() == if i < cells.len() {
            cells.len()
        } else {
            i + 1
        },
{
}

/// The modulo-256 residue of a signed delta, as a byte.
fn delta_mod(delta: isize) -> (d: u8)
    ensures
        d as int == (delta as int) % 256,
{
    if delta >= 0 {
        (delta % 256) as u8
    } else {
        let m: i128 = (-(delta as i128)) % 256;
        proof {
            let di = delta as int;
            assert(m == (-di) % 256);
            assert(0 <= m < 256);
            assert((256 - m) % 256 == di % 256) by {
                lemma_add_mod_noop(m as int, 256 - m, 256);
                lemma_small_mod((if m == 0 { 0int } else { 256 - m }) as nat, 256);
                lemma_mod_add_multiples_vanish(di, 256);
                assert((m + di) % 256 == 0) by {
                    if m == 0 {
                        assert(di % 256 == 0);
                    } else {
                        assert(di + m == -((-di) / 256 * 256) + (di + ((-di) / 256 * 256) + m));
                        assert((-di) == (-di) / 256 * 256 + m);
                    }
                }
            }
        }
        ((256 - m) % 256) as u8
    }
}

/// Exec form of `cell_add`: wrapping add of a signed delta into a byte.
pub fn cell_add_exec(c: u8, delta: isize) -> (r: u8)
    ensures
        r == cell_add(c, delta as int),
{
    let d: u8 = delta_mod(delta);
    let s: u16 = c as u16 + d as u16;
    proof {
        lemma_add_mod_noop(c as int, delta as int, 256);
        lemma_small_mod(c as nat, 256);
        lemma_small_mod((s % 256) as nat, 256);
    }
    (s % 256) as u8
}

/// Exec form of `pos_wrap`: wrapping add of a signed delta into a position word.
pub fn pos_wrap_exec(p: usize, delta: isize) -> (r: usize)
    ensures
        r == pos_wrap(p, delta as int),
{
    let r: usize = p.wrapping_add_signed(delta);
    proof {
        let range: int = usize::MAX as int + 1;
        let x: int = p + delta;
        if x > usize::MAX as int {
            lemma_mod_add_multiples_vanish(x - range, range);
            lemma_small_mod((x - range) as nat, range as nat);
        } else if x < 0 {
            lemma_mod_add_multiples_vanish(x, range);
            lemma_small_mod((x + range) as nat, range as nat);
        } else {
            lemma_small_mod(x as nat, range as nat);
        }
    }
    r
}

/// Everything an interpreter carries while a program runs: the tape, the
/// cursor, the program counter, how much input was consumed, and the output
/// written so far.
pub ghost struct ExecConfig {
    pub cells: Seq<u8>,
    pub pos: usize,
    pub pc: nat,
    pub in_pos: nat,
    pub out: Seq<u8>,
}

/// The outcome of stepping a machine: still running, cleanly finished, or
/// stopped by a fatal error.
pub ghost enum Step {
    Go(ExecConfig),
    Done(ExecConfig),
    Fail(crate::ExecError),
}

/// The configuration every interpreter starts from: empty tape, cursor at
/// the origin, nothing read or written.
pub open spec fn init_config() -> ExecConfig {
    ExecConfig { cells: Seq::empty(), pos: 0, pc: 0, in_pos: 0, out: Seq::empty() }
}

/// The configuration of a live interpreter, assembled from its parts.
pub open spec fn live_config(s: BrainfuckState, pc: nat, in_pos: nat, out: Seq<u8>) -> ExecConfig {
    ExecConfig { cells: s.cells@, pos: s.pos, pc: pc, in_pos: in_pos, out: out }
}

/// The tape of an executing program: a lazily grown store of 8-bit cells and
/// a position cursor.
#[derive(Debug)]
pub struct BrainfuckState {
    pub cells: Vec<u8>,
    pub pos: usize,
}

impl BrainfuckState {
    /// A fresh tape: no cell written yet, cursor at the origin.
    pub fn new() -> (s: Self)
        ensures
            s.cells@ == Seq::<u8>::empty(),
            s.pos == 0,
    {
        BrainfuckState { cells: Vec::new(), pos: 0 }
    }

    /// Read cell `i`; a cell beyond the store cannot have been written, so it is zero.
    pub fn read_cell(&self, i: usize) -> (r: u8)
        ensures
            r == tape_read(self.cells@, i as nat),
    {
        if i < self.cells.len() {
            self.cells[i]
        } else {
            0
        }
    }

    /// Read the cell under the cursor.
    pub fn read_cur_cell(&self) -> (r: u8)
        ensures
            r == tape_read(self.cells@, self.pos as nat),
    {
        self.read_cell(self.pos)
    }

    /// Extend the store with zeros so that index `i` is backed.
    fn grow_to(&mut self, i: usize)
        requires
            i < usize::MAX,
        ensures
            final(self).pos == old(self).pos,
            final(self).cells@.len() > i,
            final(self).cells@.len() == if i < old(self).cells@.len() {
                old(self).cells@.len() as int
            } else {
                i + 1
            },
            forall|k: int|
                0 <= k < old(self).cells@.len() ==> final(self).cells@[k] == old(self).cells@[k],
            forall|k: int|
                old(self).cells@.len() <= k < final(self).cells@.len() ==> final(self).cells@[k]
                    == 0,
    {
        while self.cells.len() <= i
            invariant
                self.pos == old(self).pos,
                i < usize::MAX,
                self.cells@.len() >= old(self).cells@.len(),
                self.cells@.len() == old(self).cells@.len() || self.cells@.len() <= i + 1,
                forall|k: int|
                    0 <= k < old(self).cells@.len() ==> self.cells@[k] == old(self).cells@[k],
                forall|k: int|
                    old(self).cells@.len() <= k < self.cells@.len() ==> self.cells@[k] == 0,
            decreases i + 1 - self.cells@.len(),
        {
            self.cells.push(0);
        }
    }

    /// Write `val` at index `i`, extending the store with zeros when needed.
    /// The highest word-sized index cannot be backed by a store whose length
    /// is itself a word, so it is left out.
    pub fn set_cell(&mut self, val: u8, i: usize)
        requires
            i < usize::MAX,
        ensures
            final(self).pos == old(self).pos,
            final(self).cells@ == tape_write(old(self).cells@, i as nat, val),
    {
        self.grow_to(i);
        self.cells[i] = val;
        proof {
            assert(self.cells@ =~= tape_write(old(self).cells@, i as nat, val));
        }
    }

    /// Write `val` at the cursor.
    pub fn set_cur_cell(&mut self, val: u8)
        requires
            old(self).pos < usize::MAX,
        ensures
            final(self).pos == old(self).pos,
            final(self).cells@ == tape_write(old(self).cells@, old(self).pos as nat, val),
    {
        self.set_cell(val, self.pos);
    }

    /// Add `arg` into the cell under the cursor, modulo 256.
    pub fn modify_cur_cell_by(&mut self, arg: i32)
        requires
            old(self).pos < usize::MAX,
        ensures
            final(self).pos == old(self).pos,
            final(self).cells@ == tape_write(
                old(self).cells@,
                old(self).pos as nat,
                cell_add(tape_read(old(self).cells@, old(self).pos as nat), arg as int),
            ),
    {
        let cur: u8 = self.read_cur_cell();
        let v: u8 = cell_add_exec(cur, arg as isize);
        self.set_cur_cell(v);
    }
}

} // verus!
