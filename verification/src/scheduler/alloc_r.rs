//! Rotating register allocation for the `loop.pip` schedule.
//!
//! With `S` the number of stages (body bundles divided by II) and `St(x)`
//! the stage of a body instruction (its body bundle divided by II):
//!
//! 1. the body's producers, in scheduling order, get rotating registers
//!    x32, x32 + (S + 1), x32 + 2·(S + 1), ...;
//! 2. walking the body's operands in scheduling order, every BB0 producer
//!    read as a loop invariant gets the next non-rotating register from x1;
//! 3. a body operand reads its local producer's register plus
//!    `St(D) - St(P)`, one more across the back edge for an interloop
//!    dependency, and a loop invariant's register as it is;
//! 4. a BB0 producer that initialises an interloop dependency writes the
//!    body producer's register less `St(P)` plus one, every other BB0 or
//!    BB2 producer gets the next non-rotating register, and a BB2 operand
//!    that reads a body result reads its register plus `(S - 1) - St(P)`.
//!
//! Register numbers are written as `u8`, taken modulo 256 where they would
//! not fit.

use std::collections::HashMap;

use vstd::prelude::*;

use crate::scheduler::alloc_b::{is_producer, lemma_producers_in_bounds, producers, producers_in};
use crate::scheduler::deps::{dep_in_place, deps_of, deps_view, lemma_deps_in_place};
use crate::scheduler::ir::{
    bundles_view, lemma_bundle_len, Bundle, DepKind, DepTable, ExecUnit, InstId, Instr, Instruction, Placement,
    Sched, Schedule,
};
use crate::scheduler::parser::Program;

verus! {

broadcast use vstd::std_specs::hash::group_hash_axioms;

/// Stage of a body instruction: its bundle within the body divided by II
/// (0 outside the body or without an interval).
pub open spec fn stage_of(pl: Map<usize, Placement>, start: int, ii: int, p: usize) -> int {
    if ii > 0 && pl[p].bundle >= start {
        (pl[p].bundle - start) / ii
    } else {
        0
    }
}

/// Number of stages of a schedule's body.
pub open spec fn stages_of(s: Sched) -> int {
    if s.ii > 0 {
        (s.bb1.len() as int) / (s.ii as int)
    } else {
        0
    }
}

/// Phase 1 on a bundle: the producers among its first `k` slots get
/// `32 + step · j`, `j` counting the producers before them from `rank`.
pub open spec fn rot_in(bd: Seq<Option<Instr>>, k: int, rank: int, step: int, m: Map<usize, i128>) -> Map<usize, i128>
    decreases k,
{
    if k <= 0 {
        m
    } else {
        let m1 = rot_in(bd, k - 1, rank, step, m);
        if is_producer(bd[k - 1]) {
            m1.insert(bd[k - 1]->0.id, (32 + step * (rank + producers_in(bd, k - 1))) as i128)
        } else {
            m1
        }
    }
}

/// Phase 1 on a block.
pub open spec fn rot_block(bs: Seq<Seq<Option<Instr>>>, step: int, m: Map<usize, i128>) -> Map<usize, i128>
    decreases bs.len(),
{
    if bs.len() == 0 {
        m
    } else {
        rot_in(bs.last(), 5, producers(bs.drop_last()), step, rot_block(bs.drop_last(), step, m))
    }
}

/// Phase 2 on the first `j` operands of one instruction: a loop-invariant
/// producer not seen yet takes the next register.
pub open spec fn inv_ops(d: Seq<Option<DepKind>>, j: int, acc: (Map<usize, i128>, int)) -> (Map<usize, i128>, int)
    decreases j,
{
    if j <= 0 {
        acc
    } else {
        let a = inv_ops(d, j - 1, acc);
        match d[j - 1] {
            Some(DepKind::LoopInvariant(p)) => if a.0.contains_key(p) {
                a
            } else {
                (a.0.insert(p, a.1 as i128), a.1 + 1)
            },
            _ => a,
        }
    }
}

/// Phase 2 on the first `k` slots of a bundle.
pub open spec fn inv_in(bd: Seq<Option<Instr>>, k: int, ds: Seq<Seq<Option<DepKind>>>, acc: (Map<usize, i128>, int)) -> (Map<usize, i128>, int)
    decreases k,
{
    if k <= 0 {
        acc
    } else {
        let a = inv_in(bd, k - 1, ds, acc);
        match bd[k - 1] {
            Some(i) => if i.id < ds.len() {
                inv_ops(ds[i.id as int], ds[i.id as int].len() as int, a)
            } else {
                a
            },
            None => a,
        }
    }
}

/// Phase 2 on a block.
pub open spec fn inv_block(bs: Seq<Seq<Option<Instr>>>, ds: Seq<Seq<Option<DepKind>>>, acc: (Map<usize, i128>, int)) -> (Map<usize, i128>, int)
    decreases bs.len(),
{
    if bs.len() == 0 {
        acc
    } else {
        inv_in(bs.last(), 5, ds, inv_block(bs.drop_last(), ds, acc))
    }
}

/// Phase 4a on the first `j` operands of one instruction: the BB0
/// initialiser of an interloop dependency writes the body producer's
/// register less its stage, plus one.
pub open spec fn init_ops(d: Seq<Option<DepKind>>, j: int, pl: Map<usize, Placement>, start: int, ii: int, m: Map<usize, i128>) -> Map<usize, i128>
    decreases j,
{
    if j <= 0 {
        m
    } else {
        let m1 = init_ops(d, j - 1, pl, start, ii, m);
        match d[j - 1] {
            Some(DepKind::Interloop { bb0: Some(p0), bb1 }) => if m1.contains_key(bb1) {
                m1.insert(p0, (m1[bb1] - stage_of(pl, start, ii, bb1) + 1) as i128)
            } else {
                m1
            },
            _ => m1,
        }
    }
}

/// Phase 4a on instructions `[lo, c)`, in program order.
pub open spec fn init_upto(ds: Seq<Seq<Option<DepKind>>>, lo: int, c: int, pl: Map<usize, Placement>, start: int, ii: int, m: Map<usize, i128>) -> Map<usize, i128>
    decreases c - lo,
{
    if c <= lo {
        m
    } else {
        init_ops(ds[c - 1], ds[c - 1].len() as int, pl, start, ii, init_upto(ds, lo, c - 1, pl, start, ii, m))
    }
}

/// Phase 4b on the first `k` slots of a bundle: a producer without a
/// register yet takes the next one.
pub open spec fn fresh_in(bd: Seq<Option<Instr>>, k: int, acc: (Map<usize, i128>, int)) -> (Map<usize, i128>, int)
    decreases k,
{
    if k <= 0 {
        acc
    } else {
        let a = fresh_in(bd, k - 1, acc);
        if is_producer(bd[k - 1]) && !a.0.contains_key(bd[k - 1]->0.id) {
            (a.0.insert(bd[k - 1]->0.id, a.1 as i128), a.1 + 1)
        } else {
            a
        }
    }
}

/// Phase 4b on a block.
pub open spec fn fresh_block(bs: Seq<Seq<Option<Instr>>>, acc: (Map<usize, i128>, int)) -> (Map<usize, i128>, int)
    decreases bs.len(),
{
    if bs.len() == 0 {
        acc
    } else {
        fresh_in(bs.last(), 5, fresh_block(bs.drop_last(), acc))
    }
}


/// No instruction id occurs in two slots of the block.
pub open spec fn ids_once(bs: Seq<Seq<Option<Instr>>>) -> bool {
    forall|b1: int, k1: int, b2: int, k2: int|
        0 <= b1 < bs.len() && 0 <= b2 < bs.len() && 0 <= k1 < bs[b1].len() && 0 <= k2 < bs[b2].len()
            && (#[trigger] bs[b1][k1]) is Some && (#[trigger] bs[b2][k2]) is Some
            && bs[b1][k1]->0.id == bs[b2][k2]->0.id ==> b1 == b2 && k1 == k2
}

proof fn lemma_rot_in_keeps(bd: Seq<Option<Instr>>, kk: int, rank: int, step: int, m: Map<usize, i128>, id: usize)
    requires
        forall|k: int| 0 <= k < kk ==> !(#[trigger] bd[k] matches Some(i) && i.id == id),
    ensures
        rot_in(bd, kk, rank, step, m).contains_key(id) == m.contains_key(id),
        rot_in(bd, kk, rank, step, m)[id] == m[id],
    decreases kk,
{
    if kk > 0 {
        lemma_rot_in_keeps(bd, kk - 1, rank, step, m, id);
        assert(!(bd[kk - 1] matches Some(i) && i.id == id));
    }
}

proof fn lemma_rot_in_sets(bd: Seq<Option<Instr>>, k: int, kk: int, rank: int, step: int, m: Map<usize, i128>)
    requires
        0 <= k < kk <= bd.len(),
        is_producer(bd[k]),
        forall|j: int| k < j < kk ==> !(#[trigger] bd[j] matches Some(i) && i.id == bd[k]->0.id),
    ensures
        rot_in(bd, kk, rank, step, m).contains_key(bd[k]->0.id),
        rot_in(bd, kk, rank, step, m)[bd[k]->0.id] == (32 + step * (rank + producers_in(bd, k))) as i128,
    decreases kk,
{
    if kk - 1 > k {
        lemma_rot_in_sets(bd, k, kk - 1, rank, step, m);
        assert(!(bd[kk - 1] matches Some(i) && i.id == bd[k]->0.id));
    }
}

/// The body's producers in scheduling order get x32, x32 + step,
/// x32 + 2·step, ...: the producer in slot `k` of bundle `b` gets
/// `32 + step · j`, `j` the number of producers in the slots before it.
pub proof fn lemma_rotating_register(bs: Seq<Seq<Option<Instr>>>, step: int, b: int, k: int)
    requires
        0 <= b < bs.len(),
        0 <= k < 5,
        forall|bb: int| 0 <= bb < bs.len() ==> (#[trigger] bs[bb]).len() == 5,
        ids_once(bs),
        is_producer(bs[b][k]),
    ensures
        rot_block(bs, step, Map::empty()).contains_key(bs[b][k]->0.id),
        rot_block(bs, step, Map::empty())[bs[b][k]->0.id] == (32 + step * (producers(bs.subrange(0, b)) + producers_in(bs[b], k))) as i128,
    decreases bs.len(),
{
    let id = bs[b][k]->0.id;
    let last = bs.len() - 1;
    let pre = bs.drop_last();
    assert(bs.subrange(0, last) =~= pre);
    if b == last {
        assert forall|j: int| k < j < 5 implies !(#[trigger] bs[b][j] matches Some(i) && i.id == id) by {
            if bs[b][j] matches Some(i) && i.id == id {
                assert(bs[b][j] is Some && bs[b][k] is Some);
            }
        }
        lemma_rot_in_sets(bs[b], k, 5, producers(pre), step, rot_block(pre, step, Map::empty()));
    } else {
        assert(pre[b] == bs[b]);
        assert forall|bb: int, k1: int, b2: int, k2: int|
            0 <= bb < pre.len() && 0 <= b2 < pre.len() && 0 <= k1 < pre[bb].len() && 0 <= k2 < pre[b2].len()
                && (#[trigger] pre[bb][k1]) is Some && (#[trigger] pre[b2][k2]) is Some
                && pre[bb][k1]->0.id == pre[b2][k2]->0.id implies bb == b2 && k1 == k2 by {
            assert(pre[bb] == bs[bb] && pre[b2] == bs[b2]);
            assert(bs[bb][k1] is Some && bs[b2][k2] is Some);
        }
        lemma_rotating_register(pre, step, b, k);
        assert(pre.subrange(0, b) =~= bs.subrange(0, b));
        assert forall|j: int| 0 <= j < 5 implies !(#[trigger] bs[last][j] matches Some(i) && i.id == id) by {
            if bs[last][j] matches Some(i) && i.id == id {
                assert(bs[last][j] is Some && bs[b][k] is Some);
            }
        }
        lemma_rot_in_keeps(bs.last(), 5, producers(pre), step, rot_block(pre, step, Map::empty()), id);
    }
}

/// Phase 1: rotating registers for the producers of `block`, `step` apart.
fn rot_collect(block: &Vec<Bundle>, step: i128, m: &mut HashMap<InstId, i128>)
    requires
        1 <= step <= 0x1_0000_0001,
        block@.len() <= 0xffff_ffff,
    ensures
        final(m)@ == rot_block(bundles_view(block@), step as int, old(m)@),
        forall|id: usize| #[trigger] final(m)@.contains_key(id) && !old(m)@.contains_key(id) ==> 32 <= final(m)@[id] <= 0x100_0000_0000_0000_0000,
        forall|id: usize| #[trigger] old(m)@.contains_key(id) ==> final(m)@.contains_key(id),
{
    let ghost bv = bundles_view(block@);
    let ghost m0 = m@;
    let mut rank: u64 = 0;
    let mut i: usize = 0;
    while i < block.len()
        invariant
            i <= block@.len(),
            bv == bundles_view(block@),
            1 <= step <= 0x1_0000_0001,
            block@.len() <= 0xffff_ffff,
            rank == producers(bv.subrange(0, i as int)),
            rank <= 5 * i,
            m@ == rot_block(bv.subrange(0, i as int), step as int, m0),
            forall|id: usize| #[trigger] m@.contains_key(id) && !m0.contains_key(id) ==> 32 <= m@[id] <= 0x100_0000_0000_0000_0000,
            forall|id: usize| #[trigger] m0.contains_key(id) ==> m@.contains_key(id),
        decreases block@.len() - i,
    {
        let ghost pre = bv.subrange(0, i as int);
        let ghost bd = bv[i as int];
        proof {
            assert(bv.subrange(0, i + 1).drop_last() =~= pre);
            assert(bv.subrange(0, i + 1).last() == bd);
            lemma_producers_in_bounds(bd, 0, 5);
        }
        let mut k: usize = 0;
        while k < 5
            invariant
                k <= 5,
                i < block@.len(),
                bd == block@[i as int]@,
                1 <= step <= 0x1_0000_0001,
                block@.len() <= 0xffff_ffff,
                rank == producers(pre) + producers_in(bd, k as int),
                rank <= 5 * i + k,
                m@ == rot_in(bd, k as int, producers(pre), step as int, rot_block(pre, step as int, m0)),
                forall|id: usize| #[trigger] m@.contains_key(id) && !m0.contains_key(id) ==> 32 <= m@[id] <= 0x100_0000_0000_0000_0000,
                forall|id: usize| #[trigger] m0.contains_key(id) ==> m@.contains_key(id),
            decreases 5 - k,
        {
            let u = ExecUnit::from_idx(k);
            match block[i].get(u) {
                Some(instr) => {
                    if instr.dest_reg.is_some() {
                        proof {
                            let r = rank as int;
                            let st = step as int;
                            assert(0 <= st * r <= 0x1_0000_0001 * 0x5_0000_0000) by (nonlinear_arith)
                                requires
                                    0 <= r <= 0x5_0000_0000,
                                    1 <= st <= 0x1_0000_0001,
                            {}
                        }
                        let v: i128 = 32 + step * (rank as i128);
                        m.insert(instr.id, v);
                        rank = rank + 1;
                    }
                },
                None => {},
            }
            k = k + 1;
        }
        i = i + 1;
    }
    proof {
        assert(bv.subrange(0, block@.len() as int) =~= bv);
    }
}


/// Phase 2: non-rotating registers for the loop invariants read in `block`.
fn inv_collect(program: &Program, block: &Vec<Bundle>, deps: &DepTable, m: &mut HashMap<InstId, i128>, next: &mut usize)
    requires
        program@.wf(),
        deps_of(program@, deps_view(deps@)),
        *old(next) + program.bb1_start < usize::MAX,
    ensures
        (final(m)@, *final(next) as int) == inv_block(bundles_view(block@), deps_view(deps@), (old(m)@, *old(next) as int)),
        *old(next) <= *final(next) <= *old(next) + program.bb1_start,
        forall|id: usize| #[trigger] old(m)@.contains_key(id) ==> final(m)@.contains_key(id) && final(m)@[id] == old(m)@[id],
        forall|id: usize| #[trigger] final(m)@.contains_key(id) && !old(m)@.contains_key(id) ==> id < program.bb1_start && 0 <= final(m)@[id] < *final(next),
{
    let ghost bv = bundles_view(block@);
    let ghost ds = deps_view(deps@);
    let ghost prog = program@;
    let ghost m0 = m@;
    let ghost n0 = *next as int;
    let ghost b1 = program.bb1_start as int;
    let ghost mut ins: Set<int> = Set::empty();
    proof {
        lemma_deps_in_place(prog, ds);
        vstd::set_lib::lemma_int_range(0, b1);
    }
    let mut nx: usize = *next;
    let mut i: usize = 0;
    while i < block.len()
        invariant
            i <= block@.len(),
            bv == bundles_view(block@),
            ds == deps_view(deps@),
            prog == program@,
            b1 == prog.bb1_start,
            n0 + b1 < usize::MAX,
            forall|c: int, j: int| 0 <= c < ds.len() && 0 <= j < ds[c].len() ==> dep_in_place(prog, c, #[trigger] ds[c][j]),
            ds.len() == prog.instrs.len(),
            vstd::set_lib::set_int_range(0, b1).finite(),
                vstd::set_lib::set_int_range(0, b1).len() == b1,
            ins.finite(),
            ins.subset_of(vstd::set_lib::set_int_range(0, b1)),
            nx == n0 + ins.len(),
            forall|p: int| #[trigger] ins.contains(p) ==> m@.contains_key(p as usize) && !m0.contains_key(p as usize),
            (m@, nx as int) == inv_block(bv.subrange(0, i as int), ds, (m0, n0)),
            forall|id: usize| #[trigger] m0.contains_key(id) ==> m@.contains_key(id) && m@[id] == m0[id],
            forall|id: usize| #[trigger] m@.contains_key(id) && !m0.contains_key(id) ==> ins.contains(id as int) && 0 <= m@[id] < nx,
        decreases block@.len() - i,
    {
        let ghost pre = bv.subrange(0, i as int);
        let ghost bd = bv[i as int];
        proof {
            assert(bv.subrange(0, i + 1).drop_last() =~= pre);
            assert(bv.subrange(0, i + 1).last() == bd);
            lemma_bundle_len(&block@[i as int]);
        }
        let mut k: usize = 0;
        while k < 5
            invariant
                k <= 5,
                i < block@.len(),
                bd == block@[i as int]@,
                bd.len() == 5,
                ds == deps_view(deps@),
                prog == program@,
                b1 == prog.bb1_start,
                n0 + b1 < usize::MAX,
                forall|c: int, j: int| 0 <= c < ds.len() && 0 <= j < ds[c].len() ==> dep_in_place(prog, c, #[trigger] ds[c][j]),
                ds.len() == prog.instrs.len(),
                vstd::set_lib::set_int_range(0, b1).finite(),
                vstd::set_lib::set_int_range(0, b1).len() == b1,
                ins.finite(),
                ins.subset_of(vstd::set_lib::set_int_range(0, b1)),
                nx == n0 + ins.len(),
                forall|p: int| #[trigger] ins.contains(p) ==> m@.contains_key(p as usize) && !m0.contains_key(p as usize),
                (m@, nx as int) == inv_in(bd, k as int, ds, inv_block(pre, ds, (m0, n0))),
                forall|id: usize| #[trigger] m0.contains_key(id) ==> m@.contains_key(id) && m@[id] == m0[id],
                forall|id: usize| #[trigger] m@.contains_key(id) && !m0.contains_key(id) ==> ins.contains(id as int) && 0 <= m@[id] < nx,
            decreases 5 - k,
        {
            let u = ExecUnit::from_idx(k);
            match block[i].get(u) {
                Some(instr) => {
                    if instr.id < deps.len() {
                        let dv = &deps[instr.id].src_deps;
                        let c = instr.id;
                        proof {
                            assert(dv@ == ds[c as int]);
                        }
                        let ghost a0 = (m@, nx as int);
                        let mut j: usize = 0;
                        while j < dv.len()
                            invariant
                                j <= dv@.len(),
                                c < ds.len(),
                                dv@ == ds[c as int],
                                ds == deps_view(deps@),
                                prog == program@,
                                b1 == prog.bb1_start,
                                n0 + b1 < usize::MAX,
                                forall|c2: int, j2: int| 0 <= c2 < ds.len() && 0 <= j2 < ds[c2].len() ==> dep_in_place(prog, c2, #[trigger] ds[c2][j2]),
                                vstd::set_lib::set_int_range(0, b1).finite(),
                vstd::set_lib::set_int_range(0, b1).len() == b1,
                                ins.finite(),
                                ins.subset_of(vstd::set_lib::set_int_range(0, b1)),
                                nx == n0 + ins.len(),
                                forall|p: int| #[trigger] ins.contains(p) ==> m@.contains_key(p as usize) && !m0.contains_key(p as usize),
                                (m@, nx as int) == inv_ops(ds[c as int], j as int, a0),
                                forall|id: usize| #[trigger] m0.contains_key(id) ==> m@.contains_key(id) && m@[id] == m0[id],
                                forall|id: usize| #[trigger] m@.contains_key(id) && !m0.contains_key(id) ==> ins.contains(id as int) && 0 <= m@[id] < nx,
                            decreases dv@.len() - j,
                        {
                            match dv[j] {
                                Some(DepKind::LoopInvariant(p)) => {
                                    if !m.contains_key(&p) {
                                        proof {
                                            assert(dep_in_place(prog, c as int, ds[c as int][j as int]));
                                            assert(p < b1);
                                            assert(!ins.contains(p as int));
                                            vstd::set_lib::lemma_len_subset(ins, vstd::set_lib::set_int_range(0, b1));
                                        }
                                        m.insert(p, nx as i128);
                                        proof {
                                            ins = ins.insert(p as int);
                                        }
                                        nx = nx + 1;
                                    }
                                },
                                _ => {},
                            }
                            j = j + 1;
                        }
                    }
                },
                None => {},
            }
            k = k + 1;
        }
        i = i + 1;
    }
    proof {
        assert(bv.subrange(0, block@.len() as int) =~= bv);
        vstd::set_lib::lemma_len_subset(ins, vstd::set_lib::set_int_range(0, b1));
    }
    *next = nx;
}


fn stage_exec(placement: &HashMap<InstId, Placement>, start: usize, ii: usize, p: InstId) -> (r: i128)
    requires
        placement@.contains_key(p),
    ensures
        r == stage_of(placement@, start as int, ii as int, p),
        0 <= r <= usize::MAX,
{
    let b = match placement.get(&p) {
        Some(x) => x.bundle,
        None => 0,
    };
    if ii > 0 && b >= start {
        ((b - start) / ii) as i128
    } else {
        0
    }
}

/// Phase 4a: registers for the BB0 initialisers of interloop dependencies.
fn init_collect(
    program: &Program,
    deps: &DepTable,
    placement: &HashMap<InstId, Placement>,
    start: usize,
    ii: usize,
    m: &mut HashMap<InstId, i128>,
)
    requires
        program@.wf(),
        deps_of(program@, deps_view(deps@)),
        forall|p: usize| p < program.instrs@.len() ==> #[trigger] placement@.contains_key(p),
        forall|id: usize| #[trigger] old(m)@.contains_key(id) ==> -0x1_0000_0000_0000_0000_0000 <= old(m)@[id] <= 0x1_0000_0000_0000_0000_0000,
        forall|id: usize| id >= program.bb1_start && #[trigger] old(m)@.contains_key(id) ==> 0 <= old(m)@[id] <= 0x100_0000_0000_0000_0000,
    ensures
        final(m)@ == init_upto(deps_view(deps@), program.bb1_start as int, program.bb1_end as int, placement@, start as int, ii as int, old(m)@),
        forall|id: usize| #[trigger] old(m)@.contains_key(id) ==> final(m)@.contains_key(id),
        forall|id: usize| id >= program.bb1_start && #[trigger] old(m)@.contains_key(id) ==> final(m)@[id] == old(m)@[id],
        forall|id: usize| #[trigger] final(m)@.contains_key(id) && !old(m)@.contains_key(id) ==> id < program.bb1_start,
        forall|id: usize| #[trigger] final(m)@.contains_key(id) ==> -0x1_0000_0000_0000_0000_0000 <= final(m)@[id] <= 0x1_0000_0000_0000_0000_0000,
{
    let ghost ds = deps_view(deps@);
    let ghost prog = program@;
    let ghost m0 = m@;
    let ghost pl = placement@;
    proof {
        lemma_deps_in_place(prog, ds);
    }
    let b1 = program.bb1_start;
    let e1 = program.bb1_end;
    let mut c = b1;
    while c < e1
        invariant
            ds == deps_view(deps@),
            prog == program@,
            pl == placement@,
            program@.wf(),
            b1 == prog.bb1_start,
            e1 == prog.bb1_end,
            b1 <= c <= e1,
            ds.len() == prog.instrs.len(),
            forall|c2: int, j: int| 0 <= c2 < ds.len() && 0 <= j < ds[c2].len() ==> dep_in_place(prog, c2, #[trigger] ds[c2][j]),
            forall|p: usize| p < program.instrs@.len() ==> #[trigger] placement@.contains_key(p),
            m@ == init_upto(ds, b1 as int, c as int, pl, start as int, ii as int, m0),
            forall|id: usize| #[trigger] m0.contains_key(id) ==> m@.contains_key(id),
            forall|id: usize| id >= b1 && #[trigger] m0.contains_key(id) ==> m@[id] == m0[id],
            forall|id: usize| #[trigger] m@.contains_key(id) && !m0.contains_key(id) ==> id < b1,
            forall|id: usize| #[trigger] m@.contains_key(id) ==> -0x1_0000_0000_0000_0000_0000 <= m@[id] <= 0x1_0000_0000_0000_0000_0000,
            forall|id: usize| id >= b1 && #[trigger] m@.contains_key(id) ==> m0.contains_key(id),
            forall|id: usize| id >= b1 && #[trigger] m0.contains_key(id) ==> 0 <= m0[id] <= 0x100_0000_0000_0000_0000,
        decreases e1 - c,
    {
        let dv = &deps[c].src_deps;
        proof {
            assert(dv@ == ds[c as int]);
        }
        let ghost m_c = m@;
        let mut j: usize = 0;
        while j < dv.len()
            invariant
                j <= dv@.len(),
                b1 <= c < e1,
                dv@ == ds[c as int],
                ds == deps_view(deps@),
                prog == program@,
                pl == placement@,
                b1 == prog.bb1_start,
                e1 == prog.bb1_end,
                ds.len() == prog.instrs.len(),
                forall|c2: int, j2: int| 0 <= c2 < ds.len() && 0 <= j2 < ds[c2].len() ==> dep_in_place(prog, c2, #[trigger] ds[c2][j2]),
                forall|p: usize| p < program.instrs@.len() ==> #[trigger] placement@.contains_key(p),
                program@.wf(),
                m@ == init_ops(ds[c as int], j as int, pl, start as int, ii as int, m_c),
                forall|id: usize| #[trigger] m0.contains_key(id) ==> m@.contains_key(id),
                forall|id: usize| id >= b1 && #[trigger] m0.contains_key(id) ==> m@[id] == m0[id],
                forall|id: usize| #[trigger] m@.contains_key(id) && !m0.contains_key(id) ==> id < b1,
                forall|id: usize| #[trigger] m@.contains_key(id) ==> -0x1_0000_0000_0000_0000_0000 <= m@[id] <= 0x1_0000_0000_0000_0000_0000,
                forall|id: usize| id >= b1 && #[trigger] m@.contains_key(id) ==> m0.contains_key(id),
                forall|id: usize| id >= b1 && #[trigger] m0.contains_key(id) ==> 0 <= m0[id] <= 0x100_0000_0000_0000_0000,
            decreases dv@.len() - j,
        {
            match dv[j] {
                Some(DepKind::Interloop { bb0: Some(p0), bb1 }) => {
                    proof {
                        assert(dep_in_place(prog, c as int, ds[c as int][j as int]));
                    }
                    let got = match m.get(&bb1) {
                        Some(v) => Some(*v),
                        None => None,
                    };
                    match got {
                        Some(v) => {
                            proof {
                                assert(m0.contains_key(bb1));
                                assert(m@[bb1] == m0[bb1]);
                            }
                            let st = stage_exec(placement, start, ii, bb1);
                            m.insert(p0, v - st + 1);
                        },
                        None => {},
                    }
                },
                _ => {},
            }
            j = j + 1;
        }
        c = c + 1;
    }
}


/// Phase 4b: the next non-rotating registers for the producers of `block`
/// that have none yet.
fn fresh_collect(block: &Vec<Bundle>, m: &mut HashMap<InstId, i128>, next: &mut usize)
    requires
        *old(next) + 5 * block@.len() <= usize::MAX,
    ensures
        (final(m)@, *final(next) as int) == fresh_block(bundles_view(block@), (old(m)@, *old(next) as int)),
        *old(next) <= *final(next) <= *old(next) + 5 * block@.len(),
        forall|id: usize| #[trigger] old(m)@.contains_key(id) ==> final(m)@.contains_key(id) && final(m)@[id] == old(m)@[id],
        forall|id: usize| #[trigger] final(m)@.contains_key(id) && !old(m)@.contains_key(id) ==> 0 <= final(m)@[id] < *final(next),
{
    let ghost bv = bundles_view(block@);
    let ghost m0 = m@;
    let ghost n0 = *next as int;
    let mut nx: usize = *next;
    let mut i: usize = 0;
    while i < block.len()
        invariant
            i <= block@.len(),
            bv == bundles_view(block@),
            n0 + 5 * block@.len() <= usize::MAX,
            n0 <= nx <= n0 + 5 * i,
            (m@, nx as int) == fresh_block(bv.subrange(0, i as int), (m0, n0)),
            forall|id: usize| #[trigger] m0.contains_key(id) ==> m@.contains_key(id) && m@[id] == m0[id],
            forall|id: usize| #[trigger] m@.contains_key(id) && !m0.contains_key(id) ==> 0 <= m@[id] < nx,
        decreases block@.len() - i,
    {
        let ghost pre = bv.subrange(0, i as int);
        let ghost bd = bv[i as int];
        proof {
            assert(bv.subrange(0, i + 1).drop_last() =~= pre);
            assert(bv.subrange(0, i + 1).last() == bd);
        }
        let mut k: usize = 0;
        while k < 5
            invariant
                k <= 5,
                i < block@.len(),
                bd == block@[i as int]@,
                n0 + 5 * block@.len() <= usize::MAX,
                n0 <= nx <= n0 + 5 * i + k,
                (m@, nx as int) == fresh_in(bd, k as int, fresh_block(pre, (m0, n0))),
                forall|id: usize| #[trigger] m0.contains_key(id) ==> m@.contains_key(id) && m@[id] == m0[id],
                forall|id: usize| #[trigger] m@.contains_key(id) && !m0.contains_key(id) ==> 0 <= m@[id] < nx,
            decreases 5 - k,
        {
            let u = ExecUnit::from_idx(k);
            match block[i].get(u) {
                Some(instr) => {
                    if instr.dest_reg.is_some() && !m.contains_key(&instr.id) {
                        m.insert(instr.id, nx as i128);
                        nx = nx + 1;
                    }
                },
                None => {},
            }
            k = k + 1;
        }
        i = i + 1;
    }
    proof {
        assert(bv.subrange(0, block@.len() as int) =~= bv);
    }
    *next = nx;
}

/// The register an operand of instruction `c` reads after allocation;
/// `old` where its producer has no register.
pub open spec fn rot_src(
    d: Option<DepKind>,
    dm: Map<usize, i128>,
    pl: Map<usize, Placement>,
    start: int,
    ii: int,
    stages: int,
    b1: int,
    e1: int,
    c: usize,
    old: u8,
) -> u8 {
    let sc = stage_of(pl, start, ii, c);
    match d {
        Some(DepKind::Local(p)) => if !dm.contains_key(p) {
            old
        } else if b1 <= c < e1 {
            (dm[p] + sc - stage_of(pl, start, ii, p)) as u8
        } else {
            dm[p] as u8
        },
        Some(DepKind::Interloop { bb1, .. }) => if dm.contains_key(bb1) {
            (dm[bb1] + sc - stage_of(pl, start, ii, bb1) + 1) as u8
        } else {
            old
        },
        Some(DepKind::LoopInvariant(p)) => if dm.contains_key(p) {
            dm[p] as u8
        } else {
            old
        },
        Some(DepKind::PostLoop(p)) => if dm.contains_key(p) {
            (dm[p] + stages - 1 - stage_of(pl, start, ii, p)) as u8
        } else {
            old
        },
        None => old,
    }
}

/// An instruction after allocation: its destination from `dm`, its
/// operands by `rot_src`.
pub open spec fn rot_instr(
    i: Instr,
    ds: Seq<Seq<Option<DepKind>>>,
    dm: Map<usize, i128>,
    pl: Map<usize, Placement>,
    start: int,
    ii: int,
    stages: int,
    b1: int,
    e1: int,
) -> Instr {
    Instr {
        dest_reg: if i.dest_reg is Some && dm.contains_key(i.id) {
            Some(dm[i.id] as u8)
        } else {
            i.dest_reg
        },
        src_regs: Seq::new(
            i.src_regs.len(),
            |j: int|
                if i.id < ds.len() && j < ds[i.id as int].len() {
                    rot_src(ds[i.id as int][j], dm, pl, start, ii, stages, b1, e1, i.id, i.src_regs[j])
                } else {
                    i.src_regs[j]
                },
        ),
        ..i
    }
}

pub open spec fn rot_block_instrs(
    bs: Seq<Seq<Option<Instr>>>,
    ds: Seq<Seq<Option<DepKind>>>,
    dm: Map<usize, i128>,
    pl: Map<usize, Placement>,
    start: int,
    ii: int,
    stages: int,
    b1: int,
    e1: int,
) -> Seq<Seq<Option<Instr>>> {
    Seq::new(
        bs.len(),
        |b: int|
            Seq::new(
                bs[b].len(),
                |k: int|
                    match bs[b][k] {
                        Some(i) => Some(rot_instr(i, ds, dm, pl, start, ii, stages, b1, e1)),
                        None => None,
                    },
            ),
    )
}


/// Where the exec renaming may look things up: every id below the program
/// length is placed, every operand's producer is in place, and the
/// registers stay far inside `i128`.
pub open spec fn rename_ready(
    prog: crate::scheduler::parser::Prog,
    ds: Seq<Seq<Option<DepKind>>>,
    dm: Map<usize, i128>,
    pl: Map<usize, Placement>,
) -> bool {
    &&& ds.len() == prog.instrs.len()
    &&& prog.wf()
    &&& forall|c: int, j: int| 0 <= c < ds.len() && 0 <= j < ds[c].len() ==> dep_in_place(prog, c, #[trigger] ds[c][j])
    &&& forall|p: usize| p < prog.instrs.len() ==> #[trigger] pl.contains_key(p)
    &&& forall|id: usize| #[trigger] dm.contains_key(id) ==> -0x1_0000_0000_0000_0000_0000 <= dm[id] <= 0x1_0000_0000_0000_0000_0000
}

fn rot_rename_instr(
    program: &Program,
    ins: &Instruction,
    deps: &DepTable,
    dm: &HashMap<InstId, i128>,
    placement: &HashMap<InstId, Placement>,
    start: usize,
    ii: usize,
    stages: usize,
) -> (r: Instruction)
    requires
        rename_ready(program@, deps_view(deps@), dm@, placement@),
    ensures
        r@ == rot_instr(ins@, deps_view(deps@), dm@, placement@, start as int, ii as int, stages as int, program@.bb1_start as int, program@.bb1_end as int),
{
    let ghost ds = deps_view(deps@);
    let ghost prog = program@;
    let ghost want = rot_instr(ins@, ds, dm@, placement@, start as int, ii as int, stages as int, prog.bb1_start as int, prog.bb1_end as int);
    let b1 = program.bb1_start;
    let e1 = program.bb1_end;
    let mut r = ins.clone();
    if ins.dest_reg.is_some() {
        match dm.get(&ins.id) {
            Some(v) => {
                r.dest_reg = Some(*v as u8);
            },
            None => {},
        }
    }
    if ins.id < deps.len() {
        let c = ins.id;
        let dv = &deps[c].src_deps;
        assert(dv@ == ds[c as int]);
        let sc = stage_exec(placement, start, ii, c);
        let mut j: usize = 0;
        while j < dv.len()
            invariant
                c == ins.id,
                c < deps@.len(),
                dv@ == ds[c as int],
                ds == deps_view(deps@),
                prog == program@,
                b1 == prog.bb1_start,
                e1 == prog.bb1_end,
                rename_ready(prog, ds, dm@, placement@),
                sc == stage_of(placement@, start as int, ii as int, c),
                0 <= sc <= usize::MAX,
                want == rot_instr(ins@, ds, dm@, placement@, start as int, ii as int, stages as int, b1 as int, e1 as int),
                j <= dv@.len(),
                r@ == (Instr { src_regs: r@.src_regs, ..want }),
                r.src_regs@.len() == ins.src_regs@.len(),
                forall|jj: int|
                    0 <= jj < r.src_regs@.len() ==> #[trigger] r.src_regs@[jj] == if jj < j {
                        want.src_regs[jj]
                    } else {
                        ins.src_regs@[jj]
                    },
            decreases dv@.len() - j,
        {
            proof {
                assert(dep_in_place(prog, c as int, ds[c as int][j as int]));
            }
            let val: Option<u8> = match dv[j] {
                Some(DepKind::Local(p)) => match dm.get(&p) {
                    Some(v) => if b1 <= c && c < e1 {
                        let sp = stage_exec(placement, start, ii, p);
                        Some((*v + sc - sp) as u8)
                    } else {
                        Some(*v as u8)
                    },
                    None => None,
                },
                Some(DepKind::Interloop { bb1, .. }) => match dm.get(&bb1) {
                    Some(v) => {
                        let sp = stage_exec(placement, start, ii, bb1);
                        Some((*v + sc - sp + 1) as u8)
                    },
                    None => None,
                },
                Some(DepKind::LoopInvariant(p)) => match dm.get(&p) {
                    Some(v) => Some(*v as u8),
                    None => None,
                },
                Some(DepKind::PostLoop(p)) => match dm.get(&p) {
                    Some(v) => {
                        let sp = stage_exec(placement, start, ii, p);
                        Some((*v + (stages as i128) - 1 - sp) as u8)
                    },
                    None => None,
                },
                None => None,
            };
            if j < r.src_regs.len() {
                match val {
                    Some(x) => {
                        r.src_regs.set(j, x);
                    },
                    None => {},
                }
            }
            j = j + 1;
        }
    }
    assert(r@.src_regs =~= want.src_regs);
    r
}


fn rot_rename_block(
    program: &Program,
    block: &mut Vec<Bundle>,
    deps: &DepTable,
    dm: &HashMap<InstId, i128>,
    placement: &HashMap<InstId, Placement>,
    start: usize,
    ii: usize,
    stages: usize,
)
    requires
        rename_ready(program@, deps_view(deps@), dm@, placement@),
    ensures
        bundles_view(final(block)@) == rot_block_instrs(
            bundles_view(old(block)@),
            deps_view(deps@),
            dm@,
            placement@,
            start as int,
            ii as int,
            stages as int,
            program@.bb1_start as int,
            program@.bb1_end as int,
        ),
{
    let ghost ds = deps_view(deps@);
    let ghost ob = bundles_view(block@);
    let ghost want = rot_block_instrs(ob, ds, dm@, placement@, start as int, ii as int, stages as int, program@.bb1_start as int, program@.bb1_end as int);
    let mut i: usize = 0;
    while i < block.len()
        invariant
            i <= block@.len(),
            block@.len() == ob.len(),
            ds == deps_view(deps@),
            rename_ready(program@, ds, dm@, placement@),
            want == rot_block_instrs(ob, ds, dm@, placement@, start as int, ii as int, stages as int, program@.bb1_start as int, program@.bb1_end as int),
            forall|b: int|
                0 <= b < block@.len() ==> (#[trigger] block@[b])@ == if b < i {
                    want[b]
                } else {
                    ob[b]
                },
        decreases block@.len() - i,
    {
        let ghost bd = ob[i as int];
        proof {
            lemma_bundle_len(&block@[i as int]);
        }
        let mut k: usize = 0;
        while k < 5
            invariant
                i < block@.len(),
                block@.len() == ob.len(),
                ds == deps_view(deps@),
                rename_ready(program@, ds, dm@, placement@),
                want == rot_block_instrs(ob, ds, dm@, placement@, start as int, ii as int, stages as int, program@.bb1_start as int, program@.bb1_end as int),
                bd == ob[i as int],
                bd.len() == 5,
                k <= 5,
                forall|b: int|
                    0 <= b < block@.len() && b != i ==> (#[trigger] block@[b])@ == if b < i {
                        want[b]
                    } else {
                        ob[b]
                    },
                block@[i as int]@.len() == 5,
                forall|kk: int|
                    0 <= kk < 5 ==> #[trigger] block@[i as int]@[kk] == if kk < k {
                        want[i as int][kk]
                    } else {
                        bd[kk]
                    },
            decreases 5 - k,
        {
            let u = ExecUnit::from_idx(k);
            let new: Option<Instruction> = match block[i].get(u) {
                Some(ins) => Some(rot_rename_instr(program, ins, deps, dm, placement, start, ii, stages)),
                None => None,
            };
            match new {
                Some(x) => {
                    block[i].set(u, x);
                },
                None => {},
            }
            k = k + 1;
        }
        proof {
            assert(block@[i as int]@ =~= want[i as int]);
        }
        i = i + 1;
    }
    proof {
        assert(bundles_view(block@) =~= want);
    }
}

/// The register each producer writes after allocation (phases 1, 2 and 4).
pub open spec fn rot_dests(
    prog: crate::scheduler::parser::Prog,
    ds: Seq<Seq<Option<DepKind>>>,
    pl: Map<usize, Placement>,
    s: Sched,
) -> Map<usize, i128> {
    let m1 = rot_block(s.bb1, stages_of(s) + 1, Map::empty());
    let a2 = inv_block(s.bb1, ds, (m1, 1));
    let m3 = init_upto(ds, prog.bb1_start as int, prog.bb1_end as int, pl, s.bb0.len() as int, s.ii as int, a2.0);
    let a4 = fresh_block(s.bb0, (m3, a2.1));
    fresh_block(s.bb2, a4).0
}

/// The schedule after rotating register allocation.
pub open spec fn rotated(
    prog: crate::scheduler::parser::Prog,
    ds: Seq<Seq<Option<DepKind>>>,
    pl: Map<usize, Placement>,
    s: Sched,
) -> Sched {
    let dm = rot_dests(prog, ds, pl, s);
    let start = s.bb0.len() as int;
    let ii = s.ii as int;
    let st = stages_of(s);
    let b1 = prog.bb1_start as int;
    let e1 = prog.bb1_end as int;
    Sched {
        bb0: rot_block_instrs(s.bb0, ds, dm, pl, start, ii, st, b1, e1),
        bb1: rot_block_instrs(s.bb1, ds, dm, pl, start, ii, st, b1, e1),
        bb2: rot_block_instrs(s.bb2, ds, dm, pl, start, ii, st, b1, e1),
        ii: s.ii,
    }
}

/// Allocates rotating registers for the `loop.pip` schedule.
pub fn allocate(
    schedule: &mut Schedule,
    program: &Program,
    deps: &DepTable,
    placement: &HashMap<InstId, Placement>,
)
    requires
        program@.wf(),
        deps_of(program@, deps_view(deps@)),
        program.instrs@.len() <= usize::MAX / 16,
        forall|p: usize| p < program.instrs@.len() ==> #[trigger] placement@.contains_key(p),
        old(schedule)@.bb1.len() <= 0xffff_ffff,
        old(schedule)@.bb0.len() + old(schedule)@.bb2.len() <= usize::MAX / 16,
    ensures
        final(schedule)@ == rotated(program@, deps_view(deps@), placement@, old(schedule)@),
{
    let ghost s0 = schedule@;
    let ghost ds = deps_view(deps@);
    let ghost prog = program@;
    proof {
        lemma_deps_in_place(prog, ds);
    }
    let ii = schedule.ii;
    let start = schedule.bb0.len();
    let stages: usize = if ii > 0 { schedule.bb1.len() / ii } else { 0 };
    proof {
        if ii > 0 {
            assert(stages <= schedule.bb1@.len()) by (nonlinear_arith)
                requires
                    stages == (schedule.bb1@.len() as int) / (ii as int),
                    ii >= 1,
            {}
        }
        assert(stages == stages_of(s0));
    }
    let step: i128 = stages as i128 + 1;
    let mut dm: HashMap<InstId, i128> = HashMap::new();
    rot_collect(&schedule.bb1, step, &mut dm);
    let ghost m1 = dm@;
    let mut next: usize = 1;
    inv_collect(program, &schedule.bb1, deps, &mut dm, &mut next);
    let ghost m2 = dm@;
    proof {
        assert forall|id: usize| id >= program.bb1_start && #[trigger] m2.contains_key(id) implies 0 <= m2[id] <= 0x100_0000_0000_0000_0000 by {
            assert(m1.contains_key(id));
        }
        assert forall|id: usize| #[trigger] m2.contains_key(id) implies -0x1_0000_0000_0000_0000_0000 <= m2[id] <= 0x1_0000_0000_0000_0000_0000 by {
            if m1.contains_key(id) {
            } else {
            }
        }
    }
    init_collect(program, deps, placement, start, ii, &mut dm);
    let ghost m3 = dm@;
    fresh_collect(&schedule.bb0, &mut dm, &mut next);
    fresh_collect(&schedule.bb2, &mut dm, &mut next);
    proof {
        assert(dm@ == rot_dests(prog, ds, placement@, s0));
        assert forall|id: usize| #[trigger] dm@.contains_key(id) implies -0x1_0000_0000_0000_0000_0000 <= dm@[id] <= 0x1_0000_0000_0000_0000_0000 by {
            if m3.contains_key(id) {
            } else {
            }
        }
        assert(rename_ready(prog, ds, dm@, placement@));
    }
    rot_rename_block(program, &mut schedule.bb0, deps, &dm, placement, start, ii, stages);
    rot_rename_block(program, &mut schedule.bb1, deps, &dm, placement, start, ii, stages);
    rot_rename_block(program, &mut schedule.bb2, deps, &dm, placement, start, ii, stages);
    proof {
        assert(schedule@ == rotated(prog, ds, placement@, s0));
    }
}

} // verus!
