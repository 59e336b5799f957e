//! Register allocation for the schedule of the plain `loop` instruction.
//!
//! 1. Every instruction that writes an x-register gets a fresh register
//!    x1, x2, … in scheduling order: bundle by bundle, and within a bundle
//!    the slots ALU0, ALU1, Mult, Mem, Branch.
//! 2. Every source operand reads its producer's new register; an interloop
//!    operand reads the register of its BB0 initializer when there is one.
//! 3. For every pair of a BB0 initializer and a BB1 producer of an
//!    interloop operand, a `mov` copies the BB1 value into the
//!    initializer's register before the loop branches back. The pairs with
//!    the latest ready cycle go first; each `mov` takes the latest free ALU
//!    slot (ALU0 before ALU1) between the cycle its source is ready and the
//!    loop bundle, and the loop is pushed down a bundle at a time where none
//!    is free.
//! 4. Every source operand without a producer gets a fresh register of its
//!    own, again in scheduling order.

use std::collections::HashMap;

use vstd::prelude::*;

use crate::scheduler::deps::{deps_of, deps_view};
use crate::scheduler::ir::{
    bundles_view, empty_bundle, lemma_bundle_len, unit_at, unit_index, Bundle, DepKind, Opcode, DepTable, ExecUnit, InstId, Instr,
    Instruction, Placement, Sched, Schedule,
};
use crate::scheduler::ir::latency_of;
use crate::scheduler::parser::{Prog, Program};
use crate::scheduler::schedule_simple::shaped;

verus! {

broadcast use vstd::std_specs::hash::group_hash_axioms;

// ------------------------------------------------------------------
// Phase 1: fresh registers for the producers.

/// The slot holds an instruction that writes an x-register.
pub open spec fn is_producer(o: Option<Instr>) -> bool {
    o matches Some(i) && i.dest_reg is Some
}

/// Number of producers among the first `k` slots of a bundle.
pub open spec fn producers_in(bd: Seq<Option<Instr>>, k: int) -> int
    decreases k,
{
    if k <= 0 {
        0
    } else {
        producers_in(bd, k - 1) + if is_producer(bd[k - 1]) {
            1int
        } else {
            0int
        }
    }
}

/// Number of producers in a block.
pub open spec fn producers(bs: Seq<Seq<Option<Instr>>>) -> int
    decreases bs.len(),
{
    if bs.len() == 0 {
        0
    } else {
        producers(bs.drop_last()) + producers_in(bs.last(), 5)
    }
}

/// Number of producers in a schedule.
pub open spec fn total_producers(s: Sched) -> int {
    producers(s.bb0) + producers(s.bb1) + producers(s.bb2)
}

/// `m` extended with the registers of the producers among the first `k`
/// slots of a bundle, numbered on from `base`; a later producer with the
/// same id takes over the entry.
pub open spec fn regs_in(bd: Seq<Option<Instr>>, k: int, base: int, m: Map<usize, u8>) -> Map<usize, u8>
    decreases k,
{
    if k <= 0 {
        m
    } else {
        let m1 = regs_in(bd, k - 1, base, m);
        if is_producer(bd[k - 1]) {
            m1.insert(bd[k - 1]->0.id, (base + producers_in(bd, k - 1)) as u8)
        } else {
            m1
        }
    }
}

/// `m` extended with the registers of the producers of a block.
pub open spec fn regs_block(bs: Seq<Seq<Option<Instr>>>, base: int, m: Map<usize, u8>) -> Map<usize, u8>
    decreases bs.len(),
{
    if bs.len() == 0 {
        m
    } else {
        regs_in(bs.last(), 5, base + producers(bs.drop_last()), regs_block(bs.drop_last(), base, m))
    }
}

/// The new register of every producer: x1 for the first in scheduling
/// order, x2 for the next, and so on.
pub open spec fn new_regs(s: Sched) -> Map<usize, u8> {
    let r0 = regs_block(s.bb0, 1, Map::empty());
    let r1 = regs_block(s.bb1, 1 + producers(s.bb0), r0);
    regs_block(s.bb2, 1 + producers(s.bb0) + producers(s.bb1), r1)
}

pub(crate) proof fn lemma_producers_in_bounds(bd: Seq<Option<Instr>>, j: int, k: int)
    requires
        0 <= j <= k,
    ensures
        0 <= producers_in(bd, j) <= producers_in(bd, k),
        producers_in(bd, k) <= k,
    decreases k,
{
    if k > 0 {
        if j < k {
            lemma_producers_in_bounds(bd, j, k - 1);
        } else {
            lemma_producers_in_bounds(bd, j - 1, k - 1);
        }
    }
}

proof fn lemma_producers_prefix(bs: Seq<Seq<Option<Instr>>>, i: int)
    requires
        0 <= i <= bs.len(),
    ensures
        0 <= producers(bs.subrange(0, i)) <= producers(bs),
    decreases bs.len(),
{
    if bs.len() > 0 {
        lemma_producers_in_bounds(bs.last(), 0, 5);
        if i == bs.len() {
            assert(bs.subrange(0, i) =~= bs);
            lemma_producers_prefix(bs.drop_last(), i - 1);
        } else {
            assert(bs.drop_last().subrange(0, i) =~= bs.subrange(0, i));
            lemma_producers_prefix(bs.drop_last(), i);
        }
    }
}

/// Extends `m` with the registers of the producers of `block`, numbered on
/// from `next`.
fn collect_regs(block: &Vec<Bundle>, next: &mut u8, m: &mut HashMap<InstId, u8>)
    requires
        *old(next) + producers(bundles_view(block@)) <= 255,
    ensures
        *final(next) == *old(next) + producers(bundles_view(block@)),
        final(m)@ == regs_block(bundles_view(block@), *old(next) as int, old(m)@),
{
    let ghost bv = bundles_view(block@);
    let ghost base = *next as int;
    let ghost m0 = m@;
    let mut nx: u8 = *next;
    let mut i: usize = 0;
    while i < block.len()
        invariant
            i <= block@.len(),
            bv == bundles_view(block@),
            base + producers(bv) <= 255,
            nx == base + producers(bv.subrange(0, i as int)),
            m@ == regs_block(bv.subrange(0, i as int), base, m0),
        decreases block@.len() - i,
    {
        let ghost pre = bv.subrange(0, i as int);
        let ghost bd = bv[i as int];
        proof {
            assert(bv.subrange(0, i + 1).drop_last() =~= pre);
            assert(bv.subrange(0, i + 1).last() == bd);
            lemma_producers_prefix(bv, i + 1);
        }
        let mut k: usize = 0;
        while k < 5
            invariant
                k <= 5,
                i < block@.len(),
                bd == block@[i as int]@,
                nx == base + producers(pre) + producers_in(bd, k as int),
                base + producers(pre) + producers_in(bd, 5) <= 255,
                m@ == regs_in(bd, k as int, base + producers(pre), regs_block(pre, base, m0)),
            decreases 5 - k,
        {
            let u = ExecUnit::from_idx(k);
            match block[i].get(u) {
                Some(instr) => {
                    if instr.dest_reg.is_some() {
                        proof {
                            lemma_producers_in_bounds(bd, k + 1, 5);
                        }
                        m.insert(instr.id, nx);
                        nx = nx + 1;
                    }
                },
                None => {},
            }
            k = k + 1;
        }
        i = i + 1;
    }
    proof {
        assert(bv.subrange(0, block@.len() as int) =~= bv);
    }
    *next = nx;
}

// ------------------------------------------------------------------
// Phase 2: operands read their producers' new registers.

/// The producer whose register an operand reads: the BB0 initializer of an
/// interloop operand where there is one.
pub open spec fn producer_of(d: Option<DepKind>) -> Option<usize> {
    match d {
        Some(DepKind::Local(p)) => Some(p),
        Some(DepKind::LoopInvariant(p)) => Some(p),
        Some(DepKind::PostLoop(p)) => Some(p),
        Some(DepKind::Interloop { bb0, bb1 }) => match bb0 {
            Some(p0) => Some(p0),
            None => Some(bb1),
        },
        None => None,
    }
}

/// Operand `j` of `i` is rewritten to the new register `nr` gives its producer.
pub open spec fn reads_renamed(i: Instr, ds: Seq<Seq<Option<DepKind>>>, nr: Map<usize, u8>, j: int) -> bool {
    &&& i.id < ds.len()
    &&& j < ds[i.id as int].len()
    &&& producer_of(ds[i.id as int][j]) is Some
    &&& nr.contains_key(producer_of(ds[i.id as int][j])->0)
}

/// An instruction after phases 1 and 2.
pub open spec fn renamed(i: Instr, ds: Seq<Seq<Option<DepKind>>>, nr: Map<usize, u8>) -> Instr {
    Instr {
        dest_reg: if nr.contains_key(i.id) {
            Some(nr[i.id])
        } else {
            i.dest_reg
        },
        src_regs: Seq::new(
            i.src_regs.len(),
            |j: int|
                if reads_renamed(i, ds, nr, j) {
                    nr[producer_of(ds[i.id as int][j])->0]
                } else {
                    i.src_regs[j]
                },
        ),
        ..i
    }
}

pub open spec fn renamed_opt(o: Option<Instr>, ds: Seq<Seq<Option<DepKind>>>, nr: Map<usize, u8>) -> Option<Instr> {
    match o {
        Some(i) => Some(renamed(i, ds, nr)),
        None => None,
    }
}

/// A block after phases 1 and 2.
pub open spec fn renamed_block(bs: Seq<Seq<Option<Instr>>>, ds: Seq<Seq<Option<DepKind>>>, nr: Map<usize, u8>) -> Seq<Seq<Option<Instr>>> {
    Seq::new(bs.len(), |b: int| Seq::new(bs[b].len(), |k: int| renamed_opt(bs[b][k], ds, nr)))
}

/// A schedule after phases 1 and 2.
pub open spec fn renamed_sched(s: Sched, ds: Seq<Seq<Option<DepKind>>>, nr: Map<usize, u8>) -> Sched {
    Sched {
        bb0: renamed_block(s.bb0, ds, nr),
        bb1: renamed_block(s.bb1, ds, nr),
        bb2: renamed_block(s.bb2, ds, nr),
        ii: s.ii,
    }
}

fn rename_instr(ins: &Instruction, deps: &DepTable, nr: &HashMap<InstId, u8>) -> (r: Instruction)
    ensures
        r@ == renamed(ins@, deps_view(deps@), nr@),
{
    let ghost ds = deps_view(deps@);
    let ghost want = renamed(ins@, ds, nr@);
    let mut r = ins.clone();
    match nr.get(&ins.id) {
        Some(v) => {
            r.dest_reg = Some(*v);
        },
        None => {},
    }
    if ins.id < deps.len() {
        let dv = &deps[ins.id].src_deps;
        assert(dv@ == ds[ins.id as int]);
        let mut j: usize = 0;
        while j < dv.len()
            invariant
                ins.id < deps@.len(),
                dv@ == ds[ins.id as int],
                ds == deps_view(deps@),
                want == renamed(ins@, ds, nr@),
                j <= dv@.len(),
                r@.dest_reg == want.dest_reg,
                r@ == (Instr { src_regs: r@.src_regs, ..want }),
                r.src_regs@.len() == ins.src_regs@.len(),
                forall|jj: int|
                    0 <= jj < r.src_regs@.len() ==> #[trigger] r.src_regs@[jj] == if jj < j {
                        want.src_regs[jj]
                    } else {
                        ins.src_regs@[jj]
                    },
            decreases dv@.len() - j,
        {
            let p: Option<InstId> = match dv[j] {
                Some(DepKind::Local(p)) => Some(p),
                Some(DepKind::LoopInvariant(p)) => Some(p),
                Some(DepKind::PostLoop(p)) => Some(p),
                Some(DepKind::Interloop { bb0, bb1 }) => match bb0 {
                    Some(p0) => Some(p0),
                    None => Some(bb1),
                },
                None => None,
            };
            assert(p == producer_of(ds[ins.id as int][j as int]));
            match p {
                Some(pp) => match nr.get(&pp) {
                    Some(v) => {
                        if j < r.src_regs.len() {
                            r.src_regs.set(j, *v);
                        }
                    },
                    None => {},
                },
                None => {},
            }
            j = j + 1;
        }
    }
    assert(r@.src_regs =~= want.src_regs);
    r
}

/// Applies phases 1 and 2 to every instruction of a block.
fn rename_block(block: &mut Vec<Bundle>, deps: &DepTable, nr: &HashMap<InstId, u8>)
    ensures
        bundles_view(final(block)@) == renamed_block(bundles_view(old(block)@), deps_view(deps@), nr@),
{
    let ghost ds = deps_view(deps@);
    let ghost ob = bundles_view(block@);
    let mut i: usize = 0;
    while i < block.len()
        invariant
            i <= block@.len(),
            block@.len() == ob.len(),
            ds == deps_view(deps@),
            forall|b: int|
                0 <= b < block@.len() ==> (#[trigger] block@[b])@ == if b < i {
                    renamed_block(ob, ds, nr@)[b]
                } else {
                    ob[b]
                },
        decreases block@.len() - i,
    {
        let ghost bd = ob[i as int];
        proof {
            lemma_bundle_len(&block@[i as int]);
        }
        let mut k: usize = 0;
        while k < 5
            invariant
                i < block@.len(),
                block@.len() == ob.len(),
                ds == deps_view(deps@),
                bd == ob[i as int],
                bd.len() == 5,
                k <= 5,
                forall|b: int|
                    0 <= b < block@.len() && b != i ==> (#[trigger] block@[b])@ == if b < i {
                        renamed_block(ob, ds, nr@)[b]
                    } else {
                        ob[b]
                    },
                block@[i as int]@.len() == 5,
                forall|kk: int|
                    0 <= kk < 5 ==> #[trigger] block@[i as int]@[kk] == if kk < k {
                        renamed_opt(bd[kk], ds, nr@)
                    } else {
                        bd[kk]
                    },
            decreases 5 - k,
        {
            let u = ExecUnit::from_idx(k);
            let new: Option<Instruction> = match block[i].get(u) {
                Some(ins) => Some(rename_instr(ins, deps, nr)),
                None => None,
            };
            match new {
                Some(x) => {
                    block[i].set(u, x);
                },
                None => {},
            }
            k = k + 1;
        }
        proof {
            assert(block@[i as int]@ =~= renamed_block(ob, ds, nr@)[i as int]);
        }
        i = i + 1;
    }
    proof {
        assert(bundles_view(block@) =~= renamed_block(ob, ds, nr@));
    }
}

// ------------------------------------------------------------------
// Phase 4: fresh registers for operands without a producer.

/// Operand `j` of `i` has no producer.
pub open spec fn unused_at(i: Instr, ds: Seq<Seq<Option<DepKind>>>, j: int) -> bool {
    &&& i.id < ds.len()
    &&& 0 <= j < ds[i.id as int].len()
    &&& j < i.src_regs.len()
    &&& ds[i.id as int][j] is None
}

/// Number of operands without a producer among the first `j` of `i`.
pub open spec fn unused_upto(i: Instr, ds: Seq<Seq<Option<DepKind>>>, j: int) -> int
    decreases j,
{
    if j <= 0 {
        0
    } else {
        unused_upto(i, ds, j - 1) + if unused_at(i, ds, j - 1) {
            1int
        } else {
            0int
        }
    }
}

/// Number of operands without a producer of the instruction in a slot.
pub open spec fn unused_of(o: Option<Instr>, ds: Seq<Seq<Option<DepKind>>>) -> int {
    match o {
        Some(i) => if i.id < ds.len() {
            unused_upto(i, ds, ds[i.id as int].len() as int)
        } else {
            0
        },
        None => 0,
    }
}

/// Number of operands without a producer in the first `k` slots of a bundle.
pub open spec fn unused_in(bd: Seq<Option<Instr>>, k: int, ds: Seq<Seq<Option<DepKind>>>) -> int
    decreases k,
{
    if k <= 0 {
        0
    } else {
        unused_in(bd, k - 1, ds) + unused_of(bd[k - 1], ds)
    }
}

/// Number of operands without a producer in a block.
pub open spec fn unused(bs: Seq<Seq<Option<Instr>>>, ds: Seq<Seq<Option<DepKind>>>) -> int
    decreases bs.len(),
{
    if bs.len() == 0 {
        0
    } else {
        unused(bs.drop_last(), ds) + unused_in(bs.last(), 5, ds)
    }
}

/// Number of operands without a producer in a schedule.
pub open spec fn total_unused(s: Sched, ds: Seq<Seq<Option<DepKind>>>) -> int {
    unused(s.bb0, ds) + unused(s.bb1, ds) + unused(s.bb2, ds)
}

/// `i` with its operands without a producer numbered on from `base`.
pub open spec fn filled(i: Instr, ds: Seq<Seq<Option<DepKind>>>, base: int) -> Instr {
    Instr {
        src_regs: Seq::new(
            i.src_regs.len(),
            |j: int|
                if unused_at(i, ds, j) {
                    (base + unused_upto(i, ds, j)) as u8
                } else {
                    i.src_regs[j]
                },
        ),
        ..i
    }
}

pub open spec fn filled_opt(o: Option<Instr>, ds: Seq<Seq<Option<DepKind>>>, base: int) -> Option<Instr> {
    match o {
        Some(i) => Some(filled(i, ds, base)),
        None => None,
    }
}

pub open spec fn filled_bundle(bd: Seq<Option<Instr>>, ds: Seq<Seq<Option<DepKind>>>, base: int) -> Seq<Option<Instr>> {
    Seq::new(bd.len(), |k: int| filled_opt(bd[k], ds, base + unused_in(bd, k, ds)))
}

/// A block after phase 4, numbering from `base`.
pub open spec fn filled_block(bs: Seq<Seq<Option<Instr>>>, ds: Seq<Seq<Option<DepKind>>>, base: int) -> Seq<Seq<Option<Instr>>> {
    Seq::new(bs.len(), |b: int| filled_bundle(bs[b], ds, base + unused(bs.subrange(0, b), ds)))
}

/// A schedule after phase 4, numbering from `base`.
pub open spec fn filled_sched(s: Sched, ds: Seq<Seq<Option<DepKind>>>, base: int) -> Sched {
    Sched {
        bb0: filled_block(s.bb0, ds, base),
        bb1: filled_block(s.bb1, ds, base + unused(s.bb0, ds)),
        bb2: filled_block(s.bb2, ds, base + unused(s.bb0, ds) + unused(s.bb1, ds)),
        ii: s.ii,
    }
}

proof fn lemma_unused_upto_bounds(i: Instr, ds: Seq<Seq<Option<DepKind>>>, j: int, k: int)
    requires
        0 <= j <= k,
    ensures
        0 <= unused_upto(i, ds, j) <= unused_upto(i, ds, k),
    decreases k,
{
    if k > 0 {
        lemma_unused_upto_bounds(i, ds, if j < k { j } else { k - 1 }, k - 1);
    }
}

proof fn lemma_unused_in_bounds(bd: Seq<Option<Instr>>, ds: Seq<Seq<Option<DepKind>>>, j: int, k: int)
    requires
        0 <= j <= k,
    ensures
        0 <= unused_in(bd, j, ds) <= unused_in(bd, k, ds),
    decreases k,
{
    if k > 0 {
        lemma_unused_in_bounds(bd, ds, if j < k { j } else { k - 1 }, k - 1);
        match bd[k - 1] {
            Some(i) => if i.id < ds.len() {
                lemma_unused_upto_bounds(i, ds, 0, ds[i.id as int].len() as int);
            },
            None => {},
        }
    }
}

proof fn lemma_unused_prefix(bs: Seq<Seq<Option<Instr>>>, ds: Seq<Seq<Option<DepKind>>>, i: int)
    requires
        0 <= i <= bs.len(),
    ensures
        0 <= unused(bs.subrange(0, i), ds) <= unused(bs, ds),
    decreases bs.len(),
{
    if bs.len() > 0 {
        lemma_unused_in_bounds(bs.last(), ds, 0, 5);
        if i == bs.len() {
            assert(bs.subrange(0, i) =~= bs);
            lemma_unused_prefix(bs.drop_last(), ds, i - 1);
        } else {
            assert(bs.drop_last().subrange(0, i) =~= bs.subrange(0, i));
            lemma_unused_prefix(bs.drop_last(), ds, i);
        }
    }
}

/// `ins` with its operands without a producer numbered on from `next`, and
/// the next free number.
fn fill_instr(ins: &Instruction, deps: &DepTable, next: u8) -> (r: (Instruction, u8))
    requires
        next + unused_of(Some(ins@), deps_view(deps@)) <= 255,
    ensures
        r.0@ == filled(ins@, deps_view(deps@), next as int),
        r.1 == next + unused_of(Some(ins@), deps_view(deps@)),
{
    let ghost ds = deps_view(deps@);
    let ghost want = filled(ins@, ds, next as int);
    let mut r = ins.clone();
    let mut nx = next;
    if ins.id < deps.len() {
        let dv = &deps[ins.id].src_deps;
        assert(dv@ == ds[ins.id as int]);
        let mut j: usize = 0;
        while j < dv.len()
            invariant
                ins.id < deps@.len(),
                dv@ == ds[ins.id as int],
                ds == deps_view(deps@),
                want == filled(ins@, ds, next as int),
                next + unused_upto(ins@, ds, dv@.len() as int) <= 255,
                j <= dv@.len(),
                nx == next + unused_upto(ins@, ds, j as int),
                r@ == (Instr { src_regs: r@.src_regs, ..want }),
                r.src_regs@.len() == ins.src_regs@.len(),
                forall|jj: int|
                    0 <= jj < r.src_regs@.len() ==> #[trigger] r.src_regs@[jj] == if jj < j {
                        want.src_regs[jj]
                    } else {
                        ins.src_regs@[jj]
                    },
            decreases dv@.len() - j,
        {
            if dv[j].is_none() && j < r.src_regs.len() {
                proof {
                    lemma_unused_upto_bounds(ins@, ds, j + 1, dv@.len() as int);
                }
                r.src_regs.set(j, nx);
                nx = nx + 1;
            }
            j = j + 1;
        }
    }
    assert(r@.src_regs =~= want.src_regs);
    (r, nx)
}

/// Applies phase 4 to a block, numbering on from `next`.
#[verifier::spinoff_prover]
fn fill_block(block: &mut Vec<Bundle>, deps: &DepTable, next: &mut u8)
    requires
        *old(next) + unused(bundles_view(old(block)@), deps_view(deps@)) <= 255,
    ensures
        bundles_view(final(block)@) == filled_block(bundles_view(old(block)@), deps_view(deps@), *old(next) as int),
        *final(next) == *old(next) + unused(bundles_view(old(block)@), deps_view(deps@)),
{
    let ghost ds = deps_view(deps@);
    let ghost ob = bundles_view(block@);
    let ghost base = *next as int;
    let mut nx: u8 = *next;
    let mut i: usize = 0;
    while i < block.len()
        invariant
            i <= block@.len(),
            block@.len() == ob.len(),
            ds == deps_view(deps@),
            base + unused(ob, ds) <= 255,
            nx == base + unused(ob.subrange(0, i as int), ds),
            forall|b: int|
                0 <= b < block@.len() ==> (#[trigger] block@[b])@ == if b < i {
                    filled_block(ob, ds, base)[b]
                } else {
                    ob[b]
                },
        decreases block@.len() - i,
    {
        let ghost bd = ob[i as int];
        let ghost pre = ob.subrange(0, i as int);
        proof {
            lemma_bundle_len(&block@[i as int]);
            assert(ob.subrange(0, i + 1).drop_last() =~= pre);
            assert(ob.subrange(0, i + 1).last() == bd);
            lemma_unused_prefix(ob, ds, i + 1);
        }
        let mut k: usize = 0;
        while k < 5
            invariant
                i < block@.len(),
                block@.len() == ob.len(),
                ds == deps_view(deps@),
                bd == ob[i as int],
                bd.len() == 5,
                pre == ob.subrange(0, i as int),
                k <= 5,
                base + unused(pre, ds) + unused_in(bd, 5, ds) <= 255,
                nx == base + unused(pre, ds) + unused_in(bd, k as int, ds),
                forall|b: int|
                    0 <= b < block@.len() && b != i ==> (#[trigger] block@[b])@ == if b < i {
                        filled_block(ob, ds, base)[b]
                    } else {
                        ob[b]
                    },
                block@[i as int]@.len() == 5,
                forall|kk: int|
                    0 <= kk < 5 ==> #[trigger] block@[i as int]@[kk] == if kk < k {
                        filled_opt(bd[kk], ds, base + unused(pre, ds) + unused_in(bd, kk, ds))
                    } else {
                        bd[kk]
                    },
            decreases 5 - k,
        {
            let u = ExecUnit::from_idx(k);
            proof {
                lemma_unused_in_bounds(bd, ds, k + 1, 5);
            }
            let new: Option<Instruction> = match block[i].get(u) {
                Some(ins) => {
                    let (x, n2) = fill_instr(ins, deps, nx);
                    nx = n2;
                    Some(x)
                },
                None => None,
            };
            match new {
                Some(x) => {
                    block[i].set(u, x);
                },
                None => {},
            }
            k = k + 1;
        }
        proof {
            assert(block@[i as int]@ =~= filled_block(ob, ds, base)[i as int]);
        }
        i = i + 1;
    }
    proof {
        assert(ob.subrange(0, block@.len() as int) =~= ob);
        assert(bundles_view(block@) =~= filled_block(ob, ds, base));
    }
    *next = nx;
}

// ------------------------------------------------------------------
// Phase 3: copies closing the interloop dependencies.

/// The (BB0 initializer, BB1 producer) pair of an interloop operand that
/// has an initializer.
pub open spec fn interloop_pair(d: Option<DepKind>) -> Option<(usize, usize)> {
    match d {
        Some(DepKind::Interloop { bb0: Some(p0), bb1 }) => Some((p0, bb1)),
        _ => None,
    }
}

/// `acc` extended, in order and without repeats, with the pairs of the
/// first `k` operands.
pub open spec fn pairs_in(d: Seq<Option<DepKind>>, k: int, acc: Seq<(usize, usize)>) -> Seq<(usize, usize)>
    decreases k,
{
    if k <= 0 {
        acc
    } else {
        let a = pairs_in(d, k - 1, acc);
        match interloop_pair(d[k - 1]) {
            Some(p) => if a.contains(p) {
                a
            } else {
                a.push(p)
            },
            None => a,
        }
    }
}

/// The distinct pairs of the first `c` instructions, in order of first
/// occurrence.
pub open spec fn pairs_upto(ds: Seq<Seq<Option<DepKind>>>, c: int) -> Seq<(usize, usize)>
    decreases c,
{
    if c <= 0 {
        seq![]
    } else {
        pairs_in(ds[c - 1], ds[c - 1].len() as int, pairs_upto(ds, c - 1))
    }
}

/// The distinct interloop pairs of the program, in order of first occurrence.
pub open spec fn interloop_pairs(ds: Seq<Seq<Option<DepKind>>>) -> Seq<(usize, usize)> {
    pairs_upto(ds, ds.len() as int)
}

/// The pairs with the cycle from which the BB1 producer's value is ready.
pub open spec fn with_ready(pairs: Seq<(usize, usize)>, prog: Prog, pl: Map<usize, Placement>) -> Seq<(usize, usize, usize)> {
    Seq::new(
        pairs.len(),
        |j: int|
            (
                pairs[j].0,
                pairs[j].1,
                (pl[pairs[j].1].bundle + latency_of(prog.instrs[pairs[j].1 as int].opcode)) as usize,
            ),
    )
}

/// `s` with `x` inserted after every entry that is ready no earlier.
pub open spec fn insert_desc(s: Seq<(usize, usize, usize)>, x: (usize, usize, usize)) -> Seq<(usize, usize, usize)>
    decreases s.len(),
{
    if s.len() == 0 {
        seq![x]
    } else if s[0].2 < x.2 {
        seq![x] + s
    } else {
        seq![s[0]] + insert_desc(s.drop_first(), x)
    }
}

/// Stable sort by descending ready cycle.
pub open spec fn sort_desc(s: Seq<(usize, usize, usize)>) -> Seq<(usize, usize, usize)>
    decreases s.len(),
{
    if s.len() == 0 {
        seq![]
    } else {
        insert_desc(sort_desc(s.drop_last()), s.last())
    }
}

/// The copies to insert, in the order they are placed.
pub open spec fn mov_order(prog: Prog, ds: Seq<Seq<Option<DepKind>>>, pl: Map<usize, Placement>) -> Seq<(usize, usize, usize)> {
    sort_desc(with_ready(interloop_pairs(ds), prog, pl))
}

fn has_pair(v: &Vec<(usize, usize)>, p: (usize, usize)) -> (b: bool)
    ensures
        b == v@.contains(p),
{
    let mut i: usize = 0;
    while i < v.len()
        invariant
            i <= v@.len(),
            forall|j: int| 0 <= j < i ==> v@[j] != p,
        decreases v@.len() - i,
    {
        if v[i].0 == p.0 && v[i].1 == p.1 {
            assert(v@[i as int] == p);
            return true;
        }
        i = i + 1;
    }
    false
}

fn collect_pairs(deps: &DepTable) -> (v: Vec<(usize, usize)>)
    ensures
        v@ == interloop_pairs(deps_view(deps@)),
{
    let ghost ds = deps_view(deps@);
    let mut v: Vec<(usize, usize)> = Vec::new();
    let mut c: usize = 0;
    while c < deps.len()
        invariant
            c <= deps@.len(),
            ds == deps_view(deps@),
            v@ == pairs_upto(ds, c as int),
        decreases deps@.len() - c,
    {
        let dv = &deps[c].src_deps;
        assert(dv@ == ds[c as int]);
        let ghost acc = v@;
        let mut k: usize = 0;
        while k < dv.len()
            invariant
                c < deps@.len(),
                dv@ == ds[c as int],
                ds == deps_view(deps@),
                acc == pairs_upto(ds, c as int),
                k <= dv@.len(),
                v@ == pairs_in(dv@, k as int, acc),
            decreases dv@.len() - k,
        {
            match dv[k] {
                Some(DepKind::Interloop { bb0: Some(p0), bb1 }) => {
                    if !has_pair(&v, (p0, bb1)) {
                        v.push((p0, bb1));
                    }
                },
                _ => {},
            }
            k = k + 1;
        }
        c = c + 1;
    }
    v
}

/// `p` is the pair of an interloop operand of one of the first `c` instructions.
pub open spec fn pair_of_operand(ds: Seq<Seq<Option<DepKind>>>, c: int, p: (usize, usize)) -> bool {
    exists|c2: int, k2: int| 0 <= c2 < c && 0 <= k2 < ds[c2].len() && interloop_pair(#[trigger] ds[c2][k2]) == Some(p)
}

/// Every pair comes from an interloop operand of some instruction.
proof fn lemma_pairs_from(ds: Seq<Seq<Option<DepKind>>>, c: int)
    requires
        0 <= c <= ds.len(),
    ensures
        forall|j: int|
            0 <= j < pairs_upto(ds, c).len() ==> pair_of_operand(ds, c, #[trigger] pairs_upto(ds, c)[j]),
    decreases c,
{
    if c > 0 {
        lemma_pairs_from(ds, c - 1);
        lemma_pairs_in_from(ds, c - 1, ds[c - 1].len() as int);
        let ps = pairs_upto(ds, c);
        assert(ps == pairs_in(ds[c - 1], ds[c - 1].len() as int, pairs_upto(ds, c - 1)));
        assert forall|j: int| 0 <= j < ps.len() implies pair_of_operand(ds, c, #[trigger] ps[j]) by {
            assert(pair_of_operand(ds, (c - 1) + 1, ps[j]));
        }
    }
}

proof fn lemma_pairs_in_from(ds: Seq<Seq<Option<DepKind>>>, c: int, k: int)
    requires
        0 <= c < ds.len(),
        0 <= k <= ds[c].len(),
        forall|j: int|
            0 <= j < pairs_upto(ds, c).len() ==> pair_of_operand(ds, c, #[trigger] pairs_upto(ds, c)[j]),
    ensures
        forall|j: int|
            0 <= j < pairs_in(ds[c], k, pairs_upto(ds, c)).len() ==> pair_of_operand(ds, c + 1, #[trigger] pairs_in(ds[c], k, pairs_upto(ds, c))[j]),
    decreases k,
{
    if k == 0 {
        assert forall|j: int| 0 <= j < pairs_upto(ds, c).len() implies pair_of_operand(ds, c + 1, #[trigger] pairs_upto(ds, c)[j]) by {
            assert(pair_of_operand(ds, c, pairs_upto(ds, c)[j]));
            let (c2, k2) = choose|c2: int, k2: int| 0 <= c2 < c && 0 <= k2 < ds[c2].len() && interloop_pair(#[trigger] ds[c2][k2]) == Some(pairs_upto(ds, c)[j]);
            assert(interloop_pair(ds[c2][k2]) == Some(pairs_upto(ds, c)[j]));
        }
    } else {
        lemma_pairs_in_from(ds, c, k - 1);
        let a = pairs_in(ds[c], k - 1, pairs_upto(ds, c));
        assert forall|j: int| 0 <= j < pairs_in(ds[c], k, pairs_upto(ds, c)).len() implies pair_of_operand(ds, c + 1, #[trigger] pairs_in(ds[c], k, pairs_upto(ds, c))[j]) by {
            if j == a.len() {
                assert(interloop_pair(ds[c][k - 1]) == Some(pairs_in(ds[c], k, pairs_upto(ds, c))[j]));
            } else {
                assert(pairs_in(ds[c], k, pairs_upto(ds, c))[j] == a[j]);
                assert(pair_of_operand(ds, c + 1, a[j]));
            }
        }
    }
}

proof fn lemma_insert_desc(s: Seq<(usize, usize, usize)>, x: (usize, usize, usize), j: int)
    requires
        0 <= j <= s.len(),
        forall|i: int| 0 <= i < j ==> s[i].2 >= x.2,
        j < s.len() ==> s[j].2 < x.2,
    ensures
        insert_desc(s, x) == s.insert(j, x),
    decreases j,
{
    if j == 0 {
        if s.len() == 0 {
            assert(s.insert(j, x) =~= seq![x]);
        } else {
            assert(s.insert(j, x) =~= seq![x] + s);
        }
    } else {
        lemma_insert_desc(s.drop_first(), x, j - 1);
        assert(s.insert(j, x) =~= seq![s[0]] + s.drop_first().insert(j - 1, x));
    }
}

/// The copies to insert with their ready cycles, latest first.
fn interloop_movs(program: &Program, deps: &DepTable, placement: &HashMap<InstId, Placement>) -> (v: Vec<(InstId, InstId, usize)>)
    requires
        program@.wf(),
        deps_of(program@, deps_view(deps@)),
        forall|j: int|
            0 <= j < interloop_pairs(deps_view(deps@)).len() ==> {
                let p1 = #[trigger] interloop_pairs(deps_view(deps@))[j].1;
                &&& placement@.contains_key(p1)
                &&& placement@[p1].bundle <= usize::MAX / 8
            },
    ensures
        v@ == mov_order(program@, deps_view(deps@), placement@),
{
    let ghost ds = deps_view(deps@);
    let ghost prog = program@;
    let pairs = collect_pairs(deps);
    proof {
        lemma_pairs_from(ds, ds.len() as int);
        crate::scheduler::deps::lemma_deps_in_place(prog, ds);
    }
    let ghost t = with_ready(pairs@, prog, placement@);
    let mut v: Vec<(InstId, InstId, usize)> = Vec::new();
    let mut i: usize = 0;
    while i < pairs.len()
        invariant
            i <= pairs@.len(),
            pairs@ == interloop_pairs(ds),
            ds == deps_view(deps@),
            prog == program@,
            prog.wf(),
            deps_of(prog, ds),
            t == with_ready(pairs@, prog, placement@),
            forall|j: int| 0 <= j < pairs@.len() ==> pair_of_operand(ds, ds.len() as int, #[trigger] pairs@[j]),
            forall|c: int, k: int|
                0 <= c < ds.len() && 0 <= k < ds[c].len() ==> crate::scheduler::deps::dep_in_place(prog, c, #[trigger] ds[c][k]),
            forall|j: int|
                0 <= j < pairs@.len() ==> {
                    let p1 = #[trigger] pairs@[j].1;
                    &&& placement@.contains_key(p1)
                    &&& placement@[p1].bundle <= usize::MAX / 8
                },
            v@ == sort_desc(t.subrange(0, i as int)),
        decreases pairs@.len() - i,
    {
        let (p0, p1) = pairs[i];
        proof {
            let (c2, k2) = choose|c2: int, k2: int|
                0 <= c2 < ds.len() && 0 <= k2 < ds[c2].len() && interloop_pair(#[trigger] ds[c2][k2])
                    == Some(pairs@[i as int]);
            assert(crate::scheduler::deps::dep_in_place(prog, c2, ds[c2][k2]));
            assert(p1 < prog.instrs.len());
            assert(pairs@[i as int].1 == p1);
        }
        let b = match placement.get(&p1) {
            Some(pl) => pl.bundle,
            None => 0,
        };
        let ready = b + program.instrs[p1].latency();
        let x = (p0, p1, ready);
        assert(x == t[i as int]);
        let mut j: usize = 0;
        while j < v.len() && !(v[j].2 < ready)
            invariant
                j <= v@.len(),
                x.2 == ready,
                forall|jj: int| 0 <= jj < j ==> v@[jj].2 >= x.2,
            decreases v@.len() - j,
        {
            j = j + 1;
        }
        proof {
            lemma_insert_desc(v@, x, j as int);
            assert(t.subrange(0, i + 1).drop_last() =~= t.subrange(0, i as int));
        }
        v.insert(j, x);
        i = i + 1;
    }
    proof {
        assert(t.subrange(0, pairs@.len() as int) =~= t);
    }
    v
}

/// The slot holds the instruction with id `id`.
pub open spec fn has_id(o: Option<Instr>, id: usize) -> bool {
    o matches Some(i) && i.id == id
}

/// `(b, k)` is the only slot of the block that holds the instruction `id`.
pub open spec fn sole_slot(bs: Seq<Seq<Option<Instr>>>, id: usize, b: int, k: int) -> bool {
    &&& 0 <= b < bs.len()
    &&& 0 <= k < 5
    &&& has_id(bs[b][k], id)
    &&& forall|b2: int, k2: int|
        0 <= b2 < bs.len() && 0 <= k2 < 5 && #[trigger] has_id(bs[b2][k2], id) ==> b2 == b && k2 == k
}

/// The instruction `id` sits in exactly one slot of the block.
pub open spec fn occurs_once(bs: Seq<Seq<Option<Instr>>>, id: usize) -> bool {
    exists|b: int, k: int| sole_slot(bs, id, b, k)
}

/// The slot of an instruction that occurs once.
pub open spec fn slot_of_id(bs: Seq<Seq<Option<Instr>>>, id: usize) -> (int, int) {
    choose|b: int, k: int| sole_slot(bs, id, b, k)
}

/// `s` with the slot `k` of output bundle `b` set to `x`.
pub open spec fn sched_set(s: Sched, b: int, k: int, x: Option<Instr>) -> Sched {
    let l0 = s.bb0.len() as int;
    let l1 = s.bb1.len() as int;
    if b < l0 {
        Sched { bb0: s.bb0.update(b, s.bb0[b].update(k, x)), ..s }
    } else if b < l0 + l1 {
        Sched { bb1: s.bb1.update(b - l0, s.bb1[b - l0].update(k, x)), ..s }
    } else {
        Sched { bb2: s.bb2.update(b - l0 - l1, s.bb2[b - l0 - l1].update(k, x)), ..s }
    }
}

/// The latest bundle in `[lo, hi]` whose slot `k` is free.
pub open spec fn latest_free(f: Seq<Seq<Option<Instr>>>, lo: int, hi: int, k: int) -> Option<int>
    decreases hi - lo + 1,
{
    if hi < lo {
        None
    } else if f[hi][k] is None {
        Some(hi)
    } else {
        latest_free(f, lo, hi - 1, k)
    }
}

/// The slot a copy takes in `[lo, hi]`: the latest free ALU0, else the
/// latest free ALU1.
pub open spec fn mov_slot(f: Seq<Seq<Option<Instr>>>, lo: int, hi: int) -> Option<(int, int)> {
    match latest_free(f, lo, hi, 0) {
        Some(b) => Some((b, 0)),
        None => match latest_free(f, lo, hi, 1) {
            Some(b) => Some((b, 1)),
            None => None,
        },
    }
}

/// `s` after the loop instruction `id` was pushed down `j >= 1` times: its
/// old slot is empty, `j - 1` empty bundles follow the body, and the last
/// body bundle holds only the loop instruction.
pub open spec fn after_pushes(s: Sched, id: usize, j: int) -> Sched {
    let (rel, u) = slot_of_id(s.bb1, id);
    let bb1 = s.bb1.update(rel, s.bb1[rel].update(u, None)) + Seq::new((j - 1) as nat, |x: int| empty_bundle())
        + seq![empty_bundle().update(4, s.bb1[rel][u])];
    Sched { bb1, ii: bb1.len() as usize, ..s }
}

/// `s` with a copy `mov` placed for a value ready from cycle `min`, the loop
/// instruction `id` pushed down as far as needed.
pub open spec fn placed_mov(s: Sched, id: usize, min: int, mov: Instr) -> Sched {
    let (rel, u) = slot_of_id(s.bb1, id);
    match mov_slot(s.flat(), min, s.bb0.len() + rel) {
        Some(bk) => sched_set(s, bk.0, bk.1, Some(mov)),
        None => {
            let b0 = s.bb0.len() + s.bb1.len();
            let pushes = if min >= b0 {
                min - b0 + 1
            } else {
                1
            };
            sched_set(after_pushes(s, id, pushes), b0 + pushes - 1, 0, Some(mov))
        },
    }
}

/// The copy `mov xdst, xsrc`.
pub open spec fn mov_instr(dst: u8, src: u8, id: usize) -> Instr {
    Instr {
        id,
        opcode: Opcode::MovReg,
        pred: None,
        dest_reg: Some(dst),
        dest_pred: None,
        dest_special: None,
        src_regs: seq![src],
        imm: None,
        imm_bool: None,
        label: None,
    }
}

/// `s` with the copies for `movs` placed in order, numbered from `first`.
pub open spec fn movs_placed(
    s: Sched,
    id: usize,
    movs: Seq<(usize, usize, usize)>,
    nr: Map<usize, u8>,
    first: int,
) -> Sched
    decreases movs.len(),
{
    if movs.len() == 0 {
        s
    } else {
        let m = movs.last();
        placed_mov(
            movs_placed(s, id, movs.drop_last(), nr, first),
            id,
            m.2 as int,
            mov_instr(nr[m.0], nr[m.1], (first + movs.len() - 1) as usize),
        )
    }
}

/// The bundle and slot of the instruction `id`, relative to BB1.
fn find_loop_bundle(schedule: &Schedule, id: InstId) -> (r: (usize, usize))
    requires
        occurs_once(schedule@.bb1, id),
    ensures
        (r.0 as int, r.1 as int) == slot_of_id(schedule@.bb1, id),
        r.0 < schedule@.bb1.len(),
        r.1 < 5,
{
    let ghost bs = schedule@.bb1;
    let ghost (rb, rk) = slot_of_id(bs, id);
    let mut b: usize = 0;
    while b < schedule.bb1.len()
        invariant
            bs == schedule@.bb1,
            sole_slot(bs, id, rb, rk),
            b <= rb,
        decreases schedule@.bb1.len() - b,
    {
        let mut k: usize = 0;
        while k < 5
            invariant
                bs == schedule@.bb1,
                sole_slot(bs, id, rb, rk),
                b <= rb,
                b < bs.len(),
                k <= 5,
                b == rb ==> k <= rk,
            decreases 5 - k,
        {
            match schedule.bb1[b].get(ExecUnit::from_idx(k)) {
                Some(ins) => {
                    if ins.id == id {
                        assert(has_id(bs[b as int][k as int], id));
                        return (b, k);
                    }
                },
                None => {},
            }
            k = k + 1;
        }
        b = b + 1;
    }
    (0, 0)
}

/// The latest bundle in `[lo, hi]` whose unit `u` is free.
fn latest_free_slot(schedule: &Schedule, lo: usize, hi: usize, u: ExecUnit) -> (r: Option<usize>)
    requires
        hi < schedule@.flat().len(),
        hi < usize::MAX,
    ensures
        match r {
            Some(b) => latest_free(schedule@.flat(), lo as int, hi as int, unit_index(u)) == Some(b as int),
            None => latest_free(schedule@.flat(), lo as int, hi as int, unit_index(u)) is None,
        },
{
    let ghost f = schedule@.flat();
    let ghost k = unit_index(u);
    let mut b: usize = hi + 1;
    while b > lo
        invariant
            f == schedule@.flat(),
            k == unit_index(u),
            b <= hi + 1,
            hi < f.len(),
            latest_free(f, lo as int, hi as int, k) == latest_free(f, lo as int, b - 1, k),
        decreases b,
    {
        if schedule.bundle(b - 1).is_free(u) {
            return Some(b - 1);
        }
        b = b - 1;
    }
    None
}

proof fn lemma_latest_free_range(f: Seq<Seq<Option<Instr>>>, lo: int, hi: int, k: int)
    ensures
        latest_free(f, lo, hi, k) matches Some(b) ==> lo <= b <= hi,
    decreases hi - lo + 1,
{
    if hi >= lo && f[hi][k] is Some {
        lemma_latest_free_range(f, lo, hi - 1, k);
    }
}

/// Where a copy goes in `[lo, hi]`: ALU0 before ALU1, latest first.
fn find_latest_alu_slot(schedule: &Schedule, lo: usize, hi: usize) -> (r: Option<(usize, ExecUnit)>)
    requires
        hi < schedule@.flat().len(),
        hi < usize::MAX,
    ensures
        match r {
            Some((b, u)) => mov_slot(schedule@.flat(), lo as int, hi as int) == Some((b as int, unit_index(u))),
            None => mov_slot(schedule@.flat(), lo as int, hi as int) is None,
        },
{
    if hi < lo {
        return None;
    }
    match latest_free_slot(schedule, lo, hi, ExecUnit::Alu0) {
        Some(b) => Some((b, ExecUnit::Alu0)),
        None => match latest_free_slot(schedule, lo, hi, ExecUnit::Alu1) {
            Some(b) => Some((b, ExecUnit::Alu1)),
            None => None,
        },
    }
}

/// Puts `x` into unit `u` of output bundle `b`.
fn set_slot(schedule: &mut Schedule, b: usize, u: ExecUnit, x: Instruction)
    requires
        b < old(schedule)@.flat().len(),
    ensures
        final(schedule)@ == sched_set(old(schedule)@, b as int, unit_index(u), Some(x@)),
{
    let ghost s = schedule@;
    let l0 = schedule.bb0.len();
    let l1 = schedule.bb1.len();
    if b < l0 {
        schedule.bb0[b].set(u, x);
        assert(schedule@.bb0 =~= s.bb0.update(b as int, s.bb0[b as int].update(unit_index(u), Some(x@))));
    } else if b - l0 < l1 {
        schedule.bb1[b - l0].set(u, x);
        assert(schedule@.bb1 =~= s.bb1.update(b - l0, s.bb1[b - l0].update(unit_index(u), Some(x@))));
    } else {
        schedule.bb2[b - l0 - l1].set(u, x);
        assert(schedule@.bb2 =~= s.bb2.update(b - l0 - l1, s.bb2[b - l0 - l1].update(unit_index(u), Some(x@))));
    }
}

/// Moves the loop instruction `id` into a new bundle after the body.
fn push_loop_down(schedule: &mut Schedule, id: InstId)
    requires
        occurs_once(old(schedule)@.bb1, id),
        old(schedule)@.bb1.len() < usize::MAX,
    ensures
        final(schedule)@ == after_pushes(old(schedule)@, id, 1),
{
    let ghost s = schedule@;
    let (rel, k) = find_loop_bundle(schedule, id);
    let u = ExecUnit::from_idx(k);
    let lp = match schedule.bb1[rel].get(u) {
        Some(ins) => ins.clone(),
        None => Instruction::nop(),
    };
    assert(s.bb1[rel as int][k as int] == Some(lp@));
    schedule.bb1[rel].clear(u);
    let mut nb = Bundle::new();
    nb.set(ExecUnit::Branch, lp);
    schedule.bb1.push(nb);
    schedule.ii = schedule.bb1.len();
    proof {
        let want = after_pushes(s, id, 1);
        assert(Seq::new(0nat, |x: int| empty_bundle()) =~= Seq::<Seq<Option<Instr>>>::empty());
        assert(schedule@.bb1 =~= want.bb1);
    }
}

/// After the loop was pushed down `j` times it sits alone in slot 4 of the
/// last body bundle.
proof fn lemma_after_pushes(s: Sched, id: usize, j: int)
    requires
        occurs_once(s.bb1, id),
        j >= 1,
        forall|b: int| 0 <= b < s.bb1.len() ==> (#[trigger] s.bb1[b]).len() == 5,
    ensures
        sole_slot(after_pushes(s, id, j).bb1, id, s.bb1.len() + j - 1, 4),
        slot_of_id(after_pushes(s, id, j).bb1, id) == (s.bb1.len() + j - 1, 4int),
        after_pushes(s, id, j).bb1.len() == s.bb1.len() + j,
        forall|b: int| 0 <= b < after_pushes(s, id, j).bb1.len() ==> (#[trigger] after_pushes(s, id, j).bb1[b]).len() == 5,
        after_pushes(after_pushes(s, id, j), id, 1) == after_pushes(s, id, j + 1),
{
    let (rel, u) = slot_of_id(s.bb1, id);
    let t = after_pushes(s, id, j);
    let n1 = s.bb1.len() as int;
    let last = n1 + j - 1;
    assert(sole_slot(s.bb1, id, rel, u));
    assert(t.bb1.len() == n1 + j);
    assert forall|b2: int, k2: int| 0 <= b2 < t.bb1.len() && 0 <= k2 < 5 && #[trigger] has_id(t.bb1[b2][k2], id) implies b2 == last && k2 == 4 by {
        if b2 < n1 {
            assert(t.bb1[b2] == s.bb1.update(rel, s.bb1[rel].update(u, None))[b2]);
            if b2 == rel {
                assert(k2 != u);
                assert(has_id(s.bb1[b2][k2], id));
            } else {
                assert(has_id(s.bb1[b2][k2], id));
            }
        } else if b2 < last {
            assert(t.bb1[b2] == empty_bundle());
        } else {
            assert(t.bb1[b2] == empty_bundle().update(4, s.bb1[rel][u]));
        }
    }
    assert(t.bb1[last] == empty_bundle().update(4, s.bb1[rel][u]));
    assert(sole_slot(t.bb1, id, last, 4));
    assert forall|b: int| 0 <= b < t.bb1.len() implies (#[trigger] t.bb1[b]).len() == 5 by {
        if b < n1 {
            assert(t.bb1[b] == s.bb1.update(rel, s.bb1[rel].update(u, None))[b]);
        } else if b < last {
            assert(t.bb1[b] == empty_bundle());
        }
    }
    let w = after_pushes(t, id, 1);
    let v = after_pushes(s, id, j + 1);
    assert(empty_bundle().update(4, s.bb1[rel][u]).update(4, None) =~= empty_bundle());
    assert(w.bb1 =~= v.bb1);
}

/// Places a copy for a value ready from cycle `min`, pushing the loop
/// instruction down until a slot is free.
#[verifier::spinoff_prover]
fn place_mov(schedule: &mut Schedule, id: InstId, min: usize, mov: Instruction)
    requires
        occurs_once(old(schedule)@.bb1, id),
        forall|b: int| 0 <= b < old(schedule)@.bb1.len() ==> (#[trigger] old(schedule)@.bb1[b]).len() == 5,
        old(schedule)@.flat().len() <= usize::MAX / 2,
        min <= usize::MAX / 4,
    ensures
        final(schedule)@ == placed_mov(old(schedule)@, id, min as int, mov@),
{
    let ghost s0 = schedule@;
    let ghost b0 = s0.bb0.len() + s0.bb1.len();
    let ghost rel0 = slot_of_id(s0.bb1, id).0;
    let ghost mut j: int = 0;
    loop
        invariant
            s0 == old(schedule)@,
            s0.bb0.len() + s0.bb1.len() == b0,
            s0.flat().len() <= usize::MAX / 2,
            min <= usize::MAX / 4,
            occurs_once(s0.bb1, id),
            forall|b: int| 0 <= b < s0.bb1.len() ==> (#[trigger] s0.bb1[b]).len() == 5,
            rel0 == slot_of_id(s0.bb1, id).0,
            j >= 0,
            j == 0 ==> schedule@ == s0,
            j >= 1 ==> schedule@ == after_pushes(s0, id, j),
            j >= 1 ==> mov_slot(s0.flat(), min as int, s0.bb0.len() + rel0) is None,
            j >= 2 ==> min >= b0 + j - 1,
            j <= min + 2,
        decreases (if min + 2 >= b0 + j { min + 2 - (b0 + j) } else { 0 }) + (if j == 0 { 1int } else { 0int }),
    {
        proof {
            if j >= 1 {
                lemma_after_pushes(s0, id, j);
            }
        }
        let (rel, _) = find_loop_bundle(schedule, id);
        let lb = schedule.bb0.len() + rel;
        match find_latest_alu_slot(schedule, min, lb) {
            Some((b, u)) => {
                let ghost cur = schedule@;
                proof {
                    lemma_latest_free_range(cur.flat(), min as int, lb as int, 0);
                    lemma_latest_free_range(cur.flat(), min as int, lb as int, 1);
                    if j >= 1 {
                        let t = after_pushes(s0, id, j);
                        let last = b0 + j - 1;
                        assert(t.flat()[last] == t.bb1[s0.bb1.len() + j - 1]);
                        assert(t.flat()[last][0] is None);
                        if min > last {
                            assert(latest_free(t.flat(), min as int, last, 0) is None);
                            assert(latest_free(t.flat(), min as int, last, 1) is None);
                        }
                        assert(latest_free(t.flat(), min as int, last, 0) == Some(last));
                        assert(b == last);
                        assert(unit_index(u) == 0);
                        let pushes = if min >= b0 { min - b0 + 1 } else { 1 };
                        assert(pushes == j);
                    }
                }
                set_slot(schedule, b, u, mov);
                proof {
                    if j >= 1 {
                        let pushes = if min >= b0 { min - b0 + 1 } else { 1 };
                        assert(schedule@ == sched_set(after_pushes(s0, id, pushes), b0 + pushes - 1, 0, Some(mov@)));
                        assert(mov_slot(s0.flat(), min as int, s0.bb0.len() + slot_of_id(s0.bb1, id).0) is None);
                        assert(placed_mov(s0, id, min as int, mov@) == sched_set(after_pushes(s0, id, pushes), b0 + pushes - 1, 0, Some(mov@)));
                    } else {
                        assert(schedule@ == sched_set(s0, b as int, unit_index(u), Some(mov@)));
                        assert(rel == slot_of_id(s0.bb1, id).0);
                        assert(mov_slot(s0.flat(), min as int, s0.bb0.len() + slot_of_id(s0.bb1, id).0) == Some((b as int, unit_index(u))));
                        assert(placed_mov(s0, id, min as int, mov@) == sched_set(s0, b as int, unit_index(u), Some(mov@)));
                    }
                }
                return;
            },
            None => {
                proof {
                    if j >= 1 {
                        let t = after_pushes(s0, id, j);
                        let last = b0 + j - 1;
                        assert(t.flat()[last] == t.bb1[s0.bb1.len() + j - 1]);
                        assert(t.flat()[last][0] is None);
                        if min <= last {
                            assert(latest_free(t.flat(), min as int, last, 0) == Some(last));
                        }
                    }
                }
                push_loop_down(schedule, id);
                proof {
                    j = j + 1;
                }
            },
        }
    }
}

// ------------------------------------------------------------------
// What the copies leave unchanged.

proof fn lemma_unused_in_update(bd: Seq<Option<Instr>>, k: int, x: Option<Instr>, ds: Seq<Seq<Option<DepKind>>>, m: int)
    requires
        0 <= k < bd.len(),
        0 <= m <= bd.len(),
    ensures
        unused_in(bd.update(k, x), m, ds) == unused_in(bd, m, ds) + if k < m {
            unused_of(x, ds) - unused_of(bd[k], ds)
        } else {
            0
        },
    decreases m,
{
    if m > 0 {
        lemma_unused_in_update(bd, k, x, ds, m - 1);
    }
}

proof fn lemma_unused_update(bs: Seq<Seq<Option<Instr>>>, b: int, bd2: Seq<Option<Instr>>, ds: Seq<Seq<Option<DepKind>>>)
    requires
        0 <= b < bs.len(),
    ensures
        unused(bs.update(b, bd2), ds) == unused(bs, ds) - unused_in(bs[b], 5, ds) + unused_in(bd2, 5, ds),
    decreases bs.len(),
{
    if b == bs.len() - 1 {
        assert(bs.update(b, bd2).drop_last() =~= bs.drop_last());
    } else {
        lemma_unused_update(bs.drop_last(), b, bd2, ds);
        assert(bs.update(b, bd2).drop_last() =~= bs.drop_last().update(b, bd2));
    }
}

proof fn lemma_unused_concat(a: Seq<Seq<Option<Instr>>>, b: Seq<Seq<Option<Instr>>>, ds: Seq<Seq<Option<DepKind>>>)
    ensures
        unused(a + b, ds) == unused(a, ds) + unused(b, ds),
    decreases b.len(),
{
    if b.len() > 0 {
        lemma_unused_concat(a, b.drop_last(), ds);
        assert((a + b).drop_last() =~= a + b.drop_last());
    } else {
        assert(a + b =~= a);
    }
}

proof fn lemma_unused_empty_bundle(ds: Seq<Seq<Option<DepKind>>>)
    ensures
        unused_in(empty_bundle(), 5, ds) == 0,
{
    reveal_with_fuel(unused_in, 6);
}

proof fn lemma_unused_empties(n: nat, ds: Seq<Seq<Option<DepKind>>>)
    ensures
        unused(Seq::new(n, |x: int| empty_bundle()), ds) == 0,
    decreases n,
{
    if n > 0 {
        lemma_unused_empties((n - 1) as nat, ds);
        assert(Seq::new(n, |x: int| empty_bundle()).drop_last() =~= Seq::new((n - 1) as nat, |x: int| empty_bundle()));
        lemma_unused_empty_bundle(ds);
    }
}

proof fn lemma_unused_single(bd: Seq<Option<Instr>>, ds: Seq<Seq<Option<DepKind>>>)
    ensures
        unused(seq![bd], ds) == unused_in(bd, 5, ds),
{
    assert(seq![bd].drop_last() =~= Seq::<Seq<Option<Instr>>>::empty());
    assert(unused(Seq::<Seq<Option<Instr>>>::empty(), ds) == 0);
    assert(seq![bd].last() == bd);
}

/// All three blocks have five slots per bundle.
pub open spec fn sched_shaped(s: Sched) -> bool {
    &&& shaped(s.bb0)
    &&& shaped(s.bb1)
    &&& shaped(s.bb2)
}

proof fn lemma_sched_set(s: Sched, b: int, k: int, x: Option<Instr>, ds: Seq<Seq<Option<DepKind>>>)
    requires
        sched_shaped(s),
        0 <= b < s.flat().len(),
        0 <= k < 5,
        s.flat()[b][k] is None,
        unused_of(x, ds) == 0,
    ensures
        sched_shaped(sched_set(s, b, k, x)),
        total_unused(sched_set(s, b, k, x), ds) == total_unused(s, ds),
        sched_set(s, b, k, x).bb0.len() == s.bb0.len(),
        sched_set(s, b, k, x).bb1.len() == s.bb1.len(),
        sched_set(s, b, k, x).bb2.len() == s.bb2.len(),
{
    let l0 = s.bb0.len() as int;
    let l1 = s.bb1.len() as int;
    let t = sched_set(s, b, k, x);
    if b < l0 {
        assert(s.flat()[b] == s.bb0[b]);
        lemma_unused_in_update(s.bb0[b], k, x, ds, 5);
        lemma_unused_update(s.bb0, b, s.bb0[b].update(k, x), ds);
        assert forall|i: int| 0 <= i < t.bb0.len() implies (#[trigger] t.bb0[i]).len() == 5 by {}
    } else if b < l0 + l1 {
        assert(s.flat()[b] == s.bb1[b - l0]);
        lemma_unused_in_update(s.bb1[b - l0], k, x, ds, 5);
        lemma_unused_update(s.bb1, b - l0, s.bb1[b - l0].update(k, x), ds);
        assert forall|i: int| 0 <= i < t.bb1.len() implies (#[trigger] t.bb1[i]).len() == 5 by {}
    } else {
        assert(s.flat()[b] == s.bb2[b - l0 - l1]);
        lemma_unused_in_update(s.bb2[b - l0 - l1], k, x, ds, 5);
        lemma_unused_update(s.bb2, b - l0 - l1, s.bb2[b - l0 - l1].update(k, x), ds);
        assert forall|i: int| 0 <= i < t.bb2.len() implies (#[trigger] t.bb2[i]).len() == 5 by {}
    }
}

proof fn lemma_after_pushes_unused(s: Sched, id: usize, j: int, ds: Seq<Seq<Option<DepKind>>>)
    requires
        sched_shaped(s),
        occurs_once(s.bb1, id),
        j >= 1,
    ensures
        total_unused(after_pushes(s, id, j), ds) == total_unused(s, ds),
{
    let (rel, u) = slot_of_id(s.bb1, id);
    assert(sole_slot(s.bb1, id, rel, u));
    let lp = s.bb1[rel][u];
    let cleared = s.bb1.update(rel, s.bb1[rel].update(u, None));
    let empties = Seq::new((j - 1) as nat, |x: int| empty_bundle());
    let last = empty_bundle().update(4, lp);
    lemma_unused_in_update(s.bb1[rel], u, None, ds, 5);
    lemma_unused_update(s.bb1, rel, s.bb1[rel].update(u, None), ds);
    lemma_unused_concat(cleared, empties, ds);
    lemma_unused_concat(cleared + empties, seq![last], ds);
    lemma_unused_empties((j - 1) as nat, ds);
    lemma_unused_single(last, ds);
    lemma_unused_empty_bundle(ds);
    lemma_unused_in_update(empty_bundle(), 4, lp, ds, 5);
}

/// Placing a copy keeps the loop instruction unique in the body, the
/// bundles whole, the operands without a producer, and BB0 and BB2 in
/// size; the schedule grows by at most the bundles up to `min` and one.
#[verifier::spinoff_prover]
proof fn lemma_placed_mov(s: Sched, id: usize, min: int, mov: Instr, ds: Seq<Seq<Option<DepKind>>>)
    requires
        sched_shaped(s),
        occurs_once(s.bb1, id),
        mov.id != id,
        mov.id >= ds.len(),
        min >= 0,
    ensures
        sched_shaped(placed_mov(s, id, min, mov)),
        occurs_once(placed_mov(s, id, min, mov).bb1, id),
        total_unused(placed_mov(s, id, min, mov), ds) == total_unused(s, ds),
        placed_mov(s, id, min, mov).bb0.len() == s.bb0.len(),
        placed_mov(s, id, min, mov).bb2.len() == s.bb2.len(),
        placed_mov(s, id, min, mov).flat().len() <= s.flat().len() + 1 || placed_mov(
            s,
            id,
            min,
            mov,
        ).flat().len() <= min + 1 + s.bb2.len(),
{
    let (rel, u) = slot_of_id(s.bb1, id);
    assert(sole_slot(s.bb1, id, rel, u));
    let l0 = s.bb0.len() as int;
    let l1 = s.bb1.len() as int;
    assert(unused_of(Some(mov), ds) == 0);
    let t = placed_mov(s, id, min, mov);
    match mov_slot(s.flat(), min, l0 + rel) {
        Some(bk) => {
            let (b, k) = bk;
            lemma_latest_free_range(s.flat(), min, l0 + rel, 0);
            lemma_latest_free_range(s.flat(), min, l0 + rel, 1);
            lemma_latest_free_some(s.flat(), min, l0 + rel, k);
            lemma_sched_set(s, b, k, Some(mov), ds);
            assert(t == sched_set(s, b, k, Some(mov)));
            if l0 <= b {
                assert(s.flat()[b] == s.bb1[b - l0]);
                assert(sole_slot(t.bb1, id, rel, u)) by {
                    assert forall|b2: int, k2: int| 0 <= b2 < t.bb1.len() && 0 <= k2 < 5 && #[trigger] has_id(t.bb1[b2][k2], id) implies b2 == rel && k2 == u by {
                        if b2 == b - l0 && k2 == k {
                        } else {
                            assert(t.bb1[b2][k2] == s.bb1[b2][k2]);
                        }
                    }
                }
            } else {
                assert(t.bb1 == s.bb1);
                assert(sole_slot(t.bb1, id, rel, u));
            }
        },
        None => {
            let b0 = l0 + l1;
            let pushes = if min >= b0 {
                min - b0 + 1
            } else {
                1
            };
            let a = after_pushes(s, id, pushes);
            lemma_after_pushes(s, id, pushes);
            lemma_after_pushes_unused(s, id, pushes, ds);
            let last = b0 + pushes - 1;
            assert(a.flat()[last] == a.bb1[l1 + pushes - 1]);
            assert(a.bb1[l1 + pushes - 1] == empty_bundle().update(4, s.bb1[rel][u]));
            assert forall|i: int| 0 <= i < a.bb0.len() implies (#[trigger] a.bb0[i]).len() == 5 by {}
            assert forall|i: int| 0 <= i < a.bb2.len() implies (#[trigger] a.bb2[i]).len() == 5 by {}
            lemma_sched_set(a, last, 0, Some(mov), ds);
            assert(t == sched_set(a, last, 0, Some(mov)));
            assert(sole_slot(a.bb1, id, l1 + pushes - 1, 4));
            assert(sole_slot(t.bb1, id, l1 + pushes - 1, 4)) by {
                assert forall|b2: int, k2: int| 0 <= b2 < t.bb1.len() && 0 <= k2 < 5 && #[trigger] has_id(t.bb1[b2][k2], id) implies b2 == l1 + pushes - 1 && k2 == 4 by {
                    if b2 == l1 + pushes - 1 && k2 == 0 {
                    } else {
                        assert(t.bb1[b2][k2] == a.bb1[b2][k2]);
                    }
                }
            }
        },
    }
}

proof fn lemma_latest_free_some(f: Seq<Seq<Option<Instr>>>, lo: int, hi: int, k: int)
    ensures
        latest_free(f, lo, hi, k) matches Some(b) ==> f[b][k] is None,
    decreases hi - lo + 1,
{
    if hi >= lo && f[hi][k] is Some {
        lemma_latest_free_some(f, lo, hi - 1, k);
    }
}

proof fn lemma_unused_upto_renamed(i: Instr, ds: Seq<Seq<Option<DepKind>>>, nr: Map<usize, u8>, j: int)
    ensures
        unused_upto(renamed(i, ds, nr), ds, j) == unused_upto(i, ds, j),
    decreases j,
{
    if j > 0 {
        lemma_unused_upto_renamed(i, ds, nr, j - 1);
    }
}

proof fn lemma_unused_in_renamed(bd: Seq<Option<Instr>>, rb: Seq<Option<Instr>>, ds: Seq<Seq<Option<DepKind>>>, nr: Map<usize, u8>, m: int)
    requires
        rb.len() == bd.len(),
        0 <= m <= bd.len(),
        forall|k: int| 0 <= k < bd.len() ==> #[trigger] rb[k] == renamed_opt(bd[k], ds, nr),
    ensures
        unused_in(rb, m, ds) == unused_in(bd, m, ds),
    decreases m,
{
    if m > 0 {
        lemma_unused_in_renamed(bd, rb, ds, nr, m - 1);
        assert(rb[m - 1] == renamed_opt(bd[m - 1], ds, nr));
        match bd[m - 1] {
            Some(i) => {
                if i.id < ds.len() {
                    lemma_unused_upto_renamed(i, ds, nr, ds[i.id as int].len() as int);
                }
            },
            None => {},
        }
    }
}

proof fn lemma_renamed_block(bs: Seq<Seq<Option<Instr>>>, ds: Seq<Seq<Option<DepKind>>>, nr: Map<usize, u8>)
    requires
        shaped(bs),
    ensures
        unused(renamed_block(bs, ds, nr), ds) == unused(bs, ds),
        shaped(renamed_block(bs, ds, nr)),
        forall|id: usize, b: int, k: int| #[trigger] sole_slot(bs, id, b, k) ==> sole_slot(renamed_block(bs, ds, nr), id, b, k),
    decreases bs.len(),
{
    let rbs = renamed_block(bs, ds, nr);
    assert forall|b: int| 0 <= b < rbs.len() implies (#[trigger] rbs[b]).len() == 5 by {}
    assert forall|id: usize, b: int, k: int| #[trigger] sole_slot(bs, id, b, k) implies sole_slot(rbs, id, b, k) by {
        assert forall|b2: int, k2: int| 0 <= b2 < rbs.len() && 0 <= k2 < 5 && #[trigger] has_id(rbs[b2][k2], id) implies b2 == b && k2 == k by {
            assert(has_id(bs[b2][k2], id));
        }
        assert(has_id(rbs[b][k], id));
    }
    if bs.len() > 0 {
        lemma_renamed_block(bs.drop_last(), ds, nr);
        assert(rbs.drop_last() =~= renamed_block(bs.drop_last(), ds, nr));
        lemma_unused_in_renamed(bs.last(), rbs.last(), ds, nr, 5);
    }
}

proof fn lemma_insert_desc_elems(s: Seq<(usize, usize, usize)>, x: (usize, usize, usize))
    ensures
        insert_desc(s, x).len() == s.len() + 1,
        forall|i: int| 0 <= i < insert_desc(s, x).len() ==> #[trigger] insert_desc(s, x)[i] == x || s.contains(insert_desc(s, x)[i]),
    decreases s.len(),
{
    if s.len() > 0 && s[0].2 >= x.2 {
        lemma_insert_desc_elems(s.drop_first(), x);
        let r = insert_desc(s, x);
        assert forall|i: int| 0 <= i < r.len() implies #[trigger] r[i] == x || s.contains(r[i]) by {
            if i == 0 {
                assert(s[0] == r[i]);
            } else {
                assert(r[i] == insert_desc(s.drop_first(), x)[i - 1]);
                if r[i] != x {
                    let j = choose|j: int| 0 <= j < s.drop_first().len() && s.drop_first()[j] == r[i];
                    assert(s[j + 1] == r[i]);
                }
            }
        }
    } else if s.len() > 0 {
        let r = insert_desc(s, x);
        assert forall|i: int| 0 <= i < r.len() implies #[trigger] r[i] == x || s.contains(r[i]) by {
            if i > 0 {
                assert(s[i - 1] == r[i]);
            }
        }
    }
}

proof fn lemma_sort_desc_elems(t: Seq<(usize, usize, usize)>)
    ensures
        sort_desc(t).len() == t.len(),
        forall|i: int| 0 <= i < sort_desc(t).len() ==> t.contains(#[trigger] sort_desc(t)[i]),
    decreases t.len(),
{
    if t.len() > 0 {
        lemma_sort_desc_elems(t.drop_last());
        let p = sort_desc(t.drop_last());
        lemma_insert_desc_elems(p, t.last());
        assert forall|i: int| 0 <= i < sort_desc(t).len() implies t.contains(#[trigger] sort_desc(t)[i]) by {
            let e = sort_desc(t)[i];
            if e == t.last() {
                assert(t[t.len() - 1] == e);
            } else {
                assert(p.contains(e));
                let j = choose|j: int| 0 <= j < p.len() && p[j] == e;
                assert(t.drop_last().contains(e));
                let j2 = choose|j2: int| 0 <= j2 < t.drop_last().len() && t.drop_last()[j2] == e;
                assert(t[j2] == e);
            }
        }
    }
}

// ------------------------------------------------------------------

/// Requirements of the allocation beyond a well-formed program and its
/// dependency table: registers x1..x255 suffice, sizes stay far from
/// overflow, and where copies are needed the loop instruction sits once in
/// the body and every pair's producers were placed and write a register.
pub open spec fn alloc_fits(prog: Prog, ds: Seq<Seq<Option<DepKind>>>, pl: Map<usize, Placement>, s: Sched) -> bool {
    let pairs = interloop_pairs(ds);
    &&& 1 + total_producers(s) + total_unused(s, ds) <= 255
    &&& s.flat().len() <= usize::MAX / 8
    &&& prog.instrs.len() + pairs.len() <= usize::MAX / 8
    &&& (prog.loop_kind is Some && pairs.len() > 0) ==> {
        &&& occurs_once(s.bb1, (prog.bb1_end - 1) as usize)
        &&& forall|j: int|
            0 <= j < pairs.len() ==> {
                let p = #[trigger] pairs[j];
                &&& pl.contains_key(p.1)
                &&& pl[p.1].bundle <= usize::MAX / 8
                &&& new_regs(s).contains_key(p.0)
                &&& new_regs(s).contains_key(p.1)
            }
    }
}

/// The schedule after all four phases.
pub open spec fn allocated(prog: Prog, ds: Seq<Seq<Option<DepKind>>>, pl: Map<usize, Placement>, s: Sched) -> Sched {
    let nr = new_regs(s);
    let s1 = renamed_sched(s, ds, nr);
    let s2 = if prog.loop_kind is Some {
        movs_placed(s1, (prog.bb1_end - 1) as usize, mov_order(prog, ds, pl), nr, prog.instrs.len() as int)
    } else {
        s1
    };
    filled_sched(s2, ds, 1 + total_producers(s))
}

fn make_mov_reg(dst: u8, src: u8, id: InstId) -> (i: Instruction)
    ensures
        i@ == mov_instr(dst, src, id),
{
    let i = Instruction {
        id,
        opcode: Opcode::MovReg,
        pred: None,
        dest_reg: Some(dst),
        dest_pred: None,
        dest_special: None,
        src_regs: vec![src],
        imm: None,
        imm_bool: None,
        label: None,
    };
    assert(i@.src_regs =~= seq![src]);
    i
}

proof fn lemma_view_shaped(s: &Schedule)
    ensures
        sched_shaped(s@),
{
    assert forall|b: int| 0 <= b < s@.bb0.len() implies (#[trigger] s@.bb0[b]).len() == 5 by {
        lemma_bundle_len(&s.bb0@[b]);
    }
    assert forall|b: int| 0 <= b < s@.bb1.len() implies (#[trigger] s@.bb1[b]).len() == 5 by {
        lemma_bundle_len(&s.bb1@[b]);
    }
    assert forall|b: int| 0 <= b < s@.bb2.len() implies (#[trigger] s@.bb2[b]).len() == 5 by {
        lemma_bundle_len(&s.bb2@[b]);
    }
}

/// Phase 3 proper: places the copies of `movs` in order, numbered from `n`.
#[verifier::spinoff_prover]
fn insert_movs(
    schedule: &mut Schedule,
    li: InstId,
    movs: &Vec<(InstId, InstId, usize)>,
    new_reg: &HashMap<InstId, u8>,
    n: usize,
    Ghost(ds): Ghost<Seq<Seq<Option<DepKind>>>>,
    Ghost(s1): Ghost<Sched>,
)
    requires
        old(schedule)@ == s1,
        n + movs@.len() <= usize::MAX / 8,
        li < n,
        ds.len() == n,
        movs@.len() > 0 ==> occurs_once(s1.bb1, li),
        sched_shaped(s1),
        s1.flat().len() <= usize::MAX / 8,
        forall|i: int|
            0 <= i < movs@.len() ==> {
                let m = #[trigger] movs@[i];
                &&& new_reg@.contains_key(m.0)
                &&& new_reg@.contains_key(m.1)
                &&& m.2 <= usize::MAX / 8 + 3
            },
    ensures
        final(schedule)@ == movs_placed(s1, li, movs@, new_reg@, n as int),
        total_unused(final(schedule)@, ds) == total_unused(s1, ds),
        sched_shaped(final(schedule)@),
{
    let ghost order = movs@;
    let ghost nr = new_reg@;
    let mut j: usize = 0;
    while j < movs.len()
        invariant
            j <= order.len(),
            order == movs@,
            nr == new_reg@,
            n + order.len() <= usize::MAX / 8,
            li < n,
            ds.len() == n,
            order.len() > 0 ==> occurs_once(schedule@.bb1, li),
            sched_shaped(schedule@),
            schedule@ == movs_placed(s1, li, order.subrange(0, j as int), nr, n as int),
            total_unused(schedule@, ds) == total_unused(s1, ds),
            schedule@.bb2.len() == s1.bb2.len(),
            s1.flat().len() <= usize::MAX / 8,
            schedule@.flat().len() <= usize::MAX / 4 + 4 + j,
            forall|i: int|
                0 <= i < order.len() ==> {
                    let m = #[trigger] order[i];
                    &&& nr.contains_key(m.0)
                    &&& nr.contains_key(m.1)
                    &&& m.2 <= usize::MAX / 8 + 3
                },
        decreases order.len() - j,
    {
        let (p0, p1, min) = movs[j];
        assert(order[j as int] == (p0, p1, min));
        let dst: u8 = match new_reg.get(&p0) {
            Some(r) => *r,
            None => 0,
        };
        let src: u8 = match new_reg.get(&p1) {
            Some(r) => *r,
            None => 0,
        };
        let mov = make_mov_reg(dst, src, n + j);
        let ghost cur = schedule@;
        proof {
            lemma_placed_mov(cur, li, min as int, mov@, ds);
        }
        place_mov(schedule, li, min, mov);
        proof {
            let sub = order.subrange(0, j + 1);
            assert(sub.drop_last() =~= order.subrange(0, j as int));
            assert(sub.last() == (p0, p1, min));
        }
        j = j + 1;
    }
    proof {
        assert(order.subrange(0, order.len() as int) =~= order);
    }
}

/// Allocates registers for the schedule of the plain `loop` instruction:
/// fresh registers for producers, operands renamed to them, copies closing
/// the interloop dependencies, fresh registers for operands without a
/// producer.
#[verifier::spinoff_prover]
pub fn allocate(
    schedule: &mut Schedule,
    program: &Program,
    deps: &DepTable,
    placement: &HashMap<InstId, Placement>,
)
    requires
        program@.wf(),
        deps_of(program@, deps_view(deps@)),
        alloc_fits(program@, deps_view(deps@), placement@, old(schedule)@),
    ensures
        final(schedule)@ == allocated(program@, deps_view(deps@), placement@, old(schedule)@),
{
    let ghost s0 = schedule@;
    let ghost ds = deps_view(deps@);
    let ghost prog = program@;
    proof {
        lemma_view_shaped(schedule);
        lemma_producers_prefix(s0.bb0, 0);
        lemma_producers_prefix(s0.bb1, 0);
        lemma_producers_prefix(s0.bb2, 0);
        lemma_unused_prefix(s0.bb0, ds, 0);
        lemma_unused_prefix(s0.bb1, ds, 0);
        lemma_unused_prefix(s0.bb2, ds, 0);
    }
    // Phase 1.
    let mut new_reg: HashMap<InstId, u8> = HashMap::new();
    let mut next: u8 = 1;
    collect_regs(&schedule.bb0, &mut next, &mut new_reg);
    collect_regs(&schedule.bb1, &mut next, &mut new_reg);
    collect_regs(&schedule.bb2, &mut next, &mut new_reg);
    let ghost nr = new_reg@;
    assert(nr == new_regs(s0));
    // Phases 1 and 2 written into the instructions.
    rename_block(&mut schedule.bb0, deps, &new_reg);
    rename_block(&mut schedule.bb1, deps, &new_reg);
    rename_block(&mut schedule.bb2, deps, &new_reg);
    let ghost s1 = schedule@;
    proof {
        assert(s1 == renamed_sched(s0, ds, nr));
        lemma_renamed_block(s0.bb0, ds, nr);
        lemma_renamed_block(s0.bb1, ds, nr);
        lemma_renamed_block(s0.bb2, ds, nr);
    }
    // Phase 3.
    match program.loop_idx() {
        Some(li) => {
            let movs = interloop_movs(program, deps, placement);
            let ghost order = movs@;
            let ghost pairs = interloop_pairs(ds);
            let ghost t = with_ready(pairs, prog, placement@);
            proof {
                lemma_sort_desc_elems(t);
                if order.len() > 0 {
                    let (rb, rk) = choose|b: int, k: int| sole_slot(s0.bb1, li, b, k);
                    assert(sole_slot(s0.bb1, li, rb, rk));
                    assert(sole_slot(s1.bb1, li, rb, rk));
                }
                assert forall|i: int| 0 <= i < order.len() implies {
                    let m = #[trigger] order[i];
                    &&& nr.contains_key(m.0)
                    &&& nr.contains_key(m.1)
                    &&& m.2 <= usize::MAX / 8 + 3
                } by {
                    let m = order[i];
                    assert(t.contains(m));
                    let j = choose|j: int| 0 <= j < t.len() && t[j] == m;
                    assert(pairs[j] == (m.0, m.1));
                    let p = pairs[j];
                    assert(placement@.contains_key(p.1));
                }
            }
            insert_movs(schedule, li, &movs, &new_reg, program.instrs.len(), Ghost(ds), Ghost(s1));
        },
        None => {},
    }
    let ghost s2 = schedule@;
    proof {
        lemma_unused_prefix(s2.bb0, ds, 0);
        lemma_unused_prefix(s2.bb1, ds, 0);
        lemma_unused_prefix(s2.bb2, ds, 0);
    }
    // Phase 4.
    fill_block(&mut schedule.bb0, deps, &mut next);
    fill_block(&mut schedule.bb1, deps, &mut next);
    fill_block(&mut schedule.bb2, deps, &mut next);
    proof {
        assert(schedule@ == filled_sched(s2, ds, 1 + total_producers(s0)));
    }
}

// ------------------------------------------------------------------
// Checking the requirements before an allocation.

fn count_producers(block: &Vec<Bundle>) -> (n: usize)
    requires
        block@.len() <= usize::MAX / 8,
    ensures
        n == producers(bundles_view(block@)),
        n <= 5 * block@.len(),
{
    let ghost bv = bundles_view(block@);
    let mut n: usize = 0;
    let mut i: usize = 0;
    while i < block.len()
        invariant
            i <= block@.len(),
            block@.len() <= usize::MAX / 8,
            bv == bundles_view(block@),
            n == producers(bv.subrange(0, i as int)),
            n <= 5 * i,
        decreases block@.len() - i,
    {
        let ghost bd = bv[i as int];
        proof {
            assert(bv.subrange(0, i + 1).drop_last() =~= bv.subrange(0, i as int));
            assert(bv.subrange(0, i + 1).last() == bd);
            lemma_producers_in_bounds(bd, 0, 5);
        }
        let mut k: usize = 0;
        while k < 5
            invariant
                i < block@.len(),
                block@.len() <= usize::MAX / 8,
                bd == block@[i as int]@,
                k <= 5,
                n == producers(bv.subrange(0, i as int)) + producers_in(bd, k as int),
                producers(bv.subrange(0, i as int)) <= 5 * i,
                n <= 5 * i + k,
            decreases 5 - k,
        {
            match block[i].get(ExecUnit::from_idx(k)) {
                Some(ins) => {
                    if ins.dest_reg.is_some() {
                        n = n + 1;
                    }
                },
                None => {},
            }
            k = k + 1;
        }
        i = i + 1;
    }
    proof {
        assert(bv.subrange(0, block@.len() as int) =~= bv);
    }
    n
}

/// `x`, or 256 when it is larger.
pub open spec fn capped(x: int) -> int {
    if x < 256 {
        x
    } else {
        256
    }
}

/// `acc` plus the operands without a producer of a block, capped at 256.
fn count_unused(block: &Vec<Bundle>, deps: &DepTable, acc: usize) -> (r: usize)
    requires
        acc <= 256,
    ensures
        r == capped(acc + unused(bundles_view(block@), deps_view(deps@))),
{
    let ghost bv = bundles_view(block@);
    let ghost ds = deps_view(deps@);
    let mut r: usize = acc;
    let mut i: usize = 0;
    while i < block.len()
        invariant
            i <= block@.len(),
            bv == bundles_view(block@),
            ds == deps_view(deps@),
            r == capped(acc + unused(bv.subrange(0, i as int), ds)),
        decreases block@.len() - i,
    {
        let ghost bd = bv[i as int];
        let ghost pre = unused(bv.subrange(0, i as int), ds);
        proof {
            assert(bv.subrange(0, i + 1).drop_last() =~= bv.subrange(0, i as int));
            assert(bv.subrange(0, i + 1).last() == bd);
        }
        let mut k: usize = 0;
        while k < 5
            invariant
                i < block@.len(),
                bd == block@[i as int]@,
                ds == deps_view(deps@),
                k <= 5,
                r == capped(acc + pre + unused_in(bd, k as int, ds)),
            decreases 5 - k,
        {
            match block[i].get(ExecUnit::from_idx(k)) {
                Some(ins) => {
                    if ins.id < deps.len() {
                        let dv = &deps[ins.id].src_deps;
                        assert(dv@ == ds[ins.id as int]);
                        let ghost before = acc + pre + unused_in(bd, k as int, ds);
                        let mut j: usize = 0;
                        while j < dv.len()
                            invariant
                                ins.id < deps@.len(),
                                dv@ == ds[ins.id as int],
                                ds == deps_view(deps@),
                                j <= dv@.len(),
                                r == capped(before + unused_upto(ins@, ds, j as int)),
                            decreases dv@.len() - j,
                        {
                            if dv[j].is_none() && j < ins.src_regs.len() {
                                if r < 256 {
                                    r = r + 1;
                                }
                            }
                            j = j + 1;
                        }
                    }
                },
                None => {},
            }
            k = k + 1;
        }
        i = i + 1;
    }
    proof {
        assert(bv.subrange(0, block@.len() as int) =~= bv);
    }
    r
}

/// Whether the instruction `id` sits in exactly one slot of the body.
#[verifier::spinoff_prover]
fn occurs_once_in_body(schedule: &Schedule, id: InstId) -> (r: bool)
    ensures
        r == occurs_once(schedule@.bb1, id),
{
    let ghost bs = schedule@.bb1;
    let mut cnt: usize = 0;
    let mut first: (usize, usize) = (0, 0);
    let mut second: (usize, usize) = (0, 0);
    let mut b: usize = 0;
    while b < schedule.bb1.len()
        invariant
            bs == schedule@.bb1,
            b <= bs.len(),
            cnt <= 2,
            cnt == 0 ==> forall|b2: int, k2: int| 0 <= b2 < b && 0 <= k2 < 5 ==> !#[trigger] has_id(bs[b2][k2], id),
            cnt >= 1 ==> first.0 < bs.len() && first.1 < 5 && has_id(bs[first.0 as int][first.1 as int], id),
            cnt >= 1 ==> first.0 < b,
            cnt == 1 ==> forall|b2: int, k2: int|
                0 <= b2 < b && 0 <= k2 < 5 && #[trigger] has_id(bs[b2][k2], id) ==> b2 == first.0 && k2 == first.1,
            cnt == 2 ==> second.0 < bs.len() && second.1 < 5 && has_id(bs[second.0 as int][second.1 as int], id)
                && second != first,
        decreases bs.len() - b,
    {
        let mut k: usize = 0;
        while k < 5
            invariant
                bs == schedule@.bb1,
                b < bs.len(),
                k <= 5,
                cnt <= 2,
                cnt == 0 ==> forall|b2: int, k2: int|
                    0 <= b2 < bs.len() && 0 <= k2 < 5 && (b2 < b || (b2 == b && k2 < k)) ==> !#[trigger] has_id(bs[b2][k2], id),
                cnt >= 1 ==> first.0 < bs.len() && first.1 < 5 && has_id(bs[first.0 as int][first.1 as int], id),
                cnt >= 1 ==> (first.0 < b || (first.0 == b && first.1 < k)),
                cnt == 1 ==> forall|b2: int, k2: int|
                    0 <= b2 < bs.len() && 0 <= k2 < 5 && (b2 < b || (b2 == b && k2 < k)) && #[trigger] has_id(bs[b2][k2], id) ==> b2 == first.0 && k2 == first.1,
                cnt == 2 ==> second.0 < bs.len() && second.1 < 5 && has_id(bs[second.0 as int][second.1 as int], id)
                    && second != first,
            decreases 5 - k,
        {
            match schedule.bb1[b].get(ExecUnit::from_idx(k)) {
                Some(ins) => {
                    if ins.id == id {
                        if cnt == 0 {
                            first = (b, k);
                            cnt = 1;
                        } else if cnt == 1 {
                            second = (b, k);
                            cnt = 2;
                        }
                    }
                },
                None => {},
            }
            k = k + 1;
        }
        b = b + 1;
    }
    if cnt == 1 {
        assert(sole_slot(bs, id, first.0 as int, first.1 as int));
        true
    } else {
        proof {
            if occurs_once(bs, id) {
                let (wb, wk) = choose|wb: int, wk: int| sole_slot(bs, id, wb, wk);
                assert(sole_slot(bs, id, wb, wk));
                if cnt == 2 {
                    assert(has_id(bs[first.0 as int][first.1 as int], id));
                    assert(has_id(bs[second.0 as int][second.1 as int], id));
                } else {
                    assert(has_id(bs[wb][wk], id));
                }
            }
        }
        false
    }
}

/// Whether `allocate` can run on these inputs: the registers x1..x255
/// suffice, sizes are far from overflow, and where copies are needed the
/// loop instruction sits once in the body and every pair's producers were
/// placed and write a register.
#[verifier::loop_isolation(false)]
#[verifier::spinoff_prover]
pub fn allocation_fits(
    schedule: &Schedule,
    program: &Program,
    deps: &DepTable,
    placement: &HashMap<InstId, Placement>,
) -> (b: bool)
    requires
        program@.wf(),
        deps_of(program@, deps_view(deps@)),
    ensures
        b == alloc_fits(program@, deps_view(deps@), placement@, schedule@),
{
    let ghost s = schedule@;
    let ghost ds = deps_view(deps@);
    let ghost prog = program@;
    let l0 = schedule.bb0.len();
    let l1 = schedule.bb1.len();
    let l2 = schedule.bb2.len();
    if l0 > usize::MAX / 8 || l1 > usize::MAX / 8 - l0 || l2 > usize::MAX / 8 - l0 - l1 {
        return false;
    }
    let p = count_producers(&schedule.bb0) + count_producers(&schedule.bb1) + count_producers(&schedule.bb2);
    let u0 = count_unused(&schedule.bb0, deps, 0);
    let u1 = count_unused(&schedule.bb1, deps, u0);
    let u2 = count_unused(&schedule.bb2, deps, u1);
    proof {
        lemma_unused_prefix(s.bb0, ds, 0);
        lemma_unused_prefix(s.bb1, ds, 0);
        lemma_unused_prefix(s.bb2, ds, 0);
        lemma_producers_prefix(s.bb0, 0);
        lemma_producers_prefix(s.bb1, 0);
        lemma_producers_prefix(s.bb2, 0);
    }
    if p >= 255 || u2 > 254 - p {
        return false;
    }
    assert(u2 == total_unused(s, ds));
    let pairs = collect_pairs(deps);
    let n = program.instrs.len();
    if n > usize::MAX / 8 || pairs.len() > usize::MAX / 8 - n {
        return false;
    }
    if program.loop_kind.is_none() || pairs.len() == 0 {
        return true;
    }
    let li = program.bb1_end - 1;
    if !occurs_once_in_body(schedule, li) {
        return false;
    }
    let mut new_reg: HashMap<InstId, u8> = HashMap::new();
    let mut next: u8 = 1;
    collect_regs(&schedule.bb0, &mut next, &mut new_reg);
    collect_regs(&schedule.bb1, &mut next, &mut new_reg);
    collect_regs(&schedule.bb2, &mut next, &mut new_reg);
    assert(new_reg@ == new_regs(s));
    let mut j: usize = 0;
    while j < pairs.len()
        invariant
            j <= pairs@.len(),
            pairs@ == interloop_pairs(ds),
            new_reg@ == new_regs(s),
            forall|jj: int|
                0 <= jj < j ==> {
                    let q = #[trigger] pairs@[jj];
                    &&& placement@.contains_key(q.1)
                    &&& placement@[q.1].bundle <= usize::MAX / 8
                    &&& new_regs(s).contains_key(q.0)
                    &&& new_regs(s).contains_key(q.1)
                },
        decreases pairs@.len() - j,
    {
        let (p0, p1) = pairs[j];
        let ok_pl = match placement.get(&p1) {
            Some(pl) => pl.bundle <= usize::MAX / 8,
            None => false,
        };
        if !ok_pl || !new_reg.contains_key(&p0) || !new_reg.contains_key(&p1) {
            proof {
                let q = pairs@[j as int];
                assert(q == (p0, p1));
                assert(!(placement@.contains_key(q.1) && placement@[q.1].bundle <= usize::MAX / 8
                    && new_regs(s).contains_key(q.0) && new_regs(s).contains_key(q.1)));
                assert(interloop_pairs(ds)[j as int] == q);
            }
            return false;
        }
        j = j + 1;
    }
    true
}

// ------------------------------------------------------------------
// Laws.

/// Distinct keys of `m` hold distinct registers, all in `[lo, hi)`.
pub open spec fn distinct_in(m: Map<usize, u8>, lo: int, hi: int) -> bool {
    &&& forall|a: usize, b: usize| m.contains_key(a) && m.contains_key(b) && a != b ==> #[trigger] m[a] != #[trigger] m[b]
    &&& forall|a: usize| #[trigger] m.contains_key(a) ==> lo <= m[a] < hi
}

proof fn lemma_regs_in_distinct(bd: Seq<Option<Instr>>, k: int, base: int, m: Map<usize, u8>, lo: int)
    requires
        0 <= k,
        distinct_in(m, lo, base),
        0 <= lo <= base,
        base + producers_in(bd, k) <= 256,
    ensures
        distinct_in(regs_in(bd, k, base, m), lo, base + producers_in(bd, k)),
    decreases k,
{
    if k > 0 {
        lemma_producers_in_bounds(bd, k - 1, k);
        lemma_regs_in_distinct(bd, k - 1, base, m, lo);
        let m1 = regs_in(bd, k - 1, base, m);
        if is_producer(bd[k - 1]) {
            let v = (base + producers_in(bd, k - 1)) as u8;
            assert(v == base + producers_in(bd, k - 1));
            let m2 = m1.insert(bd[k - 1]->0.id, v);
            assert forall|a: usize, b: usize| m2.contains_key(a) && m2.contains_key(b) && a != b implies #[trigger] m2[a] != #[trigger] m2[b] by {
                if a != bd[k - 1]->0.id && b != bd[k - 1]->0.id {
                    assert(m1[a] != m1[b]);
                }
            }
        }
    }
}

proof fn lemma_regs_block_distinct(bs: Seq<Seq<Option<Instr>>>, base: int, m: Map<usize, u8>, lo: int)
    requires
        distinct_in(m, lo, base),
        0 <= lo <= base,
        base + producers(bs) <= 256,
    ensures
        distinct_in(regs_block(bs, base, m), lo, base + producers(bs)),
    decreases bs.len(),
{
    if bs.len() > 0 {
        lemma_producers_prefix(bs.drop_last(), 0);
        lemma_producers_in_bounds(bs.last(), 0, 5);
        lemma_regs_block_distinct(bs.drop_last(), base, m, lo);
        lemma_regs_in_distinct(bs.last(), 5, base + producers(bs.drop_last()), regs_block(bs.drop_last(), base, m), lo);
    }
}

/// Phase 1 gives distinct producers distinct registers, numbered from x1
/// up to the number of producers.
pub proof fn lemma_new_regs_distinct(s: Sched)
    requires
        1 + total_producers(s) <= 256,
    ensures
        distinct_in(new_regs(s), 1, 1 + total_producers(s)),
{
    lemma_producers_prefix(s.bb0, 0);
    lemma_producers_prefix(s.bb1, 0);
    lemma_producers_prefix(s.bb2, 0);
    lemma_regs_block_distinct(s.bb0, 1, Map::empty(), 1);
    lemma_regs_block_distinct(s.bb1, 1 + producers(s.bb0), regs_block(s.bb0, 1, Map::empty()), 1);
    let r1 = regs_block(s.bb1, 1 + producers(s.bb0), regs_block(s.bb0, 1, Map::empty()));
    lemma_regs_block_distinct(s.bb2, 1 + producers(s.bb0) + producers(s.bb1), r1, 1);
}

/// Operand `j` of the instruction in slot `k` of bundle `b` has no producer.
pub open spec fn fresh_at(bs: Seq<Seq<Option<Instr>>>, ds: Seq<Seq<Option<DepKind>>>, b: int, k: int, j: int) -> bool {
    &&& 0 <= b < bs.len()
    &&& 0 <= k < 5
    &&& bs[b][k] is Some
    &&& unused_at(bs[b][k]->0, ds, j)
}

/// The register phase 4 gives that operand, counted from `base`.
pub open spec fn fresh_reg(bs: Seq<Seq<Option<Instr>>>, ds: Seq<Seq<Option<DepKind>>>, base: int, b: int, k: int, j: int) -> int {
    base + unused(bs.subrange(0, b), ds) + unused_in(bs[b], k, ds) + unused_upto(bs[b][k]->0, ds, j)
}

/// `(b1, k1, j1)` comes before `(b2, k2, j2)` in scheduling order.
pub open spec fn before(b1: int, k1: int, j1: int, b2: int, k2: int, j2: int) -> bool {
    ||| b1 < b2
    ||| b1 == b2 && k1 < k2
    ||| b1 == b2 && k1 == k2 && j1 < j2
}

proof fn lemma_fresh_bounds(bs: Seq<Seq<Option<Instr>>>, ds: Seq<Seq<Option<DepKind>>>, b: int, k: int, j: int)
    requires
        shaped(bs),
        fresh_at(bs, ds, b, k, j),
    ensures
        0 <= fresh_reg(bs, ds, 0, b, k, j),
        fresh_reg(bs, ds, 0, b, k, j) < unused(bs.subrange(0, b), ds) + unused_in(bs[b], k + 1, ds),
        unused(bs.subrange(0, b), ds) + unused_in(bs[b], 5, ds) <= unused(bs.subrange(0, b + 1), ds),
        fresh_reg(bs, ds, 0, b, k, j) < unused(bs, ds),
{
    let i = bs[b][k]->0;
    let bd = bs[b];
    lemma_unused_upto_bounds(i, ds, j + 1, ds[i.id as int].len() as int);
    lemma_unused_upto_bounds(i, ds, 0, j);
    lemma_unused_in_bounds(bd, ds, 0, k);
    lemma_unused_in_bounds(bd, ds, k + 1, 5);
    lemma_unused_prefix(bs, ds, b);
    let pre = bs.subrange(0, b);
    assert(bs.subrange(0, b + 1).drop_last() =~= pre);
    assert(bs.subrange(0, b + 1).last() == bd);
    lemma_unused_prefix(bs, ds, b + 1);
    lemma_unused_prefix(bs.subrange(0, b), ds, 0);
}

proof fn lemma_prefix_mono(bs: Seq<Seq<Option<Instr>>>, ds: Seq<Seq<Option<DepKind>>>, b1: int, b2: int)
    requires
        0 <= b1 <= b2 <= bs.len(),
    ensures
        unused(bs.subrange(0, b1), ds) <= unused(bs.subrange(0, b2), ds),
{
    lemma_unused_prefix(bs.subrange(0, b2), ds, b1);
    assert(bs.subrange(0, b2).subrange(0, b1) =~= bs.subrange(0, b1));
}

/// Phase 4 numbers the operands without a producer of a block upwards in
/// scheduling order: a later occurrence always gets a higher register, so
/// no two occurrences share one, and all of them lie in
/// `[base, base + unused(bs))`.
pub proof fn lemma_fresh_registers(
    bs: Seq<Seq<Option<Instr>>>,
    ds: Seq<Seq<Option<DepKind>>>,
    base: int,
    b1: int,
    k1: int,
    j1: int,
    b2: int,
    k2: int,
    j2: int,
)
    requires
        shaped(bs),
        0 <= base,
        base + unused(bs, ds) <= 256,
        fresh_at(bs, ds, b1, k1, j1),
        fresh_at(bs, ds, b2, k2, j2),
        before(b1, k1, j1, b2, k2, j2),
    ensures
        base <= filled_block(bs, ds, base)[b1][k1]->0.src_regs[j1] < filled_block(bs, ds, base)[b2][k2]->0.src_regs[j2] < base
            + unused(bs, ds),
{
    lemma_fresh_bounds(bs, ds, b1, k1, j1);
    lemma_fresh_bounds(bs, ds, b2, k2, j2);
    let r1 = fresh_reg(bs, ds, 0, b1, k1, j1);
    let r2 = fresh_reg(bs, ds, 0, b2, k2, j2);
    let i1 = bs[b1][k1]->0;
    let i2 = bs[b2][k2]->0;
    if b1 < b2 {
        lemma_unused_in_bounds(bs[b1], ds, k1 + 1, 5);
        lemma_prefix_mono(bs, ds, b1 + 1, b2);
        lemma_unused_in_bounds(bs[b2], ds, 0, k2);
        lemma_unused_upto_bounds(i2, ds, 0, j2);
    } else if k1 < k2 {
        lemma_unused_in_bounds(bs[b1], ds, k1 + 1, k2);
        lemma_unused_upto_bounds(i2, ds, 0, j2);
    } else {
        lemma_unused_upto_bounds(i1, ds, j1 + 1, j2);
    }
    assert(r1 < r2);
    let f = filled_block(bs, ds, base);
    assert(f[b1][k1] == filled_opt(bs[b1][k1], ds, base + unused(bs.subrange(0, b1), ds) + unused_in(bs[b1], k1, ds)));
    assert(f[b2][k2] == filled_opt(bs[b2][k2], ds, base + unused(bs.subrange(0, b2), ds) + unused_in(bs[b2], k2, ds)));
    assert(f[b1][k1]->0.src_regs[j1] == (base + r1) as u8);
    assert(f[b2][k2]->0.src_regs[j2] == (base + r2) as u8);
}

/// Every schedule for `loop` (and so every schedule for `loop.pip`) holds
/// the loop instruction in exactly one slot of its body, as the copies of
/// phase 3 need.
pub proof fn lemma_loop_sits_once(
    prog: Prog,
    ds: Seq<Seq<Option<DepKind>>>,
    pl: Map<usize, Placement>,
    s: Sched,
)
    requires
        prog.wf(),
        prog.loop_kind is Some,
        crate::scheduler::schedule_simple::simple_schedule_ok(prog, ds, pl, s),
        s.flat().len() <= usize::MAX,
    ensures
        occurs_once(s.bb1, (prog.bb1_end - 1) as usize),
        occurs_once(crate::scheduler::schedule_pip::pip_tagged(s).bb1, (prog.bb1_end - 1) as usize),
{
    let li = (prog.bb1_end - 1) as usize;
    let start = s.bb0.len() as int;
    let bs = s.bb1;
    let last = bs.len() - 1;
    assert(crate::scheduler::schedule_simple::body_done(prog, ds, pl, bs, start));
    assert(prog.instrs[li as int].id == li);
    assert(has_id(bs[last][4], li));
    assert forall|b2: int, k2: int| 0 <= b2 < bs.len() && 0 <= k2 < 5 && #[trigger] has_id(bs[b2][k2], li) implies b2 == last && k2 == 4 by {
        assert(bs[b2][k2] is Some);
        assert(pl[li] == Placement { bundle: (start + b2) as usize, unit: unit_at(k2) });
        assert(pl[li] == Placement { bundle: (start + last) as usize, unit: unit_at(4) });
        assert(start + b2 < s.flat().len());
        assert(start + last < s.flat().len());
        assert(unit_at(k2) == ExecUnit::Branch);
    }
    assert(sole_slot(bs, li, last, 4));
    let t = crate::scheduler::schedule_pip::pip_tagged(s).bb1;
    assert forall|b2: int, k2: int| 0 <= b2 < t.len() && 0 <= k2 < 5 && #[trigger] has_id(t[b2][k2], li) implies b2 == last && k2 == 4 by {
        assert(has_id(bs[b2][k2], li));
    }
    assert(has_id(t[last][4], li));
    assert(sole_slot(t, li, last, 4));
}

// ------------------------------------------------------------------
// Where the copies go.

proof fn lemma_sched_set_flat(s: Sched, b2: int, k2: int, x: Option<Instr>, b: int, k: int)
    requires
        sched_shaped(s),
        0 <= b2 < s.flat().len(),
        0 <= k2 < 5,
        0 <= b < s.flat().len(),
        0 <= k < 5,
    ensures
        sched_set(s, b2, k2, x).flat().len() == s.flat().len(),
        sched_set(s, b2, k2, x).bb0.len() == s.bb0.len(),
        sched_set(s, b2, k2, x).bb1.len() == s.bb1.len(),
        sched_set(s, b2, k2, x).flat()[b][k] == if b == b2 && k == k2 { x } else { s.flat()[b][k] },
{
    let t = sched_set(s, b2, k2, x);
    let l0 = s.bb0.len() as int;
    let l1 = s.bb1.len() as int;
    if b < l0 {
        assert(s.flat()[b] == s.bb0[b]);
        assert(t.flat()[b] == t.bb0[b]);
    } else if b < l0 + l1 {
        assert(s.flat()[b] == s.bb1[b - l0]);
        assert(t.flat()[b] == t.bb1[b - l0]);
    } else {
        assert(s.flat()[b] == s.bb2[b - l0 - l1]);
        assert(t.flat()[b] == t.bb2[b - l0 - l1]);
    }
}

/// Placing a copy leaves every other instruction of BB0 and the body
/// where it was, and puts the copy in an ALU slot of BB0 or the body no
/// earlier than `min`.
proof fn lemma_placed_mov_where(s: Sched, id: usize, min: int, mov: Instr)
    requires
        sched_shaped(s),
        occurs_once(s.bb1, id),
        mov.id != id,
        min >= 0,
    ensures
        ({
            let t = placed_mov(s, id, min, mov);
            let l = s.bb0.len() + s.bb1.len();
            &&& t.bb0.len() + t.bb1.len() >= l
            &&& forall|b: int, k: int|
                0 <= b < l && 0 <= k < 5 && (#[trigger] s.flat()[b][k] matches Some(x) && x.id != id) ==> t.flat()[b][k] == s.flat()[b][k]
            &&& exists|b: int, k: int| min <= b < t.bb0.len() + t.bb1.len() && 0 <= k < 2 && #[trigger] t.flat()[b][k] == Some(mov)
        }),
{
    let (rel, u) = slot_of_id(s.bb1, id);
    assert(sole_slot(s.bb1, id, rel, u));
    let l0 = s.bb0.len() as int;
    let l1 = s.bb1.len() as int;
    let t = placed_mov(s, id, min, mov);
    match mov_slot(s.flat(), min, l0 + rel) {
        Some(bk) => {
            let (b2, k2) = bk;
            lemma_latest_free_range(s.flat(), min, l0 + rel, 0);
            lemma_latest_free_range(s.flat(), min, l0 + rel, 1);
            lemma_latest_free_some(s.flat(), min, l0 + rel, k2);
            assert(t == sched_set(s, b2, k2, Some(mov)));
            lemma_sched_set_flat(s, b2, k2, Some(mov), b2, k2);
            assert forall|b: int, k: int|
                0 <= b < l0 + l1 && 0 <= k < 5 && (#[trigger] s.flat()[b][k] matches Some(x) && x.id != id) implies t.flat()[b][k] == s.flat()[b][k] by {
                lemma_sched_set_flat(s, b2, k2, Some(mov), b, k);
            }
            assert(t.flat()[b2][k2] == Some(mov));
        },
        None => {
            let b0 = l0 + l1;
            let pushes = if min >= b0 {
                min - b0 + 1
            } else {
                1
            };
            let a = after_pushes(s, id, pushes);
            lemma_after_pushes(s, id, pushes);
            let last = b0 + pushes - 1;
            let cleared = s.bb1.update(rel, s.bb1[rel].update(u, None));
            assert forall|i: int| 0 <= i < a.bb0.len() implies (#[trigger] a.bb0[i]).len() == 5 by {}
            assert forall|i: int| 0 <= i < a.bb2.len() implies (#[trigger] a.bb2[i]).len() == 5 by {}
            assert(sched_shaped(a));
            assert(t == sched_set(a, last, 0, Some(mov)));
            assert(a.flat().len() == l0 + l1 + pushes + s.bb2.len());
            lemma_sched_set_flat(a, last, 0, Some(mov), last, 0);
            assert forall|b: int, k: int|
                0 <= b < l0 + l1 && 0 <= k < 5 && (#[trigger] s.flat()[b][k] matches Some(x) && x.id != id) implies t.flat()[b][k] == s.flat()[b][k] by {
                lemma_sched_set_flat(a, last, 0, Some(mov), b, k);
                if b < l0 {
                    assert(s.flat()[b] == s.bb0[b]);
                    assert(a.flat()[b] == a.bb0[b]);
                } else {
                    assert(s.flat()[b] == s.bb1[b - l0]);
                    assert(a.flat()[b] == a.bb1[b - l0]);
                    assert(a.bb1[b - l0] == cleared[b - l0]);
                    if b - l0 == rel && k == u {
                        assert(has_id(s.bb1[rel][u], id));
                    }
                }
            }
            assert(t.flat()[last][0] == Some(mov));
        },
    }
}

/// Each copy placed for an entry `(dst, src, ready)` sits in an ALU slot
/// of BB0 or the body, in a bundle no earlier than `ready`.
proof fn lemma_movs_placed_where(s: Sched, id: usize, order: Seq<(usize, usize, usize)>, nr: Map<usize, u8>, first: int)
    requires
        sched_shaped(s),
        occurs_once(s.bb1, id),
        first > id,
        first + order.len() <= usize::MAX,
    ensures
        ({
            let t = movs_placed(s, id, order, nr, first);
            &&& sched_shaped(t)
            &&& occurs_once(t.bb1, id)
            &&& forall|j: int|
                0 <= j < order.len() ==> exists|b: int, k: int|
                    (#[trigger] order[j]).2 <= b < t.bb0.len() + t.bb1.len() && 0 <= k < 2
                        && #[trigger] t.flat()[b][k] == Some(mov_instr(nr[order[j].0], nr[order[j].1], (first + j) as usize))
        }),
    decreases order.len(),
{
    if order.len() > 0 {
        let init = order.drop_last();
        lemma_movs_placed_where(s, id, init, nr, first);
        let t0 = movs_placed(s, id, init, nr, first);
        let m = order.last();
        let mov = mov_instr(nr[m.0], nr[m.1], (first + order.len() - 1) as usize);
        let t = movs_placed(s, id, order, nr, first);
        assert(t == placed_mov(t0, id, m.2 as int, mov));
        lemma_placed_mov(t0, id, m.2 as int, mov, Seq::<Seq<Option<DepKind>>>::empty());
        lemma_placed_mov_where(t0, id, m.2 as int, mov);
        assert forall|j: int| 0 <= j < order.len() implies exists|b: int, k: int|
            (#[trigger] order[j]).2 <= b < t.bb0.len() + t.bb1.len() && 0 <= k < 2
                && #[trigger] t.flat()[b][k] == Some(mov_instr(nr[order[j].0], nr[order[j].1], (first + j) as usize)) by {
            if j < init.len() {
                assert(init[j] == order[j]);
                let mj = mov_instr(nr[order[j].0], nr[order[j].1], (first + j) as usize);
                let (b, k) = choose|b: int, k: int|
                    (#[trigger] init[j]).2 <= b < t0.bb0.len() + t0.bb1.len() && 0 <= k < 2
                        && #[trigger] t0.flat()[b][k] == Some(mj);
                assert(t0.flat()[b][k] matches Some(x) && x.id != id);
                assert(t.flat()[b][k] == t0.flat()[b][k]);
            } else {
                assert(order[j] == m);
            }
        }
    }
}

proof fn lemma_filled_keeps_new(s: Sched, ds: Seq<Seq<Option<DepKind>>>, base: int, b: int, k: int)
    requires
        sched_shaped(s),
        0 <= b < s.flat().len(),
        0 <= k < 5,
    ensures
        filled_sched(s, ds, base).bb0.len() == s.bb0.len(),
        filled_sched(s, ds, base).bb1.len() == s.bb1.len(),
        s.flat()[b][k] matches Some(i) && i.id >= ds.len() ==> filled_sched(s, ds, base).flat()[b][k] == s.flat()[b][k],
{
    let t = filled_sched(s, ds, base);
    let l0 = s.bb0.len() as int;
    let l1 = s.bb1.len() as int;
    if let Some(i) = s.flat()[b][k] {
        if i.id >= ds.len() {
            assert forall|base2: int| #[trigger] filled(i, ds, base2) == i by {
                assert(filled(i, ds, base2).src_regs =~= i.src_regs);
            }
            if b < l0 {
                assert(s.flat()[b] == s.bb0[b]);
                assert(t.flat()[b] == t.bb0[b]);
            } else if b < l0 + l1 {
                assert(s.flat()[b] == s.bb1[b - l0]);
                assert(t.flat()[b] == t.bb1[b - l0]);
            } else {
                assert(s.flat()[b] == s.bb2[b - l0 - l1]);
                assert(t.flat()[b] == t.bb2[b - l0 - l1]);
            }
        }
    }
}

/// Every interloop copy waits for its producer: the copy for the operand
/// pair of BB0 initializer `p0` and body producer `p1`,
/// `mov x(p0), x(p1)`, sits in an ALU slot of BB0 or the body, in a bundle
/// no earlier than `p1`'s bundle plus its latency.
pub proof fn lemma_copies_wait_for_producers(prog: Prog, ds: Seq<Seq<Option<DepKind>>>, pl: Map<usize, Placement>, s: Sched)
    requires
        prog.wf(),
        deps_of(prog, ds),
        alloc_fits(prog, ds, pl, s),
        sched_shaped(s),
        prog.loop_kind is Some,
    ensures
        ({
            let order = mov_order(prog, ds, pl);
            let nr = new_regs(s);
            let t = allocated(prog, ds, pl, s);
            forall|j: int|
                0 <= j < order.len() ==> {
                    let m = #[trigger] order[j];
                    &&& interloop_pairs(ds).contains((m.0, m.1))
                    &&& exists|b: int, k: int|
                        pl[m.1].bundle + latency_of(prog.instrs[m.1 as int].opcode) <= b < t.bb0.len() + t.bb1.len() && 0 <= k < 2
                            && #[trigger] t.flat()[b][k] == Some(mov_instr(nr[m.0], nr[m.1], (prog.instrs.len() + j) as usize))
                }
        }),
{
    let order = mov_order(prog, ds, pl);
    let nr = new_regs(s);
    let n = prog.instrs.len() as int;
    let li = (prog.bb1_end - 1) as usize;
    let pairs = interloop_pairs(ds);
    let tw = with_ready(pairs, prog, pl);
    let s1 = renamed_sched(s, ds, nr);
    lemma_renamed_block(s.bb0, ds, nr);
    lemma_renamed_block(s.bb1, ds, nr);
    lemma_renamed_block(s.bb2, ds, nr);
    lemma_sort_desc_elems(tw);
    if order.len() > 0 {
        let (rb, rk) = choose|b: int, k: int| sole_slot(s.bb1, li, b, k);
        assert(sole_slot(s.bb1, li, rb, rk));
        assert(sole_slot(s1.bb1, li, rb, rk));
        lemma_movs_placed_where(s1, li, order, nr, n);
        let s2 = movs_placed(s1, li, order, nr, n);
        let t = allocated(prog, ds, pl, s);
        assert(t == filled_sched(s2, ds, 1 + total_producers(s)));
        assert forall|j: int| 0 <= j < order.len() implies {
            let m = #[trigger] order[j];
            &&& interloop_pairs(ds).contains((m.0, m.1))
            &&& exists|b: int, k: int|
                pl[m.1].bundle + latency_of(prog.instrs[m.1 as int].opcode) <= b < t.bb0.len() + t.bb1.len() && 0 <= k < 2
                    && #[trigger] t.flat()[b][k] == Some(mov_instr(nr[m.0], nr[m.1], (prog.instrs.len() + j) as usize))
        } by {
            let m = order[j];
            assert(tw.contains(m));
            let i = choose|i: int| 0 <= i < tw.len() && tw[i] == m;
            assert(pairs[i] == (m.0, m.1));
            let p = pairs[i];
            assert(pl[p.1].bundle <= usize::MAX / 8);
            assert(m.2 == pl[m.1].bundle + latency_of(prog.instrs[m.1 as int].opcode));
            let mv = mov_instr(nr[m.0], nr[m.1], (n + j) as usize);
            let (b, k) = choose|b: int, k: int|
                (#[trigger] order[j]).2 <= b < s2.bb0.len() + s2.bb1.len() && 0 <= k < 2 && #[trigger] s2.flat()[b][k] == Some(mv);
            lemma_filled_keeps_new(s2, ds, 1 + total_producers(s), b, k);
            assert(t.flat()[b][k] == Some(mv));
        }
    }
}

} // verus!
