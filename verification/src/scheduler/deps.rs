//! Dependency analysis: for every source operand, which instruction
//! produces the value it reads and how producer and consumer relate across
//! the loop.

use std::collections::HashMap;

use vstd::prelude::*;

use crate::scheduler::ir::{DepKind, DepTable, InstId, Instr, InstrDeps};
use crate::scheduler::parser::{Prog, Program};

verus! {

broadcast use vstd::std_specs::hash::group_hash_axioms;

/// The last instruction in `[lo, hi)` that writes x-register `r`.
pub open spec fn latest_producer(instrs: Seq<Instr>, r: u8, lo: int, hi: int) -> Option<int>
    decreases hi - lo,
{
    if hi <= lo {
        None
    } else if instrs[hi - 1].dest_reg == Some(r) {
        Some(hi - 1)
    } else {
        latest_producer(instrs, r, lo, hi - 1)
    }
}

/// The first instruction in `[lo, hi)` that writes x-register `r`.
pub open spec fn first_producer(instrs: Seq<Instr>, r: u8, lo: int, hi: int) -> Option<int>
    decreases hi - lo,
{
    if hi <= lo {
        None
    } else if instrs[lo].dest_reg == Some(r) {
        Some(lo)
    } else {
        first_producer(instrs, r, lo + 1, hi)
    }
}

/// How the value of register `r` read by instruction `c` is produced:
/// in BB0 only earlier BB0 writers count; in the loop body an earlier body
/// writer is local, otherwise a later body writer makes an interloop
/// dependency (with the last BB0 writer as its initial value), and
/// otherwise a BB0 writer makes a loop invariant; after the loop, an
/// earlier BB2 writer is local, then the last body writer is post-loop,
/// then a BB0 writer is loop invariant.
pub open spec fn classify_spec(p: Prog, r: u8, c: int) -> Option<DepKind> {
    let ins = p.instrs;
    let s = p.bb1_start as int;
    let e = p.bb1_end as int;
    if c < s {
        match latest_producer(ins, r, 0, c) {
            Some(q) => Some(DepKind::Local(q as InstId)),
            None => None,
        }
    } else if c < e {
        match latest_producer(ins, r, s, c) {
            Some(q) => Some(DepKind::Local(q as InstId)),
            None => match first_producer(ins, r, c, e) {
                Some(b1) => Some(
                    DepKind::Interloop {
                        bb0: match latest_producer(ins, r, 0, s) {
                            Some(b0) => Some(b0 as InstId),
                            None => None,
                        },
                        bb1: b1 as InstId,
                    },
                ),
                None => match latest_producer(ins, r, 0, s) {
                    Some(b0) => Some(DepKind::LoopInvariant(b0 as InstId)),
                    None => None,
                },
            },
        }
    } else {
        match latest_producer(ins, r, e, c) {
            Some(q) => Some(DepKind::Local(q as InstId)),
            None => match latest_producer(ins, r, s, e) {
                Some(q) => Some(DepKind::PostLoop(q as InstId)),
                None => match latest_producer(ins, r, 0, s) {
                    Some(q) => Some(DepKind::LoopInvariant(q as InstId)),
                    None => None,
                },
            },
        }
    }
}

/// The dependency table as plain values.
pub open spec fn deps_view(t: Seq<InstrDeps>) -> Seq<Seq<Option<DepKind>>> {
    t.map_values(|d: InstrDeps| d.src_deps@)
}

/// The table is the classification of every operand of every instruction.
pub open spec fn deps_of(p: Prog, t: Seq<Seq<Option<DepKind>>>) -> bool {
    &&& t.len() == p.instrs.len()
    &&& forall|i: int|
        0 <= i < t.len() ==> {
            &&& (#[trigger] t[i]).len() == p.instrs[i].src_regs.len()
            &&& forall|k: int|
                0 <= k < t[i].len() ==> #[trigger] t[i][k] == classify_spec(
                    p,
                    p.instrs[i].src_regs[k],
                    i,
                )
        }
}

/// The last writer in `[lo, hi)` of every register.
fn producers_in(program: &Program, lo: usize, hi: usize) -> (m: HashMap<u8, InstId>)
    requires
        lo <= hi <= program.instrs@.len(),
    ensures
        forall|r: u8|
            #![trigger m@.contains_key(r)]
            #![trigger latest_producer(program@.instrs, r, lo as int, hi as int)]
            (m@.contains_key(r) <==> latest_producer(program@.instrs, r, lo as int, hi as int) is Some)
                && (m@.contains_key(r) ==> m@[r] as int == latest_producer(
                program@.instrs,
                r,
                lo as int,
                hi as int,
            )->0),
{
    let ghost ins = program@.instrs;
    let mut m: HashMap<u8, InstId> = HashMap::new();
    let mut idx = lo;
    while idx < hi
        invariant
            lo <= idx <= hi <= program.instrs@.len(),
            ins == program@.instrs,
            forall|r: u8|
                #![trigger m@.contains_key(r)]
                #![trigger latest_producer(ins, r, lo as int, idx as int)]
                (m@.contains_key(r) <==> latest_producer(ins, r, lo as int, idx as int) is Some)
                    && (m@.contains_key(r) ==> m@[r] as int == latest_producer(
                    ins,
                    r,
                    lo as int,
                    idx as int,
                )->0),
        decreases hi - idx,
    {
        proof {
            assert(ins[idx as int] == program.instrs@[idx as int]@);
        }
        if let Some(r) = program.instrs[idx].dest_reg {
            m.insert(r, idx);
        }
        idx = idx + 1;
        proof {
            assert forall|q: u8|
                #![trigger m@.contains_key(q)]
                #![trigger latest_producer(ins, q, lo as int, idx as int)]
                (m@.contains_key(q) <==> latest_producer(ins, q, lo as int, idx as int) is Some) && (
                m@.contains_key(q) ==> m@[q] as int == latest_producer(
                    ins,
                    q,
                    lo as int,
                    idx as int,
                )->0) by {
                assert(latest_producer(ins, q, lo as int, idx as int) == if ins[idx - 1].dest_reg
                    == Some(q) {
                    Some(idx - 1)
                } else {
                    latest_producer(ins, q, lo as int, idx - 1)
                });
            }
        }
    }
    m
}

fn latest_producer_in_range(r: u8, program: &Program, lo: usize, hi: usize) -> (p: Option<InstId>)
    requires
        lo <= hi <= program.instrs@.len(),
    ensures
        match p {
            Some(q) => latest_producer(program@.instrs, r, lo as int, hi as int) == Some(q as int),
            None => latest_producer(program@.instrs, r, lo as int, hi as int) is None,
        },
{
    let ghost ins = program@.instrs;
    let mut idx = hi;
    while idx > lo
        invariant
            lo <= idx <= hi <= program.instrs@.len(),
            ins == program@.instrs,
            latest_producer(ins, r, lo as int, hi as int) == latest_producer(ins, r, lo as int, idx as int),
        decreases idx,
    {
        proof {
            assert(ins[idx - 1] == program.instrs@[idx - 1]@);
        }
        if program.instrs[idx - 1].dest_reg == Some(r) {
            return Some(idx - 1);
        }
        idx = idx - 1;
    }
    None
}

fn first_producer_in_range(r: u8, program: &Program, lo: usize, hi: usize) -> (p: Option<InstId>)
    requires
        lo <= hi <= program.instrs@.len(),
    ensures
        match p {
            Some(q) => first_producer(program@.instrs, r, lo as int, hi as int) == Some(q as int),
            None => first_producer(program@.instrs, r, lo as int, hi as int) is None,
        },
{
    let ghost ins = program@.instrs;
    let mut idx = lo;
    while idx < hi
        invariant
            lo <= idx <= hi <= program.instrs@.len(),
            ins == program@.instrs,
            first_producer(ins, r, lo as int, hi as int) == first_producer(ins, r, idx as int, hi as int),
        decreases hi - idx,
    {
        proof {
            assert(ins[idx as int] == program.instrs@[idx as int]@);
        }
        if program.instrs[idx].dest_reg == Some(r) {
            return Some(idx);
        }
        idx = idx + 1;
    }
    None
}

fn classify(
    r: u8,
    consumer: InstId,
    program: &Program,
    bb0_prod: &HashMap<u8, InstId>,
    bb1_prod: &HashMap<u8, InstId>,
) -> (d: Option<DepKind>)
    requires
        program@.wf(),
        consumer < program.instrs@.len(),
        forall|q: u8|
            #![trigger bb0_prod@.contains_key(q)]
            (bb0_prod@.contains_key(q) <==> latest_producer(program@.instrs, q, 0, program.bb1_start as int) is Some)
                && (bb0_prod@.contains_key(q) ==> bb0_prod@[q] as int == latest_producer(
                program@.instrs,
                q,
                0,
                program.bb1_start as int,
            )->0),
        forall|q: u8|
            #![trigger bb1_prod@.contains_key(q)]
            (bb1_prod@.contains_key(q) <==> latest_producer(program@.instrs, q, program.bb1_start as int, program.bb1_end as int) is Some)
                && (bb1_prod@.contains_key(q) ==> bb1_prod@[q] as int == latest_producer(
                program@.instrs,
                q,
                program.bb1_start as int,
                program.bb1_end as int,
            )->0),
    ensures
        d == classify_spec(program@, r, consumer as int),
{
    let ghost b0 = latest_producer(program@.instrs, r, 0, program.bb1_start as int);
    let ghost b1 = latest_producer(program@.instrs, r, program.bb1_start as int, program.bb1_end as int);
    proof {
        assert(bb0_prod@.contains_key(r) <==> b0 is Some);
        assert(bb1_prod@.contains_key(r) <==> b1 is Some);
    }
    if program.in_bb0(consumer) {
        if let Some(p) = latest_producer_in_range(r, program, 0, consumer) {
            return Some(DepKind::Local(p));
        }
        None
    } else if program.in_bb1(consumer) {
        if let Some(p) = latest_producer_in_range(r, program, program.bb1_start, consumer) {
            return Some(DepKind::Local(p));
        }
        let bb1_after = first_producer_in_range(r, program, consumer, program.bb1_end);
        let bb0_p = match bb0_prod.get(&r) {
            Some(v) => Some(*v),
            None => None,
        };
        match bb1_after {
            Some(b1v) => Some(DepKind::Interloop { bb0: bb0_p, bb1: b1v }),
            None => match bb0_p {
                Some(b0v) => Some(DepKind::LoopInvariant(b0v)),
                None => None,
            },
        }
    } else {
        if let Some(p) = latest_producer_in_range(r, program, program.bb1_end, consumer) {
            return Some(DepKind::Local(p));
        }
        if let Some(p) = bb1_prod.get(&r) {
            return Some(DepKind::PostLoop(*p));
        }
        if let Some(p) = bb0_prod.get(&r) {
            return Some(DepKind::LoopInvariant(*p));
        }
        None
    }
}

/// Classifies every source operand of every instruction.
#[verifier::spinoff_prover]
pub fn analyze(program: &Program) -> (table: DepTable)
    requires
        program@.wf(),
    ensures
        deps_of(program@, deps_view(table@)),
{
    let bb0_prod = producers_in(program, 0, program.bb1_start);
    let bb1_prod = producers_in(program, program.bb1_start, program.bb1_end);
    let mut table: Vec<InstrDeps> = Vec::new();
    let mut idx: usize = 0;
    while idx < program.instrs.len()
        invariant
            idx <= program.instrs@.len(),
            program@.wf(),
            table@.len() == idx,
            forall|q: u8|
                #![trigger bb0_prod@.contains_key(q)]
                (bb0_prod@.contains_key(q) <==> latest_producer(program@.instrs, q, 0, program.bb1_start as int) is Some)
                    && (bb0_prod@.contains_key(q) ==> bb0_prod@[q] as int == latest_producer(
                    program@.instrs,
                    q,
                    0,
                    program.bb1_start as int,
                )->0),
            forall|q: u8|
                #![trigger bb1_prod@.contains_key(q)]
                (bb1_prod@.contains_key(q) <==> latest_producer(program@.instrs, q, program.bb1_start as int, program.bb1_end as int) is Some)
                    && (bb1_prod@.contains_key(q) ==> bb1_prod@[q] as int == latest_producer(
                    program@.instrs,
                    q,
                    program.bb1_start as int,
                    program.bb1_end as int,
                )->0),
            forall|i: int|
                0 <= i < idx ==> {
                    &&& (#[trigger] table@[i]).src_deps@.len() == program@.instrs[i].src_regs.len()
                    &&& forall|k: int|
                        0 <= k < table@[i].src_deps@.len() ==> #[trigger] table@[i].src_deps@[k]
                            == classify_spec(program@, program@.instrs[i].src_regs[k], i)
                },
        decreases program.instrs@.len() - idx,
    {
        let instr = &program.instrs[idx];
        proof {
            assert(program@.instrs[idx as int] == instr@);
        }
        let mut src_deps: Vec<Option<DepKind>> = Vec::new();
        let mut k: usize = 0;
        while k < instr.src_regs.len()
            invariant
                k <= instr.src_regs@.len(),
                idx < program.instrs@.len(),
                program@.wf(),
                program@.instrs[idx as int] == instr@,
                src_deps@.len() == k,
                forall|q: u8|
                    #![trigger bb0_prod@.contains_key(q)]
                    (bb0_prod@.contains_key(q) <==> latest_producer(program@.instrs, q, 0, program.bb1_start as int) is Some)
                        && (bb0_prod@.contains_key(q) ==> bb0_prod@[q] as int == latest_producer(
                        program@.instrs,
                        q,
                        0,
                        program.bb1_start as int,
                    )->0),
                forall|q: u8|
                    #![trigger bb1_prod@.contains_key(q)]
                    (bb1_prod@.contains_key(q) <==> latest_producer(program@.instrs, q, program.bb1_start as int, program.bb1_end as int) is Some)
                        && (bb1_prod@.contains_key(q) ==> bb1_prod@[q] as int == latest_producer(
                        program@.instrs,
                        q,
                        program.bb1_start as int,
                        program.bb1_end as int,
                    )->0),
                forall|j: int|
                    0 <= j < k ==> #[trigger] src_deps@[j] == classify_spec(
                        program@,
                        instr.src_regs@[j],
                        idx as int,
                    ),
            decreases instr.src_regs@.len() - k,
        {
            let d = classify(instr.src_regs[k], idx, program, &bb0_prod, &bb1_prod);
            src_deps.push(d);
            k = k + 1;
        }
        table.push(InstrDeps { src_deps });
        idx = idx + 1;
    }
    proof {
        let t = deps_view(table@);
        assert forall|i: int| 0 <= i < t.len() implies (#[trigger] t[i]) == table@[i].src_deps@ by {}
    }
    table
}

} // verus!

verus! {

pub proof fn lemma_latest_in_range(instrs: Seq<Instr>, r: u8, lo: int, hi: int)
    ensures
        latest_producer(instrs, r, lo, hi) matches Some(q) ==> lo <= q < hi && instrs[q].dest_reg
            == Some(r),
    decreases hi - lo,
{
    if hi > lo && instrs[hi - 1].dest_reg != Some(r) {
        lemma_latest_in_range(instrs, r, lo, hi - 1);
    }
}

pub proof fn lemma_first_in_range(instrs: Seq<Instr>, r: u8, lo: int, hi: int)
    ensures
        first_producer(instrs, r, lo, hi) matches Some(q) ==> lo <= q < hi && instrs[q].dest_reg
            == Some(r),
    decreases hi - lo,
{
    if hi > lo && instrs[lo].dest_reg != Some(r) {
        lemma_first_in_range(instrs, r, lo + 1, hi);
    }
}

/// Where the producer of a classified operand of instruction `c` lies.
pub open spec fn dep_in_place(p: Prog, c: int, d: Option<DepKind>) -> bool {
    let s = p.bb1_start as int;
    let e = p.bb1_end as int;
    match d {
        Some(DepKind::Local(q)) => q < c && (c < s ==> 0 <= q) && (s <= c < e ==> s <= q) && (e
            <= c ==> e <= q),
        Some(DepKind::LoopInvariant(q)) => 0 <= q < s && s <= c,
        Some(DepKind::PostLoop(q)) => s <= q < e && e <= c,
        Some(DepKind::Interloop { bb0, bb1 }) => s <= c < e && c <= bb1 < e && (bb0 matches Some(
            q,
        ) ==> 0 <= q < s),
        None => true,
    }
}

pub proof fn lemma_classify_in_place(p: Prog, r: u8, c: int)
    requires
        p.wf(),
        0 <= c < p.instrs.len(),
    ensures
        dep_in_place(p, c, classify_spec(p, r, c)),
{
    let s = p.bb1_start as int;
    let e = p.bb1_end as int;
    lemma_latest_in_range(p.instrs, r, 0, c);
    lemma_latest_in_range(p.instrs, r, s, c);
    lemma_latest_in_range(p.instrs, r, e, c);
    lemma_latest_in_range(p.instrs, r, 0, s);
    lemma_latest_in_range(p.instrs, r, s, e);
    lemma_first_in_range(p.instrs, r, c, e);
}

/// Every classified dependency of the table lies where its kind says.
pub proof fn lemma_deps_in_place(p: Prog, t: Seq<Seq<Option<DepKind>>>)
    requires
        p.wf(),
        deps_of(p, t),
    ensures
        forall|c: int, k: int|
            0 <= c < t.len() && 0 <= k < t[c].len() ==> dep_in_place(p, c, #[trigger] t[c][k]),
{
    assert forall|c: int, k: int| 0 <= c < t.len() && 0 <= k < t[c].len() implies dep_in_place(
        p,
        c,
        #[trigger] t[c][k],
    ) by {
        lemma_classify_in_place(p, p.instrs[c].src_regs[k], c);
    }
}


proof fn lemma_latest_is_last(instrs: Seq<Instr>, r: u8, lo: int, hi: int)
    ensures
        latest_producer(instrs, r, lo, hi) matches Some(q) ==> forall|j: int| q < j < hi ==> (#[trigger] instrs[j]).dest_reg != Some(r),
        latest_producer(instrs, r, lo, hi) is None ==> forall|j: int| lo <= j < hi ==> (#[trigger] instrs[j]).dest_reg != Some(r),
    decreases hi - lo,
{
    if hi > lo && instrs[hi - 1].dest_reg != Some(r) {
        lemma_latest_is_last(instrs, r, lo, hi - 1);
    }
}

proof fn lemma_first_none(instrs: Seq<Instr>, r: u8, lo: int, hi: int)
    ensures
        first_producer(instrs, r, lo, hi) is None ==> forall|j: int| lo <= j < hi ==> (#[trigger] instrs[j]).dest_reg != Some(r),
    decreases hi - lo,
{
    if hi > lo && instrs[lo].dest_reg != Some(r) {
        lemma_first_none(instrs, r, lo + 1, hi);
    }
}

/// What the classification of operand `k` of instruction `c` means: a
/// local operand reads the latest earlier writer of its register in the
/// same block, with no write of it in between; a loop-invariant operand
/// reads the last BB0 writer of a register that no body instruction writes.
pub proof fn lemma_dependence_meaning(p: Prog, t: Seq<Seq<Option<DepKind>>>, c: int, k: int)
    requires
        p.wf(),
        deps_of(p, t),
        0 <= c < t.len(),
        0 <= k < t[c].len(),
    ensures
        ({
            let r = p.instrs[c].src_regs[k];
            let s = p.bb1_start as int;
            let e = p.bb1_end as int;
            &&& t[c][k] matches Some(DepKind::Local(q)) ==> {
                &&& q < c
                &&& p.instrs[q as int].dest_reg == Some(r)
                &&& forall|j: int| q < j < c ==> (#[trigger] p.instrs[j]).dest_reg != Some(r)
                &&& (q < s <==> c < s)
                &&& (q < e <==> c < e)
            }
            &&& t[c][k] matches Some(DepKind::LoopInvariant(q)) ==> {
                &&& q < s <= c
                &&& p.instrs[q as int].dest_reg == Some(r)
                &&& forall|j: int| q < j < s ==> (#[trigger] p.instrs[j]).dest_reg != Some(r)
                &&& forall|j: int| s <= j < e ==> (#[trigger] p.instrs[j]).dest_reg != Some(r)
            }
        }),
{
    let r = p.instrs[c].src_regs[k];
    let s = p.bb1_start as int;
    let e = p.bb1_end as int;
    let ins = p.instrs;
    assert(t[c][k] == classify_spec(p, r, c));
    lemma_latest_in_range(ins, r, 0, c);
    lemma_latest_in_range(ins, r, s, c);
    lemma_latest_in_range(ins, r, e, c);
    lemma_latest_in_range(ins, r, 0, s);
    lemma_latest_is_last(ins, r, 0, c);
    lemma_latest_is_last(ins, r, s, c);
    lemma_latest_is_last(ins, r, e, c);
    lemma_latest_is_last(ins, r, 0, s);
    lemma_latest_is_last(ins, r, s, e);
    lemma_first_none(ins, r, c, e);
}

} // verus!
