//! As-soon-as-possible list scheduling of the loop program for the plain
//! `loop` instruction.
//!
//! Every block is scheduled in program order; each instruction goes to the
//! earliest bundle at or after the cycle its producers' results are ready
//! (local, loop-invariant and post-loop dependencies) that has a free unit
//! of its class, trying ALU0 before ALU1. The loop instruction closes the
//! last body bundle; the body is stretched one bundle at a time until every
//! interloop dependency `S(P) + λ(P) <= S(C) + II` holds. BB0 is padded so
//! that its results are ready when the loop starts.

use std::collections::HashMap;

use vstd::prelude::*;

use crate::scheduler::deps::{deps_of, deps_view};
use crate::scheduler::ir::{
    class_of, class_units, empty_bundle, runs_on, lemma_class_units_run_on, latency_of, unit_at, unit_index, Bundle, DepKind,
    DepTable, ExecUnit, InstId, Instr, InstrDeps, Instruction, Placement, Schedule, UnitClass, bundles_view,
};
use crate::scheduler::parser::{Prog, Program};

verus! {

broadcast use vstd::std_specs::hash::group_hash_axioms;

/// The instruction in a slot of a bundle sequence.
pub open spec fn slot_of(bs: Seq<Seq<Option<Instr>>>, b: int, u: ExecUnit) -> Option<Instr> {
    bs[b][unit_index(u)]
}

/// The slot is taken by an instruction that comes before `i` in the program.
pub open spec fn taken_before(bs: Seq<Seq<Option<Instr>>>, b: int, u: ExecUnit, i: int) -> bool {
    &&& 0 <= b < bs.len()
    &&& bs[b].len() == 5
    &&& slot_of(bs, b, u) is Some
    &&& slot_of(bs, b, u)->0.id < i
}

/// Every bundle has its five slots.
pub open spec fn shaped(bs: Seq<Seq<Option<Instr>>>) -> bool {
    forall|b: int| 0 <= b < bs.len() ==> (#[trigger] bs[b]).len() == 5
}

/// `i` sits at relative bundle `b` on unit `u`, a unit of its class, and
/// every slot of its class from bundle `m` up to that slot was taken by an
/// earlier instruction.
pub open spec fn asap_at(bs: Seq<Seq<Option<Instr>>>, i: int, cls: UnitClass, m: int, b: int, u: ExecUnit) -> bool {
    &&& m <= b
    &&& class_units(cls).contains(u)
    &&& forall|bb: int, k: int|
        m <= bb < b && 0 <= k < class_units(cls).len() ==> #[trigger] taken_before(
            bs,
            bb,
            class_units(cls)[k],
            i,
        )
    &&& (u == ExecUnit::Alu1 ==> taken_before(bs, b, ExecUnit::Alu0, i))
}

/// When the result of an operand's producer is available (0 without a
/// producer or for an interloop dependency).
pub open spec fn dep_ready(d: Option<DepKind>, pl: Map<usize, Placement>, prog: Prog) -> int {
    match d {
        Some(DepKind::Local(p)) => pl[p].bundle + latency_of(prog.instrs[p as int].opcode),
        Some(DepKind::LoopInvariant(p)) => pl[p].bundle + latency_of(prog.instrs[p as int].opcode),
        Some(DepKind::PostLoop(p)) => pl[p].bundle + latency_of(prog.instrs[p as int].opcode),
        _ => 0,
    }
}

/// The earliest absolute cycle an instruction may issue in a block that
/// starts at `start`.
pub open spec fn min_cycle(ds: Seq<Option<DepKind>>, pl: Map<usize, Placement>, prog: Prog, start: int) -> int
    decreases ds.len(),
{
    if ds.len() == 0 {
        start
    } else {
        let m = min_cycle(ds.drop_last(), pl, prog, start);
        let r = dep_ready(ds.last(), pl, prog);
        if r > m {
            r
        } else {
            m
        }
    }
}

/// Instruction `i` of a block starting at `start` was placed by the ASAP
/// rule and its slot holds `inst`.
pub open spec fn placed_asap(
    prog: Prog,
    deps: Seq<Seq<Option<DepKind>>>,
    pl: Map<usize, Placement>,
    bs: Seq<Seq<Option<Instr>>>,
    start: int,
    i: int,
    inst: Instr,
) -> bool {
    &&& pl.contains_key(i as usize)
    &&& start <= pl[i as usize].bundle
    &&& pl[i as usize].bundle - start < bs.len()
    &&& slot_of(bs, pl[i as usize].bundle - start, pl[i as usize].unit) == Some(inst)
    &&& asap_at(
        bs,
        i,
        class_of(prog.instrs[i].opcode),
        min_cycle(deps[i], pl, prog, start) - start,
        pl[i as usize].bundle - start,
        pl[i as usize].unit,
    )
}

/// The block holds only instructions with ids in `[lo, hi)`, each in the
/// slot its placement names.
pub open spec fn holds_only(bs: Seq<Seq<Option<Instr>>>, pl: Map<usize, Placement>, start: int, lo: int, hi: int) -> bool {
    forall|b: int, k: int|
        0 <= b < bs.len() && 0 <= k < 5 && (#[trigger] bs[b][k]) is Some ==> {
            let id = bs[b][k]->0.id;
            &&& lo <= id < hi
            &&& pl.contains_key(id)
            &&& pl[id] == Placement { bundle: (start + b) as usize, unit: unit_at(k) }
        }
}

/// One past the last bundle (relative to `start`) used by `[lo, hi)`.
pub open spec fn extent(pl: Map<usize, Placement>, start: int, lo: int, hi: int) -> int
    decreases hi - lo,
{
    if hi <= lo {
        0
    } else {
        let e = extent(pl, start, lo, hi - 1);
        let x = pl[(hi - 1) as usize].bundle - start + 1;
        if x > e {
            x
        } else {
            e
        }
    }
}

/// One past the last cycle (relative to `start`) in which a result of
/// `[lo, hi)` is still being computed.
pub open spec fn ready_extent(pl: Map<usize, Placement>, prog: Prog, start: int, lo: int, hi: int) -> int
    decreases hi - lo,
{
    if hi <= lo {
        0
    } else {
        let e = ready_extent(pl, prog, start, lo, hi - 1);
        let x = pl[(hi - 1) as usize].bundle - start + latency_of(prog.instrs[hi - 1].opcode);
        if x > e {
            x
        } else {
            e
        }
    }
}

/// Placements of `[lo, hi)` are within `4 i + 12`, which keeps bundle
/// arithmetic far from overflow.
pub open spec fn bounded(pl: Map<usize, Placement>, lo: int, hi: int) -> bool {
    bounded_by(pl, lo, hi, 0)
}

/// Placements of `[lo, hi)` are within `4 i + 12 + k`.
pub open spec fn bounded_by(pl: Map<usize, Placement>, lo: int, hi: int, k: int) -> bool {
    forall|i: usize| lo <= i < hi ==> #[trigger] pl[i].bundle <= 4 * i + 12 + k
}

// ---------------------------------------------------------------------

/// The earliest slot at or after `min_rel` with a free unit of the class;
/// the bundle list grows with empty bundles as needed.
#[verifier::loop_isolation(false)]
fn find_slot(bundles: &mut Vec<Bundle>, min_rel: usize, class: UnitClass) -> (r: (usize, ExecUnit))
    requires
        min_rel < usize::MAX,
    ensures
        min_rel <= r.0,
        r.0 <= min_rel || r.0 <= old(bundles)@.len(),
        final(bundles)@.len() == if old(bundles)@.len() > r.0 + 1 {
            old(bundles)@.len() as int
        } else {
            r.0 + 1
        },
        forall|b: int| 0 <= b < old(bundles)@.len() ==> #[trigger] bundles_view(final(bundles)@)[b] == bundles_view(old(bundles)@)[b],
        forall|b: int| old(bundles)@.len() <= b < final(bundles)@.len() ==> #[trigger] bundles_view(final(bundles)@)[b] == empty_bundle(),
        class_units(class).contains(r.1),
        bundles_view(final(bundles)@)[r.0 as int][unit_index(r.1)] is None,
        forall|bb: int, k: int|
            min_rel <= bb < r.0 && 0 <= k < class_units(class).len() ==> 0 <= bb < old(bundles)@.len()
                && #[trigger] bundles_view(old(bundles)@)[bb][unit_index(#[trigger] class_units(class)[k])] is Some,
        r.1 == ExecUnit::Alu1 ==> r.0 < old(bundles)@.len() && bundles_view(old(bundles)@)[r.0 as int][0] is Some,
{
    let ghost old_bs = bundles_view(bundles@);
    let units = class.units();
    let mut rel = min_rel;
    loop
        invariant
            min_rel <= rel,
            rel <= min_rel || rel <= old_bs.len(),
            units@ == class_units(class),
            old_bs == bundles_view(old(bundles)@),
            bundles_view(bundles@).len() >= old_bs.len(),
            forall|b: int| 0 <= b < old_bs.len() ==> #[trigger] bundles_view(bundles@)[b] == old_bs[b],
            forall|b: int|
                old_bs.len() <= b < bundles_view(bundles@).len() ==> #[trigger] bundles_view(bundles@)[b]
                    == empty_bundle(),
            bundles_view(bundles@).len() <= old_bs.len() || bundles_view(bundles@).len() <= rel + 1,
            forall|bb: int, k: int|
                min_rel <= bb < rel && 0 <= k < class_units(class).len() ==> 0 <= bb < old_bs.len()
                    && #[trigger] old_bs[bb][unit_index(#[trigger] class_units(class)[k])] is Some,
        decreases (if old_bs.len() > min_rel { old_bs.len() as int } else { min_rel as int }) + 1 - rel,
    {
        while bundles.len() <= rel
            invariant
                bundles_view(bundles@).len() >= old_bs.len(),
                forall|b: int| 0 <= b < old_bs.len() ==> #[trigger] bundles_view(bundles@)[b] == old_bs[b],
                forall|b: int|
                    old_bs.len() <= b < bundles_view(bundles@).len() ==> #[trigger] bundles_view(
                        bundles@,
                    )[b] == empty_bundle(),
                bundles_view(bundles@).len() <= old_bs.len() || bundles_view(bundles@).len() <= rel + 1,
            decreases rel + 1 - bundles@.len(),
        {
            let ghost prev = bundles_view(bundles@);
            bundles.push(Bundle::new());
            proof {
                assert(bundles_view(bundles@) =~= prev.push(empty_bundle()));
            }
        }
        let ghost bs = bundles_view(bundles@);
        let mut k: usize = 0;
        while k < units.len()
            invariant
                k <= units@.len(),
                units@ == class_units(class),
                rel < bundles@.len(),
                bs == bundles_view(bundles@),
                forall|j: int| 0 <= j < k ==> #[trigger] bs[rel as int][unit_index(units@[j])] is Some,
            decreases units@.len() - k,
        {
            proof {
                assert(bs[rel as int] == bundles@[rel as int]@);
            }
            if bundles[rel].is_free(units[k]) {
                proof {
                    if units@[k as int] == ExecUnit::Alu1 {
                        assert(k == 1);
                        assert(units@[0] == ExecUnit::Alu0);
                        assert(bs[rel as int][unit_index(units@[0])] is Some);
                        if rel >= old_bs.len() {
                            assert(bs[rel as int] == empty_bundle());
                        }
                    }
                    assert(class_units(class)[k as int] == units@[k as int]);
                }
                return (rel, units[k]);
            }
            k = k + 1;
        }
        proof {
            if rel >= old_bs.len() {
                assert(bs[rel as int] == empty_bundle());
                assert(bs[rel as int][unit_index(units@[0])] is Some);
                assert(false);
            }
            assert forall|bb: int, j: int|
                min_rel <= bb < rel + 1 && 0 <= j < class_units(class).len() implies 0 <= bb < old_bs.len()
                    && #[trigger] old_bs[bb][unit_index(#[trigger] class_units(class)[j])] is Some by {
                if bb == rel {
                    assert(bs[rel as int] == old_bs[rel as int]);
                }
            }
        }
        rel = rel + 1;
    }
}

} // verus!

verus! {

/// The producer whose result gates the issue of an operand's consumer.
pub open spec fn gating_producer(d: Option<DepKind>) -> Option<usize> {
    match d {
        Some(DepKind::Local(p)) => Some(p),
        Some(DepKind::LoopInvariant(p)) => Some(p),
        Some(DepKind::PostLoop(p)) => Some(p),
        _ => None,
    }
}

/// The gating producers of the operands are placed, come before `bound`,
/// and are placed within the overflow margin.
pub open spec fn gates_placed(ds: Seq<Option<DepKind>>, pl: Map<usize, Placement>, n: int, bound: int, off: int) -> bool {
    forall|k: int|
        0 <= k < ds.len() ==> (#[trigger] gating_producer(ds[k]) matches Some(p) ==> {
            &&& p < bound
            &&& p < n
            &&& pl.contains_key(p)
            &&& pl[p].bundle <= 4 * p + 12 + off
        })
}

proof fn lemma_min_cycle_frame(
    ds: Seq<Option<DepKind>>,
    p1: Map<usize, Placement>,
    p2: Map<usize, Placement>,
    prog: Prog,
    start: int,
)
    requires
        forall|k: int|
            0 <= k < ds.len() ==> (#[trigger] gating_producer(ds[k]) matches Some(p) ==> p1[p]
                == p2[p]),
    ensures
        min_cycle(ds, p1, prog, start) == min_cycle(ds, p2, prog, start),
    decreases ds.len(),
{
    if ds.len() > 0 {
        let d = ds.drop_last();
        assert forall|k: int| 0 <= k < d.len() implies (#[trigger] gating_producer(d[k]) matches Some(
            p,
        ) ==> p1[p] == p2[p]) by {
            assert(d[k] == ds[k]);
        }
        lemma_min_cycle_frame(d, p1, p2, prog, start);
        assert(gating_producer(ds[ds.len() - 1]) == gating_producer(ds.last()));
    }
}

proof fn lemma_min_cycle_bound(ds: Seq<Option<DepKind>>, pl: Map<usize, Placement>, prog: Prog, start: int, n: int, bound: int, off: int)
    requires
        gates_placed(ds, pl, n, bound, off),
        bound >= 0,
        off >= 0,
    ensures
        start <= min_cycle(ds, pl, prog, start),
        min_cycle(ds, pl, prog, start) <= if start > 4 * bound + 11 + off { start } else { 4 * bound + 11 + off },
    decreases ds.len(),
{
    if ds.len() > 0 {
        let d = ds.drop_last();
        assert forall|k: int| 0 <= k < d.len() implies (#[trigger] gating_producer(d[k]) matches Some(
            p,
        ) ==> {
            &&& p < bound
            &&& p < n
            &&& pl.contains_key(p)
            &&& pl[p].bundle <= 4 * p + 12 + off
        }) by {
            assert(d[k] == ds[k]);
        }
        lemma_min_cycle_bound(d, pl, prog, start, n, bound, off);
        assert(gating_producer(ds[ds.len() - 1]) == gating_producer(ds.last()));
        if let Some(p) = gating_producer(ds.last()) {
            assert(pl[p].bundle <= 4 * p + 12 + off);
            assert(p <= bound - 1);
            assert(latency_of(prog.instrs[p as int].opcode) <= 3);
            assert(dep_ready(ds.last(), pl, prog) <= 4 * bound + 11 + off);
        }
    }
}

proof fn lemma_extent_frame(p1: Map<usize, Placement>, p2: Map<usize, Placement>, start: int, lo: int, hi: int)
    requires
        forall|i: int| lo <= i < hi ==> #[trigger] p1[i as usize] == p2[i as usize],
    ensures
        extent(p1, start, lo, hi) == extent(p2, start, lo, hi),
    decreases hi - lo,
{
    if hi > lo {
        lemma_extent_frame(p1, p2, start, lo, hi - 1);
    }
}

pub(crate) proof fn lemma_ready_extent_frame(p1: Map<usize, Placement>, p2: Map<usize, Placement>, prog: Prog, start: int, lo: int, hi: int)
    requires
        forall|i: int| lo <= i < hi ==> #[trigger] p1[i as usize] == p2[i as usize],
    ensures
        ready_extent(p1, prog, start, lo, hi) == ready_extent(p2, prog, start, lo, hi),
    decreases hi - lo,
{
    if hi > lo {
        lemma_ready_extent_frame(p1, p2, prog, start, lo, hi - 1);
    }
}

proof fn lemma_extent_bound(pl: Map<usize, Placement>, start: int, lo: int, hi: int, off: int)
    requires
        lo <= hi,
        forall|i: int| lo <= i < hi ==> #[trigger] pl[i as usize].bundle <= 4 * i + 12 + off,
    ensures
        extent(pl, start, lo, hi) <= if 4 * hi + 9 + off - start > 0 { 4 * hi + 9 + off - start } else { 0 },
        extent(pl, start, lo, hi) >= 0,
    decreases hi - lo,
{
    if hi > lo {
        lemma_extent_bound(pl, start, lo, hi - 1, off);
        assert(pl[(hi - 1) as usize].bundle <= 4 * (hi - 1) + 12 + off);
    }
}

fn compute_min_cycle(
    inst_deps: &InstrDeps,
    placement: &HashMap<InstId, Placement>,
    program: &Program,
    bb_start: usize,
    Ghost(off): Ghost<int>,
) -> (m: usize)
    requires
        0 <= off <= usize::MAX / 2,
        gates_placed(inst_deps.src_deps@, placement@, program.instrs@.len() as int, (usize::MAX / 16) as int, off),
        program.instrs@.len() <= usize::MAX / 16,
        bb_start <= 4 * (usize::MAX / 16) + 11 + off,
    ensures
        m == min_cycle(inst_deps.src_deps@, placement@, program@, bb_start as int),
{
    let ghost ds = inst_deps.src_deps@;
    let mut min_cycle_v = bb_start;
    let mut k: usize = 0;
    while k < inst_deps.src_deps.len()
        invariant
            k <= ds.len(),
            ds == inst_deps.src_deps@,
            0 <= off <= usize::MAX / 2,
            gates_placed(ds, placement@, program.instrs@.len() as int, (usize::MAX / 16) as int, off),
            program.instrs@.len() <= usize::MAX / 16,
            bb_start <= 4 * (usize::MAX / 16) + 11 + off,
            min_cycle_v <= 4 * (usize::MAX / 16) + 15 + off,
            min_cycle_v == min_cycle(ds.take(k as int), placement@, program@, bb_start as int),
        decreases ds.len() - k,
    {
        proof {
            assert(ds.take(k + 1).drop_last() =~= ds.take(k as int));
            assert(ds.take(k + 1).last() == ds[k as int]);
            assert(gating_producer(ds[k as int]) == gating_producer(ds[k as int]));
        }
        match inst_deps.src_deps[k] {
            Some(DepKind::Local(p)) | Some(DepKind::LoopInvariant(p)) | Some(DepKind::PostLoop(p)) => {
                let pl = match placement.get(&p) {
                    Some(v) => *v,
                    None => Placement { bundle: 0, unit: ExecUnit::Alu0 },
                };
                let lat = program.instrs[p].latency();
                proof {
                    assert(program@.instrs[p as int] == program.instrs@[p as int]@);
                }
                if pl.bundle + lat > min_cycle_v {
                    min_cycle_v = pl.bundle + lat;
                }
            },
            _ => {},
        }
        k = k + 1;
    }
    proof {
        assert(ds.take(ds.len() as int) =~= ds);
    }
    min_cycle_v
}

} // verus!

verus! {

/// Instructions `[lo, hi)` of a block starting at bundle `start` are
/// scheduled ASAP into `bs`, which holds nothing else and ends after the
/// last of them.
pub open spec fn block_done(
    prog: Prog,
    deps: Seq<Seq<Option<DepKind>>>,
    pl: Map<usize, Placement>,
    bs: Seq<Seq<Option<Instr>>>,
    start: int,
    lo: int,
    hi: int,
) -> bool {
    &&& shaped(bs)
    &&& forall|i: int| lo <= i < hi ==> #[trigger] placed_asap(prog, deps, pl, bs, start, i, prog.instrs[i])
    &&& holds_only(bs, pl, start, lo, hi)
    &&& bs.len() == extent(pl, start, lo, hi)
}

/// The operands of `[lo, hi)` are gated only by earlier instructions.
pub open spec fn gates_earlier(deps: Seq<Seq<Option<DepKind>>>, lo: int, hi: int) -> bool {
    forall|c: int, k: int|
        lo <= c < hi && 0 <= k < deps[c].len() ==> (#[trigger] gating_producer(deps[c][k]) matches Some(
            p,
        ) ==> p < c)
}

pub proof fn lemma_gates_earlier(p: Prog, t: Seq<Seq<Option<DepKind>>>)
    requires
        p.wf(),
        crate::scheduler::deps::deps_of(p, t),
    ensures
        gates_earlier(t, 0, t.len() as int),
{
    crate::scheduler::deps::lemma_deps_in_place(p, t);
    assert forall|c: int, k: int|
        0 <= c < t.len() && 0 <= k < t[c].len() implies (#[trigger] gating_producer(t[c][k]) matches Some(
        q,
    ) ==> q < c) by {
        assert(crate::scheduler::deps::dep_in_place(p, c, t[c][k]));
    }
}

/// Keys of the placement map are exactly the ids below `n`.
pub open spec fn placed_below(pl: Map<usize, Placement>, n: int) -> bool {
    forall|i: usize| #[trigger] pl.contains_key(i) <==> i < n
}

proof fn lemma_asap_grow(
    bs: Seq<Seq<Option<Instr>>>,
    bs2: Seq<Seq<Option<Instr>>>,
    i: int,
    cls: UnitClass,
    m: int,
    b: int,
    u: ExecUnit,
)
    requires
        asap_at(bs, i, cls, m, b, u),
        bs.len() <= bs2.len(),
        forall|bb: int, k: int|
            0 <= bb < bs.len() && 0 <= k < 5 && (#[trigger] bs[bb][k]) is Some && bs[bb][k]->0.id < i
                ==> bs2[bb][k] == bs[bb][k],
        forall|bb: int| 0 <= bb < bs.len() ==> (#[trigger] bs2[bb]).len() == bs[bb].len(),
        shaped(bs),
    ensures
        asap_at(bs2, i, cls, m, b, u),
{
    assert forall|bb: int, k: int|
        m <= bb < b && 0 <= k < class_units(cls).len() implies #[trigger] taken_before(
        bs2,
        bb,
        class_units(cls)[k],
        i,
    ) by {
        assert(taken_before(bs, bb, class_units(cls)[k], i));
        assert(bs[bb].len() == 5);
        let j = unit_index(class_units(cls)[k]);
        assert(bs[bb][j] is Some);
    }
    if u == ExecUnit::Alu1 {
        assert(taken_before(bs, b, ExecUnit::Alu0, i));
        assert(bs[b].len() == 5);
        assert(bs[b][0] is Some);
    }
}

#[verifier::spinoff_prover]
pub(crate) fn schedule_straight(
    program: &Program,
    dep_table: &DepTable,
    range: std::ops::Range<usize>,
    bb_start: usize,
    placement: &mut HashMap<InstId, Placement>,
    Ghost(off): Ghost<int>,
) -> (bundles: Vec<Bundle>)
    requires
        0 <= off <= usize::MAX / 2,
        program@.wf(),
        program.instrs@.len() <= usize::MAX / 16,
        deps_view(dep_table@).len() == program.instrs@.len(),
        gates_earlier(deps_view(dep_table@), 0, program.instrs@.len() as int),
        range.start <= range.end <= program.instrs@.len(),
        placed_below(old(placement)@, range.start as int),
        bounded_by(old(placement)@, 0, range.start as int, off),
        bb_start <= 4 * range.start + 11 + off,
        forall|c: int, k: int|
            range.start <= c < range.end && 0 <= k < deps_view(dep_table@)[c].len() ==> (
            #[trigger] gating_producer(deps_view(dep_table@)[c][k]) matches Some(p) ==> p < range.start
                || p >= range.start),
    ensures
        placed_below(final(placement)@, range.end as int),
        bounded_by(final(placement)@, 0, range.end as int, off),
        forall|i: usize| i < range.start ==> #[trigger] final(placement)@[i] == old(placement)@[i],
        block_done(
            program@,
            deps_view(dep_table@),
            final(placement)@,
            bundles_view(bundles@),
            bb_start as int,
            range.start as int,
            range.end as int,
        ),
{
    let ghost prog = program@;
    let ghost deps = deps_view(dep_table@);
    let ghost p0 = placement@;
    let lo = range.start;
    let hi = range.end;
    let mut bundles: Vec<Bundle> = Vec::new();
    let mut idx = lo;
    proof {
        assert(bundles_view(bundles@) =~= Seq::<Seq<Option<Instr>>>::empty());
    }
    while idx < hi
        invariant
            lo <= idx <= hi <= program.instrs@.len(),
            prog == program@,
            deps == deps_view(dep_table@),
            program@.wf(),
            program.instrs@.len() <= usize::MAX / 16,
            deps.len() == program.instrs@.len(),
            gates_earlier(deps, 0, program.instrs@.len() as int),
            0 <= off <= usize::MAX / 2,
            bb_start <= 4 * lo + 11 + off,
            placed_below(placement@, idx as int),
            bounded_by(placement@, 0, idx as int, off),
            forall|i: usize| i < lo ==> #[trigger] placement@[i] == p0[i],
            block_done(prog, deps, placement@, bundles_view(bundles@), bb_start as int, lo as int, idx as int),
        decreases hi - idx,
    {
        let ghost pl = placement@;
        let ghost bs = bundles_view(bundles@);
        let instr = &program.instrs[idx];
        proof {
            assert(prog.instrs[idx as int] == instr@);
            assert(deps[idx as int] == dep_table@[idx as int].src_deps@);
            assert(gates_placed(dep_table@[idx as int].src_deps@, pl, program.instrs@.len() as int, (usize::MAX / 16) as int, off)) by {
                assert forall|k: int| 0 <= k < deps[idx as int].len() implies (#[trigger] gating_producer(deps[idx as int][k]) matches Some(p) ==> {
                    &&& p < (usize::MAX / 16) as int
                    &&& p < program.instrs@.len()
                    &&& pl.contains_key(p)
                    &&& pl[p].bundle <= 4 * p + 12 + off
                }) by {
                    if let Some(p) = gating_producer(deps[idx as int][k]) {
                        assert(p < idx);
                        assert(pl.contains_key(p));
                        assert(pl[p].bundle <= 4 * p + 12 + off);
                    }
                }
            }
            lemma_min_cycle_bound(deps[idx as int], pl, prog, bb_start as int, program.instrs@.len() as int, idx as int, off);
            lemma_extent_bound(pl, bb_start as int, lo as int, idx as int, off);
        }
        let min_abs = compute_min_cycle(&dep_table[idx], placement, program, bb_start, Ghost(off));
        let min_rel = min_abs - bb_start;
        let (rel, unit) = find_slot(&mut bundles, min_rel, instr.unit_class());
        let ghost bs1 = bundles_view(bundles@);
        let c = instr.clone();
        bundles[rel].set(unit, c);
        let new_p = Placement { bundle: bb_start + rel, unit };
        placement.insert(idx, new_p);
        proof {
            let pl2 = placement@;
            let bs2 = bundles_view(bundles@);
            let u = unit_index(unit);
            assert(pl2 == pl.insert(idx, new_p));
            assert(bs2 == bs1.update(rel as int, bs1[rel as int].update(u, Some(instr@))));
            // placements of earlier ids are unchanged
            assert forall|i: int| lo <= i < idx implies #[trigger] pl2[i as usize] == pl[i as usize] by {}
            lemma_extent_frame(pl, pl2, bb_start as int, lo as int, idx as int);
            // slots that were taken stay taken
            assert forall|bb: int, k: int|
                0 <= bb < bs.len() && 0 <= k < 5 && (#[trigger] bs[bb][k]) is Some implies bs2[bb][k] == bs[bb][k] by {
                if bb == rel {
                    assert(k != u);
                }
            }
            assert forall|bb: int| 0 <= bb < bs.len() implies (#[trigger] bs2[bb]).len() == bs[bb].len() by {}
            assert(shaped(bs2)) by {
                assert forall|bb: int| 0 <= bb < bs2.len() implies (#[trigger] bs2[bb]).len() == 5 by {
                    if bb < bs.len() {
                        assert(bs1[bb] == bs[bb]);
                    } else {
                        assert(bs1[bb] == empty_bundle());
                    }
                }
            }
            // earlier instructions keep their ASAP placement
            assert forall|i: int| lo <= i < idx implies #[trigger] placed_asap(prog, deps, pl2, bs2, bb_start as int, i, prog.instrs[i]) by {
                assert(placed_asap(prog, deps, pl, bs, bb_start as int, i, prog.instrs[i]));
                assert forall|k: int| 0 <= k < deps[i].len() implies (#[trigger] gating_producer(deps[i][k]) matches Some(p) ==> pl[p] == pl2[p]) by {
                    if let Some(p) = gating_producer(deps[i][k]) {
                        assert(p < i);
                    }
                }
                lemma_min_cycle_frame(deps[i], pl, pl2, prog, bb_start as int);
                let b = pl[i as usize].bundle - bb_start;
                assert(bs[b][unit_index(pl[i as usize].unit)] is Some);
                lemma_asap_grow(bs, bs2, i, class_of(prog.instrs[i].opcode), min_cycle(deps[i], pl, prog, bb_start as int) - bb_start, b, pl[i as usize].unit);
            }
            // the new instruction
            assert forall|k: int| 0 <= k < deps[idx as int].len() implies (#[trigger] gating_producer(deps[idx as int][k]) matches Some(p) ==> pl[p] == pl2[p]) by {
                if let Some(p) = gating_producer(deps[idx as int][k]) {
                    assert(p < idx);
                }
            }
            lemma_min_cycle_frame(deps[idx as int], pl, pl2, prog, bb_start as int);
            let cls = class_of(prog.instrs[idx as int].opcode);
            assert forall|bb: int, k: int|
                min_rel <= bb < rel && 0 <= k < class_units(cls).len() implies #[trigger] taken_before(
                    bs2, bb, class_units(cls)[k], idx as int) by {
                let j = unit_index(class_units(cls)[k]);
                assert(bs[bb][j] is Some);
                assert(0 <= j < 5);
                assert(bs2[bb][j] == bs[bb][j]);
            }
            if unit == ExecUnit::Alu1 {
                assert(bs[rel as int][0] is Some);
                assert(bs2[rel as int][0] == bs[rel as int][0]);
            }
            assert(asap_at(bs2, idx as int, cls, min_abs - bb_start, rel as int, unit));
            assert(placed_asap(prog, deps, pl2, bs2, bb_start as int, idx as int, prog.instrs[idx as int]));
            // nothing else is in the block
            assert(holds_only(bs2, pl2, bb_start as int, lo as int, idx + 1)) by {
                assert forall|bb: int, k: int|
                    0 <= bb < bs2.len() && 0 <= k < 5 && (#[trigger] bs2[bb][k]) is Some implies ({
                        let id = bs2[bb][k]->0.id;
                        &&& lo <= id < idx + 1
                        &&& pl2.contains_key(id)
                        &&& pl2[id] == Placement { bundle: (bb_start + bb) as usize, unit: unit_at(k) }
                    }) by {
                    if bb == rel && k == u {
                        assert(bs2[bb][k] == Some(instr@));
                        assert(prog.instrs[idx as int].id == idx);
                    } else {
                        if bb < bs.len() {
                            assert(bs2[bb][k] == bs1[bb][k]);
                            assert(bs1[bb] == bs[bb]);
                        } else {
                            assert(bs1[bb] == empty_bundle());
                            assert(false);
                        }
                    }
                }
            }
            assert(bs2.len() == extent(pl2, bb_start as int, lo as int, idx + 1));
            assert(bounded_by(pl2, 0, idx + 1, off));
            assert forall|i: usize| i < lo implies #[trigger] pl2[i] == p0[i] by {}
            assert(placed_below(pl2, idx + 1));
        }
        idx = idx + 1;
    }
    bundles
}

} // verus!

verus! {

/// Every interloop dependency of the loop body `[bb1_start, li)` satisfies
/// `S(P) + λ(P) <= S(C) + II`.
pub open spec fn interloop_ok(prog: Prog, deps: Seq<Seq<Option<DepKind>>>, pl: Map<usize, Placement>, ii: int) -> bool {
    forall|c: int, k: int|
        prog.bb1_start <= c < prog.bb1_end - 1 && 0 <= k < deps[c].len() ==> (#[trigger] deps[c][k] matches Some(DepKind::Interloop {
            bb1,
            ..
        }) ==> pl[bb1].bundle + latency_of(prog.instrs[bb1 as int].opcode) <= pl[c as usize].bundle + ii)
}

/// The loop instruction as it is emitted: its target is the first body
/// bundle.
pub open spec fn loop_instr(prog: Prog, start: int) -> Instr {
    Instr { label: Some(start as usize), ..prog.instrs[prog.bb1_end - 1] }
}

/// Result of scheduling the loop body starting at bundle `start`.
pub open spec fn body_done(
    prog: Prog,
    deps: Seq<Seq<Option<DepKind>>>,
    pl: Map<usize, Placement>,
    bs: Seq<Seq<Option<Instr>>>,
    start: int,
) -> bool {
    let li = prog.bb1_end - 1;
    let l0 = if extent(pl, start, prog.bb1_start as int, li) > 1 { extent(pl, start, prog.bb1_start as int, li) } else { 1 };
    &&& shaped(bs)
    &&& forall|i: int| prog.bb1_start <= i < li ==> #[trigger] placed_asap(prog, deps, pl, bs, start, i, prog.instrs[i])
    &&& holds_only(bs, pl, start, prog.bb1_start as int, prog.bb1_end as int)
    &&& bs.len() >= l0
    &&& pl.contains_key(li as usize)
    &&& pl[li as usize] == Placement { bundle: (start + bs.len() - 1) as usize, unit: ExecUnit::Branch }
    &&& bs[bs.len() - 1][4] == Some(loop_instr(prog, start))
    &&& interloop_ok(prog, deps, pl, bs.len() as int)
    &&& bs.len() > l0 ==> !interloop_ok(prog, deps, pl, bs.len() - 1)
}

} // verus!

verus! {

#[verifier::spinoff_prover]
fn interloop_violated(
    program: &Program,
    dep_table: &DepTable,
    placement: &HashMap<InstId, Placement>,
    loop_idx: InstId,
    ii: usize,
) -> (v: bool)
    requires
        program@.wf(),
        program.loop_kind is Some,
        loop_idx == program.bb1_end - 1,
        program.instrs@.len() <= usize::MAX / 16,
        deps_view(dep_table@).len() == program.instrs@.len(),
        forall|c: int, k: int|
            0 <= c < deps_view(dep_table@).len() && 0 <= k < deps_view(dep_table@)[c].len()
                ==> crate::scheduler::deps::dep_in_place(program@, c, #[trigger] deps_view(dep_table@)[c][k]),
        placed_below(placement@, program.bb1_end as int),
        bounded(placement@, 0, program.bb1_end as int),
        ii <= usize::MAX / 2,
    ensures
        v == !interloop_ok(program@, deps_view(dep_table@), placement@, ii as int),
{
    let ghost prog = program@;
    let ghost deps = deps_view(dep_table@);
    let ghost pl = placement@;
    let mut idx = program.bb1_start;
    while idx < loop_idx
        invariant
            program.bb1_start <= idx <= loop_idx,
            prog == program@,
            deps == deps_view(dep_table@),
            pl == placement@,
            program@.wf(),
            loop_idx == program.bb1_end - 1,
            program.instrs@.len() <= usize::MAX / 16,
            deps.len() == program.instrs@.len(),
            forall|c: int, k: int|
                0 <= c < deps.len() && 0 <= k < deps[c].len() ==> crate::scheduler::deps::dep_in_place(prog, c, #[trigger] deps[c][k]),
            placed_below(pl, program.bb1_end as int),
            bounded(pl, 0, program.bb1_end as int),
            ii <= usize::MAX / 2,
            forall|c: int, k: int|
                prog.bb1_start <= c < idx && 0 <= k < deps[c].len() ==> (#[trigger] deps[c][k] matches Some(DepKind::Interloop {
                    bb1,
                    ..
                }) ==> pl[bb1].bundle + latency_of(prog.instrs[bb1 as int].opcode) <= pl[c as usize].bundle + ii),
        decreases loop_idx - idx,
    {
        let ds = &dep_table[idx].src_deps;
        proof {
            assert(deps[idx as int] == ds@);
        }
        let mut k: usize = 0;
        while k < ds.len()
            invariant
                k <= ds@.len(),
                deps == deps_view(dep_table@),
                deps[idx as int] == ds@,
                program.bb1_start <= idx < loop_idx,
                prog == program@,
                pl == placement@,
                program@.wf(),
                loop_idx == program.bb1_end - 1,
                program.instrs@.len() <= usize::MAX / 16,
                deps.len() == program.instrs@.len(),
                forall|c: int, k: int|
                    0 <= c < deps.len() && 0 <= k < deps[c].len() ==> crate::scheduler::deps::dep_in_place(prog, c, #[trigger] deps[c][k]),
                placed_below(pl, program.bb1_end as int),
                bounded(pl, 0, program.bb1_end as int),
                ii <= usize::MAX / 2,
                forall|j: int|
                    0 <= j < k ==> (#[trigger] deps[idx as int][j] matches Some(DepKind::Interloop {
                        bb1,
                        ..
                    }) ==> pl[bb1].bundle + latency_of(prog.instrs[bb1 as int].opcode) <= pl[idx as usize].bundle + ii),
            decreases ds@.len() - k,
        {
            if let Some(DepKind::Interloop { bb1, .. }) = ds[k] {
                proof {
                    assert(crate::scheduler::deps::dep_in_place(prog, idx as int, deps[idx as int][k as int]));
                    assert(pl[bb1].bundle <= 4 * bb1 + 12);
                    assert(pl[idx].bundle <= 4 * idx + 12);
                    assert(prog.instrs[bb1 as int] == program.instrs@[bb1 as int]@);
                }
                let p_cycle = match placement.get(&bb1) {
                    Some(p) => p.bundle,
                    None => 0,
                };
                let p_lat = program.instrs[bb1].latency();
                let c_cycle = match placement.get(&idx) {
                    Some(p) => p.bundle,
                    None => 0,
                };
                if p_cycle + p_lat > c_cycle + ii {
                    proof {
                        let d = deps[idx as int][k as int];
                        assert(d == Some(DepKind::Interloop { bb0: d->0->Interloop_bb0, bb1 }));
                        assert(!(pl[bb1].bundle + latency_of(prog.instrs[bb1 as int].opcode) <= pl[idx as usize].bundle + ii));
                        let c = idx as int;
                        assert(pl[c as usize] == pl[idx]);
                        assert(!(deps[c][k as int] matches Some(DepKind::Interloop { bb1, .. }) ==> pl[bb1].bundle
                            + latency_of(prog.instrs[bb1 as int].opcode) <= pl[c as usize].bundle + ii));
                    }
                    return true;
                }
            }
            k = k + 1;
        }
        idx = idx + 1;
    }
    false
}

/// Moves the loop instruction into a new bundle appended to the body.
fn push_loop_down(
    bundles: &mut Vec<Bundle>,
    placement: &mut HashMap<InstId, Placement>,
    loop_idx: InstId,
    bb_start: usize,
    loop_template: &Instruction,
)
    requires
        old(placement)@.contains_key(loop_idx),
        bb_start <= old(placement)@[loop_idx].bundle < bb_start + old(bundles)@.len(),
        bb_start + old(bundles)@.len() < usize::MAX,
    ensures
        ({
            let pl = old(placement)@[loop_idx];
            let old_bs = bundles_view(old(bundles)@);
            let rel = pl.bundle - bb_start;
            &&& bundles_view(final(bundles)@) == old_bs.update(rel, old_bs[rel].update(unit_index(pl.unit), None)).push(
                empty_bundle().update(4, Some(Instr { label: Some(bb_start), ..loop_template@ })),
            )
            &&& final(placement)@ == old(placement)@.insert(
                loop_idx,
                Placement { bundle: (bb_start + old_bs.len()) as usize, unit: ExecUnit::Branch },
            )
        }),
{
    let ghost old_bs = bundles_view(bundles@);
    let pl = match placement.get(&loop_idx) {
        Some(p) => *p,
        None => Placement { bundle: bb_start, unit: ExecUnit::Branch },
    };
    let old_rel = pl.bundle - bb_start;
    bundles[old_rel].clear(pl.unit);
    let ghost cleared = bundles_view(bundles@);
    proof {
        assert(cleared =~= old_bs.update(old_rel as int, old_bs[old_rel as int].update(unit_index(pl.unit), None)));
    }
    let mut b = Bundle::new();
    let mut copy = loop_template.clone();
    copy.label = Some(bb_start);
    b.set(ExecUnit::Branch, copy);
    bundles.push(b);
    let new_rel = bundles.len() - 1;
    placement.insert(loop_idx, Placement { bundle: bb_start + new_rel, unit: ExecUnit::Branch });
    proof {
        assert(bundles_view(bundles@) =~= cleared.push(
            empty_bundle().update(4, Some(Instr { label: Some(bb_start), ..loop_template@ })),
        ));
    }
}

} // verus!

verus! {

proof fn lemma_interloop_frame(
    prog: Prog,
    deps: Seq<Seq<Option<DepKind>>>,
    p1: Map<usize, Placement>,
    p2: Map<usize, Placement>,
    ii: int,
)
    requires
        prog.wf(),
        prog.loop_kind is Some,
        deps.len() == prog.instrs.len(),
        forall|c: int, k: int|
            0 <= c < deps.len() && 0 <= k < deps[c].len() ==> crate::scheduler::deps::dep_in_place(prog, c, #[trigger] deps[c][k]),
        forall|c: int, k: int|
            0 <= c < deps.len() && 0 <= k < deps[c].len() ==> (#[trigger] deps[c][k] matches Some(
                DepKind::Interloop { bb1, .. },
            ) ==> prog.instrs[bb1 as int].dest_reg is Some),
        forall|i: usize| prog.bb1_start <= i < prog.bb1_end - 1 ==> #[trigger] p1[i] == p2[i],
    ensures
        interloop_ok(prog, deps, p1, ii) == interloop_ok(prog, deps, p2, ii),
{
    assert forall|c: int, k: int|
        prog.bb1_start <= c < prog.bb1_end - 1 && 0 <= k < deps[c].len() implies ((#[trigger] deps[c][k] matches Some(
            DepKind::Interloop { bb1, .. },
        ) ==> p1[bb1] == p2[bb1]) && p1[c as usize] == p2[c as usize]) by {
        if let Some(DepKind::Interloop { bb1, .. }) = deps[c][k] {
            assert(crate::scheduler::deps::dep_in_place(prog, c, deps[c][k]));
            assert(prog.instrs[bb1 as int].dest_reg is Some);
            assert(bb1 != prog.bb1_end - 1);
        }
    }
}

/// Interloop producers write a register (so the loop instruction is none).
pub open spec fn interloop_producers_write(prog: Prog, deps: Seq<Seq<Option<DepKind>>>) -> bool {
    forall|c: int, k: int|
        0 <= c < deps.len() && 0 <= k < deps[c].len() ==> (#[trigger] deps[c][k] matches Some(
            DepKind::Interloop { bb1, .. },
        ) ==> prog.instrs[bb1 as int].dest_reg is Some)
}

pub proof fn lemma_interloop_producers_write(p: Prog, t: Seq<Seq<Option<DepKind>>>)
    requires
        p.wf(),
        crate::scheduler::deps::deps_of(p, t),
    ensures
        interloop_producers_write(p, t),
{
    assert forall|c: int, k: int|
        0 <= c < t.len() && 0 <= k < t[c].len() implies (#[trigger] t[c][k] matches Some(
            DepKind::Interloop { bb1, .. },
        ) ==> p.instrs[bb1 as int].dest_reg is Some) by {
        let r = p.instrs[c].src_regs[k];
        crate::scheduler::deps::lemma_first_in_range(p.instrs, r, c, p.bb1_end as int);
    }
}

#[verifier::spinoff_prover]
fn schedule_bb1(
    program: &Program,
    dep_table: &DepTable,
    bb_start: usize,
    placement: &mut HashMap<InstId, Placement>,
) -> (bundles: Vec<Bundle>)
    requires
        program@.wf(),
        program.loop_kind is Some,
        program.instrs@.len() <= usize::MAX / 16,
        deps_view(dep_table@).len() == program.instrs@.len(),
        gates_earlier(deps_view(dep_table@), 0, program.instrs@.len() as int),
        forall|c: int, k: int|
            0 <= c < deps_view(dep_table@).len() && 0 <= k < deps_view(dep_table@)[c].len()
                ==> crate::scheduler::deps::dep_in_place(program@, c, #[trigger] deps_view(dep_table@)[c][k]),
        interloop_producers_write(program@, deps_view(dep_table@)),
        placed_below(old(placement)@, program.bb1_start as int),
        bounded(old(placement)@, 0, program.bb1_start as int),
        bb_start <= 4 * program.bb1_start + 11,
    ensures
        placed_below(final(placement)@, program.bb1_end as int),
        bounded(final(placement)@, 0, program.bb1_end as int),
        forall|i: usize| i < program.bb1_start ==> #[trigger] final(placement)@[i] == old(placement)@[i],
        body_done(program@, deps_view(dep_table@), final(placement)@, bundles_view(bundles@), bb_start as int),
        bb_start + bundles@.len() <= 4 * program.bb1_end + 9,
{
    let ghost prog = program@;
    let ghost deps = deps_view(dep_table@);
    let ghost p0 = placement@;
    let loop_idx = program.bb1_end - 1;
    let mut bundles = schedule_straight(program, dep_table, program.bb1_start..loop_idx, bb_start, placement, Ghost(0int));
    let ghost pb = placement@;
    let ghost bs0 = bundles_view(bundles@);
    let ghost l0: int = if bs0.len() > 1 { bs0.len() as int } else { 1 };
    proof {
        lemma_extent_bound(pb, bb_start as int, prog.bb1_start as int, loop_idx as int, 0);
    }
    let last_rel = if bundles.len() == 0 {
        0
    } else {
        bundles.len() - 1
    };
    let (rel, unit) = find_slot(&mut bundles, last_rel, UnitClass::Branch);
    proof {
        assert(class_units(UnitClass::Branch)[0] == ExecUnit::Branch);
        assert(unit == ExecUnit::Branch);
        if rel > last_rel {
            assert(bs0[last_rel as int][unit_index(class_units(UnitClass::Branch)[0])] is Some);
            let id = bs0[last_rel as int][4]->0.id;
            assert(prog.bb1_start <= id < loop_idx);
            assert(pb[id].unit == ExecUnit::Branch);
            assert(placed_asap(prog, deps, pb, bs0, bb_start as int, id as int, prog.instrs[id as int]));
            assert(class_units(class_of(prog.instrs[id as int].opcode)).contains(ExecUnit::Branch));
            assert(!crate::scheduler::parser::is_loop_op(prog.instrs[id as int].opcode));
            assert(false);
        }
        assert(rel == last_rel);
    }
    let mut loop_copy = program.instrs[loop_idx].clone();
    loop_copy.label = Some(bb_start);
    let ghost bs1 = bundles_view(bundles@);
    bundles[rel].set(ExecUnit::Branch, loop_copy);
    placement.insert(loop_idx, Placement { bundle: bb_start + rel, unit: ExecUnit::Branch });
    proof {
        let pl2 = placement@;
        let bs2 = bundles_view(bundles@);
        assert(prog.instrs[loop_idx as int] == program.instrs@[loop_idx as int]@);
        assert(bs2 == bs1.update(rel as int, bs1[rel as int].update(4, Some(loop_instr(prog, bb_start as int)))));
        assert(bs2.len() == l0);
        assert forall|i: int| prog.bb1_start <= i < loop_idx implies #[trigger] pl2[i as usize] == pb[i as usize] by {}
        lemma_extent_frame(pb, pl2, bb_start as int, prog.bb1_start as int, loop_idx as int);
        assert(shaped(bs2)) by {
            assert forall|bb: int| 0 <= bb < bs2.len() implies (#[trigger] bs2[bb]).len() == 5 by {
                if bb < bs0.len() {
                    assert(bs1[bb] == bs0[bb]);
                } else {
                    assert(bs1[bb] == empty_bundle());
                }
            }
        }
        assert forall|i: int| prog.bb1_start <= i < loop_idx implies #[trigger] placed_asap(prog, deps, pl2, bs2, bb_start as int, i, prog.instrs[i]) by {
            assert(placed_asap(prog, deps, pb, bs0, bb_start as int, i, prog.instrs[i]));
            assert forall|k: int| 0 <= k < deps[i].len() implies (#[trigger] gating_producer(deps[i][k]) matches Some(p) ==> pb[p] == pl2[p]) by {
                if let Some(p) = gating_producer(deps[i][k]) {
                    assert(p < i);
                }
            }
            lemma_min_cycle_frame(deps[i], pb, pl2, prog, bb_start as int);
            let b = pb[i as usize].bundle - bb_start;
            assert(bs0[b][unit_index(pb[i as usize].unit)] is Some);
            assert forall|bb: int, k: int|
                0 <= bb < bs0.len() && 0 <= k < 5 && (#[trigger] bs0[bb][k]) is Some && bs0[bb][k]->0.id < i implies bs2[bb][k] == bs0[bb][k] by {
                assert(bs1[bb] == bs0[bb]);
            }
            assert forall|bb: int| 0 <= bb < bs0.len() implies (#[trigger] bs2[bb]).len() == bs0[bb].len() by {
                assert(bs1[bb] == bs0[bb]);
            }
            lemma_asap_grow(bs0, bs2, i, class_of(prog.instrs[i].opcode), min_cycle(deps[i], pb, prog, bb_start as int) - bb_start, b, pb[i as usize].unit);
        }
        assert(holds_only(bs2, pl2, bb_start as int, prog.bb1_start as int, prog.bb1_end as int)) by {
            assert forall|bb: int, k: int|
                0 <= bb < bs2.len() && 0 <= k < 5 && (#[trigger] bs2[bb][k]) is Some implies ({
                    let id = bs2[bb][k]->0.id;
                    &&& prog.bb1_start <= id < prog.bb1_end
                    &&& pl2.contains_key(id)
                    &&& pl2[id] == Placement { bundle: (bb_start + bb) as usize, unit: unit_at(k) }
                }) by {
                if bb == rel && k == 4 {
                    assert(prog.instrs[loop_idx as int].id == loop_idx);
                } else if bb < bs0.len() {
                    assert(bs1[bb] == bs0[bb]);
                } else {
                    assert(bs1[bb] == empty_bundle());
                }
            }
        }
        assert(bounded(pl2, 0, prog.bb1_end as int));
        assert(bs2[bs2.len() - 1][4] == Some(loop_instr(prog, bb_start as int)));
        if bs0.len() > 0 {
            assert(bb_start + bs0.len() <= 4 * loop_idx + 9);
        }
    }
    loop
        invariant
            prog == program@,
            deps == deps_view(dep_table@),
            program@.wf(),
            program.loop_kind is Some,
            loop_idx == program.bb1_end - 1,
            program.instrs@.len() <= usize::MAX / 16,
            deps.len() == program.instrs@.len(),
            forall|c: int, k: int|
                0 <= c < deps.len() && 0 <= k < deps[c].len() ==> crate::scheduler::deps::dep_in_place(prog, c, #[trigger] deps[c][k]),
            interloop_producers_write(prog, deps),
            bb_start <= 4 * program.bb1_start + 11,
            l0 == (if extent(placement@, bb_start as int, prog.bb1_start as int, loop_idx as int) > 1 {
                extent(placement@, bb_start as int, prog.bb1_start as int, loop_idx as int)
            } else {
                1
            }),
            placed_below(placement@, program.bb1_end as int),
            bounded(placement@, 0, program.bb1_end as int),
            forall|i: usize| i < program.bb1_start ==> #[trigger] placement@[i] == p0[i],
            shaped(bundles_view(bundles@)),
            forall|i: int| prog.bb1_start <= i < loop_idx ==> #[trigger] placed_asap(prog, deps, placement@, bundles_view(bundles@), bb_start as int, i, prog.instrs[i]),
            holds_only(bundles_view(bundles@), placement@, bb_start as int, prog.bb1_start as int, prog.bb1_end as int),
            bundles@.len() >= l0,
            placement@[loop_idx] == (Placement { bundle: (bb_start + bundles@.len() - 1) as usize, unit: ExecUnit::Branch }),
            bundles_view(bundles@)[bundles@.len() - 1][4] == Some(loop_instr(prog, bb_start as int)),
            bundles@.len() > l0 ==> !interloop_ok(prog, deps, placement@, bundles@.len() - 1),
            bb_start + bundles@.len() <= 4 * loop_idx + 13,
        ensures
            placed_below(placement@, program.bb1_end as int),
            bounded(placement@, 0, program.bb1_end as int),
            forall|i: usize| i < program.bb1_start ==> #[trigger] placement@[i] == p0[i],
            body_done(prog, deps, placement@, bundles_view(bundles@), bb_start as int),
            bb_start + bundles@.len() <= 4 * loop_idx + 13,
        decreases 4 * program.instrs@.len() + 16 - bundles@.len(),
    {
        let ii = bundles.len();
        proof {
            let pl = placement@;
            assert(pl[loop_idx].bundle <= 4 * loop_idx + 12);
        }
        let violated = interloop_violated(program, dep_table, placement, loop_idx, ii);
        proof {
            if !violated {
                assert(body_done(prog, deps, placement@, bundles_view(bundles@), bb_start as int));
            }
        }
        if !violated {
            break;
        }
        let ghost pl = placement@;
        let ghost bs = bundles_view(bundles@);
        proof {
            assert(!interloop_ok(prog, deps, pl, ii as int));
            let (c, k) = choose|c: int, k: int|
                prog.bb1_start <= c < prog.bb1_end - 1 && 0 <= k < deps[c].len() && !(#[trigger] deps[c][k] matches Some(DepKind::Interloop {
                    bb1,
                    ..
                }) ==> pl[bb1].bundle + latency_of(prog.instrs[bb1 as int].opcode) <= pl[c as usize].bundle + ii);
            let bb1 = deps[c][k]->0->Interloop_bb1;
            assert(crate::scheduler::deps::dep_in_place(prog, c, deps[c][k]));
            assert(prog.instrs[bb1 as int].dest_reg is Some);
            assert(bb1 < loop_idx);
            assert(pl[bb1].bundle <= 4 * bb1 + 12);
            assert(placed_asap(prog, deps, pl, bs, bb_start as int, c, prog.instrs[c]));
            assert(bb_start <= pl[c as usize].bundle);
            assert(bb_start + ii < 4 * bb1 + 15);
            assert(bb_start + ii + 1 <= 4 * loop_idx + 13);
        }
        push_loop_down(&mut bundles, placement, loop_idx, bb_start, &program.instrs[loop_idx]);
        proof {
            let pl2 = placement@;
            let bs2 = bundles_view(bundles@);
            let old_rel = ii - 1;
            assert(prog.instrs[loop_idx as int] == program.instrs@[loop_idx as int]@);
            assert forall|i: int| prog.bb1_start <= i < loop_idx implies #[trigger] pl2[i as usize] == pl[i as usize] by {}
            lemma_extent_frame(pl, pl2, bb_start as int, prog.bb1_start as int, loop_idx as int);
            assert forall|i: usize| prog.bb1_start <= i < prog.bb1_end - 1 implies #[trigger] pl[i] == pl2[i] by {}
            lemma_interloop_frame(prog, deps, pl, pl2, ii as int);
            assert(shaped(bs2)) by {
                assert forall|bb: int| 0 <= bb < bs2.len() implies (#[trigger] bs2[bb]).len() == 5 by {}
            }
            assert forall|i: int| prog.bb1_start <= i < loop_idx implies #[trigger] placed_asap(prog, deps, pl2, bs2, bb_start as int, i, prog.instrs[i]) by {
                assert(placed_asap(prog, deps, pl, bs, bb_start as int, i, prog.instrs[i]));
                assert forall|k: int| 0 <= k < deps[i].len() implies (#[trigger] gating_producer(deps[i][k]) matches Some(p) ==> pl[p] == pl2[p]) by {
                    if let Some(p) = gating_producer(deps[i][k]) {
                        assert(p < i);
                    }
                }
                lemma_min_cycle_frame(deps[i], pl, pl2, prog, bb_start as int);
                let b = pl[i as usize].bundle - bb_start;
                assert(bs[b][unit_index(pl[i as usize].unit)] is Some);
                assert forall|bb: int, k: int|
                    0 <= bb < bs.len() && 0 <= k < 5 && (#[trigger] bs[bb][k]) is Some && bs[bb][k]->0.id < i implies bs2[bb][k] == bs[bb][k] by {
                    if bb == old_rel && k == 4 {
                        assert(bs[bb][k] == Some(loop_instr(prog, bb_start as int)));
                        assert(prog.instrs[loop_idx as int].id == loop_idx);
                    }
                }
                assert forall|bb: int| 0 <= bb < bs.len() implies (#[trigger] bs2[bb]).len() == bs[bb].len() by {}
                lemma_asap_grow(bs, bs2, i, class_of(prog.instrs[i].opcode), min_cycle(deps[i], pl, prog, bb_start as int) - bb_start, b, pl[i as usize].unit);
            }
            assert(holds_only(bs2, pl2, bb_start as int, prog.bb1_start as int, prog.bb1_end as int)) by {
                assert forall|bb: int, k: int|
                    0 <= bb < bs2.len() && 0 <= k < 5 && (#[trigger] bs2[bb][k]) is Some implies ({
                        let id = bs2[bb][k]->0.id;
                        &&& prog.bb1_start <= id < prog.bb1_end
                        &&& pl2.contains_key(id)
                        &&& pl2[id] == Placement { bundle: (bb_start + bb) as usize, unit: unit_at(k) }
                    }) by {
                    if bb == ii {
                        assert(prog.instrs[loop_idx as int].id == loop_idx);
                    } else {
                        assert(bs[bb][k] is Some);
                        let id = bs[bb][k]->0.id;
                        if id == loop_idx {
                            assert(pl[id] == Placement { bundle: (bb_start + bb) as usize, unit: unit_at(k) });
                            assert(bb == old_rel && k == 4);
                        }
                    }
                }
            }
            assert(bs2[bs2.len() - 1][4] == Some(loop_instr(prog, bb_start as int)));
            assert(bounded(pl2, 0, prog.bb1_end as int));
            assert forall|i: usize| i < program.bb1_start implies #[trigger] pl2[i] == p0[i] by {}
        }
    }
    bundles
}

} // verus!

verus! {

proof fn lemma_ready_extent_bound(pl: Map<usize, Placement>, prog: Prog, start: int, lo: int, hi: int)
    requires
        lo <= hi,
        forall|i: int| lo <= i < hi ==> #[trigger] pl[i as usize].bundle <= 4 * i + 12,
    ensures
        ready_extent(pl, prog, start, lo, hi) <= if 4 * hi + 11 - start > 0 { 4 * hi + 11 - start } else { 0 },
        ready_extent(pl, prog, start, lo, hi) >= extent(pl, start, lo, hi),
        ready_extent(pl, prog, start, lo, hi) >= 0,
    decreases hi - lo,
{
    if hi > lo {
        lemma_ready_extent_bound(pl, prog, start, lo, hi - 1);
        assert(pl[(hi - 1) as usize].bundle <= 4 * (hi - 1) + 12);
    }
}

/// Appends empty bundles so that every result computed in the block is
/// ready by the end of it.
pub(crate) fn pad_for_latencies(
    bundles: &mut Vec<Bundle>,
    program: &Program,
    placement: &HashMap<InstId, Placement>,
    bb_start: usize,
    count: usize,
)
    requires
        count <= program.instrs@.len(),
        program.instrs@.len() <= usize::MAX / 16,
        placed_below(placement@, count as int),
        bounded(placement@, 0, count as int),
        bb_start == 0,
        forall|i: usize| i < count ==> #[trigger] placement@[i].bundle < old(bundles)@.len(),
    ensures
        final(bundles)@.len() == if old(bundles)@.len() > ready_extent(placement@, program@, 0, 0, count as int) {
            old(bundles)@.len() as int
        } else {
            ready_extent(placement@, program@, 0, 0, count as int)
        },
        forall|b: int| 0 <= b < old(bundles)@.len() ==> #[trigger] bundles_view(final(bundles)@)[b] == bundles_view(old(bundles)@)[b],
        forall|b: int| old(bundles)@.len() <= b < final(bundles)@.len() ==> #[trigger] bundles_view(final(bundles)@)[b] == empty_bundle(),
{
    let ghost old_bs = bundles_view(bundles@);
    let mut required = bundles.len();
    let mut idx: usize = 0;
    while idx < count
        invariant
            idx <= count <= program.instrs@.len(),
            bb_start == 0,
            program.instrs@.len() <= usize::MAX / 16,
            placed_below(placement@, count as int),
            bounded(placement@, 0, count as int),
            forall|i: usize| i < count ==> #[trigger] placement@[i].bundle < bundles@.len(),
            bundles@.len() == old_bs.len(),
            required == if bundles@.len() > ready_extent(placement@, program@, 0, 0, idx as int) {
                bundles@.len() as int
            } else {
                ready_extent(placement@, program@, 0, 0, idx as int)
            },
        decreases count - idx,
    {
        let pl = match placement.get(&idx) {
            Some(p) => *p,
            None => Placement { bundle: 0, unit: ExecUnit::Alu0 },
        };
        proof {
            assert(placement@.contains_key(idx));
            assert(pl == placement@[idx]);
            assert(placement@[idx].bundle <= 4 * idx + 12);
            assert(placement@[idx].bundle < bundles@.len());
            assert(program@.instrs[idx as int] == program.instrs@[idx as int]@);
            let x = placement@[idx].bundle - 0 + latency_of(program@.instrs[idx as int].opcode);
            let e = ready_extent(placement@, program@, 0, 0, idx as int);
            assert(((idx + 1) - 1) as usize == idx);
            assert(ready_extent(placement@, program@, 0, 0, idx + 1) == if x > e { x } else { e });
        }
        if pl.bundle >= bb_start {
            let rel = pl.bundle - bb_start;
            if rel < bundles.len() {
                let lat = program.instrs[idx].latency();
                if rel + lat > required {
                    required = rel + lat;
                }
            }
        }
        idx = idx + 1;
    }
    while bundles.len() < required
        invariant
            bundles@.len() <= required || bundles@.len() == old_bs.len(),
            bundles@.len() >= old_bs.len(),
            forall|b: int| 0 <= b < old_bs.len() ==> #[trigger] bundles_view(bundles@)[b] == old_bs[b],
            forall|b: int| old_bs.len() <= b < bundles@.len() ==> #[trigger] bundles_view(bundles@)[b] == empty_bundle(),
        decreases required - bundles@.len(),
    {
        let ghost prev = bundles_view(bundles@);
        bundles.push(Bundle::new());
        proof {
            assert(bundles_view(bundles@) =~= prev.push(empty_bundle()));
        }
    }
}

} // verus!

verus! {

pub(crate) proof fn lemma_placed_asap_frame(
    prog: Prog,
    deps: Seq<Seq<Option<DepKind>>>,
    p1: Map<usize, Placement>,
    p2: Map<usize, Placement>,
    bs: Seq<Seq<Option<Instr>>>,
    start: int,
    i: int,
    inst: Instr,
)
    requires
        placed_asap(prog, deps, p1, bs, start, i, inst),
        p2.contains_key(i as usize),
        p1[i as usize] == p2[i as usize],
        forall|k: int|
            0 <= k < deps[i].len() ==> (#[trigger] gating_producer(deps[i][k]) matches Some(p) ==> p1[p]
                == p2[p]),
    ensures
        placed_asap(prog, deps, p2, bs, start, i, inst),
{
    lemma_min_cycle_frame(deps[i], p1, p2, prog, start);
}

pub(crate) proof fn lemma_holds_only_frame(bs: Seq<Seq<Option<Instr>>>, p1: Map<usize, Placement>, p2: Map<usize, Placement>, start: int, lo: int, hi: int)
    requires
        holds_only(bs, p1, start, lo, hi),
        forall|id: usize| lo <= id < hi && #[trigger] p1.contains_key(id) ==> p2.contains_key(id) && p2[id] == p1[id],
    ensures
        holds_only(bs, p2, start, lo, hi),
{
    assert forall|b: int, k: int|
        0 <= b < bs.len() && 0 <= k < 5 && (#[trigger] bs[b][k]) is Some implies ({
            let id = bs[b][k]->0.id;
            &&& lo <= id < hi
            &&& p2.contains_key(id)
            &&& p2[id] == Placement { bundle: (start + b) as usize, unit: unit_at(k) }
        }) by {
        let id = bs[b][k]->0.id;
        assert(p1.contains_key(id));
    }
}

/// BB0 scheduled ASAP from bundle 0 and padded until its results are ready.
pub(crate) fn schedule_bb0(program: &Program, dep_table: &DepTable) -> (r: (Vec<Bundle>, HashMap<InstId, Placement>))
    requires
        program@.wf(),
        crate::scheduler::deps::deps_of(program@, deps_view(dep_table@)),
        program.instrs@.len() <= usize::MAX / 16,
    ensures
        placed_below(r.1@, program.bb1_start as int),
        bounded(r.1@, 0, program.bb1_start as int),
        shaped(bundles_view(r.0@)),
        forall|i: int| 0 <= i < program.bb1_start ==> #[trigger] placed_asap(program@, deps_view(dep_table@), r.1@, bundles_view(r.0@), 0, i, program@.instrs[i]),
        holds_only(bundles_view(r.0@), r.1@, 0, 0, program.bb1_start as int),
        r.0@.len() == ready_extent(r.1@, program@, 0, 0, program.bb1_start as int),
        r.0@.len() <= 4 * program.bb1_start + 11,
{
    let ghost prog = program@;
    let ghost deps = deps_view(dep_table@);
    proof {
        lemma_gates_earlier(prog, deps);
        crate::scheduler::deps::lemma_deps_in_place(prog, deps);
    }
    let mut placement: HashMap<InstId, Placement> = HashMap::new();
    proof {
        assert(placed_below(placement@, 0));
    }
    let mut bb0 = schedule_straight(program, dep_table, program.bb0_range(), 0, &mut placement, Ghost(0int));
    let ghost p_a = placement@;
    let ghost bs_raw = bundles_view(bb0@);
    proof {
        lemma_ready_extent_bound(p_a, prog, 0, 0, prog.bb1_start as int);
        assert forall|i: usize| i < program.bb1_start implies #[trigger] p_a[i].bundle < bb0@.len() by {
            assert(placed_asap(prog, deps, p_a, bs_raw, 0, i as int, prog.instrs[i as int]));
        }
    }
    pad_for_latencies(&mut bb0, program, &placement, 0, program.bb1_start);
    let ghost bs0 = bundles_view(bb0@);
    proof {
        assert(shaped(bs0)) by {
            assert forall|b: int| 0 <= b < bs0.len() implies (#[trigger] bs0[b]).len() == 5 by {
                if b >= bs_raw.len() {
                    assert(bs0[b] == empty_bundle());
                } else {
                    assert(bs0[b] == bs_raw[b]);
                }
            }
        }
        assert forall|i: int| 0 <= i < prog.bb1_start implies #[trigger] placed_asap(prog, deps, p_a, bs0, 0, i, prog.instrs[i]) by {
            assert(placed_asap(prog, deps, p_a, bs_raw, 0, i, prog.instrs[i]));
            let b = p_a[i as usize].bundle;
            assert(bs_raw[b as int][unit_index(p_a[i as usize].unit)] is Some);
            assert forall|bb: int, k: int|
                0 <= bb < bs_raw.len() && 0 <= k < 5 && (#[trigger] bs_raw[bb][k]) is Some && bs_raw[bb][k]->0.id < i implies bs0[bb][k] == bs_raw[bb][k] by {
                assert(bs0[bb] == bs_raw[bb]);
            }
            assert forall|bb: int| 0 <= bb < bs_raw.len() implies (#[trigger] bs0[bb]).len() == bs_raw[bb].len() by {
                assert(bs0[bb] == bs_raw[bb]);
            }
            lemma_asap_grow(bs_raw, bs0, i, class_of(prog.instrs[i].opcode), min_cycle(deps[i], p_a, prog, 0) - 0, b as int, p_a[i as usize].unit);
        }
        assert(holds_only(bs0, p_a, 0, 0, prog.bb1_start as int)) by {
            assert forall|b: int, k: int|
                0 <= b < bs0.len() && 0 <= k < 5 && (#[trigger] bs0[b][k]) is Some implies ({
                    let id = bs0[b][k]->0.id;
                    &&& 0 <= id < prog.bb1_start
                    &&& p_a.contains_key(id)
                    &&& p_a[id] == Placement { bundle: (0 + b) as usize, unit: unit_at(k) }
                }) by {
                if b >= bs_raw.len() {
                    assert(bs0[b] == empty_bundle());
                } else {
                    assert(bs0[b] == bs_raw[b]);
                }
            }
        }
        assert(bs0.len() == ready_extent(p_a, prog, 0, 0, prog.bb1_start as int));
    }
    proof {
        lemma_ready_extent_bound(p_a, prog, 0, 0, prog.bb1_start as int);
    }
    (bb0, placement)
}

/// The whole schedule for the `loop` instruction: BB0, BB1 and BB2 each
/// scheduled ASAP, BB0 padded until its results are ready, the loop body
/// as short as the interloop dependencies allow, and `ii` the body length.
pub open spec fn simple_schedule_ok(
    prog: Prog,
    deps: Seq<Seq<Option<DepKind>>>,
    pl: Map<usize, Placement>,
    s: crate::scheduler::ir::Sched,
) -> bool {
    let n = prog.instrs.len() as int;
    let b1 = prog.bb1_start as int;
    let e1 = prog.bb1_end as int;
    &&& placed_below(pl, n)
    &&& bounded(pl, 0, n)
    &&& s.ii == s.bb1.len()
    &&& shaped(s.bb0)
    &&& forall|i: int| 0 <= i < b1 ==> #[trigger] placed_asap(prog, deps, pl, s.bb0, 0, i, prog.instrs[i])
    &&& holds_only(s.bb0, pl, 0, 0, b1)
    &&& s.bb0.len() == ready_extent(pl, prog, 0, 0, b1)
    &&& (prog.loop_kind is Some ==> body_done(prog, deps, pl, s.bb1, s.bb0.len() as int))
    &&& (prog.loop_kind is None ==> s.bb1.len() == 0)
    &&& block_done(prog, deps, pl, s.bb2, (s.bb0.len() + s.bb1.len()) as int, e1, n)
}

/// Schedules the program for the plain `loop` instruction; returns the
/// schedule and where each instruction went.
#[verifier::spinoff_prover]
pub fn schedule(program: &Program, dep_table: &DepTable) -> (r: (Schedule, HashMap<InstId, Placement>))
    requires
        program@.wf(),
        crate::scheduler::deps::deps_of(program@, deps_view(dep_table@)),
        program.instrs@.len() <= usize::MAX / 16,
    ensures
        simple_schedule_ok(program@, deps_view(dep_table@), r.1@, r.0@),
        forall|i: int| 0 <= i < program@.instrs.len() ==> r.1@.contains_key(i as usize)
            && runs_on((#[trigger] program@.instrs[i]).opcode, r.1@[i as usize].unit),
{
    let ghost prog = program@;
    let ghost deps = deps_view(dep_table@);
    proof {
        lemma_gates_earlier(prog, deps);
        crate::scheduler::deps::lemma_deps_in_place(prog, deps);
        lemma_interloop_producers_write(prog, deps);
    }
    let (bb0, mut placement) = schedule_bb0(program, dep_table);
    let ghost p_a = placement@;
    let ghost bs0 = bundles_view(bb0@);
    let bb0_len = bb0.len();
    let bb1: Vec<Bundle> = if program.bb1_start >= program.bb1_end {
        Vec::new()
    } else {
        schedule_bb1(program, dep_table, bb0_len, &mut placement)
    };
    let ghost p_b = placement@;
    let ghost bs1 = bundles_view(bb1@);
    let bb1_len = bb1.len();
    proof {
        if program.bb1_start < program.bb1_end {
            let li = prog.bb1_end - 1;
            assert(p_b[li as usize].bundle <= 4 * li + 12);
            assert(bb0_len + bb1_len <= 4 * prog.bb1_end + 11);
        } else {
            assert(bs1 =~= Seq::<Seq<Option<Instr>>>::empty());
            assert(p_b == p_a);
        }
    }
    let bb2 = schedule_straight(program, dep_table, program.bb2_range(), bb0_len + bb1_len, &mut placement, Ghost(0int));
    let ghost p_c = placement@;
    let ghost bs2 = bundles_view(bb2@);
    let sched = Schedule { bb0, bb1, bb2, ii: bb1_len };
    proof {
        // BB0 facts survive the later blocks.
        assert forall|i: usize| i < prog.bb1_start implies #[trigger] p_c[i] == p_a[i] by {
            assert(p_b[i] == p_a[i]);
        }
        assert forall|i: int| 0 <= i < prog.bb1_start implies #[trigger] placed_asap(prog, deps, p_c, bs0, 0, i, prog.instrs[i]) by {
            assert(placed_asap(prog, deps, p_a, bs0, 0, i, prog.instrs[i]));
            assert forall|k: int| 0 <= k < deps[i].len() implies (#[trigger] gating_producer(deps[i][k]) matches Some(p) ==> p_a[p] == p_c[p]) by {
                if let Some(p) = gating_producer(deps[i][k]) {
                    assert(p < i);
                    assert(p_c[p] == p_a[p]);
                }
            }
            assert(p_c[i as usize] == p_a[i as usize]);
            lemma_placed_asap_frame(prog, deps, p_a, p_c, bs0, 0, i, prog.instrs[i]);
        }
        lemma_holds_only_frame(bs0, p_a, p_c, 0, 0, prog.bb1_start as int);
        lemma_ready_extent_frame(p_a, p_c, prog, 0, 0, prog.bb1_start as int);
        // BB1 facts survive BB2.
        if prog.loop_kind is Some {
            let li = prog.bb1_end - 1;
            assert forall|i: usize| i < prog.bb1_end implies #[trigger] p_c[i] == p_b[i] by {}
            assert forall|i: int| prog.bb1_start <= i < li implies #[trigger] p_c[i as usize] == p_b[i as usize] by {}
            lemma_extent_frame(p_b, p_c, bb0_len as int, prog.bb1_start as int, li);
            assert forall|i: usize| prog.bb1_start <= i < prog.bb1_end - 1 implies #[trigger] p_b[i] == p_c[i] by {}
            lemma_interloop_frame(prog, deps, p_b, p_c, bs1.len() as int);
            lemma_interloop_frame(prog, deps, p_b, p_c, bs1.len() - 1);
            assert forall|i: int| prog.bb1_start <= i < li implies #[trigger] placed_asap(prog, deps, p_c, bs1, bb0_len as int, i, prog.instrs[i]) by {
                assert(placed_asap(prog, deps, p_b, bs1, bb0_len as int, i, prog.instrs[i]));
                assert forall|k: int| 0 <= k < deps[i].len() implies (#[trigger] gating_producer(deps[i][k]) matches Some(p) ==> p_b[p] == p_c[p]) by {
                    if let Some(p) = gating_producer(deps[i][k]) {
                        assert(p < i);
                    }
                }
                lemma_placed_asap_frame(prog, deps, p_b, p_c, bs1, bb0_len as int, i, prog.instrs[i]);
            }
            lemma_holds_only_frame(bs1, p_b, p_c, bb0_len as int, prog.bb1_start as int, prog.bb1_end as int);
            assert(body_done(prog, deps, p_c, bs1, bb0_len as int));
        }
        assert(sched@.bb0 == bs0);
        assert(sched@.bb1 == bs1);
        assert(sched@.bb2 == bs2);
        lemma_units_run_on(prog, deps, placement@, sched@);
    }
    (sched, placement)
}

/// Every instruction of a `loop` schedule sits on a unit it runs on.
pub proof fn lemma_units_run_on(
    prog: Prog,
    deps: Seq<Seq<Option<DepKind>>>,
    pl: Map<usize, Placement>,
    s: crate::scheduler::ir::Sched,
)
    requires
        prog.wf(),
        simple_schedule_ok(prog, deps, pl, s),
    ensures
        forall|i: int| 0 <= i < prog.instrs.len() ==> pl.contains_key(i as usize) && runs_on((#[trigger] prog.instrs[i]).opcode, pl[i as usize].unit),
{
    let n = prog.instrs.len() as int;
    let b1 = prog.bb1_start as int;
    let e1 = prog.bb1_end as int;
    assert forall|i: int| 0 <= i < n implies pl.contains_key(i as usize) && runs_on((#[trigger] prog.instrs[i]).opcode, pl[i as usize].unit) by {
        let op = prog.instrs[i].opcode;
        if prog.loop_kind is Some && i == e1 - 1 {
            assert(crate::scheduler::parser::is_loop_op(op));
        } else {
            if i < b1 {
                assert(placed_asap(prog, deps, pl, s.bb0, 0, i, prog.instrs[i]));
            } else if i < e1 {
                assert(placed_asap(prog, deps, pl, s.bb1, s.bb0.len() as int, i, prog.instrs[i]));
            } else {
                assert(placed_asap(prog, deps, pl, s.bb2, (s.bb0.len() + s.bb1.len()) as int, i, prog.instrs[i]));
            }
            lemma_class_units_run_on(op, pl[i as usize].unit);
        }
    }
}

proof fn lemma_min_cycle_covers(ds: Seq<Option<DepKind>>, pl: Map<usize, Placement>, prog: Prog, start: int)
    ensures
        start <= min_cycle(ds, pl, prog, start),
        forall|k: int| 0 <= k < ds.len() ==> dep_ready(#[trigger] ds[k], pl, prog) <= min_cycle(ds, pl, prog, start),
    decreases ds.len(),
{
    if ds.len() > 0 {
        let d = ds.drop_last();
        lemma_min_cycle_covers(d, pl, prog, start);
        assert forall|k: int| 0 <= k < ds.len() implies dep_ready(#[trigger] ds[k], pl, prog) <= min_cycle(ds, pl, prog, start) by {
            if k < d.len() {
                assert(d[k] == ds[k]);
            }
        }
    }
}

/// Every operand's producer has its result ready when the consumer issues:
/// a producer earlier in the same block, a BB0 producer of a loop-invariant
/// operand and a body producer of an operand after the loop finish no
/// later than the consumer's bundle; the body producer of an interloop
/// operand finishes no later than the consumer's bundle one initiation
/// interval on.
pub proof fn lemma_dependences_honoured(
    prog: Prog,
    deps: Seq<Seq<Option<DepKind>>>,
    pl: Map<usize, Placement>,
    s: crate::scheduler::ir::Sched,
)
    requires
        prog.wf(),
        deps_of(prog, deps),
        simple_schedule_ok(prog, deps, pl, s),
    ensures
        forall|c: int, k: int|
            0 <= c < prog.instrs.len() && !(prog.loop_kind is Some && c == prog.bb1_end - 1) && 0 <= k < deps[c].len()
                ==> (#[trigger] gating_producer(deps[c][k]) matches Some(p) ==> pl[p].bundle + latency_of(
                prog.instrs[p as int].opcode,
            ) <= pl[c as usize].bundle),
        prog.loop_kind is Some ==> interloop_ok(prog, deps, pl, s.ii as int),
{
    let n = prog.instrs.len() as int;
    let b1 = prog.bb1_start as int;
    let e1 = prog.bb1_end as int;
    assert forall|c: int, k: int|
        0 <= c < n && !(prog.loop_kind is Some && c == e1 - 1) && 0 <= k < deps[c].len() implies (#[trigger] gating_producer(deps[c][k]) matches Some(p)
            ==> pl[p].bundle + latency_of(prog.instrs[p as int].opcode) <= pl[c as usize].bundle) by {
        let start = if c < b1 {
            0int
        } else if c < e1 {
            s.bb0.len() as int
        } else {
            (s.bb0.len() + s.bb1.len()) as int
        };
        let bs = if c < b1 {
            s.bb0
        } else if c < e1 {
            s.bb1
        } else {
            s.bb2
        };
        if c < b1 {
            assert(placed_asap(prog, deps, pl, s.bb0, 0, c, prog.instrs[c]));
        } else if c < e1 {
            assert(prog.loop_kind is Some);
            assert(placed_asap(prog, deps, pl, s.bb1, start, c, prog.instrs[c]));
        } else {
            assert(placed_asap(prog, deps, pl, s.bb2, start, c, prog.instrs[c]));
        }
        assert(placed_asap(prog, deps, pl, bs, start, c, prog.instrs[c]));
        lemma_min_cycle_covers(deps[c], pl, prog, start);
        assert(dep_ready(deps[c][k], pl, prog) <= min_cycle(deps[c], pl, prog, start));
    }
}

} // verus!
