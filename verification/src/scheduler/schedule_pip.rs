//! Modulo scheduling of the loop body for the `loop.pip` instruction.
//!
//! BB0 and BB2 are scheduled as for `loop`. The body is scheduled for an
//! initiation interval II, starting at the resource bound
//! `max over unit classes of ceil(instructions of the class / units)`:
//! each body instruction goes, in program order, to the earliest bundle at
//! or after the cycle its producers' results are ready whose unit of its
//! class is free modulo II (ALU0 before ALU1), and every interloop
//! dependency must then satisfy `S(P) + λ(P) <= S(C) + II`. Where an
//! instruction finds no free slot or a dependency fails, II grows by one.
//! The body then spans `#stages × II` bundles, `loop.pip` in the branch
//! slot of the last. The search stops at `usize::MAX / 64`; a body that
//! fits no interval up to there keeps the `loop` schedule.

use std::collections::HashMap;

use vstd::prelude::*;

use crate::scheduler::deps::{deps_of, deps_view};
use crate::scheduler::ir::{
    bundles_view, class_of, class_units, empty_bundle, runs_on, lemma_class_units_run_on, latency_of, unit_at, unit_index, Bundle, DepKind,
    DepTable, ExecUnit, InstId, Instr, Instruction, Opcode, Placement, Sched, Schedule, UnitClass,
};
use crate::scheduler::parser::{Prog, Program};
use crate::scheduler::schedule_simple::{
    self, block_done, holds_only, placed_asap, placed_below, ready_extent, shaped, simple_schedule_ok, slot_of,
};

verus! {

/// A body bundle with a `loop` in its branch slot turned into `loop.pip`.
pub open spec fn pip_bundle(bd: Seq<Option<Instr>>) -> Seq<Option<Instr>> {
    match bd[4] {
        Some(i) => if i.opcode == Opcode::Loop {
            bd.update(4, Some(Instr { opcode: Opcode::LoopPip, ..i }))
        } else {
            bd
        },
        None => bd,
    }
}

/// The schedule with every `loop` of the body's branch slots turned into
/// `loop.pip`.
pub open spec fn pip_tagged(s: Sched) -> Sched {
    Sched { bb1: Seq::new(s.bb1.len(), |b: int| pip_bundle(s.bb1[b])), ..s }
}

/// The largest initiation interval tried; bundles of an attempt stay below it.
pub open spec fn ii_limit() -> int {
    (usize::MAX / 64) as int
}

/// Number of instructions of class `cls` in `[lo, hi)`.
pub open spec fn class_count(prog: Prog, cls: UnitClass, lo: int, hi: int) -> int
    decreases hi - lo,
{
    if hi <= lo {
        0
    } else {
        class_count(prog, cls, lo, hi - 1) + if class_of(prog.instrs[hi - 1].opcode) == cls {
            1int
        } else {
            0int
        }
    }
}

pub open spec fn max2(a: int, b: int) -> int {
    if a >= b {
        a
    } else {
        b
    }
}

/// The resource bound on II: for every unit class, its body instructions
/// (the loop instruction included) divided by its units, rounded up.
pub open spec fn ii_res(prog: Prog) -> int {
    let lo = prog.bb1_start as int;
    let hi = prog.bb1_end as int;
    max2(
        max2((class_count(prog, UnitClass::Alu, lo, hi) + 1) / 2, class_count(prog, UnitClass::Mult, lo, hi)),
        max2(class_count(prog, UnitClass::Mem, lo, hi), class_count(prog, UnitClass::Branch, lo, hi)),
    )
}

/// When the result read by an operand of a body instruction is ready,
/// relative to the first body bundle: a body producer's bundle plus its
/// latency, 0 otherwise (BB0 is padded until its results are ready, and an
/// interloop dependency is checked once the body is placed).
pub open spec fn body_dep_ready(prog: Prog, d: Option<DepKind>, rel: Seq<(int, ExecUnit)>) -> int {
    match d {
        Some(DepKind::Local(p)) => rel[p - prog.bb1_start].0 + latency_of(prog.instrs[p as int].opcode),
        _ => 0,
    }
}

/// The earliest bundle, relative to the body start, a body instruction
/// with these operands may issue in.
pub open spec fn body_min(prog: Prog, ds: Seq<Option<DepKind>>, rel: Seq<(int, ExecUnit)>) -> int
    decreases ds.len(),
{
    if ds.len() == 0 {
        0
    } else {
        max2(body_min(prog, ds.drop_last(), rel), body_dep_ready(prog, ds.last(), rel))
    }
}

/// Unit `u` is taken in bundles congruent to `r` modulo `ii`.
pub open spec fn mod_taken(rel: Seq<(int, ExecUnit)>, ii: int, r: int, u: ExecUnit) -> bool {
    exists|k: int| 0 <= k < rel.len() && #[trigger] rel[k].0 % ii == r && rel[k].1 == u
}

/// The first slot of class `cls` from bundle `b` to `m + ii - 1` free
/// modulo `ii`, ALU0 before ALU1.
pub open spec fn mod_slot_from(rel: Seq<(int, ExecUnit)>, ii: int, cls: UnitClass, m: int, b: int) -> Option<(int, ExecUnit)>
    decreases m + ii - b,
{
    let us = class_units(cls);
    if b >= m + ii {
        None
    } else if !mod_taken(rel, ii, b % ii, us[0]) {
        Some((b, us[0]))
    } else if us.len() > 1 && !mod_taken(rel, ii, b % ii, us[1]) {
        Some((b, us[1]))
    } else {
        mod_slot_from(rel, ii, cls, m, b + 1)
    }
}

/// Placements, relative to the body start, of the first `k` body
/// instructions at interval `ii`; `None` where one finds no free slot or
/// would reach past the limit.
pub open spec fn mod_place(prog: Prog, ds: Seq<Seq<Option<DepKind>>>, ii: int, k: int) -> Option<Seq<(int, ExecUnit)>>
    decreases k,
{
    if k <= 0 {
        Some(seq![])
    } else {
        match mod_place(prog, ds, ii, k - 1) {
            None => None,
            Some(rel) => {
                let c = prog.bb1_start + k - 1;
                let m = body_min(prog, ds[c], rel);
                if m + ii > ii_limit() {
                    None
                } else {
                    match mod_slot_from(rel, ii, class_of(prog.instrs[c].opcode), m, m) {
                        None => None,
                        Some(x) => Some(rel.push(x)),
                    }
                }
            },
        }
    }
}

/// Every interloop dependency of the body meets `S(P) + λ(P) <= S(C) + II`.
pub open spec fn mod_interloop_ok(prog: Prog, ds: Seq<Seq<Option<DepKind>>>, rel: Seq<(int, ExecUnit)>, ii: int) -> bool {
    let b1 = prog.bb1_start as int;
    forall|c: int, k: int|
        b1 <= c < prog.bb1_end - 1 && 0 <= k < ds[c].len() ==> (#[trigger] ds[c][k] matches Some(DepKind::Interloop { bb1, .. })
            ==> rel[bb1 - b1].0 + latency_of(prog.instrs[bb1 as int].opcode) <= rel[c - b1].0 + ii)
}

/// Number of body instructions, the loop instruction left out.
pub open spec fn body_count(prog: Prog) -> int {
    prog.bb1_end - 1 - prog.bb1_start
}

/// The body can be scheduled at interval `ii`.
pub open spec fn mod_success(prog: Prog, ds: Seq<Seq<Option<DepKind>>>, ii: int) -> bool {
    match mod_place(prog, ds, ii, body_count(prog)) {
        Some(rel) => mod_interloop_ok(prog, ds, rel, ii),
        None => false,
    }
}

/// The smallest interval from the resource bound up to the limit at which
/// the body can be scheduled, searching upwards from `from`.
pub open spec fn first_ii_from(prog: Prog, ds: Seq<Seq<Option<DepKind>>>, from: int) -> Option<int>
    decreases ii_limit() + 1 - from,
{
    if from > ii_limit() {
        None
    } else if mod_success(prog, ds, from) {
        Some(from)
    } else {
        first_ii_from(prog, ds, from + 1)
    }
}

/// The initiation interval chosen for the body.
pub open spec fn chosen_ii(prog: Prog, ds: Seq<Seq<Option<DepKind>>>) -> Option<int> {
    first_ii_from(prog, ds, max2(ii_res(prog), 1))
}


/// Relative placements as integers.
pub open spec fn rel_view(v: Seq<(usize, ExecUnit)>) -> Seq<(int, ExecUnit)> {
    Seq::new(v.len(), |k: int| (v[k].0 as int, v[k].1))
}

proof fn lemma_body_min_nonneg(prog: Prog, ds: Seq<Option<DepKind>>, rel: Seq<(int, ExecUnit)>)
    ensures
        body_min(prog, ds, rel) >= 0,
    decreases ds.len(),
{
    if ds.len() > 0 {
        lemma_body_min_nonneg(prog, ds.drop_last(), rel);
    }
}

proof fn lemma_slot_from_facts(rel: Seq<(int, ExecUnit)>, ii: int, cls: UnitClass, m: int, b: int)
    requires
        ii >= 1,
    ensures
        mod_slot_from(rel, ii, cls, m, b) matches Some(x) ==> {
            &&& b <= x.0 < m + ii
            &&& class_units(cls).contains(x.1)
            &&& !mod_taken(rel, ii, x.0 % ii, x.1)
        },
    decreases m + ii - b,
{
    let us = class_units(cls);
    if b < m + ii {
        if !mod_taken(rel, ii, b % ii, us[0]) {
            assert(us.contains(us[0]));
        } else if us.len() > 1 && !mod_taken(rel, ii, b % ii, us[1]) {
            assert(us.contains(us[1]));
        } else {
            lemma_slot_from_facts(rel, ii, cls, m, b + 1);
        }
    }
}

/// What a successful attempt at interval `ii` gives: one slot per body
/// instruction, each on a unit of its class, below the limit, and no two
/// on one unit in congruent bundles.
proof fn lemma_mod_place_facts(prog: Prog, ds: Seq<Seq<Option<DepKind>>>, ii: int, n: int)
    requires
        ii >= 1,
        n >= 0,
        mod_place(prog, ds, ii, n) is Some,
    ensures
        ({
            let rel = mod_place(prog, ds, ii, n)->0;
            &&& rel.len() == n
            &&& forall|k: int| 0 <= k < n ==> 0 <= #[trigger] rel[k].0 < ii_limit()
            &&& forall|k: int| 0 <= k < n ==> class_units(class_of(prog.instrs[prog.bb1_start + k].opcode)).contains(#[trigger] rel[k].1)
            &&& forall|j: int, k: int| 0 <= j < k < n ==> !(#[trigger] rel[j].0 % ii == #[trigger] rel[k].0 % ii && rel[j].1 == rel[k].1)
        }),
        forall|j: int| 0 <= j <= n ==> #[trigger] mod_place(prog, ds, ii, j) == Some(mod_place(prog, ds, ii, n)->0.take(j)),
    decreases n,
{
    if n > 0 {
        let prev = mod_place(prog, ds, ii, n - 1);
        assert(prev is Some);
        lemma_mod_place_facts(prog, ds, ii, n - 1);
        let r0 = prev->0;
        let c = prog.bb1_start + n - 1;
        let m = body_min(prog, ds[c], r0);
        lemma_body_min_nonneg(prog, ds[c], r0);
        let cls = class_of(prog.instrs[c].opcode);
        lemma_slot_from_facts(r0, ii, cls, m, m);
        let x = mod_slot_from(r0, ii, cls, m, m)->0;
        let rel = r0.push(x);
        assert(mod_place(prog, ds, ii, n) == Some(rel));
        assert forall|j: int, k: int| 0 <= j < k < n implies !(#[trigger] rel[j].0 % ii == #[trigger] rel[k].0 % ii && rel[j].1 == rel[k].1) by {
            if k == n - 1 {
                assert(rel[j] == r0[j]);
                if rel[j].0 % ii == x.0 % ii && rel[j].1 == x.1 {
                    assert(mod_taken(r0, ii, x.0 % ii, x.1));
                }
            } else {
                assert(rel[j] == r0[j] && rel[k] == r0[k]);
            }
        }
        assert forall|j: int| 0 <= j <= n implies #[trigger] mod_place(prog, ds, ii, j) == Some(rel.take(j)) by {
            if j < n {
                assert(rel.take(j) =~= r0.take(j));
            } else {
                assert(rel.take(j) =~= rel);
            }
        }
    } else {
        assert(mod_place(prog, ds, ii, 0)->0.take(0) =~= seq![]);
    }
}

proof fn lemma_body_min_ge(prog: Prog, ds: Seq<Option<DepKind>>, rel: Seq<(int, ExecUnit)>)
    ensures
        forall|j: int| 0 <= j < ds.len() ==> body_dep_ready(prog, #[trigger] ds[j], rel) <= body_min(prog, ds, rel),
    decreases ds.len(),
{
    if ds.len() > 0 {
        lemma_body_min_ge(prog, ds.drop_last(), rel);
        assert forall|j: int| 0 <= j < ds.len() implies body_dep_ready(prog, #[trigger] ds[j], rel) <= body_min(prog, ds, rel) by {
            if j < ds.len() - 1 {
                assert(ds.drop_last()[j] == ds[j]);
            }
        }
    }
}

/// In a successful attempt, each body instruction waits for its body
/// producers: `S(P) + λ(P) <= S(C)`.
proof fn lemma_mod_place_latency(prog: Prog, ds: Seq<Seq<Option<DepKind>>>, ii: int, n: int)
    requires
        ii >= 1,
        n >= 0,
        mod_place(prog, ds, ii, n) is Some,
    ensures
        ({
            let rel = mod_place(prog, ds, ii, n)->0;
            let b1 = prog.bb1_start as int;
            forall|c: int, j: int|
                b1 <= c < b1 + n && 0 <= j < ds[c].len() ==> (#[trigger] ds[c][j] matches Some(DepKind::Local(p))
                    ==> (b1 <= p < c ==> rel[p - b1].0 + latency_of(prog.instrs[p as int].opcode) <= rel[c - b1].0))
        }),
    decreases n,
{
    if n > 0 {
        let prev = mod_place(prog, ds, ii, n - 1);
        assert(prev is Some);
        lemma_mod_place_latency(prog, ds, ii, n - 1);
        lemma_mod_place_facts(prog, ds, ii, n - 1);
        let r0 = prev->0;
        let b1 = prog.bb1_start as int;
        let c0 = b1 + n - 1;
        let m = body_min(prog, ds[c0], r0);
        let cls = class_of(prog.instrs[c0].opcode);
        lemma_slot_from_facts(r0, ii, cls, m, m);
        lemma_body_min_ge(prog, ds[c0], r0);
        let x = mod_slot_from(r0, ii, cls, m, m)->0;
        let rel = r0.push(x);
        assert(mod_place(prog, ds, ii, n) == Some(rel));
        assert forall|c: int, j: int|
            b1 <= c < b1 + n && 0 <= j < ds[c].len() implies (#[trigger] ds[c][j] matches Some(DepKind::Local(p))
                ==> (b1 <= p < c ==> rel[p - b1].0 + latency_of(prog.instrs[p as int].opcode) <= rel[c - b1].0)) by {
            if let Some(DepKind::Local(p)) = ds[c][j] {
                if b1 <= p < c {
                    assert(rel[p - b1] == r0[p - b1]);
                    if c < c0 {
                        assert(rel[c - b1] == r0[c - b1]);
                    } else {
                        assert(body_dep_ready(prog, ds[c0][j], r0) <= m);
                    }
                }
            }
        }
    }
}

proof fn lemma_mod_place_none(prog: Prog, ds: Seq<Seq<Option<DepKind>>>, ii: int, j: int, n: int)
    requires
        0 <= j <= n,
        mod_place(prog, ds, ii, j) is None,
    ensures
        mod_place(prog, ds, ii, n) is None,
    decreases n - j,
{
    if j < n {
        lemma_mod_place_none(prog, ds, ii, j + 1, n);
    }
}

/// The interval the search settles on is the first that succeeds.
proof fn lemma_first_ii(prog: Prog, ds: Seq<Seq<Option<DepKind>>>, from: int)
    ensures
        first_ii_from(prog, ds, from) matches Some(ii) ==> {
            &&& from <= ii <= ii_limit()
            &&& mod_success(prog, ds, ii)
            &&& forall|j: int| from <= j < ii ==> !#[trigger] mod_success(prog, ds, j)
        },
    decreases ii_limit() + 1 - from,
{
    if from <= ii_limit() && !mod_success(prog, ds, from) {
        lemma_first_ii(prog, ds, from + 1);
    }
}

fn count_class(program: &Program, cls: UnitClass) -> (n: usize)
    requires
        program@.wf(),
    ensures
        n == class_count(program@, cls, program@.bb1_start as int, program@.bb1_end as int),
        n <= program@.bb1_end - program@.bb1_start,
{
    let mut n: usize = 0;
    let mut i = program.bb1_start;
    while i < program.bb1_end
        invariant
            program@.wf(),
            program.bb1_start <= i <= program.bb1_end <= program.instrs@.len(),
            n == class_count(program@, cls, program@.bb1_start as int, i as int),
            n <= i - program.bb1_start,
        decreases program.bb1_end - i,
    {
        proof {
            assert(program@.instrs[i as int] == program.instrs@[i as int]@);
        }
        if program.instrs[i].unit_class() == cls {
            n = n + 1;
        }
        i = i + 1;
    }
    n
}

/// The resource bound on the initiation interval.
fn resource_bound(program: &Program) -> (r: usize)
    requires
        program@.wf(),
    ensures
        r == ii_res(program@),
{
    let alu = count_class(program, UnitClass::Alu);
    let mult = count_class(program, UnitClass::Mult);
    let mem = count_class(program, UnitClass::Mem);
    let br = count_class(program, UnitClass::Branch);
    let a = alu / 2 + alu % 2;
    let x = if a >= mult { a } else { mult };
    let y = if mem >= br { mem } else { br };
    if x >= y { x } else { y }
}

/// Exec counterpart of `body_min`.
fn body_min_exec(program: &Program, ds: &Vec<Option<DepKind>>, rel: &Vec<(usize, ExecUnit)>) -> (m: usize)
    requires
        program@.wf(),
        program.bb1_start + rel@.len() <= program.instrs@.len(),
        forall|k: int| 0 <= k < ds@.len() ==> (#[trigger] ds@[k] matches Some(DepKind::Local(p)) ==> program@.bb1_start <= p < program@.bb1_start + rel@.len()),
        forall|k: int| 0 <= k < rel@.len() ==> (#[trigger] rel@[k]).0 < ii_limit(),
    ensures
        m == body_min(program@, ds@, rel_view(rel@)),
        m <= ii_limit() + 3,
{
    let ghost rv = rel_view(rel@);
    let mut acc: usize = 0;
    let mut k: usize = 0;
    while k < ds.len()
        invariant
            k <= ds@.len(),
            rv == rel_view(rel@),
            program@.wf(),
            program.bb1_start + rel@.len() <= program.instrs@.len(),
            forall|j: int| 0 <= j < ds@.len() ==> (#[trigger] ds@[j] matches Some(DepKind::Local(p)) ==> program@.bb1_start <= p < program@.bb1_start + rel@.len()),
            forall|j: int| 0 <= j < rel@.len() ==> (#[trigger] rel@[j]).0 < ii_limit(),
            acc == body_min(program@, ds@.take(k as int), rv),
            acc <= ii_limit() + 3,
        decreases ds@.len() - k,
    {
        proof {
            assert(ds@.take(k + 1).drop_last() =~= ds@.take(k as int));
            assert(ds@.take(k + 1).last() == ds@[k as int]);
        }
        match ds[k] {
            Some(DepKind::Local(p)) => {
                assert(ds@[k as int] matches Some(DepKind::Local(p)));
                let j = p - program.bb1_start;
                let lat = program.instrs[p].latency();
                proof {
                    assert(program@.instrs[p as int] == program.instrs@[p as int]@);
                    assert(rel@[j as int].0 < ii_limit());
                }
                let r = rel[j].0 + lat;
                if r > acc {
                    acc = r;
                }
            },
            _ => {},
        }
        k = k + 1;
    }
    proof {
        assert(ds@.take(ds@.len() as int) =~= ds@);
    }
    acc
}

fn mod_taken_exec(rel: &Vec<(usize, ExecUnit)>, ii: usize, r: usize, u: ExecUnit) -> (t: bool)
    requires
        ii > 0,
    ensures
        t == mod_taken(rel_view(rel@), ii as int, r as int, u),
{
    let ghost rv = rel_view(rel@);
    let mut k: usize = 0;
    while k < rel.len()
        invariant
            k <= rel@.len(),
            ii > 0,
            rv == rel_view(rel@),
            forall|j: int| 0 <= j < k ==> !(#[trigger] rv[j].0 % (ii as int) == r && rv[j].1 == u),
        decreases rel@.len() - k,
    {
        if rel[k].0 % ii == r && rel[k].1 == u {
            assert(rv[k as int].0 % (ii as int) == r as int && rv[k as int].1 == u);
            return true;
        }
        k = k + 1;
    }
    false
}

/// Exec counterpart of `mod_slot_from` from `m`.
fn mod_slot_exec(rel: &Vec<(usize, ExecUnit)>, ii: usize, cls: UnitClass, m: usize) -> (r: Option<(usize, ExecUnit)>)
    requires
        ii > 0,
        m + ii <= ii_limit(),
    ensures
        match mod_slot_from(rel_view(rel@), ii as int, cls, m as int, m as int) {
            None => r is None,
            Some(x) => r == Some((x.0 as usize, x.1)),
        },
{
    let ghost rv = rel_view(rel@);
    let units = cls.units();
    let mut b = m;
    while b < m + ii
        invariant
            m <= b <= m + ii,
            ii > 0,
            m + ii <= ii_limit(),
            rv == rel_view(rel@),
            units@ == class_units(cls),
            mod_slot_from(rv, ii as int, cls, m as int, m as int) == mod_slot_from(rv, ii as int, cls, m as int, b as int),
        decreases m + ii - b,
    {
        let r = b % ii;
        if !mod_taken_exec(rel, ii, r, units[0]) {
            return Some((b, units[0]));
        }
        if units.len() > 1 && !mod_taken_exec(rel, ii, r, units[1]) {
            return Some((b, units[1]));
        }
        b = b + 1;
    }
    None
}


/// One attempt at interval `ii`: the body placed in program order.
fn mod_attempt(program: &Program, dep_table: &DepTable, ii: usize) -> (r: Option<Vec<(usize, ExecUnit)>>)
    requires
        program@.wf(),
        deps_of(program@, deps_view(dep_table@)),
        program@.loop_kind is Some,
        1 <= ii <= ii_limit(),
    ensures
        match mod_place(program@, deps_view(dep_table@), ii as int, body_count(program@)) {
            None => r is None,
            Some(rel) => r is Some && rel_view(r->0@) == rel,
        },
{
    let ghost prog = program@;
    let ghost ds = deps_view(dep_table@);
    proof {
        crate::scheduler::deps::lemma_deps_in_place(prog, ds);
    }
    let b1 = program.bb1_start;
    let n = program.bb1_end - 1 - b1;
    let limit: usize = usize::MAX / 64;
    let mut rel: Vec<(usize, ExecUnit)> = Vec::new();
    let mut k: usize = 0;
    proof {
        assert(rel_view(rel@) =~= seq![]);
    }
    while k < n
        invariant
            prog == program@,
            ds == deps_view(dep_table@),
            program@.wf(),
            deps_of(prog, ds),
            forall|c: int, j: int| 0 <= c < ds.len() && 0 <= j < ds[c].len() ==> crate::scheduler::deps::dep_in_place(prog, c, #[trigger] ds[c][j]),
            prog.loop_kind is Some,
            1 <= ii <= ii_limit(),
            limit == ii_limit(),
            b1 == prog.bb1_start,
            n == body_count(prog),
            k <= n,
            rel@.len() == k,
            mod_place(prog, ds, ii as int, k as int) == Some(rel_view(rel@)),
            forall|j: int| 0 <= j < k ==> (#[trigger] rel@[j]).0 < ii_limit(),
        decreases n - k,
    {
        let c = b1 + k;
        proof {
            assert(ds[c as int] == dep_table@[c as int].src_deps@);
            assert forall|j: int| 0 <= j < ds[c as int].len() implies (#[trigger] ds[c as int][j] matches Some(DepKind::Local(p)) ==> prog.bb1_start <= p < prog.bb1_start + rel@.len()) by {
                assert(crate::scheduler::deps::dep_in_place(prog, c as int, ds[c as int][j]));
            }
            assert(prog.instrs[c as int] == program.instrs@[c as int]@);
        }
        let ghost rv = rel_view(rel@);
        let m = body_min_exec(program, &dep_table[c].src_deps, &rel);
        if m > limit - ii {
            proof {
                assert(mod_place(prog, ds, ii as int, k + 1) is None);
                lemma_mod_place_none(prog, ds, ii as int, k + 1, n as int);
            }
            return None;
        }
        let cls = program.instrs[c].unit_class();
        proof {
            lemma_slot_from_facts(rv, ii as int, cls, m as int, m as int);
        }
        match mod_slot_exec(&rel, ii, cls, m) {
            None => {
                proof {
                    assert(mod_place(prog, ds, ii as int, k + 1) is None);
                    lemma_mod_place_none(prog, ds, ii as int, k + 1, n as int);
                }
                return None;
            },
            Some(x) => {
                rel.push(x);
                proof {
                    assert(rel_view(rel@) =~= rv.push((x.0 as int, x.1)));
                }
            },
        }
        k = k + 1;
    }
    Some(rel)
}

/// Exec counterpart of `mod_interloop_ok`.
fn interloop_holds(program: &Program, dep_table: &DepTable, rel: &Vec<(usize, ExecUnit)>, ii: usize) -> (b: bool)
    requires
        program@.wf(),
        deps_of(program@, deps_view(dep_table@)),
        program@.loop_kind is Some,
        rel@.len() == body_count(program@),
        forall|j: int| 0 <= j < rel@.len() ==> (#[trigger] rel@[j]).0 < ii_limit(),
        1 <= ii <= ii_limit(),
    ensures
        b == mod_interloop_ok(program@, deps_view(dep_table@), rel_view(rel@), ii as int),
{
    let ghost prog = program@;
    let ghost ds = deps_view(dep_table@);
    let ghost rv = rel_view(rel@);
    proof {
        crate::scheduler::deps::lemma_deps_in_place(prog, ds);
        schedule_simple::lemma_interloop_producers_write(prog, ds);
    }
    let b1 = program.bb1_start;
    let last = program.bb1_end - 1;
    let mut c = b1;
    while c < last
        invariant
            prog == program@,
            ds == deps_view(dep_table@),
            rv == rel_view(rel@),
            program@.wf(),
            prog.loop_kind is Some,
            forall|c2: int, j: int| 0 <= c2 < ds.len() && 0 <= j < ds[c2].len() ==> crate::scheduler::deps::dep_in_place(prog, c2, #[trigger] ds[c2][j]),
            schedule_simple::interloop_producers_write(prog, ds),
            ds.len() == prog.instrs.len(),
            rel@.len() == body_count(prog),
            forall|j: int| 0 <= j < rel@.len() ==> (#[trigger] rel@[j]).0 < ii_limit(),
            1 <= ii <= ii_limit(),
            b1 == prog.bb1_start,
            last == prog.bb1_end - 1,
            b1 <= c <= last,
            forall|c2: int, k2: int|
                b1 <= c2 < c && 0 <= k2 < ds[c2].len() ==> (#[trigger] ds[c2][k2] matches Some(DepKind::Interloop { bb1, .. })
                    ==> rv[bb1 - b1].0 + latency_of(prog.instrs[bb1 as int].opcode) <= rv[c2 - b1].0 + ii),
        decreases last - c,
    {
        let deps = &dep_table[c].src_deps;
        proof {
            assert(ds[c as int] == deps@);
        }
        let mut k: usize = 0;
        while k < deps.len()
            invariant
                prog == program@,
                ds == deps_view(dep_table@),
                rv == rel_view(rel@),
                program@.wf(),
                prog.loop_kind is Some,
                forall|c2: int, j: int| 0 <= c2 < ds.len() && 0 <= j < ds[c2].len() ==> crate::scheduler::deps::dep_in_place(prog, c2, #[trigger] ds[c2][j]),
                schedule_simple::interloop_producers_write(prog, ds),
                ds.len() == prog.instrs.len(),
                rel@.len() == body_count(prog),
                forall|j: int| 0 <= j < rel@.len() ==> (#[trigger] rel@[j]).0 < ii_limit(),
                1 <= ii <= ii_limit(),
                b1 == prog.bb1_start,
                last == prog.bb1_end - 1,
                b1 <= c < last,
                ds[c as int] == deps@,
                k <= deps@.len(),
                forall|k2: int|
                    0 <= k2 < k ==> (#[trigger] ds[c as int][k2] matches Some(DepKind::Interloop { bb1, .. })
                        ==> rv[bb1 - b1].0 + latency_of(prog.instrs[bb1 as int].opcode) <= rv[c - b1].0 + ii),
            decreases deps@.len() - k,
        {
            match deps[k] {
                Some(DepKind::Interloop { bb1, .. }) => {
                    proof {
                        assert(ds[c as int][k as int] matches Some(DepKind::Interloop { .. }));
                        assert(crate::scheduler::deps::dep_in_place(prog, c as int, ds[c as int][k as int]));
                        assert(prog.instrs[bb1 as int].dest_reg is Some);
                        assert(prog.instrs[bb1 as int] == program.instrs@[bb1 as int]@);
                    }
                    let lat = program.instrs[bb1].latency();
                    let pj = bb1 - b1;
                    let cj = c - b1;
                    proof {
                        assert(rel@[pj as int].0 < ii_limit());
                        assert(rel@[cj as int].0 < ii_limit());
                    }
                    if rel[pj].0 + lat > rel[cj].0 + ii {
                        proof {
                            assert(!(rv[bb1 - b1].0 + latency_of(prog.instrs[bb1 as int].opcode) <= rv[c - b1].0 + ii));
                            assert(ds[c as int][k as int] matches Some(DepKind::Interloop { .. }));
                        }
                        return false;
                    }
                },
                _ => {},
            }
            k = k + 1;
        }
        c = c + 1;
    }
    true
}

/// The interval search from the resource bound upwards: the first interval
/// up to the limit at which the body fits, with its placements.
fn search_ii(program: &Program, dep_table: &DepTable) -> (r: Option<(usize, Vec<(usize, ExecUnit)>)>)
    requires
        program@.wf(),
        deps_of(program@, deps_view(dep_table@)),
        program@.loop_kind is Some,
    ensures
        match chosen_ii(program@, deps_view(dep_table@)) {
            None => r is None,
            Some(ii) => match r {
                Some((i2, v)) => i2 == ii && mod_place(program@, deps_view(dep_table@), ii, body_count(program@)) == Some(rel_view(v@))
                    && mod_interloop_ok(program@, deps_view(dep_table@), rel_view(v@), ii),
                None => false,
            },
        },
{
    let ghost prog = program@;
    let ghost ds = deps_view(dep_table@);
    let res = resource_bound(program);
    let from = if res >= 1 { res } else { 1 };
    let limit: usize = usize::MAX / 64;
    let mut ii = from;
    while ii <= limit
        invariant
            prog == program@,
            ds == deps_view(dep_table@),
            program@.wf(),
            deps_of(prog, ds),
            prog.loop_kind is Some,
            limit == ii_limit(),
            from == max2(ii_res(prog), 1),
            1 <= ii,
            first_ii_from(prog, ds, from as int) == first_ii_from(prog, ds, ii as int),
        decreases limit + 1 - ii,
    {
        match mod_attempt(program, dep_table, ii) {
            Some(rel) => {
                proof {
                    lemma_mod_place_facts(prog, ds, ii as int, body_count(prog));
                    assert forall|j: int| 0 <= j < rel@.len() implies (#[trigger] rel@[j]).0 < ii_limit() by {
                        assert(rel_view(rel@)[j].0 == rel@[j].0 as int);
                    }
                }
                if interloop_holds(program, dep_table, &rel, ii) {
                    return Some((ii, rel));
                }
            },
            None => {},
        }
        ii = ii + 1;
    }
    None
}


/// One past the last body bundle used, relative to the body start, and at
/// least 1.
pub open spec fn rel_extent(rel: Seq<(int, ExecUnit)>) -> int
    decreases rel.len(),
{
    if rel.len() == 0 {
        1
    } else {
        max2(rel_extent(rel.drop_last()), rel.last().0 + 1)
    }
}

/// Number of stages of the body at interval `ii`.
pub open spec fn stage_count(rel: Seq<(int, ExecUnit)>, ii: int) -> int {
    (rel_extent(rel) + ii - 1) / ii
}

/// The `loop.pip` instruction as it is emitted: its target is the first
/// body bundle.
pub open spec fn pip_loop_instr(prog: Prog, start: int) -> Instr {
    Instr { opcode: Opcode::LoopPip, label: Some(start as usize), ..prog.instrs[prog.bb1_end - 1] }
}

proof fn lemma_rel_extent(rel: Seq<(int, ExecUnit)>)
    ensures
        rel_extent(rel) >= 1,
        forall|k: int| 0 <= k < rel.len() ==> #[trigger] rel[k].0 < rel_extent(rel),
        (forall|k: int| 0 <= k < rel.len() ==> #[trigger] rel[k].0 < ii_limit()) ==> rel_extent(rel) <= ii_limit(),
    decreases rel.len(),
{
    if rel.len() > 0 {
        let r0 = rel.drop_last();
        lemma_rel_extent(r0);
        assert forall|k: int| 0 <= k < rel.len() implies #[trigger] rel[k].0 < rel_extent(rel) by {
            if k < rel.len() - 1 {
                assert(r0[k] == rel[k]);
            }
        }
        if forall|k: int| 0 <= k < rel.len() ==> #[trigger] rel[k].0 < ii_limit() {
            assert forall|k: int| 0 <= k < r0.len() implies #[trigger] r0[k].0 < ii_limit() by {
                assert(r0[k] == rel[k]);
            }
            assert(rel[rel.len() - 1].0 < ii_limit());
        }
    }
}

fn rel_extent_exec(rel: &Vec<(usize, ExecUnit)>) -> (e: usize)
    requires
        forall|j: int| 0 <= j < rel@.len() ==> (#[trigger] rel@[j]).0 < ii_limit(),
    ensures
        e == rel_extent(rel_view(rel@)),
        1 <= e <= ii_limit(),
{
    let ghost rv = rel_view(rel@);
    let mut e: usize = 1;
    let mut k: usize = 0;
    while k < rel.len()
        invariant
            k <= rel@.len(),
            rv == rel_view(rel@),
            forall|j: int| 0 <= j < rel@.len() ==> (#[trigger] rel@[j]).0 < ii_limit(),
            e == rel_extent(rv.take(k as int)),
            1 <= e <= ii_limit(),
        decreases rel@.len() - k,
    {
        proof {
            assert(rv.take(k + 1).drop_last() =~= rv.take(k as int));
            assert(rv.take(k + 1).last() == rv[k as int]);
            assert(rel@[k as int].0 < ii_limit());
        }
        if rel[k].0 + 1 > e {
            e = rel[k].0 + 1;
        }
        k = k + 1;
    }
    proof {
        assert(rv.take(rel@.len() as int) =~= rv);
    }
    e
}

/// Lays the body out over `#stages × ii` bundles starting at bundle
/// `start`: each body instruction at its relative slot, `loop.pip` in the
/// branch slot of the last bundle.
#[verifier::rlimit(50)]
fn build_body(
    program: &Program,
    rel: &Vec<(usize, ExecUnit)>,
    ii: usize,
    start: usize,
    placement: &mut HashMap<InstId, Placement>,
) -> (bundles: Vec<Bundle>)
    requires
        program@.wf(),
        program@.loop_kind is Some,
        rel@.len() == body_count(program@),
        forall|k: int| 0 <= k < rel@.len() ==> (#[trigger] rel@[k]).0 < ii_limit(),
        forall|k: int| 0 <= k < rel@.len() ==> class_units(class_of(program@.instrs[program@.bb1_start + k].opcode)).contains(#[trigger] rel@[k].1),
        forall|j: int, k: int| 0 <= j < k < rel@.len() ==> !(#[trigger] rel@[j].0 % ii == #[trigger] rel@[k].0 % ii && rel@[j].1 == rel@[k].1),
        1 <= ii <= ii_limit(),
        start <= usize::MAX / 2,
        placed_below(old(placement)@, program@.bb1_start as int),
    ensures
        ({
            let prog = program@;
            let rv = rel_view(rel@);
            let bs = bundles_view(bundles@);
            let pl = final(placement)@;
            let b1 = prog.bb1_start as int;
            let e1 = prog.bb1_end as int;
            &&& bs.len() == stage_count(rv, ii as int) * ii
            &&& rel_extent(rv) <= bs.len() <= 2 * ii_limit()
            &&& shaped(bs)
            &&& placed_below(pl, e1)
            &&& forall|i: usize| i < b1 ==> #[trigger] pl[i] == old(placement)@[i]
            &&& forall|c: int| b1 <= c < e1 - 1 ==> #[trigger] pl[c as usize] == (Placement { bundle: (start + rv[c - b1].0) as usize, unit: rv[c - b1].1 })
            &&& forall|c: int| b1 <= c < e1 - 1 ==> #[trigger] slot_of(bs, rv[c - b1].0, rv[c - b1].1) == Some(prog.instrs[c])
            &&& pl[(e1 - 1) as usize] == (Placement { bundle: (start + bs.len() - 1) as usize, unit: ExecUnit::Branch })
            &&& bs[bs.len() - 1][4] == Some(pip_loop_instr(prog, start as int))
            &&& holds_only(bs, pl, start as int, b1, e1)
        }),
{
    let ghost prog = program@;
    let ghost rv = rel_view(rel@);
    let ghost p0 = placement@;
    let b1 = program.bb1_start;
    let li = program.bb1_end - 1;
    let ext = rel_extent_exec(rel);
    proof {
        lemma_rel_extent(rv);
    }
    let stages = (ext + ii - 1) / ii;
    proof {
        let e = ext as int;
        let i = ii as int;
        assert(stages * i <= e + i - 1 && stages * i >= e) by (nonlinear_arith)
            requires
                stages == (e + i - 1) / i,
                i >= 1,
                e >= 1,
        {
            assert((e + i - 1) == i * ((e + i - 1) / i) + (e + i - 1) % i);
        }
    }
    let total = stages * ii;
    let mut bundles: Vec<Bundle> = Vec::new();
    while bundles.len() < total
        invariant
            bundles@.len() <= total,
            forall|b: int| 0 <= b < bundles@.len() ==> #[trigger] bundles_view(bundles@)[b] == empty_bundle(),
        decreases total - bundles@.len(),
    {
        let ghost before = bundles@;
        bundles.push(Bundle::new());
        proof {
            assert(bundles@ == before.push(bundles@[bundles@.len() - 1]));
            assert forall|b: int| 0 <= b < bundles@.len() implies #[trigger] bundles_view(bundles@)[b] == empty_bundle() by {
                if b < before.len() {
                    assert(bundles@[b] == before[b]);
                    assert(bundles_view(before)[b] == empty_bundle());
                }
            }
        }
    }
    proof {
        assert(shaped(bundles_view(bundles@))) by {
            assert forall|b: int| 0 <= b < bundles_view(bundles@).len() implies (#[trigger] bundles_view(bundles@)[b]).len() == 5 by {
                assert(bundles_view(bundles@)[b] == empty_bundle());
            }
        }
    }
    let n = rel.len();
    let mut k: usize = 0;
    while k < n
        invariant
            prog == program@,
            rv == rel_view(rel@),
            program@.wf(),
            prog.loop_kind is Some,
            n == rel@.len(),
            n == body_count(prog),
            b1 == prog.bb1_start,
            li == prog.bb1_end - 1,
            k <= n,
            1 <= ii <= ii_limit(),
            start <= usize::MAX / 2,
            total == stages * ii,
            ext <= total <= 2 * ii_limit(),
            forall|j: int| 0 <= j < rv.len() ==> #[trigger] rv[j].0 < ext,
            forall|j: int| 0 <= j < rel@.len() ==> (#[trigger] rel@[j]).0 < ii_limit(),
            forall|j: int, q: int| 0 <= j < q < rel@.len() ==> !(#[trigger] rel@[j].0 % ii == #[trigger] rel@[q].0 % ii && rel@[j].1 == rel@[q].1),
            bundles@.len() == total,
            shaped(bundles_view(bundles@)),
            forall|j: int| 0 <= j < k ==> #[trigger] slot_of(bundles_view(bundles@), rv[j].0, rv[j].1) == Some(prog.instrs[b1 + j]),
            forall|b: int, q: int|
                0 <= b < total && 0 <= q < 5 && (#[trigger] bundles_view(bundles@)[b][q]) is Some ==> {
                    let id = bundles_view(bundles@)[b][q]->0.id;
                    &&& b1 <= id < b1 + k
                    &&& rv[id - b1] == (b, unit_at(q))
                    &&& bundles_view(bundles@)[b][q] == Some(prog.instrs[id as int])
                },
            placed_below(placement@, b1 + k),
            forall|i: usize| i < b1 ==> #[trigger] placement@[i] == p0[i],
            forall|j: int| 0 <= j < k ==> #[trigger] placement@[(b1 + j) as usize] == (Placement { bundle: (start + rv[j].0) as usize, unit: rv[j].1 }),
        decreases n - k,
    {
        let (b, u) = rel[k];
        let c = b1 + k;
        let ghost bs = bundles_view(bundles@);
        let ghost pl = placement@;
        proof {
            assert(rv[k as int] == (b as int, u));
            assert(prog.instrs[c as int] == program.instrs@[c as int]@);
            assert(prog.instrs[c as int].id == c);
        }
        let instr = program.instrs[c].clone();
        bundles[b].set(u, instr);
        placement.insert(c, Placement { bundle: start + b, unit: u });
        proof {
            let bs2 = bundles_view(bundles@);
            let ui = unit_index(u);
            assert(bs2 == bs.update(b as int, bs[b as int].update(ui, Some(prog.instrs[c as int]))));
            assert(unit_at(ui) == u);
            assert forall|j: int| 0 <= j < k implies rv[j] != (b as int, u) by {
                assert(rv[j].0 == rel@[j].0 && rv[j].1 == rel@[j].1);
                assert(!(rel@[j].0 % ii == rel@[k as int].0 % ii && rel@[j].1 == rel@[k as int].1));
            }
            assert forall|j: int| 0 <= j < k + 1 implies #[trigger] slot_of(bs2, rv[j].0, rv[j].1) == Some(prog.instrs[b1 + j]) by {
                if j < k {
                    assert(slot_of(bs, rv[j].0, rv[j].1) == Some(prog.instrs[b1 + j]));
                    assert(rv[j] != (b as int, u));
                    if rv[j].0 == b {
                        assert(rv[j].1 != u);
                        assert(unit_index(rv[j].1) != ui);
                    }
                }
            }
            assert forall|bb: int, q: int|
                0 <= bb < total && 0 <= q < 5 && (#[trigger] bs2[bb][q]) is Some implies {
                    let id = bs2[bb][q]->0.id;
                    &&& b1 <= id < b1 + k + 1
                    &&& rv[id - b1] == (bb, unit_at(q))
                    &&& bs2[bb][q] == Some(prog.instrs[id as int])
                } by {
                if bb == b && q == ui {
                } else {
                    assert(bs2[bb][q] == bs[bb][q]);
                }
            }
            assert(shaped(bs2)) by {
                assert forall|bb: int| 0 <= bb < bs2.len() implies (#[trigger] bs2[bb]).len() == 5 by {
                    assert(bs[bb].len() == 5);
                }
            }
            assert forall|j: int| 0 <= j < k + 1 implies #[trigger] placement@[(b1 + j) as usize] == (Placement { bundle: (start + rv[j].0) as usize, unit: rv[j].1 }) by {
                if j < k {
                    assert(pl[(b1 + j) as usize] == placement@[(b1 + j) as usize]);
                }
            }
        }
        k = k + 1;
    }
    let ghost bs = bundles_view(bundles@);
    let ghost pl = placement@;
    let mut lp = program.instrs[li].clone();
    lp.opcode = Opcode::LoopPip;
    lp.label = Some(start);
    proof {
        assert(prog.instrs[li as int] == program.instrs@[li as int]@);
        assert(lp@ == pip_loop_instr(prog, start as int));
        assert(prog.instrs[li as int].id == li);
        // no body instruction sits in a branch slot
        assert forall|j: int| 0 <= j < n implies rv[j].1 != ExecUnit::Branch by {
            assert(rv[j].1 == rel@[j].1);
            assert(!crate::scheduler::parser::is_loop_op(prog.instrs[b1 + j].opcode));
        }
        assert(bs[total - 1].len() == 5);
        if bs[total - 1][4] is Some {
            let id = bs[total - 1][4]->0.id;
            assert(rv[id - b1] == (total - 1, unit_at(4)));
        }
    }
    bundles[total - 1].set(ExecUnit::Branch, lp);
    placement.insert(li, Placement { bundle: start + total - 1, unit: ExecUnit::Branch });
    proof {
        let bs2 = bundles_view(bundles@);
        let pl2 = placement@;
        assert(bs2 == bs.update(total - 1, bs[total - 1].update(4, Some(lp@))));
        assert forall|j: int| 0 <= j < n implies #[trigger] slot_of(bs2, rv[j].0, rv[j].1) == Some(prog.instrs[b1 + j]) by {
            assert(slot_of(bs, rv[j].0, rv[j].1) == Some(prog.instrs[b1 + j]));
            assert(rv[j].1 != ExecUnit::Branch);
        }
        assert forall|c: int| b1 <= c < li implies #[trigger] slot_of(bs2, rv[c - b1].0, rv[c - b1].1) == Some(prog.instrs[c]) by {
            assert(slot_of(bs2, rv[c - b1].0, rv[c - b1].1) == Some(prog.instrs[b1 + (c - b1)]));
        }
        assert forall|c: int| b1 <= c < li implies #[trigger] pl2[c as usize] == (Placement { bundle: (start + rv[c - b1].0) as usize, unit: rv[c - b1].1 }) by {
            assert(pl[(b1 + (c - b1)) as usize] == (Placement { bundle: (start + rv[c - b1].0) as usize, unit: rv[c - b1].1 }));
        }
        assert(shaped(bs2)) by {
            assert forall|bb: int| 0 <= bb < bs2.len() implies (#[trigger] bs2[bb]).len() == 5 by {
                assert(bs[bb].len() == 5);
            }
        }
        assert(holds_only(bs2, pl2, start as int, b1 as int, prog.bb1_end as int)) by {
            assert forall|bb: int, q: int|
                0 <= bb < bs2.len() && 0 <= q < 5 && (#[trigger] bs2[bb][q]) is Some implies {
                    let id = bs2[bb][q]->0.id;
                    &&& b1 <= id < prog.bb1_end
                    &&& pl2.contains_key(id)
                    &&& pl2[id] == Placement { bundle: (start + bb) as usize, unit: unit_at(q) }
                } by {
                if bb == total - 1 && q == 4 {
                } else {
                    assert(bs2[bb][q] == bs[bb][q]);
                    let id = bs[bb][q]->0.id;
                    assert(rv[id - b1] == (bb, unit_at(q)));
                    assert(pl[(b1 + (id - b1)) as usize] == (Placement { bundle: (start + rv[id - b1].0) as usize, unit: rv[id - b1].1 }));
                }
            }
        }
        assert(placed_below(pl2, prog.bb1_end as int));
    }
    bundles
}


/// The schedule for the `loop` instruction with its `loop` turned into
/// `loop.pip`: what is emitted when the program has no loop, or when no
/// interval up to the limit fits the body.
fn tagged_simple(program: &Program, dep_table: &DepTable) -> (r: (Schedule, HashMap<InstId, Placement>))
    requires
        program@.wf(),
        deps_of(program@, deps_view(dep_table@)),
        program.instrs@.len() <= usize::MAX / 16,
    ensures
        exists|s: Sched| simple_schedule_ok(program@, deps_view(dep_table@), r.1@, s) && r.0@ == pip_tagged(s),
{
    let (mut s, placement) = schedule_simple::schedule(program, dep_table);
    let ghost s0 = s@;
    let mut i: usize = 0;
    while i < s.bb1.len()
        invariant
            i <= s.bb1@.len(),
            s@.bb1.len() == s0.bb1.len(),
            s@.bb0 == s0.bb0,
            s@.bb2 == s0.bb2,
            s@.ii == s0.ii,
            forall|b: int| 0 <= b < s0.bb1.len() ==> #[trigger] s@.bb1[b] == if b < i {
                pip_bundle(s0.bb1[b])
            } else {
                s0.bb1[b]
            },
        decreases s.bb1@.len() - i,
    {
        let ghost bd = s0.bb1[i as int];
        let ghost before = s@;
        proof {
            crate::scheduler::ir::lemma_bundle_len(&s.bb1@[i as int]);
            assert(s@.bb1[i as int] == bd);
            assert(s.bb1@[i as int]@ == bd);
        }
        let is_loop = match s.bb1[i].get(ExecUnit::Branch) {
            Some(ins) => ins.opcode == Opcode::Loop,
            None => false,
        };
        if is_loop {
            let mut ins = match s.bb1[i].get(ExecUnit::Branch) {
                Some(x) => x.clone(),
                None => crate::scheduler::ir::Instruction::nop(),
            };
            assert(bd[4] == Some(ins@));
            ins.opcode = Opcode::LoopPip;
            s.bb1[i].set(ExecUnit::Branch, ins);
            assert(s@.bb1[i as int] == bd.update(4, Some(ins@)));
        }
        proof {
            assert(s@.bb1[i as int] =~= pip_bundle(s0.bb1[i as int]));
            assert forall|b: int| 0 <= b < s0.bb1.len() && b != i implies #[trigger] s@.bb1[b] == before.bb1[b] by {}
        }
        i = i + 1;
    }
    proof {
        assert(s@.bb1 =~= pip_tagged(s0).bb1);
    }
    (s, placement)
}


/// The modulo schedule at interval `ii` with body placements `rel`: BB0
/// and BB2 as for `loop`, the body over `#stages × ii` bundles, each body
/// instruction at its relative slot and `loop.pip` in the branch slot of the
/// last bundle, targeting the first.
pub open spec fn modulo_schedule_ok(
    prog: Prog,
    deps: Seq<Seq<Option<DepKind>>>,
    pl: Map<usize, Placement>,
    s: Sched,
    ii: int,
    rel: Seq<(int, ExecUnit)>,
) -> bool {
    let n = prog.instrs.len() as int;
    let b1 = prog.bb1_start as int;
    let e1 = prog.bb1_end as int;
    let start = s.bb0.len() as int;
    &&& placed_below(pl, n)
    &&& s.ii == ii
    &&& shaped(s.bb0)
    &&& forall|i: int| 0 <= i < b1 ==> #[trigger] placed_asap(prog, deps, pl, s.bb0, 0, i, prog.instrs[i])
    &&& holds_only(s.bb0, pl, 0, 0, b1)
    &&& s.bb0.len() == ready_extent(pl, prog, 0, 0, b1)
    &&& s.bb1.len() == stage_count(rel, ii) * ii
    &&& shaped(s.bb1)
    &&& forall|c: int| b1 <= c < e1 - 1 ==> #[trigger] pl[c as usize] == (Placement { bundle: (start + rel[c - b1].0) as usize, unit: rel[c - b1].1 })
    &&& forall|c: int| b1 <= c < e1 - 1 ==> #[trigger] slot_of(s.bb1, rel[c - b1].0, rel[c - b1].1) == Some(prog.instrs[c])
    &&& pl[(e1 - 1) as usize] == (Placement { bundle: (start + s.bb1.len() - 1) as usize, unit: ExecUnit::Branch })
    &&& s.bb1[s.bb1.len() - 1][4] == Some(pip_loop_instr(prog, start))
    &&& holds_only(s.bb1, pl, start, b1, e1)
    &&& block_done(prog, deps, pl, s.bb2, start + s.bb1.len(), e1, n)
}

/// The whole schedule for `loop.pip`: the modulo schedule at the chosen
/// interval; without a loop, or where no interval up to the limit fits,
/// the `loop` schedule with its loop turned into `loop.pip`.
pub open spec fn pip_schedule_ok(prog: Prog, deps: Seq<Seq<Option<DepKind>>>, pl: Map<usize, Placement>, s: Sched) -> bool {
    if prog.loop_kind is Some && chosen_ii(prog, deps) is Some {
        let ii = chosen_ii(prog, deps)->0;
        modulo_schedule_ok(prog, deps, pl, s, ii, mod_place(prog, deps, ii, body_count(prog))->0)
    } else {
        exists|t: Sched| simple_schedule_ok(prog, deps, pl, t) && s == pip_tagged(t)
    }
}

/// Every instruction of a `loop.pip` schedule sits on a unit it runs on.
pub proof fn lemma_pip_units_run_on(prog: Prog, deps: Seq<Seq<Option<DepKind>>>, pl: Map<usize, Placement>, s: Sched)
    requires
        prog.wf(),
        pip_schedule_ok(prog, deps, pl, s),
    ensures
        forall|i: int| 0 <= i < prog.instrs.len() ==> pl.contains_key(i as usize) && runs_on((#[trigger] prog.instrs[i]).opcode, pl[i as usize].unit),
{
    if prog.loop_kind is Some && chosen_ii(prog, deps) is Some {
        let ii = chosen_ii(prog, deps)->0;
        let n_body = body_count(prog);
        lemma_first_ii(prog, deps, max2(ii_res(prog), 1));
        let rel = mod_place(prog, deps, ii, n_body)->0;
        lemma_mod_place_facts(prog, deps, ii, n_body);
        let n = prog.instrs.len() as int;
        let b1 = prog.bb1_start as int;
        let e1 = prog.bb1_end as int;
        let start = s.bb0.len() as int;
        assert forall|i: int| 0 <= i < n implies pl.contains_key(i as usize) && runs_on((#[trigger] prog.instrs[i]).opcode, pl[i as usize].unit) by {
            let op = prog.instrs[i].opcode;
            if i == e1 - 1 {
                assert(crate::scheduler::parser::is_loop_op(op));
                assert(placed_below(pl, n));
            } else if i < b1 {
                assert(placed_asap(prog, deps, pl, s.bb0, 0, i, prog.instrs[i]));
                lemma_class_units_run_on(op, pl[i as usize].unit);
            } else if i < e1 {
                assert(pl[i as usize] == (Placement { bundle: (start + rel[i - b1].0) as usize, unit: rel[i - b1].1 }));
                assert(placed_below(pl, n));
                lemma_class_units_run_on(op, pl[i as usize].unit);
            } else {
                assert(placed_asap(prog, deps, pl, s.bb2, start + s.bb1.len(), i, prog.instrs[i]));
                lemma_class_units_run_on(op, pl[i as usize].unit);
            }
        }
    } else {
        let t = choose|t: Sched| simple_schedule_ok(prog, deps, pl, t) && s == pip_tagged(t);
        schedule_simple::lemma_units_run_on(prog, deps, pl, t);
    }
}

/// Schedules the program for the `loop.pip` instruction; returns the
/// schedule and where each instruction went.
#[verifier::spinoff_prover]
#[verifier::rlimit(60)]
pub fn schedule(program: &Program, dep_table: &DepTable) -> (r: (Schedule, HashMap<InstId, Placement>))
    requires
        program@.wf(),
        deps_of(program@, deps_view(dep_table@)),
        program.instrs@.len() <= usize::MAX / 16,
    ensures
        pip_schedule_ok(program@, deps_view(dep_table@), r.1@, r.0@),
        program@.loop_kind is Some && chosen_ii(program@, deps_view(dep_table@)) is Some ==> {
            let prog = program@;
            let ds = deps_view(dep_table@);
            let ii = r.0@.ii as int;
            let start = r.0@.bb0.len() as int;
            let pl = r.1@;
            &&& ii >= ii_res(prog)
            &&& ii >= 1
            &&& forall|j: int| #![trigger mod_success(prog, ds, j)] max2(ii_res(prog), 1) <= j < ii ==> !mod_success(prog, ds, j)
            &&& forall|c: int, d: int|
                prog.bb1_start <= c < d < prog.bb1_end - 1 ==> !((#[trigger] pl[c as usize].bundle - start) % ii == (#[trigger] pl[d as usize].bundle - start) % ii
                    && pl[c as usize].unit == pl[d as usize].unit)
            &&& schedule_simple::interloop_ok(prog, ds, pl, ii)
            &&& forall|c: int, k: int|
                prog.bb1_start <= c < prog.bb1_end - 1 && 0 <= k < ds[c].len() ==> (#[trigger] ds[c][k] matches Some(DepKind::Local(p))
                    ==> pl[p].bundle + latency_of(prog.instrs[p as int].opcode) <= pl[c as usize].bundle)
            &&& (r.0@.bb1.len() as int) % ii == 0
        },
{
    let ghost prog = program@;
    let ghost deps = deps_view(dep_table@);
    if program.bb1_start >= program.bb1_end {
        return tagged_simple(program, dep_table);
    }
    let found = search_ii(program, dep_table);
    match found {
        None => tagged_simple(program, dep_table),
        Some((ii, rel)) => {
            let ghost rv = rel_view(rel@);
            let ghost n_body = body_count(prog);
            proof {
                schedule_simple::lemma_gates_earlier(prog, deps);
                lemma_first_ii(prog, deps, max2(ii_res(prog), 1));
                lemma_mod_place_facts(prog, deps, ii as int, n_body);
                assert forall|k: int| 0 <= k < rel@.len() implies #[trigger] rv[k] == (rel@[k].0 as int, rel@[k].1) by {}
                assert forall|k: int| 0 <= k < rel@.len() implies (#[trigger] rel@[k]).0 < ii_limit() by {
                    assert(rv[k].0 < ii_limit());
                }
                assert forall|k: int| 0 <= k < rel@.len() implies class_units(class_of(prog.instrs[prog.bb1_start + k].opcode)).contains(#[trigger] rel@[k].1) by {
                    assert(rv[k].1 == rel@[k].1);
                }
                assert forall|j: int, k: int| 0 <= j < k < rel@.len() implies !(#[trigger] rel@[j].0 % ii == #[trigger] rel@[k].0 % ii && rel@[j].1 == rel@[k].1) by {
                    assert(rv[j].0 == rel@[j].0 && rv[k].0 == rel@[k].0);
                    assert(rv[j].1 == rel@[j].1 && rv[k].1 == rel@[k].1);
                }
            }
            let (bb0, mut placement) = schedule_simple::schedule_bb0(program, dep_table);
            let ghost p_a = placement@;
            let ghost bs0 = bundles_view(bb0@);
            let start = bb0.len();
            let bb1 = build_body(program, &rel, ii, start, &mut placement);
            let ghost p_b = placement@;
            let ghost bs1 = bundles_view(bb1@);
            let total = bb1.len();
            proof {
                // every placement so far is within the offset handed to BB2
                assert forall|i: usize| 0 <= i < prog.bb1_end implies #[trigger] p_b[i].bundle <= 4 * i + 12 + (start + total) by {
                    if i < prog.bb1_start {
                        assert(p_b[i] == p_a[i]);
                    } else if i < prog.bb1_end - 1 {
                        let c = i as int;
                        assert(p_b[c as usize] == (Placement { bundle: (start + rv[c - prog.bb1_start].0) as usize, unit: rv[c - prog.bb1_start].1 }));
                        lemma_rel_extent(rv);
                        assert(rv[c - prog.bb1_start].0 < rel_extent(rv));
                    }
                }
            }
            let bb2 = schedule_simple::schedule_straight(
                program,
                dep_table,
                program.bb2_range(),
                start + total,
                &mut placement,
                Ghost((start + total) as int),
            );
            let ghost p_c = placement@;
            let ghost bs2 = bundles_view(bb2@);
            let sched = Schedule { bb0, bb1, bb2, ii };
            proof {
                let b1 = prog.bb1_start as int;
                let e1 = prog.bb1_end as int;
                assert forall|i: usize| i < prog.bb1_start implies #[trigger] p_c[i] == p_a[i] by {
                    assert(p_b[i] == p_a[i]);
                }
                assert forall|i: int| 0 <= i < prog.bb1_start implies #[trigger] placed_asap(prog, deps, p_c, bs0, 0, i, prog.instrs[i]) by {
                    assert(placed_asap(prog, deps, p_a, bs0, 0, i, prog.instrs[i]));
                    assert forall|k: int| 0 <= k < deps[i].len() implies (#[trigger] schedule_simple::gating_producer(deps[i][k]) matches Some(p) ==> p_a[p] == p_c[p]) by {
                        if let Some(p) = schedule_simple::gating_producer(deps[i][k]) {
                            assert(p < i);
                            assert(p_c[p] == p_a[p]);
                        }
                    }
                    assert(p_c[i as usize] == p_a[i as usize]);
                    schedule_simple::lemma_placed_asap_frame(prog, deps, p_a, p_c, bs0, 0, i, prog.instrs[i]);
                }
                schedule_simple::lemma_holds_only_frame(bs0, p_a, p_c, 0, 0, b1);
                schedule_simple::lemma_ready_extent_frame(p_a, p_c, prog, 0, 0, b1);
                assert forall|i: usize| i < prog.bb1_end implies #[trigger] p_c[i] == p_b[i] by {}
                assert forall|c: int| b1 <= c < e1 - 1 implies #[trigger] p_c[c as usize] == (Placement { bundle: (start + rv[c - b1].0) as usize, unit: rv[c - b1].1 }) by {
                    assert(p_c[c as usize] == p_b[c as usize]);
                }
                assert(p_c[(e1 - 1) as usize] == p_b[(e1 - 1) as usize]);
                schedule_simple::lemma_holds_only_frame(bs1, p_b, p_c, start as int, b1, e1);
                assert(sched@.bb0 == bs0);
                assert(sched@.bb1 == bs1);
                assert(sched@.bb2 == bs2);
                assert(chosen_ii(prog, deps) == Some(ii as int));
                assert(modulo_schedule_ok(prog, deps, p_c, sched@, ii as int, rv));
                // the laws
                assert(ii_res(prog) <= max2(ii_res(prog), 1));
                assert forall|c: int, d: int|
                    prog.bb1_start <= c < d < prog.bb1_end - 1 implies !((#[trigger] p_c[c as usize].bundle - start) % (ii as int) == (#[trigger] p_c[d as usize].bundle - start) % (ii as int)
                        && p_c[c as usize].unit == p_c[d as usize].unit) by {
                    assert(p_c[c as usize] == (Placement { bundle: (start + rv[c - b1].0) as usize, unit: rv[c - b1].1 }));
                    assert(p_c[d as usize] == (Placement { bundle: (start + rv[d - b1].0) as usize, unit: rv[d - b1].1 }));
                    assert(!(rv[c - b1].0 % (ii as int) == rv[d - b1].0 % (ii as int) && rv[c - b1].1 == rv[d - b1].1));
                }
                assert(schedule_simple::interloop_ok(prog, deps, p_c, ii as int)) by {
                    assert forall|c: int, k: int|
                        prog.bb1_start <= c < prog.bb1_end - 1 && 0 <= k < deps[c].len() implies (#[trigger] deps[c][k] matches Some(DepKind::Interloop { bb1, .. })
                            ==> p_c[bb1].bundle + latency_of(prog.instrs[bb1 as int].opcode) <= p_c[c as usize].bundle + ii) by {
                        if let Some(DepKind::Interloop { bb1, .. }) = deps[c][k] {
                            crate::scheduler::deps::lemma_deps_in_place(prog, deps);
                            schedule_simple::lemma_interloop_producers_write(prog, deps);
                            assert(crate::scheduler::deps::dep_in_place(prog, c, deps[c][k]));
                            assert(prog.instrs[bb1 as int].dest_reg is Some);
                            let cc = bb1 as int;
                            assert(cc != e1 - 1);
                            assert(b1 <= cc < e1 - 1);
                            assert(p_c[cc as usize] == (Placement { bundle: (start + rv[cc - b1].0) as usize, unit: rv[cc - b1].1 }));
                        }
                    }
                }
                assert forall|c: int, k: int|
                    b1 <= c < e1 - 1 && 0 <= k < deps[c].len() implies (#[trigger] deps[c][k] matches Some(DepKind::Local(p))
                        ==> p_c[p].bundle + latency_of(prog.instrs[p as int].opcode) <= p_c[c as usize].bundle) by {
                    if let Some(DepKind::Local(p)) = deps[c][k] {
                        crate::scheduler::deps::lemma_deps_in_place(prog, deps);
                        assert(crate::scheduler::deps::dep_in_place(prog, c, deps[c][k]));
                        lemma_mod_place_latency(prog, deps, ii as int, n_body);
                        let q = p as int;
                        assert(p_c[q as usize] == (Placement { bundle: (start + rv[q - b1].0) as usize, unit: rv[q - b1].1 }));
                        assert(p_c[c as usize] == (Placement { bundle: (start + rv[c - b1].0) as usize, unit: rv[c - b1].1 }));
                    }
                }
                assert((bs1.len() as int) % (ii as int) == 0) by (nonlinear_arith)
                    requires
                        bs1.len() == stage_count(rv, ii as int) * ii,
                        ii >= 1,
                {}
            }
            (sched, placement)
        },
    }
}

} // verus!
