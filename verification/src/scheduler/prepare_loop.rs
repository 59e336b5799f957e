//! Preparing a `loop.pip` body for the hardware: every body instruction but
//! `loop.pip` is predicated on its stage's predicate p(32 + stage), the
//! `#stages × II` body bundles are folded into an II-bundle kernel, and the
//! last pre-loop bundle (or a new one) sets `EC = #stages - 1` and
//! `p32 = true`; `loop.pip` then jumps to the first kernel bundle.

use vstd::prelude::*;

use crate::scheduler::ir::{
    empty_bundle, lemma_bundle_len, unit_index, Bundle, ExecUnit, Instr, Instruction, Opcode, Sched,
    Schedule, SpecialReg, bundles_view,
};
use crate::scheduler::parser::Program;
use crate::scheduler::schedule_simple::shaped;

verus! {

/// The predicate register of a stage: p32 plus the stage number taken
/// modulo 256, capped at p255.
pub open spec fn stage_pred(stage: int) -> u8 {
    if 32 + stage % 256 > 255 {
        255
    } else {
        (32 + stage % 256) as u8
    }
}

/// An instruction predicated on `pred`, unless it is `loop.pip`.
pub open spec fn predicated_opt(o: Option<Instr>, pred: u8) -> Option<Instr> {
    match o {
        Some(i) => if i.opcode == Opcode::LoopPip {
            Some(i)
        } else {
            Some(Instr { pred: Some(pred), ..i })
        },
        None => None,
    }
}

/// The body with every instruction of bundle `r` predicated on stage `r / ii`.
pub open spec fn predicated(bs: Seq<Seq<Option<Instr>>>, ii: int) -> Seq<Seq<Option<Instr>>> {
    Seq::new(bs.len(), |r: int| Seq::new(bs[r].len(), |k: int| predicated_opt(bs[r][k], stage_pred(r / ii))))
}

/// Kernel bundle of an instruction of body bundle `rel`: `rel mod ii`, and
/// the last kernel bundle for `loop.pip`.
pub open spec fn kernel_slot(i: Instr, rel: int, ii: int) -> int {
    if i.opcode == Opcode::LoopPip {
        ii - 1
    } else {
        rel % ii
    }
}

/// `ker` with the first `k` slots of body bundle `rel` moved in; a later
/// instruction takes the place of an earlier one.
pub open spec fn fold_bundle(
    ker: Seq<Seq<Option<Instr>>>,
    bd: Seq<Option<Instr>>,
    rel: int,
    ii: int,
    k: int,
) -> Seq<Seq<Option<Instr>>>
    decreases k,
{
    if k <= 0 {
        ker
    } else {
        let ker1 = fold_bundle(ker, bd, rel, ii, k - 1);
        match bd[k - 1] {
            Some(i) => {
                let d = kernel_slot(i, rel, ii);
                ker1.update(d, ker1[d].update(k - 1, Some(i)))
            },
            None => ker1,
        }
    }
}

/// The kernel after the first `r` body bundles were folded in.
pub open spec fn kernel(bs: Seq<Seq<Option<Instr>>>, ii: int, r: int) -> Seq<Seq<Option<Instr>>>
    decreases r,
{
    if r <= 0 {
        Seq::new(ii as nat, |x: int| empty_bundle())
    } else {
        fold_bundle(kernel(bs, ii, r - 1), bs[r - 1], r - 1, ii, 5)
    }
}

/// `mov p32, true`.
pub open spec fn mov_p32() -> Instr {
    Instr {
        id: (usize::MAX - 1) as usize,
        opcode: Opcode::MovPred,
        pred: None,
        dest_reg: None,
        dest_pred: Some(32),
        dest_special: None,
        src_regs: seq![],
        imm: None,
        imm_bool: Some(true),
        label: None,
    }
}

/// `mov EC, stages - 1`.
pub open spec fn mov_ec(stages: int) -> Instr {
    Instr {
        id: (usize::MAX - 2) as usize,
        opcode: Opcode::MovEC,
        pred: None,
        dest_reg: None,
        dest_pred: None,
        dest_special: Some(SpecialReg::EC),
        src_regs: seq![],
        imm: Some((stages - 1) as i64),
        imm_bool: None,
        label: None,
    }
}

/// BB0 with the two set-up moves: both in the last bundle where both ALUs
/// are free; `EC` in the free ALU and `p32` in a new bundle where one is;
/// both in a new bundle otherwise. An empty BB0 first gets an empty bundle.
pub open spec fn prologue(bb0: Seq<Seq<Option<Instr>>>, stages: int) -> Seq<Seq<Option<Instr>>> {
    let b = if bb0.len() == 0 {
        seq![empty_bundle()]
    } else {
        bb0
    };
    let n = b.len() - 1;
    let last = b[n];
    let f0 = last[0] is None;
    let f1 = last[1] is None;
    if f0 && f1 {
        b.update(n, last.update(0, Some(mov_ec(stages))).update(1, Some(mov_p32())))
    } else if f0 || f1 {
        let u = if f0 {
            0int
        } else {
            1int
        };
        b.update(n, last.update(u, Some(mov_ec(stages)))).push(empty_bundle().update(0, Some(mov_p32())))
    } else {
        b.push(empty_bundle().update(0, Some(mov_p32())).update(1, Some(mov_ec(stages))))
    }
}

/// The kernel with `loop.pip` in a branch slot jumping to `start`.
pub open spec fn retargeted(ker: Seq<Seq<Option<Instr>>>, start: int) -> Seq<Seq<Option<Instr>>> {
    Seq::new(
        ker.len(),
        |b: int|
            match ker[b][4] {
                Some(i) => if i.opcode == Opcode::LoopPip {
                    ker[b].update(4, Some(Instr { label: Some(start as usize), ..i }))
                } else {
                    ker[b]
                },
                None => ker[b],
            },
    )
}

/// Number of stages of a body of `len` bundles at initiation interval `ii`.
pub open spec fn stages_of(len: int, ii: int) -> int {
    (len + ii - 1) / ii
}

/// The prepared schedule; unchanged without a body or with `ii == 0`.
pub open spec fn prepared(s: Sched) -> Sched {
    if s.bb1.len() == 0 || s.ii == 0 {
        s
    } else {
        let ii = s.ii as int;
        let stages = stages_of(s.bb1.len() as int, ii);
        let p = predicated(s.bb1, ii);
        let ker = kernel(p, ii, p.len() as int);
        let b0 = prologue(s.bb0, stages);
        Sched { bb0: b0, bb1: retargeted(ker, b0.len() as int), ..s }
    }
}

#[verifier::spinoff_prover]
fn predicate_body(bb1: &mut Vec<Bundle>, ii: usize)
    requires
        ii > 0,
    ensures
        bundles_view(final(bb1)@) == predicated(bundles_view(old(bb1)@), ii as int),
{
    let ghost ob = bundles_view(bb1@);
    let mut rel: usize = 0;
    while rel < bb1.len()
        invariant
            ii > 0,
            rel <= bb1@.len(),
            bb1@.len() == ob.len(),
            forall|b: int|
                0 <= b < bb1@.len() ==> (#[trigger] bb1@[b])@ == if b < rel {
                    predicated(ob, ii as int)[b]
                } else {
                    ob[b]
                },
        decreases bb1@.len() - rel,
    {
        let stage = rel / ii;
        let pred: u8 = 32u8.saturating_add((stage % 256) as u8);
        assert(pred == stage_pred(rel as int / ii as int));
        let ghost bd = ob[rel as int];
        proof {
            lemma_bundle_len(&bb1@[rel as int]);
        }
        let mut k: usize = 0;
        while k < 5
            invariant
                rel < bb1@.len(),
                bb1@.len() == ob.len(),
                bd == ob[rel as int],
                bd.len() == 5,
                k <= 5,
                forall|b: int|
                    0 <= b < bb1@.len() && b != rel ==> (#[trigger] bb1@[b])@ == if b < rel {
                        predicated(ob, ii as int)[b]
                    } else {
                        ob[b]
                    },
                bb1@[rel as int]@.len() == 5,
                forall|kk: int|
                    0 <= kk < 5 ==> #[trigger] bb1@[rel as int]@[kk] == if kk < k {
                        predicated_opt(bd[kk], pred)
                    } else {
                        bd[kk]
                    },
            decreases 5 - k,
        {
            let u = ExecUnit::from_idx(k);
            let new: Option<Instruction> = match bb1[rel].get(u) {
                Some(ins) => if ins.opcode == Opcode::LoopPip {
                    None
                } else {
                    let mut c = ins.clone();
                    c.pred = Some(pred);
                    Some(c)
                },
                None => None,
            };
            match new {
                Some(x) => {
                    bb1[rel].set(u, x);
                },
                None => {},
            }
            k = k + 1;
        }
        proof {
            assert(bb1@[rel as int]@ =~= predicated(ob, ii as int)[rel as int]);
        }
        rel = rel + 1;
    }
    proof {
        assert(bundles_view(bb1@) =~= predicated(ob, ii as int));
    }
}

#[verifier::spinoff_prover]
fn fold_into_kernel(body: &Vec<Bundle>, ii: usize) -> (ker: Vec<Bundle>)
    requires
        ii > 0,
    ensures
        bundles_view(ker@) == kernel(bundles_view(body@), ii as int, body@.len() as int),
{
    let ghost bs = bundles_view(body@);
    let mut ker: Vec<Bundle> = Vec::new();
    let mut j: usize = 0;
    while j < ii
        invariant
            j <= ii,
            ker@.len() == j,
            bundles_view(ker@) == Seq::new(j as nat, |x: int| empty_bundle()),
        decreases ii - j,
    {
        let nb = Bundle::new();
        let ghost old_k = ker@;
        ker.push(nb);
        proof {
            assert forall|x: int| 0 <= x < j implies #[trigger] ker@[x]@ == empty_bundle() by {
                assert(ker@[x] == old_k[x]);
                assert(bundles_view(old_k)[x] == empty_bundle());
            }
            assert(ker@[j as int]@ == empty_bundle());
            assert(bundles_view(ker@) =~= Seq::new((j + 1) as nat, |x: int| empty_bundle()));
        }
        j = j + 1;
    }
    let mut rel: usize = 0;
    while rel < body.len()
        invariant
            ii > 0,
            rel <= body@.len(),
            bs == bundles_view(body@),
            ker@.len() == ii,
            bundles_view(ker@) == kernel(bs, ii as int, rel as int),
        decreases body@.len() - rel,
    {
        let ghost before = bundles_view(ker@);
        let ghost bd = bs[rel as int];
        let mut k: usize = 0;
        while k < 5
            invariant
                ii > 0,
                rel < body@.len(),
                bs == bundles_view(body@),
                bd == bs[rel as int],
                ker@.len() == ii,
                k <= 5,
                bundles_view(ker@) == fold_bundle(before, bd, rel as int, ii as int, k as int),
            decreases 5 - k,
        {
            let u = ExecUnit::from_idx(k);
            let ghost cur = bundles_view(ker@);
            match body[rel].get(u) {
                Some(ins) => {
                    let d = if ins.opcode == Opcode::LoopPip {
                        ii - 1
                    } else {
                        rel % ii
                    };
                    let c = ins.clone();
                    ker[d].set(u, c);
                    proof {
                        assert(bundles_view(ker@) =~= cur.update(d as int, cur[d as int].update(k as int, Some(c@))));
                    }
                },
                None => {},
            }
            k = k + 1;
        }
        rel = rel + 1;
    }
    ker
}

/// Retargets `loop.pip` in the kernel to `start`.
fn retarget(ker: &mut Vec<Bundle>, start: usize)
    ensures
        bundles_view(final(ker)@) == retargeted(bundles_view(old(ker)@), start as int),
{
    let ghost ob = bundles_view(ker@);
    let mut i: usize = 0;
    while i < ker.len()
        invariant
            i <= ker@.len(),
            ker@.len() == ob.len(),
            forall|b: int|
                0 <= b < ker@.len() ==> (#[trigger] ker@[b])@ == if b < i {
                    retargeted(ob, start as int)[b]
                } else {
                    ob[b]
                },
        decreases ker@.len() - i,
    {
        proof {
            lemma_bundle_len(&ker@[i as int]);
        }
        let ghost before_v = ker@;
        let new: Option<Instruction> = match ker[i].get(ExecUnit::Branch) {
            Some(lp) => if lp.opcode == Opcode::LoopPip {
                let mut c = lp.clone();
                c.label = Some(start);
                Some(c)
            } else {
                None
            },
            None => None,
        };
        match new {
            Some(c) => {
                ker[i].set(ExecUnit::Branch, c);
            },
            None => {},
        }
        proof {
            assert(ker@[i as int]@ =~= retargeted(ob, start as int)[i as int]);
            assert forall|b: int| 0 <= b < ker@.len() && b != i implies #[trigger] ker@[b] == before_v[b] by {}
        }
        i = i + 1;
    }
    proof {
        assert(bundles_view(ker@) =~= retargeted(ob, start as int));
    }
}

/// Predicates the body by stage, folds it into an II-bundle kernel, sets up
/// `EC` and `p32` before the loop and retargets `loop.pip`.
#[verifier::spinoff_prover]
pub fn prepare(schedule: &mut Schedule, program: &Program)
    requires
        old(schedule)@.bb1.len() < i64::MAX,
        old(schedule)@.bb1.len() + old(schedule)@.ii <= usize::MAX,
        old(schedule)@.bb0.len() + 2 < usize::MAX,
    ensures
        final(schedule)@ == prepared(old(schedule)@),
{
    let ghost s0 = schedule@;
    if schedule.bb1.len() == 0 || schedule.ii == 0 {
        return;
    }
    let ii = schedule.ii;
    let stages = (schedule.bb1.len() + ii - 1) / ii;
    proof {
        let l = schedule.bb1@.len() as int;
        assert(1 <= stages <= l) by (nonlinear_arith)
            requires
                stages == (l + ii - 1) / (ii as int),
                l >= 1,
                ii >= 1,
        {
            assert((l + ii - 1) / (ii as int) >= 1);
        }
    }
    predicate_body(&mut schedule.bb1, ii);
    let ker = fold_into_kernel(&schedule.bb1, ii);
    let ghost pv = predicated(s0.bb1, ii as int);
    assert(bundles_view(ker@) == kernel(pv, ii as int, pv.len() as int));
    let ec_imm: i64 = (stages as i64) - 1;
    let mov_p = Instruction {
        id: usize::MAX - 1,
        opcode: Opcode::MovPred,
        pred: None,
        dest_reg: None,
        dest_pred: Some(32),
        dest_special: None,
        src_regs: Vec::new(),
        imm: None,
        imm_bool: Some(true),
        label: None,
    };
    let mov_e = Instruction {
        id: usize::MAX - 2,
        opcode: Opcode::MovEC,
        pred: None,
        dest_reg: None,
        dest_pred: None,
        dest_special: Some(SpecialReg::EC),
        src_regs: Vec::new(),
        imm: Some(ec_imm),
        imm_bool: None,
        label: None,
    };
    assert(mov_p@ == mov_p32()) by {
        assert(mov_p@.src_regs =~= seq![]);
    }
    assert(mov_e@ == mov_ec(stages as int)) by {
        assert(mov_e@.src_regs =~= seq![]);
    }
    let ghost b_in = bundles_view(schedule.bb0@);
    if schedule.bb0.len() == 0 {
        schedule.bb0.push(Bundle::new());
    }
    let ghost b = bundles_view(schedule.bb0@);
    proof {
        if b_in.len() == 0 {
            assert(b =~= seq![empty_bundle()]);
        }
    }
    let n = schedule.bb0.len() - 1;
    proof {
        lemma_bundle_len(&schedule.bb0@[n as int]);
    }
    let f0 = schedule.bb0[n].is_free(ExecUnit::Alu0);
    let f1 = schedule.bb0[n].is_free(ExecUnit::Alu1);
    if f0 && f1 {
        schedule.bb0[n].set(ExecUnit::Alu0, mov_e);
        schedule.bb0[n].set(ExecUnit::Alu1, mov_p);
        proof {
            assert(bundles_view(schedule.bb0@) =~= prologue(b_in, stages as int));
        }
    } else if f0 || f1 {
        if f0 {
            schedule.bb0[n].set(ExecUnit::Alu0, mov_e);
        } else {
            schedule.bb0[n].set(ExecUnit::Alu1, mov_e);
        }
        let mut nb = Bundle::new();
        nb.set(ExecUnit::Alu0, mov_p);
        schedule.bb0.push(nb);
        proof {
            assert(bundles_view(schedule.bb0@) =~= prologue(b_in, stages as int));
        }
    } else {
        let mut nb = Bundle::new();
        nb.set(ExecUnit::Alu0, mov_p);
        nb.set(ExecUnit::Alu1, mov_e);
        schedule.bb0.push(nb);
        proof {
            assert(bundles_view(schedule.bb0@) =~= prologue(b_in, stages as int));
        }
    }
    let start = schedule.bb0.len();
    let mut ker = ker;
    retarget(&mut ker, start);
    schedule.bb1 = ker;
    proof {
        assert(schedule@.bb2 == s0.bb2);
        assert(schedule@ == prepared(s0));
    }
}

/// Every instruction of the block but `loop.pip` is predicated on p32 or above.
pub open spec fn stage_predicated(bs: Seq<Seq<Option<Instr>>>) -> bool {
    forall|b: int, k: int|
        0 <= b < bs.len() && 0 <= k < bs[b].len() && (#[trigger] bs[b][k]) is Some ==> {
            let i = bs[b][k]->0;
            i.opcode == Opcode::LoopPip || (i.pred matches Some(q) && q >= 32)
        }
}

proof fn lemma_fold_bundle(ker: Seq<Seq<Option<Instr>>>, bd: Seq<Option<Instr>>, rel: int, ii: int, k: int)
    requires
        ii > 0,
        rel >= 0,
        0 <= k <= 5,
        bd.len() == 5,
        ker.len() == ii,
        shaped(ker),
        stage_predicated(ker),
        forall|kk: int| 0 <= kk < 5 && (#[trigger] bd[kk]) is Some ==> (bd[kk]->0.opcode == Opcode::LoopPip || (
        bd[kk]->0.pred matches Some(q) && q >= 32)),
    ensures
        fold_bundle(ker, bd, rel, ii, k).len() == ii,
        shaped(fold_bundle(ker, bd, rel, ii, k)),
        stage_predicated(fold_bundle(ker, bd, rel, ii, k)),
    decreases k,
{
    if k > 0 {
        lemma_fold_bundle(ker, bd, rel, ii, k - 1);
        let ker1 = fold_bundle(ker, bd, rel, ii, k - 1);
        if let Some(i) = bd[k - 1] {
            let d = kernel_slot(i, rel, ii);
            let ker2 = ker1.update(d, ker1[d].update(k - 1, Some(i)));
            assert(0 <= d < ii);
            assert forall|b: int| 0 <= b < ker2.len() implies (#[trigger] ker2[b]).len() == 5 by {}
            assert forall|b: int, kk: int|
                0 <= b < ker2.len() && 0 <= kk < ker2[b].len() && (#[trigger] ker2[b][kk]) is Some implies ({
                    let j = ker2[b][kk]->0;
                    j.opcode == Opcode::LoopPip || (j.pred matches Some(q) && q >= 32)
                }) by {
                if b == d && kk == k - 1 {
                } else {
                    assert(ker2[b][kk] == ker1[b][kk]);
                }
            }
        }
    }
}

proof fn lemma_kernel(bs: Seq<Seq<Option<Instr>>>, ii: int, r: int)
    requires
        ii > 0,
        0 <= r <= bs.len(),
        shaped(bs),
        stage_predicated(bs),
    ensures
        kernel(bs, ii, r).len() == ii,
        shaped(kernel(bs, ii, r)),
        stage_predicated(kernel(bs, ii, r)),
    decreases r,
{
    if r > 0 {
        lemma_kernel(bs, ii, r - 1);
        assert forall|kk: int| 0 <= kk < 5 && (#[trigger] bs[r - 1][kk]) is Some implies (bs[r - 1][kk]->0.opcode == Opcode::LoopPip || (
        bs[r - 1][kk]->0.pred matches Some(q) && q >= 32)) by {}
        lemma_fold_bundle(kernel(bs, ii, r - 1), bs[r - 1], r - 1, ii, 5);
    } else {
        let e = Seq::new(ii as nat, |x: int| empty_bundle());
        assert forall|b: int| 0 <= b < e.len() implies (#[trigger] e[b]).len() == 5 by {}
    }
}

/// The prepared body is an II-bundle kernel in which every instruction but
/// `loop.pip` is predicated on a stage predicate (p32 or above) and
/// `loop.pip` jumps to the first kernel bundle; BB2 and II are unchanged.
pub proof fn lemma_prepared_shape(s: Sched)
    requires
        s.bb1.len() > 0,
        s.ii > 0,
        shaped(s.bb1),
    ensures
        prepared(s).bb1.len() == s.ii,
        prepared(s).bb2 == s.bb2,
        prepared(s).ii == s.ii,
        stage_predicated(prepared(s).bb1),
        forall|b: int|
            0 <= b < prepared(s).bb1.len() ==> (#[trigger] prepared(s).bb1[b][4] matches Some(i) ==> (i.opcode
                == Opcode::LoopPip ==> i.label == Some(prepared(s).bb0.len() as usize))),
{
    let ii = s.ii as int;
    let p = predicated(s.bb1, ii);
    assert forall|b: int| 0 <= b < p.len() implies (#[trigger] p[b]).len() == 5 by {}
    assert forall|b: int, k: int|
        0 <= b < p.len() && 0 <= k < p[b].len() && (#[trigger] p[b][k]) is Some implies ({
            let i = p[b][k]->0;
            i.opcode == Opcode::LoopPip || (i.pred matches Some(q) && q >= 32)
        }) by {
        assert(stage_pred(b / ii) >= 32);
    }
    lemma_kernel(p, ii, p.len() as int);
    let ker = kernel(p, ii, p.len() as int);
    let t = prepared(s);
    let start = t.bb0.len() as int;
    assert forall|b: int, k: int|
        0 <= b < t.bb1.len() && 0 <= k < t.bb1[b].len() && (#[trigger] t.bb1[b][k]) is Some implies ({
            let i = t.bb1[b][k]->0;
            i.opcode == Opcode::LoopPip || (i.pred matches Some(q) && q >= 32)
        }) by {
        if k != 4 {
            assert(t.bb1[b][k] == ker[b][k]);
        } else {
            assert(ker[b][4] is Some);
        }
    }
}

/// Preparing a body sets the loop up in BB0: an ALU slot holds
/// `mov p32, true` and an ALU slot holds `mov EC, #stages - 1`, neither
/// predicated; every instruction BB0 held stays where it was, and BB0 grows
/// by at most one bundle beyond the one an empty BB0 gets.
pub proof fn lemma_prologue_sets_up(s: Sched)
    requires
        s.bb1.len() > 0,
        s.ii > 0,
        shaped(s.bb0),
    ensures
        ({
            let b0 = prepared(s).bb0;
            let ec = (s.bb1.len() + s.ii - 1) / (s.ii as int) - 1;
            &&& exists|b: int, k: int|
                0 <= b < b0.len() && 0 <= k < 2 && (#[trigger] b0[b][k] matches Some(i) && i.opcode == Opcode::MovPred
                    && i.dest_pred == Some(32u8) && i.imm_bool == Some(true) && i.pred is None)
            &&& exists|b: int, k: int|
                0 <= b < b0.len() && 0 <= k < 2 && (#[trigger] b0[b][k] matches Some(i) && i.opcode == Opcode::MovEC
                    && i.dest_special == Some(SpecialReg::EC) && i.imm == Some(ec as i64) && i.pred is None)
            &&& s.bb0.len() <= b0.len() <= (if s.bb0.len() == 0 { 1 } else { s.bb0.len() as int }) + 1
            &&& forall|b: int, k: int| 0 <= b < s.bb0.len() && 0 <= k < 5 && (#[trigger] s.bb0[b][k]) is Some ==> b0[b][k] == s.bb0[b][k]
        }),
{
    let stages = stages_of(s.bb1.len() as int, s.ii as int);
    let b0 = prepared(s).bb0;
    assert(b0 == prologue(s.bb0, stages));
    let b = if s.bb0.len() == 0 {
        seq![empty_bundle()]
    } else {
        s.bb0
    };
    let n = b.len() - 1;
    let last = b[n];
    assert(last.len() == 5);
    let f0 = last[0] is None;
    let f1 = last[1] is None;
    if f0 && f1 {
        assert(b0[n][1] == Some(mov_p32()));
        assert(b0[n][0] == Some(mov_ec(stages)));
    } else if f0 || f1 {
        let u = if f0 { 0int } else { 1int };
        assert(b0[n + 1][0] == Some(mov_p32()));
        assert(b0[n][u] == Some(mov_ec(stages)));
    } else {
        assert(b0[n + 1][0] == Some(mov_p32()));
        assert(b0[n + 1][1] == Some(mov_ec(stages)));
    }
    assert forall|bb: int, k: int| 0 <= bb < s.bb0.len() && 0 <= k < 5 && (#[trigger] s.bb0[bb][k]) is Some implies b0[bb][k] == s.bb0[bb][k] by {
        assert(b[bb] == s.bb0[bb]);
    }
}

/// No two instructions of the body fold into the same kernel slot.
pub open spec fn kernel_disjoint(bs: Seq<Seq<Option<Instr>>>, ii: int) -> bool {
    forall|r1: int, r2: int, k: int|
        0 <= r1 < r2 < bs.len() && 0 <= k < 5 && (#[trigger] bs[r1][k]) is Some && (#[trigger] bs[r2][k]) is Some
            ==> kernel_slot(bs[r1][k]->0, r1, ii) != kernel_slot(bs[r2][k]->0, r2, ii)
}

proof fn lemma_fold_bundle_at(ker: Seq<Seq<Option<Instr>>>, bd: Seq<Option<Instr>>, rel: int, ii: int, k: int)
    requires
        ii > 0,
        rel >= 0,
        0 <= k <= 5,
        bd.len() == 5,
        ker.len() == ii,
        shaped(ker),
    ensures
        fold_bundle(ker, bd, rel, ii, k).len() == ii,
        shaped(fold_bundle(ker, bd, rel, ii, k)),
        forall|d: int, kk: int|
            0 <= d < ii && 0 <= kk < 5 ==> #[trigger] fold_bundle(ker, bd, rel, ii, k)[d][kk] == if kk < k && (bd[kk] matches Some(i)
                && kernel_slot(i, rel, ii) == d) {
                bd[kk]
            } else {
                ker[d][kk]
            },
    decreases k,
{
    if k > 0 {
        lemma_fold_bundle_at(ker, bd, rel, ii, k - 1);
        let ker1 = fold_bundle(ker, bd, rel, ii, k - 1);
        if let Some(i) = bd[k - 1] {
            let d2 = kernel_slot(i, rel, ii);
            assert(0 <= d2 < ii);
            let ker2 = ker1.update(d2, ker1[d2].update(k - 1, Some(i)));
            assert forall|b: int| 0 <= b < ker2.len() implies (#[trigger] ker2[b]).len() == 5 by {}
            assert forall|d: int, kk: int| 0 <= d < ii && 0 <= kk < 5 implies #[trigger] ker2[d][kk] == if kk < k && (bd[kk] matches Some(j)
                && kernel_slot(j, rel, ii) == d) {
                bd[kk]
            } else {
                ker[d][kk]
            } by {
                if !(d == d2 && kk == k - 1) {
                    assert(ker2[d][kk] == ker1[d][kk]);
                }
            }
        }
    }
}

proof fn lemma_kernel_at(bs: Seq<Seq<Option<Instr>>>, ii: int, r: int)
    requires
        ii > 0,
        0 <= r <= bs.len(),
        shaped(bs),
        kernel_disjoint(bs, ii),
    ensures
        kernel(bs, ii, r).len() == ii,
        shaped(kernel(bs, ii, r)),
        forall|r2: int, kk: int|
            0 <= r2 < r && 0 <= kk < 5 && (#[trigger] bs[r2][kk]) is Some ==> kernel(bs, ii, r)[kernel_slot(bs[r2][kk]->0, r2, ii)][kk]
                == bs[r2][kk],
    decreases r,
{
    if r > 0 {
        lemma_kernel_at(bs, ii, r - 1);
        let k0 = kernel(bs, ii, r - 1);
        lemma_fold_bundle_at(k0, bs[r - 1], r - 1, ii, 5);
        let k1 = kernel(bs, ii, r);
        assert forall|r2: int, kk: int|
            0 <= r2 < r && 0 <= kk < 5 && (#[trigger] bs[r2][kk]) is Some implies k1[kernel_slot(bs[r2][kk]->0, r2, ii)][kk] == bs[r2][kk] by {
            let d = kernel_slot(bs[r2][kk]->0, r2, ii);
            assert(0 <= d < ii);
            assert(k1[d][kk] == fold_bundle(k0, bs[r - 1], r - 1, ii, 5)[d][kk]);
            if r2 < r - 1 && bs[r - 1][kk] is Some {
                assert(kernel_slot(bs[r2][kk]->0, r2, ii) != kernel_slot(bs[r - 1][kk]->0, r - 1, ii));
            }
        }
    } else {
        let e = Seq::new(ii as nat, |x: int| empty_bundle());
        assert forall|b: int| 0 <= b < e.len() implies (#[trigger] e[b]).len() == 5 by {}
    }
}

/// Every body instruction but `loop.pip` lands, predicated on its stage,
/// in the kernel bundle of its body bundle modulo II and in the same unit:
/// the instruction of body bundle `r` runs in kernel bundle `r mod II`
/// under p(32 + ⌊r / II⌋) (for stages below 224, where the register exists),
/// provided no two body instructions share a unit in congruent bundles.
pub proof fn lemma_body_folds_predicated(s: Sched)
    requires
        s.bb1.len() > 0,
        s.ii > 0,
        shaped(s.bb1),
        kernel_disjoint(s.bb1, s.ii as int),
    ensures
        forall|r: int, k: int|
            0 <= r < s.bb1.len() && 0 <= k < 5 && (#[trigger] s.bb1[r][k] matches Some(i) && i.opcode != Opcode::LoopPip)
                ==> prepared(s).bb1[r % (s.ii as int)][k] == Some(Instr { pred: Some(stage_pred(r / (s.ii as int))), ..s.bb1[r][k]->0 }),
        forall|stage: int| 0 <= stage < 224 ==> #[trigger] stage_pred(stage) == 32 + stage,
{
    let ii = s.ii as int;
    let p = predicated(s.bb1, ii);
    assert forall|b: int| 0 <= b < p.len() implies (#[trigger] p[b]).len() == 5 by {}
    assert forall|r1: int, r2: int, k: int|
        0 <= r1 < r2 < p.len() && 0 <= k < 5 && (#[trigger] p[r1][k]) is Some && (#[trigger] p[r2][k]) is Some
            implies kernel_slot(p[r1][k]->0, r1, ii) != kernel_slot(p[r2][k]->0, r2, ii) by {
        assert(s.bb1[r1][k] is Some && s.bb1[r2][k] is Some);
    }
    lemma_kernel_at(p, ii, p.len() as int);
    let ker = kernel(p, ii, p.len() as int);
    let t = prepared(s);
    let start = t.bb0.len() as int;
    assert(t.bb1 == retargeted(ker, start));
    assert forall|r: int, k: int|
        0 <= r < s.bb1.len() && 0 <= k < 5 && (#[trigger] s.bb1[r][k] matches Some(i) && i.opcode != Opcode::LoopPip)
            implies t.bb1[r % ii][k] == Some(Instr { pred: Some(stage_pred(r / ii)), ..s.bb1[r][k]->0 }) by {
        let i = s.bb1[r][k]->0;
        assert(p[r][k] == Some(Instr { pred: Some(stage_pred(r / ii)), ..i }));
        assert(kernel_slot(p[r][k]->0, r, ii) == r % ii);
        assert(ker[r % ii][k] == p[r][k]);
        assert(0 <= r % ii < ii);
    }
}

} // verus!
