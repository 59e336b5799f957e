//! Conservation of physical registers: in every state reached from reset,
//! the free list, the register map table and the old destinations of the
//! active list together hold each of the 64 physical registers once.

use vstd::prelude::*;
use vstd::multiset::Multiset;

use crate::simulator::pipeline::{
    apply_forwarding_spec, commit, commit_faults, fetch, fwd_map, forwards_of, mark_all,
    old_destinations, recovery, rename_all, rename_fits, rename_one, rename_stage, retire_count, rollback, step,
    steps,
};
use crate::simulator::state::{reset_view, CoreView};
use crate::simulator::types::{ActiveListEntry, Forwarding, Instruction};

verus! {

broadcast use vstd::seq_lib::group_to_multiset_ensures, vstd::seq_lib::lemma_multiset_commutative;

/// The registers held by the free list, the map table and the active
/// list's old destinations.
pub open spec fn held(s: CoreView) -> Multiset<usize> {
    s.free_list.to_multiset().add(s.rmt.to_multiset()).add(old_destinations(s.active_list).to_multiset())
}

/// Each of the 64 physical registers once.
pub open spec fn all_registers() -> Multiset<usize> {
    Seq::new(64, |i: int| i as usize).to_multiset()
}

/// No entry after `i` renames the same logical register.
pub open spec fn youngest_for(al: Seq<ActiveListEntry>, i: int) -> bool {
    forall|j: int| i < j < al.len() ==> (#[trigger] al[j]).logical_destination != al[i].logical_destination
}

/// No entry strictly between `i` and `j` renames `i`'s logical register.
pub open spec fn none_between(al: Seq<ActiveListEntry>, i: int, j: int) -> bool {
    forall|k: int| i < k < j ==> (#[trigger] al[k]).logical_destination != al[i].logical_destination
}

/// The map table names the newest renaming of each logical register, and
/// each renaming's old register is the one the previous renaming of that
/// logical register took.
pub open spec fn chained(s: CoreView) -> bool {
    let al = s.active_list;
    &&& forall|i: int|
        0 <= i < al.len() && #[trigger] youngest_for(al, i) ==> s.rmt[al[i].logical_destination as int] == al[i].new_destination
    &&& forall|i: int, j: int|
        0 <= i < j < al.len() && al[i].logical_destination == al[j].logical_destination && #[trigger] none_between(al, i, j)
            ==> al[j].old_destination == al[i].new_destination
}

/// The registers are conserved and the renaming chain is intact.
pub open spec fn conserved(s: CoreView) -> bool {
    &&& held(s) == all_registers()
    &&& chained(s)
    &&& s.rmt.len() == 32
    &&& forall|i: int| 0 <= i < s.active_list.len() ==> (#[trigger] s.active_list[i]).logical_destination < 32
    &&& forall|k: int| 0 <= k < s.decoded.len() ==> (#[trigger] s.decoded[k]).wf()
}

proof fn lemma_rename_one(s: CoreView, inst: Instruction, fm: Map<usize, Forwarding>)
    requires
        conserved(s),
        inst.wf(),
        s.free_list.len() >= 1,
    ensures
        ({
            let t = rename_one(s, inst, fm);
            &&& held(t) == all_registers()
            &&& chained(t)
            &&& t.rmt.len() == 32
            &&& forall|i: int| 0 <= i < t.active_list.len() ==> (#[trigger] t.active_list[i]).logical_destination < 32
            &&& t.free_list.len() == s.free_list.len() - 1
            &&& t.decoded == s.decoded
            &&& conserved(t)
        }),
{
    let t = rename_one(s, inst, fm);
    let d = inst.dest as int;
    let old_p = s.rmt[d];
    let new_p = s.free_list[0];
    let al = s.active_list;
    let n = al.len() as int;
    assert(s.free_list.drop_first() =~= s.free_list.remove(0));
    assert(t.free_list.to_multiset() =~= s.free_list.to_multiset().remove(new_p));
    vstd::seq_lib::to_multiset_update(s.rmt, d, new_p);
    assert(old_destinations(t.active_list) =~= old_destinations(al).push(old_p));
    assert(s.free_list.to_multiset().count(new_p) >= 1) by {
        assert(s.free_list.contains(new_p)) by {
            assert(s.free_list[0] == new_p);
        }
    }
    assert(held(t) =~= held(s));
    let tl = t.active_list;
    assert forall|i: int| 0 <= i < tl.len() && #[trigger] youngest_for(tl, i) implies t.rmt[tl[i].logical_destination as int] == tl[i].new_destination by {
        if i < n {
            assert(tl[n].logical_destination != tl[i].logical_destination);
            assert(youngest_for(al, i)) by {
                assert forall|j: int| i < j < al.len() implies (#[trigger] al[j]).logical_destination != al[i].logical_destination by {
                    assert(tl[j] == al[j]);
                }
            }
        }
    }
    assert forall|i: int, j: int|
        0 <= i < j < tl.len() && tl[i].logical_destination == tl[j].logical_destination && #[trigger] none_between(tl, i, j)
            implies tl[j].old_destination == tl[i].new_destination by {
        if j == n {
            assert(youngest_for(al, i)) by {
                assert forall|k: int| i < k < al.len() implies (#[trigger] al[k]).logical_destination != al[i].logical_destination by {
                    assert(tl[k] == al[k]);
                }
            }
        } else {
            assert(none_between(al, i, j)) by {
                assert forall|k: int| i < k < j implies (#[trigger] al[k]).logical_destination != al[i].logical_destination by {
                    assert(tl[k] == al[k]);
                }
            }
        }
    }
}


proof fn lemma_rename_all(s: CoreView, insts: Seq<Instruction>, fm: Map<usize, Forwarding>)
    requires
        conserved(s),
        forall|k: int| 0 <= k < insts.len() ==> (#[trigger] insts[k]).wf(),
        s.free_list.len() >= insts.len(),
    ensures
        conserved(rename_all(s, insts, fm)),
        rename_all(s, insts, fm).decoded == s.decoded,
        rename_all(s, insts, fm).free_list.len() == s.free_list.len() - insts.len(),
    decreases insts.len(),
{
    if insts.len() > 0 {
        lemma_rename_all(s, insts.drop_last(), fm);
        lemma_rename_one(rename_all(s, insts.drop_last(), fm), insts.last(), fm);
    }
}

proof fn lemma_commit(s: CoreView)
    requires
        conserved(s),
    ensures
        conserved(commit(s)),
{
    let al = s.active_list;
    let r = retire_count(al);
    crate::simulator::pipeline::lemma_retire_bounds(al, 0);
    let c = commit(s);
    assert(old_destinations(al) =~= old_destinations(al.take(r)) + old_destinations(al.skip(r)));
    assert(old_destinations(c.active_list) == old_destinations(al.skip(r)));
    assert(held(c) =~= held(s));
    let cl = c.active_list;
    assert forall|i: int| 0 <= i < cl.len() && #[trigger] youngest_for(cl, i) implies c.rmt[cl[i].logical_destination as int] == cl[i].new_destination by {
        assert(cl[i] == al[i + r]);
        assert(youngest_for(al, i + r)) by {
            assert forall|j: int| i + r < j < al.len() implies (#[trigger] al[j]).logical_destination != al[i + r].logical_destination by {
                assert(cl[j - r] == al[j]);
            }
        }
    }
    assert forall|i: int, j: int|
        0 <= i < j < cl.len() && cl[i].logical_destination == cl[j].logical_destination && #[trigger] none_between(cl, i, j)
            implies cl[j].old_destination == cl[i].new_destination by {
        assert(cl[i] == al[i + r] && cl[j] == al[j + r]);
        assert(none_between(al, i + r, j + r)) by {
            assert forall|k: int| i + r < k < j + r implies (#[trigger] al[k]).logical_destination != al[i + r].logical_destination by {
                assert(cl[k - r] == al[k]);
            }
        }
    }
}

proof fn lemma_rollback(s: CoreView, k: nat)
    requires
        conserved(s),
    ensures
        conserved(rollback(s, k)),
        rollback(s, k).decoded == s.decoded,
    decreases k,
{
    let al = s.active_list;
    let n = al.len() as int;
    if k > 0 && n > 0 {
        let e = al.last();
        let l = e.logical_destination as int;
        let s1 = CoreView {
            active_list: al.drop_last(),
            rmt: s.rmt.update(l, e.old_destination),
            busy: s.busy.update(e.new_destination as int, false),
            free_list: s.free_list.push(e.new_destination),
            ..s
        };
        assert(youngest_for(al, n - 1));
        assert(s.rmt[l] == e.new_destination);
        vstd::seq_lib::to_multiset_update(s.rmt, l, e.old_destination);
        assert(s.rmt.to_multiset().count(e.new_destination) >= 1) by {
            assert(s.rmt.contains(e.new_destination)) by {
                assert(s.rmt[l] == e.new_destination);
            }
        }
        assert(old_destinations(al) =~= old_destinations(s1.active_list).push(e.old_destination));
        assert(held(s1) =~= held(s));
        let al1 = s1.active_list;
        assert forall|i: int| 0 <= i < al1.len() && #[trigger] youngest_for(al1, i) implies s1.rmt[al1[i].logical_destination as int] == al1[i].new_destination by {
            assert(al1[i] == al[i]);
            if al[i].logical_destination as int == l {
                assert(none_between(al, i, n - 1)) by {
                    assert forall|kk: int| i < kk < n - 1 implies (#[trigger] al[kk]).logical_destination != al[i].logical_destination by {
                        assert(al1[kk] == al[kk]);
                    }
                }
            } else {
                assert(youngest_for(al, i)) by {
                    assert forall|j: int| i < j < al.len() implies (#[trigger] al[j]).logical_destination != al[i].logical_destination by {
                        if j < n - 1 {
                            assert(al1[j] == al[j]);
                        }
                    }
                }
            }
        }
        assert forall|i: int, j: int|
            0 <= i < j < al1.len() && al1[i].logical_destination == al1[j].logical_destination && #[trigger] none_between(al1, i, j)
                implies al1[j].old_destination == al1[i].new_destination by {
            assert(al1[i] == al[i] && al1[j] == al[j]);
            assert(none_between(al, i, j)) by {
                assert forall|kk: int| i < kk < j implies (#[trigger] al[kk]).logical_destination != al[i].logical_destination by {
                    assert(al1[kk] == al[kk]);
                }
            }
        }
        assert forall|i: int| 0 <= i < al1.len() implies (#[trigger] al1[i]).logical_destination < 32 by {
            assert(al1[i] == al[i]);
        }
        assert(conserved(s1));
        lemma_rollback(s1, (k - 1) as nat);
        assert(rollback(s, k) == rollback(s1, (k - 1) as nat));
    }
}

proof fn lemma_first_pc_bounds(al: Seq<ActiveListEntry>, pc: u64, k: int)
    requires
        0 <= k,
    ensures
        k <= crate::simulator::pipeline::first_pc_from(al, pc, k) || k > al.len(),
        crate::simulator::pipeline::first_pc_from(al, pc, k) >= 0,
    decreases al.len() - k,
{
    if k < al.len() && al[k].pc != pc {
        lemma_first_pc_bounds(al, pc, k + 1);
    }
}

proof fn lemma_mark_all(al: Seq<ActiveListEntry>, fw: Seq<Forwarding>)
    ensures
        mark_all(al, fw).len() == al.len(),
        forall|i: int| 0 <= i < al.len() ==> {
            &&& (#[trigger] mark_all(al, fw)[i]).logical_destination == al[i].logical_destination
            &&& mark_all(al, fw)[i].old_destination == al[i].old_destination
            &&& mark_all(al, fw)[i].new_destination == al[i].new_destination
        },
    decreases fw.len(),
{
    if fw.len() > 0 {
        lemma_mark_all(al, fw.drop_last());
        let m = mark_all(al, fw.drop_last());
        let f = fw.last();
        lemma_first_pc_bounds(m, f.pc, 0);
        let k = crate::simulator::pipeline::first_pc_from(m, f.pc, 0);
        assert(mark_all(al, fw) == crate::simulator::pipeline::mark_done(m, f));
        assert forall|i: int| 0 <= i < al.len() implies {
            &&& (#[trigger] mark_all(al, fw)[i]).logical_destination == al[i].logical_destination
            &&& mark_all(al, fw)[i].old_destination == al[i].old_destination
            &&& mark_all(al, fw)[i].new_destination == al[i].new_destination
        } by {
            assert(m[i].logical_destination == al[i].logical_destination);
        }
    }
}

/// Every instruction of the program names registers below 32.
pub open spec fn program_wf(program: Seq<Instruction>) -> bool {
    forall|k: int| 0 <= k < program.len() ==> (#[trigger] program[k]).wf()
}

/// One clock cycle conserves the physical registers.
pub proof fn lemma_step_conserves(s: CoreView, program: Seq<Instruction>)
    requires
        conserved(s),
        program_wf(program),
    ensures
        conserved(step(s, program)),
{
    let t = step(s, program);
    if s.exception {
        if !s.will_clear {
            lemma_rollback(s, 4);
        }
        assert(held(t) == held(recovery(s)));
    } else {
        lemma_commit(s);
        let c = commit(s);
        if !commit_faults(s.active_list) {
            let fw = forwards_of(s.alu);
            let fm = fwd_map(fw, false);
            let r = rename_stage(c, fm, c.iq.len() as int);
            let n = c.decoded.len() as int;
            if n > 0 && rename_fits(c, n, c.iq.len() as int) {
                lemma_rename_all(c, c.decoded, fm);
            }
            assert(conserved(r.0));
            let f = fetch(r.0, program, !r.1);
            assert(conserved(f));
            let a = apply_forwarding_spec(f, fw);
            lemma_mark_all(f.active_list, fw);
            assert(old_destinations(a.active_list) =~= old_destinations(f.active_list));
            assert(held(a) == held(f));
            assert(youngest_for(a.active_list, 0) == youngest_for(a.active_list, 0));
            let fl = f.active_list;
            let ml = a.active_list;
            assert(ml == mark_all(fl, fw));
            assert forall|i: int| 0 <= i < ml.len() && #[trigger] youngest_for(ml, i) implies a.rmt[ml[i].logical_destination as int] == ml[i].new_destination by {
                assert(mark_all(fl, fw)[i].logical_destination == fl[i].logical_destination);
                assert(youngest_for(fl, i)) by {
                    assert forall|j: int| i < j < fl.len() implies (#[trigger] fl[j]).logical_destination != fl[i].logical_destination by {
                        assert(mark_all(fl, fw)[j].logical_destination == fl[j].logical_destination);
                    }
                }
            }
            assert forall|i: int, j: int|
                0 <= i < j < ml.len() && ml[i].logical_destination == ml[j].logical_destination
                    && #[trigger] none_between(ml, i, j) implies ml[j].old_destination == ml[i].new_destination by {
                assert(mark_all(fl, fw)[i].logical_destination == fl[i].logical_destination);
                assert(mark_all(fl, fw)[j].logical_destination == fl[j].logical_destination);
                assert(none_between(fl, i, j)) by {
                    assert forall|kk: int| i < kk < j implies (#[trigger] fl[kk]).logical_destination != fl[i].logical_destination by {
                        assert(mark_all(fl, fw)[kk].logical_destination == fl[kk].logical_destination);
                    }
                }
            }
            assert forall|i: int| 0 <= i < ml.len() implies (#[trigger] ml[i]).logical_destination < 32 by {
                assert(mark_all(fl, fw)[i].logical_destination == fl[i].logical_destination);
            }
            assert(held(t) == held(a));
        }
    }
}

/// The reset state conserves the physical registers.
pub proof fn lemma_reset_conserves()
    ensures
        conserved(reset_view()),
{
    let s = reset_view();
    assert(old_destinations(s.active_list) =~= Seq::<usize>::empty());
    assert(s.rmt + s.free_list =~= Seq::new(64, |i: int| i as usize));
    assert(held(s) =~= (s.rmt + s.free_list).to_multiset());
}

/// In every state `k` cycles after reset, the free list, the map table and
/// the old destinations of the active list hold each of the 64 physical
/// registers exactly once.
pub proof fn lemma_registers_conserved(program: Seq<Instruction>, k: nat)
    requires
        program_wf(program),
    ensures
        held(steps(reset_view(), program, k)) == all_registers(),
{
    lemma_reset_conserves();
    lemma_steps_conserve(reset_view(), program, k);
}

proof fn lemma_steps_conserve(s: CoreView, program: Seq<Instruction>, k: nat)
    requires
        conserved(s),
        program_wf(program),
    ensures
        conserved(steps(s, program, k)),
    decreases k,
{
    if k > 0 {
        lemma_step_conserves(s, program);
        lemma_steps_conserve(step(s, program), program, (k - 1) as nat);
    }
}

} // verus!
