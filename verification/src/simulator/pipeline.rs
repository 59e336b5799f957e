//! One clock cycle of the core: commit, issue, rename and dispatch, fetch
//! and decode, result forwarding and the ALU pipelines, plus exception
//! recovery.

use std::collections::{HashMap, VecDeque};

use vstd::prelude::*;

use crate::simulator::state::{CoreView, ProcessorState};
use crate::simulator::types::{
    opcode_name, ActiveListEntry, AluSlot, Forwarding, Instruction, IntegerQueueEntry, IqEntry,
    OpCode, OperandB,
};

verus! {

broadcast use vstd::std_specs::hash::group_hash_axioms;

// ---------------------------------------------------------------------
// The cycle as mathematical functions
// ---------------------------------------------------------------------

/// The PC the front end jumps to when an exception is taken.
pub open spec fn exception_handler_pc() -> u64 {
    0x10000
}

/// The forwarding of an instruction leaving the second ALU stage.
pub open spec fn slot_forwarding(o: Option<AluSlot>) -> Seq<Forwarding> {
    match o {
        Some(s) => seq![
            Forwarding { pc: s.pc, dest_phys: s.dest_phys, value: s.value, exception: s.exception },
        ],
        None => seq![],
    }
}

/// Forwardings of the first `n` ALUs, in ALU order.
pub open spec fn forwards_upto(alu: Seq<Seq<Option<AluSlot>>>, n: int) -> Seq<Forwarding>
    decreases n,
{
    if n <= 0 {
        seq![]
    } else {
        forwards_upto(alu, n - 1) + slot_forwarding(alu[n - 1][1])
    }
}

/// All results on the forwarding path this cycle.
pub open spec fn forwards_of(alu: Seq<Seq<Option<AluSlot>>>) -> Seq<Forwarding> {
    forwards_upto(alu, 4)
}

/// The forwarding results keyed by destination register; a later result
/// for the same register replaces an earlier one.
pub open spec fn fwd_map(fw: Seq<Forwarding>, include_exceptions: bool) -> Map<usize, Forwarding>
    decreases fw.len(),
{
    if fw.len() == 0 {
        Map::empty()
    } else {
        let rest = fwd_map(fw.drop_last(), include_exceptions);
        let f = fw.last();
        if !include_exceptions && f.exception {
            rest
        } else {
            rest.insert(f.dest_phys, f)
        }
    }
}

/// What an ALU computes: wrapping arithmetic, and division or remainder by
/// zero raise an exception with result 0.
pub open spec fn alu_result(op: OpCode, a: u64, b: u64) -> (u64, bool) {
    match op {
        OpCode::Add => (a.wrapping_add(b), false),
        OpCode::Sub => (a.wrapping_sub(b), false),
        OpCode::Mulu => (a.wrapping_mul(b), false),
        OpCode::Divu => if b == 0 {
            (0, true)
        } else {
            ((a / b) as u64, false)
        },
        OpCode::Remu => if b == 0 {
            (0, true)
        } else {
            ((a % b) as u64, false)
        },
    }
}

/// An ALU computes the arithmetic of its opcode on 64-bit operands:
/// sums, differences and products modulo 2^64, quotients and remainders
/// rounded down, and division or remainder by zero raises an exception
/// with result 0. No other operation raises one.
pub proof fn lemma_alu_arithmetic(op: OpCode, a: u64, b: u64)
    ensures
        op == OpCode::Add ==> alu_result(op, a, b) == (((a as int + b as int) % 0x1_0000_0000_0000_0000) as u64, false),
        op == OpCode::Sub ==> alu_result(op, a, b) == (((a as int - b as int) % 0x1_0000_0000_0000_0000) as u64, false),
        op == OpCode::Mulu ==> alu_result(op, a, b) == (((a as int * b as int) % 0x1_0000_0000_0000_0000) as u64, false),
        op == OpCode::Divu ==> alu_result(op, a, b) == if b == 0 { (0u64, true) } else { ((a as int / b as int) as u64, false) },
        op == OpCode::Remu ==> alu_result(op, a, b) == if b == 0 { (0u64, true) } else { ((a as int % b as int) as u64, false) },
        alu_result(op, a, b).1 <==> ((op == OpCode::Divu || op == OpCode::Remu) && b == 0),
{
    if op == OpCode::Add {
        if a as int + b as int > u64::MAX {
            assert((a as int + b as int) % 0x1_0000_0000_0000_0000 == a as int + b as int - 0x1_0000_0000_0000_0000);
        } else {
            assert((a as int + b as int) % 0x1_0000_0000_0000_0000 == a as int + b as int);
        }
    }
    if op == OpCode::Sub {
        if a < b {
            assert((a as int - b as int) % 0x1_0000_0000_0000_0000 == a as int - b as int + 0x1_0000_0000_0000_0000);
        } else {
            assert((a as int - b as int) % 0x1_0000_0000_0000_0000 == a as int - b as int);
        }
    }
}

/// How many active-list entries commit, starting at position `k`: entries
/// retire in order while they are done without exception, four at most.
pub open spec fn retire_from(al: Seq<ActiveListEntry>, k: int) -> int
    decreases 4 - k,
{
    if k >= 4 || k >= al.len() || !al[k].done || al[k].exception {
        k
    } else {
        retire_from(al, k + 1)
    }
}

pub open spec fn retire_count(al: Seq<ActiveListEntry>) -> int {
    retire_from(al, 0)
}

/// Commit stops at a completed instruction that raised an exception.
pub open spec fn commit_faults(al: Seq<ActiveListEntry>) -> bool {
    let r = retire_count(al);
    r < 4 && r < al.len() && al[r].done && al[r].exception
}

/// The old destinations of the given entries, in order.
pub open spec fn old_destinations(al: Seq<ActiveListEntry>) -> Seq<usize> {
    al.map_values(|e: ActiveListEntry| e.old_destination)
}

/// Commit: the retiring entries leave the active list and their old
/// physical registers return to the free list.
pub open spec fn commit(s: CoreView) -> CoreView {
    let r = retire_count(s.active_list);
    CoreView {
        active_list: s.active_list.skip(r),
        free_list: s.free_list + old_destinations(s.active_list.take(r)),
        ..s
    }
}

/// Taking an exception: the faulting instruction becomes the exception PC,
/// the front end is redirected, and the queue and ALUs are flushed.
pub open spec fn enter_exception(c: CoreView) -> CoreView {
    CoreView {
        exception: true,
        exception_pc: if c.active_list.len() > 0 { c.active_list[0].pc } else { 0 },
        will_clear: false,
        pc: exception_handler_pc(),
        decoded_pcs: seq![],
        decoded: seq![],
        iq: seq![],
        alu: Seq::new(4, |a: int| seq![None::<AluSlot>, None::<AluSlot>]),
        ..c
    }
}

/// An operand is ready if its value is held or is being forwarded.
pub open spec fn entry_ready(e: IqEntry, fm: Map<usize, Forwarding>) -> bool {
    (e.op_a_is_ready || fm.contains_key(e.op_a_reg_tag)) && (e.op_b_is_ready || fm.contains_key(
        e.op_b_reg_tag,
    ))
}

/// Indices `< n` of ready integer-queue entries, in queue order.
pub open spec fn ready_upto(iq: Seq<IqEntry>, fm: Map<usize, Forwarding>, n: int) -> Seq<int>
    decreases n,
{
    if n <= 0 {
        seq![]
    } else if entry_ready(iq[n - 1], fm) {
        ready_upto(iq, fm, n - 1).push(n - 1)
    } else {
        ready_upto(iq, fm, n - 1)
    }
}

/// Inserts index `x` into a PC-sorted list after every entry whose PC is
/// not larger (so equal PCs keep queue order).
pub open spec fn insert_by_pc(iq: Seq<IqEntry>, x: int, s: Seq<int>) -> Seq<int>
    decreases s.len(),
{
    if s.len() == 0 {
        seq![x]
    } else if iq[s.last()].pc <= iq[x].pc {
        s.push(x)
    } else {
        insert_by_pc(iq, x, s.drop_last()).push(s.last())
    }
}

/// Stable sort of queue indices by PC.
pub open spec fn sort_by_pc(iq: Seq<IqEntry>, s: Seq<int>) -> Seq<int>
    decreases s.len(),
{
    if s.len() == 0 {
        s
    } else {
        insert_by_pc(iq, s.last(), sort_by_pc(iq, s.drop_last()))
    }
}

/// The queue entries that issue: the (at most four) oldest ready ones.
pub open spec fn issue_order(iq: Seq<IqEntry>, fm: Map<usize, Forwarding>) -> Seq<int> {
    let sorted = sort_by_pc(iq, ready_upto(iq, fm, iq.len() as int));
    if sorted.len() > 4 {
        sorted.take(4)
    } else {
        sorted
    }
}

/// The value of an operand at issue: held in the entry, or forwarded.
pub open spec fn issue_operand(ready: bool, value: u64, tag: usize, fm: Map<usize, Forwarding>) -> u64 {
    if ready {
        value
    } else {
        fm[tag].value
    }
}

/// What an issued entry puts into the first stage of its ALU.
pub open spec fn issue_slot(e: IqEntry, fm: Map<usize, Forwarding>) -> AluSlot {
    let a = issue_operand(e.op_a_is_ready, e.op_a_value, e.op_a_reg_tag, fm);
    let b = issue_operand(e.op_b_is_ready, e.op_b_value, e.op_b_reg_tag, fm);
    let r = alu_result(e.op, a, b);
    AluSlot { pc: e.pc, dest_phys: e.dest_register, value: r.0, exception: r.1 }
}

/// An issued multiply carries the product of its operand values modulo
/// 2^64 to its destination and raises no exception.
pub proof fn lemma_issued_multiply(e: IqEntry, fm: Map<usize, Forwarding>)
    requires
        e.op == OpCode::Mulu,
    ensures
        ({
            let a = issue_operand(e.op_a_is_ready, e.op_a_value, e.op_a_reg_tag, fm);
            let b = issue_operand(e.op_b_is_ready, e.op_b_value, e.op_b_reg_tag, fm);
            let slot = issue_slot(e, fm);
            &&& slot.value as int == (a as int * b as int) % 0x1_0000_0000_0000_0000
            &&& !slot.exception
            &&& slot.dest_phys == e.dest_register
        }),
{
    let a = issue_operand(e.op_a_is_ready, e.op_a_value, e.op_a_reg_tag, fm);
    let b = issue_operand(e.op_b_is_ready, e.op_b_value, e.op_b_reg_tag, fm);
    lemma_alu_arithmetic(e.op, a, b);
}

pub open spec fn issued_slots(iq: Seq<IqEntry>, order: Seq<int>, fm: Map<usize, Forwarding>) -> Seq<
    AluSlot,
> {
    order.map_values(|i: int| issue_slot(iq[i], fm))
}

/// Reading a renamed source operand: `(ready, value)`.
pub open spec fn read_operand(s: CoreView, tag: usize, fm: Map<usize, Forwarding>) -> (bool, u64) {
    if !s.busy[tag as int] {
        (true, s.prf[tag as int])
    } else if fm.contains_key(tag) {
        (true, fm[tag].value)
    } else {
        (false, 0)
    }
}

/// The two's-complement bit pattern of an immediate.
pub open spec fn imm_bits(x: i64) -> u64 {
    if x >= 0 {
        x as u64
    } else {
        (x + 0x1_0000_0000_0000_0000) as u64
    }
}

/// Renaming one instruction: take the first free register, record the old
/// mapping in the active list and enqueue the operation.
pub open spec fn rename_one(s: CoreView, inst: Instruction, fm: Map<usize, Forwarding>) -> CoreView {
    let d = inst.dest as int;
    let old_p = s.rmt[d];
    let new_p = s.free_list[0];
    let a_tag = s.rmt[inst.op_a as int];
    let a = read_operand(s, a_tag, fm);
    let b_tag: usize = match inst.op_b {
        OperandB::Imm(_) => 0,
        OperandB::Reg(r) => s.rmt[r as int],
    };
    let b: (bool, u64) = match inst.op_b {
        OperandB::Imm(imm) => (true, imm_bits(imm)),
        OperandB::Reg(r) => read_operand(s, b_tag, fm),
    };
    CoreView {
        free_list: s.free_list.drop_first(),
        rmt: s.rmt.update(d, new_p),
        busy: s.busy.update(new_p as int, true),
        active_list: s.active_list.push(
            ActiveListEntry {
                done: false,
                exception: false,
                logical_destination: inst.dest,
                old_destination: old_p,
                pc: inst.pc,
                new_destination: new_p,
            },
        ),
        iq: s.iq.push(
            IqEntry {
                dest_register: new_p,
                op_a_is_ready: a.0,
                op_a_reg_tag: a_tag,
                op_a_value: a.1,
                op_b_is_ready: b.0,
                op_b_reg_tag: b_tag,
                op_b_value: b.1,
                pc: inst.pc,
                op: inst.op,
            },
        ),
        ..s
    }
}

/// Renaming a group of instructions in program order.
pub open spec fn rename_all(s: CoreView, insts: Seq<Instruction>, fm: Map<usize, Forwarding>) -> CoreView
    decreases insts.len(),
{
    if insts.len() == 0 {
        s
    } else {
        rename_one(rename_all(s, insts.drop_last(), fm), insts.last(), fm)
    }
}

/// Whether rename can take all `n` decoded instructions this cycle. The
/// queue occupancy is the one before issue: entries issued this cycle
/// leave the queue only at the end of the cycle.
pub open spec fn rename_fits(s: CoreView, n: int, iq_len_before_issue: int) -> bool {
    &&& s.free_list.len() >= n
    &&& s.active_list.len() + n <= 32
    &&& iq_len_before_issue + n <= 32
}

/// Rename and dispatch: all decoded instructions or none; the flag tells
/// whether they were accepted (no back-pressure).
pub open spec fn rename_stage(s: CoreView, fm: Map<usize, Forwarding>, iq_len_before_issue: int) -> (
    CoreView,
    bool,
) {
    let n = s.decoded.len() as int;
    if n == 0 {
        (s, true)
    } else if !rename_fits(s, n, iq_len_before_issue) {
        (s, false)
    } else {
        (CoreView { decoded: seq![], decoded_pcs: seq![], ..rename_all(s, s.decoded, fm) }, true)
    }
}

/// Fetch and decode: up to four instructions from the PC, unless stalled,
/// in exception mode, or past the end of the program.
pub open spec fn fetch(s: CoreView, program: Seq<Instruction>, backpressure: bool) -> CoreView {
    if backpressure || s.exception || s.pc >= program.len() {
        s
    } else {
        let k = if program.len() - s.pc >= 4 {
            4
        } else {
            program.len() - s.pc
        };
        let insts = program.subrange(s.pc as int, s.pc + k);
        CoreView {
            decoded: insts,
            decoded_pcs: insts.map_values(|i: Instruction| i.pc),
            pc: (s.pc + k) as u64,
            ..s
        }
    }
}

/// Writing forwarded results to the register file and clearing busy bits.
pub open spec fn write_results(prf: Seq<u64>, busy: Seq<bool>, fw: Seq<Forwarding>) -> (
    Seq<u64>,
    Seq<bool>,
)
    decreases fw.len(),
{
    if fw.len() == 0 {
        (prf, busy)
    } else {
        let r = write_results(prf, busy, fw.drop_last());
        let f = fw.last();
        if f.exception {
            r
        } else {
            (r.0.update(f.dest_phys as int, f.value), r.1.update(f.dest_phys as int, false))
        }
    }
}

/// The first active-list position at or after `k` holding the given PC,
/// or the length of the list if there is none.
pub open spec fn first_pc_from(al: Seq<ActiveListEntry>, pc: u64, k: int) -> int
    decreases al.len() - k,
{
    if k >= al.len() {
        al.len() as int
    } else if al[k].pc == pc {
        k
    } else {
        first_pc_from(al, pc, k + 1)
    }
}

/// A result marks the first active-list entry with its PC as done, and as
/// excepting if it raised an exception.
pub open spec fn mark_done(al: Seq<ActiveListEntry>, f: Forwarding) -> Seq<ActiveListEntry> {
    let k = first_pc_from(al, f.pc, 0);
    if k < al.len() {
        al.update(
            k,
            ActiveListEntry { done: true, exception: al[k].exception || f.exception, ..al[k] },
        )
    } else {
        al
    }
}

pub open spec fn mark_all(al: Seq<ActiveListEntry>, fw: Seq<Forwarding>) -> Seq<ActiveListEntry>
    decreases fw.len(),
{
    if fw.len() == 0 {
        al
    } else {
        mark_done(mark_all(al, fw.drop_last()), fw.last())
    }
}

/// A result wakes up the waiting operands that carry its register tag.
pub open spec fn wake_entry(e: IqEntry, f: Forwarding) -> IqEntry {
    let a = !e.op_a_is_ready && e.op_a_reg_tag == f.dest_phys;
    let b = !e.op_b_is_ready && e.op_b_reg_tag == f.dest_phys;
    IqEntry {
        op_a_is_ready: e.op_a_is_ready || a,
        op_a_value: if a {
            f.value
        } else {
            e.op_a_value
        },
        op_b_is_ready: e.op_b_is_ready || b,
        op_b_value: if b {
            f.value
        } else {
            e.op_b_value
        },
        ..e
    }
}

/// Results that raised an exception wake nothing.
pub open spec fn wake_all(iq: Seq<IqEntry>, fw: Seq<Forwarding>) -> Seq<IqEntry>
    decreases fw.len(),
{
    if fw.len() == 0 {
        iq
    } else {
        let r = wake_all(iq, fw.drop_last());
        let f = fw.last();
        if f.exception {
            r
        } else {
            r.map_values(|e: IqEntry| wake_entry(e, f))
        }
    }
}

pub open spec fn apply_forwarding_spec(s: CoreView, fw: Seq<Forwarding>) -> CoreView {
    let w = write_results(s.prf, s.busy, fw);
    CoreView {
        prf: w.0,
        busy: w.1,
        active_list: mark_all(s.active_list, fw),
        iq: wake_all(s.iq, fw),
        ..s
    }
}

/// The ALUs advance: stage one moves to stage two, and the issued
/// instructions enter stage one of ALUs 0, 1, ... in order.
pub open spec fn advance(alu: Seq<Seq<Option<AluSlot>>>, issued: Seq<AluSlot>) -> Seq<
    Seq<Option<AluSlot>>,
> {
    Seq::new(
        4,
        |a: int|
            seq![
                if a < issued.len() {
                    Some(issued[a])
                } else {
                    None
                },
                alu[a][0],
            ],
    )
}

/// The entries of `s` whose positions are not listed in `d`, in order.
pub open spec fn drop_indices<T>(s: Seq<T>, d: Seq<int>) -> Seq<T>
    decreases s.len(),
{
    if s.len() == 0 {
        s
    } else {
        let r = drop_indices(s.drop_last(), d);
        if d.contains(s.len() - 1) {
            r
        } else {
            r.push(s.last())
        }
    }
}

/// Rolling back up to `k` of the youngest active-list entries: restore the
/// old mapping, and free the new register.
pub open spec fn rollback(s: CoreView, k: nat) -> CoreView
    decreases k,
{
    if k == 0 || s.active_list.len() == 0 {
        s
    } else {
        let e = s.active_list.last();
        rollback(
            CoreView {
                active_list: s.active_list.drop_last(),
                rmt: s.rmt.update(e.logical_destination as int, e.old_destination),
                busy: s.busy.update(e.new_destination as int, false),
                free_list: s.free_list.push(e.new_destination),
                ..s
            },
            (k - 1) as nat,
        )
    }
}

/// Rolling back `k` entries undoes the renaming of the youngest
/// `min(k, len)` instructions: they leave the end of the active list, their
/// new registers join the free list youngest first, and each architectural
/// register they renamed maps to its previous register again (the oldest
/// of them last); nothing else changes.
pub proof fn lemma_rollback(s: CoreView, k: nat)
    requires
        s.shaped(),
    ensures
        ({
            let r = rollback(s, k);
            let n = s.active_list.len() as int;
            let m = if k < n { k as int } else { n };
            &&& r.active_list == s.active_list.subrange(0, n - m)
            &&& r.free_list.len() == s.free_list.len() + m
            &&& r.free_list.subrange(0, s.free_list.len() as int) == s.free_list
            &&& forall|j: int| 0 <= j < m ==> #[trigger] r.free_list[s.free_list.len() + j] == s.active_list[n - 1 - j].new_destination
            &&& (m > 0 && 0 <= s.active_list[n - m].logical_destination < s.rmt.len()) ==> r.rmt[s.active_list[n - m].logical_destination as int]
                == s.active_list[n - m].old_destination
            &&& r.rmt.len() == s.rmt.len()
            &&& r.busy.len() == s.busy.len()
            &&& r.pc == s.pc
            &&& r.prf == s.prf
            &&& r.iq == s.iq
            &&& r.alu == s.alu
            &&& r.decoded == s.decoded
            &&& r.exception == s.exception
            &&& r.will_clear == s.will_clear
            &&& r.shaped()
        }),
    decreases k,
{
    let n = s.active_list.len() as int;
    if k == 0 || n == 0 {
        assert(s.active_list.subrange(0, n) =~= s.active_list);
        assert(s.free_list.subrange(0, s.free_list.len() as int) =~= s.free_list);
    } else {
        let e = s.active_list.last();
        let s1 = CoreView {
            active_list: s.active_list.drop_last(),
            rmt: s.rmt.update(e.logical_destination as int, e.old_destination),
            busy: s.busy.update(e.new_destination as int, false),
            free_list: s.free_list.push(e.new_destination),
            ..s
        };
        assert(s1.shaped()) by {
            assert forall|i: int| 0 <= i < s1.free_list.len() implies #[trigger] s1.free_list[i] < 64 by {
                if i < s.free_list.len() {
                    assert(s1.free_list[i] == s.free_list[i]);
                }
            }
            assert forall|i: int| 0 <= i < 32 implies #[trigger] s1.rmt[i] < 64 by {}
            assert forall|i: int| 0 <= i < s1.active_list.len() implies {
                &&& #[trigger] s1.active_list[i].old_destination < 64
                &&& s1.active_list[i].new_destination < 64
                &&& s1.active_list[i].logical_destination < 32
            } by {
                assert(s1.active_list[i] == s.active_list[i]);
            }
        }
        lemma_rollback(s1, (k - 1) as nat);
        let r = rollback(s, k);
        assert(r == rollback(s1, (k - 1) as nat));
        let m = if k < n { k as int } else { n };
        let m1 = if k - 1 < n - 1 { k - 1 } else { n - 1 };
        assert(m1 == m - 1);
        assert(s1.active_list.subrange(0, (n - 1) - m1) =~= s.active_list.subrange(0, n - m));
        assert(r.free_list.subrange(0, s.free_list.len() as int) =~= s.free_list) by {
            assert(r.free_list.subrange(0, s1.free_list.len() as int) == s1.free_list);
            assert forall|j: int| 0 <= j < s.free_list.len() implies r.free_list[j] == s.free_list[j] by {
                assert(r.free_list.subrange(0, s1.free_list.len() as int)[j] == s1.free_list[j]);
            }
        }
        assert forall|j: int| 0 <= j < m implies #[trigger] r.free_list[s.free_list.len() + j] == s.active_list[n - 1 - j].new_destination by {
            if j == 0 {
                assert(r.free_list.subrange(0, s1.free_list.len() as int)[s.free_list.len() as int] == s1.free_list[s.free_list.len() as int]);
            } else {
                assert(r.free_list[s1.free_list.len() + (j - 1)] == s1.active_list[(n - 1) - 1 - (j - 1)].new_destination);
            }
        }
        if m == 1 {
            assert(rollback(s1, (k - 1) as nat) == s1) by {
                if k - 1 > 0 {
                    assert(s1.active_list.len() == 0);
                }
            }
        } else {
            assert(s1.active_list[(n - 1) - m1] == s.active_list[n - m]);
        }
    }
}

/// A cycle in exception mode: roll back four entries per cycle; once the
/// active list is empty, leave exception mode on the following cycle.
pub open spec fn recovery(s: CoreView) -> CoreView {
    if s.will_clear {
        CoreView { exception: false, will_clear: false, ..s }
    } else {
        let r = rollback(s, 4);
        CoreView { will_clear: r.active_list.len() == 0, ..r }
    }
}

/// One clock cycle.
pub open spec fn step(s: CoreView, program: Seq<Instruction>) -> CoreView {
    let fw = forwards_of(s.alu);
    if s.exception {
        CoreView { pc: exception_handler_pc(), ..recovery(s) }
    } else {
        let c = commit(s);
        if commit_faults(s.active_list) {
            enter_exception(c)
        } else {
            let fm = fwd_map(fw, false);
            let order = issue_order(c.iq, fm);
            let slots = issued_slots(c.iq, order, fm);
            let r = rename_stage(c, fm, c.iq.len() as int);
            let f = fetch(r.0, program, !r.1);
            let a = apply_forwarding_spec(f, fw);
            CoreView { alu: advance(a.alu, slots), iq: drop_indices(a.iq, order), ..a }
        }
    }
}

/// Exceptions are precise: when commit reaches a completed instruction that
/// faulted, every older instruction has retired, the faulting one heads the
/// active list and becomes the exception PC, fetch is redirected to the
/// handler, and the decode latch, integer queue and ALUs are flushed.
pub proof fn lemma_precise_exception(s: CoreView, program: Seq<Instruction>)
    requires
        !s.exception,
        commit_faults(s.active_list),
    ensures
        ({
            let t = step(s, program);
            let r = retire_count(s.active_list);
            &&& t.exception
            &&& !t.will_clear
            &&& t.active_list == s.active_list.skip(r)
            &&& t.active_list[0] == s.active_list[r]
            &&& t.exception_pc == s.active_list[r].pc
            &&& t.pc == exception_handler_pc()
            &&& t.decoded.len() == 0
            &&& t.decoded_pcs.len() == 0
            &&& t.iq.len() == 0
            &&& forall|a: int, k: int| 0 <= a < 4 && 0 <= k < 2 ==> (#[trigger] t.alu[a][k]) is None
        }),
{
    let r = retire_count(s.active_list);
    lemma_retire_bounds(s.active_list, 0);
    let c = commit(s);
    assert(c.active_list[0] == s.active_list[r]);
}

/// A cycle in exception mode fetches nothing and keeps the PC at the
/// handler: it rolls back the youngest four active-list entries (fewer if
/// there are fewer), and once the list is empty the next cycle leaves
/// exception mode.
pub proof fn lemma_exception_mode(s: CoreView, program: Seq<Instruction>)
    requires
        s.exception,
        s.shaped(),
    ensures
        ({
            let t = step(s, program);
            let n = s.active_list.len() as int;
            let m = if n < 4 { n } else { 4 };
            &&& t.pc == exception_handler_pc()
            &&& t.decoded == s.decoded
            &&& t.iq == s.iq
            &&& t.alu == s.alu
            &&& s.will_clear ==> !t.exception && !t.will_clear && t.active_list == s.active_list
            &&& !s.will_clear ==> t.exception && t.active_list == s.active_list.subrange(0, n - m) && (
            t.will_clear <==> n <= 4)
            &&& !s.will_clear ==> t.free_list.len() == s.free_list.len() + m
                && t.free_list.subrange(0, s.free_list.len() as int) == s.free_list
                && forall|j: int| 0 <= j < m ==> #[trigger] t.free_list[s.free_list.len() + j] == s.active_list[n - 1 - j].new_destination
            &&& t.shaped()
        }),
{
    lemma_rollback(s, 4);
}

/// `k` clock cycles.
pub open spec fn steps(s: CoreView, program: Seq<Instruction>, k: nat) -> CoreView
    decreases k,
{
    if k == 0 {
        s
    } else {
        steps(step(s, program), program, (k - 1) as nat)
    }
}

/// No entry of `al` in `[lo, i)` renames the logical register entry `i` renames.
pub open spec fn first_in(al: Seq<ActiveListEntry>, lo: int, i: int) -> bool {
    forall|j: int| lo <= j < i ==> (#[trigger] al[j]).logical_destination != al[i].logical_destination
}

/// No entry of `al` in `[lo, hi)` renames logical register `l`.
pub open spec fn untouched_in(al: Seq<ActiveListEntry>, lo: int, hi: int, l: int) -> bool {
    forall|i: int| lo <= i < hi ==> (#[trigger] al[i]).logical_destination != l
}

/// What rolling back `k` entries does to the map table and the busy bits:
/// the youngest `m = min(k, len)` entries are undone newest first, so a
/// logical register they rename ends mapped to the old register of the
/// oldest of them that renames it, the others keep their mapping, and the
/// new registers of all of them are no longer busy.
pub proof fn lemma_rollback_registers(s: CoreView, k: nat, lo: int)
    requires
        s.shaped(),
        lo == if k < s.active_list.len() { s.active_list.len() - k } else { 0 },
    ensures
        ({
            let r = rollback(s, k);
            let al = s.active_list;
            let n = al.len() as int;
            &&& forall|i: int| lo <= i < n && #[trigger] first_in(al, lo, i) ==> r.rmt[al[i].logical_destination as int] == al[i].old_destination
            &&& forall|l: int| 0 <= l < 32 && #[trigger] untouched_in(al, lo, n, l) ==> r.rmt[l] == s.rmt[l]
            &&& forall|i: int| lo <= i < n ==> !r.busy[(#[trigger] al[i]).new_destination as int]
            &&& forall|x: int| 0 <= x < 64 && !s.busy[x] ==> !#[trigger] r.busy[x]
        }),
    decreases k,
{
    let al = s.active_list;
    let n = al.len() as int;
    if k > 0 && n > 0 {
        let e = al.last();
        let s1 = CoreView {
            active_list: al.drop_last(),
            rmt: s.rmt.update(e.logical_destination as int, e.old_destination),
            busy: s.busy.update(e.new_destination as int, false),
            free_list: s.free_list.push(e.new_destination),
            ..s
        };
        lemma_rollback(s, 1);
        assert(rollback(s, 1) == rollback(s1, 0));
        assert(s1.shaped());
        lemma_rollback_registers(s1, (k - 1) as nat, lo);
        let r = rollback(s, k);
        assert(r == rollback(s1, (k - 1) as nat));
        let al1 = s1.active_list;
        let n1 = al1.len() as int;
        assert forall|i: int| lo <= i < n && #[trigger] first_in(al, lo, i) implies r.rmt[al[i].logical_destination as int] == al[i].old_destination by {
            if i < n - 1 {
                assert(al1[i] == al[i]);
                assert(first_in(al1, lo, i)) by {
                    assert forall|j: int| lo <= j < i implies (#[trigger] al1[j]).logical_destination != al1[i].logical_destination by {
                        assert(al1[j] == al[j]);
                    }
                }
            } else {
                let l = e.logical_destination as int;
                assert(untouched_in(al1, lo, n1, l)) by {
                    assert forall|j: int| lo <= j < n1 implies (#[trigger] al1[j]).logical_destination != l by {
                        assert(al1[j] == al[j]);
                    }
                }
                assert(r.rmt[l] == s1.rmt[l]);
            }
        }
        assert forall|l: int| 0 <= l < 32 && #[trigger] untouched_in(al, lo, n, l) implies r.rmt[l] == s.rmt[l] by {
            assert(al[n - 1].logical_destination != l);
            assert(untouched_in(al1, lo, n1, l)) by {
                assert forall|j: int| lo <= j < n1 implies (#[trigger] al1[j]).logical_destination != l by {
                    assert(al1[j] == al[j]);
                }
            }
            assert(r.rmt[l] == s1.rmt[l]);
        }
        assert forall|i: int| lo <= i < n implies !r.busy[(#[trigger] al[i]).new_destination as int] by {
            if i < n - 1 {
                assert(al1[i] == al[i]);
            } else {
                assert(!s1.busy[e.new_destination as int]);
            }
        }
    }
}

/// In exception mode, rolling back an active list of `m >= 1` entries
/// takes `ceil(m / 4)` cycles: the list ends empty, the youngest entry's
/// new register first on the free list after the old ones, the mode about
/// to clear and the pc on the handler; the cycle after that leaves
/// exception mode.
pub proof fn lemma_rollback_completes(s: CoreView, program: Seq<Instruction>)
    requires
        s.exception,
        !s.will_clear,
        s.shaped(),
        s.active_list.len() >= 1,
    ensures
        ({
            let m = s.active_list.len() as int;
            let c = ((m + 3) / 4) as nat;
            let t = steps(s, program, c);
            let f = s.free_list.len() as int;
            &&& t.exception
            &&& t.will_clear
            &&& t.active_list.len() == 0
            &&& t.pc == exception_handler_pc()
            &&& t.free_list.len() == f + m
            &&& t.free_list.subrange(0, f) == s.free_list
            &&& forall|j: int| 0 <= j < m ==> #[trigger] t.free_list[f + j] == s.active_list[m - 1 - j].new_destination
            &&& forall|i: int| 0 <= i < m && #[trigger] first_in(s.active_list, 0, i)
                ==> t.rmt[s.active_list[i].logical_destination as int] == s.active_list[i].old_destination
            &&& forall|l: int| 0 <= l < 32 && #[trigger] untouched_in(s.active_list, 0, m, l) ==> t.rmt[l] == s.rmt[l]
            &&& forall|i: int| 0 <= i < m ==> !t.busy[(#[trigger] s.active_list[i]).new_destination as int]
            &&& forall|x: int| 0 <= x < 64 && !s.busy[x] ==> !#[trigger] t.busy[x]
            &&& !steps(s, program, c + 1).exception
            &&& !steps(s, program, c + 1).will_clear
        }),
    decreases s.active_list.len(),
{
    let n = s.active_list.len() as int;
    let f = s.free_list.len() as int;
    let t1 = step(s, program);
    lemma_exception_mode(s, program);
    let al = s.active_list;
    let lo0: int = if 4 < n { n - 4 } else { 0 };
    lemma_rollback_registers(s, 4, lo0);
    assert(t1.rmt == rollback(s, 4).rmt && t1.busy == rollback(s, 4).busy);
    assert(steps(s, program, 1) == t1) by {
        assert(steps(t1, program, 0) == t1);
    }
    if n <= 4 {
        assert(t1.active_list.len() == 0);
        lemma_exception_mode(t1, program);
        assert(steps(s, program, 2) == step(t1, program)) by {
            assert(steps(t1, program, 1) == steps(step(t1, program), program, 0));
        }
        assert(((n + 3) / 4) as nat == 1);
    } else {
        lemma_rollback_completes(t1, program);
        let c = ((n + 3) / 4) as nat;
        let c1 = ((n - 4 + 3) / 4) as nat;
        assert(c == c1 + 1);
        assert(steps(s, program, c) == steps(t1, program, c1));
        assert(steps(s, program, c + 1) == steps(t1, program, c1 + 1));
        let t = steps(t1, program, c1);
        let f1 = t1.free_list.len() as int;
        assert(f1 == f + 4);
        assert forall|j: int| 0 <= j < n implies #[trigger] t.free_list[f + j] == s.active_list[n - 1 - j].new_destination by {
            if j < 4 {
                assert(t.free_list.subrange(0, f1) == t1.free_list);
                assert(t.free_list.subrange(0, f1)[f + j] == t1.free_list[f + j]);
            } else {
                assert(t.free_list[f1 + (j - 4)] == t1.active_list[(n - 4) - 1 - (j - 4)].new_destination);
                assert(t1.active_list[(n - 4) - 1 - (j - 4)] == s.active_list[n - 1 - j]);
            }
        }
        let al1 = t1.active_list;
        assert(al1 == al.subrange(0, n - 4));
        assert forall|i: int| 0 <= i < n && #[trigger] first_in(al, 0, i)
            implies t.rmt[al[i].logical_destination as int] == al[i].old_destination by {
            if i < n - 4 {
                assert(al1[i] == al[i]);
                assert(first_in(al1, 0, i)) by {
                    assert forall|j: int| 0 <= j < i implies (#[trigger] al1[j]).logical_destination != al1[i].logical_destination by {
                        assert(al1[j] == al[j]);
                    }
                }
            } else {
                let l = al[i].logical_destination as int;
                assert(al[i].old_destination < 64);
                assert(untouched_in(al1, 0, al1.len() as int, l)) by {
                    assert forall|j: int| 0 <= j < al1.len() implies (#[trigger] al1[j]).logical_destination != l by {
                        assert(al1[j] == al[j]);
                        assert(first_in(al, 0, i));
                    }
                }
                assert(t.rmt[l] == t1.rmt[l]);
                assert(first_in(al, n - 4, i)) by {
                    assert forall|j: int| n - 4 <= j < i implies (#[trigger] al[j]).logical_destination != al[i].logical_destination by {
                        assert(first_in(al, 0, i));
                    }
                }
            }
        }
        assert forall|l: int| 0 <= l < 32 && #[trigger] untouched_in(al, 0, n, l) implies t.rmt[l] == s.rmt[l] by {
            assert(untouched_in(al1, 0, al1.len() as int, l)) by {
                assert forall|j: int| 0 <= j < al1.len() implies (#[trigger] al1[j]).logical_destination != l by {
                    assert(al1[j] == al[j]);
                    assert(al[j].logical_destination != l);
                }
            }
            assert(t.rmt[l] == t1.rmt[l]);
            assert(untouched_in(al, n - 4, n, l)) by {
                assert forall|j: int| n - 4 <= j < n implies (#[trigger] al[j]).logical_destination != l by {
                    assert(al[j].logical_destination != l);
                }
            }
        }
        assert forall|i: int| 0 <= i < n implies !t.busy[(#[trigger] al[i]).new_destination as int] by {
            if i < n - 4 {
                assert(al1[i] == al[i]);
                assert(!t.busy[al1[i].new_destination as int]);
            } else {
                assert(!t1.busy[al[i].new_destination as int]);
                assert(al[i].old_destination < 64);
            }
        }
        assert(t.free_list.subrange(0, f) =~= s.free_list) by {
            assert forall|j: int| 0 <= j < f implies t.free_list[j] == s.free_list[j] by {
                assert(t.free_list.subrange(0, f1)[j] == t1.free_list[j]);
                assert(t1.free_list.subrange(0, f)[j] == s.free_list[j]);
            }
        }
    }
}

} // verus!

verus! {

// ---------------------------------------------------------------------
// Executable stages
// ---------------------------------------------------------------------

/// Queue positions as mathematical integers.
pub open spec fn positions(v: Seq<usize>) -> Seq<int> {
    v.map_values(|i: usize| i as int)
}

/// The integer queue of a state as plain values.
pub open spec fn queue_view(v: Seq<IntegerQueueEntry>) -> Seq<IqEntry> {
    v.map_values(|e: IntegerQueueEntry| e@)
}

fn signext_imm_to_u64(x: i64) -> (r: u64)
    ensures
        r == imm_bits(x),
{
    let r = x as u64;
    assert(x < 0 ==> (x as u64) as int == x + 0x1_0000_0000_0000_0000) by (bit_vector);
    assert(x >= 0 ==> (x as u64) as int == x) by (bit_vector);
    r
}

fn compute_alu_result(op: OpCode, a: u64, b: u64) -> (r: (u64, bool))
    ensures
        r == alu_result(op, a, b),
        op == OpCode::Mulu ==> r == (((a as int * b as int) % 0x1_0000_0000_0000_0000) as u64, false),
        op == OpCode::Add ==> r == (((a as int + b as int) % 0x1_0000_0000_0000_0000) as u64, false),
{
    proof {
        lemma_alu_arithmetic(op, a, b);
    }
    match op {
        OpCode::Add => (a.wrapping_add(b), false),
        OpCode::Sub => (a.wrapping_sub(b), false),
        OpCode::Mulu => (a.wrapping_mul(b), false),
        OpCode::Divu => {
            if b == 0 {
                (0, true)
            } else {
                (a / b, false)
            }
        },
        OpCode::Remu => {
            if b == 0 {
                (0, true)
            } else {
                (a % b, false)
            }
        },
    }
}

fn forwarding_map(forwards: &[Forwarding], include_exceptions: bool) -> (m: HashMap<
    usize,
    Forwarding,
>)
    ensures
        m@ == fwd_map(forwards@, include_exceptions),
{
    let mut m: HashMap<usize, Forwarding> = HashMap::new();
    let mut i: usize = 0;
    while i < forwards.len()
        invariant
            i <= forwards@.len(),
            m@ == fwd_map(forwards@.take(i as int), include_exceptions),
        decreases forwards@.len() - i,
    {
        let f = forwards[i];
        proof {
            assert(forwards@.take(i + 1).drop_last() =~= forwards@.take(i as int));
            assert(forwards@.take(i + 1).last() == f);
        }
        if !(!include_exceptions && f.exception) {
            m.insert(f.dest_phys, f);
        }
        i = i + 1;
    }
    assert(forwards@.take(forwards@.len() as int) =~= forwards@);
    m
}

proof fn lemma_retire_skip(al: Seq<ActiveListEntry>, k: int)
    requires
        0 <= k <= 4,
        k <= al.len(),
        forall|j: int| 0 <= j < k ==> (#[trigger] al[j]).done && !al[j].exception,
    ensures
        retire_from(al, 0) == retire_from(al, k),
    decreases k,
{
    if k > 0 {
        lemma_retire_skip(al, k - 1);
    }
}

pub(crate) proof fn lemma_retire_bounds(al: Seq<ActiveListEntry>, k: int)
    requires
        0 <= k,
    ensures
        retire_from(al, k) >= k,
        k <= 4 && k <= al.len() ==> retire_from(al, k) <= 4 && retire_from(al, k) <= al.len(),
    decreases 4 - k,
{
    if !(k >= 4 || k >= al.len() || !al[k].done || al[k].exception) {
        lemma_retire_bounds(al, k + 1);
    }
}

#[verifier::spinoff_prover]
fn commit_stage(state: &mut ProcessorState) -> (faulted: bool)
    requires
        old(state).wf(),
    ensures
        final(state)@ == commit(old(state)@),
        faulted == commit_faults(old(state)@.active_list),
        final(state).wf(),
{
    let ghost s0 = state@;
    let mut retired: usize = 0;
    proof {
        lemma_retire_bounds(s0.active_list, 0);
    }
    while retired < 4
        invariant
            retired <= 4,
            retired <= s0.active_list.len(),
            s0 == old(state)@,
            state.wf(),
            state@ == (CoreView {
                active_list: s0.active_list.skip(retired as int),
                free_list: s0.free_list + old_destinations(s0.active_list.take(retired as int)),
                ..s0
            }),
            forall|j: int| 0 <= j < retired ==> (#[trigger] s0.active_list[j]).done && !s0.active_list[j].exception,
        ensures
            retire_from(s0.active_list, retired as int) == retired as int,
            retired == 4 || retired == s0.active_list.len() || !s0.active_list[retired as int].done,
        decreases 4 - retired,
    {
        proof {
            lemma_retire_skip(s0.active_list, retired as int);
        }
        if state.active_list.len() == 0 {
            assert(retire_from(s0.active_list, retired as int) == retired as int);
            break;
        }
        let front = state.active_list[0];
        proof {
            assert(s0.active_list[retired as int] == front);
        }
        if !front.done {
            assert(retire_from(s0.active_list, retired as int) == retired as int);
            break;
        }
        if front.exception {
            proof {
                assert(retire_from(s0.active_list, retired as int) == retired as int);
                assert(retire_count(s0.active_list) == retired as int);
                assert(commit_faults(s0.active_list));
                assert(state@ =~= commit(s0));
            }
            return true;
        }
        let entry = match state.active_list.pop_front() {
            Some(e) => e,
            None => front,
        };
        state.free_list.push_back(entry.old_destination);
        proof {
            assert(s0.active_list[retired as int] == entry);
            assert(state.active_list@ =~= s0.active_list.skip(retired + 1));
            assert(s0.active_list.take(retired + 1) =~= s0.active_list.take(retired as int).push(entry));
            assert(old_destinations(s0.active_list.take(retired + 1)) =~= old_destinations(
                s0.active_list.take(retired as int),
            ).push(entry.old_destination));
            assert(state.free_list@ =~= s0.free_list + old_destinations(s0.active_list.take(retired + 1)));
        }
        retired = retired + 1;
        proof {
            assert(state@ =~= (CoreView {
                active_list: s0.active_list.skip(retired as int),
                free_list: s0.free_list + old_destinations(s0.active_list.take(retired as int)),
                ..s0
            }));
        }
    }
    proof {
        lemma_retire_skip(s0.active_list, retired as int);
        assert(retire_from(s0.active_list, retired as int) == retired as int);
        assert(retire_count(s0.active_list) == retired);
        assert(state@ =~= commit(s0));
    }
    false
}

} // verus!

verus! {

fn is_ready(e: &IntegerQueueEntry, fm: &HashMap<usize, Forwarding>) -> (b: bool)
    ensures
        b == entry_ready(e@, fm@),
{
    let a = e.op_a_is_ready || fm.contains_key(&e.op_a_reg_tag);
    let b = e.op_b_is_ready || fm.contains_key(&e.op_b_reg_tag);
    a && b
}

fn ready_indices(iq: &Vec<IntegerQueueEntry>, fm: &HashMap<usize, Forwarding>) -> (r: Vec<usize>)
    ensures
        positions(r@) == ready_upto(queue_view(iq@), fm@, iq@.len() as int),
        forall|k: int| 0 <= k < r@.len() ==> #[trigger] r@[k] < iq@.len(),
{
    let ghost q = queue_view(iq@);
    let mut r: Vec<usize> = Vec::new();
    let mut i: usize = 0;
    while i < iq.len()
        invariant
            i <= iq@.len(),
            q == queue_view(iq@),
            positions(r@) == ready_upto(q, fm@, i as int),
            forall|k: int| 0 <= k < r@.len() ==> #[trigger] r@[k] < i,
        decreases iq@.len() - i,
    {
        let rd = is_ready(&iq[i], fm);
        proof {
            assert(q[i as int] == iq@[i as int]@);
        }
        if rd {
            r.push(i);
            assert(positions(r@) =~= ready_upto(q, fm@, i as int).push(i as int));
        }
        i = i + 1;
    }
    r
}

proof fn lemma_insert_suffix(q: Seq<IqEntry>, x: int, s: Seq<int>, j: int)
    requires
        0 <= j <= s.len(),
        forall|k: int| j <= k < s.len() ==> q[#[trigger] s[k]].pc > q[x].pc,
    ensures
        insert_by_pc(q, x, s) == insert_by_pc(q, x, s.take(j)) + s.skip(j),
    decreases s.len(),
{
    if j == s.len() {
        assert(s.take(j) =~= s);
        assert(s.skip(j) =~= Seq::<int>::empty());
        assert(insert_by_pc(q, x, s) + Seq::<int>::empty() =~= insert_by_pc(q, x, s));
    } else {
        let d = s.drop_last();
        assert(q[s[s.len() - 1]].pc > q[x].pc);
        lemma_insert_suffix(q, x, d, j);
        assert(d.take(j) =~= s.take(j));
        assert(d.skip(j).push(s.last()) =~= s.skip(j));
        assert(insert_by_pc(q, x, s) == insert_by_pc(q, x, d).push(s.last()));
        assert((insert_by_pc(q, x, d.take(j)) + d.skip(j)).push(s.last()) =~= insert_by_pc(
            q,
            x,
            s.take(j),
        ) + s.skip(j));
    }
}

proof fn lemma_insert_len(q: Seq<IqEntry>, x: int, s: Seq<int>)
    ensures
        insert_by_pc(q, x, s).len() == s.len() + 1,
        forall|v: int| #[trigger] insert_by_pc(q, x, s).contains(v) <==> (v == x || s.contains(v)),
    decreases s.len(),
{
    let r = insert_by_pc(q, x, s);
    if s.len() == 0 {
        assert forall|v: int| #[trigger] r.contains(v) <==> (v == x || s.contains(v)) by {
            if v == x {
                assert(r[0] == x);
            }
        }
    } else if q[s.last()].pc <= q[x].pc {
        assert(r == s.push(x));
        assert forall|v: int| #[trigger] r.contains(v) <==> (v == x || s.contains(v)) by {
            if v == x {
                assert(r[s.len() as int] == x);
            }
            if s.contains(v) {
                let k = choose|k: int| 0 <= k < s.len() && s[k] == v;
                assert(r[k] == v);
            }
            if r.contains(v) {
                let k = choose|k: int| 0 <= k < r.len() && r[k] == v;
                if k < s.len() {
                    assert(s[k] == v);
                }
            }
        }
    } else {
        let d = s.drop_last();
        lemma_insert_len(q, x, d);
        let rd = insert_by_pc(q, x, d);
        assert(r == rd.push(s.last()));
        assert forall|v: int| #[trigger] r.contains(v) <==> (v == x || s.contains(v)) by {
            if v == x {
                assert(rd.contains(x));
                let k = choose|k: int| 0 <= k < rd.len() && rd[k] == v;
                assert(r[k] == v);
            }
            if s.contains(v) {
                let k = choose|k: int| 0 <= k < s.len() && s[k] == v;
                if k == s.len() - 1 {
                    assert(r[r.len() - 1] == v);
                } else {
                    assert(d[k] == v);
                    assert(rd.contains(v));
                    let k2 = choose|k2: int| 0 <= k2 < rd.len() && rd[k2] == v;
                    assert(r[k2] == v);
                }
            }
            if r.contains(v) {
                let k = choose|k: int| 0 <= k < r.len() && r[k] == v;
                if k < rd.len() {
                    assert(rd[k] == v);
                    assert(rd.contains(v));
                    if v != x {
                        assert(d.contains(v));
                        let k2 = choose|k2: int| 0 <= k2 < d.len() && d[k2] == v;
                        assert(s[k2] == v);
                    }
                } else {
                    assert(s[s.len() - 1] == v);
                }
            }
        }
    }
}

proof fn lemma_ready_elems(q: Seq<IqEntry>, fm: Map<usize, Forwarding>, n: int)
    ensures
        forall|v: int| #[trigger] ready_upto(q, fm, n).contains(v) ==> 0 <= v < n && entry_ready(q[v], fm),
    decreases n,
{
    if n > 0 {
        lemma_ready_elems(q, fm, n - 1);
        let p = ready_upto(q, fm, n - 1);
        assert forall|v: int| #[trigger] ready_upto(q, fm, n).contains(v) implies 0 <= v < n && entry_ready(q[v], fm) by {
            let r = ready_upto(q, fm, n);
            let k = choose|k: int| 0 <= k < r.len() && r[k] == v;
            if k < p.len() {
                assert(p[k] == v);
                assert(p.contains(v));
            }
        }
    }
}

proof fn lemma_sort_elems(q: Seq<IqEntry>, s: Seq<int>)
    ensures
        sort_by_pc(q, s).len() == s.len(),
        forall|v: int| #[trigger] sort_by_pc(q, s).contains(v) <==> s.contains(v),
    decreases s.len(),
{
    if s.len() > 0 {
        lemma_sort_elems(q, s.drop_last());
        lemma_insert_len(q, s.last(), sort_by_pc(q, s.drop_last()));
        assert forall|v: int| #[trigger] sort_by_pc(q, s).contains(v) <==> s.contains(v) by {
            if s.contains(v) && v != s.last() {
                let k = choose|k: int| 0 <= k < s.len() && s[k] == v;
                assert(s.drop_last()[k] == v);
            }
            if s.drop_last().contains(v) {
                let k = choose|k: int| 0 <= k < s.drop_last().len() && s.drop_last()[k] == v;
                assert(s[k] == v);
            }
        }
    }
}

/// Inserts queue position `x` into a PC-ordered list of positions.
fn insert_by_pc_exec(iq: &Vec<IntegerQueueEntry>, x: usize, s: &mut Vec<usize>)
    requires
        x < iq@.len(),
        forall|k: int| 0 <= k < old(s)@.len() ==> #[trigger] old(s)@[k] < iq@.len(),
    ensures
        positions(final(s)@) == insert_by_pc(queue_view(iq@), x as int, positions(old(s)@)),
        forall|k: int| 0 <= k < final(s)@.len() ==> #[trigger] final(s)@[k] < iq@.len(),
{
    let ghost q = queue_view(iq@);
    let ghost s0 = positions(s@);
    let xpc = iq[x].pc;
    let mut j: usize = s.len();
    while j > 0 && iq[s[j - 1]].pc > xpc
        invariant
            j <= s@.len(),
            s0 == positions(s@),
            q == queue_view(iq@),
            xpc == q[x as int].pc,
            forall|k: int| 0 <= k < s@.len() ==> #[trigger] s@[k] < iq@.len(),
            forall|k: int| j <= k < s@.len() ==> q[#[trigger] s0[k]].pc > q[x as int].pc,
        decreases j,
    {
        proof {
            assert(q[s0[j - 1]] == iq@[s@[j - 1] as int]@);
        }
        j = j - 1;
    }
    proof {
        lemma_insert_suffix(q, x as int, s0, j as int);
        if j > 0 {
            assert(q[s0[j - 1]] == iq@[s@[j - 1] as int]@);
            assert(s0.take(j as int).last() == s0[j - 1]);
            assert(insert_by_pc(q, x as int, s0.take(j as int)) == s0.take(j as int).push(x as int));
        } else {
            assert(insert_by_pc(q, x as int, s0.take(0)) == seq![x as int]);
        }
    }
    s.insert(j, x);
    proof {
        assert(positions(s@) =~= s0.take(j as int).push(x as int) + s0.skip(j as int));
    }
}

fn sort_ready_by_pc(iq: &Vec<IntegerQueueEntry>, ready: &Vec<usize>) -> (r: Vec<usize>)
    requires
        forall|k: int| 0 <= k < ready@.len() ==> #[trigger] ready@[k] < iq@.len(),
    ensures
        positions(r@) == sort_by_pc(queue_view(iq@), positions(ready@)),
        forall|k: int| 0 <= k < r@.len() ==> #[trigger] r@[k] < iq@.len(),
{
    let ghost q = queue_view(iq@);
    let mut r: Vec<usize> = Vec::new();
    let mut i: usize = 0;
    while i < ready.len()
        invariant
            i <= ready@.len(),
            q == queue_view(iq@),
            forall|k: int| 0 <= k < ready@.len() ==> #[trigger] ready@[k] < iq@.len(),
            positions(r@) == sort_by_pc(q, positions(ready@).take(i as int)),
            forall|k: int| 0 <= k < r@.len() ==> #[trigger] r@[k] < iq@.len(),
        decreases ready@.len() - i,
    {
        insert_by_pc_exec(iq, ready[i], &mut r);
        proof {
            let p = positions(ready@);
            assert(p.take(i + 1).drop_last() =~= p.take(i as int));
            assert(p.take(i + 1).last() == ready@[i as int] as int);
        }
        i = i + 1;
    }
    assert(positions(ready@).take(ready@.len() as int) =~= positions(ready@));
    r
}

fn operand_value(ready: bool, value: u64, tag: usize, fm: &HashMap<usize, Forwarding>) -> (v: u64)
    requires
        ready || fm@.contains_key(tag),
    ensures
        v == issue_operand(ready, value, tag, fm@),
{
    if ready {
        value
    } else {
        match fm.get(&tag) {
            Some(f) => f.value,
            None => 0,
        }
    }
}

#[verifier::spinoff_prover]
fn issue_stage(state: &ProcessorState, forwards: &[Forwarding]) -> (r: (Vec<AluSlot>, Vec<usize>))
    requires
        state.wf(),
    ensures
        positions(r.1@) == issue_order(state@.iq, fwd_map(forwards@, false)),
        r.0@ == issued_slots(state@.iq, issue_order(state@.iq, fwd_map(forwards@, false)), fwd_map(forwards@, false)),
        forall|k: int| 0 <= k < r.1@.len() ==> #[trigger] r.1@[k] < state@.iq.len(),
        r.1@.len() <= 4,
        forall|k: int| 0 <= k < r.0@.len() ==> (#[trigger] r.0@[k]).dest_phys < 64,
{
    let fwd_by_tag = forwarding_map(forwards, false);
    let ghost fm = fwd_by_tag@;
    let ghost q = state@.iq;
    let ready = ready_indices(&state.integer_queue, &fwd_by_tag);
    let mut order = sort_ready_by_pc(&state.integer_queue, &ready);
    proof {
        lemma_sort_elems(q, positions(ready@));
        lemma_ready_elems(q, fm, q.len() as int);
    }
    order.truncate(4);
    proof {
        let sorted = sort_by_pc(q, ready_upto(q, fm, q.len() as int));
        if sorted.len() > 4 {
            assert(positions(order@) =~= sorted.take(4));
        } else {
            assert(positions(order@) =~= sorted);
        }
        assert forall|k: int| 0 <= k < order@.len() implies entry_ready(q[#[trigger] order@[k] as int], fm) by {
            assert(sorted[k] == order@[k] as int);
            assert(sorted.contains(order@[k] as int));
        }
    }
    let mut issued_slots_v: Vec<AluSlot> = Vec::new();
    let mut i: usize = 0;
    while i < order.len()
        invariant
            i <= order@.len(),
            order@.len() <= 4,
            q == state@.iq,
            fm == fwd_by_tag@,
            state.wf(),
            positions(order@) == issue_order(q, fm),
            forall|k: int| 0 <= k < order@.len() ==> #[trigger] order@[k] < q.len(),
            forall|k: int| 0 <= k < order@.len() ==> entry_ready(q[#[trigger] order@[k] as int], fm),
            issued_slots_v@ == issued_slots(q, positions(order@).take(i as int), fm),
            forall|k: int| 0 <= k < issued_slots_v@.len() ==> (#[trigger] issued_slots_v@[k]).dest_phys < 64,
        decreases order@.len() - i,
    {
        let idx = order[i];
        let e = &state.integer_queue[idx];
        proof {
            assert(q[idx as int] == e@);
            assert(entry_ready(q[order@[i as int] as int], fm));
        }
        let a = operand_value(e.op_a_is_ready, e.op_a_value, e.op_a_reg_tag, &fwd_by_tag);
        let b = operand_value(e.op_b_is_ready, e.op_b_value, e.op_b_reg_tag, &fwd_by_tag);
        let (value, exc) = compute_alu_result(e.op, a, b);
        issued_slots_v.push(AluSlot { pc: e.pc, dest_phys: e.dest_register, value, exception: exc });
        proof {
            let p = positions(order@);
            assert(p.take(i + 1) =~= p.take(i as int).push(idx as int));
            assert(issued_slots_v@ =~= issued_slots(q, p.take(i + 1), fm));
        }
        i = i + 1;
    }
    proof {
        assert(positions(order@).take(order@.len() as int) =~= positions(order@));
    }
    (issued_slots_v, order)
}

} // verus!

verus! {

fn read_operand_exec(state: &ProcessorState, tag: usize, fm: &HashMap<usize, Forwarding>) -> (r: (
    bool,
    u64,
))
    requires
        tag < 64,
    ensures
        r == read_operand(state@, tag, fm@),
{
    if !state.busy_bit_table[tag] {
        (true, state.physical_register_file[tag])
    } else {
        match fm.get(&tag) {
            Some(f) => (true, f.value),
            None => (false, 0),
        }
    }
}

fn rename_instruction(state: &mut ProcessorState, inst: Instruction, fm: &HashMap<usize, Forwarding>)
    requires
        old(state)@.shaped(),
        forall|i: int|
            0 <= i < old(state).integer_queue.len() ==> (#[trigger] old(state).integer_queue@[i]).wf(),
        inst.wf(),
        old(state).free_list.len() > 0,
    ensures
        final(state)@ == rename_one(old(state)@, inst, fm@),
        final(state)@.shaped(),
        forall|i: int|
            0 <= i < final(state).integer_queue.len() ==> (#[trigger] final(state).integer_queue@[i]).wf(),
{
    let ghost s0 = state@;
    let dest_arch = inst.dest as usize;
    let old_dest_phys = state.register_map_table[dest_arch];
    proof {
        assert(s0.free_list[0] < 64);
    }
    let new_dest_phys = match state.free_list.pop_front() {
        Some(p) => p,
        None => 0,
    };
    let op_a_tag = state.register_map_table[inst.op_a as usize];
    let (op_a_is_ready, op_a_value) = read_operand_exec(state, op_a_tag, fm);
    let (op_b_is_ready, op_b_tag, op_b_value) = match inst.op_b {
        OperandB::Imm(imm) => (true, 0usize, signext_imm_to_u64(imm)),
        OperandB::Reg(reg) => {
            let tag = state.register_map_table[reg as usize];
            let (rdy, v) = read_operand_exec(state, tag, fm);
            (rdy, tag, v)
        },
    };
    state.register_map_table[dest_arch] = new_dest_phys;
    state.busy_bit_table[new_dest_phys] = true;
    state.active_list.push_back(
        ActiveListEntry {
            done: false,
            exception: false,
            logical_destination: inst.dest,
            old_destination: old_dest_phys,
            pc: inst.pc,
            new_destination: new_dest_phys,
        },
    );
    let name = inst.op.as_str();
    let op_code = name.to_owned();
    let entry = IntegerQueueEntry {
        dest_register: new_dest_phys,
        op_a_is_ready,
        op_a_reg_tag: op_a_tag,
        op_a_value,
        op_b_is_ready,
        op_b_reg_tag: op_b_tag,
        op_b_value,
        op_code,
        pc: inst.pc,
        op: inst.op,
    };
    state.integer_queue.push(entry);
    proof {
        let t = rename_one(s0, inst, fm@);
        assert(state@.free_list =~= t.free_list);
        assert(state@.rmt =~= t.rmt);
        assert(state@.busy =~= t.busy);
        assert(state@.active_list =~= t.active_list);
        assert(state@.iq =~= t.iq);
        assert(state@ =~= t);
        assert forall|i: int| 0 <= i < 32 implies #[trigger] state@.rmt[i] < 64 by {}
    }
}

#[verifier::spinoff_prover]
fn rename_dispatch_stage(state: &mut ProcessorState, forwards: &[Forwarding], iq_len_before_issue: usize) -> (accepted: bool)
    requires
        old(state).wf(),
        iq_len_before_issue == old(state).integer_queue.len(),
    ensures
        (final(state)@, accepted) == rename_stage(
            old(state)@,
            fwd_map(forwards@, false),
            iq_len_before_issue as int,
        ),
        final(state).wf(),
{
    let n = state.decoded_instructions.len();
    if n == 0 {
        return true;
    }
    if state.free_list.len() < n {
        return false;
    }
    if state.active_list.len() + n > 32 {
        return false;
    }
    if iq_len_before_issue + n > 32 {
        return false;
    }
    let fwd_by_tag = forwarding_map(forwards, false);
    let ghost fm = fwd_by_tag@;
    let ghost s0 = state@;
    let mut i: usize = 0;
    while i < n
        invariant
            i <= n,
            n == s0.decoded.len(),
            n <= 4,
            fm == fwd_by_tag@,
            state@ == rename_all(s0, s0.decoded.take(i as int), fm),
            state@.shaped(),
            state.decoded_instructions@ == s0.decoded,
            forall|k: int|
                0 <= k < state.integer_queue.len() ==> (#[trigger] state.integer_queue@[k]).wf(),
            state.free_list@.len() == s0.free_list.len() - i,
            state.active_list@.len() == s0.active_list.len() + i,
            state@.iq.len() == s0.iq.len() + i,
            s0.free_list.len() >= n,
        decreases n - i,
    {
        let inst = state.decoded_instructions[i];
        proof {
            assert(s0.decoded[i as int] == inst);
        }
        rename_instruction(state, inst, &fwd_by_tag);
        proof {
            assert(s0.decoded.take(i + 1).drop_last() =~= s0.decoded.take(i as int));
            assert(s0.decoded.take(i + 1).last() == inst);
        }
        i = i + 1;
    }
    state.decoded_instructions.clear();
    state.decoded_pcs.clear();
    proof {
        assert(s0.decoded.take(n as int) =~= s0.decoded);
        assert(state@ =~= CoreView { decoded: seq![], decoded_pcs: seq![], ..rename_all(s0, s0.decoded, fm) });
    }
    true
}

} // verus!

verus! {

fn fetch_decode_stage(state: &mut ProcessorState, program: &[Instruction], backpressure: bool)
    requires
        old(state).wf(),
        forall|i: int| 0 <= i < program@.len() ==> (#[trigger] program@[i]).wf(),
    ensures
        final(state)@ == fetch(old(state)@, program@, backpressure),
        final(state).wf(),
{
    if backpressure {
        return;
    }
    if state.exception {
        return;
    }
    if state.pc >= program.len() as u64 {
        return;
    }
    let ghost s0 = state@;
    let mut pcs: Vec<u64> = Vec::new();
    let mut insts: Vec<Instruction> = Vec::new();
    let mut k: usize = 0;
    while k < 4
        invariant
            k <= 4,
            s0.pc < program@.len(),
            s0.pc + k <= program@.len(),
            state.pc == s0.pc + k,
            state@ == (CoreView { pc: state.pc, ..s0 }),
            state.wf(),
            insts@ == program@.subrange(s0.pc as int, s0.pc + k),
            pcs@ == insts@.map_values(|i: Instruction| i.pc),
            forall|i: int| 0 <= i < program@.len() ==> (#[trigger] program@[i]).wf(),
        ensures
            k == 4 || state.pc >= program@.len(),
            s0.pc + k <= program@.len(),
            state.pc == s0.pc + k,
            state@ == (CoreView { pc: state.pc, ..s0 }),
            state.wf(),
            insts@ == program@.subrange(s0.pc as int, s0.pc + k),
            pcs@ == insts@.map_values(|i: Instruction| i.pc),
        decreases 4 - k,
    {
        if state.pc >= program.len() as u64 {
            break;
        }
        let inst = program[state.pc as usize];
        pcs.push(inst.pc);
        insts.push(inst);
        state.pc = state.pc + 1;
        k = k + 1;
        proof {
            assert(insts@ =~= program@.subrange(s0.pc as int, s0.pc + k));
            assert(pcs@ =~= insts@.map_values(|i: Instruction| i.pc));
            assert(state@ =~= (CoreView { pc: state.pc, ..s0 }));
        }
    }
    state.decoded_pcs = pcs;
    state.decoded_instructions = insts;
    proof {
        assert(state@ =~= fetch(s0, program@, backpressure));
    }
}

proof fn lemma_first_pc_skip(al: Seq<ActiveListEntry>, pc: u64, j: int)
    requires
        0 <= j <= al.len(),
        forall|k: int| 0 <= k < j ==> (#[trigger] al[k]).pc != pc,
    ensures
        first_pc_from(al, pc, 0) == first_pc_from(al, pc, j),
    decreases j,
{
    if j > 0 {
        lemma_first_pc_skip(al, pc, j - 1);
    }
}

fn mark_done_exec(al: &mut VecDeque<ActiveListEntry>, f: Forwarding)
    ensures
        final(al)@ == mark_done(old(al)@, f),
        final(al)@.len() == old(al)@.len(),
        forall|k: int|
            0 <= k < final(al)@.len() ==> {
                &&& (#[trigger] final(al)@[k]).old_destination == old(al)@[k].old_destination
                &&& final(al)@[k].new_destination == old(al)@[k].new_destination
                &&& final(al)@[k].logical_destination == old(al)@[k].logical_destination
            },
{
    let ghost a0 = al@;
    let mut j: usize = 0;
    while j < al.len()
        invariant
            j <= al@.len(),
            al@ == a0,
            a0 == old(al)@,
            forall|k: int| 0 <= k < j ==> (#[trigger] a0[k]).pc != f.pc,
        decreases al@.len() - j,
    {
        if al[j].pc == f.pc {
            let mut e = al[j];
            e.done = true;
            if f.exception {
                e.exception = true;
            }
            al.remove(j);
            al.insert(j, e);
            proof {
                assert(al@ =~= a0.update(j as int, e));
                lemma_first_pc_skip(a0, f.pc, j as int);
                assert(al@ =~= mark_done(a0, f));
            }
            return;
        }
        j = j + 1;
    }
    proof {
        lemma_first_pc_skip(a0, f.pc, j as int);
    }
}

fn wake_queue(iq: &mut Vec<IntegerQueueEntry>, f: Forwarding)
    requires
        forall|k: int| 0 <= k < old(iq)@.len() ==> (#[trigger] old(iq)@[k]).wf(),
    ensures
        queue_view(final(iq)@) == queue_view(old(iq)@).map_values(|e: IqEntry| wake_entry(e, f)),
        forall|k: int| 0 <= k < final(iq)@.len() ==> (#[trigger] final(iq)@[k]).wf(),
{
    let ghost q0 = queue_view(iq@);
    let ghost v0 = iq@;
    let mut j: usize = 0;
    while j < iq.len()
        invariant
            j <= iq@.len(),
            iq@.len() == v0.len(),
            q0 == queue_view(v0),
            forall|k: int| 0 <= k < j ==> (#[trigger] iq@[k])@ == wake_entry(q0[k], f),
            forall|k: int| j <= k < iq@.len() ==> #[trigger] iq@[k] == v0[k],
            forall|k: int| 0 <= k < iq@.len() ==> (#[trigger] iq@[k]).wf(),
        decreases iq@.len() - j,
    {
        let mut e = iq[j].clone();
        proof {
            assert(q0[j as int] == e@);
        }
        if !e.op_a_is_ready && e.op_a_reg_tag == f.dest_phys {
            e.op_a_is_ready = true;
            e.op_a_value = f.value;
        }
        if !e.op_b_is_ready && e.op_b_reg_tag == f.dest_phys {
            e.op_b_is_ready = true;
            e.op_b_value = f.value;
        }
        iq[j] = e;
        j = j + 1;
    }
    proof {
        assert(queue_view(iq@) =~= q0.map_values(|e: IqEntry| wake_entry(e, f)));
    }
}

#[verifier::spinoff_prover]
fn apply_forwarding(state: &mut ProcessorState, forwards: &[Forwarding])
    requires
        old(state).wf(),
        forall|k: int| 0 <= k < forwards@.len() ==> (#[trigger] forwards@[k]).dest_phys < 64,
    ensures
        final(state)@ == apply_forwarding_spec(old(state)@, forwards@),
        final(state).wf(),
{
    let ghost s0 = state@;
    let mut i: usize = 0;
    while i < forwards.len()
        invariant
            i <= forwards@.len(),
            forall|k: int| 0 <= k < forwards@.len() ==> (#[trigger] forwards@[k]).dest_phys < 64,
            (state@.prf, state@.busy) == write_results(s0.prf, s0.busy, forwards@.take(i as int)),
            state@ == (CoreView { prf: state@.prf, busy: state@.busy, ..s0 }),
            state.wf(),
        decreases forwards@.len() - i,
    {
        let f = forwards[i];
        if !f.exception {
            state.physical_register_file[f.dest_phys] = f.value;
            state.busy_bit_table[f.dest_phys] = false;
        }
        proof {
            assert(forwards@.take(i + 1).drop_last() =~= forwards@.take(i as int));
            assert(forwards@.take(i + 1).last() == f);
            assert(state@ =~= (CoreView { prf: state@.prf, busy: state@.busy, ..s0 }));
        }
        i = i + 1;
    }
    let ghost s1 = state@;
    i = 0;
    while i < forwards.len()
        invariant
            i <= forwards@.len(),
            state.active_list@ == mark_all(s1.active_list, forwards@.take(i as int)),
            state@ == (CoreView { active_list: state@.active_list, ..s1 }),
            state.wf(),
        decreases forwards@.len() - i,
    {
        let f = forwards[i];
        mark_done_exec(&mut state.active_list, f);
        proof {
            assert(forwards@.take(i + 1).drop_last() =~= forwards@.take(i as int));
            assert(forwards@.take(i + 1).last() == f);
            assert(state@ =~= (CoreView { active_list: state@.active_list, ..s1 }));
        }
        i = i + 1;
    }
    let ghost s2 = state@;
    i = 0;
    while i < forwards.len()
        invariant
            i <= forwards@.len(),
            state@.iq == wake_all(s2.iq, forwards@.take(i as int)),
            state@ == (CoreView { iq: state@.iq, ..s2 }),
            state@.iq.len() == s2.iq.len(),
            state.wf(),
        decreases forwards@.len() - i,
    {
        let f = forwards[i];
        if !f.exception {
            wake_queue(&mut state.integer_queue, f);
        }
        proof {
            assert(forwards@.take(i + 1).drop_last() =~= forwards@.take(i as int));
            assert(forwards@.take(i + 1).last() == f);
            assert(state@ =~= (CoreView { iq: state@.iq, ..s2 }));
        }
        i = i + 1;
    }
    proof {
        assert(forwards@.take(forwards@.len() as int) =~= forwards@);
        assert(state@ =~= apply_forwarding_spec(s0, forwards@));
    }
}

fn advance_alu(state: &mut ProcessorState, issued: Vec<AluSlot>)
    requires
        old(state).wf(),
        forall|k: int| 0 <= k < issued@.len() ==> (#[trigger] issued@[k]).dest_phys < 64,
    ensures
        final(state)@ == (CoreView { alu: advance(old(state)@.alu, issued@), ..old(state)@ }),
        final(state).wf(),
{
    let ghost s0 = state@;
    let mut alu: usize = 0;
    while alu < 4
        invariant
            alu <= 4,
            forall|a: int| 0 <= a < alu ==> #[trigger] state.alu_pipeline@[a]@ == seq![None, s0.alu[a][0]],
            forall|a: int| alu <= a < 4 ==> #[trigger] state.alu_pipeline@[a] == old(state).alu_pipeline@[a],
            s0 == old(state)@,
            state@ == (CoreView { alu: state@.alu, ..s0 }),
            state.integer_queue == old(state).integer_queue,
        decreases 4 - alu,
    {
        proof {
            assert(s0.alu[alu as int] == old(state).alu_pipeline@[alu as int]@);
        }
        state.alu_pipeline[alu][1] = state.alu_pipeline[alu][0];
        state.alu_pipeline[alu][0] = None;
        proof {
            assert(state.alu_pipeline@[alu as int]@ =~= seq![None, s0.alu[alu as int][0]]);
        }
        alu = alu + 1;
        proof {
            assert(state@ =~= (CoreView { alu: state@.alu, ..s0 }));
        }
    }
    let mut i: usize = 0;
    while i < issued.len() && i < 4
        invariant
            i <= 4,
            i <= issued@.len(),
            forall|a: int|
                0 <= a < 4 ==> #[trigger] state.alu_pipeline@[a]@ == seq![
                    if a < i {
                        Some(issued@[a])
                    } else {
                        None
                    },
                    s0.alu[a][0],
                ],
            s0 == old(state)@,
            state@ == (CoreView { alu: state@.alu, ..s0 }),
            state.integer_queue == old(state).integer_queue,
        decreases 4 - i,
    {
        state.alu_pipeline[i][0] = Some(issued[i]);
        proof {
            assert forall|a: int| 0 <= a < 4 implies #[trigger] state.alu_pipeline@[a]@ == seq![
                if a < i + 1 {
                    Some(issued@[a])
                } else {
                    None
                },
                s0.alu[a][0],
            ] by {
                if a == i {
                    assert(state.alu_pipeline@[a]@ =~= seq![Some(issued@[a]), s0.alu[a][0]]);
                }
            }
        }
        i = i + 1;
        proof {
            assert(state@ =~= (CoreView { alu: state@.alu, ..s0 }));
        }
    }
    proof {
        let t = advance(s0.alu, issued@);
        assert forall|a: int| 0 <= a < 4 implies #[trigger] state@.alu[a] == t[a] by {
            assert(state@.alu[a] == state.alu_pipeline@[a]@);
            assert(state.alu_pipeline@[a]@ =~= t[a]);
        }
        assert(state@.alu =~= t);
        assert(state@ =~= (CoreView { alu: t, ..s0 }));
        assert forall|a: int, k: int|
            0 <= a < 4 && 0 <= k < 2 && (#[trigger] state@.alu[a][k]) is Some implies state@.alu[a][k]->0.dest_phys < 64 by {
            assert(state@.alu[a] == t[a]);
        }
    }
}

fn reset_iq_and_exec(state: &mut ProcessorState)
    ensures
        final(state)@ == (CoreView {
            iq: seq![],
            alu: Seq::new(4, |a: int| seq![None::<AluSlot>, None::<AluSlot>]),
            ..old(state)@
        }),
{
    state.integer_queue.clear();
    state.alu_pipeline = [[None;2];4];
    proof {
        let t = Seq::new(4, |a: int| seq![None::<AluSlot>, None::<AluSlot>]);
        assert forall|a: int| 0 <= a < 4 implies #[trigger] state@.alu[a] == t[a] by {
            assert(state@.alu[a] =~= t[a]);
        }
        assert(state@.alu =~= t);
        assert(state@.iq =~= seq![]);
    }
}

fn exception_recovery(state: &mut ProcessorState)
    requires
        old(state).wf(),
    ensures
        final(state)@ == recovery(old(state)@),
        final(state).wf(),
{
    if state.exception_will_clear {
        state.exception = false;
        state.exception_will_clear = false;
        return;
    }
    let ghost s0 = state@;
    let mut rolled: usize = 0;
    while rolled < 4
        invariant
            rolled <= 4,
            rollback(state@, (4 - rolled) as nat) == rollback(s0, 4),
            state.wf(),
            !state.exception_will_clear,
        ensures
            rollback(state@, (4 - rolled) as nat) == rollback(s0, 4),
            rolled == 4 || state.active_list.len() == 0,
            state.wf(),
            !state.exception_will_clear,
        decreases 4 - rolled,
    {
        if state.active_list.len() == 0 {
            break;
        }
        let ghost s = state@;
        let entry = match state.active_list.pop_back() {
            Some(e) => e,
            None => break,
        };
        let logical = entry.logical_destination as usize;
        let old_p = entry.old_destination;
        let new_p = entry.new_destination;
        proof {
            assert(entry == s.active_list.last());
            assert(s.active_list[s.active_list.len() - 1] == entry);
        }
        state.register_map_table[logical] = old_p;
        state.busy_bit_table[new_p] = false;
        state.free_list.push_back(new_p);
        rolled = rolled + 1;
        proof {
            let e = entry;
            assert(state@ =~= CoreView {
                active_list: s.active_list.drop_last(),
                rmt: s.rmt.update(e.logical_destination as int, e.old_destination),
                busy: s.busy.update(e.new_destination as int, false),
                free_list: s.free_list.push(e.new_destination),
                ..s
            });
            assert forall|i: int| 0 <= i < 32 implies #[trigger] state@.rmt[i] < 64 by {}
        }
    }
    proof {
        assert(rollback(state@, (4 - rolled) as nat) == state@);
    }
    if state.active_list.len() == 0 {
        state.exception_will_clear = true;
    }
    proof {
        assert(state@ =~= recovery(s0));
    }
}

proof fn lemma_drop_indices_len<T>(s: Seq<T>, d: Seq<int>)
    ensures
        drop_indices(s, d).len() <= s.len(),
        forall|k: int| 0 <= k < drop_indices(s, d).len() ==> exists|j: int| 0 <= j < s.len() && #[trigger] drop_indices(s, d)[k] == s[j],
    decreases s.len(),
{
    if s.len() > 0 {
        lemma_drop_indices_len(s.drop_last(), d);
        let r = drop_indices(s.drop_last(), d);
        assert forall|k: int| 0 <= k < drop_indices(s, d).len() implies exists|j: int| 0 <= j < s.len() && #[trigger] drop_indices(s, d)[k] == s[j] by {
            if k < r.len() {
                let j = choose|j: int| 0 <= j < s.drop_last().len() && r[k] == s.drop_last()[j];
                assert(drop_indices(s, d)[k] == s[j]);
            } else {
                assert(drop_indices(s, d)[k] == s[s.len() - 1]);
            }
        }
    }
}

fn contains_position(v: &Vec<usize>, x: usize) -> (b: bool)
    ensures
        b == positions(v@).contains(x as int),
{
    let mut i: usize = 0;
    while i < v.len()
        invariant
            i <= v@.len(),
            forall|k: int| 0 <= k < i ==> #[trigger] v@[k] != x,
        decreases v@.len() - i,
    {
        if v[i] == x {
            assert(positions(v@)[i as int] == x as int);
            return true;
        }
        i = i + 1;
    }
    proof {
        if positions(v@).contains(x as int) {
            let k = choose|k: int| 0 <= k < positions(v@).len() && positions(v@)[k] == x as int;
            assert(v@[k] == x);
        }
    }
    false
}

/// Removes the issued entries from the integer queue.
fn remove_issued(iq: &mut Vec<IntegerQueueEntry>, issued: &Vec<usize>)
    requires
        forall|k: int| 0 <= k < old(iq)@.len() ==> (#[trigger] old(iq)@[k]).wf(),
    ensures
        queue_view(final(iq)@) == drop_indices(queue_view(old(iq)@), positions(issued@)),
        forall|k: int| 0 <= k < final(iq)@.len() ==> (#[trigger] final(iq)@[k]).wf(),
{
    let ghost q0 = queue_view(iq@);
    let mut kept: Vec<IntegerQueueEntry> = Vec::new();
    let mut i: usize = 0;
    while i < iq.len()
        invariant
            i <= iq@.len(),
            q0 == queue_view(iq@),
            queue_view(kept@) == drop_indices(q0.take(i as int), positions(issued@)),
            forall|k: int| 0 <= k < iq@.len() ==> (#[trigger] iq@[k]).wf(),
            forall|k: int| 0 <= k < kept@.len() ==> (#[trigger] kept@[k]).wf(),
        decreases iq@.len() - i,
    {
        let drop = contains_position(issued, i);
        proof {
            let t = q0.take(i + 1);
            assert(t.drop_last() =~= q0.take(i as int));
            assert(t.last() == iq@[i as int]@);
        }
        if !drop {
            kept.push(iq[i].clone());
            proof {
                assert(queue_view(kept@) =~= drop_indices(q0.take(i as int), positions(issued@)).push(
                    iq@[i as int]@,
                ));
            }
        }
        i = i + 1;
    }
    proof {
        assert(q0.take(iq@.len() as int) =~= q0);
    }
    *iq = kept;
}

/// Advances the core by one clock cycle.
#[verifier::spinoff_prover]
#[verifier::rlimit(40)]
pub fn propagate_one_cycle(state: &mut ProcessorState, program: &[Instruction])
    requires
        old(state).wf(),
        forall|i: int| 0 <= i < program@.len() ==> (#[trigger] program@[i]).wf(),
    ensures
        final(state).wf(),
        final(state)@ == step(old(state)@, program@),
{
    let ghost s0 = state@;
    let forwards = state.current_forwarding();
    proof {
        assert forall|k: int| 0 <= k < forwards@.len() implies (#[trigger] forwards@[k]).dest_phys < 64 by {
            lemma_forwards_in_range(s0, 4, k);
        }
    }
    if state.exception {
        exception_recovery(state);
        state.pc = 0x10000;
        proof {
            assert(state@ =~= step(s0, program@));
        }
        return;
    }
    let enter_exception = commit_stage(state);
    if enter_exception {
        let pc = if state.active_list.len() > 0 {
            state.active_list[0].pc
        } else {
            0
        };
        state.exception = true;
        state.exception_pc = pc;
        state.exception_will_clear = false;
        state.pc = 0x10000;
        state.decoded_pcs.clear();
        state.decoded_instructions.clear();
        reset_iq_and_exec(state);
        proof {
            assert(state@ =~= step(s0, program@));
            assert forall|a: int, k: int|
                0 <= a < 4 && 0 <= k < 2 && (#[trigger] state@.alu[a][k]) is Some implies state@.alu[a][k]->0.dest_phys < 64 by {
            }
        }
        return;
    }
    let ghost c = state@;
    let iq_len_before_issue = state.integer_queue.len();
    let (issued, issued_indices) = issue_stage(state, &forwards);
    let accepted = rename_dispatch_stage(state, &forwards, iq_len_before_issue);
    fetch_decode_stage(state, program, !accepted);
    apply_forwarding(state, &forwards);
    advance_alu(state, issued);
    let ghost before_drop = state@;
    remove_issued(&mut state.integer_queue, &issued_indices);
    proof {
        lemma_drop_indices_len(before_drop.iq, positions(issued_indices@));
        assert(state@ =~= (CoreView { iq: drop_indices(before_drop.iq, positions(issued_indices@)), ..before_drop }));
        assert(state@ =~= step(s0, program@));
        let r = drop_indices(before_drop.iq, positions(issued_indices@));
        assert forall|k: int| 0 <= k < state@.iq.len() implies #[trigger] state@.iq[k].dest_register < 64 by {
            let j = choose|j: int| 0 <= j < before_drop.iq.len() && r[k] == before_drop.iq[j];
        }
        assert(state@.shaped());
        assert(state@.within_capacity());
        assert(state.wf());
    }
}

proof fn lemma_forwards_in_range(s: CoreView, n: int, k: int)
    requires
        s.shaped(),
        0 <= n <= 4,
        0 <= k < forwards_upto(s.alu, n).len(),
    ensures
        forwards_upto(s.alu, n)[k].dest_phys < 64,
    decreases n,
{
    if n > 0 {
        let p = forwards_upto(s.alu, n - 1);
        if k < p.len() {
            lemma_forwards_in_range(s, n - 1, k);
        } else {
            assert(s.alu[n - 1][1] is Some);
        }
    }
}

} // verus!
