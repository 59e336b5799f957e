//! The architectural and micro-architectural state of the core.

use std::collections::VecDeque;

use vstd::prelude::*;

use crate::simulator::pipeline::{forwards_of, propagate_one_cycle, step};
use crate::simulator::types::{
    ActiveListEntry, AluSlot, Forwarding, Instruction, IntegerQueueEntry, IqEntry,
};

verus! {

/// The part of the state that is logged after every cycle.
#[derive(Debug, Clone)]
pub struct Snapshot {
    pub active_list: Vec<ActiveListEntry>,
    pub busy_bit_table: Vec<bool>,
    pub decoded_pcs: Vec<u64>,
    pub exception: bool,
    pub exception_pc: u64,
    pub free_list: Vec<usize>,
    pub integer_queue: Vec<IntegerQueueEntry>,
    pub pc: u64,
    pub physical_register_file: Vec<u64>,
    pub register_map_table: Vec<usize>,
}

/// Complete state of the core between two clock edges.
#[derive(Debug, Clone)]
pub struct ProcessorState {
    pub pc: u64,
    pub physical_register_file: [u64; 64],
    pub decoded_pcs: Vec<u64>,
    pub exception: bool,
    pub exception_pc: u64,
    pub register_map_table: [usize; 32],
    pub free_list: VecDeque<usize>,
    pub busy_bit_table: [bool; 64],
    pub active_list: VecDeque<ActiveListEntry>,
    pub integer_queue: Vec<IntegerQueueEntry>,
    pub decoded_instructions: Vec<Instruction>,
    pub alu_pipeline: [[Option<AluSlot>; 2]; 4],
    pub exception_will_clear: bool,
}

/// The state of the core as plain mathematical values.
#[verifier::ext_equal]
pub struct CoreView {
    pub pc: u64,
    pub prf: Seq<u64>,
    pub decoded_pcs: Seq<u64>,
    pub exception: bool,
    pub exception_pc: u64,
    pub rmt: Seq<usize>,
    pub free_list: Seq<usize>,
    pub busy: Seq<bool>,
    pub active_list: Seq<ActiveListEntry>,
    pub iq: Seq<IqEntry>,
    pub decoded: Seq<Instruction>,
    pub alu: Seq<Seq<Option<AluSlot>>>,
    pub will_clear: bool,
}

impl CoreView {
    /// Every structure has its fixed shape and every register tag names an
    /// existing register.
    pub open spec fn shaped(self) -> bool {
        &&& self.prf.len() == 64
        &&& self.rmt.len() == 32
        &&& self.busy.len() == 64
        &&& self.alu.len() == 4
        &&& forall|a: int| 0 <= a < 4 ==> #[trigger] self.alu[a].len() == 2
        &&& forall|i: int| 0 <= i < 32 ==> #[trigger] self.rmt[i] < 64
        &&& forall|i: int| 0 <= i < self.free_list.len() ==> #[trigger] self.free_list[i] < 64
        &&& forall|i: int|
            0 <= i < self.active_list.len() ==> {
                &&& #[trigger] self.active_list[i].old_destination < 64
                &&& self.active_list[i].new_destination < 64
                &&& self.active_list[i].logical_destination < 32
            }
        &&& forall|i: int| 0 <= i < self.iq.len() ==> #[trigger] self.iq[i].dest_register < 64
        &&& forall|a: int, k: int|
            0 <= a < 4 && 0 <= k < 2 && (#[trigger] self.alu[a][k]) is Some ==> self.alu[a][k]->0.dest_phys
                < 64
        &&& forall|i: int| 0 <= i < self.decoded.len() ==> (#[trigger] self.decoded[i]).wf()
        &&& self.decoded.len() <= 4
    }

    /// Capacity bounds: the active list and integer queue hold at most 32
    /// entries, and the free list and active list together always hold 32
    /// registers.
    pub open spec fn within_capacity(self) -> bool {
        &&& self.active_list.len() <= 32
        &&& self.iq.len() <= 32
        &&& self.free_list.len() + self.active_list.len() == 32
    }

    pub open spec fn wf(self) -> bool {
        self.shaped() && self.within_capacity()
    }
}

impl View for ProcessorState {
    type V = CoreView;

    open spec fn view(&self) -> CoreView {
        CoreView {
            pc: self.pc,
            prf: self.physical_register_file@,
            decoded_pcs: self.decoded_pcs@,
            exception: self.exception,
            exception_pc: self.exception_pc,
            rmt: self.register_map_table@,
            free_list: self.free_list@,
            busy: self.busy_bit_table@,
            active_list: self.active_list@,
            iq: self.integer_queue@.map_values(|e: IntegerQueueEntry| e@),
            decoded: self.decoded_instructions@,
            alu: self.alu_pipeline@.map_values(|l: [Option<AluSlot>; 2]| l@),
            will_clear: self.exception_will_clear,
        }
    }
}

/// The state at reset: identity register mapping, registers 32..63 free,
/// everything else empty.
pub open spec fn reset_view() -> CoreView {
    CoreView {
        pc: 0,
        prf: Seq::new(64, |i: int| 0u64),
        decoded_pcs: Seq::empty(),
        exception: false,
        exception_pc: 0,
        rmt: Seq::new(32, |i: int| i as usize),
        free_list: Seq::new(32, |i: int| (i + 32) as usize),
        busy: Seq::new(64, |i: int| false),
        active_list: Seq::empty(),
        iq: Seq::empty(),
        decoded: Seq::empty(),
        alu: Seq::new(4, |a: int| seq![None::<AluSlot>, None::<AluSlot>]),
        will_clear: false,
    }
}

/// Whether the simulation still has something to do.
pub open spec fn has_work_spec(s: CoreView, program_len: u64) -> bool {
    ||| s.exception
    ||| s.will_clear
    ||| s.pc < program_len
    ||| s.decoded_pcs.len() > 0
    ||| s.decoded.len() > 0
    ||| s.iq.len() > 0
    ||| s.active_list.len() > 0
    ||| exists|a: int, k: int| 0 <= a < 4 && 0 <= k < 2 && (#[trigger] s.alu[a][k]) is Some
}

impl ProcessorState {
    /// The state is well formed and every integer queue entry carries the
    /// mnemonic of its operation.
    pub open spec fn wf(&self) -> bool {
        &&& self@.wf()
        &&& forall|i: int|
            0 <= i < self.integer_queue.len() ==> (#[trigger] self.integer_queue@[i]).wf()
    }

    pub fn new() -> (s: Self)
        ensures
            s@ == reset_view(),
            s.wf(),
    {
        let mut rmt = [0usize; 32];
        let mut i: usize = 0;
        while i < 32
            invariant
                i <= 32,
                forall|j: int| 0 <= j < i ==> rmt@[j] == j,
            decreases 32 - i,
        {
            rmt[i] = i;
            i = i + 1;
        }
        let mut free_list: VecDeque<usize> = VecDeque::new();
        let mut p: usize = 32;
        while p < 64
            invariant
                32 <= p <= 64,
                free_list@.len() == p - 32,
                forall|j: int| 0 <= j < free_list@.len() ==> free_list@[j] == j + 32,
            decreases 64 - p,
        {
            free_list.push_back(p);
            p = p + 1;
        }
        let s = Self {
            pc: 0,
            physical_register_file: [0u64; 64],
            decoded_pcs: Vec::new(),
            exception: false,
            exception_pc: 0,
            register_map_table: rmt,
            free_list,
            busy_bit_table: [false; 64],
            active_list: VecDeque::new(),
            integer_queue: Vec::new(),
            decoded_instructions: Vec::new(),
            alu_pipeline: [[None; 2]; 4],
            exception_will_clear: false,
        };
        assert(s@.prf =~= reset_view().prf);
        assert(s@.rmt =~= reset_view().rmt);
        assert(s@.free_list =~= reset_view().free_list);
        assert(s@.busy =~= reset_view().busy);
        assert(s@.iq =~= reset_view().iq);
        assert forall|a: int| 0 <= a < 4 implies s@.alu[a] =~= reset_view().alu[a] by {}
        assert(s@.alu =~= reset_view().alu);
        s
    }

    /// Copies the logged part of the state.
    pub fn snapshot(&self) -> (snap: Snapshot)
        ensures
            snap.active_list@ == self.active_list@,
            snap.busy_bit_table@ == self.busy_bit_table@,
            snap.decoded_pcs@ == self.decoded_pcs@,
            snap.exception == self.exception,
            snap.exception_pc == self.exception_pc,
            snap.free_list@ == self.free_list@,
            snap.integer_queue@ == self.integer_queue@,
            snap.pc == self.pc,
            snap.physical_register_file@ == self.physical_register_file@,
            snap.register_map_table@ == self.register_map_table@,
    {
        Snapshot {
            active_list: copy_deque(&self.active_list),
            busy_bit_table: copy_slice(self.busy_bit_table.as_slice()),
            decoded_pcs: copy_vec(&self.decoded_pcs),
            exception: self.exception,
            exception_pc: self.exception_pc,
            free_list: copy_deque(&self.free_list),
            integer_queue: copy_queue(&self.integer_queue),
            pc: self.pc,
            physical_register_file: copy_slice(self.physical_register_file.as_slice()),
            register_map_table: copy_slice(self.register_map_table.as_slice()),
        }
    }

    /// Whether another cycle has to be simulated for a program of the given
    /// length.
    pub fn has_work(&self, program_len: u64) -> (b: bool)
        ensures
            b == has_work_spec(self@, program_len),
    {
        if self.exception || self.exception_will_clear {
            return true;
        }
        if self.pc < program_len {
            return true;
        }
        if !self.decoded_pcs.is_empty() {
            return true;
        }
        if !self.decoded_instructions.is_empty() {
            return true;
        }
        if !self.integer_queue.is_empty() {
            return true;
        }
        if self.active_list.len() > 0 {
            return true;
        }
        let mut a: usize = 0;
        while a < 4
            invariant
                a <= 4,
                forall|x: int, k: int|
                    0 <= x < a && 0 <= k < 2 ==> (#[trigger] self.alu_pipeline@[x]@[k]) is None,
            decreases 4 - a,
        {
            let mut k: usize = 0;
            while k < 2
                invariant
                    a < 4,
                    k <= 2,
                    forall|x: int, j: int|
                        0 <= x < a && 0 <= j < 2 ==> (#[trigger] self.alu_pipeline@[x]@[j]) is None,
                    forall|j: int| 0 <= j < k ==> (#[trigger] self.alu_pipeline@[a as int]@[j]) is None,
                decreases 2 - k,
            {
                if self.alu_pipeline[a][k].is_some() {
                    assert(self@.alu[a as int][k as int] is Some);
                    return true;
                }
                k = k + 1;
            }
            a = a + 1;
        }
        assert(!has_work_spec(self@, program_len)) by {
            assert forall|x: int, k: int| 0 <= x < 4 && 0 <= k < 2 implies !(#[trigger] self@.alu[x][k] is Some) by {
                assert(self@.alu[x] == self.alu_pipeline@[x]@);
            }
        }
        false
    }

    /// Advances the core by one clock cycle.
    pub fn propagate(&mut self, program: &[Instruction])
        requires
            old(self).wf(),
            forall|i: int| 0 <= i < program@.len() ==> (#[trigger] program@[i]).wf(),
        ensures
            final(self).wf(),
            final(self)@ == step(old(self)@, program@),
    {
        propagate_one_cycle(self, program);
    }

    /// The results leaving the second ALU stage this cycle, in ALU order.
    pub fn current_forwarding(&self) -> (out: Vec<Forwarding>)
        ensures
            out@ == forwards_of(self@.alu),
    {
        let mut out: Vec<Forwarding> = Vec::new();
        let mut alu: usize = 0;
        while alu < 4
            invariant
                alu <= 4,
                out@ == crate::simulator::pipeline::forwards_upto(self@.alu, alu as int),
            decreases 4 - alu,
        {
            if let Some(slot) = self.alu_pipeline[alu][1] {
                out.push(
                    Forwarding {
                        pc: slot.pc,
                        dest_phys: slot.dest_phys,
                        value: slot.value,
                        exception: slot.exception,
                    },
                );
            }
            proof {
                assert(self@.alu[alu as int] == self.alu_pipeline@[alu as int]@);
            }
            alu = alu + 1;
        }
        out
    }
}

fn copy_vec<T: Copy>(v: &Vec<T>) -> (r: Vec<T>)
    ensures
        r@ == v@,
{
    let mut r: Vec<T> = Vec::new();
    let mut i: usize = 0;
    while i < v.len()
        invariant
            i <= v.len(),
            r@ == v@.take(i as int),
        decreases v.len() - i,
    {
        r.push(v[i]);
        i = i + 1;
        assert(r@ =~= v@.take(i as int));
    }
    assert(v@.take(v.len() as int) =~= v@);
    r
}

fn copy_deque<T: Copy>(v: &VecDeque<T>) -> (r: Vec<T>)
    ensures
        r@ == v@,
{
    let mut r: Vec<T> = Vec::new();
    let mut i: usize = 0;
    while i < v.len()
        invariant
            i <= v@.len(),
            r@ == v@.take(i as int),
        decreases v@.len() - i,
    {
        r.push(v[i]);
        i = i + 1;
        assert(r@ =~= v@.take(i as int));
    }
    assert(v@.take(v@.len() as int) =~= v@);
    r
}

fn copy_slice<T: Copy>(v: &[T]) -> (r: Vec<T>)
    ensures
        r@ == v@,
{
    let mut r: Vec<T> = Vec::new();
    let mut i: usize = 0;
    while i < v.len()
        invariant
            i <= v@.len(),
            r@ == v@.take(i as int),
        decreases v@.len() - i,
    {
        r.push(v[i]);
        i = i + 1;
        assert(r@ =~= v@.take(i as int));
    }
    assert(v@.take(v@.len() as int) =~= v@);
    r
}

fn copy_queue(v: &Vec<IntegerQueueEntry>) -> (r: Vec<IntegerQueueEntry>)
    ensures
        r@ == v@,
{
    let mut r: Vec<IntegerQueueEntry> = Vec::new();
    let mut i: usize = 0;
    while i < v.len()
        invariant
            i <= v.len(),
            r@ == v@.take(i as int),
        decreases v.len() - i,
    {
        r.push(v[i].clone());
        i = i + 1;
        assert(r@ =~= v@.take(i as int));
    }
    assert(v@.take(v.len() as int) =~= v@);
    r
}

} // verus!
