//! Instructions, bundles and schedules of the VLIW machine.

use vstd::prelude::*;

verus! {

/// Position of an instruction in the input program.
pub type InstId = usize;

#[derive(Debug, Clone, Copy, PartialEq, Eq, Hash, Structural)]
pub enum Opcode {
    Add,
    Addi,
    Sub,
    Mulu,
    Ld,
    St,
    Loop,
    LoopPip,
    Nop,
    MovReg,
    MovImm,
    MovPred,
    MovLC,
    MovEC,
}

/// The five execution units, in slot order.
#[derive(Debug, Clone, Copy, PartialEq, Eq, Hash, Structural)]
pub enum ExecUnit {
    Alu0,
    Alu1,
    Mult,
    Mem,
    Branch,
}

/// Slot index of a unit within a bundle.
pub open spec fn unit_index(u: ExecUnit) -> int {
    match u {
        ExecUnit::Alu0 => 0,
        ExecUnit::Alu1 => 1,
        ExecUnit::Mult => 2,
        ExecUnit::Mem => 3,
        ExecUnit::Branch => 4,
    }
}

/// The unit in a given slot.
pub open spec fn unit_at(i: int) -> ExecUnit {
    if i == 0 {
        ExecUnit::Alu0
    } else if i == 1 {
        ExecUnit::Alu1
    } else if i == 2 {
        ExecUnit::Mult
    } else if i == 3 {
        ExecUnit::Mem
    } else {
        ExecUnit::Branch
    }
}

impl ExecUnit {
    pub fn idx(self) -> (i: usize)
        ensures
            i == unit_index(self),
            i < 5,
            unit_at(i as int) == self,
    {
        match self {
            ExecUnit::Alu0 => 0,
            ExecUnit::Alu1 => 1,
            ExecUnit::Mult => 2,
            ExecUnit::Mem => 3,
            ExecUnit::Branch => 4,
        }
    }

    /// The five units in slot order.
    pub fn all() -> (v: [ExecUnit; 5])
        ensures
            v@ == seq![ExecUnit::Alu0, ExecUnit::Alu1, ExecUnit::Mult, ExecUnit::Mem, ExecUnit::Branch],
            forall|i: int| 0 <= i < 5 ==> #[trigger] v@[i] == unit_at(i) && unit_index(v@[i]) == i,
    {
        let v = [ExecUnit::Alu0, ExecUnit::Alu1, ExecUnit::Mult, ExecUnit::Mem, ExecUnit::Branch];
        assert(v@ =~= seq![ExecUnit::Alu0, ExecUnit::Alu1, ExecUnit::Mult, ExecUnit::Mem, ExecUnit::Branch]);
        v
    }

    /// The unit of slot `i`; all five units in slot order for `i < 5`.
    pub fn from_idx(i: usize) -> (u: ExecUnit)
        requires
            i < 5,
        ensures
            u == unit_at(i as int),
            unit_index(u) == i,
    {
        if i == 0 {
            ExecUnit::Alu0
        } else if i == 1 {
            ExecUnit::Alu1
        } else if i == 2 {
            ExecUnit::Mult
        } else if i == 3 {
            ExecUnit::Mem
        } else {
            ExecUnit::Branch
        }
    }
}

/// Which kind of execution unit an opcode runs on.
#[derive(Debug, Clone, Copy, PartialEq, Eq, Structural)]
pub enum UnitClass {
    Alu,
    Mult,
    Mem,
    Branch,
}

pub open spec fn class_of(op: Opcode) -> UnitClass {
    match op {
        Opcode::Mulu => UnitClass::Mult,
        Opcode::Ld | Opcode::St => UnitClass::Mem,
        Opcode::Loop | Opcode::LoopPip => UnitClass::Branch,
        _ => UnitClass::Alu,
    }
}

/// The units of a class, in the order the scheduler tries them.
pub open spec fn class_units(c: UnitClass) -> Seq<ExecUnit> {
    match c {
        UnitClass::Alu => seq![ExecUnit::Alu0, ExecUnit::Alu1],
        UnitClass::Mult => seq![ExecUnit::Mult],
        UnitClass::Mem => seq![ExecUnit::Mem],
        UnitClass::Branch => seq![ExecUnit::Branch],
    }
}

/// The units an opcode runs on: a multiplication on the multiplier, a load
/// or store on the memory unit, a loop instruction on the branch unit, and
/// every other operation, each `mov` form among them, on ALU0 or ALU1.
pub open spec fn runs_on(op: Opcode, u: ExecUnit) -> bool {
    match op {
        Opcode::Mulu => u == ExecUnit::Mult,
        Opcode::Ld | Opcode::St => u == ExecUnit::Mem,
        Opcode::Loop | Opcode::LoopPip => u == ExecUnit::Branch,
        Opcode::Add | Opcode::Addi | Opcode::Sub | Opcode::Nop | Opcode::MovReg | Opcode::MovImm
        | Opcode::MovPred | Opcode::MovLC | Opcode::MovEC => u == ExecUnit::Alu0 || u == ExecUnit::Alu1,
    }
}

/// The units the scheduler tries for an opcode are exactly those it runs on.
pub proof fn lemma_class_units_run_on(op: Opcode, u: ExecUnit)
    ensures
        class_units(class_of(op)).contains(u) <==> runs_on(op, u),
{
    let us = class_units(class_of(op));
    if runs_on(op, u) {
        if u == ExecUnit::Alu1 {
            assert(us[1] == u);
        } else {
            assert(us[0] == u);
        }
    }
}

impl UnitClass {
    pub fn of_opcode(op: Opcode) -> (c: UnitClass)
        ensures
            c == class_of(op),
            forall|u: ExecUnit| #[trigger] class_units(c).contains(u) <==> runs_on(op, u),
    {
        let c = match op {
            Opcode::Add | Opcode::Addi | Opcode::Sub | Opcode::Nop | Opcode::MovReg | Opcode::MovImm
            | Opcode::MovPred | Opcode::MovLC | Opcode::MovEC => UnitClass::Alu,
            Opcode::Mulu => UnitClass::Mult,
            Opcode::Ld | Opcode::St => UnitClass::Mem,
            Opcode::Loop | Opcode::LoopPip => UnitClass::Branch,
        };
        proof {
            assert forall|u: ExecUnit| #[trigger] class_units(c).contains(u) <==> runs_on(op, u) by {
                lemma_class_units_run_on(op, u);
            }
        }
        c
    }

    pub fn units(self) -> (v: Vec<ExecUnit>)
        ensures
            v@ == class_units(self),
    {
        match self {
            UnitClass::Alu => vec![ExecUnit::Alu0, ExecUnit::Alu1],
            UnitClass::Mult => vec![ExecUnit::Mult],
            UnitClass::Mem => vec![ExecUnit::Mem],
            UnitClass::Branch => vec![ExecUnit::Branch],
        }
    }

    /// Number of units of the class.
    pub fn num_units(self) -> (n: usize)
        ensures
            n == class_units(self).len(),
    {
        match self {
            UnitClass::Alu => 2,
            UnitClass::Mult => 1,
            UnitClass::Mem => 1,
            UnitClass::Branch => 1,
        }
    }
}

#[derive(Debug, Clone, Copy, PartialEq, Eq, Structural)]
pub enum SpecialReg {
    LC,
    EC,
}

/// One assembly instruction.
#[derive(Debug)]
pub struct Instruction {
    pub id: InstId,
    pub opcode: Opcode,
    pub pred: Option<u8>,
    pub dest_reg: Option<u8>,
    pub dest_pred: Option<u8>,
    pub dest_special: Option<SpecialReg>,
    pub src_regs: Vec<u8>,
    pub imm: Option<i64>,
    pub imm_bool: Option<bool>,
    pub label: Option<usize>,
}

/// An instruction as a plain value.
pub struct Instr {
    pub id: InstId,
    pub opcode: Opcode,
    pub pred: Option<u8>,
    pub dest_reg: Option<u8>,
    pub dest_pred: Option<u8>,
    pub dest_special: Option<SpecialReg>,
    pub src_regs: Seq<u8>,
    pub imm: Option<i64>,
    pub imm_bool: Option<bool>,
    pub label: Option<usize>,
}

impl View for Instruction {
    type V = Instr;

    open spec fn view(&self) -> Instr {
        Instr {
            id: self.id,
            opcode: self.opcode,
            pred: self.pred,
            dest_reg: self.dest_reg,
            dest_pred: self.dest_pred,
            dest_special: self.dest_special,
            src_regs: self.src_regs@,
            imm: self.imm,
            imm_bool: self.imm_bool,
            label: self.label,
        }
    }
}

/// Latency of an operation in cycles: three for a multiplication, one for
/// everything else.
pub open spec fn latency_of(op: Opcode) -> int {
    match op {
        Opcode::Mulu => 3,
        _ => 1,
    }
}

/// The instruction that fills an empty slot.
pub open spec fn nop_instr() -> Instr {
    Instr {
        id: usize::MAX,
        opcode: Opcode::Nop,
        pred: None,
        dest_reg: None,
        dest_pred: None,
        dest_special: None,
        src_regs: seq![],
        imm: None,
        imm_bool: None,
        label: None,
    }
}

impl Clone for Instruction {
    fn clone(&self) -> (r: Self)
        ensures
            r@ == self@,
    {
        let src = self.src_regs.clone();
        assert(src@ =~= self.src_regs@);
        Instruction {
            id: self.id,
            opcode: self.opcode,
            pred: self.pred,
            dest_reg: self.dest_reg,
            dest_pred: self.dest_pred,
            dest_special: self.dest_special,
            src_regs: src,
            imm: self.imm,
            imm_bool: self.imm_bool,
            label: self.label,
        }
    }
}

impl Instruction {
    pub fn latency(&self) -> (l: usize)
        ensures
            l == latency_of(self.opcode),
    {
        match self.opcode {
            Opcode::Mulu => 3,
            _ => 1,
        }
    }

    pub fn unit_class(&self) -> (c: UnitClass)
        ensures
            c == class_of(self.opcode),
    {
        UnitClass::of_opcode(self.opcode)
    }

    pub fn nop() -> (i: Self)
        ensures
            i@ == nop_instr(),
    {
        let i = Instruction {
            id: usize::MAX,
            opcode: Opcode::Nop,
            pred: None,
            dest_reg: None,
            dest_pred: None,
            dest_special: None,
            src_regs: Vec::new(),
            imm: None,
            imm_bool: None,
            label: None,
        };
        assert(i@.src_regs =~= seq![]);
        i
    }
}

/// The contents of a bundle: one optional instruction per unit.
pub open spec fn slots_view(s: [Option<Instruction>; 5]) -> Seq<Option<Instr>> {
    s@.map_values(|o: Option<Instruction>| opt_view(o))
}

pub open spec fn opt_view(o: Option<Instruction>) -> Option<Instr> {
    match o {
        Some(i) => Some(i@),
        None => None,
    }
}

/// The work of one cycle: at most one instruction per execution unit.
#[derive(Debug)]
pub struct Bundle {
    pub slots: [Option<Instruction>; 5],
}

impl View for Bundle {
    type V = Seq<Option<Instr>>;

    open spec fn view(&self) -> Seq<Option<Instr>> {
        slots_view(self.slots)
    }
}

/// Every bundle has its five slots.
pub proof fn lemma_bundle_len(b: &Bundle)
    ensures
        b@.len() == 5,
{
    assert(b.slots@.len() == 5);
}

/// A bundle with every slot empty.
pub open spec fn empty_bundle() -> Seq<Option<Instr>> {
    seq![None, None, None, None, None]
}

fn clone_slot(o: &Option<Instruction>) -> (r: Option<Instruction>)
    ensures
        opt_view(r) == opt_view(*o),
{
    match o {
        Some(i) => Some(i.clone()),
        None => None,
    }
}

impl Clone for Bundle {
    fn clone(&self) -> (r: Self)
        ensures
            r@ == self@,
    {
        let r = Bundle {
            slots: [
                clone_slot(&self.slots[0]),
                clone_slot(&self.slots[1]),
                clone_slot(&self.slots[2]),
                clone_slot(&self.slots[3]),
                clone_slot(&self.slots[4]),
            ],
        };
        assert(r@ =~= self@);
        r
    }
}

impl Default for Bundle {
    fn default() -> (b: Self)
        ensures
            b@ == empty_bundle(),
    {
        Bundle::new()
    }
}

impl Bundle {
    pub fn new() -> (b: Self)
        ensures
            b@ == empty_bundle(),
    {
        let b = Bundle { slots: [None, None, None, None, None] };
        assert(b@ =~= empty_bundle());
        b
    }

    pub fn get(&self, u: ExecUnit) -> (r: Option<&Instruction>)
        ensures
            match r {
                Some(i) => self@[unit_index(u)] == Some(i@),
                None => self@[unit_index(u)] is None,
            },
    {
        self.slots[u.idx()].as_ref()
    }

    pub fn get_mut(&mut self, u: ExecUnit) -> (r: Option<&mut Instruction>)
        ensures
            match old(self)@[unit_index(u)] {
                None => r is None && final(self)@ == old(self)@,
                Some(i) => r is Some && (*r->0)@ == i && final(self)@ == old(self)@.update(
                    unit_index(u),
                    Some((*final(r->0))@),
                ),
            },
    {
        let k = u.idx();
        self.slots[k].as_mut()
    }

    pub fn set(&mut self, u: ExecUnit, i: Instruction)
        ensures
            final(self)@ == old(self)@.update(unit_index(u), Some(i@)),
    {
        let k = u.idx();
        self.slots[k] = Some(i);
        assert(self@ =~= old(self)@.update(unit_index(u), Some(i@)));
    }

    pub fn clear(&mut self, u: ExecUnit)
        ensures
            final(self)@ == old(self)@.update(unit_index(u), None),
    {
        let k = u.idx();
        self.slots[k] = None;
        assert(self@ =~= old(self)@.update(unit_index(u), None));
    }

    pub fn is_free(&self, u: ExecUnit) -> (b: bool)
        ensures
            b == self@[unit_index(u)] is None,
    {
        self.slots[u.idx()].is_none()
    }
}

} // verus!

verus! {

/// A sequence of bundles as plain values.
pub open spec fn bundles_view(v: Seq<Bundle>) -> Seq<Seq<Option<Instr>>> {
    v.map_values(|b: Bundle| b@)
}

/// The scheduled program, split into the pre-loop block, the loop body
/// and the post-loop block.
#[derive(Debug)]
pub struct Schedule {
    pub bb0: Vec<Bundle>,
    pub bb1: Vec<Bundle>,
    pub bb2: Vec<Bundle>,
    pub ii: usize,
}

/// A schedule as plain values.
pub struct Sched {
    pub bb0: Seq<Seq<Option<Instr>>>,
    pub bb1: Seq<Seq<Option<Instr>>>,
    pub bb2: Seq<Seq<Option<Instr>>>,
    pub ii: usize,
}

impl Sched {
    /// All bundles in output order.
    pub open spec fn flat(self) -> Seq<Seq<Option<Instr>>> {
        self.bb0 + self.bb1 + self.bb2
    }
}

impl View for Schedule {
    type V = Sched;

    open spec fn view(&self) -> Sched {
        Sched {
            bb0: bundles_view(self.bb0@),
            bb1: bundles_view(self.bb1@),
            bb2: bundles_view(self.bb2@),
            ii: self.ii,
        }
    }
}

impl Schedule {
    pub fn empty() -> (s: Self)
        ensures
            s@.bb0 == Seq::<Seq<Option<Instr>>>::empty(),
            s@.bb1 == Seq::<Seq<Option<Instr>>>::empty(),
            s@.bb2 == Seq::<Seq<Option<Instr>>>::empty(),
            s@.ii == 0,
    {
        let s = Schedule { bb0: Vec::new(), bb1: Vec::new(), bb2: Vec::new(), ii: 0 };
        assert(s@.bb0 =~= Seq::<Seq<Option<Instr>>>::empty());
        assert(s@.bb1 =~= Seq::<Seq<Option<Instr>>>::empty());
        assert(s@.bb2 =~= Seq::<Seq<Option<Instr>>>::empty());
        s
    }

    /// Index of the first loop-body bundle in the output.
    pub fn bb1_start(&self) -> (n: usize)
        ensures
            n == self.bb0@.len(),
    {
        self.bb0.len()
    }

    /// Index of the first post-loop bundle in the output.
    pub fn bb2_start(&self) -> (n: usize)
        requires
            self.bb0@.len() + self.bb1@.len() <= usize::MAX,
        ensures
            n == self.bb0@.len() + self.bb1@.len(),
    {
        self.bb0.len() + self.bb1.len()
    }

    /// Number of bundles in the output.
    pub fn total_bundles(&self) -> (n: usize)
        requires
            self.bb0@.len() + self.bb1@.len() + self.bb2@.len() <= usize::MAX,
        ensures
            n == self@.flat().len(),
    {
        self.bb0.len() + self.bb1.len() + self.bb2.len()
    }

    /// All bundles in output order.
    pub fn flat(&self) -> (v: Vec<&Bundle>)
        ensures
            v@.len() == self@.flat().len(),
            forall|k: int| 0 <= k < v@.len() ==> (#[trigger] v@[k])@ == self@.flat()[k],
    {
        let ghost f = self@.flat();
        let mut v: Vec<&Bundle> = Vec::new();
        let mut i: usize = 0;
        while i < self.bb0.len()
            invariant
                f == self@.flat(),
                i <= self.bb0@.len(),
                v@.len() == i,
                forall|k: int| 0 <= k < v@.len() ==> (#[trigger] v@[k])@ == f[k],
            decreases self.bb0@.len() - i,
        {
            assert(f[i as int] == self.bb0@[i as int]@);
            v.push(&self.bb0[i]);
            i = i + 1;
        }
        let mut i: usize = 0;
        while i < self.bb1.len()
            invariant
                f == self@.flat(),
                i <= self.bb1@.len(),
                v@.len() == self.bb0@.len() + i,
                forall|k: int| 0 <= k < v@.len() ==> (#[trigger] v@[k])@ == f[k],
            decreases self.bb1@.len() - i,
        {
            assert(f[self.bb0@.len() + i] == self.bb1@[i as int]@);
            v.push(&self.bb1[i]);
            i = i + 1;
        }
        let mut i: usize = 0;
        while i < self.bb2.len()
            invariant
                f == self@.flat(),
                i <= self.bb2@.len(),
                v@.len() == self.bb0@.len() + self.bb1@.len() + i,
                forall|k: int| 0 <= k < v@.len() ==> (#[trigger] v@[k])@ == f[k],
            decreases self.bb2@.len() - i,
        {
            assert(f[self.bb0@.len() + self.bb1@.len() + i] == self.bb2@[i as int]@);
            v.push(&self.bb2[i]);
            i = i + 1;
        }
        v
    }

    /// The bundle at an output index.
    pub fn bundle(&self, idx: usize) -> (b: &Bundle)
        requires
            idx < self@.flat().len(),
        ensures
            b@ == self@.flat()[idx as int],
    {
        if idx < self.bb0.len() {
            &self.bb0[idx]
        } else if idx - self.bb0.len() < self.bb1.len() {
            &self.bb1[idx - self.bb0.len()]
        } else {
            &self.bb2[idx - self.bb0.len() - self.bb1.len()]
        }
    }

    /// Mutable access to the bundle at an output index.
    pub fn bundle_mut(&mut self, idx: usize) -> (b: &mut Bundle)
        requires
            idx < old(self)@.flat().len(),
        ensures
            b@ == old(self)@.flat()[idx as int],
            final(self)@.flat() == old(self)@.flat().update(idx as int, final(b)@),
            final(self)@.bb0.len() == old(self)@.bb0.len(),
            final(self)@.bb1.len() == old(self)@.bb1.len(),
            final(self)@.bb2.len() == old(self)@.bb2.len(),
            final(self)@.ii == old(self)@.ii,
    {
        let bb0 = self.bb0.len();
        let bb1 = self.bb1.len();
        if idx < bb0 {
            &mut self.bb0[idx]
        } else if idx - bb0 < bb1 {
            &mut self.bb1[idx - bb0]
        } else {
            &mut self.bb2[idx - bb0 - bb1]
        }
    }
}

/// How the producer of a source operand relates to its consumer.
#[derive(Debug, Clone, Copy, PartialEq, Eq, Structural)]
pub enum DepKind {
    /// Producer earlier in the same basic block.
    Local(InstId),
    /// Consumer in the loop body, producer later in the body (the value of
    /// the previous iteration), possibly with an initializer before the loop.
    Interloop { bb0: Option<InstId>, bb1: InstId },
    /// Producer before the loop, and no producer in the body.
    LoopInvariant(InstId),
    /// Consumer after the loop, producer in the body.
    PostLoop(InstId),
}

/// Per-instruction dependencies: one entry per source operand.
#[derive(Debug, Clone)]
pub struct InstrDeps {
    pub src_deps: Vec<Option<DepKind>>,
}

pub type DepTable = Vec<InstrDeps>;

/// Where an instruction was placed.
#[derive(Debug, Clone, Copy, PartialEq, Eq, Structural)]
pub struct Placement {
    pub bundle: usize,
    pub unit: ExecUnit,
}

} // verus!
