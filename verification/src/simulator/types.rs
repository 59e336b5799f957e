//! Instructions and the entries of the core's internal structures.

use vstd::prelude::*;

verus! {

/// The integer operations the core executes.
#[derive(Debug, Clone, Copy, PartialEq, Eq, Structural)]
pub enum OpCode {
    Add,
    Sub,
    Mulu,
    Divu,
    Remu,
}

/// The assembly mnemonic of an operation.
pub open spec fn opcode_name(op: OpCode) -> Seq<char> {
    match op {
        OpCode::Add => seq!['a', 'd', 'd'],
        OpCode::Sub => seq!['s', 'u', 'b'],
        OpCode::Mulu => seq!['m', 'u', 'l', 'u'],
        OpCode::Divu => seq!['d', 'i', 'v', 'u'],
        OpCode::Remu => seq!['r', 'e', 'm', 'u'],
    }
}

impl OpCode {
    pub fn as_str(&self) -> (s: &'static str)
        ensures
            s@ == opcode_name(*self),
    {
        match self {
            OpCode::Add => {
                proof {
                    reveal_strlit("add");
                }
                "add"
            },
            OpCode::Sub => {
                proof {
                    reveal_strlit("sub");
                }
                "sub"
            },
            OpCode::Mulu => {
                proof {
                    reveal_strlit("mulu");
                }
                "mulu"
            },
            OpCode::Divu => {
                proof {
                    reveal_strlit("divu");
                }
                "divu"
            },
            OpCode::Remu => {
                proof {
                    reveal_strlit("remu");
                }
                "remu"
            },
        }
    }
}

/// Second operand of an instruction: an architectural register `x0..x31`
/// or a sign-extended immediate.
#[derive(Debug, Clone, Copy, PartialEq, Eq, Structural)]
pub enum OperandB {
    Reg(u8),
    Imm(i64),
}

/// A decoded instruction; `pc` is its index in the program.
#[derive(Debug, Clone, Copy, PartialEq, Eq, Structural)]
pub struct Instruction {
    pub pc: u64,
    pub op: OpCode,
    pub dest: u8,
    pub op_a: u8,
    pub op_b: OperandB,
}

impl Instruction {
    /// Every register the instruction names is one of `x0..x31`.
    pub open spec fn wf(self) -> bool {
        &&& self.dest < 32
        &&& self.op_a < 32
        &&& (self.op_b matches OperandB::Reg(r) ==> r < 32)
    }
}

/// An entry of the active list (reorder buffer).
#[derive(Debug, Clone, Copy)]
pub struct ActiveListEntry {
    pub done: bool,
    pub exception: bool,
    pub logical_destination: u8,
    pub old_destination: usize,
    pub pc: u64,
    pub new_destination: usize,
}

/// An entry of the integer queue (reservation station).
#[derive(Debug)]
pub struct IntegerQueueEntry {
    pub dest_register: usize,
    pub op_a_is_ready: bool,
    pub op_a_reg_tag: usize,
    pub op_a_value: u64,
    pub op_b_is_ready: bool,
    pub op_b_reg_tag: usize,
    pub op_b_value: u64,
    pub op_code: String,
    pub pc: u64,
    pub op: OpCode,
}

/// An integer queue entry as a plain value; its mnemonic follows from `op`.
pub struct IqEntry {
    pub dest_register: usize,
    pub op_a_is_ready: bool,
    pub op_a_reg_tag: usize,
    pub op_a_value: u64,
    pub op_b_is_ready: bool,
    pub op_b_reg_tag: usize,
    pub op_b_value: u64,
    pub pc: u64,
    pub op: OpCode,
}

impl View for IntegerQueueEntry {
    type V = IqEntry;

    open spec fn view(&self) -> IqEntry {
        IqEntry {
            dest_register: self.dest_register,
            op_a_is_ready: self.op_a_is_ready,
            op_a_reg_tag: self.op_a_reg_tag,
            op_a_value: self.op_a_value,
            op_b_is_ready: self.op_b_is_ready,
            op_b_reg_tag: self.op_b_reg_tag,
            op_b_value: self.op_b_value,
            pc: self.pc,
            op: self.op,
        }
    }
}

impl IntegerQueueEntry {
    /// The stored mnemonic is that of the operation.
    pub open spec fn wf(&self) -> bool {
        self.op_code@ == opcode_name(self.op)
    }
}

impl Clone for IntegerQueueEntry {
    fn clone(&self) -> (r: Self)
        ensures
            r == *self,
    {
        IntegerQueueEntry {
            dest_register: self.dest_register,
            op_a_is_ready: self.op_a_is_ready,
            op_a_reg_tag: self.op_a_reg_tag,
            op_a_value: self.op_a_value,
            op_b_is_ready: self.op_b_is_ready,
            op_b_reg_tag: self.op_b_reg_tag,
            op_b_value: self.op_b_value,
            op_code: self.op_code.clone(),
            pc: self.pc,
            op: self.op,
        }
    }
}

/// An instruction in flight in one of the ALU pipeline stages.
#[derive(Debug, Clone, Copy)]
pub struct AluSlot {
    pub pc: u64,
    pub dest_phys: usize,
    pub value: u64,
    pub exception: bool,
}

/// A result broadcast on the forwarding path at the end of an ALU.
#[derive(Debug, Clone, Copy)]
pub struct Forwarding {
    pub pc: u64,
    pub dest_phys: usize,
    pub value: u64,
    pub exception: bool,
}

} // verus!
