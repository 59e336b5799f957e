//! Reading the assembly program and splitting it into the pre-loop block
//! (BB0), the loop body including the loop instruction (BB1) and the
//! post-loop block (BB2).

use std::ops::Range;

use vstd::prelude::*;

use crate::scheduler::ir::{InstId, Instr, Instruction, Opcode, SpecialReg};
use crate::text::{
    all_trimmed, chars_of, find_char, find_whitespace, first_char_from, first_ws_from, has_prefix,
    lemma_first_char_bounds, parse_i64, parse_i64_spec, parse_u8, parse_u8_spec, range_eq,
    range_starts_with, split_on, split_ranges, trim, trim_bounds, trim_ranges, trim_start,
    trim_start_bound,
};

verus! {

#[derive(Debug, Clone, Copy, PartialEq, Eq, Structural)]
pub enum LoopKind {
    Loop,
    LoopPip,
}

/// Why an instruction string was rejected.
#[derive(Debug, Clone, Copy, PartialEq, Eq, Structural)]
pub enum InstrError {
    /// `(` of a predicate prefix without a `)`.
    UnclosedPredicate,
    /// A predicate register does not start with `p`.
    ExpectedPredicate,
    /// A predicate register number is not a number from 0 to 255.
    BadPredicate,
    /// A register operand does not start with `x`.
    ExpectedXRegister,
    /// A register number is not a number from 0 to 255.
    BadXRegister,
    /// An immediate is not a 64-bit decimal or hexadecimal number.
    BadImmediate,
    /// `-0x` followed by the most negative number, whose negation
    /// overflows; such a text is outside the parser's contract.
    ImmediateOverflow,
    /// A predicate value other than `true` or `false`.
    BadBool,
    /// A memory operand without `(`.
    MissingOpenParen,
    /// A memory operand without `)`.
    MissingCloseParen,
    /// A memory operand whose `)` comes before its `(` and whose text
    /// before the `(` reads as an immediate; such a text is outside the
    /// parser's contract.
    MisorderedParens,
    /// Wrong number of operands for the mnemonic.
    OperandCount,
    /// Unknown mnemonic.
    UnknownOpcode,
}

/// Why a program was rejected.
#[derive(Debug, Clone, Copy, PartialEq, Eq, Structural)]
pub enum ProgramError {
    /// The instruction on the given input line is malformed.
    Line(usize, InstrError),
    /// The loop instruction jumps forward.
    LoopTargetAfterLoop,
}

/// The parsed program with its basic-block boundaries.
#[derive(Debug, Clone)]
pub struct Program {
    pub instrs: Vec<Instruction>,
    /// BB0 is `[0, bb1_start)`.
    pub bb1_start: usize,
    /// BB1 is `[bb1_start, bb1_end)`, the loop instruction included.
    pub bb1_end: usize,
    /// BB2 is `[bb1_end, instrs.len())`.
    pub loop_kind: Option<LoopKind>,
}

/// A program as plain values.
pub struct Prog {
    pub instrs: Seq<Instr>,
    pub bb1_start: usize,
    pub bb1_end: usize,
    pub loop_kind: Option<LoopKind>,
}

impl View for Program {
    type V = Prog;

    open spec fn view(&self) -> Prog {
        Prog {
            instrs: self.instrs@.map_values(|i: Instruction| i@),
            bb1_start: self.bb1_start,
            bb1_end: self.bb1_end,
            loop_kind: self.loop_kind,
        }
    }
}

impl Prog {
    /// Block boundaries are ordered, a loop closes BB1, and instruction
    /// `i` carries id `i`.
    pub open spec fn wf(self) -> bool {
        &&& self.bb1_start <= self.bb1_end <= self.instrs.len()
        &&& (self.loop_kind is Some <==> self.bb1_start < self.bb1_end)
        &&& forall|i: int| 0 <= i < self.instrs.len() ==> (#[trigger] self.instrs[i]).id == i
        &&& forall|i: int| 0 <= i < self.bb1_end - 1 ==> !is_loop_op((#[trigger] self.instrs[i]).opcode)
        &&& self.loop_kind is Some ==> is_loop_op(self.instrs[self.bb1_end - 1].opcode)
            && self.instrs[self.bb1_end - 1].label is Some
            && self.instrs[self.bb1_end - 1].dest_reg is None
        &&& self.loop_kind is None ==> self.bb1_end == self.instrs.len()
    }

    pub open spec fn in_bb0(self, i: int) -> bool {
        0 <= i < self.bb1_start
    }

    pub open spec fn in_bb1(self, i: int) -> bool {
        self.bb1_start <= i < self.bb1_end
    }

    pub open spec fn in_bb2(self, i: int) -> bool {
        self.bb1_end <= i < self.instrs.len()
    }
}

impl Program {
    pub fn bb0_range(&self) -> (r: Range<usize>)
        ensures
            r.start == 0 && r.end == self.bb1_start,
    {
        0..self.bb1_start
    }

    pub fn bb1_range(&self) -> (r: Range<usize>)
        ensures
            r.start == self.bb1_start && r.end == self.bb1_end,
    {
        self.bb1_start..self.bb1_end
    }

    pub fn bb2_range(&self) -> (r: Range<usize>)
        ensures
            r.start == self.bb1_end && r.end == self.instrs@.len(),
    {
        self.bb1_end..self.instrs.len()
    }

    pub fn in_bb0(&self, i: InstId) -> (b: bool)
        ensures
            b == self@.in_bb0(i as int),
    {
        i < self.bb1_start
    }

    pub fn in_bb1(&self, i: InstId) -> (b: bool)
        ensures
            b == self@.in_bb1(i as int),
    {
        self.bb1_start <= i && i < self.bb1_end
    }

    pub fn in_bb2(&self, i: InstId) -> (b: bool)
        ensures
            b == self@.in_bb2(i as int),
    {
        self.bb1_end <= i && i < self.instrs.len()
    }

    /// Index of the loop instruction (the last of BB1), if there is a loop.
    pub fn loop_idx(&self) -> (r: Option<InstId>)
        requires
            self@.wf(),
        ensures
            match self.loop_kind {
                Some(_) => r == Some((self.bb1_end - 1) as usize),
                None => r is None,
            },
    {
        if self.loop_kind.is_some() {
            Some(self.bb1_end - 1)
        } else {
            None
        }
    }
}

// ---------------------------------------------------------------------
// The grammar
// ---------------------------------------------------------------------

/// An x-register operand `xN`, `N` from 0 to 255.
pub open spec fn x_reg_spec(t: Seq<char>) -> Result<u8, InstrError> {
    let u = trim(t);
    if !(u.len() > 0 && u[0] == 'x') {
        Err(InstrError::ExpectedXRegister)
    } else {
        match parse_u8_spec(u.drop_first()) {
            Some(v) => Ok(v),
            None => Err(InstrError::BadXRegister),
        }
    }
}

/// A predicate register `pN`, `N` from 0 to 255.
pub open spec fn pred_reg_spec(t: Seq<char>) -> Result<u8, InstrError> {
    let u = trim(t);
    if !(u.len() > 0 && u[0] == 'p') {
        Err(InstrError::ExpectedPredicate)
    } else {
        match parse_u8_spec(u.drop_first()) {
            Some(v) => Ok(v),
            None => Err(InstrError::BadPredicate),
        }
    }
}

/// An immediate: `0x`/`0X` hexadecimal, `-0x`/`-0X` negated hexadecimal,
/// or decimal.
pub open spec fn imm_spec(t: Seq<char>) -> Result<i64, InstrError> {
    let s = trim(t);
    if has_prefix(s, seq!['0', 'x']) || has_prefix(s, seq!['0', 'X']) {
        match parse_i64_spec(s.skip(2), 16) {
            Some(v) => Ok(v),
            None => Err(InstrError::BadImmediate),
        }
    } else if has_prefix(s, seq!['-', '0', 'x']) || has_prefix(s, seq!['-', '0', 'X']) {
        match parse_i64_spec(s.skip(3), 16) {
            Some(v) => if v == i64::MIN {
                Err(InstrError::ImmediateOverflow)
            } else {
                Ok(-v as i64)
            },
            None => Err(InstrError::BadImmediate),
        }
    } else {
        match parse_i64_spec(s, 10) {
            Some(v) => Ok(v),
            None => Err(InstrError::BadImmediate),
        }
    }
}

pub open spec fn bool_spec(t: Seq<char>) -> Result<bool, InstrError> {
    let s = trim(t);
    if s == seq!['t', 'r', 'u', 'e'] {
        Ok(true)
    } else if s == seq!['f', 'a', 'l', 's', 'e'] {
        Ok(false)
    } else {
        Err(InstrError::BadBool)
    }
}

/// A memory operand `imm(xN)`.
pub open spec fn mem_spec(t: Seq<char>) -> Result<(i64, u8), InstrError> {
    let open = first_char_from(t, '(', 0);
    let close = first_char_from(t, ')', 0);
    if open >= t.len() {
        Err(InstrError::MissingOpenParen)
    } else if close >= t.len() {
        Err(InstrError::MissingCloseParen)
    } else {
        match imm_spec(trim(t.take(open))) {
            Err(e) => Err(e),
            Ok(imm) => if close < open {
                Err(InstrError::MisorderedParens)
            } else {
                match x_reg_spec(trim(t.subrange(open + 1, close))) {
                    Err(e) => Err(e),
                    Ok(r) => Ok((imm, r)),
                }
            },
        }
    }
}

/// An instruction with only its id, opcode and predicate set.
pub open spec fn bare_instr(id: InstId, pred: Option<u8>, opcode: Opcode) -> Instr {
    Instr {
        id,
        opcode,
        pred,
        dest_reg: None,
        dest_pred: None,
        dest_special: None,
        src_regs: seq![],
        imm: None,
        imm_bool: None,
        label: None,
    }
}

pub open spec fn three_reg_spec(b: Instr, ops: Seq<Seq<char>>) -> Result<Instr, InstrError> {
    if ops.len() != 3 {
        Err(InstrError::OperandCount)
    } else {
        match x_reg_spec(ops[0]) {
            Err(e) => Err(e),
            Ok(d) => match x_reg_spec(ops[1]) {
                Err(e) => Err(e),
                Ok(s1) => match x_reg_spec(ops[2]) {
                    Err(e) => Err(e),
                    Ok(s2) => Ok(Instr { dest_reg: Some(d), src_regs: seq![s1, s2], ..b }),
                },
            },
        }
    }
}

pub open spec fn addi_spec(b: Instr, ops: Seq<Seq<char>>) -> Result<Instr, InstrError> {
    if ops.len() != 3 {
        Err(InstrError::OperandCount)
    } else {
        match x_reg_spec(ops[0]) {
            Err(e) => Err(e),
            Ok(d) => match x_reg_spec(ops[1]) {
                Err(e) => Err(e),
                Ok(s1) => match imm_spec(ops[2]) {
                    Err(e) => Err(e),
                    Ok(v) => Ok(Instr { dest_reg: Some(d), src_regs: seq![s1], imm: Some(v), ..b }),
                },
            },
        }
    }
}

pub open spec fn ld_spec(b: Instr, ops: Seq<Seq<char>>) -> Result<Instr, InstrError> {
    if ops.len() != 2 {
        Err(InstrError::OperandCount)
    } else {
        match x_reg_spec(ops[0]) {
            Err(e) => Err(e),
            Ok(d) => match mem_spec(ops[1]) {
                Err(e) => Err(e),
                Ok(m) => Ok(Instr { dest_reg: Some(d), imm: Some(m.0), src_regs: seq![m.1], ..b }),
            },
        }
    }
}

pub open spec fn st_spec(b: Instr, ops: Seq<Seq<char>>) -> Result<Instr, InstrError> {
    if ops.len() != 2 {
        Err(InstrError::OperandCount)
    } else {
        match x_reg_spec(ops[0]) {
            Err(e) => Err(e),
            Ok(src) => match mem_spec(ops[1]) {
                Err(e) => Err(e),
                Ok(m) => Ok(Instr { src_regs: seq![src, m.1], imm: Some(m.0), ..b }),
            },
        }
    }
}

pub open spec fn loop_spec(b: Instr, ops: Seq<Seq<char>>) -> Result<Instr, InstrError> {
    if ops.len() != 1 {
        Err(InstrError::OperandCount)
    } else {
        match imm_spec(ops[0]) {
            Err(e) => Err(e),
            Ok(v) => Ok(Instr { label: Some(v as usize), ..b }),
        }
    }
}

pub open spec fn mov_spec(b: Instr, ops: Seq<Seq<char>>) -> Result<Instr, InstrError> {
    if ops.len() != 2 {
        Err(InstrError::OperandCount)
    } else {
        let dst = ops[0];
        let src = ops[1];
        if dst.len() > 0 && dst[0] == 'p' {
            match pred_reg_spec(dst) {
                Err(e) => Err(e),
                Ok(p) => match bool_spec(src) {
                    Err(e) => Err(e),
                    Ok(v) => Ok(
                        Instr { opcode: Opcode::MovPred, dest_pred: Some(p), imm_bool: Some(v), ..b },
                    ),
                },
            }
        } else if dst == seq!['L', 'C'] {
            match imm_spec(src) {
                Err(e) => Err(e),
                Ok(v) => Ok(
                    Instr {
                        opcode: Opcode::MovLC,
                        dest_special: Some(SpecialReg::LC),
                        imm: Some(v),
                        ..b
                    },
                ),
            }
        } else if dst == seq!['E', 'C'] {
            match imm_spec(src) {
                Err(e) => Err(e),
                Ok(v) => Ok(
                    Instr {
                        opcode: Opcode::MovEC,
                        dest_special: Some(SpecialReg::EC),
                        imm: Some(v),
                        ..b
                    },
                ),
            }
        } else {
            match x_reg_spec(dst) {
                Err(e) => Err(e),
                Ok(d) => if src.len() > 0 && src[0] == 'x' {
                    match x_reg_spec(src) {
                        Err(e) => Err(e),
                        Ok(r) => Ok(
                            Instr {
                                opcode: Opcode::MovReg,
                                dest_reg: Some(d),
                                src_regs: seq![r],
                                ..b
                            },
                        ),
                    }
                } else {
                    match imm_spec(src) {
                        Err(e) => Err(e),
                        Ok(v) => Ok(
                            Instr { opcode: Opcode::MovImm, dest_reg: Some(d), imm: Some(v), ..b },
                        ),
                    }
                },
            }
        }
    }
}

/// The body of an instruction after its optional predicate prefix:
/// mnemonic, white space, comma-separated operands.
pub open spec fn body_spec(id: InstId, pred: Option<u8>, rest: Seq<char>) -> Result<Instr, InstrError> {
    let k = first_ws_from(rest, 0);
    let m = rest.take(k);
    let tail = trim_start(rest.skip(k));
    let ops = if tail.len() == 0 {
        Seq::<Seq<char>>::empty()
    } else {
        all_trimmed(split_on(tail, ','))
    };
    if m == seq!['a', 'd', 'd'] {
        three_reg_spec(bare_instr(id, pred, Opcode::Add), ops)
    } else if m == seq!['a', 'd', 'd', 'i'] {
        addi_spec(bare_instr(id, pred, Opcode::Addi), ops)
    } else if m == seq!['s', 'u', 'b'] {
        three_reg_spec(bare_instr(id, pred, Opcode::Sub), ops)
    } else if m == seq!['m', 'u', 'l', 'u'] {
        three_reg_spec(bare_instr(id, pred, Opcode::Mulu), ops)
    } else if m == seq!['l', 'd'] {
        ld_spec(bare_instr(id, pred, Opcode::Ld), ops)
    } else if m == seq!['s', 't'] {
        st_spec(bare_instr(id, pred, Opcode::St), ops)
    } else if m == seq!['l', 'o', 'o', 'p'] {
        loop_spec(bare_instr(id, pred, Opcode::Loop), ops)
    } else if m == seq!['l', 'o', 'o', 'p', '.', 'p', 'i', 'p'] {
        loop_spec(bare_instr(id, pred, Opcode::LoopPip), ops)
    } else if m == seq!['n', 'o', 'p'] {
        Ok(bare_instr(id, pred, Opcode::Nop))
    } else if m == seq!['m', 'o', 'v'] {
        mov_spec(bare_instr(id, pred, Opcode::Nop), ops)
    } else {
        Err(InstrError::UnknownOpcode)
    }
}

/// One instruction string, with an optional `(pN)` predicate prefix.
#[verifier::opaque]
pub open spec fn instr_spec(id: InstId, raw: Seq<char>) -> Result<Instr, InstrError> {
    let s = trim(raw);
    if s.len() > 0 && s[0] == '(' {
        let r = s.drop_first();
        let end = first_char_from(r, ')', 0);
        if end >= r.len() {
            Err(InstrError::UnclosedPredicate)
        } else {
            match pred_reg_spec(r.take(end)) {
                Err(e) => Err(e),
                Ok(p) => body_spec(id, Some(p), trim(r.skip(end + 1))),
            }
        }
    } else {
        body_spec(id, None, s)
    }
}

/// All instruction strings; the first bad one decides the error.
pub open spec fn instrs_spec(raw: Seq<Seq<char>>) -> Result<Seq<Instr>, ProgramError>
    decreases raw.len(),
{
    if raw.len() == 0 {
        Ok(seq![])
    } else {
        match instrs_spec(raw.drop_last()) {
            Err(e) => Err(e),
            Ok(v) => match instr_spec((raw.len() - 1) as usize, raw.last()) {
                Err(e) => Err(ProgramError::Line((raw.len() - 1) as usize, e)),
                Ok(i) => Ok(v.push(i)),
            },
        }
    }
}

pub open spec fn is_loop_op(op: Opcode) -> bool {
    op == Opcode::Loop || op == Opcode::LoopPip
}

/// The first position at or after `k` holding a loop instruction.
pub open spec fn first_loop_from(instrs: Seq<Instr>, k: int) -> int
    decreases instrs.len() - k,
{
    if k >= instrs.len() {
        instrs.len() as int
    } else if instrs[k].opcode == Opcode::Loop || instrs[k].opcode == Opcode::LoopPip {
        k
    } else {
        first_loop_from(instrs, k + 1)
    }
}

/// The program: BB1 runs from the loop's target to the first loop
/// instruction; without a loop, everything is BB0.
pub open spec fn program_spec(raw: Seq<Seq<char>>) -> Result<Prog, ProgramError> {
    match instrs_spec(raw) {
        Err(e) => Err(e),
        Ok(instrs) => {
            let li = first_loop_from(instrs, 0);
            if li >= instrs.len() {
                Ok(
                    Prog {
                        instrs,
                        bb1_start: instrs.len() as usize,
                        bb1_end: instrs.len() as usize,
                        loop_kind: None,
                    },
                )
            } else {
                let target = instrs[li].label->0;
                if target > li {
                    Err(ProgramError::LoopTargetAfterLoop)
                } else {
                    Ok(
                        Prog {
                            instrs,
                            bb1_start: target,
                            bb1_end: (li + 1) as usize,
                            loop_kind: Some(
                                if instrs[li].opcode == Opcode::Loop {
                                    LoopKind::Loop
                                } else {
                                    LoopKind::LoopPip
                                },
                            ),
                        },
                    )
                }
            }
        },
    }
}

} // verus!

verus! {

/// A parse result with the instruction as a plain value.
pub open spec fn instr_result(r: Result<Instruction, InstrError>) -> Result<Instr, InstrError> {
    match r {
        Ok(i) => Ok(i@),
        Err(e) => Err(e),
    }
}

fn parse_x(s: &Vec<char>, lo: usize, hi: usize) -> (r: Result<u8, InstrError>)
    requires
        lo <= hi <= s@.len(),
    ensures
        r == x_reg_spec(s@.subrange(lo as int, hi as int)),
{
    let (a, b) = trim_bounds(s, lo, hi);
    let ghost u = s@.subrange(a as int, b as int);
    if !(a < b && s[a] == 'x') {
        proof {
            if a < b {
                assert(u[0] == s@[a as int]);
            }
        }
        return Err(InstrError::ExpectedXRegister);
    }
    proof {
        assert(u[0] == s@[a as int]);
        assert(u.drop_first() =~= s@.subrange(a + 1, b as int));
    }
    match parse_u8(s, a + 1, b) {
        Some(v) => Ok(v),
        None => Err(InstrError::BadXRegister),
    }
}

fn parse_pred_reg(s: &Vec<char>, lo: usize, hi: usize) -> (r: Result<u8, InstrError>)
    requires
        lo <= hi <= s@.len(),
    ensures
        r == pred_reg_spec(s@.subrange(lo as int, hi as int)),
{
    let (a, b) = trim_bounds(s, lo, hi);
    let ghost u = s@.subrange(a as int, b as int);
    if !(a < b && s[a] == 'p') {
        proof {
            if a < b {
                assert(u[0] == s@[a as int]);
            }
        }
        return Err(InstrError::ExpectedPredicate);
    }
    proof {
        assert(u[0] == s@[a as int]);
        assert(u.drop_first() =~= s@.subrange(a + 1, b as int));
    }
    match parse_u8(s, a + 1, b) {
        Some(v) => Ok(v),
        None => Err(InstrError::BadPredicate),
    }
}

fn parse_imm(s: &Vec<char>, lo: usize, hi: usize) -> (r: Result<i64, InstrError>)
    requires
        lo <= hi <= s@.len(),
    ensures
        r == imm_spec(s@.subrange(lo as int, hi as int)),
{
    let (a, b) = trim_bounds(s, lo, hi);
    let ghost t = s@.subrange(a as int, b as int);
    proof {
        reveal_strlit("0x");
        reveal_strlit("0X");
        reveal_strlit("-0x");
        reveal_strlit("-0X");
        assert("0x"@ =~= seq!['0', 'x']);
        assert("0X"@ =~= seq!['0', 'X']);
        assert("-0x"@ =~= seq!['-', '0', 'x']);
        assert("-0X"@ =~= seq!['-', '0', 'X']);
    }
    if range_starts_with(s, a, b, "0x") || range_starts_with(s, a, b, "0X") {
        proof {
            assert(s@.subrange(a + 2, b as int) =~= t.skip(2));
        }
        match parse_i64(s, a + 2, b, 16) {
            Some(v) => Ok(v),
            None => Err(InstrError::BadImmediate),
        }
    } else if range_starts_with(s, a, b, "-0x") || range_starts_with(s, a, b, "-0X") {
        proof {
            assert(s@.subrange(a + 3, b as int) =~= t.skip(3));
        }
        match parse_i64(s, a + 3, b, 16) {
            Some(v) => {
                if v == i64::MIN {
                    Err(InstrError::ImmediateOverflow)
                } else {
                    Ok(-v)
                }
            },
            None => Err(InstrError::BadImmediate),
        }
    } else {
        match parse_i64(s, a, b, 10) {
            Some(v) => Ok(v),
            None => Err(InstrError::BadImmediate),
        }
    }
}

fn parse_bool(s: &Vec<char>, lo: usize, hi: usize) -> (r: Result<bool, InstrError>)
    requires
        lo <= hi <= s@.len(),
    ensures
        r == bool_spec(s@.subrange(lo as int, hi as int)),
{
    let (a, b) = trim_bounds(s, lo, hi);
    proof {
        reveal_strlit("true");
        reveal_strlit("false");
        assert("true"@ =~= seq!['t', 'r', 'u', 'e']);
        assert("false"@ =~= seq!['f', 'a', 'l', 's', 'e']);
    }
    if range_eq(s, a, b, "true") {
        Ok(true)
    } else if range_eq(s, a, b, "false") {
        Ok(false)
    } else {
        Err(InstrError::BadBool)
    }
}

fn parse_mem(s: &Vec<char>, lo: usize, hi: usize) -> (r: Result<(i64, u8), InstrError>)
    requires
        lo <= hi <= s@.len(),
    ensures
        r == mem_spec(s@.subrange(lo as int, hi as int)),
{
    let ghost t = s@.subrange(lo as int, hi as int);
    let open = find_char(s, lo, hi, '(');
    let close = find_char(s, lo, hi, ')');
    if open == hi {
        return Err(InstrError::MissingOpenParen);
    }
    if close == hi {
        return Err(InstrError::MissingCloseParen);
    }
    proof {
        lemma_first_char_bounds(t, '(', 0);
        lemma_first_char_bounds(t, ')', 0);
        assert(close != open);
        assert(s@.subrange(lo as int, open as int) =~= t.take(open - lo));
    }
    let (ia, ib) = trim_bounds(s, lo, open);
    let imm = match parse_imm(s, ia, ib) {
        Ok(v) => v,
        Err(e) => return Err(e),
    };
    if close < open {
        return Err(InstrError::MisorderedParens);
    }
    proof {
        assert(s@.subrange(open + 1, close as int) =~= t.subrange(open - lo + 1, close - lo));
    }
    let (ra, rb) = trim_bounds(s, open + 1, close);
    match parse_x(s, ra, rb) {
        Ok(reg) => Ok((imm, reg)),
        Err(e) => Err(e),
    }
}

fn need_operands(ops: &Vec<(usize, usize)>, n: usize) -> (r: Result<(), InstrError>)
    ensures
        r is Ok <==> ops@.len() == n,
        r is Err ==> r == Err::<(), InstrError>(InstrError::OperandCount),
{
    if ops.len() != n {
        return Err(InstrError::OperandCount);
    }
    Ok(())
}

/// The mnemonic of `s[lo..hi]` (up to the first white space) and the rest
/// without its leading white space, as ranges.
fn split_mnemonic(s: &Vec<char>, lo: usize, hi: usize) -> (r: (usize, usize, usize))
    requires
        lo <= hi <= s@.len(),
    ensures
        lo <= r.0 <= r.1 <= hi,
        s@.subrange(lo as int, r.0 as int) == s@.subrange(lo as int, hi as int).take(
            first_ws_from(s@.subrange(lo as int, hi as int), 0),
        ),
        s@.subrange(r.1 as int, hi as int) == trim_start(
            s@.subrange(lo as int, hi as int).skip(first_ws_from(s@.subrange(lo as int, hi as int), 0)),
        ),
{
    let ghost t = s@.subrange(lo as int, hi as int);
    let k = find_whitespace(s, lo, hi);
    let a = trim_start_bound(s, k, hi);
    proof {
        assert(s@.subrange(lo as int, k as int) =~= t.take(k - lo));
        assert(s@.subrange(k as int, hi as int) =~= t.skip(k - lo));
    }
    (k, a, 0)
}

} // verus!

verus! {

/// The operand texts of a list of ranges.
pub open spec fn range_texts(s: Seq<char>, ops: Seq<(usize, usize)>) -> Seq<Seq<char>> {
    ops.map_values(|x: (usize, usize)| s.subrange(x.0 as int, x.1 as int))
}

pub open spec fn ranges_ok(s: Seq<char>, ops: Seq<(usize, usize)>) -> bool {
    forall|k: int| 0 <= k < ops.len() ==> (#[trigger] ops[k]).0 <= ops[k].1 <= s.len()
}

fn bare(id: InstId, pred: Option<u8>, opcode: Opcode) -> (i: Instruction)
    ensures
        i@ == bare_instr(id, pred, opcode),
{
    let i = Instruction {
        id,
        opcode,
        pred,
        dest_reg: None,
        dest_pred: None,
        dest_special: None,
        src_regs: Vec::new(),
        imm: None,
        imm_bool: None,
        label: None,
    };
    assert(i@ =~= bare_instr(id, pred, opcode));
    i
}

fn three_reg(s: &Vec<char>, ops: &Vec<(usize, usize)>, b: Instruction) -> (r: Result<Instruction, InstrError>)
    requires
        ranges_ok(s@, ops@),
    ensures
        instr_result(r) == three_reg_spec(b@, range_texts(s@, ops@)),
{
    let ghost t = range_texts(s@, ops@);
    match need_operands(ops, 3) {
        Ok(()) => {},
        Err(e) => return Err(e),
    }
    let d = match parse_x(s, ops[0].0, ops[0].1) {
        Ok(v) => v,
        Err(e) => return Err(e),
    };
    let s1 = match parse_x(s, ops[1].0, ops[1].1) {
        Ok(v) => v,
        Err(e) => return Err(e),
    };
    let s2 = match parse_x(s, ops[2].0, ops[2].1) {
        Ok(v) => v,
        Err(e) => return Err(e),
    };
    let mut i = b;
    i.dest_reg = Some(d);
    i.src_regs = vec![s1, s2];
    assert(i@ =~= Instr { dest_reg: Some(d), src_regs: seq![s1, s2], ..b@ });
    Ok(i)
}

fn addi(s: &Vec<char>, ops: &Vec<(usize, usize)>, b: Instruction) -> (r: Result<Instruction, InstrError>)
    requires
        ranges_ok(s@, ops@),
    ensures
        instr_result(r) == addi_spec(b@, range_texts(s@, ops@)),
{
    match need_operands(ops, 3) {
        Ok(()) => {},
        Err(e) => return Err(e),
    }
    let d = match parse_x(s, ops[0].0, ops[0].1) {
        Ok(v) => v,
        Err(e) => return Err(e),
    };
    let s1 = match parse_x(s, ops[1].0, ops[1].1) {
        Ok(v) => v,
        Err(e) => return Err(e),
    };
    let v = match parse_imm(s, ops[2].0, ops[2].1) {
        Ok(v) => v,
        Err(e) => return Err(e),
    };
    let mut i = b;
    i.dest_reg = Some(d);
    i.src_regs = vec![s1];
    assert(i.src_regs@ =~= seq![s1]);
    i.imm = Some(v);
    assert(i@ =~= Instr { dest_reg: Some(d), src_regs: seq![s1], imm: Some(v), ..b@ });
    Ok(i)
}

fn ld(s: &Vec<char>, ops: &Vec<(usize, usize)>, b: Instruction) -> (r: Result<Instruction, InstrError>)
    requires
        ranges_ok(s@, ops@),
    ensures
        instr_result(r) == ld_spec(b@, range_texts(s@, ops@)),
{
    match need_operands(ops, 2) {
        Ok(()) => {},
        Err(e) => return Err(e),
    }
    let d = match parse_x(s, ops[0].0, ops[0].1) {
        Ok(v) => v,
        Err(e) => return Err(e),
    };
    let (imm, addr) = match parse_mem(s, ops[1].0, ops[1].1) {
        Ok(m) => m,
        Err(e) => return Err(e),
    };
    let mut i = b;
    i.dest_reg = Some(d);
    i.imm = Some(imm);
    i.src_regs = vec![addr];
    assert(i.src_regs@ =~= seq![addr]);
    assert(i@ =~= Instr { dest_reg: Some(d), imm: Some(imm), src_regs: seq![addr], ..b@ });
    Ok(i)
}

fn st(s: &Vec<char>, ops: &Vec<(usize, usize)>, b: Instruction) -> (r: Result<Instruction, InstrError>)
    requires
        ranges_ok(s@, ops@),
    ensures
        instr_result(r) == st_spec(b@, range_texts(s@, ops@)),
{
    match need_operands(ops, 2) {
        Ok(()) => {},
        Err(e) => return Err(e),
    }
    let src = match parse_x(s, ops[0].0, ops[0].1) {
        Ok(v) => v,
        Err(e) => return Err(e),
    };
    let (imm, addr) = match parse_mem(s, ops[1].0, ops[1].1) {
        Ok(m) => m,
        Err(e) => return Err(e),
    };
    let mut i = b;
    i.src_regs = vec![src, addr];
    i.imm = Some(imm);
    assert(i@ =~= Instr { src_regs: seq![src, addr], imm: Some(imm), ..b@ });
    Ok(i)
}

fn loop_target(s: &Vec<char>, ops: &Vec<(usize, usize)>, b: Instruction) -> (r: Result<Instruction, InstrError>)
    requires
        ranges_ok(s@, ops@),
    ensures
        instr_result(r) == loop_spec(b@, range_texts(s@, ops@)),
{
    match need_operands(ops, 1) {
        Ok(()) => {},
        Err(e) => return Err(e),
    }
    let v = match parse_imm(s, ops[0].0, ops[0].1) {
        Ok(v) => v,
        Err(e) => return Err(e),
    };
    let mut i = b;
    i.label = Some(v as usize);
    Ok(i)
}

#[verifier::spinoff_prover]
fn mov(s: &Vec<char>, ops: &Vec<(usize, usize)>, b: Instruction) -> (r: Result<Instruction, InstrError>)
    requires
        ranges_ok(s@, ops@),
    ensures
        instr_result(r) == mov_spec(b@, range_texts(s@, ops@)),
{
    let ghost t = range_texts(s@, ops@);
    match need_operands(ops, 2) {
        Ok(()) => {},
        Err(e) => return Err(e),
    }
    let (da, db) = ops[0];
    let (sa, sb) = ops[1];
    proof {
        assert(t[0] == s@.subrange(da as int, db as int));
        assert(t[1] == s@.subrange(sa as int, sb as int));
        reveal_strlit("LC");
        reveal_strlit("EC");
        assert("LC"@ =~= seq!['L', 'C']);
        assert("EC"@ =~= seq!['E', 'C']);
    }
    let mut i = b;
    if da < db && s[da] == 'p' {
        let p = match parse_pred_reg(s, da, db) {
            Ok(v) => v,
            Err(e) => return Err(e),
        };
        let v = match parse_bool(s, sa, sb) {
            Ok(v) => v,
            Err(e) => return Err(e),
        };
        i.opcode = Opcode::MovPred;
        i.dest_pred = Some(p);
        i.imm_bool = Some(v);
        Ok(i)
    } else {
        proof {
            if da < db {
                assert(t[0][0] == s@[da as int]);
            }
        }
        if range_eq(s, da, db, "LC") {
            let v = match parse_imm(s, sa, sb) {
                Ok(v) => v,
                Err(e) => return Err(e),
            };
            i.opcode = Opcode::MovLC;
            i.dest_special = Some(SpecialReg::LC);
            i.imm = Some(v);
            Ok(i)
        } else if range_eq(s, da, db, "EC") {
            let v = match parse_imm(s, sa, sb) {
                Ok(v) => v,
                Err(e) => return Err(e),
            };
            i.opcode = Opcode::MovEC;
            i.dest_special = Some(SpecialReg::EC);
            i.imm = Some(v);
            Ok(i)
        } else {
            let d = match parse_x(s, da, db) {
                Ok(v) => v,
                Err(e) => return Err(e),
            };
            i.dest_reg = Some(d);
            if sa < sb && s[sa] == 'x' {
                proof {
                    assert(t[1][0] == s@[sa as int]);
                }
                let r = match parse_x(s, sa, sb) {
                    Ok(v) => v,
                    Err(e) => return Err(e),
                };
                i.opcode = Opcode::MovReg;
                i.src_regs = vec![r];
                assert(i.src_regs@ =~= seq![r]);
                assert(i@ =~= Instr {
                    opcode: Opcode::MovReg,
                    dest_reg: Some(d),
                    src_regs: seq![r],
                    ..b@
                });
                Ok(i)
            } else {
                proof {
                    if sa < sb {
                        assert(t[1][0] == s@[sa as int]);
                    }
                }
                let v = match parse_imm(s, sa, sb) {
                    Ok(v) => v,
                    Err(e) => return Err(e),
                };
                i.opcode = Opcode::MovImm;
                i.imm = Some(v);
                Ok(i)
            }
        }
    }
}

} // verus!

verus! {

#[verifier::spinoff_prover]
#[verifier::rlimit(40)]
fn body(s: &Vec<char>, lo: usize, hi: usize, id: InstId, pred: Option<u8>) -> (r: Result<
    Instruction,
    InstrError,
>)
    requires
        lo <= hi <= s@.len(),
    ensures
        instr_result(r) == body_spec(id, pred, s@.subrange(lo as int, hi as int)),
{
    let ghost rest = s@.subrange(lo as int, hi as int);
    let (mb, ta, _unused) = split_mnemonic(s, lo, hi);
    let ghost tail = s@.subrange(ta as int, hi as int);
    let ops: Vec<(usize, usize)> = if ta == hi {
        Vec::new()
    } else {
        let pieces = split_ranges(s, ta, hi, ',');
        proof {
            assert(range_texts(s@, pieces@) =~= split_on(tail, ','));
        }
        trim_ranges(s, &pieces, false)
    };
    proof {
        if ta == hi {
            assert(range_texts(s@, ops@) =~= Seq::<Seq<char>>::empty());
        }
        reveal_strlit("add");
        reveal_strlit("addi");
        reveal_strlit("sub");
        reveal_strlit("mulu");
        reveal_strlit("ld");
        reveal_strlit("st");
        reveal_strlit("loop");
        reveal_strlit("loop.pip");
        reveal_strlit("nop");
        reveal_strlit("mov");
        assert("add"@ =~= seq!['a', 'd', 'd']);
        assert("addi"@ =~= seq!['a', 'd', 'd', 'i']);
        assert("sub"@ =~= seq!['s', 'u', 'b']);
        assert("mulu"@ =~= seq!['m', 'u', 'l', 'u']);
        assert("ld"@ =~= seq!['l', 'd']);
        assert("st"@ =~= seq!['s', 't']);
        assert("loop"@ =~= seq!['l', 'o', 'o', 'p']);
        assert("loop.pip"@ =~= seq!['l', 'o', 'o', 'p', '.', 'p', 'i', 'p']);
        assert("nop"@ =~= seq!['n', 'o', 'p']);
        assert("mov"@ =~= seq!['m', 'o', 'v']);
    }
    if range_eq(s, lo, mb, "add") {
        three_reg(s, &ops, bare(id, pred, Opcode::Add))
    } else if range_eq(s, lo, mb, "addi") {
        addi(s, &ops, bare(id, pred, Opcode::Addi))
    } else if range_eq(s, lo, mb, "sub") {
        three_reg(s, &ops, bare(id, pred, Opcode::Sub))
    } else if range_eq(s, lo, mb, "mulu") {
        three_reg(s, &ops, bare(id, pred, Opcode::Mulu))
    } else if range_eq(s, lo, mb, "ld") {
        ld(s, &ops, bare(id, pred, Opcode::Ld))
    } else if range_eq(s, lo, mb, "st") {
        st(s, &ops, bare(id, pred, Opcode::St))
    } else if range_eq(s, lo, mb, "loop") {
        loop_target(s, &ops, bare(id, pred, Opcode::Loop))
    } else if range_eq(s, lo, mb, "loop.pip") {
        loop_target(s, &ops, bare(id, pred, Opcode::LoopPip))
    } else if range_eq(s, lo, mb, "nop") {
        Ok(bare(id, pred, Opcode::Nop))
    } else if range_eq(s, lo, mb, "mov") {
        mov(s, &ops, bare(id, pred, Opcode::Nop))
    } else {
        Err(InstrError::UnknownOpcode)
    }
}

/// Reads one instruction string, including the texts outside the parser's
/// contract.
#[verifier::spinoff_prover]
#[verifier::rlimit(60)]
fn read_instruction(id: InstId, raw: &str) -> (r: Result<Instruction, InstrError>)
    ensures
        instr_result(r) == instr_spec(id, raw@),
{
    let s = chars_of(raw);
    proof {
        reveal(instr_spec);
        assert(s@.subrange(0, s@.len() as int) =~= raw@);
    }
    let (lo, hi) = trim_bounds(&s, 0, s.len());
    let ghost t = s@.subrange(lo as int, hi as int);
    if lo < hi && s[lo] == '(' {
        proof {
            assert(t[0] == s@[lo as int]);
            assert(t.drop_first() =~= s@.subrange(lo + 1, hi as int));
        }
        let end = find_char(&s, lo + 1, hi, ')');
        if end == hi {
            return Err(InstrError::UnclosedPredicate);
        }
        let pred = match parse_pred_reg(&s, lo + 1, end) {
            Ok(p) => p,
            Err(e) => {
                proof {
                    assert(s@.subrange(lo + 1, end as int) =~= t.drop_first().take(end - lo - 1));
                }
                return Err(e);
            },
        };
        proof {
            assert(s@.subrange(lo + 1, end as int) =~= t.drop_first().take(end - lo - 1));
            assert(s@.subrange(end + 1, hi as int) =~= t.drop_first().skip(end - lo));
        }
        let (ra, rb) = trim_bounds(&s, end + 1, hi);
        body(&s, ra, rb, id, Some(pred))
    } else {
        proof {
            if lo < hi {
                assert(t[0] == s@[lo as int]);
            }
        }
        body(&s, lo, hi, id, None)
    }
}

/// The text holds an immediate `-0x-8000000000000000`, whose negation
/// overflows, or a memory operand whose `)` comes before its `(`: it is
/// outside the parser's contract.
pub open spec fn unreadable(r: Result<Instr, InstrError>) -> bool {
    ||| r == Err::<Instr, InstrError>(InstrError::ImmediateOverflow)
    ||| r == Err::<Instr, InstrError>(InstrError::MisorderedParens)
}

/// Parses one instruction string; `id` is its position in the program.
pub fn parse_instruction(id: InstId, raw: &str) -> (r: Result<Instruction, InstrError>)
    requires
        !unreadable(instr_spec(id, raw@)),
    ensures
        instr_result(r) == instr_spec(id, raw@),
{
    read_instruction(id, raw)
}

/// No line before the first rejected one, nor that line itself, is outside
/// the parser's contract.
pub open spec fn lines_readable(lines: Seq<Seq<char>>) -> bool {
    forall|i: int|
        0 <= i < lines.len() && (forall|j: int| 0 <= j < i ==> (#[trigger] instr_spec(j as usize, lines[j])) is Ok)
            ==> !unreadable(#[trigger] instr_spec(i as usize, lines[i]))
}

/// Whether the program's lines are within the parser's contract.
pub fn program_readable(raw: &[String]) -> (b: bool)
    ensures
        b == lines_readable(raw@.map_values(|x: String| x@)),
{
    let ghost lines = raw@.map_values(|x: String| x@);
    let mut i: usize = 0;
    while i < raw.len()
        invariant
            i <= raw@.len(),
            lines == raw@.map_values(|x: String| x@),
            forall|j: int| 0 <= j < i ==> (#[trigger] instr_spec(j as usize, lines[j])) is Ok,
        decreases raw@.len() - i,
    {
        assert(lines[i as int] == raw@[i as int]@);
        match read_instruction(i, raw[i].as_str()) {
            Ok(_) => {},
            Err(e) => {
                let bad = match e {
                    InstrError::ImmediateOverflow => true,
                    InstrError::MisorderedParens => true,
                    _ => false,
                };
                proof {
                    if !bad {
                        assert forall|k: int|
                            0 <= k < lines.len() && (forall|j: int| 0 <= j < k ==> (#[trigger] instr_spec(j as usize, lines[j])) is Ok)
                                implies !unreadable(#[trigger] instr_spec(k as usize, lines[k])) by {
                            if k > i {
                                assert(instr_spec(i as usize, lines[i as int]) is Ok);
                            }
                        }
                    }
                }
                return !bad;
            },
        }
        i = i + 1;
    }
    true
}

/// The instructions of a parse result as plain values.
pub open spec fn instrs_result(r: Result<Vec<Instruction>, ProgramError>) -> Result<Seq<Instr>, ProgramError> {
    match r {
        Ok(v) => Ok(v@.map_values(|i: Instruction| i@)),
        Err(e) => Err(e),
    }
}

fn parse_all(raw: &[String]) -> (r: Result<Vec<Instruction>, ProgramError>)
    requires
        lines_readable(raw@.map_values(|x: String| x@)),
    ensures
        instrs_result(r) == instrs_spec(raw@.map_values(|x: String| x@)),
{
    let ghost lines = raw@.map_values(|x: String| x@);
    let mut out: Vec<Instruction> = Vec::new();
    proof {
        assert(lines.take(0) =~= Seq::<Seq<char>>::empty());
        assert(out@.map_values(|x: Instruction| x@) =~= Seq::<Instr>::empty());
    }
    let mut i: usize = 0;
    while i < raw.len()
        invariant
            i <= raw@.len(),
            lines == raw@.map_values(|x: String| x@),
            lines_readable(lines),
            forall|j: int| 0 <= j < i ==> (#[trigger] instr_spec(j as usize, lines[j])) is Ok,
            instrs_spec(lines.take(i as int)) == Ok::<Seq<Instr>, ProgramError>(
                out@.map_values(|x: Instruction| x@),
            ),
        decreases raw@.len() - i,
    {
        proof {
            assert(lines.take(i + 1).drop_last() =~= lines.take(i as int));
            assert(lines.take(i + 1).last() == raw@[i as int]@);
        }
        proof {
            assert(lines[i as int] == raw@[i as int]@);
            assert(!unreadable(instr_spec(i as usize, lines[i as int])));
        }
        match parse_instruction(i, raw[i].as_str()) {
            Ok(inst) => {
                assert(instr_spec(i as usize, lines[i as int]) is Ok);
                let ghost prev = out@.map_values(|x: Instruction| x@);
                out.push(inst);
                proof {
                    assert(out@.map_values(|x: Instruction| x@) =~= prev.push(inst@));
                }
            },
            Err(e) => {
                proof {
                    lemma_instrs_error_sticks(lines, (i + 1) as int);
                    assert(lines.take(raw@.len() as int) =~= lines);
                }
                return Err(ProgramError::Line(i, e));
            },
        }
        i = i + 1;
    }
    proof {
        assert(lines.take(raw@.len() as int) =~= lines);
    }
    Ok(out)
}

proof fn lemma_instrs_error_sticks(lines: Seq<Seq<char>>, k: int)
    requires
        0 <= k <= lines.len(),
        instrs_spec(lines.take(k)) is Err,
    ensures
        instrs_spec(lines) == instrs_spec(lines.take(k)),
    decreases lines.len() - k,
{
    if k < lines.len() {
        assert(lines.take(k + 1).drop_last() =~= lines.take(k));
        lemma_instrs_error_sticks(lines, k + 1);
    } else {
        assert(lines.take(k) =~= lines);
    }
}

proof fn lemma_instrs_ids(lines: Seq<Seq<char>>)
    requires
        instrs_spec(lines) is Ok,
        lines.len() <= usize::MAX,
    ensures
        instrs_spec(lines)->Ok_0.len() == lines.len(),
        forall|i: int| 0 <= i < lines.len() ==> (#[trigger] instrs_spec(lines)->Ok_0[i]).id == i,
    decreases lines.len(),
{
    if lines.len() > 0 {
        lemma_instrs_ids(lines.drop_last());
        lemma_instr_id((lines.len() - 1) as usize, lines.last());
        let prev = instrs_spec(lines.drop_last())->Ok_0;
        let all = instrs_spec(lines)->Ok_0;
        assert forall|i: int| 0 <= i < lines.len() implies (#[trigger] all[i]).id == i by {
            if i < lines.len() - 1 {
                assert(all[i] == prev[i]);
            }
        }
    }
}

#[verifier::spinoff_prover]
#[verifier::rlimit(60)]
proof fn lemma_instr_id(id: InstId, raw: Seq<char>)
    ensures
        instr_spec(id, raw) matches Ok(i) ==> i.id == id,
{
    reveal(instr_spec);
}

/// Reads the program and locates its basic blocks.
pub fn parse_program(raw: &[String]) -> (r: Result<Program, ProgramError>)
    requires
        lines_readable(raw@.map_values(|x: String| x@)),
    ensures
        match program_spec(raw@.map_values(|x: String| x@)) {
            Ok(p) => r matches Ok(q) && q@ == p,
            Err(e) => r matches Err(f) && f == e,
        },
        r matches Ok(q) ==> q@.wf(),
{
    let ghost lines = raw@.map_values(|x: String| x@);
    let n_lines = raw.len();
    assert(lines.len() == n_lines);
    let instrs = match parse_all(raw) {
        Ok(v) => v,
        Err(e) => return Err(e),
    };
    let ghost iv = instrs@.map_values(|x: Instruction| x@);
    proof {
        lemma_instrs_ids(lines);
    }
    let mut li: usize = 0;
    while li < instrs.len() && !(instrs[li].opcode == Opcode::Loop || instrs[li].opcode == Opcode::LoopPip)
        invariant
            li <= instrs@.len(),
            iv == instrs@.map_values(|x: Instruction| x@),
            first_loop_from(iv, 0) == first_loop_from(iv, li as int),
        decreases instrs@.len() - li,
    {
        proof {
            assert(iv[li as int] == instrs@[li as int]@);
        }
        li = li + 1;
    }
    if li == instrs.len() {
        let n = instrs.len();
        proof {
            assert forall|i: int| 0 <= i < n - 1 implies !is_loop_op((#[trigger] iv[i]).opcode) by {
                lemma_first_loop(iv, 0, i);
            }
        }
        let p = Program { instrs, bb1_start: n, bb1_end: n, loop_kind: None };
        return Ok(p);
    }
    proof {
        assert(iv[li as int] == instrs@[li as int]@);
    }
    let target = match instrs[li].label {
        Some(t) => t,
        None => {
            proof {
                lemma_loop_has_label(lines, li as int);
            }
            0
        },
    };
    proof {
        lemma_loop_has_label(lines, li as int);
    }
    if target > li {
        return Err(ProgramError::LoopTargetAfterLoop);
    }
    proof {
        assert forall|i: int| 0 <= i < li implies !is_loop_op((#[trigger] iv[i]).opcode) by {
            lemma_first_loop(iv, 0, i);
        }
    }
    let kind = if instrs[li].opcode == Opcode::Loop {
        LoopKind::Loop
    } else {
        LoopKind::LoopPip
    };
    Ok(Program { instrs, bb1_start: target, bb1_end: li + 1, loop_kind: Some(kind) })
}

proof fn lemma_first_loop(instrs: Seq<Instr>, k: int, i: int)
    requires
        0 <= k <= i < first_loop_from(instrs, k),
        i < instrs.len(),
    ensures
        !is_loop_op(instrs[i].opcode),
    decreases i - k,
{
    if k < i {
        lemma_first_loop(instrs, k + 1, i);
    }
}

proof fn lemma_loop_has_label(lines: Seq<Seq<char>>, k: int)
    requires
        instrs_spec(lines) is Ok,
        lines.len() <= usize::MAX,
        0 <= k < instrs_spec(lines)->Ok_0.len(),
        instrs_spec(lines)->Ok_0[k].opcode == Opcode::Loop || instrs_spec(lines)->Ok_0[k].opcode
            == Opcode::LoopPip,
    ensures
        instrs_spec(lines)->Ok_0[k].label is Some,
        instrs_spec(lines)->Ok_0[k].dest_reg is None,
    decreases lines.len(),
{
    lemma_instrs_ids(lines);
    if k < lines.len() - 1 {
        lemma_instrs_ids(lines.drop_last());
        lemma_loop_has_label(lines.drop_last(), k);
    } else {
        lemma_loop_label_of(k as usize, lines.last());
    }
}

#[verifier::spinoff_prover]
#[verifier::rlimit(60)]
proof fn lemma_loop_label_of(id: InstId, raw: Seq<char>)
    ensures
        instr_spec(id, raw) matches Ok(i) ==> ((i.opcode == Opcode::Loop || i.opcode == Opcode::LoopPip)
            ==> i.label is Some && i.dest_reg is None),
{
    reveal(instr_spec);
}


/// Line `li` holds the program's first loop instruction.
pub open spec fn first_loop_line(raw: Seq<Seq<char>>, li: int) -> bool {
    &&& instr_spec(li as usize, raw[li]) matches Ok(i) && is_loop_op(i.opcode)
    &&& forall|k: int| 0 <= k < li ==> !(#[trigger] instr_spec(k as usize, raw[k]) matches Ok(j) && is_loop_op(j.opcode))
}

proof fn lemma_instrs_lines(lines: Seq<Seq<char>>)
    requires
        lines.len() <= usize::MAX,
    ensures
        instrs_spec(lines) is Ok <==> forall|k: int| 0 <= k < lines.len() ==> #[trigger] instr_spec(k as usize, lines[k]) is Ok,
        instrs_spec(lines) is Ok ==> instrs_spec(lines)->Ok_0.len() == lines.len(),
        instrs_spec(lines) is Ok ==> forall|k: int| 0 <= k < lines.len() ==> #[trigger] instr_spec(k as usize, lines[k]) == Ok::<Instr, InstrError>(instrs_spec(lines)->Ok_0[k]),
    decreases lines.len(),
{
    if lines.len() > 0 {
        let pre = lines.drop_last();
        let last = lines.len() - 1;
        lemma_instrs_lines(pre);
        assert forall|k: int| 0 <= k < pre.len() implies pre[k] == lines[k] by {}
        if instrs_spec(pre) is Err {
            let k = choose|k: int| 0 <= k < pre.len() && !(#[trigger] instr_spec(k as usize, pre[k]) is Ok);
            assert(!(instr_spec(k as usize, lines[k]) is Ok));
        } else {
            let v = instrs_spec(pre)->Ok_0;
            if instr_spec(last as usize, lines.last()) is Err {
                assert(!(instr_spec(last as usize, lines[last]) is Ok));
            } else {
                let i = instr_spec(last as usize, lines.last())->Ok_0;
                assert(instrs_spec(lines) == Ok::<Seq<Instr>, ProgramError>(v.push(i)));
                assert forall|k: int| 0 <= k < lines.len() implies #[trigger] instr_spec(k as usize, lines[k]) == Ok::<Instr, InstrError>(v.push(i)[k]) by {
                    if k < last {
                        assert(instr_spec(k as usize, pre[k]) == Ok::<Instr, InstrError>(v[k]));
                    }
                }
            }
        }
    }
}

proof fn lemma_first_loop_found(instrs: Seq<Instr>, k: int)
    requires
        0 <= k <= instrs.len(),
    ensures
        k <= first_loop_from(instrs, k) <= instrs.len(),
        first_loop_from(instrs, k) < instrs.len() ==> is_loop_op(instrs[first_loop_from(instrs, k)].opcode),
    decreases instrs.len() - k,
{
    if k < instrs.len() && !is_loop_op(instrs[k].opcode) {
        lemma_first_loop_found(instrs, k + 1);
    }
}

/// A program is accepted exactly when every line parses and its first loop
/// instruction, if there is one, does not jump forward. Then it has one
/// instruction per line, with the line number as id; without a loop
/// instruction everything is BB0; otherwise BB1 runs from the first loop
/// instruction's target to that instruction, whose kind it takes.
pub proof fn lemma_program_shape(raw: Seq<Seq<char>>)
    requires
        raw.len() <= usize::MAX,
    ensures
        program_spec(raw) is Ok <==> {
            &&& forall|k: int| 0 <= k < raw.len() ==> #[trigger] instr_spec(k as usize, raw[k]) is Ok
            &&& forall|li: int| 0 <= li < raw.len() && #[trigger] first_loop_line(raw, li) ==> instr_spec(li as usize, raw[li])->Ok_0.label->0 <= li
        },
        program_spec(raw) matches Ok(p) ==> {
            &&& p.instrs.len() == raw.len()
            &&& forall|k: int| 0 <= k < raw.len() ==> #[trigger] instr_spec(k as usize, raw[k]) == Ok::<Instr, InstrError>(p.instrs[k]) && p.instrs[k].id == k
            &&& (p.loop_kind is None <==> forall|k: int| 0 <= k < raw.len() ==> !is_loop_op(#[trigger] p.instrs[k].opcode))
            &&& p.loop_kind is None ==> p.bb1_start == raw.len() && p.bb1_end == raw.len()
            &&& p.loop_kind is Some ==> {
                &&& p.bb1_start < p.bb1_end <= raw.len()
                &&& first_loop_line(raw, p.bb1_end - 1)
                &&& p.instrs[p.bb1_end - 1].label == Some(p.bb1_start)
                &&& p.loop_kind == Some(if p.instrs[p.bb1_end - 1].opcode == Opcode::Loop { LoopKind::Loop } else { LoopKind::LoopPip })
            }
        },
{
    lemma_instrs_lines(raw);
    if instrs_spec(raw) is Ok {
        let v = instrs_spec(raw)->Ok_0;
        lemma_instrs_ids(raw);
        lemma_first_loop_found(v, 0);
        let fl = first_loop_from(v, 0);
        assert forall|k: int| 0 <= k < fl implies !is_loop_op(#[trigger] v[k].opcode) by {
            lemma_first_loop(v, 0, k);
        }
        // the first loop line is exactly `fl`
        assert forall|li: int| 0 <= li < raw.len() && #[trigger] first_loop_line(raw, li) implies li == fl by {
            assert(instr_spec(li as usize, raw[li]) == Ok::<Instr, InstrError>(v[li]));
            if fl < li {
                assert(instr_spec(fl as usize, raw[fl]) == Ok::<Instr, InstrError>(v[fl]));
            } else if li < fl {
                lemma_first_loop(v, 0, li);
            }
        }
        if fl < v.len() {
            lemma_loop_has_label(raw, fl);
            assert forall|k: int| 0 <= k < fl implies !(#[trigger] instr_spec(k as usize, raw[k]) matches Ok(j) && is_loop_op(j.opcode)) by {
                assert(instr_spec(k as usize, raw[k]) == Ok::<Instr, InstrError>(v[k]));
            }
            assert(instr_spec(fl as usize, raw[fl]) == Ok::<Instr, InstrError>(v[fl]));
            assert(first_loop_line(raw, fl));
            if program_spec(raw) is Ok {
                let p = program_spec(raw)->Ok_0;
                assert(p.bb1_end - 1 == fl);
                assert(is_loop_op(p.instrs[fl].opcode));
            }
        } else {
            assert forall|k: int| 0 <= k < raw.len() implies !is_loop_op(#[trigger] v[k].opcode) by {
                lemma_first_loop(v, 0, k);
            }
        }
    }
}

} // verus!
