//! Reading a program: a JSON array of assembly strings such as
//! `"addi x1, x0, 5"` or `"divu x3, x1, x2"`.

use vstd::prelude::*;

use crate::simulator::types::{opcode_name, Instruction, OpCode, OperandB};
use crate::text::{
    json_string_array, read_string_array,
    chars_of, first_ws_from, nonempty_trimmed, parse_i64, parse_i64_spec, parse_u8, parse_u8_spec,
    range_eq, split_on, split_ranges, trim, trim_bounds, trim_ranges, find_whitespace,
};

verus! {

/// Why a program was rejected.
#[derive(Debug, Clone, Copy, PartialEq, Eq, Structural)]
pub enum ParseError {
    /// The input is not a JSON array of strings.
    NotStringArray,
    /// An instruction string is empty or blank.
    EmptyInstruction,
    /// An instruction does not have three operands.
    BadOperandCount,
    /// A register operand does not start with `x`.
    BadRegisterToken,
    /// The register number is not a number from 0 to 255.
    BadRegisterNumber,
    /// The register number is above 31.
    RegisterOutOfRange,
    /// An immediate is not a 64-bit signed decimal number.
    BadImmediate,
    /// The mnemonic is none of `add`, `sub`, `mulu`, `divu`, `remu`, `addi`.
    UnknownOpcode,
}

/// The one-line description of an error.
pub open spec fn error_text(e: ParseError) -> Seq<char> {
    match e {
        ParseError::NotStringArray => "input JSON must be an array of strings"@,
        ParseError::EmptyInstruction => "empty instruction string"@,
        ParseError::BadOperandCount => "bad operand count"@,
        ParseError::BadRegisterToken => "bad register token"@,
        ParseError::BadRegisterNumber => "bad register number"@,
        ParseError::RegisterOutOfRange => "register out of range"@,
        ParseError::BadImmediate => "bad immediate"@,
        ParseError::UnknownOpcode => "unknown opcode"@,
    }
}

impl ParseError {
    /// A one-line description of the error.
    pub fn message(&self) -> (m: &'static str)
        ensures
            m@ == error_text(*self),
    {
        match self {
            ParseError::NotStringArray => "input JSON must be an array of strings",
            ParseError::EmptyInstruction => "empty instruction string",
            ParseError::BadOperandCount => "bad operand count",
            ParseError::BadRegisterToken => "bad register token",
            ParseError::BadRegisterNumber => "bad register number",
            ParseError::RegisterOutOfRange => "register out of range",
            ParseError::BadImmediate => "bad immediate",
            ParseError::UnknownOpcode => "unknown opcode",
        }
    }
}

/// A register operand `xN` with `N <= 31`, surrounded by optional white space.
pub open spec fn reg_spec(t: Seq<char>) -> Result<u8, ParseError> {
    let u = trim(t);
    if !(u.len() > 0 && u[0] == 'x') {
        Err(ParseError::BadRegisterToken)
    } else {
        match parse_u8_spec(u.drop_first()) {
            None => Err(ParseError::BadRegisterNumber),
            Some(v) => if v > 31 {
                Err(ParseError::RegisterOutOfRange)
            } else {
                Ok(v)
            },
        }
    }
}

/// A decimal immediate, surrounded by optional white space.
pub open spec fn imm_spec(t: Seq<char>) -> Result<i64, ParseError> {
    match parse_i64_spec(trim(t), 10) {
        Some(v) => Ok(v),
        None => Err(ParseError::BadImmediate),
    }
}

/// The register-register operation a mnemonic names, if any.
pub open spec fn rr_opcode(m: Seq<char>) -> Option<OpCode> {
    if m == opcode_name(OpCode::Add) {
        Some(OpCode::Add)
    } else if m == opcode_name(OpCode::Sub) {
        Some(OpCode::Sub)
    } else if m == opcode_name(OpCode::Mulu) {
        Some(OpCode::Mulu)
    } else if m == opcode_name(OpCode::Divu) {
        Some(OpCode::Divu)
    } else if m == opcode_name(OpCode::Remu) {
        Some(OpCode::Remu)
    } else {
        None
    }
}

/// The three operands `xD, xA, B` parsed in order; `B` is a register when
/// `imm` is false and a decimal immediate otherwise.
pub open spec fn operands_spec(pc: u64, op: OpCode, args: Seq<Seq<char>>, imm: bool) -> Result<
    Instruction,
    ParseError,
> {
    if args.len() != 3 {
        Err(ParseError::BadOperandCount)
    } else {
        match reg_spec(args[0]) {
            Err(e) => Err(e),
            Ok(dest) => match reg_spec(args[1]) {
                Err(e) => Err(e),
                Ok(op_a) => if imm {
                    match imm_spec(args[2]) {
                        Err(e) => Err(e),
                        Ok(v) => Ok(Instruction { pc, op, dest, op_a, op_b: OperandB::Imm(v) }),
                    }
                } else {
                    match reg_spec(args[2]) {
                        Err(e) => Err(e),
                        Ok(r) => Ok(Instruction { pc, op, dest, op_a, op_b: OperandB::Reg(r) }),
                    }
                },
            },
        }
    }
}

/// One instruction string: a mnemonic, white space, and comma-separated
/// operands (blank operands are ignored). `addi` is an `add` whose second
/// source is an immediate.
pub open spec fn line_spec(pc: u64, line: Seq<char>) -> Result<Instruction, ParseError> {
    let s = trim(line);
    if s.len() == 0 {
        Err(ParseError::EmptyInstruction)
    } else {
        let k = first_ws_from(s, 0);
        let m = trim(s.take(k));
        let rest = if k < s.len() {
            trim(s.skip(k + 1))
        } else {
            Seq::<char>::empty()
        };
        let args = nonempty_trimmed(split_on(rest, ','));
        match rr_opcode(m) {
            Some(op) => operands_spec(pc, op, args, false),
            None => if m == seq!['a', 'd', 'd', 'i'] {
                operands_spec(pc, OpCode::Add, args, true)
            } else {
                Err(ParseError::UnknownOpcode)
            },
        }
    }
}

/// A program: instruction `i` gets PC `i`; the first bad line decides the
/// error.
pub open spec fn lines_spec(lines: Seq<Seq<char>>) -> Result<Seq<Instruction>, ParseError>
    decreases lines.len(),
{
    if lines.len() == 0 {
        Ok(seq![])
    } else {
        match lines_spec(lines.drop_last()) {
            Err(e) => Err(e),
            Ok(v) => match line_spec((lines.len() - 1) as u64, lines.last()) {
                Err(e) => Err(e),
                Ok(i) => Ok(v.push(i)),
            },
        }
    }
}

fn parse_reg(s: &Vec<char>, lo: usize, hi: usize) -> (r: Result<u8, ParseError>)
    requires
        lo <= hi <= s@.len(),
    ensures
        r == reg_spec(s@.subrange(lo as int, hi as int)),
{
    let (a, b) = trim_bounds(s, lo, hi);
    let ghost u = s@.subrange(a as int, b as int);
    if !(a < b && s[a] == 'x') {
        proof {
            if a < b {
                assert(u[0] == s@[a as int]);
            }
        }
        return Err(ParseError::BadRegisterToken);
    }
    proof {
        assert(u[0] == s@[a as int]);
        assert(u.drop_first() =~= s@.subrange(a + 1, b as int));
    }
    match parse_u8(s, a + 1, b) {
        None => Err(ParseError::BadRegisterNumber),
        Some(v) => {
            if v > 31 {
                Err(ParseError::RegisterOutOfRange)
            } else {
                Ok(v)
            }
        },
    }
}

fn parse_imm(s: &Vec<char>, lo: usize, hi: usize) -> (r: Result<i64, ParseError>)
    requires
        lo <= hi <= s@.len(),
    ensures
        r == imm_spec(s@.subrange(lo as int, hi as int)),
{
    let (a, b) = trim_bounds(s, lo, hi);
    match parse_i64(s, a, b, 10) {
        Some(v) => Ok(v),
        None => Err(ParseError::BadImmediate),
    }
}

fn parse_operands(
    s: &Vec<char>,
    args: &Vec<(usize, usize)>,
    pc: u64,
    op: OpCode,
    imm: bool,
) -> (r: Result<Instruction, ParseError>)
    requires
        forall|k: int| 0 <= k < args@.len() ==> (#[trigger] args@[k]).0 <= args@[k].1 <= s@.len(),
    ensures
        r == operands_spec(
            pc,
            op,
            args@.map_values(|x: (usize, usize)| s@.subrange(x.0 as int, x.1 as int)),
            imm,
        ),
{
    let ghost a = args@.map_values(|x: (usize, usize)| s@.subrange(x.0 as int, x.1 as int));
    if args.len() != 3 {
        return Err(ParseError::BadOperandCount);
    }
    let dest = match parse_reg(s, args[0].0, args[0].1) {
        Ok(v) => v,
        Err(e) => return Err(e),
    };
    let op_a = match parse_reg(s, args[1].0, args[1].1) {
        Ok(v) => v,
        Err(e) => return Err(e),
    };
    if imm {
        match parse_imm(s, args[2].0, args[2].1) {
            Ok(v) => Ok(Instruction { pc, op, dest, op_a, op_b: OperandB::Imm(v) }),
            Err(e) => Err(e),
        }
    } else {
        match parse_reg(s, args[2].0, args[2].1) {
            Ok(v) => Ok(Instruction { pc, op, dest, op_a, op_b: OperandB::Reg(v) }),
            Err(e) => Err(e),
        }
    }
}

fn rr_opcode_exec(s: &Vec<char>, lo: usize, hi: usize) -> (r: Option<OpCode>)
    requires
        lo <= hi <= s@.len(),
    ensures
        r == rr_opcode(s@.subrange(lo as int, hi as int)),
{
    proof {
        reveal_strlit("add");
        reveal_strlit("sub");
        reveal_strlit("mulu");
        reveal_strlit("divu");
        reveal_strlit("remu");
    }
    let ghost m = s@.subrange(lo as int, hi as int);
    if range_eq(s, lo, hi, "add") {
        assert(m =~= opcode_name(OpCode::Add));
        Some(OpCode::Add)
    } else if range_eq(s, lo, hi, "sub") {
        assert(m =~= opcode_name(OpCode::Sub));
        Some(OpCode::Sub)
    } else if range_eq(s, lo, hi, "mulu") {
        assert(m =~= opcode_name(OpCode::Mulu));
        Some(OpCode::Mulu)
    } else if range_eq(s, lo, hi, "divu") {
        assert(m =~= opcode_name(OpCode::Divu));
        Some(OpCode::Divu)
    } else if range_eq(s, lo, hi, "remu") {
        assert(m =~= opcode_name(OpCode::Remu));
        Some(OpCode::Remu)
    } else {
        proof {
            assert(m != opcode_name(OpCode::Add)) by {
                if m == opcode_name(OpCode::Add) {
                    assert(m =~= "add"@);
                }
            }
            assert(m != opcode_name(OpCode::Sub)) by {
                if m == opcode_name(OpCode::Sub) {
                    assert(m =~= "sub"@);
                }
            }
            assert(m != opcode_name(OpCode::Mulu)) by {
                if m == opcode_name(OpCode::Mulu) {
                    assert(m =~= "mulu"@);
                }
            }
            assert(m != opcode_name(OpCode::Divu)) by {
                if m == opcode_name(OpCode::Divu) {
                    assert(m =~= "divu"@);
                }
            }
            assert(m != opcode_name(OpCode::Remu)) by {
                if m == opcode_name(OpCode::Remu) {
                    assert(m =~= "remu"@);
                }
            }
        }
        None
    }
}

/// Parses one instruction string; `pc` is its position in the program.
pub fn parse_line(pc: u64, line: &str) -> (r: Result<Instruction, ParseError>)
    ensures
        r == line_spec(pc, line@),
        r matches Ok(i) ==> i.wf() && i.pc == pc,
{
    let s = chars_of(line);
    let (lo, hi) = trim_bounds(&s, 0, s.len());
    let ghost t = s@.subrange(lo as int, hi as int);
    proof {
        assert(s@.subrange(0, s@.len() as int) =~= line@);
    }
    if lo == hi {
        return Err(ParseError::EmptyInstruction);
    }
    let k = find_whitespace(&s, lo, hi);
    let (ma, mb) = trim_bounds(&s, lo, k);
    proof {
        assert(s@.subrange(lo as int, k as int) =~= t.take(k - lo));
    }
    let (ra, rb) = if k < hi {
        proof {
            assert(s@.subrange(k + 1, hi as int) =~= t.skip(k - lo + 1));
        }
        trim_bounds(&s, k + 1, hi)
    } else {
        (hi, hi)
    };
    let pieces = split_ranges(&s, ra, rb, ',');
    let args = trim_ranges(&s, &pieces, true);
    proof {
        let rest = s@.subrange(ra as int, rb as int);
        assert(pieces@.map_values(|x: (usize, usize)| s@.subrange(x.0 as int, x.1 as int)) =~= split_on(
            rest,
            ',',
        ));
        if k >= hi {
            assert(rest =~= Seq::<char>::empty());
        }
    }
    match rr_opcode_exec(&s, ma, mb) {
        Some(op) => parse_operands(&s, &args, pc, op, false),
        None => {
            proof {
                reveal_strlit("addi");
            }
            if range_eq(&s, ma, mb, "addi") {
                assert(s@.subrange(ma as int, mb as int) =~= seq!['a', 'd', 'd', 'i']);
                parse_operands(&s, &args, pc, OpCode::Add, true)
            } else {
                proof {
                    if s@.subrange(ma as int, mb as int) == seq!['a', 'd', 'd', 'i'] {
                        assert(s@.subrange(ma as int, mb as int) =~= "addi"@);
                    }
                }
                Err(ParseError::UnknownOpcode)
            }
        },
    }
}

/// Parses the instruction strings of a program.
pub fn parse_lines(raw: &[String]) -> (r: Result<Vec<Instruction>, ParseError>)
    ensures
        match lines_spec(raw@.map_values(|x: String| x@)) {
            Ok(p) => r matches Ok(v) && v@ == p,
            Err(e) => r == Err::<Vec<Instruction>, ParseError>(e),
        },
        r matches Ok(v) ==> forall|i: int| 0 <= i < v@.len() ==> (#[trigger] v@[i]).wf() && v@[i].pc == i,
{
    let ghost lines = raw@.map_values(|x: String| x@);
    let mut out: Vec<Instruction> = Vec::new();
    let mut i: usize = 0;
    while i < raw.len()
        invariant
            i <= raw@.len(),
            lines == raw@.map_values(|x: String| x@),
            lines_spec(lines.take(i as int)) == Ok::<Seq<Instruction>, ParseError>(out@),
            forall|j: int| 0 <= j < out@.len() ==> (#[trigger] out@[j]).wf() && out@[j].pc == j,
            out@.len() == i,
        decreases raw@.len() - i,
    {
        proof {
            assert(lines.take(i + 1).drop_last() =~= lines.take(i as int));
            assert(lines.take(i + 1).last() == raw@[i as int]@);
        }
        match parse_line(i as u64, raw[i].as_str()) {
            Ok(inst) => out.push(inst),
            Err(e) => {
                proof {
                    lemma_lines_error_sticks(lines, (i + 1) as int);
                    assert(lines.take(raw@.len() as int) =~= lines);
                }
                return Err(e);
            },
        }
        i = i + 1;
    }
    proof {
        assert(lines.take(raw@.len() as int) =~= lines);
    }
    Ok(out)
}

proof fn lemma_lines_error_sticks(lines: Seq<Seq<char>>, k: int)
    requires
        0 <= k <= lines.len(),
        lines_spec(lines.take(k)) is Err,
    ensures
        lines_spec(lines) == lines_spec(lines.take(k)),
    decreases lines.len() - k,
{
    if k < lines.len() {
        assert(lines.take(k + 1).drop_last() =~= lines.take(k));
        lemma_lines_error_sticks(lines, k + 1);
    } else {
        assert(lines.take(k) =~= lines);
    }
}

} // verus!

verus! {

/// Reads a program from the text of a JSON array of instruction strings.
pub fn parse_program(json_text: &str) -> (r: Result<Vec<Instruction>, ParseError>)
    ensures
        match json_string_array(json_text@) {
            None => r == Err::<Vec<Instruction>, ParseError>(ParseError::NotStringArray),
            Some(lines) => match lines_spec(lines) {
                Ok(p) => r matches Ok(v) && v@ == p,
                Err(e) => r == Err::<Vec<Instruction>, ParseError>(e),
            },
        },
        r matches Ok(v) ==> forall|i: int| 0 <= i < v@.len() ==> (#[trigger] v@[i]).wf() && v@[i].pc == i,
{
    let raw = match read_string_array(json_text) {
        Some(v) => v,
        None => return Err(ParseError::NotStringArray),
    };
    parse_lines(raw.as_slice())
}


/// The name `as_str` gives an opcode is read back as that opcode.
pub proof fn lemma_opcode_name_parses_back(op: OpCode)
    ensures
        rr_opcode(opcode_name(op)) == Some(op),
{
    let add = opcode_name(OpCode::Add);
    let sub = opcode_name(OpCode::Sub);
    let mulu = opcode_name(OpCode::Mulu);
    let divu = opcode_name(OpCode::Divu);
    let remu = opcode_name(OpCode::Remu);
    assert(sub[0] != add[0]);
    assert(mulu.len() != add.len() && mulu.len() != sub.len());
    assert(divu.len() != add.len() && divu.len() != sub.len() && divu[0] != mulu[0]);
    assert(remu.len() != add.len() && remu.len() != sub.len() && remu[0] != mulu[0] && remu[0] != divu[0]);
}

} // verus!
