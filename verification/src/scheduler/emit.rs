//! Output of a schedule: one row of five texts per bundle, in the order
//! ALU0, ALU1, Mult, Mem, Branch. An empty slot reads `nop`; an instruction
//! reads ` text` without a predicate and `(pN) text` with one. Trailing
//! rows of nothing but nops are dropped.

use vstd::prelude::*;

use crate::scheduler::ir::{lemma_bundle_len, Bundle, ExecUnit, Instr, Instruction, Opcode, Sched, Schedule};

verus! {

/// The text of a decimal digit.
pub open spec fn digit_text(d: int) -> Seq<char> {
    if d == 0 {
        "0"@
    } else if d == 1 {
        "1"@
    } else if d == 2 {
        "2"@
    } else if d == 3 {
        "3"@
    } else if d == 4 {
        "4"@
    } else if d == 5 {
        "5"@
    } else if d == 6 {
        "6"@
    } else if d == 7 {
        "7"@
    } else if d == 8 {
        "8"@
    } else {
        "9"@
    }
}

/// A natural number in decimal, without leading zeros.
pub open spec fn dec(n: nat) -> Seq<char>
    decreases n,
{
    if n < 10 {
        digit_text(n as int)
    } else {
        dec(n / 10) + digit_text((n % 10) as int)
    }
}

/// An integer in decimal, with `-` before a negative one.
pub open spec fn int_text(x: int) -> Seq<char> {
    if x < 0 {
        "-"@ + dec((-x) as nat)
    } else {
        dec(x as nat)
    }
}

/// The instruction has every field its text reads.
pub open spec fn printable(i: Instr) -> bool {
    match i.opcode {
        Opcode::Add | Opcode::Sub | Opcode::Mulu => i.dest_reg is Some && i.src_regs.len() >= 2,
        Opcode::Addi | Opcode::Ld => i.dest_reg is Some && i.src_regs.len() >= 1 && i.imm is Some,
        Opcode::St => i.src_regs.len() >= 2 && i.imm is Some,
        Opcode::Loop | Opcode::LoopPip => i.label is Some,
        Opcode::Nop => true,
        Opcode::MovReg => i.dest_reg is Some && i.src_regs.len() >= 1,
        Opcode::MovImm => i.dest_reg is Some && i.imm is Some,
        Opcode::MovPred => i.dest_pred is Some && i.imm_bool is Some,
        Opcode::MovLC | Opcode::MovEC => i.imm is Some,
    }
}

/// The assembly text of an instruction, without its predicate.
pub open spec fn body_text(i: Instr) -> Seq<char> {
    let d = dec(i.dest_reg->0 as nat);
    let s0 = dec(i.src_regs[0] as nat);
    let s1 = dec(i.src_regs[1] as nat);
    let imm = int_text(i.imm->0 as int);
    match i.opcode {
        Opcode::Add => "add x"@ + d + ", x"@ + s0 + ", x"@ + s1,
        Opcode::Addi => "addi x"@ + d + ", x"@ + s0 + ", "@ + imm,
        Opcode::Sub => "sub x"@ + d + ", x"@ + s0 + ", x"@ + s1,
        Opcode::Mulu => "mulu x"@ + d + ", x"@ + s0 + ", x"@ + s1,
        Opcode::Ld => "ld x"@ + d + ", "@ + imm + "(x"@ + s0 + ")"@,
        Opcode::St => "st x"@ + s0 + ", "@ + imm + "(x"@ + s1 + ")"@,
        Opcode::Loop => "loop "@ + dec(i.label->0 as nat),
        Opcode::LoopPip => "loop.pip "@ + dec(i.label->0 as nat),
        Opcode::Nop => "nop"@,
        Opcode::MovReg => "mov x"@ + d + ", x"@ + s0,
        Opcode::MovImm => "mov x"@ + d + ", "@ + imm,
        Opcode::MovPred => "mov p"@ + dec(i.dest_pred->0 as nat) + ", "@ + if i.imm_bool->0 {
            "true"@
        } else {
            "false"@
        },
        Opcode::MovLC => "mov LC, "@ + imm,
        Opcode::MovEC => "mov EC, "@ + imm,
    }
}

/// The text of a slot.
pub open spec fn slot_text(o: Option<Instr>) -> Seq<char> {
    match o {
        Some(i) => match i.pred {
            Some(p) => "(p"@ + dec(p as nat) + ") "@ + body_text(i),
            None => " "@ + body_text(i),
        },
        None => "nop"@,
    }
}

/// A text that stands for an idle slot.
pub open spec fn is_nop_text(t: Seq<char>) -> bool {
    t == " nop"@ || t == "nop"@
}

/// Rows with trailing rows of nothing but nops dropped.
pub open spec fn trim_nop_rows(rows: Seq<Seq<Seq<char>>>) -> Seq<Seq<Seq<char>>>
    decreases rows.len(),
{
    if rows.len() > 0 && forall|k: int| 0 <= k < rows.last().len() ==> is_nop_text(#[trigger] rows.last()[k]) {
        trim_nop_rows(rows.drop_last())
    } else {
        rows
    }
}

/// One row of five texts per bundle.
pub open spec fn bundle_rows(bs: Seq<Seq<Option<Instr>>>) -> Seq<Seq<Seq<char>>> {
    Seq::new(bs.len(), |b: int| Seq::new(5, |k: int| slot_text(bs[b][k])))
}

/// The emitted rows of a schedule.
pub open spec fn emitted(s: Sched) -> Seq<Seq<Seq<char>>> {
    trim_nop_rows(bundle_rows(s.flat()))
}

/// Every instruction of the schedule can be printed.
pub open spec fn sched_printable(s: Sched) -> bool {
    forall|b: int, k: int|
        0 <= b < s.flat().len() && 0 <= k < s.flat()[b].len() && (#[trigger] s.flat()[b][k]) is Some ==> printable(
            s.flat()[b][k]->0,
        )
}

/// Rows of texts as plain values.
pub open spec fn rows_view(v: Seq<Vec<String>>) -> Seq<Seq<Seq<char>>> {
    Seq::new(v.len(), |b: int| Seq::new(v[b]@.len(), |k: int| v[b]@[k]@))
}

fn push_digit(s: &mut String, d: u64)
    requires
        d < 10,
    ensures
        final(s)@ == old(s)@ + digit_text(d as int),
{
    if d == 0 {
        s.append("0");
    } else if d == 1 {
        s.append("1");
    } else if d == 2 {
        s.append("2");
    } else if d == 3 {
        s.append("3");
    } else if d == 4 {
        s.append("4");
    } else if d == 5 {
        s.append("5");
    } else if d == 6 {
        s.append("6");
    } else if d == 7 {
        s.append("7");
    } else if d == 8 {
        s.append("8");
    } else {
        s.append("9");
    }
}

/// Appends `n` in decimal.
fn push_dec(s: &mut String, n: u64)
    ensures
        final(s)@ == old(s)@ + dec(n as nat),
    decreases n,
{
    if n < 10 {
        push_digit(s, n);
    } else {
        push_dec(s, n / 10);
        push_digit(s, n % 10);
        assert(dec(n as nat) == dec((n / 10) as nat) + digit_text((n % 10) as int));
    }
}

/// Appends `x` in decimal, with `-` before a negative number.
fn push_int(s: &mut String, x: i64)
    ensures
        final(s)@ == old(s)@ + int_text(x as int),
{
    if x < 0 {
        s.append("-");
        let m: u64 = (-(x as i128)) as u64;
        push_dec(s, m);
    } else {
        push_dec(s, x as u64);
    }
}

#[verifier::spinoff_prover]
fn body_of(i: &Instruction) -> (t: String)
    requires
        printable(i@),
    ensures
        t@ == body_text(i@),
{
    let mut s = String::new();
    match i.opcode {
        Opcode::Add | Opcode::Sub | Opcode::Mulu => {
            match i.opcode {
                Opcode::Add => s.append("add x"),
                Opcode::Sub => s.append("sub x"),
                _ => s.append("mulu x"),
            }
            push_dec(&mut s, i.dest_reg.unwrap() as u64);
            s.append(", x");
            push_dec(&mut s, i.src_regs[0] as u64);
            s.append(", x");
            push_dec(&mut s, i.src_regs[1] as u64);
        },
        Opcode::Addi => {
            s.append("addi x");
            push_dec(&mut s, i.dest_reg.unwrap() as u64);
            s.append(", x");
            push_dec(&mut s, i.src_regs[0] as u64);
            s.append(", ");
            push_int(&mut s, i.imm.unwrap());
        },
        Opcode::Ld => {
            s.append("ld x");
            push_dec(&mut s, i.dest_reg.unwrap() as u64);
            s.append(", ");
            push_int(&mut s, i.imm.unwrap());
            s.append("(x");
            push_dec(&mut s, i.src_regs[0] as u64);
            s.append(")");
        },
        Opcode::St => {
            s.append("st x");
            push_dec(&mut s, i.src_regs[0] as u64);
            s.append(", ");
            push_int(&mut s, i.imm.unwrap());
            s.append("(x");
            push_dec(&mut s, i.src_regs[1] as u64);
            s.append(")");
        },
        Opcode::Loop => {
            s.append("loop ");
            push_dec(&mut s, i.label.unwrap() as u64);
        },
        Opcode::LoopPip => {
            s.append("loop.pip ");
            push_dec(&mut s, i.label.unwrap() as u64);
        },
        Opcode::Nop => {
            s.append("nop");
        },
        Opcode::MovReg => {
            s.append("mov x");
            push_dec(&mut s, i.dest_reg.unwrap() as u64);
            s.append(", x");
            push_dec(&mut s, i.src_regs[0] as u64);
        },
        Opcode::MovImm => {
            s.append("mov x");
            push_dec(&mut s, i.dest_reg.unwrap() as u64);
            s.append(", ");
            push_int(&mut s, i.imm.unwrap());
        },
        Opcode::MovPred => {
            s.append("mov p");
            push_dec(&mut s, i.dest_pred.unwrap() as u64);
            s.append(", ");
            if i.imm_bool.unwrap() {
                s.append("true");
            } else {
                s.append("false");
            }
        },
        Opcode::MovLC => {
            s.append("mov LC, ");
            push_int(&mut s, i.imm.unwrap());
        },
        Opcode::MovEC => {
            s.append("mov EC, ");
            push_int(&mut s, i.imm.unwrap());
        },
    }
    assert(s@ =~= body_text(i@));
    s
}

/// The text of one instruction with its predicate.
fn format_instruction(i: &Instruction) -> (t: String)
    requires
        printable(i@),
    ensures
        t@ == slot_text(Some(i@)),
{
    let body = body_of(i);
    let mut s = String::new();
    match i.pred {
        Some(p) => {
            s.append("(p");
            push_dec(&mut s, p as u64);
            s.append(") ");
        },
        None => {
            s.append(" ");
        },
    }
    s.append(body.as_str());
    assert(s@ =~= slot_text(Some(i@)));
    s
}

/// The text of a slot.
fn slot_string(b: &Bundle, u: ExecUnit) -> (t: String)
    requires
        b@[crate::scheduler::ir::unit_index(u)] matches Some(i) ==> printable(i),
    ensures
        t@ == slot_text(b@[crate::scheduler::ir::unit_index(u)]),
{
    match b.get(u) {
        Some(i) => format_instruction(i),
        None => String::from_str("nop"),
    }
}

/// The rows of texts of a schedule, trailing all-nop rows dropped.
#[verifier::spinoff_prover]
pub fn emit(schedule: &Schedule) -> (out: Vec<Vec<String>>)
    requires
        sched_printable(schedule@),
    ensures
        rows_view(out@) == emitted(schedule@),
{
    let ghost f = schedule@.flat();
    let bundles = schedule.flat();
    let mut out: Vec<Vec<String>> = Vec::new();
    let mut b: usize = 0;
    while b < bundles.len()
        invariant
            f == schedule@.flat(),
            sched_printable(schedule@),
            bundles@.len() == f.len(),
            forall|k: int| 0 <= k < bundles@.len() ==> (#[trigger] bundles@[k])@ == f[k],
            b <= bundles@.len(),
            out@.len() == b,
            rows_view(out@) == bundle_rows(f).subrange(0, b as int),
        decreases bundles@.len() - b,
    {
        let bd: &Bundle = bundles[b];
        proof {
            lemma_bundle_len(bd);
        }
        let mut row: Vec<String> = Vec::new();
        let mut k: usize = 0;
        while k < 5
            invariant
                f == schedule@.flat(),
                sched_printable(schedule@),
                b < f.len(),
                bd@ == f[b as int],
                bd@.len() == 5,
                k <= 5,
                row@.len() == k,
                forall|kk: int| 0 <= kk < k ==> (#[trigger] row@[kk])@ == slot_text(f[b as int][kk]),
            decreases 5 - k,
        {
            let u = ExecUnit::from_idx(k);
            proof {
                if f[b as int][k as int] is Some {
                    assert(printable(f[b as int][k as int]->0));
                }
            }
            let t = slot_string(bd, u);
            row.push(t);
            k = k + 1;
        }
        let ghost rv = out@;
        out.push(row);
        proof {
            assert(out@[b as int]@.len() == 5);
            assert(rows_view(out@) =~= bundle_rows(f).subrange(0, b + 1)) by {
                assert forall|x: int| 0 <= x < b implies #[trigger] rows_view(out@)[x] == rows_view(rv)[x] by {
                    assert(out@[x] == rv[x]);
                }
                assert(rows_view(out@)[b as int] =~= bundle_rows(f)[b as int]);
            }
        }
        b = b + 1;
    }
    proof {
        assert(bundle_rows(f).subrange(0, f.len() as int) =~= bundle_rows(f));
    }
    let nop1 = String::from_str(" nop");
    let nop2 = String::from_str("nop");
    loop
        invariant
            trim_nop_rows(rows_view(out@)) == emitted(schedule@),
            nop1@ == " nop"@,
            nop2@ == "nop"@,
        ensures
            rows_view(out@) == emitted(schedule@),
        decreases out@.len(),
    {
        if out.len() == 0 {
            proof {
                assert(rows_view(out@) =~= Seq::<Seq<Seq<char>>>::empty());
            }
            break;
        }
        let last = out.len() - 1;
        let mut all_nop = true;
        let mut k: usize = 0;
        while k < out[last].len()
            invariant
                last < out@.len(),
                k <= out@[last as int]@.len(),
                nop1@ == " nop"@,
                nop2@ == "nop"@,
                all_nop == forall|kk: int| 0 <= kk < k ==> is_nop_text(#[trigger] out@[last as int]@[kk]@),
            decreases out@[last as int]@.len() - k,
        {
            let t = &out[last][k];
            if !(*t == nop1 || *t == nop2) {
                all_nop = false;
            }
            k = k + 1;
        }
        let ghost rv = rows_view(out@);
        proof {
            assert(rv.last() == rv[last as int]);
            assert(rv[last as int].len() == out@[last as int]@.len());
            assert forall|kk: int| 0 <= kk < rv.last().len() implies #[trigger] rv.last()[kk] == out@[last as int]@[kk]@ by {}
            if all_nop {
                assert forall|kk: int| 0 <= kk < rv.last().len() implies is_nop_text(#[trigger] rv.last()[kk]) by {
                    assert(is_nop_text(out@[last as int]@[kk]@));
                }
            } else {
                let kk = choose|kk: int| 0 <= kk < out@[last as int]@.len() && !is_nop_text(#[trigger] out@[last as int]@[kk]@);
                assert(!is_nop_text(rv.last()[kk]));
            }
        }
        if !all_nop {
            break;
        }
        let ghost before = out@;
        out.pop();
        proof {
            assert(rows_view(out@) =~= rv.drop_last()) by {
                assert forall|x: int| 0 <= x < out@.len() implies #[trigger] rows_view(out@)[x] == rv.drop_last()[x] by {
                    assert(out@[x] == before[x]);
                }
            }
        }
    }
    proof {
        assert(out@.len() == 0 ==> rows_view(out@) =~= Seq::<Seq<Seq<char>>>::empty());
    }
    out
}

/// Whether every instruction of the schedule can be printed.
pub fn all_printable(schedule: &Schedule) -> (r: bool)
    ensures
        r == sched_printable(schedule@),
{
    let ghost f = schedule@.flat();
    let bundles = schedule.flat();
    let mut b: usize = 0;
    while b < bundles.len()
        invariant
            f == schedule@.flat(),
            bundles@.len() == f.len(),
            forall|k: int| 0 <= k < bundles@.len() ==> (#[trigger] bundles@[k])@ == f[k],
            b <= bundles@.len(),
            forall|bb: int, k: int|
                0 <= bb < b && 0 <= k < f[bb].len() && (#[trigger] f[bb][k]) is Some ==> printable(f[bb][k]->0),
        decreases bundles@.len() - b,
    {
        let bd: &Bundle = bundles[b];
        proof {
            lemma_bundle_len(bd);
        }
        let mut k: usize = 0;
        while k < 5
            invariant
                f == schedule@.flat(),
                b < f.len(),
                bd@ == f[b as int],
                bd@.len() == 5,
                k <= 5,
                forall|bb: int, kk: int|
                    0 <= bb < b && 0 <= kk < f[bb].len() && (#[trigger] f[bb][kk]) is Some ==> printable(f[bb][kk]->0),
                forall|kk: int| 0 <= kk < k && (#[trigger] f[b as int][kk]) is Some ==> printable(f[b as int][kk]->0),
            decreases 5 - k,
        {
            match bd.get(ExecUnit::from_idx(k)) {
                Some(i) => {
                    if !instr_printable(i) {
                        proof {
                            assert(f[b as int][k as int] == Some(i@));
                            assert(!printable(f[b as int][k as int]->0));
                        }
                        return false;
                    }
                },
                None => {},
            }
            k = k + 1;
        }
        b = b + 1;
    }
    true
}

fn instr_printable(i: &Instruction) -> (r: bool)
    ensures
        r == printable(i@),
{
    match i.opcode {
        Opcode::Add | Opcode::Sub | Opcode::Mulu => i.dest_reg.is_some() && i.src_regs.len() >= 2,
        Opcode::Addi | Opcode::Ld => i.dest_reg.is_some() && i.src_regs.len() >= 1 && i.imm.is_some(),
        Opcode::St => i.src_regs.len() >= 2 && i.imm.is_some(),
        Opcode::Loop | Opcode::LoopPip => i.label.is_some(),
        Opcode::Nop => true,
        Opcode::MovReg => i.dest_reg.is_some() && i.src_regs.len() >= 1,
        Opcode::MovImm => i.dest_reg.is_some() && i.imm.is_some(),
        Opcode::MovPred => i.dest_pred.is_some() && i.imm_bool.is_some(),
        Opcode::MovLC | Opcode::MovEC => i.imm.is_some(),
    }
}

proof fn lemma_trim_nop_rows(rows: Seq<Seq<Seq<char>>>)
    ensures
        trim_nop_rows(rows).len() <= rows.len(),
        trim_nop_rows(rows) == rows.subrange(0, trim_nop_rows(rows).len() as int),
        trim_nop_rows(rows).len() > 0 ==> exists|k: int|
            0 <= k < trim_nop_rows(rows).last().len() && !is_nop_text(#[trigger] trim_nop_rows(rows).last()[k]),
    decreases rows.len(),
{
    if rows.len() > 0 && forall|k: int| 0 <= k < rows.last().len() ==> is_nop_text(#[trigger] rows.last()[k]) {
        lemma_trim_nop_rows(rows.drop_last());
        let t = trim_nop_rows(rows.drop_last());
        assert(t =~= rows.subrange(0, t.len() as int));
    } else {
        assert(rows.subrange(0, rows.len() as int) =~= rows);
    }
}

/// The output has one row of five texts per bundle kept, the kept rows are
/// the first ones, and the last row, if any, has a text that is not a nop.
pub proof fn lemma_emitted_shape(s: Sched)
    ensures
        emitted(s).len() <= s.flat().len(),
        forall|r: int| 0 <= r < emitted(s).len() ==> (#[trigger] emitted(s)[r]) == bundle_rows(s.flat())[r],
        forall|r: int| 0 <= r < emitted(s).len() ==> (#[trigger] emitted(s)[r]).len() == 5,
        emitted(s).len() > 0 ==> exists|k: int|
            0 <= k < emitted(s).last().len() && !is_nop_text(#[trigger] emitted(s).last()[k]),
{
    lemma_trim_nop_rows(bundle_rows(s.flat()));
    let e = emitted(s);
    assert forall|r: int| 0 <= r < e.len() implies (#[trigger] e[r]) == bundle_rows(s.flat())[r] by {
        assert(e[r] == bundle_rows(s.flat()).subrange(0, e.len() as int)[r]);
    }
}

} // verus!
