use archsim::scheduler::alloc_b::{allocate, allocation_fits};
use archsim::scheduler::deps::analyze;
use archsim::scheduler::emit::{all_printable, emit};
use archsim::scheduler::ir::{DepKind, ExecUnit, Opcode, Placement, SpecialReg};
use archsim::scheduler::parser::{
    parse_instruction, parse_program, program_readable, InstrError, LoopKind, ProgramError,
};
use archsim::scheduler::prepare_loop::prepare;
use archsim::scheduler::{alloc_r, schedule_pip, schedule_simple};

fn lines(v: &[&str]) -> Vec<String> {
    v.iter().map(|s| s.to_string()).collect()
}

fn simple_output(src: &[&str]) -> Vec<Vec<String>> {
    let program = parse_program(&lines(src)).unwrap();
    let deps = analyze(&program);
    let (mut sched, placement) = schedule_simple::schedule(&program, &deps);
    assert!(allocation_fits(&sched, &program, &deps, &placement));
    allocate(&mut sched, &program, &deps, &placement);
    assert!(all_printable(&sched));
    emit(&sched)
}

fn pip_output(src: &[&str]) -> Vec<Vec<String>> {
    let program = parse_program(&lines(src)).unwrap();
    let deps = analyze(&program);
    let (mut sched, placement) = schedule_pip::schedule(&program, &deps);
    alloc_r::allocate(&mut sched, &program, &deps, &placement);
    prepare(&mut sched, &program);
    assert!(all_printable(&sched));
    emit(&sched)
}

fn row(v: [&str; 5]) -> Vec<String> {
    v.iter().map(|s| s.to_string()).collect()
}

const LOOP_PROGRAM: [&str; 8] = [
    "mov LC, 10",
    "mov x2, 0x1000",
    "mov x3, 1",
    "ld x4, 0(x2)",
    "add x3, x3, x4",
    "addi x2, x2, 1",
    "loop 3",
    "st x3, 0(x2)",
];

#[test]
fn parses_every_form() {
    let i = parse_instruction(3, "(p33) ld x4, -0x10(x2)").unwrap();
    assert_eq!(i.id, 3);
    assert_eq!(i.opcode, Opcode::Ld);
    assert_eq!(i.pred, Some(33));
    assert_eq!(i.dest_reg, Some(4));
    assert_eq!(i.src_regs, vec![2]);
    assert_eq!(i.imm, Some(-16));
    let i = parse_instruction(0, "st x1, 8(x9)").unwrap();
    assert_eq!((i.opcode, i.src_regs.clone(), i.imm), (Opcode::St, vec![1, 9], Some(8)));
    let i = parse_instruction(0, "mov p32, true").unwrap();
    assert_eq!((i.opcode, i.dest_pred, i.imm_bool), (Opcode::MovPred, Some(32), Some(true)));
    let i = parse_instruction(0, "mov EC, 2").unwrap();
    assert_eq!((i.opcode, i.dest_special, i.imm), (Opcode::MovEC, Some(SpecialReg::EC), Some(2)));
    let i = parse_instruction(0, "mov x5, x6").unwrap();
    assert_eq!((i.opcode, i.dest_reg, i.src_regs.clone()), (Opcode::MovReg, Some(5), vec![6]));
    let i = parse_instruction(0, "mov x5, 0x1F").unwrap();
    assert_eq!((i.opcode, i.imm), (Opcode::MovImm, Some(31)));
    let i = parse_instruction(0, "loop.pip 4").unwrap();
    assert_eq!((i.opcode, i.label), (Opcode::LoopPip, Some(4)));
    let i = parse_instruction(0, " nop ").unwrap();
    assert_eq!(i.opcode, Opcode::Nop);
}

#[test]
fn rejects_malformed_instructions() {
    assert_eq!(parse_instruction(0, "(p1 add x1, x2, x3").unwrap_err(), InstrError::UnclosedPredicate);
    assert_eq!(parse_instruction(0, "(x1) add x1, x2, x3").unwrap_err(), InstrError::ExpectedPredicate);
    assert_eq!(parse_instruction(0, "add x1, x2").unwrap_err(), InstrError::OperandCount);
    assert_eq!(parse_instruction(0, "add x1, p2, x3").unwrap_err(), InstrError::ExpectedXRegister);
    assert_eq!(parse_instruction(0, "add x1, x256, x3").unwrap_err(), InstrError::BadXRegister);
    assert_eq!(parse_instruction(0, "addi x1, x2, 12a").unwrap_err(), InstrError::BadImmediate);
    assert_eq!(parse_instruction(0, "mov p1, maybe").unwrap_err(), InstrError::BadBool);
    assert_eq!(parse_instruction(0, "ld x1, 0x2").unwrap_err(), InstrError::MissingOpenParen);
    assert_eq!(parse_instruction(0, "ld x1, 0(x2").unwrap_err(), InstrError::MissingCloseParen);
    assert_eq!(parse_instruction(0, "jmp 3").unwrap_err(), InstrError::UnknownOpcode);
}

#[test]
fn splits_the_program_into_blocks() {
    let p = parse_program(&lines(&LOOP_PROGRAM)).unwrap();
    assert_eq!((p.bb1_start, p.bb1_end, p.loop_kind), (3, 7, Some(LoopKind::Loop)));
    assert_eq!(p.loop_idx(), Some(6));
    let p = parse_program(&lines(&["mov x1, 1", "add x2, x1, x1"])).unwrap();
    assert_eq!((p.bb1_start, p.bb1_end, p.loop_kind), (2, 2, None));
    assert_eq!(p.loop_idx(), None);
    assert_eq!(
        parse_program(&lines(&["mov x1, 1", "loop 5"])).unwrap_err(),
        ProgramError::LoopTargetAfterLoop
    );
    assert_eq!(
        parse_program(&lines(&["mov x1, 1", "bogus"])).unwrap_err(),
        ProgramError::Line(1, InstrError::UnknownOpcode)
    );
}

#[test]
fn classifies_dependencies() {
    let p = parse_program(&lines(&LOOP_PROGRAM)).unwrap();
    let d = analyze(&p);
    assert_eq!(d.len(), 8);
    assert_eq!(d[3].src_deps, vec![Some(DepKind::Interloop { bb0: Some(1), bb1: 5 })]);
    assert_eq!(
        d[4].src_deps,
        vec![Some(DepKind::Interloop { bb0: Some(2), bb1: 4 }), Some(DepKind::Local(3))]
    );
    assert_eq!(d[5].src_deps, vec![Some(DepKind::Interloop { bb0: Some(1), bb1: 5 })]);
    assert_eq!(d[7].src_deps, vec![Some(DepKind::PostLoop(4)), Some(DepKind::PostLoop(5))]);
    let p = parse_program(&lines(&["mov x1, 1", "ld x2, 0(x1)", "add x3, x2, x9", "loop 1", "st x1, 0(x3)"]))
        .unwrap();
    let d = analyze(&p);
    assert_eq!(d[1].src_deps, vec![Some(DepKind::LoopInvariant(0))]);
    assert_eq!(d[2].src_deps, vec![Some(DepKind::Local(1)), None]);
    assert_eq!(d[4].src_deps, vec![Some(DepKind::LoopInvariant(0)), Some(DepKind::PostLoop(2))]);
}

#[test]
fn schedules_the_loop_asap() {
    let p = parse_program(&lines(&LOOP_PROGRAM)).unwrap();
    let d = analyze(&p);
    let (s, pl) = schedule_simple::schedule(&p, &d);
    assert_eq!((s.bb0.len(), s.bb1.len(), s.bb2.len(), s.ii), (2, 2, 1, 2));
    assert_eq!(pl[&0], Placement { bundle: 0, unit: ExecUnit::Alu0 });
    assert_eq!(pl[&1], Placement { bundle: 0, unit: ExecUnit::Alu1 });
    assert_eq!(pl[&2], Placement { bundle: 1, unit: ExecUnit::Alu0 });
    assert_eq!(pl[&3], Placement { bundle: 2, unit: ExecUnit::Mem });
    assert_eq!(pl[&4], Placement { bundle: 3, unit: ExecUnit::Alu0 });
    assert_eq!(pl[&5], Placement { bundle: 2, unit: ExecUnit::Alu0 });
    assert_eq!(pl[&6], Placement { bundle: 3, unit: ExecUnit::Branch });
    assert_eq!(pl[&7], Placement { bundle: 4, unit: ExecUnit::Mem });
    assert_eq!(s.bundle(3).get(ExecUnit::Branch).unwrap().label, Some(2));
}

#[test]
fn dependences_are_honoured_by_the_schedule() {
    let p = parse_program(&lines(&LOOP_PROGRAM)).unwrap();
    let d = analyze(&p);
    let (s, pl) = schedule_simple::schedule(&p, &d);
    for c in 0..p.instrs.len() {
        if c == 6 {
            continue;
        }
        for dep in &d[c].src_deps {
            match dep {
                Some(DepKind::Local(q)) | Some(DepKind::LoopInvariant(q)) | Some(DepKind::PostLoop(q)) => {
                    assert!(pl[q].bundle + p.instrs[*q].latency() <= pl[&c].bundle);
                }
                Some(DepKind::Interloop { bb1, .. }) => {
                    assert!(pl[bb1].bundle + p.instrs[*bb1].latency() <= pl[&c].bundle + s.ii);
                }
                None => {}
            }
        }
    }
}

#[test]
fn straight_line_program_output() {
    let out = simple_output(&["mov x7, 5", "addi x9, x7, 3", "mulu x4, x9, x9", "st x4, 0(x7)", "add x5, x8, x7"]);
    assert_eq!(
        out,
        vec![
            row([" mov x1, 5", "nop", "nop", "nop", "nop"]),
            row([" addi x2, x1, 3", " add x3, x5, x1", "nop", "nop", "nop"]),
            row(["nop", "nop", " mulu x4, x2, x2", "nop", "nop"]),
            row(["nop", "nop", "nop", "nop", "nop"]),
            row(["nop", "nop", "nop", "nop", "nop"]),
            row(["nop", "nop", "nop", " st x4, 0(x1)", "nop"]),
        ]
    );
}

#[test]
fn loop_program_output() {
    let out = simple_output(&LOOP_PROGRAM);
    assert_eq!(
        out,
        vec![
            row([" mov LC, 10", " mov x1, 4096", "nop", "nop", "nop"]),
            row([" mov x2, 1", "nop", "nop", "nop", "nop"]),
            row([" addi x3, x1, 1", "nop", "nop", " ld x4, 0(x1)", "nop"]),
            row([" add x5, x2, x4", "nop", "nop", "nop", "nop"]),
            row([" mov x2, x5", " mov x1, x3", "nop", "nop", " loop 2"]),
            row(["nop", "nop", "nop", " st x5, 0(x3)", "nop"]),
        ]
    );
}

#[test]
fn pipelined_loop_program_output() {
    let out = pip_output(&LOOP_PROGRAM);
    assert_eq!(
        out,
        vec![
            row([" mov LC, 10", " mov x33, 4096", "nop", "nop", "nop"]),
            row([" mov x38, 1", " mov EC, 1", "nop", "nop", "nop"]),
            row([" mov p32, true", "nop", "nop", "nop", "nop"]),
            row(["(p33) add x38, x39, x36", "(p32) addi x32, x33, 1", "nop", "(p32) ld x35, 0(x33)", " loop.pip 3"]),
            row(["nop", "nop", "nop", " st x38, 0(x33)", "nop"]),
        ]
    );
}

#[test]
fn pipelined_schedule_of_the_loop_program() {
    let p = parse_program(&lines(&LOOP_PROGRAM)).unwrap();
    let d = analyze(&p);
    let (s, pl) = schedule_pip::schedule(&p, &d);
    assert_eq!(s.ii, 1);
    assert_eq!(s.bb0.len(), 2);
    assert_eq!(s.bb1.len(), 2);
    assert_eq!(pl[&3], Placement { bundle: 2, unit: ExecUnit::Mem });
    assert_eq!(pl[&4], Placement { bundle: 3, unit: ExecUnit::Alu0 });
    assert_eq!(pl[&5], Placement { bundle: 2, unit: ExecUnit::Alu1 });
    assert_eq!(pl[&6], Placement { bundle: 3, unit: ExecUnit::Branch });
    assert_eq!(pl[&7], Placement { bundle: 4, unit: ExecUnit::Mem });
    let lp = s.bb1[1].get(ExecUnit::Branch).unwrap();
    assert_eq!(lp.opcode, Opcode::LoopPip);
    assert_eq!(lp.label, Some(2));
}

#[test]
fn rotating_registers_step_by_stages_plus_one() {
    let p = parse_program(&lines(&LOOP_PROGRAM)).unwrap();
    let d = analyze(&p);
    let (mut s, pl) = schedule_pip::schedule(&p, &d);
    alloc_r::allocate(&mut s, &p, &d, &pl);
    // two stages: body producers in scheduling order get x32, x35, x38
    assert_eq!(s.bb1[0].get(ExecUnit::Alu1).unwrap().dest_reg, Some(32));
    assert_eq!(s.bb1[0].get(ExecUnit::Mem).unwrap().dest_reg, Some(35));
    assert_eq!(s.bb1[1].get(ExecUnit::Alu0).unwrap().dest_reg, Some(38));
    // the local operand crosses one stage, the interloop ones the back edge
    assert_eq!(s.bb1[1].get(ExecUnit::Alu0).unwrap().src_regs, vec![39, 36]);
    assert_eq!(s.bb1[0].get(ExecUnit::Alu1).unwrap().src_regs, vec![33]);
    // BB0 initialisers write the body producer's register less its stage, plus one
    assert_eq!(s.bb0[0].get(ExecUnit::Alu1).unwrap().dest_reg, Some(33));
    assert_eq!(s.bb0[1].get(ExecUnit::Alu0).unwrap().dest_reg, Some(38));
    // BB2 reads the last iteration's values
    assert_eq!(s.bb2[0].get(ExecUnit::Mem).unwrap().src_regs, vec![38, 33]);
}

#[test]
fn pipelined_interval_starts_at_resource_bound() {
    let p = parse_program(&lines(&["add x2, x1, x1", "add x3, x2, x2", "loop.pip 0"])).unwrap();
    let d = analyze(&p);
    let (s, pl) = schedule_pip::schedule(&p, &d);
    assert_eq!(s.ii, 1);
    assert_eq!(s.bb1.len(), 2);
    assert_eq!(pl[&0], Placement { bundle: 0, unit: ExecUnit::Alu0 });
    assert_eq!(pl[&1], Placement { bundle: 1, unit: ExecUnit::Alu1 });
}

#[test]
fn interval_grows_until_interloop_dependencies_hold() {
    let p = parse_program(&lines(&["mulu x2, x2, x3", "loop 0"])).unwrap();
    let d = analyze(&p);
    let (s, _) = schedule_pip::schedule(&p, &d);
    assert_eq!(s.ii, 3);
    assert_eq!(s.bb1.len(), 3);
}

#[test]
fn interval_covers_the_busiest_unit_class() {
    let p = parse_program(&lines(&["mulu x1, x5, x6", "mulu x2, x5, x6", "mulu x3, x5, x6", "loop 0"])).unwrap();
    let d = analyze(&p);
    let (s, pl) = schedule_pip::schedule(&p, &d);
    assert_eq!(s.ii, 3);
    assert_eq!(s.bb1.len(), 3);
    assert_eq!(pl[&0].bundle, 0);
    assert_eq!(pl[&1].bundle, 1);
    assert_eq!(pl[&2].bundle, 2);
}

#[test]
fn producers_get_distinct_registers() {
    let p = parse_program(&lines(&LOOP_PROGRAM)).unwrap();
    let d = analyze(&p);
    let (mut s, pl) = schedule_simple::schedule(&p, &d);
    allocate(&mut s, &p, &d, &pl);
    let mut dests: Vec<u8> = Vec::new();
    for b in s.flat() {
        for u in [ExecUnit::Alu0, ExecUnit::Alu1, ExecUnit::Mult, ExecUnit::Mem, ExecUnit::Branch] {
            if let Some(i) = b.get(u) {
                if i.id < p.instrs.len() {
                    if let Some(r) = i.dest_reg {
                        dests.push(r);
                    }
                }
            }
        }
    }
    let mut sorted = dests.clone();
    sorted.sort();
    assert_eq!(sorted, vec![1, 2, 3, 4, 5]);
}

#[test]
fn operands_without_producer_get_fresh_registers() {
    let out = simple_output(&["add x1, x20, x21", "sub x2, x20, x1"]);
    assert_eq!(
        out,
        vec![
            row([" add x1, x3, x4", "nop", "nop", "nop", "nop"]),
            row([" sub x2, x5, x1", "nop", "nop", "nop", "nop"]),
        ]
    );
}

#[test]
fn trailing_nop_rows_are_dropped() {
    let out = simple_output(&["nop", "nop"]);
    assert!(out.is_empty());
    let out = simple_output(&["mov x1, -5", "nop"]);
    assert_eq!(out, vec![row([" mov x1, -5", " nop", "nop", "nop", "nop"])]);
}

#[test]
fn prepared_kernel_has_ii_bundles() {
    let p = parse_program(&lines(&LOOP_PROGRAM)).unwrap();
    let d = analyze(&p);
    let (mut s, pl) = schedule_pip::schedule(&p, &d);
    alloc_r::allocate(&mut s, &p, &d, &pl);
    let ii = s.ii;
    prepare(&mut s, &p);
    assert_eq!(s.bb1.len(), ii);
    let lp = s.bb1[ii - 1].get(ExecUnit::Branch).unwrap();
    assert_eq!(lp.opcode, Opcode::LoopPip);
    assert_eq!(lp.label, Some(s.bb0.len()));
}

#[test]
fn prints_every_operand_form() {
    let out = simple_output(&["mov p3, false", "mov EC, -3", "ld x1, -8(x2)", "(p5) add x7, x8, x9"]);
    assert_eq!(
        out,
        vec![
            row([" mov p3, false", " mov EC, -3", "nop", " ld x1, -8(x3)", "nop"]),
            row(["(p5) add x2, x4, x5", "nop", "nop", "nop", "nop"]),
        ]
    );
}

#[test]
fn loop_without_initializers() {
    let src = ["ld x1, 0(x2)", "addi x2, x2, 1", "loop 0"];
    assert_eq!(
        simple_output(&src),
        vec![row([" addi x1, x1, 1", "nop", "nop", " ld x2, 0(x1)", " loop 0"])]
    );
    assert_eq!(
        pip_output(&src),
        vec![
            row([" mov EC, 0", " mov p32, true", "nop", "nop", "nop"]),
            row(["(p32) addi x32, x33, 1", "nop", "nop", "(p32) ld x34, 0(x33)", " loop.pip 1"]),
        ]
    );
}

#[test]
fn texts_outside_the_parser_contract_are_detected() {
    assert!(program_readable(&lines(&LOOP_PROGRAM)));
    assert!(!program_readable(&lines(&["mov x1, -0x-8000000000000000"])));
    assert!(program_readable(&lines(&["bogus", "mov x1, -0x-8000000000000000"])));
    assert!(program_readable(&lines(&["ld x1, 0)x2("])));
    assert_eq!(parse_instruction(0, "ld x1, 0)x2(").unwrap_err(), InstrError::BadImmediate);
    assert_eq!(parse_instruction(0, "mov x1, -0x7fffffffffffffff").unwrap().imm, Some(-0x7fffffffffffffff));
}

#[test]
fn execution_units_in_slot_order() {
    assert_eq!(
        ExecUnit::all(),
        [ExecUnit::Alu0, ExecUnit::Alu1, ExecUnit::Mult, ExecUnit::Mem, ExecUnit::Branch]
    );
}
