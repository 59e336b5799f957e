use archsim::simulator::parser::{parse_line, parse_lines, parse_program, ParseError};
use archsim::simulator::state::{ProcessorState, Snapshot};
use archsim::simulator::types::{Instruction, OpCode, OperandB};
use archsim::text::read_string_array;

fn run(program: &[Instruction]) -> Vec<Snapshot> {
    let mut state = ProcessorState::new();
    let mut log = vec![state.snapshot()];
    while state.has_work(program.len() as u64) {
        state.propagate(program);
        log.push(state.snapshot());
        assert!(log.len() < 1000, "simulation does not terminate");
    }
    log
}

#[test]
fn parses_register_form() {
    let i = parse_line(0, "add x1, x2, x3").unwrap();
    assert_eq!(
        i,
        Instruction { pc: 0, op: OpCode::Add, dest: 1, op_a: 2, op_b: OperandB::Reg(3) }
    );
    let i = parse_line(2, "  remu x31,x0 , x7 ").unwrap();
    assert_eq!(
        i,
        Instruction { pc: 2, op: OpCode::Remu, dest: 31, op_a: 0, op_b: OperandB::Reg(7) }
    );
}

#[test]
fn parses_addi_as_add_with_immediate() {
    let i = parse_line(5, "addi x4, x0, -7").unwrap();
    assert_eq!(
        i,
        Instruction { pc: 5, op: OpCode::Add, dest: 4, op_a: 0, op_b: OperandB::Imm(-7) }
    );
}

#[test]
fn rejects_malformed_lines() {
    assert_eq!(parse_line(0, "   "), Err(ParseError::EmptyInstruction));
    assert_eq!(parse_line(0, "add x1, x2"), Err(ParseError::BadOperandCount));
    assert_eq!(parse_line(0, "add y1, x2, x3"), Err(ParseError::BadRegisterToken));
    assert_eq!(parse_line(0, "add x1, xq, x3"), Err(ParseError::BadRegisterNumber));
    assert_eq!(parse_line(0, "add x1, x2, x32"), Err(ParseError::RegisterOutOfRange));
    assert_eq!(parse_line(0, "addi x1, x2, 1.5"), Err(ParseError::BadImmediate));
    assert_eq!(parse_line(0, "xor x1, x2, x3"), Err(ParseError::UnknownOpcode));
    assert_eq!(ParseError::UnknownOpcode.message(), "unknown opcode");
}

#[test]
fn parses_programs_from_json() {
    let p = parse_program("[\"addi x1, x0, 5\", \"mulu x2, x1, x1\"]").unwrap();
    assert_eq!(p.len(), 2);
    assert_eq!(p[1], Instruction { pc: 1, op: OpCode::Mulu, dest: 2, op_a: 1, op_b: OperandB::Reg(1) });
    assert_eq!(parse_program("{\"a\": 1}"), Err(ParseError::NotStringArray));
    assert_eq!(parse_program("not json"), Err(ParseError::NotStringArray));
    assert_eq!(parse_program("[\"add x1, x2\"]"), Err(ParseError::BadOperandCount));
    let lines = vec!["sub x3, x1, x2".to_string(), "divu x4, x3, x1".to_string()];
    let p = parse_lines(&lines).unwrap();
    assert_eq!(p[0].pc, 0);
    assert_eq!(p[1].op, OpCode::Divu);
}

#[test]
fn reset_state() {
    let s = ProcessorState::new().snapshot();
    assert_eq!(s.pc, 0);
    assert_eq!(s.free_list, (32..64).collect::<Vec<usize>>());
    assert_eq!(s.register_map_table, (0..32).collect::<Vec<usize>>());
    assert_eq!(s.busy_bit_table, vec![false; 64]);
    assert_eq!(s.physical_register_file, vec![0u64; 64]);
    assert!(s.active_list.is_empty() && s.integer_queue.is_empty() && s.decoded_pcs.is_empty());
    assert!(!ProcessorState::new().has_work(0));
    assert!(ProcessorState::new().has_work(1));
}

#[test]
fn single_addi_runs_through_the_pipeline() {
    let program = parse_program("[\"addi x1, x0, 5\"]").unwrap();
    let log = run(&program);
    assert_eq!(log.len(), 7);
    assert_eq!(log[1].decoded_pcs, vec![0]);
    assert_eq!(log[1].pc, 1);
    assert_eq!(log[2].active_list.len(), 1);
    assert_eq!(log[2].integer_queue.len(), 1);
    assert_eq!(log[2].integer_queue[0].op_code, "add");
    assert_eq!(log[2].integer_queue[0].op_b_value, 5);
    assert_eq!(log[2].register_map_table[1], 32);
    assert!(log[2].busy_bit_table[32]);
    assert!(log[3].integer_queue.is_empty());
    assert!(log[5].active_list[0].done);
    assert_eq!(log[5].physical_register_file[32], 5);
    let last = &log[6];
    assert!(last.active_list.is_empty());
    assert_eq!(last.free_list.len(), 32);
    assert_eq!(*last.free_list.last().unwrap(), 1);
    assert_eq!(last.register_map_table[1], 32);
    assert!(!last.busy_bit_table[32]);
}

#[test]
fn division_by_zero_raises_and_recovers() {
    let program = parse_program("[\"divu x1, x0, x0\"]").unwrap();
    let log = run(&program);
    assert_eq!(log.len(), 9);
    assert!(log[5].active_list[0].exception);
    assert!(log[6].exception);
    assert_eq!(log[6].exception_pc, 0);
    assert_eq!(log[6].pc, 0x10000);
    assert!(log[6].integer_queue.is_empty());
    assert!(log[7].exception);
    assert!(log[7].active_list.is_empty());
    assert_eq!(log[7].register_map_table[1], 1);
    assert_eq!(*log[7].free_list.last().unwrap(), 32);
    assert!(!log[8].exception);
    assert_eq!(log[8].pc, 0x10000);
}

#[test]
fn registers_are_conserved_every_cycle() {
    let program = parse_program(
        "[\"addi x1, x0, 3\", \"mulu x2, x1, x1\", \"sub x3, x2, x1\", \"remu x4, x2, x1\", \"add x5, x4, x3\", \"divu x6, x5, x0\"]",
    )
    .unwrap();
    let log = run(&program);
    for s in &log {
        assert_eq!(s.free_list.len() + s.active_list.len(), 32);
        assert!(s.active_list.len() <= 32 && s.integer_queue.len() <= 32);
    }
    assert!(log.iter().any(|s| s.exception));
    assert!(!log.last().unwrap().exception);
}

#[test]
fn rollback_returns_the_youngest_registers_first() {
    let program = parse_program("[\"divu x1, x0, x0\", \"addi x2, x0, 1\", \"addi x3, x0, 2\"]").unwrap();
    let log = run(&program);
    let entered = log.iter().position(|s| s.exception).unwrap();
    let before = &log[entered];
    let after = &log[entered + 1];
    let n = before.active_list.len();
    assert!(n >= 1);
    let rolled = n.min(4);
    assert_eq!(after.active_list.len(), n - rolled);
    for j in 0..rolled {
        assert_eq!(
            after.free_list[before.free_list.len() + j],
            before.active_list[n - 1 - j].new_destination
        );
    }
}

#[test]
fn reads_json_string_arrays() {
    assert_eq!(
        read_string_array("[\"add x1, x2, x3\", \"b c\"]"),
        Some(vec!["add x1, x2, x3".to_string(), "b c".to_string()])
    );
    assert_eq!(read_string_array("[]"), Some(Vec::new()));
    assert_eq!(read_string_array("[1, 2]"), None);
    assert_eq!(read_string_array("[\"unterminated"), None);
}

#[test]
fn opcode_names_parse_back() {
    for op in [OpCode::Add, OpCode::Sub, OpCode::Mulu, OpCode::Divu, OpCode::Remu] {
        let line = format!("{} x1, x2, x3", op.as_str());
        assert_eq!(parse_line(0, &line).unwrap().op, op);
    }
    assert_eq!(OpCode::Mulu.as_str(), "mulu");
}
