use tomasulo_emulator::cpu::common::SingleCycleCpu;
use tomasulo_emulator::cpu::tomasulo::TomasuloCpu;
use tomasulo_emulator::cpu::{Cpu, Instruction, Operand};
use tomasulo_emulator::parser::{decode, parse_number, Parser};

fn groups(parts: &[&str]) -> Vec<Option<String>> {
    parts.iter().map(|p| Some(p.to_string())).collect()
}

#[test]
fn numbers() {
    assert_eq!(parse_number("0", 10), Some(0));
    assert_eq!(parse_number("7", 10), Some(7));
    assert_eq!(parse_number("10", 10), Some(10));
    assert_eq!(parse_number("11", 10), None);
    assert_eq!(parse_number("007", 10), Some(7));
    assert_eq!(parse_number("", 10), None);
    assert_eq!(parse_number("12a", 1000), None);
    assert_eq!(parse_number("a12", 1000), None);
    assert_eq!(parse_number("+5", 1000), None);
    assert_eq!(parse_number("-5", 1000), None);
    assert_eq!(parse_number("4294967295", u32::MAX as u64), Some(4294967295));
    assert_eq!(parse_number("4294967296", u32::MAX as u64), None);
    assert_eq!(parse_number("18446744073709551615", u64::MAX), Some(u64::MAX));
    assert_eq!(parse_number("18446744073709551616", u64::MAX), None);
    assert_eq!(parse_number("99999999999999999999999", u64::MAX), None);
    assert_eq!(parse_number("9", 5), None);
}

#[test]
fn groups_decode_by_the_first_letter() {
    let g = groups(&["x", "1", "2", "3"]);
    assert_eq!(decode('A', &g), Some(Instruction::Add(Operand::new(1, 2, 3))));
    assert_eq!(decode('S', &g), Some(Instruction::Sub(Operand::new(1, 2, 3))));
    assert_eq!(decode('M', &g), Some(Instruction::Mul(Operand::new(1, 2, 3))));
    assert_eq!(decode('D', &g), Some(Instruction::Div(Operand::new(1, 2, 3))));
    assert_eq!(decode('L', &g), Some(Instruction::Ld(1, 2, 3)));
    assert_eq!(decode('Q', &g), None);
    assert_eq!(decode('A', &groups(&["x", "1", "2"])), None);
    assert_eq!(decode('A', &groups(&["x", "1", "", "3"])), None);
    assert_eq!(decode('L', &groups(&["x", "1", "2", "4294967296"])), None);
    assert_eq!(decode('L', &groups(&["x", "1", "2", "4294967295"])), Some(Instruction::Ld(1, 2, u32::MAX)));
    assert_eq!(decode('A', &vec![Some("x".to_string()), None, Some("2".to_string()), Some("3".to_string())]), None);
}

#[test]
fn lines_parse() {
    let p = Parser::new();
    assert_eq!(p.parse("ADD,R1,R2,R3"), Instruction::Add(Operand::new(1, 2, 3)));
    assert_eq!(p.parse("SUB,R31,R0,R17"), Instruction::Sub(Operand::new(31, 0, 17)));
    assert_eq!(p.parse("MUL,R4,R5,R6"), Instruction::Mul(Operand::new(4, 5, 6)));
    assert_eq!(p.parse("DIV,R7,R8,R9"), Instruction::Div(Operand::new(7, 8, 9)));
    assert_eq!(p.parse("LD,R1,R0,8"), Instruction::Ld(1, 0, 8));
    assert_eq!(p.parse(""), Instruction::Invalid);
    assert_eq!(p.parse("NOP"), Instruction::Invalid);
    assert_eq!(p.parse("add,R1,R2,R3"), Instruction::Invalid);
    // register numbers are not checked here
    assert_eq!(p.parse("ADD,R99,R2,R3"), Instruction::Add(Operand::new(99, 2, 3)));
    // what follows the shape is ignored
    assert_eq!(p.parse("LD,R1,R2,12 # comment"), Instruction::Ld(1, 2, 12));
}

#[test]
fn malformed_lines_stand_for_nothing() {
    let p = Parser::new();
    assert_eq!(p.try_parse("ADD,R1,R2,R3"), Some(Instruction::Add(Operand::new(1, 2, 3))));
    assert_eq!(p.try_parse("other"), Some(Instruction::Invalid));
    assert_eq!(p.try_parse("ADD,R1,R2"), None);
    assert_eq!(p.try_parse("ADD,R,R2,R3"), None);
    assert_eq!(p.try_parse("LD,R1,R2,"), None);
    assert_eq!(p.try_parse("LD,R1,R2,4294967296"), None);
    assert_eq!(p.try_parse("SUB R1 R2 R3"), None);
    assert_eq!(p.try_parse("MUL,R1,R2,3"), None);
    assert_eq!(p.try_parse("D"), None);
}

#[test]
fn data_lines_parse() {
    let p = Parser::new();
    assert_eq!(p.parse_data("0: 1"), Some((0, 1)));
    assert_eq!(p.parse_data("40000: 9"), Some((40000, 9)));
    assert_eq!(p.parse_data("4: 2147483647"), Some((4, i32::MAX)));
    assert_eq!(p.parse_data("4: 2147483648"), None);
    assert_eq!(p.parse_data("4294967296: 1"), None);
    assert_eq!(p.parse_data("4:1"), None);
    assert_eq!(p.parse_data(": "), None);
    assert_eq!(p.parse_data("nothing"), None);
}

fn lines(text: &[&str]) -> Vec<String> {
    text.iter().map(|l| l.to_string()).collect()
}

#[test]
fn a_program_is_read_line_by_line() {
    let p = Parser::new();
    let mut cpu = TomasuloCpu::new();
    cpu.set_regs(2, 6);
    cpu.set_regs(3, 7);
    assert_eq!(p.read_inst(&mut cpu, &lines(&["ADD,R1,R2,R3", "MUL,R4,R1,R2", "LD,R5,R0,8"])), Ok(()));
    assert_eq!(cpu.queue_len(), 3);
    assert_eq!(p.read_data(&mut cpu, &lines(&["8: 55", "12: 66"])), Ok(()));
    assert_eq!(cpu.run(), Ok(()));
    assert_eq!([cpu.reg(1), cpu.reg(4), cpu.reg(5)], [13, 78, 55]);
}

#[test]
fn reading_stops_at_the_first_bad_line() {
    let p = Parser::new();
    let mut cpu = SingleCycleCpu::new();
    assert_eq!(p.read_inst(&mut cpu, &lines(&["ADD,R1,R2,R3", "ADD,R1", "SUB,R1,R2,R3"])), Err(1));
    cpu.set_regs(2, 1);
    cpu.set_regs(3, 2);
    assert_eq!(cpu.run(), Ok(()));
    assert_eq!(cpu.commits().len(), 1);
    assert_eq!(cpu.reg(1), 3);

    let mut cpu = SingleCycleCpu::new();
    assert_eq!(p.read_data(&mut cpu, &lines(&["0: 1", "4: 2", "6: 3", "8: 4"])), Err(2));
    cpu.add_inst(Instruction::Ld(1, 0, 4));
    cpu.add_inst(Instruction::Ld(2, 0, 8));
    assert_eq!(cpu.run(), Ok(()));
    assert_eq!([cpu.reg(1), cpu.reg(2)], [2, 0]);
    let mut cpu = SingleCycleCpu::new();
    assert_eq!(p.read_data(&mut cpu, &lines(&["0: 1", "bad"])), Err(1));
}

#[test]
fn an_unknown_line_is_queued_as_invalid() {
    let p = Parser::new();
    let mut cpu = TomasuloCpu::new();
    assert_eq!(p.read_inst(&mut cpu, &lines(&["HALT"])), Ok(()));
    assert_eq!(cpu.queue_len(), 1);
    assert_eq!(cpu.issue(), Err(tomasulo_emulator::cpu::CpuError::InvalidInstruction));
}
