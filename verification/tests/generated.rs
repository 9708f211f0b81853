use std::collections::HashSet;
use tomasulo_emulator::cpu::common::SingleCycleCpu;
use tomasulo_emulator::cpu::tomasulo::TomasuloCpu;
use tomasulo_emulator::cpu::{Cpu, Instruction, Operand};
use tomasulo_emulator::generate::{
    data_text, instruction_text, random_data, random_instruction, random_program,
    random_registers,
};
use tomasulo_emulator::parser::Parser;

#[test]
fn instructions_as_text() {
    assert_eq!(instruction_text(0, 1, 2, 3), "ADD,R1,R2,R3");
    assert_eq!(instruction_text(1, 31, 0, 17), "SUB,R31,R0,R17");
    assert_eq!(instruction_text(2, 10, 20, 30), "MUL,R10,R20,R30");
    assert_eq!(instruction_text(3, 0, 0, 0), "DIV,R0,R0,R0");
    assert_eq!(instruction_text(4, 5, 6, 9), "LD,R5,R6,9");
    assert_eq!(instruction_text(4, 5, 6, 1234567), "LD,R5,R6,1234567");
}

#[test]
fn words_as_text() {
    assert_eq!(data_text(0, 1), "0: 1");
    assert_eq!(data_text(39996, 9), "39996: 9");
    assert_eq!(data_text(4, 0), "4: 0");
}

#[test]
fn text_parses_back() {
    let p = Parser::new();
    assert_eq!(p.parse(&instruction_text(0, 1, 2, 3)), Instruction::Add(Operand::new(1, 2, 3)));
    assert_eq!(p.parse(&instruction_text(1, 4, 5, 6)), Instruction::Sub(Operand::new(4, 5, 6)));
    assert_eq!(p.parse(&instruction_text(2, 7, 8, 9)), Instruction::Mul(Operand::new(7, 8, 9)));
    assert_eq!(p.parse(&instruction_text(3, 10, 11, 12)), Instruction::Div(Operand::new(10, 11, 12)));
    assert_eq!(p.parse(&instruction_text(4, 13, 14, 8)), Instruction::Ld(13, 14, 8));
    assert_eq!(p.parse_data(&data_text(40, 7)), Some((40, 7)));
}

#[test]
fn random_instructions_are_in_range() {
    let p = Parser::new();
    let mut texts = HashSet::new();
    let mut kinds = HashSet::new();
    for _ in 0..500 {
        let line = random_instruction();
        let inst = p.try_parse(&line).expect("a generated line is an instruction");
        assert_eq!(inst.check(), Ok(()));
        match inst {
            Instruction::Add(_) => kinds.insert(0),
            Instruction::Sub(_) => kinds.insert(1),
            Instruction::Mul(_) => kinds.insert(2),
            Instruction::Div(_) => kinds.insert(3),
            Instruction::Ld(_, _, imm) => {
                assert!(imm < 10);
                kinds.insert(4)
            }
            other => panic!("{:?}", other),
        };
        texts.insert(line);
    }
    // the draws differ
    assert!(texts.len() > 100);
    assert_eq!(kinds.len(), 5);
}

#[test]
fn random_words_are_in_range() {
    let p = Parser::new();
    let lines = random_data(300);
    assert_eq!(lines.len(), 300);
    let mut values = HashSet::new();
    for (i, line) in lines.iter().enumerate() {
        let (addr, val) = p.parse_data(line).expect("a generated line is a word");
        assert_eq!(addr as usize, 4 * i);
        assert!(1 <= val && val < 10);
        values.insert(val);
    }
    assert!(values.len() > 1);
    assert!(random_data(0).is_empty());
}

#[test]
fn random_programs_run_alike_on_both_processors() {
    let p = Parser::new();
    for _ in 0..20 {
        let program = random_program(60);
        assert_eq!(program.len(), 60);
        let data = random_data(16);
        let mut cpu = TomasuloCpu::new();
        let mut oracle = SingleCycleCpu::new();
        for r in 0..32 {
            cpu.set_regs(r, 3 * r as i32 - 20);
            oracle.set_regs(r, 3 * r as i32 - 20);
        }
        assert_eq!(p.read_inst(&mut cpu, &program), Ok(()));
        assert_eq!(p.read_inst(&mut oracle, &program), Ok(()));
        assert_eq!(p.read_data(&mut cpu, &data), Ok(()));
        assert_eq!(p.read_data(&mut oracle, &data), Ok(()));
        assert_eq!(cpu.run(), Ok(()));
        assert_eq!(oracle.run(), Ok(()));
        assert_eq!(cpu.commits(), oracle.commits());
        assert_eq!(cpu.commits().len(), 60);
        for r in 0..32 {
            assert_eq!(cpu.reg(r), oracle.reg(r));
        }
    }
}

#[test]
fn random_registers_are_in_range() {
    let mut seen = HashSet::new();
    for _ in 0..10 {
        let values = random_registers();
        assert_eq!(values.len(), 32);
        for v in values {
            assert!(0 <= v && v < 1000);
            seen.insert(v);
        }
    }
    assert!(seen.len() > 10);
}
