use tomasulo_emulator::cpu::common::SingleCycleCpu;
use tomasulo_emulator::cpu::{Commit, Cpu, CpuError, Instruction, Operand};

#[test]
fn in_order_arithmetic() {
    let mut cpu = SingleCycleCpu::new();
    cpu.set_regs(2, 100);
    cpu.set_regs(3, 200);
    cpu.set_regs(1, 2);
    cpu.add_inst(Instruction::Add(Operand::new(1, 2, 3)));
    cpu.add_inst(Instruction::Sub(Operand::new(4, 3, 2)));
    cpu.add_inst(Instruction::Mul(Operand::new(5, 1, 4)));
    cpu.add_inst(Instruction::Div(Operand::new(6, 5, 2)));
    assert_eq!(cpu.run(), Ok(()));
    assert_eq!([cpu.reg(1), cpu.reg(4), cpu.reg(5), cpu.reg(6)], [300, 100, 30000, 300]);
    assert_eq!(cpu.cycles(), 2 + 2 + 12 + 24);
    assert_eq!(cpu.trace_lines().len(), 4);
}

#[test]
fn in_order_cycle_costs() {
    let cost = |inst: Instruction| {
        let mut cpu = SingleCycleCpu::new();
        cpu.add_inst(inst);
        assert_eq!(cpu.run(), Ok(()));
        cpu.cycles()
    };
    assert_eq!(cost(Instruction::Add(Operand::new(1, 2, 3))), 2);
    assert_eq!(cost(Instruction::Sub(Operand::new(1, 2, 3))), 2);
    assert_eq!(cost(Instruction::Mul(Operand::new(1, 2, 3))), 12);
    assert_eq!(cost(Instruction::Div(Operand::new(1, 2, 3))), 24);
    assert_eq!(cost(Instruction::Ld(1, 0, 0)), 2);
    assert_eq!(cost(Instruction::Sd(1, 0, 0)), 0);
    assert_eq!(cost(Instruction::Jump(1, 2)), 1);
}

#[test]
fn in_order_store_then_load() {
    let mut cpu = SingleCycleCpu::new();
    cpu.set_regs(1, 99);
    cpu.set_regs(5, 4);
    cpu.add_inst(Instruction::Sd(1, 5, 8));
    cpu.add_inst(Instruction::Ld(2, 5, 8));
    cpu.add_inst(Instruction::Ld(3, 5, 10));
    assert_eq!(cpu.run(), Ok(()));
    assert_eq!(cpu.reg(2), 99);
    // 14 is rounded down to 12
    assert_eq!(cpu.reg(3), 99);
    assert_eq!(
        cpu.commits().clone(),
        vec![
            Commit { dest: None, value: 99 },
            Commit { dest: Some(2), value: 99 },
            Commit { dest: Some(3), value: 99 },
        ]
    );
}

#[test]
fn in_order_misaligned_store_is_an_error() {
    let mut cpu = SingleCycleCpu::new();
    cpu.set_regs(1, 7);
    cpu.add_inst(Instruction::Add(Operand::new(2, 1, 1)));
    cpu.add_inst(Instruction::Sd(1, 0, 2));
    cpu.add_inst(Instruction::Add(Operand::new(3, 1, 1)));
    assert_eq!(cpu.run(), Err(CpuError::MisalignedAccess));
    assert_eq!(cpu.reg(2), 14);
    assert_eq!(cpu.reg(3), 0);
    assert_eq!(cpu.commits().len(), 1);
}

#[test]
fn in_order_faults() {
    let mut cpu = SingleCycleCpu::new();
    cpu.add_inst(Instruction::Add(Operand::new(1, 2, 32)));
    assert_eq!(cpu.run(), Err(CpuError::InvalidRegisterIndex));
    let mut cpu = SingleCycleCpu::new();
    cpu.add_inst(Instruction::Invalid);
    assert_eq!(cpu.run(), Err(CpuError::InvalidInstruction));
}

#[test]
fn in_order_traces_each_instruction() {
    let mut cpu = SingleCycleCpu::new();
    cpu.set_regs(1, 5);
    cpu.add_inst(Instruction::Add(Operand::new(0, 1, 1)));
    cpu.trace("begin".to_string());
    assert_eq!(cpu.run(), Ok(()));
    let lines = cpu.trace_lines();
    assert_eq!(lines.len(), 2);
    assert_eq!(lines[0], "begin");
    assert!(lines[1].starts_with("reg0: 10; reg1: 5; reg2: 0; "));
    assert!(lines[1].ends_with("reg31: 0; "));
}
