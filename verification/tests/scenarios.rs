use tomasulo_emulator::cpu::common::SingleCycleCpu;
use tomasulo_emulator::cpu::tomasulo::{ResStationType, TomasuloCpu};
use tomasulo_emulator::cpu::{Commit, Cpu, CpuError, Instruction, Operand};

fn add(rd: usize, r1: usize, r2: usize) -> Instruction {
    Instruction::Add(Operand::new(rd, r1, r2))
}

fn sub(rd: usize, r1: usize, r2: usize) -> Instruction {
    Instruction::Sub(Operand::new(rd, r1, r2))
}

fn mul(rd: usize, r1: usize, r2: usize) -> Instruction {
    Instruction::Mul(Operand::new(rd, r1, r2))
}

fn div(rd: usize, r1: usize, r2: usize) -> Instruction {
    Instruction::Div(Operand::new(rd, r1, r2))
}

#[test]
fn later_write_to_a_register_wins() {
    let mut cpu = TomasuloCpu::new();
    cpu.set_regs(1, 2);
    cpu.set_regs(2, 100);
    cpu.set_regs(3, 200);
    cpu.add_inst(add(1, 2, 3));
    cpu.add_inst(sub(1, 3, 2));
    assert_eq!(cpu.run(), Ok(()));
    assert_eq!(cpu.reg(1), 100);
    assert_eq!(cpu.reg(2), 100);
    assert_eq!(cpu.reg(3), 200);
    assert!(cpu.done());
    assert_eq!(
        cpu.commits().clone(),
        vec![Commit { dest: Some(1), value: 300 }, Commit { dest: Some(1), value: 100 }]
    );
}

#[test]
fn loads_read_the_seeded_memory() {
    let mut cpu = TomasuloCpu::new();
    cpu.write_memory(0x0, 1);
    cpu.write_memory(0x4, 2);
    cpu.write_memory(0x8, 4);
    cpu.add_inst(Instruction::Ld(1, 0, 0x0));
    cpu.add_inst(Instruction::Ld(2, 0, 0x4));
    cpu.add_inst(Instruction::Ld(3, 0, 0x8));
    assert_eq!(cpu.run(), Ok(()));
    assert_eq!(cpu.reg(1), 1);
    assert_eq!(cpu.reg(2), 2);
    assert_eq!(cpu.reg(3), 4);
}

#[test]
fn overflow_gives_zero() {
    let mut cpu = TomasuloCpu::new();
    cpu.set_regs(1, 77);
    cpu.set_regs(2, i32::MAX);
    cpu.set_regs(3, i32::MAX);
    cpu.add_inst(add(1, 2, 3));
    assert_eq!(cpu.run(), Ok(()));
    assert_eq!(cpu.reg(1), 0);
}

fn five_additions(cpu: &mut TomasuloCpu) {
    for r in 0..5 {
        cpu.set_regs(10 + r, (r as i32 + 1) * 10);
    }
    cpu.add_inst(add(1, 10, 11));
    cpu.add_inst(add(2, 11, 12));
    cpu.add_inst(add(3, 12, 13));
    cpu.add_inst(add(4, 13, 14));
    cpu.add_inst(add(5, 14, 10));
}

#[test]
fn a_full_pool_stalls_issue() {
    let mut tight = TomasuloCpu::new();
    five_additions(&mut tight);
    assert_eq!(tight.mult_issue(8), Ok(()));
    // three stations for additions: two instructions stay behind
    assert_eq!(tight.queue_len(), 2);
    assert!(!tight.done());
    assert_eq!(tight.run(), Ok(()));
    assert_eq!(tight.cycles(), 6);

    let mut wide = TomasuloCpu::new();
    wide.add_rs(ResStationType::AddSub, 5);
    wide.add_exec_unit(ResStationType::AddSub, 5);
    five_additions(&mut wide);
    assert_eq!(wide.mult_issue(8), Ok(()));
    assert_eq!(wide.queue_len(), 0);
    assert_eq!(wide.run(), Ok(()));
    assert_eq!(wide.cycles(), 4);
    assert!(tight.cycles() > wide.cycles());

    let mut oracle = SingleCycleCpu::new();
    for r in 0..5 {
        oracle.set_regs(10 + r, (r as i32 + 1) * 10);
    }
    oracle.add_inst(add(1, 10, 11));
    oracle.add_inst(add(2, 11, 12));
    oracle.add_inst(add(3, 12, 13));
    oracle.add_inst(add(4, 13, 14));
    oracle.add_inst(add(5, 14, 10));
    assert_eq!(oracle.run(), Ok(()));
    for r in 0..32 {
        assert_eq!(tight.reg(r), oracle.reg(r));
        assert_eq!(wide.reg(r), oracle.reg(r));
    }
    assert_eq!([tight.reg(1), tight.reg(2), tight.reg(3), tight.reg(4), tight.reg(5)], [
        30, 50, 70, 90, 60
    ]);
}

fn fp_program() -> Vec<Instruction> {
    vec![
        add(1, 2, 3),
        sub(1, 3, 2),
        div(2, 3, 1),
        mul(1, 2, 3),
        add(3, 1, 2),
        mul(2, 1, 3),
        mul(2, 1, 3),
        div(2, 3, 1),
    ]
}

#[test]
fn fp_test() {
    let mut cpu = TomasuloCpu::new();
    cpu.set_regs(2, 100);
    cpu.set_regs(3, 200);
    cpu.set_regs(1, 2);
    for inst in fp_program() {
        cpu.add_inst(inst);
    }
    assert_eq!(cpu.run(), Ok(()));
    assert_eq!(cpu.reg(1), 400);
    assert_eq!(cpu.reg(2), 1);
    assert_eq!(cpu.reg(3), 402);
    assert_eq!(
        cpu.commits().clone(),
        vec![
            Commit { dest: Some(1), value: 300 },
            Commit { dest: Some(1), value: 100 },
            Commit { dest: Some(2), value: 2 },
            Commit { dest: Some(1), value: 400 },
            Commit { dest: Some(3), value: 402 },
            Commit { dest: Some(2), value: 160800 },
            Commit { dest: Some(2), value: 160800 },
            Commit { dest: Some(2), value: 1 },
        ]
    );
}

#[test]
fn load_test() {
    let mut cpu = TomasuloCpu::new();
    cpu.write_memory(0x0, 1);
    cpu.write_memory(0x4, 2);
    cpu.write_memory(0x8, 4);
    cpu.add_inst(Instruction::Ld(1, 0, 0x0));
    cpu.add_inst(Instruction::Ld(2, 0, 0x4));
    cpu.add_inst(Instruction::Ld(3, 0, 0x8));
    assert_eq!(cpu.run(), Ok(()));
    assert_eq!([cpu.reg(1), cpu.reg(2), cpu.reg(3)], [1, 2, 4]);
    assert_eq!(cpu.cycles(), 4);
}

#[test]
fn jump_test() {
    let mut cpu = TomasuloCpu::new();
    cpu.set_regs(2, 100);
    cpu.set_regs(3, 200);
    cpu.set_regs(1, 2);
    cpu.add_inst(Instruction::Jump(1, 2));
    cpu.add_inst(Instruction::Jump(2, 3));
    cpu.add_inst(Instruction::Jump(3, 4));
    assert_eq!(cpu.run(), Ok(()));
    assert_eq!([cpu.reg(1), cpu.reg(2), cpu.reg(3), cpu.reg(4)], [2, 100, 200, 0]);
    assert_eq!(cpu.commits().clone(), vec![Commit { dest: None, value: 0 }; 3]);
    // a jump takes one cycle in its unit
    assert_eq!(cpu.cycles(), 3);
}

#[test]
fn both_processors_retire_the_same() {
    let mut cpu = TomasuloCpu::new();
    let mut oracle = SingleCycleCpu::new();
    for (r, v) in [(1, 2), (2, 100), (3, 200), (7, -5)] {
        cpu.set_regs(r, v);
        oracle.set_regs(r, v);
    }
    for (a, v) in [(0u32, 11), (4, 22), (8, 33)] {
        cpu.write_memory(a, v);
        oracle.write_memory(a, v);
    }
    let mut program = fp_program();
    program.push(Instruction::Ld(9, 0, 4));
    program.push(Instruction::Jump(9, 1));
    program.push(add(9, 9, 7));
    program.push(Instruction::Ld(10, 9, 0));
    program.push(div(11, 7, 0));
    for inst in program {
        cpu.add_inst(inst);
        oracle.add_inst(inst);
    }
    assert_eq!(cpu.run(), Ok(()));
    assert_eq!(oracle.run(), Ok(()));
    assert_eq!(cpu.commits(), oracle.commits());
    for r in 0..32 {
        assert_eq!(cpu.reg(r), oracle.reg(r));
    }
    assert_eq!(cpu.reg(9), 17);
    assert_eq!(cpu.reg(10), 0);
    assert_eq!(cpu.reg(11), 0);
}

#[test]
fn a_register_out_of_range_is_refused() {
    let mut cpu = TomasuloCpu::new();
    cpu.set_regs(2, 4);
    cpu.set_regs(3, 5);
    cpu.add_inst(add(1, 2, 3));
    cpu.add_inst(add(32, 2, 3));
    cpu.add_inst(add(6, 2, 3));
    assert_eq!(cpu.mult_issue(8), Err(CpuError::InvalidRegisterIndex));
    assert_eq!(cpu.run(), Err(CpuError::InvalidRegisterIndex));
    // what came before it has retired; it stays at the head of the queue
    assert_eq!(cpu.commits().clone(), vec![Commit { dest: Some(1), value: 9 }]);
    assert_eq!(cpu.reg(1), 9);
    assert_eq!(cpu.reg(6), 0);
    assert_eq!(cpu.queue_len(), 2);
    assert!(!cpu.done());
    assert!(cpu.reorder_buffer().iter().all(|e| !e.busy));

    let mut oracle = SingleCycleCpu::new();
    oracle.set_regs(2, 4);
    oracle.set_regs(3, 5);
    oracle.add_inst(add(1, 2, 3));
    oracle.add_inst(add(32, 2, 3));
    oracle.add_inst(add(6, 2, 3));
    assert_eq!(oracle.run(), Err(CpuError::InvalidRegisterIndex));
    assert_eq!(oracle.commits(), cpu.commits());

    let mut other = TomasuloCpu::new();
    other.add_inst(Instruction::Ld(1, 40, 0));
    assert_eq!(other.issue(), Err(CpuError::InvalidRegisterIndex));
    let mut third = TomasuloCpu::new();
    third.add_inst(Instruction::Jump(0, 99));
    assert_eq!(third.mult_issue(1), Err(CpuError::InvalidRegisterIndex));
}

#[test]
fn an_undecoded_instruction_is_refused() {
    let mut cpu = TomasuloCpu::new();
    cpu.add_inst(Instruction::Invalid);
    assert_eq!(cpu.run(), Err(CpuError::InvalidInstruction));
    assert_eq!(cpu.queue_len(), 1);
}

#[test]
fn an_empty_program_is_done_after_one_cycle() {
    let mut cpu = TomasuloCpu::new();
    assert!(!cpu.done());
    assert_eq!(cpu.run(), Ok(()));
    assert!(cpu.done());
    assert_eq!(cpu.cycles(), 1);
    assert!(cpu.commits().is_empty());
}

#[test]
fn one_addition_takes_four_cycles() {
    let mut cpu = TomasuloCpu::new();
    cpu.set_regs(2, 5);
    cpu.set_regs(3, 6);
    cpu.add_inst(add(1, 2, 3));
    assert_eq!(cpu.run(), Ok(()));
    assert_eq!(cpu.reg(1), 11);
    assert_eq!(cpu.cycles(), 4);
}

#[test]
fn latencies_show_in_the_cycle_count() {
    let cycles = |inst: Instruction| {
        let mut cpu = TomasuloCpu::new();
        cpu.set_regs(2, 12);
        cpu.set_regs(3, 4);
        cpu.add_inst(inst);
        assert_eq!(cpu.run(), Ok(()));
        cpu.cycles()
    };
    assert_eq!(cycles(add(1, 2, 3)), 4);
    assert_eq!(cycles(sub(1, 2, 3)), 4);
    assert_eq!(cycles(mul(1, 2, 3)), 14);
    assert_eq!(cycles(div(1, 2, 3)), 26);
    assert_eq!(cycles(Instruction::Ld(1, 0, 0)), 4);
    assert_eq!(cycles(Instruction::Sd(1, 0, 0)), 4);
    assert_eq!(cycles(Instruction::Jump(1, 2)), 3);
}

#[test]
fn a_load_sees_the_store_before_it() {
    let mut cpu = TomasuloCpu::new();
    cpu.write_memory(8, 5);
    cpu.set_regs(1, 99);
    cpu.add_inst(Instruction::Ld(3, 0, 8));
    cpu.add_inst(Instruction::Sd(1, 0, 8));
    cpu.add_inst(Instruction::Ld(2, 0, 8));
    assert_eq!(cpu.run(), Ok(()));
    assert_eq!(cpu.reg(3), 5);
    assert_eq!(cpu.reg(2), 99);
    assert_eq!(
        cpu.commits().clone(),
        vec![
            Commit { dest: Some(3), value: 5 },
            Commit { dest: None, value: 99 },
            Commit { dest: Some(2), value: 99 },
        ]
    );
}

#[test]
fn a_store_takes_the_value_in_flight() {
    let mut cpu = TomasuloCpu::new();
    cpu.set_regs(2, 6);
    cpu.set_regs(3, 7);
    cpu.set_regs(4, 16);
    cpu.add_inst(mul(1, 2, 3));
    cpu.add_inst(Instruction::Sd(1, 4, 4));
    cpu.add_inst(add(1, 2, 3));
    cpu.add_inst(Instruction::Ld(5, 4, 4));
    cpu.add_inst(Instruction::Sd(1, 0, 0));
    cpu.add_inst(Instruction::Ld(6, 0, 0));
    assert_eq!(cpu.run(), Ok(()));
    assert_eq!([cpu.reg(1), cpu.reg(5), cpu.reg(6)], [13, 42, 13]);
}

#[test]
fn both_processors_store_the_same() {
    let program = vec![
        add(1, 2, 3),
        Instruction::Sd(1, 0, 4),
        mul(4, 1, 1),
        Instruction::Sd(4, 4, 8),
        Instruction::Ld(5, 0, 4),
        Instruction::Sd(5, 0, 12),
        Instruction::Ld(6, 0, 12),
        Instruction::Ld(7, 0, 5),
        sub(8, 7, 6),
        Instruction::Jump(8, 8),
        Instruction::Sd(8, 8, 100),
        Instruction::Ld(9, 0, 100),
    ];
    let mut cpu = TomasuloCpu::new();
    let mut oracle = SingleCycleCpu::new();
    for (r, v) in [(2, 3), (3, 5)] {
        cpu.set_regs(r, v);
        oracle.set_regs(r, v);
    }
    for inst in &program {
        cpu.add_inst(*inst);
        oracle.add_inst(*inst);
    }
    assert_eq!(oracle.run(), Ok(()));
    assert_eq!(cpu.run(), Ok(()));
    assert_eq!(cpu.commits(), oracle.commits());
    for r in 0..32 {
        assert_eq!(cpu.reg(r), oracle.reg(r));
    }
    assert_eq!([cpu.reg(1), cpu.reg(4), cpu.reg(5), cpu.reg(6), cpu.reg(7), cpu.reg(8), cpu.reg(9)], [
        8, 64, 8, 8, 8, 0, 0
    ]);
    // the store of r4 went to 64 + 8
    let mut probe = TomasuloCpu::new();
    let mut check = SingleCycleCpu::new();
    for (r, v) in [(2, 3), (3, 5)] {
        probe.set_regs(r, v);
        check.set_regs(r, v);
    }
    for inst in &program {
        probe.add_inst(*inst);
        check.add_inst(*inst);
    }
    probe.add_inst(Instruction::Ld(10, 0, 72));
    check.add_inst(Instruction::Ld(10, 0, 72));
    assert_eq!(probe.run(), Ok(()));
    assert_eq!(check.run(), Ok(()));
    assert_eq!(probe.reg(10), 64);
    assert_eq!(check.reg(10), 64);
}

#[test]
fn a_misaligned_store_ends_the_run() {
    let program = vec![
        add(1, 2, 3),
        Instruction::Sd(1, 0, 8),
        Instruction::Sd(1, 0, 6),
        add(4, 2, 3),
        Instruction::Sd(1, 0, 12),
    ];
    let mut cpu = TomasuloCpu::new();
    let mut oracle = SingleCycleCpu::new();
    cpu.set_regs(2, 1);
    oracle.set_regs(2, 1);
    for inst in &program {
        cpu.add_inst(*inst);
        oracle.add_inst(*inst);
    }
    assert_eq!(cpu.run(), Err(CpuError::MisalignedAccess));
    assert_eq!(oracle.run(), Err(CpuError::MisalignedAccess));
    assert_eq!(cpu.commits(), oracle.commits());
    assert_eq!(
        cpu.commits().clone(),
        vec![Commit { dest: Some(1), value: 1 }, Commit { dest: None, value: 1 }]
    );
    // the store stays at the head of the reorder buffer, with what follows behind it
    let head = cpu.reorder_buffer()[0];
    assert!(head.busy && head.ready);
    assert_eq!(head.inner.inst, Some(Instruction::Sd(1, 0, 6)));
    assert_eq!(head.inner.address, Some(6));
    assert!(cpu.reorder_buffer()[1].busy);
    assert_eq!(cpu.reg(4), 0);
    assert!(!cpu.done());
    // the cycle reports it again
    assert_eq!(cpu.mult_issue(8), Err(CpuError::MisalignedAccess));
    // nothing after it has written memory
    let mut after = TomasuloCpu::new();
    after.set_regs(2, 1);
    for inst in &program {
        after.add_inst(*inst);
    }
    assert_eq!(after.run(), Err(CpuError::MisalignedAccess));
    assert_eq!(after.commits().len(), 2);
}

#[test]
fn a_run_can_be_repeated() {
    let run = || {
        let mut cpu = TomasuloCpu::new();
        cpu.set_regs(2, 100);
        cpu.set_regs(3, 200);
        cpu.set_regs(1, 2);
        cpu.write_memory(16, 7);
        for inst in fp_program() {
            cpu.add_inst(inst);
        }
        cpu.add_inst(Instruction::Ld(4, 0, 16));
        assert_eq!(cpu.run(), Ok(()));
        let regs: Vec<i32> = (0..32).map(|r| cpu.reg(r)).collect();
        (regs, cpu.cycles(), cpu.commits().clone())
    };
    let first = run();
    let second = run();
    assert_eq!(first, second);
    assert_eq!(first.0[4], 7);
}

#[test]
fn instructions_added_after_a_run_are_run() {
    let mut cpu = TomasuloCpu::new();
    cpu.set_regs(2, 3);
    cpu.add_inst(add(1, 2, 2));
    assert_eq!(cpu.run(), Ok(()));
    assert!(cpu.done());
    cpu.add_inst(add(4, 1, 1));
    assert!(!cpu.done());
    assert_eq!(cpu.run(), Ok(()));
    assert_eq!(cpu.reg(4), 12);
    assert_eq!(cpu.commits().len(), 2);
}
