use tomasulo_emulator::cpu::common::SingleCycleCpu;
use tomasulo_emulator::cpu::tomasulo::TomasuloCpu;
use tomasulo_emulator::cpu::{Cpu, CpuError, Instruction, Operand};

/// A small generator of numbers, the same on every run.
struct Numbers(u64);

impl Numbers {
    fn next(&mut self, below: u64) -> u64 {
        self.0 = self.0.wrapping_mul(6364136223846793005).wrapping_add(1442695040888963407);
        (self.0 >> 33) % below
    }
}

fn instruction(n: &mut Numbers, stores: bool, faults: bool) -> Instruction {
    let reg = |n: &mut Numbers| n.next(8) as usize;
    // register 0 is never written: it is the base of every address
    let dest = |n: &mut Numbers| 1 + n.next(7) as usize;
    let kinds = if stores { 7 } else { 6 };
    match n.next(kinds) {
        0 => Instruction::Add(Operand::new(dest(n), reg(n), reg(n))),
        1 => Instruction::Sub(Operand::new(dest(n), reg(n), reg(n))),
        2 => Instruction::Mul(Operand::new(dest(n), reg(n), reg(n))),
        3 => Instruction::Div(Operand::new(dest(n), reg(n), reg(n))),
        4 => Instruction::Ld(dest(n), 0, n.next(40) as u32),
        5 => {
            if faults && n.next(40) == 0 {
                Instruction::Add(Operand::new(dest(n), 32 + reg(n), reg(n)))
            } else {
                Instruction::Jump(reg(n), reg(n))
            }
        }
        _ => {
            let step = if faults && n.next(30) == 0 { 2 } else { 4 };
            Instruction::Sd(reg(n), 0, (n.next(10) * step) as u32)
        }
    }
}

fn agree(seed: u64, len: usize, stores: bool, faults: bool) -> Result<(), CpuError> {
    let mut n = Numbers(seed);
    let mut cpu = TomasuloCpu::new();
    let mut oracle = SingleCycleCpu::new();
    for r in 1..8 {
        let v = n.next(2000) as i32 - 1000;
        cpu.set_regs(r, v);
        oracle.set_regs(r, v);
    }
    for a in 0..10 {
        let v = n.next(100) as i32;
        cpu.write_memory(4 * a, v);
        oracle.write_memory(4 * a, v);
    }
    for _ in 0..len {
        let inst = instruction(&mut n, stores, faults);
        cpu.add_inst(inst);
        oracle.add_inst(inst);
    }
    let expected = oracle.run();
    let got = cpu.run();
    assert_eq!(got, expected);
    assert_eq!(cpu.commits(), oracle.commits());
    if got != Err(CpuError::MisalignedAccess) {
        for r in 0..32 {
            assert_eq!(cpu.reg(r), oracle.reg(r));
        }
    }
    // memory, as loads see it
    let mut probe_cpu = TomasuloCpu::new();
    let mut probe_oracle = SingleCycleCpu::new();
    let mut m = Numbers(seed);
    for r in 1..8 {
        let v = m.next(2000) as i32 - 1000;
        probe_cpu.set_regs(r, v);
        probe_oracle.set_regs(r, v);
    }
    for a in 0..10 {
        let v = m.next(100) as i32;
        probe_cpu.write_memory(4 * a, v);
        probe_oracle.write_memory(4 * a, v);
    }
    let mut sound = true;
    for _ in 0..len {
        let inst = instruction(&mut m, stores, faults);
        if inst.check().is_err() {
            sound = false;
        }
        if sound {
            probe_cpu.add_inst(inst);
            probe_oracle.add_inst(inst);
        }
    }
    for a in 0..10 {
        probe_cpu.add_inst(Instruction::Ld(9 + a, 0, 4 * a as u32));
        probe_oracle.add_inst(Instruction::Ld(9 + a, 0, 4 * a as u32));
    }
    assert_eq!(probe_cpu.run(), probe_oracle.run());
    assert_eq!(probe_cpu.commits(), probe_oracle.commits());
    got
}

#[test]
fn programs_without_stores_agree() {
    for seed in 0..150 {
        assert_eq!(agree(seed, 30, false, false), Ok(()));
    }
}

#[test]
fn programs_with_stores_agree() {
    for seed in 1000..1150 {
        assert_eq!(agree(seed, 40, true, false), Ok(()));
    }
}

#[test]
fn programs_that_fail_agree() {
    let mut ok = 0;
    let mut misaligned = 0;
    let mut invalid = 0;
    for seed in 2000..2300 {
        match agree(seed, 25, true, true) {
            Ok(()) => ok += 1,
            Err(CpuError::MisalignedAccess) => misaligned += 1,
            Err(CpuError::InvalidRegisterIndex) => invalid += 1,
            Err(e) => panic!("{:?}", e),
        }
    }
    assert!(ok > 0);
    assert!(misaligned > 0);
    assert!(invalid > 0);
}

#[test]
fn long_programs_agree() {
    assert_eq!(agree(7, 2000, true, false), Ok(()));
}
