use tomasulo_emulator::cpu::tomasulo::{cycles_of, ReorderBuffer, ResStationType, Tag};
use tomasulo_emulator::cpu::{address_of, evaluate, CpuError, Instruction, Memory, Operand};
use tomasulo_emulator::trace::dump_registers;

fn op() -> Operand {
    Operand::new(1, 2, 3)
}

#[test]
fn operand_fields() {
    let o = Operand::new(7, 8, 9);
    assert_eq!((o.target, o.operand1, o.operand2), (7, 8, 9));
}

#[test]
fn memory_reads_zero_until_written() {
    let mut m = Memory::init();
    assert_eq!(m.read(0), 0);
    assert_eq!(m.read(4096), 0);
    m.write(8, -3);
    assert_eq!(m.read(8), -3);
    m.write(8, 12);
    assert_eq!(m.read(8), 12);
    assert_eq!(m.read(4), 0);
}

#[test]
fn memory_reads_round_down() {
    let mut m = Memory::init();
    m.write(8, 42);
    assert_eq!(m.read(9), 42);
    assert_eq!(m.read(10), 42);
    assert_eq!(m.read(11), 42);
    assert_eq!(m.read(12), 0);
    m.write(0xFFFF_FFFC, 5);
    assert_eq!(m.read(u32::MAX), 5);
}

#[test]
fn arithmetic_results() {
    let m = Memory::init();
    assert_eq!(evaluate(Instruction::Add(op()), 2, 3, &m), 5);
    assert_eq!(evaluate(Instruction::Sub(op()), 2, 3, &m), -1);
    assert_eq!(evaluate(Instruction::Mul(op()), -4, 3, &m), -12);
    assert_eq!(evaluate(Instruction::Div(op()), 7, 2, &m), 3);
    assert_eq!(evaluate(Instruction::Div(op()), -7, 2, &m), -3);
    assert_eq!(evaluate(Instruction::Div(op()), 7, -2, &m), -3);
    assert_eq!(evaluate(Instruction::Div(op()), -7, -2, &m), 3);
    assert_eq!(evaluate(Instruction::Jump(1, 2), 7, 9, &m), 0);
    assert_eq!(evaluate(Instruction::Sd(1, 2, 4), 7, 9, &m), 9);
    assert_eq!(evaluate(Instruction::Invalid, 7, 9, &m), 0);
}

#[test]
fn arithmetic_faults_give_zero() {
    let m = Memory::init();
    assert_eq!(evaluate(Instruction::Add(op()), i32::MAX, 1, &m), 0);
    assert_eq!(evaluate(Instruction::Add(op()), i32::MIN, -1, &m), 0);
    assert_eq!(evaluate(Instruction::Add(op()), i32::MAX, 0, &m), i32::MAX);
    assert_eq!(evaluate(Instruction::Sub(op()), i32::MIN, 1, &m), 0);
    assert_eq!(evaluate(Instruction::Mul(op()), 65536, 32768, &m), 0);
    assert_eq!(evaluate(Instruction::Mul(op()), 65536, -32768, &m), i32::MIN);
    assert_eq!(evaluate(Instruction::Div(op()), 5, 0, &m), 0);
    assert_eq!(evaluate(Instruction::Div(op()), i32::MIN, -1, &m), 0);
    assert_eq!(evaluate(Instruction::Div(op()), i32::MIN, 1, &m), i32::MIN);
}

#[test]
fn loads_compute_their_address() {
    let mut m = Memory::init();
    m.write(12, 9);
    assert_eq!(evaluate(Instruction::Ld(1, 2, 4), 8, 0, &m), 9);
    assert_eq!(evaluate(Instruction::Ld(1, 2, 7), 8, 0, &m), 9);
    assert_eq!(evaluate(Instruction::Ld(1, 2, 16), -4, 0, &m), 9);
    assert_eq!(evaluate(Instruction::Ld(1, 2, 0), 8, 0, &m), 0);
}

#[test]
fn addresses_wrap() {
    assert_eq!(address_of(0, 0), 0);
    assert_eq!(address_of(8, 4), 12);
    assert_eq!(address_of(-4, 16), 12);
    assert_eq!(address_of(-1, 0), u32::MAX);
    assert_eq!(address_of(1, u32::MAX), 0);
    assert_eq!(address_of(i32::MAX, u32::MAX), 0x7FFF_FFFE);
    assert_eq!(address_of(i32::MIN, 0), 0x8000_0000);
}

#[test]
fn register_checks() {
    assert_eq!(Instruction::Add(Operand::new(31, 31, 31)).check(), Ok(()));
    assert_eq!(Instruction::Add(Operand::new(32, 0, 0)).check(), Err(CpuError::InvalidRegisterIndex));
    assert_eq!(Instruction::Sub(Operand::new(0, 32, 0)).check(), Err(CpuError::InvalidRegisterIndex));
    assert_eq!(Instruction::Mul(Operand::new(0, 0, 32)).check(), Err(CpuError::InvalidRegisterIndex));
    assert_eq!(Instruction::Ld(32, 0, 0).check(), Err(CpuError::InvalidRegisterIndex));
    assert_eq!(Instruction::Sd(0, usize::MAX, 0).check(), Err(CpuError::InvalidRegisterIndex));
    assert_eq!(Instruction::Jump(31, 31).check(), Ok(()));
    assert_eq!(Instruction::Invalid.check(), Err(CpuError::InvalidInstruction));
}

#[test]
fn classes_and_latencies() {
    assert_eq!(ResStationType::from(Instruction::Add(op())), ResStationType::AddSub);
    assert_eq!(ResStationType::from(Instruction::Sub(op())), ResStationType::AddSub);
    assert_eq!(ResStationType::from(Instruction::Mul(op())), ResStationType::MulDiv);
    assert_eq!(ResStationType::from(Instruction::Div(op())), ResStationType::MulDiv);
    assert_eq!(ResStationType::from(Instruction::Ld(1, 2, 3)), ResStationType::LoadStore);
    assert_eq!(ResStationType::from(Instruction::Sd(1, 2, 3)), ResStationType::LoadStore);
    assert_eq!(ResStationType::from(Instruction::Jump(1, 2)), ResStationType::JUMP);
    assert_eq!(cycles_of(Instruction::Add(op())), 2);
    assert_eq!(cycles_of(Instruction::Sub(op())), 2);
    assert_eq!(cycles_of(Instruction::Mul(op())), 12);
    assert_eq!(cycles_of(Instruction::Div(op())), 24);
    assert_eq!(cycles_of(Instruction::Ld(1, 2, 3)), 2);
    assert_eq!(cycles_of(Instruction::Sd(1, 2, 3)), 2);
    assert_eq!(cycles_of(Instruction::Jump(1, 2)), 1);
}

#[test]
fn a_fresh_entry_holds_nothing() {
    let e = ReorderBuffer::init(Tag { id: 9 });
    assert!(!e.busy);
    assert!(!e.ready);
    assert_eq!(e.index, Tag { id: 9 });
    assert_eq!(e.inner.inst, None);
    assert_eq!(e.inner.dest, None);
    assert_eq!(e.inner.value, None);
    assert_eq!(e.inner.address, None);
}

#[test]
fn a_trace_line_lists_every_register() {
    let mut regs = [0i32; 32];
    let mut expected = String::new();
    for i in 0..32 {
        expected.push_str(&format!("reg{}: {}; ", i, 0));
    }
    assert_eq!(dump_registers(&regs), expected);
    regs[0] = 7;
    regs[1] = -1;
    regs[9] = 10;
    regs[10] = 1090;
    regs[30] = i32::MAX;
    regs[31] = i32::MIN;
    let mut expected = String::new();
    for (i, v) in regs.iter().enumerate() {
        expected.push_str(&format!("reg{}: {}; ", i, v));
    }
    let line = dump_registers(&regs);
    assert_eq!(line, expected);
    assert!(line.starts_with("reg0: 7; reg1: -1; reg2: 0; "));
    assert!(line.contains("reg9: 10; reg10: 1090; reg11: 0; "));
    assert!(line.ends_with("reg30: 2147483647; reg31: -2147483648; "));
}
