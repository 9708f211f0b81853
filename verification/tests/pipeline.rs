use std::collections::HashSet;
use tomasulo_emulator::cpu::tomasulo::{ResStationType, TomasuloCpu};
use tomasulo_emulator::cpu::{Commit, Cpu, Instruction, Operand};

fn add(rd: usize, r1: usize, r2: usize) -> Instruction {
    Instruction::Add(Operand::new(rd, r1, r2))
}

fn mul(rd: usize, r1: usize, r2: usize) -> Instruction {
    Instruction::Mul(Operand::new(rd, r1, r2))
}

#[test]
fn the_processor_as_built() {
    let cpu = TomasuloCpu::new();
    let count = |t: ResStationType| cpu.stations().iter().filter(|s| s.rs_type == t).count();
    assert_eq!(count(ResStationType::AddSub), 3);
    assert_eq!(count(ResStationType::MulDiv), 2);
    assert_eq!(count(ResStationType::LoadStore), 3);
    assert_eq!(count(ResStationType::JUMP), 3);
    let units = |t: ResStationType| cpu.units().iter().filter(|u| u.rs_type == t).count();
    assert_eq!(units(ResStationType::AddSub), 3);
    assert_eq!(units(ResStationType::MulDiv), 2);
    assert_eq!(units(ResStationType::LoadStore), 3);
    assert_eq!(units(ResStationType::JUMP), 3);
    assert_eq!(cpu.reorder_buffer().len(), 6);
    assert_eq!(cpu.register_status().len(), 32);
    assert!(cpu.stations().iter().all(|s| !s.busy && !s.dispatched));
    assert!(cpu.units().iter().all(|u| !u.busy));
    assert!(cpu.reorder_buffer().iter().all(|e| !e.busy && !e.ready));
    assert!(cpu.register_status().iter().all(|s| !s.busy && s.reorder.is_none()));
    assert!((0..32).all(|r| cpu.reg(r) == 0));
    assert_eq!(cpu.cycles(), 0);
}

#[test]
fn issue_renames_the_operands() {
    let mut cpu = TomasuloCpu::new();
    cpu.set_regs(2, 5);
    cpu.set_regs(3, 6);
    cpu.add_inst(add(1, 2, 3));
    cpu.add_inst(add(4, 1, 2));
    assert_eq!(cpu.issue(), Ok(true));
    let tag = cpu.reorder_buffer()[0].index;
    let first = cpu.stations()[0];
    assert!(first.busy && !first.dispatched);
    assert_eq!(first.inner.inst, Some(add(1, 2, 3)));
    assert_eq!((first.inner.rs_index, first.inner.rs_value), (None, Some(5)));
    assert_eq!((first.inner.rt_index, first.inner.rt_value), (None, Some(6)));
    assert_eq!(first.inner.dest, Some(tag));
    assert!(cpu.register_status()[1].busy);
    assert_eq!(cpu.register_status()[1].reorder, Some(tag));
    assert!(cpu.reorder_buffer()[0].busy && !cpu.reorder_buffer()[0].ready);
    assert_eq!(cpu.reorder_buffer()[0].inner.dest, Some(1));

    // the second instruction reads r1, which is in flight: it waits for the tag
    assert_eq!(cpu.issue(), Ok(true));
    let second = cpu.stations()[1];
    assert_eq!((second.inner.rs_index, second.inner.rs_value), (Some(tag), None));
    assert_eq!((second.inner.rt_index, second.inner.rt_value), (None, Some(5)));
    assert_eq!(cpu.issue(), Ok(false));
    assert_eq!(cpu.queue_len(), 0);
}

#[test]
fn the_bus_forwards_a_result_to_the_waiting_station() {
    let mut cpu = TomasuloCpu::new();
    cpu.set_regs(2, 5);
    cpu.set_regs(3, 6);
    cpu.add_inst(add(1, 2, 3));
    cpu.add_inst(add(4, 1, 1));
    assert_eq!(cpu.mult_issue(8), Ok(()));
    let tag = cpu.reorder_buffer()[0].index;
    assert_eq!(cpu.stations()[1].inner.rs_index, Some(tag));
    assert_eq!(cpu.stations()[1].inner.rt_index, Some(tag));
    assert!(cpu.stations()[0].dispatched);
    assert!(!cpu.stations()[1].dispatched);
    assert_eq!(cpu.units()[0].cycles, 2);
    assert_eq!(cpu.mult_issue(8), Ok(()));
    assert_eq!(cpu.units()[0].cycles, 1);
    assert_eq!(cpu.mult_issue(8), Ok(()));
    // the first result went out on the bus, and the first instruction retired
    let waiting = cpu.stations()[1];
    assert_eq!((waiting.inner.rs_index, waiting.inner.rs_value), (None, Some(11)));
    assert_eq!((waiting.inner.rt_index, waiting.inner.rt_value), (None, Some(11)));
    assert!(waiting.dispatched);
    assert!(!cpu.stations()[0].busy);
    assert_eq!(cpu.reg(1), 11);
    assert_eq!(cpu.run(), Ok(()));
    assert_eq!(cpu.reg(4), 22);
}

#[test]
fn a_value_is_forwarded_before_it_is_committed() {
    let mut cpu = TomasuloCpu::new();
    cpu.set_regs(2, 3);
    cpu.set_regs(3, 4);
    cpu.add_inst(mul(5, 2, 3));
    cpu.add_inst(add(1, 2, 3));
    assert_eq!(cpu.mult_issue(8), Ok(()));
    assert_eq!(cpu.mult_issue(8), Ok(()));
    assert_eq!(cpu.mult_issue(8), Ok(()));
    // the addition is computed, but waits behind the multiplication
    assert!(cpu.reorder_buffer()[1].ready);
    assert!(!cpu.reorder_buffer()[0].ready);
    assert_eq!(cpu.reg(1), 0);
    cpu.add_inst(add(6, 1, 1));
    assert_eq!(cpu.mult_issue(8), Ok(()));
    let reader = cpu.stations().iter().find(|s| s.busy && s.inner.inst == Some(add(6, 1, 1))).copied();
    let reader = reader.unwrap();
    assert_eq!((reader.inner.rs_index, reader.inner.rs_value), (None, Some(7)));
    assert_eq!(cpu.run(), Ok(()));
    assert_eq!([cpu.reg(5), cpu.reg(1), cpu.reg(6)], [12, 7, 14]);
}

#[test]
fn an_overtaken_write_does_not_reach_the_register() {
    let mut cpu = TomasuloCpu::new();
    cpu.set_regs(1, 1000);
    cpu.set_regs(2, 3);
    cpu.set_regs(3, 4);
    cpu.add_inst(mul(1, 2, 3));
    cpu.add_inst(add(1, 2, 3));
    assert_eq!(cpu.run(), Ok(()));
    assert_eq!(cpu.reg(1), 7);
    assert_eq!(
        cpu.commits().clone(),
        vec![Commit { dest: Some(1), value: 12 }, Commit { dest: Some(1), value: 7 }]
    );
    // when the multiplication retired, the register belonged to the addition
    let lines = cpu.trace_lines();
    assert_eq!(lines.len(), 2);
    assert!(lines[0].starts_with("reg0: 0; reg1: 1000; reg2: 3; "));
    assert!(lines[1].starts_with("reg0: 0; reg1: 7; reg2: 3; "));
}

#[test]
fn results_retire_in_program_order() {
    let mut cpu = TomasuloCpu::new();
    cpu.set_regs(2, 3);
    cpu.set_regs(3, 4);
    cpu.add_inst(Instruction::Div(Operand::new(5, 2, 3)));
    cpu.add_inst(mul(6, 2, 3));
    cpu.add_inst(add(7, 2, 3));
    cpu.add_inst(Instruction::Jump(2, 3));
    assert_eq!(cpu.run(), Ok(()));
    assert_eq!(
        cpu.commits().clone(),
        vec![
            Commit { dest: Some(5), value: 0 },
            Commit { dest: Some(6), value: 12 },
            Commit { dest: Some(7), value: 7 },
            Commit { dest: None, value: 0 },
        ]
    );
    // the division holds everything back: 24 cycles in the unit
    assert_eq!(cpu.cycles(), 26);
}

#[test]
fn tags_are_never_shared() {
    let mut cpu = TomasuloCpu::new();
    cpu.set_regs(2, 3);
    cpu.set_regs(3, 4);
    for i in 0..20 {
        cpu.add_inst(if i % 3 == 0 { mul(i % 8, 2, 3) } else { add(i % 8, 2, 3) });
    }
    let mut seen: HashSet<u64> = HashSet::new();
    let mut newest: Option<u64> = None;
    while !cpu.done() {
        let tags: Vec<u64> = cpu.reorder_buffer().iter().map(|e| e.index.id).collect();
        let distinct: HashSet<u64> = tags.iter().copied().collect();
        assert_eq!(distinct.len(), tags.len());
        for w in tags.windows(2) {
            assert_eq!(w[1], w[0] + 1);
        }
        // a tag that left the buffer never returns
        for t in &tags {
            if let Some(n) = newest {
                assert!(*t > n || seen.contains(t));
            }
        }
        for t in &tags {
            seen.insert(*t);
        }
        newest = tags.last().copied();
        assert_eq!(cpu.mult_issue(8), Ok(()));
    }
    assert_eq!(cpu.commits().len(), 20);
    assert_eq!(seen.len(), 6 + 20);
}

#[test]
fn busy_stations_stay_within_the_pool() {
    let mut cpu = TomasuloCpu::new();
    cpu.set_regs(2, 3);
    cpu.set_regs(3, 4);
    for i in 0..12 {
        cpu.add_inst(add(1 + i % 4, 2, 3));
        cpu.add_inst(mul(5 + i % 4, 2, 3));
        cpu.add_inst(Instruction::Ld(9 + i % 4, 0, 4));
        cpu.add_inst(Instruction::Jump(2, 3));
    }
    let busy = |cpu: &TomasuloCpu, t: ResStationType| {
        cpu.stations().iter().filter(|s| s.busy && s.rs_type == t).count()
    };
    let mut most = 0;
    while !cpu.done() {
        assert_eq!(cpu.mult_issue(8), Ok(()));
        assert!(busy(&cpu, ResStationType::AddSub) <= 3);
        assert!(busy(&cpu, ResStationType::MulDiv) <= 2);
        assert!(busy(&cpu, ResStationType::LoadStore) <= 3);
        assert!(busy(&cpu, ResStationType::JUMP) <= 3);
        assert_eq!(cpu.stations().len(), 11);
        assert!(cpu.reorder_buffer().iter().filter(|e| e.busy).count() <= 6);
        most = most.max(busy(&cpu, ResStationType::MulDiv));
    }
    assert_eq!(most, 2);
    assert_eq!(cpu.commits().len(), 48);
}

#[test]
fn a_station_without_a_unit_waits_its_turn() {
    let mut cpu = TomasuloCpu::new();
    cpu.add_rs(ResStationType::MulDiv, 2);
    cpu.set_regs(2, 3);
    cpu.set_regs(3, 4);
    for r in 1..5 {
        cpu.add_inst(mul(r, 2, 3));
    }
    assert_eq!(cpu.mult_issue(8), Ok(()));
    // four stations, two units
    assert_eq!(cpu.queue_len(), 0);
    let class = |s: &&tomasulo_emulator::cpu::tomasulo::ReservedStation| s.rs_type == ResStationType::MulDiv;
    assert_eq!(cpu.stations().iter().filter(class).filter(|s| s.busy).count(), 4);
    assert_eq!(cpu.stations().iter().filter(class).filter(|s| s.dispatched).count(), 2);
    assert_eq!(cpu.run(), Ok(()));
    assert_eq!([cpu.reg(1), cpu.reg(2), cpu.reg(3), cpu.reg(4)], [12, 12, 48, 576]);
}

#[test]
fn a_full_reorder_buffer_stalls_issue() {
    let mut cpu = TomasuloCpu::new();
    cpu.add_rs(ResStationType::JUMP, 10);
    for _ in 0..8 {
        cpu.add_inst(Instruction::Jump(1, 2));
    }
    assert_eq!(cpu.mult_issue(8), Ok(()));
    assert_eq!(cpu.queue_len(), 2);
    assert!(cpu.reorder_buffer().iter().all(|e| e.busy));
    assert_eq!(cpu.run(), Ok(()));
    assert_eq!(cpu.commits().len(), 8);
}

#[test]
fn issue_width_one_issues_one_instruction_a_cycle() {
    let mut cpu = TomasuloCpu::new();
    cpu.add_inst(add(1, 2, 3));
    cpu.add_inst(add(4, 5, 6));
    assert_eq!(cpu.mult_issue(1), Ok(()));
    assert_eq!(cpu.queue_len(), 1);
    assert_eq!(cpu.mult_issue(0), Ok(()));
    assert_eq!(cpu.queue_len(), 1);
    assert_eq!(cpu.mult_issue(1), Ok(()));
    assert_eq!(cpu.queue_len(), 0);
}

#[test]
fn the_phases_of_a_cycle() {
    let mut cpu = TomasuloCpu::new();
    cpu.set_regs(2, 9);
    cpu.add_inst(Instruction::Jump(2, 2));
    assert_eq!(cpu.issue(), Ok(true));
    assert!(cpu.load_can_exec(8));
    assert!(!cpu.load_can_exec(0));
    cpu.execute();
    assert!(cpu.stations()[8].dispatched);
    assert!(!cpu.load_can_exec(8));
    assert!(cpu.units()[8].busy);
    assert_eq!(cpu.units()[8].rs_index, 8);
    assert_eq!(cpu.units()[8].cycles, 1);
    cpu.write_result();
    assert!(!cpu.units()[8].busy);
    assert!(!cpu.stations()[8].busy);
    assert!(cpu.reorder_buffer()[0].ready);
    assert_eq!(cpu.reorder_buffer()[0].inner.value, Some(0));
    let old_tag = cpu.reorder_buffer()[0].index.id;
    cpu.commit();
    assert!(!cpu.done());
    assert!(!cpu.reorder_buffer()[0].busy);
    assert_eq!(cpu.reorder_buffer()[0].index.id, old_tag + 1);
    assert_eq!(cpu.reorder_buffer()[5].index.id, old_tag + 6);
    assert_eq!(cpu.commits().len(), 1);
    cpu.commit();
    assert!(cpu.done());
}

#[test]
fn a_load_waits_for_the_stores_before_it() {
    let mut cpu = TomasuloCpu::new();
    cpu.set_regs(1, 7);
    cpu.set_regs(2, 3);
    cpu.set_regs(3, 4);
    cpu.add_inst(mul(4, 2, 3));
    cpu.add_inst(Instruction::Sd(4, 0, 8));
    cpu.add_inst(Instruction::Ld(5, 0, 8));
    cpu.add_inst(Instruction::Ld(6, 0, 16));
    assert_eq!(cpu.mult_issue(8), Ok(()));
    // stations 5, 6 and 7 hold the store and the two loads
    assert_eq!(cpu.stations()[6].inner.inst, Some(Instruction::Ld(5, 0, 8)));
    assert!(cpu.stations()[6].busy && cpu.stations()[6].inner.rs_index.is_none());
    assert!(!cpu.load_can_exec(6));
    assert!(!cpu.load_can_exec(7));
    assert!(!cpu.stations()[6].dispatched);
    assert!(!cpu.stations()[7].dispatched);
    // the store waits for the product
    assert!(!cpu.stations()[5].dispatched);
    assert!(cpu.stations()[5].inner.rt_index.is_some());
    let mut waited = 0;
    while cpu.reorder_buffer().iter().any(|e| e.busy && matches!(e.inner.inst, Some(Instruction::Sd(_, _, _)))) {
        assert!(!cpu.stations()[6].dispatched);
        assert!(!cpu.stations()[7].dispatched);
        assert_eq!(cpu.mult_issue(8), Ok(()));
        waited += 1;
    }
    assert!(waited >= 12);
    assert_eq!(cpu.run(), Ok(()));
    assert_eq!([cpu.reg(4), cpu.reg(5), cpu.reg(6)], [12, 12, 0]);
}

#[test]
fn a_load_before_a_store_does_not_wait() {
    let mut cpu = TomasuloCpu::new();
    cpu.write_memory(8, 5);
    cpu.add_inst(Instruction::Ld(5, 0, 8));
    cpu.add_inst(Instruction::Sd(4, 0, 8));
    assert_eq!(cpu.issue(), Ok(true));
    assert_eq!(cpu.issue(), Ok(true));
    assert!(cpu.load_can_exec(5));
    cpu.execute();
    assert!(cpu.stations()[5].dispatched);
    assert!(cpu.stations()[6].dispatched);
    assert_eq!(cpu.run(), Ok(()));
    assert_eq!(cpu.reg(5), 5);
}

#[test]
fn a_store_keeps_its_address_and_value() {
    let mut cpu = TomasuloCpu::new();
    cpu.set_regs(1, 77);
    cpu.set_regs(2, 10);
    cpu.add_inst(Instruction::Sd(1, 2, 6));
    assert_eq!(cpu.mult_issue(8), Ok(()));
    assert_eq!(cpu.stations()[5].inner.address, Some(6));
    assert_eq!(cpu.mult_issue(8), Ok(()));
    assert_eq!(cpu.mult_issue(8), Ok(()));
    assert_eq!(cpu.commits().clone(), vec![Commit { dest: None, value: 77 }]);
    assert_eq!(cpu.stations()[5].inner.address, Some(16));
    cpu.add_inst(Instruction::Ld(3, 2, 6));
    assert_eq!(cpu.run(), Ok(()));
    assert_eq!(cpu.reg(3), 77);
}

#[test]
fn a_load_keeps_its_address() {
    let mut cpu = TomasuloCpu::new();
    cpu.set_regs(2, 10);
    cpu.write_memory(16, 5);
    cpu.add_inst(Instruction::Ld(1, 2, 7));
    assert_eq!(cpu.issue(), Ok(true));
    assert_eq!(cpu.stations()[5].inner.address, Some(7));
    assert_eq!(cpu.run(), Ok(()));
    assert_eq!(cpu.stations()[5].inner.address, Some(17));
    assert_eq!(cpu.reg(1), 5);
}

#[test]
fn what_is_traced_by_hand_joins_the_trace() {
    let mut cpu = TomasuloCpu::new();
    cpu.trace("start".to_string());
    cpu.add_inst(add(1, 2, 3));
    assert_eq!(cpu.run(), Ok(()));
    assert_eq!(cpu.trace_lines().len(), 2);
    assert_eq!(cpu.trace_lines()[0], "start");
}
