use touchhle::cpu::{
    CpuContext, CpuError, CpuState, InterpreterCpu, StepAction, CPSR_THUMB, CPSR_USER_MODE,
};
use touchhle::cpu_diff::{
    differences, initial_context, nzcv, register_name, state_of, vfp_differences, write_insn,
    write_words, Difference, CODE_BASE, STACK_TOP,
};
use touchhle::mem::Mem;

fn memory() -> Mem {
    let mut mem = Mem::new(0x1000);
    mem.bytes.resize(0x20_0000, 0);
    mem
}

fn at_code(thumb: bool) -> Box<InterpreterCpu> {
    let mut cpu = InterpreterCpu::new(1);
    cpu.regs_mut()[15] = CODE_BASE;
    cpu.set_cpsr(CPSR_USER_MODE | if thumb { CPSR_THUMB } else { 0 });
    cpu
}

#[test]
fn addition_sets_carry_and_overflow() {
    assert_eq!(InterpreterCpu::add_with_carry(1, 2, false), (3, false, false));
    assert_eq!(
        InterpreterCpu::add_with_carry(0x7fff_ffff, 1, false),
        (0x8000_0000, false, true)
    );
    assert_eq!(InterpreterCpu::add_with_carry(0xffff_ffff, 1, false), (0, true, false));
    // 5 - 3 and 3 - 5
    assert_eq!(InterpreterCpu::add_with_carry(5, !3, true), (2, true, false));
    assert_eq!(InterpreterCpu::add_with_carry(3, !5, true), (0xffff_fffe, false, false));
    assert_eq!(
        InterpreterCpu::add_with_carry(0x8000_0000, !1, true),
        (0x7fff_ffff, true, true)
    );
}

#[test]
fn shifts_give_the_last_bit_out() {
    assert_eq!(InterpreterCpu::lsl_c(0x8000_00f0, 4), (0x0000_0f00, false));
    assert_eq!(InterpreterCpu::lsl_c(1, 32), (0, true));
    assert_eq!(InterpreterCpu::lsl_c(0xff, 40), (0, false));
    assert_eq!(InterpreterCpu::lsr_c(0x8000_0000, 32), (0, true));
    assert_eq!(InterpreterCpu::lsr_c(0x18, 4), (1, true));
    assert_eq!(InterpreterCpu::asr_c(0x8000_00f0, 4), (0xf800_000f, false));
    assert_eq!(InterpreterCpu::asr_c(0x8000_0000, 99), (0xffff_ffff, true));
    assert_eq!(InterpreterCpu::ror_c(0x8000_00f0, 4), (0x0800_000f, false));
    assert_eq!(InterpreterCpu::ror_c(0x8000_00f0, 32), (0x8000_00f0, true));
    assert_eq!(InterpreterCpu::rrx_c(3, true), (0x8000_0001, true));
    assert_eq!(InterpreterCpu::shift_c(0x1234, 0, 0, true), (0x1234, true));
    assert_eq!(InterpreterCpu::shift_c(0xf0, 3, 4, false), (0xf, false));
}

#[test]
fn flags_and_conditions() {
    let mut cpu = InterpreterCpu::new(0);
    cpu.set_cpsr(0x1f);
    cpu.set_nzcv(0, true, false);
    assert_eq!(cpu.cpsr(), 0x6000_001f);
    assert!(cpu.cond_passed(0) && !cpu.cond_passed(1) && cpu.cond_passed(2));
    assert!(!cpu.cond_passed(8) && cpu.cond_passed(9) && cpu.cond_passed(0xe));
    cpu.set_nz(0x8000_0000);
    assert_eq!(cpu.cpsr(), 0xa000_001f);
    assert!(cpu.cond_passed(0xb) && !cpu.cond_passed(0xa));
    cpu.set_c_flag(false);
    assert_eq!(cpu.cpsr(), 0x8000_001f);
    // Inside an IT block the flags stay.
    cpu.set_itstate(0x08);
    cpu.set_nzcv_dp(0, true, true);
    cpu.set_nz_dp(0);
    assert!(cpu.flag_n() && !cpu.flag_z() && !cpu.flag_c() && !cpu.flag_v());
}

#[test]
fn it_block_runs_out() {
    let mut cpu = InterpreterCpu::new(0);
    cpu.set_itstate(0x0c);
    assert_eq!(cpu.itstate(), 0x0c);
    assert!(cpu.in_it_block());
    cpu.it_advance();
    assert_eq!(cpu.itstate(), 0x18);
    cpu.it_advance();
    assert_eq!(cpu.itstate(), 0);
    assert!(!cpu.in_it_block());
}

#[test]
fn registers_and_program_counter() {
    let mut cpu = at_code(true);
    assert_eq!(cpu.get_reg(15), CODE_BASE + 4);
    cpu.set_reg(15, CODE_BASE + 2);
    assert_eq!(cpu.get_reg_align(15), CODE_BASE + 4);
    cpu.bx_write_pc(0x2000);
    assert_eq!(cpu.regs()[15], 0x2000);
    assert_eq!(cpu.get_reg(15), 0x2008);
    cpu.bx_write_pc(0x3001);
    assert_eq!((cpu.regs()[15], cpu.cpsr() & CPSR_THUMB), (0x3000, CPSR_THUMB));
    cpu.set_dreg(3, 0x1122_3344_5566_7788);
    assert_eq!((cpu.get_sreg(6), cpu.get_sreg(7)), (0x5566_7788, 0x1122_3344));
    assert_eq!(cpu.get_dreg(3), 0x1122_3344_5566_7788);
}

#[test]
fn contexts_swap_back() {
    let mut cpu = at_code(false);
    let mut ctx = CpuContext::new();
    ctx.regs[3] = 7;
    ctx.fpscr = 0x2000_0000;
    cpu.swap_context(&mut ctx);
    assert_eq!((cpu.regs()[3], cpu.fpscr(), cpu.cpsr()), (7, 0x2000_0000, 0));
    assert_eq!((ctx.regs[15], ctx.cpsr), (CODE_BASE, CPSR_USER_MODE));
    cpu.swap_context(&mut ctx);
    assert_eq!((cpu.regs()[15], ctx.regs[3]), (CODE_BASE, 7));
}

#[test]
fn guest_accesses_fault_below_the_null_segment() {
    let mut mem = memory();
    let cpu = InterpreterCpu::new(2);
    assert_eq!(cpu.data_r_u32(&mem, 0x1ffc), None);
    assert!(!cpu.data_w_u8(&mut mem, 0x1fff, 1));
    assert!(cpu.data_w_u32(&mut mem, 0x2000, 0xdead_beef));
    assert_eq!(cpu.data_r_u16(&mem, 0x2002), Some(0xdead));
    assert_eq!(cpu.data_r_u8(&mem, 0x2000), Some(0xef));
    assert!(!cpu.data_w_u16(&mut mem, 0x1f_ffff, 1));
}

#[test]
fn exclusive_monitor() {
    let mut cpu = InterpreterCpu::new(0);
    cpu.excl_set(0x100);
    assert!(!cpu.excl_check_clear(0x104));
    assert!(!cpu.excl_check_clear(0x100));
    cpu.excl_set(0x100);
    assert!(cpu.excl_check_clear(0x100));
}

#[test]
fn supervisor_call_halts_behind_it() {
    let mut mem = memory();
    write_insn(&mut mem, 0xef00_002a, 4, false);
    let mut cpu = at_code(false);
    assert_eq!(cpu.step_begin(&mem), StepAction::Done(CpuState::Svc(42)));
    assert_eq!(cpu.regs()[15], CODE_BASE + 4);
}

#[test]
fn skipped_instruction_of_an_it_block() {
    let mut mem = memory();
    // IT NE, MOVS r0, #1, NOP
    mem.write_bytes(CODE_BASE, &vec![0x18, 0xbf, 0x01, 0x20, 0x00, 0xbf]);
    let mut cpu = at_code(true);
    cpu.set_cpsr(cpu.cpsr() | 0x4000_0000);
    let mut ticks = Some(10);
    match cpu.run_or_step(&mem, &mut ticks, None) {
        StepAction::Execute(fetched) => {
            assert_eq!((fetched.pc, fetched.insn, fetched.len), (CODE_BASE + 4, 0xbf00, 2));
            assert!(fetched.thumb && !fetched.in_it);
        }
        other => panic!("{:?}", other),
    }
    assert_eq!(ticks, Some(8));
    assert_eq!(cpu.dump_trace().len(), 3);
}

#[test]
fn runs_keep_to_their_budget() {
    let run = |mut ticks: Option<u64>, fail_at: u64| {
        let mut mem = memory();
        for i in 0..16 {
            mem.write_u32(CODE_BASE + 4 * i, 0xe1a0_0000);
        }
        let mut cpu = at_code(false);
        let mut steps = 0;
        let mut resumed = None;
        loop {
            match cpu.run_or_step(&mem, &mut ticks, resumed) {
                StepAction::Execute(fetched) => {
                    steps += 1;
                    let outcome = if steps == fail_at {
                        CpuState::Error(CpuError::Breakpoint)
                    } else {
                        let mut regs = *cpu.regs();
                        regs[15] = fetched.pc + fetched.len;
                        *cpu.regs_mut() = regs;
                        CpuState::Normal
                    };
                    resumed = Some((fetched, Some(outcome)));
                }
                StepAction::Done(st) => return (st, steps, ticks),
            }
        }
    };
    assert_eq!(run(Some(5), 99), (CpuState::Normal, 5, Some(0)));
    assert_eq!(run(Some(0), 99), (CpuState::Normal, 1, Some(0)));
    assert_eq!(run(None, 99), (CpuState::Normal, 1, None));
    assert_eq!(run(Some(5), 3), (CpuState::Error(CpuError::Breakpoint), 3, Some(2)));
}

#[test]
fn unknown_instruction_and_derailment() {
    let mut mem = memory();
    write_insn(&mut mem, 0xe123_4567, 4, false);
    let mut cpu = at_code(false);
    let fetched = match cpu.step_begin(&mem) {
        StepAction::Execute(fetched) => fetched,
        other => panic!("{:?}", other),
    };
    assert_eq!(
        cpu.step_finish(fetched, None),
        CpuState::Error(CpuError::UndefinedInstruction)
    );
    assert_eq!(cpu.regs()[15], CODE_BASE + 4);
    // A zero word after an instruction.
    assert_eq!(
        cpu.step_begin(&mem),
        StepAction::Done(CpuState::Error(CpuError::UndefinedInstruction))
    );
    cpu.regs_mut()[15] = 0x30_0000;
    assert_eq!(
        cpu.step_begin(&mem),
        StepAction::Done(CpuState::Error(CpuError::MemoryError))
    );
}

#[test]
fn long_thumb_instruction_is_written_upper_half_first() {
    let mut mem = memory();
    write_insn(&mut mem, 0xe851_0f00, 4, true);
    assert_eq!(mem.bytes_at(CODE_BASE, 4), vec![0x51, 0xe8, 0x00, 0x0f]);
    match at_code(true).step_begin(&mem) {
        StepAction::Execute(f) => assert_eq!((f.insn, f.len), (0xe851_0f00, 4)),
        other => panic!("{:?}", other),
    }
    write_insn(&mut mem, 0xe851_0f00, 4, false);
    assert_eq!(mem.bytes_at(CODE_BASE, 4), vec![0x00, 0x0f, 0x51, 0xe8]);
}

#[test]
fn states_are_compared() {
    let mut mem = memory();
    write_words(&mut mem, &vec![(STACK_TOP - 4, 0x0102_0304)]);
    let start = initial_context(&[0; 16], &[0; 64], 0xf000_0020, false);
    assert_eq!((start.regs[15], start.cpsr), (CODE_BASE, 0xf000_0010));
    let oracle = state_of(start, &mem);
    assert_eq!(oracle.window[60..].to_vec(), vec![4, 3, 2, 1]);
    let mut other = start;
    other.cpsr ^= 0x0200_0000;
    assert!(differences(&oracle, &state_of(other, &mem)).is_empty());
    other.regs[14] = 9;
    other.cpsr ^= 0x4000_0000;
    write_words(&mut mem, &vec![(STACK_TOP - 8, 1)]);
    let found = differences(&oracle, &state_of(other, &mem));
    assert_eq!(found.len(), 3);
    assert_eq!(found[0], Difference::Register { number: 14, oracle: 0, interp: 9 });
    assert_eq!(found[2], Difference::Memory);
    let mut vfp = start;
    vfp.extregs[5] = 1;
    vfp.fpscr = 0x8000_0001;
    assert_eq!(
        vfp_differences(&start, &vfp),
        vec![
            Difference::Extension { number: 5, oracle: 0, interp: 1 },
            Difference::Fpscr { oracle: 0, interp: 0x8000_0001 },
        ]
    );
    assert_eq!(nzcv(0x6000_0030), "N0Z1C1V0T1");
    assert_eq!(register_name(12), "r12");
    assert_eq!(register_name(13), "sp");
}
