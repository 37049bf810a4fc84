//! The ARMv6/ARMv7 processor state, the fetch and dispatch of one
//! instruction, and the run loop around it.
//!
//! What one instruction does to registers and memory is left to an executor
//! that the embedding program supplies: [`InterpreterCpu::step_begin`] and
//! [`InterpreterCpu::run_or_step`] hand the fetched instruction out, and
//! [`InterpreterCpu::step_finish`] takes the executor's answer back.
use crate::mem;
use crate::mem::{u16_le_bytes, Mem};
use vstd::prelude::*;

verus! {

pub const CPSR_THUMB: u32 = 0x0000_0020;

pub const CPSR_USER_MODE: u32 = 0x0000_0010;

pub const PC: usize = 15;

/// Number of entries in the ring of recently fetched instructions.
pub const TRACE_LEN: usize = 64;

#[derive(Clone, Copy, Debug, PartialEq, Eq, Structural)]
pub enum CpuError {
    MemoryError,
    UndefinedInstruction,
    Breakpoint,
}

/// Why the processor stopped.
#[derive(Clone, Copy, Debug, PartialEq, Eq, Structural)]
pub enum CpuState {
    Normal,
    Svc(u32),
    Error(CpuError),
}

/// The part of the processor state that belongs to a guest thread.
#[derive(Clone, Copy)]
pub struct CpuContext {
    pub regs: [u32; 16],
    pub extregs: [u32; 64],
    pub cpsr: u32,
    pub fpscr: u32,
}

impl Default for CpuContext {
    fn default() -> (ctx: CpuContext)
        ensures
            ctx.regs@ == Seq::new(16, |i: int| 0u32),
            ctx.extregs@ == Seq::new(64, |i: int| 0u32),
            ctx.cpsr == 0,
            ctx.fpscr == 0,
    {
        let ctx = CpuContext { regs: [0; 16], extregs: [0; 64], cpsr: 0, fpscr: 0 };
        assert(ctx.regs@ =~= Seq::new(16, |i: int| 0u32));
        assert(ctx.extregs@ =~= Seq::new(64, |i: int| 0u32));
        ctx
    }
}

impl CpuContext {
    pub fn new() -> (ctx: CpuContext)
        ensures
            ctx.regs@ == Seq::new(16, |i: int| 0u32),
            ctx.extregs@ == Seq::new(64, |i: int| 0u32),
            ctx.cpsr == 0,
            ctx.fpscr == 0,
    {
        Self::default()
    }
}

/// An instruction that has been fetched and that the executor has to carry
/// out: `insn` holds a 16-bit Thumb instruction, a 32-bit Thumb instruction
/// with its first halfword on top, or an ARM instruction.
#[derive(Clone, Copy, Debug, PartialEq, Eq, Structural)]
pub struct Fetched {
    pub pc: u32,
    pub insn: u32,
    pub len: u32,
    pub thumb: bool,
    /// Whether the instruction stands inside an IT block.
    pub in_it: bool,
}

/// What is left to do after the fetch of an instruction.
#[derive(Clone, Copy, Debug, PartialEq, Eq, Structural)]
pub enum StepAction {
    Done(CpuState),
    Execute(Fetched),
}

/// The processor.
pub struct InterpreterCpu {
    pub regs: [u32; 16],
    pub extregs: [u32; 64],
    pub cpsr: u32,
    pub fpscr: u32,
    pub null_segment_size: u32,
    /// Address of the exclusive monitor's reservation.
    pub excl_addr: Option<u32>,
    pub trace: [(u32, u32); 64],
    pub trace_pos: usize,
    pub dbg_n: u64,
    pub dbg_last_pc: u32,
    pub dbg_last_insn: u32,
}

/// The processor state as mathematical values.
#[verifier::ext_equal]
pub struct CpuView {
    pub regs: Seq<u32>,
    pub extregs: Seq<u32>,
    pub cpsr: u32,
    pub fpscr: u32,
    pub null_segment_size: u32,
    pub excl_addr: Option<u32>,
    pub trace: Seq<(u32, u32)>,
    pub trace_pos: int,
    pub dbg_n: u64,
    pub dbg_last_pc: u32,
    pub dbg_last_insn: u32,
}

impl View for InterpreterCpu {
    type V = CpuView;

    open spec fn view(&self) -> CpuView {
        CpuView {
            regs: self.regs@,
            extregs: self.extregs@,
            cpsr: self.cpsr,
            fpscr: self.fpscr,
            null_segment_size: self.null_segment_size,
            excl_addr: self.excl_addr,
            trace: self.trace@,
            trace_pos: self.trace_pos as int,
            dbg_n: self.dbg_n,
            dbg_last_pc: self.dbg_last_pc,
            dbg_last_insn: self.dbg_last_insn,
        }
    }
}

pub open spec fn thumb_bit(cpsr: u32) -> bool {
    cpsr & CPSR_THUMB != 0
}

pub open spec fn n_bit(cpsr: u32) -> bool {
    cpsr & 0x8000_0000 != 0
}

pub open spec fn z_bit(cpsr: u32) -> bool {
    cpsr & 0x4000_0000 != 0
}

pub open spec fn c_bit(cpsr: u32) -> bool {
    cpsr & 0x2000_0000 != 0
}

pub open spec fn v_bit(cpsr: u32) -> bool {
    cpsr & 0x1000_0000 != 0
}

/// The IT state: its upper six bits stand in bits 15 to 10 of the status
/// register, its lower two in bits 26 and 25.
pub open spec fn it_of(cpsr: u32) -> u8 {
    (((cpsr >> 10) & 0x3f) << 2 | ((cpsr >> 25) & 3)) as u8
}

/// The status register with the IT state replaced.
pub open spec fn with_it(cpsr: u32, it: u8) -> u32 {
    (cpsr & 0xf9ff_03ff) | (((it as u32 >> 2) & 0x3f) << 10) | ((it as u32 & 3) << 25)
}

/// The IT state for the next instruction of the block.
pub open spec fn it_next(it: u8) -> u8 {
    if it & 7 == 0 {
        0
    } else {
        (it & 0xe0) | ((it << 1) & 0x1f)
    }
}

/// Whether a condition holds for the four condition flags. Conditions come in
/// pairs, of which the odd one is the negation of the even one.
pub open spec fn condition_holds(cond: int, n: bool, z: bool, c: bool, v: bool) -> bool {
    let base = if cond / 2 == 0 {
        z
    } else if cond / 2 == 1 {
        c
    } else if cond / 2 == 2 {
        n
    } else if cond / 2 == 3 {
        v
    } else if cond / 2 == 4 {
        c && !z
    } else if cond / 2 == 5 {
        n == v
    } else {
        !z && n == v
    };
    if cond >= 14 {
        true
    } else if cond % 2 == 0 {
        base
    } else {
        !base
    }
}

pub open spec fn cond_in(cpsr: u32, cond: int) -> bool {
    condition_holds(cond, n_bit(cpsr), z_bit(cpsr), c_bit(cpsr), v_bit(cpsr))
}

/// An access by the guest succeeds where neither the processor's own null
/// segment nor the memory forbids it.
pub open spec fn accessible(cpu: CpuView, mem: &Mem, addr: int, len: int) -> bool {
    addr >= cpu.null_segment_size && mem.mapped(addr, len)
}

/// The instruction at the program counter and its length in bytes.
pub open spec fn fetch(cpu: CpuView, mem: &Mem) -> Option<(u32, u32)> {
    let pc = cpu.regs[15] as int;
    if thumb_bit(cpu.cpsr) {
        if !accessible(cpu, mem, pc, 2) {
            None
        } else {
            let hw0 = mem::le_value(mem.span(pc, 2)) as u16;
            if (hw0 & 0xf800) < 0xe800 {
                Some((hw0 as u32, 2u32))
            } else if !accessible(cpu, mem, pc + 2, 2) {
                None
            } else {
                Some(((0x1_0000 * hw0 + mem::le_value(mem.span(pc + 2, 2))) as u32, 4u32))
            }
        }
    } else if !accessible(cpu, mem, pc, 4) {
        None
    } else {
        Some((mem::le_value(mem.span(pc, 4)) as u32, 4u32))
    }
}

/// The processor after it has noted the fetched instruction in its trace.
pub open spec fn traced(cpu: CpuView, insn: u32) -> CpuView {
    let pc = cpu.regs[15];
    CpuView {
        dbg_n: ((cpu.dbg_n + 1) % 0x1_0000_0000_0000_0000) as u64,
        dbg_last_pc: pc,
        dbg_last_insn: insn,
        trace: cpu.trace.update(cpu.trace_pos, (pc, insn)),
        trace_pos: (cpu.trace_pos + 1) % 64,
        ..cpu
    }
}

/// Execution has run off: a zero instruction follows a real one, or the
/// program counter is in the top of the address space.
pub open spec fn derailed(cpu: CpuView, insn: u32) -> bool {
    (insn == 0 && cpu.dbg_last_insn != 0 && cpu.dbg_last_pc != 0) || cpu.regs[15] >= 0xe000_0000
}

pub open spec fn pc_plus(cpu: CpuView, n: int) -> CpuView {
    CpuView { regs: cpu.regs.update(15, ((cpu.regs[15] + n) % 0x1_0000_0000) as u32), ..cpu }
}

pub open spec fn with_cpsr(cpu: CpuView, cpsr: u32) -> CpuView {
    CpuView { cpsr, ..cpu }
}

/// Fetch of one instruction and everything that needs no executor.
pub open spec fn begun(cpu: CpuView, mem: &Mem) -> (CpuView, StepAction) {
    match fetch(cpu, mem) {
        None => (cpu, StepAction::Done(CpuState::Error(CpuError::MemoryError))),
        Some((insn, len)) => {
            let thumb = thumb_bit(cpu.cpsr);
            let noted = traced(cpu, insn);
            let it = it_of(cpu.cpsr);
            let in_it = it & 0x0f != 0;
            if !thumb && (insn & 0xff00_0000) == 0xef00_0000 {
                (pc_plus(cpu, 4), StepAction::Done(CpuState::Svc(insn & 0x00ff_ffff)))
            } else if derailed(cpu, insn) {
                (noted, StepAction::Done(CpuState::Error(CpuError::UndefinedInstruction)))
            } else if thumb && len == 2 && (insn & 0xff00) == 0xbf00 && (insn & 0x000f) != 0 {
                (
                    pc_plus(with_cpsr(noted, with_it(cpu.cpsr, (insn & 0xff) as u8)), 2),
                    StepAction::Done(CpuState::Normal),
                )
            } else if in_it && !cond_in(cpu.cpsr, (it >> 4) as int) {
                (
                    pc_plus(with_cpsr(noted, with_it(cpu.cpsr, it_next(it))), len as int),
                    StepAction::Done(CpuState::Normal),
                )
            } else {
                (
                    noted,
                    StepAction::Execute(Fetched { pc: cpu.regs[15], insn, len, thumb, in_it }),
                )
            }
        },
    }
}

/// What follows the executor's answer.
pub open spec fn finished(
    cpu: CpuView,
    fetched: Fetched,
    outcome: Option<CpuState>,
) -> (CpuView, CpuState) {
    match outcome {
        Some(st) => if fetched.in_it && st == CpuState::Normal {
            (with_cpsr(cpu, with_it(cpu.cpsr, it_next(it_of(cpu.cpsr)))), st)
        } else {
            (cpu, st)
        },
        None => (
            CpuView {
                regs: cpu.regs.update(
                    15,
                    ((fetched.pc + fetched.len) % 0x1_0000_0000) as u32,
                ),
                ..cpu
            },
            CpuState::Error(CpuError::UndefinedInstruction),
        ),
    }
}

/// What is left of the budget after one more step.
pub open spec fn spent(ticks: Option<u64>) -> Option<u64> {
    match ticks {
        None => None,
        Some(budget) => Some(if budget == 0 {
            0u64
        } else {
            (budget - 1) as u64
        }),
    }
}

/// Whether the run loop takes another step.
pub open spec fn goes_on(ticks: Option<u64>, st: CpuState) -> bool {
    st == CpuState::Normal && (ticks matches Some(budget) && budget > 1)
}

/// The run loop, up to the first instruction that needs the executor or the
/// state that it returns.
pub open spec fn ran(cpu: CpuView, mem: &Mem, ticks: Option<u64>) -> (
    CpuView,
    Option<u64>,
    StepAction,
)
    decreases
            match ticks {
                Some(budget) => budget as int,
                None => 0,
            },
{
    let (next, action) = begun(cpu, mem);
    match action {
        StepAction::Execute(fetched) => (next, ticks, action),
        StepAction::Done(st) => if goes_on(ticks, st) {
            ran(next, mem, spent(ticks))
        } else {
            (next, spent(ticks), action)
        },
    }
}

/// The run loop, entered with a step that has just ended in `st`.
pub open spec fn ran_after(cpu: CpuView, mem: &Mem, ticks: Option<u64>, st: CpuState) -> (
    CpuView,
    Option<u64>,
    StepAction,
) {
    if goes_on(ticks, st) {
        ran(cpu, mem, spent(ticks))
    } else {
        (cpu, spent(ticks), StepAction::Done(st))
    }
}

/// The entries of the trace with a program counter, oldest first, without the
/// first `from` slots.
pub open spec fn trace_entries(trace: Seq<(u32, u32)>, pos: int, from: int) -> Seq<(u32, u32)>
    decreases 64 - from,
{
    if from >= 64 {
        Seq::empty()
    } else {
        let entry = trace[(pos + from) % 64];
        let rest = trace_entries(trace, pos, from + 1);
        if entry.0 != 0 {
            seq![entry] + rest
        } else {
            rest
        }
    }
}

/// `x + y + carry_in` as the adder gives it: the low 32 bits, the carry out,
/// and whether the signed sum does not fit.
pub open spec fn sum_with_carry(x: u32, y: u32, carry_in: bool) -> (u32, bool, bool) {
    let carry: int = if carry_in {
        1
    } else {
        0
    };
    let unsigned = x + y + carry;
    let signed = signed_value(x) + signed_value(y) + carry;
    (
        (unsigned % 0x1_0000_0000) as u32,
        unsigned >= 0x1_0000_0000,
        !(-0x8000_0000 <= signed < 0x8000_0000),
    )
}

/// The word read as a two's complement number.
pub open spec fn signed_value(x: u32) -> int {
    if x < 0x8000_0000 {
        x as int
    } else {
        x - 0x1_0000_0000
    }
}

/// The value that an instruction reads from a register: the program counter reads ahead
/// by two instructions.
pub open spec fn operand(cpu: CpuView, n: int) -> u32 {
    if n == 15 {
        ((cpu.regs[15] + if thumb_bit(cpu.cpsr) {
            4int
        } else {
            8
        }) % 0x1_0000_0000) as u32
    } else {
        cpu.regs[n]
    }
}

/// The program counter reads as the address of the second next instruction, where each has
/// two bytes in Thumb and else four; any other register reads as what it holds.
pub proof fn law_program_counter_reads_ahead(cpu: CpuView, n: int)
    requires
        0 <= n < 16,
    ensures
        n < 15 ==> operand(cpu, n) == cpu.regs[n],
        n == 15 ==> ({
            let size: int = if cpu.cpsr / 32 % 2 == 1 {
                2
            } else {
                4
            };
            operand(cpu, n) == (cpu.regs[15] + size + size) % 0x1_0000_0000
        }),
{
    let cpsr = cpu.cpsr;
    assert(cpsr & 0x20 != 0 <==> cpsr / 32 % 2 == 1) by (bit_vector);
}

impl InterpreterCpu {
    /// The trace position is a slot of the trace.
    pub open spec fn wf(&self) -> bool {
        self.trace_pos < 64
    }

    pub fn new(null_page_count: u32) -> (cpu: Box<InterpreterCpu>)
        requires
            null_page_count * 0x1000 <= u32::MAX,
        ensures
            cpu.wf(),
            cpu@ == (CpuView {
                regs: Seq::new(16, |i: int| 0u32),
                extregs: Seq::new(64, |i: int| 0u32),
                cpsr: CPSR_USER_MODE,
                fpscr: 0,
                null_segment_size: (null_page_count * 0x1000) as u32,
                excl_addr: None,
                trace: Seq::new(64, |i: int| (0u32, 0u32)),
                trace_pos: 0,
                dbg_n: 0,
                dbg_last_pc: 0,
                dbg_last_insn: 0,
            }),
    {
        let cpu = InterpreterCpu {
            regs: [0; 16],
            extregs: [0; 64],
            cpsr: CPSR_USER_MODE,
            fpscr: 0,
            null_segment_size: null_page_count * 0x1000,
            excl_addr: None,
            trace: [(0, 0); 64],
            trace_pos: 0,
            dbg_n: 0,
            dbg_last_pc: 0,
            dbg_last_insn: 0,
        };
        assert(cpu.regs@ =~= Seq::new(16, |i: int| 0u32));
        assert(cpu.extregs@ =~= Seq::new(64, |i: int| 0u32));
        assert(cpu.trace@ =~= Seq::new(64, |i: int| (0u32, 0u32)));
        Box::new(cpu)
    }

    /// Reserves an address for a store-exclusive.
    pub fn excl_set(&mut self, addr: u32)
        ensures
            final(self)@ == (CpuView { excl_addr: Some(addr), ..old(self)@ }),
    {
        self.excl_addr = Some(addr);
    }

    /// Whether the address is the reserved one; the reservation is gone
    /// afterwards either way.
    pub fn excl_check_clear(&mut self, addr: u32) -> (ok: bool)
        ensures
            ok == (old(self).excl_addr == Some(addr)),
            final(self)@ == (CpuView { excl_addr: None, ..old(self)@ }),
    {
        let ok = match self.excl_addr {
            Some(reserved) => reserved == addr,
            None => false,
        };
        self.excl_addr = None;
        ok
    }

    pub fn excl_clear(&mut self)
        ensures
            final(self)@ == (CpuView { excl_addr: None, ..old(self)@ }),
    {
        self.excl_addr = None;
    }

    pub fn regs(&self) -> (regs: &[u32; 16])
        ensures
            *regs == self.regs,
    {
        &self.regs
    }

    pub fn regs_mut(&mut self) -> (regs: &mut [u32; 16])
        ensures
            *regs == old(self).regs,
            final(self)@ == (CpuView { regs: final(regs)@, ..old(self)@ }),
    {
        &mut self.regs
    }

    pub fn cpsr(&self) -> (cpsr: u32)
        ensures
            cpsr == self.cpsr,
    {
        self.cpsr
    }

    pub fn set_cpsr(&mut self, cpsr: u32)
        ensures
            final(self)@ == with_cpsr(old(self)@, cpsr),
    {
        self.cpsr = cpsr;
    }

    pub fn extregs(&self) -> (extregs: &[u32; 64])
        ensures
            *extregs == self.extregs,
    {
        &self.extregs
    }

    pub fn extregs_mut(&mut self) -> (extregs: &mut [u32; 64])
        ensures
            *extregs == old(self).extregs,
            final(self)@ == (CpuView { extregs: final(extregs)@, ..old(self)@ }),
    {
        &mut self.extregs
    }

    pub fn fpscr(&self) -> (fpscr: u32)
        ensures
            fpscr == self.fpscr,
    {
        self.fpscr
    }

    pub fn set_fpscr(&mut self, v: u32)
        ensures
            final(self)@ == (CpuView { fpscr: v, ..old(self)@ }),
    {
        self.fpscr = v;
    }

    /// Instructions are fetched from memory each time, so that there is no
    /// cache to invalidate.
    pub fn invalidate_cache_range(&mut self, _base: u32, _size: u32)
        ensures
            *final(self) == *old(self),
    {
    }

    /// Exchanges the thread-specific state with `ctx`.
    pub fn swap_context(&mut self, ctx: &mut CpuContext)
        ensures
            final(self)@ == (CpuView {
                regs: old(ctx).regs@,
                extregs: old(ctx).extregs@,
                cpsr: old(ctx).cpsr,
                fpscr: old(ctx).fpscr,
                ..old(self)@
            }),
            *final(ctx) == (CpuContext {
                regs: old(self).regs,
                extregs: old(self).extregs,
                cpsr: old(self).cpsr,
                fpscr: old(self).fpscr,
            }),
    {
        std::mem::swap(&mut self.regs, &mut ctx.regs);
        std::mem::swap(&mut self.extregs, &mut ctx.extregs);
        std::mem::swap(&mut self.cpsr, &mut ctx.cpsr);
        std::mem::swap(&mut self.fpscr, &mut ctx.fpscr);
    }

    pub fn is_thumb(&self) -> (thumb: bool)
        ensures
            thumb == thumb_bit(self.cpsr),
    {
        self.cpsr & CPSR_THUMB != 0
    }

    pub fn add_with_carry(x: u32, y: u32, carry_in: bool) -> (sum: (u32, bool, bool))
        ensures
            sum == sum_with_carry(x, y, carry_in),
    {
        let carry: u64 = if carry_in {
            1
        } else {
            0
        };
        let usum: u64 = x as u64 + y as u64 + carry;
        let result: u32 = (usum % 0x1_0000_0000) as u32;
        let carry_out: bool = usum >= 0x1_0000_0000;
        let sx: i64 = if x < 0x8000_0000 {
            x as i64
        } else {
            x as i64 - 0x1_0000_0000
        };
        let sy: i64 = if y < 0x8000_0000 {
            y as i64
        } else {
            y as i64 - 0x1_0000_0000
        };
        let ssum: i64 = sx + sy + carry as i64;
        let overflow: bool = !(-0x8000_0000 <= ssum && ssum < 0x8000_0000);
        (result, carry_out, overflow)
    }

    /// Sets the N and Z flags from a result.
    pub fn set_nz(&mut self, result: u32)
        ensures
            final(self)@ == with_cpsr(old(self)@, final(self).cpsr),
            n_bit(final(self).cpsr) == (result >= 0x8000_0000),
            z_bit(final(self).cpsr) == (result == 0),
            final(self).cpsr & 0x3fff_ffff == old(self).cpsr & 0x3fff_ffff,
    {
        let before: u32 = self.cpsr;
        let z: u32 = if result == 0 {
            0x4000_0000
        } else {
            0
        };
        self.cpsr = (before & 0x3fff_ffff) | (result & 0x8000_0000) | z;
        let after: u32 = self.cpsr;
        assert(after & 0x8000_0000 != 0 <==> result >= 0x8000_0000) by (bit_vector)
            requires
                after == (before & 0x3fff_ffff) | (result & 0x8000_0000) | z,
                z == 0 || z == 0x4000_0000,
        ;
        assert((after & 0x4000_0000 != 0 <==> z != 0) && after & 0x3fff_ffff == before
            & 0x3fff_ffff) by (bit_vector)
            requires
                after == (before & 0x3fff_ffff) | (result & 0x8000_0000) | z,
                z == 0 || z == 0x4000_0000,
        ;
    }

    /// Sets all four condition flags: N and Z from a result, C and V as given.
    pub fn set_nzcv(&mut self, result: u32, c: bool, v: bool)
        ensures
            final(self)@ == with_cpsr(old(self)@, final(self).cpsr),
            n_bit(final(self).cpsr) == (result >= 0x8000_0000),
            z_bit(final(self).cpsr) == (result == 0),
            c_bit(final(self).cpsr) == c,
            v_bit(final(self).cpsr) == v,
            final(self).cpsr & 0x0fff_ffff == old(self).cpsr & 0x0fff_ffff,
    {
        let before: u32 = self.cpsr;
        let zf: u32 = if result == 0 {
            0x4000_0000
        } else {
            0
        };
        let cf: u32 = if c {
            0x2000_0000
        } else {
            0
        };
        let vf: u32 = if v {
            0x1000_0000
        } else {
            0
        };
        self.cpsr = (before & 0x0fff_ffff) | (result & 0x8000_0000) | zf | cf | vf;
        let after: u32 = self.cpsr;
        assert((after & 0x8000_0000 != 0 <==> result >= 0x8000_0000) && (after & 0x4000_0000 != 0
            <==> zf != 0) && (after & 0x2000_0000 != 0 <==> cf != 0) && (after & 0x1000_0000 != 0
            <==> vf != 0) && after & 0x0fff_ffff == before & 0x0fff_ffff) by (bit_vector)
            requires
                after == (before & 0x0fff_ffff) | (result & 0x8000_0000) | zf | cf | vf,
                zf == 0 || zf == 0x4000_0000,
                cf == 0 || cf == 0x2000_0000,
                vf == 0 || vf == 0x1000_0000,
        ;
    }

    /// As [`Self::set_nzcv`], for a data-processing instruction: inside an IT
    /// block it leaves the flags alone.
    pub fn set_nzcv_dp(&mut self, result: u32, c: bool, v: bool)
        ensures
            it_of(old(self).cpsr) & 0x0f != 0 ==> final(self)@ == old(self)@,
            it_of(old(self).cpsr) & 0x0f == 0 ==> {
                &&& final(self)@ == with_cpsr(old(self)@, final(self).cpsr)
                &&& n_bit(final(self).cpsr) == (result >= 0x8000_0000)
                &&& z_bit(final(self).cpsr) == (result == 0)
                &&& c_bit(final(self).cpsr) == c
                &&& v_bit(final(self).cpsr) == v
                &&& final(self).cpsr & 0x0fff_ffff == old(self).cpsr & 0x0fff_ffff
            },
    {
        if !self.in_it_block() {
            self.set_nzcv(result, c, v);
        }
    }

    pub fn set_nz_dp(&mut self, result: u32)
        ensures
            it_of(old(self).cpsr) & 0x0f != 0 ==> final(self)@ == old(self)@,
            it_of(old(self).cpsr) & 0x0f == 0 ==> {
                &&& final(self)@ == with_cpsr(old(self)@, final(self).cpsr)
                &&& n_bit(final(self).cpsr) == (result >= 0x8000_0000)
                &&& z_bit(final(self).cpsr) == (result == 0)
                &&& final(self).cpsr & 0x3fff_ffff == old(self).cpsr & 0x3fff_ffff
            },
    {
        if !self.in_it_block() {
            self.set_nz(result);
        }
    }

    /// The value that an instruction reads from a register: the program
    /// counter reads ahead by two instructions.
    pub fn get_reg(&self, n: usize) -> (v: u32)
        requires
            n < 16,
        ensures
            v == operand(self@, n as int),
    {
        if n == 15 {
            let ahead: u32 = if self.is_thumb() {
                4
            } else {
                8
            };
            self.regs[15].wrapping_add(ahead)
        } else {
            self.regs[n]
        }
    }

    /// As [`Self::get_reg`], with the program counter rounded down to a word.
    pub fn get_reg_align(&self, n: usize) -> (v: u32)
        requires
            n < 16,
        ensures
            n != 15 ==> v == operand(self@, n as int),
            n == 15 ==> v == operand(self@, 15) - operand(self@, 15) % 4,
    {
        let v: u32 = self.get_reg(n);
        if n == 15 {
            v - v % 4
        } else {
            v
        }
    }

    pub fn set_reg(&mut self, n: usize, val: u32)
        requires
            n < 16,
        ensures
            final(self)@ == (CpuView { regs: old(self).regs@.update(n as int, val), ..old(self)@ }),
    {
        self.regs[n] = val;
        assert(self.regs@ =~= old(self).regs@.update(n as int, val));
    }

    pub fn flag_n(&self) -> (set: bool)
        ensures
            set == n_bit(self.cpsr),
    {
        self.cpsr & 0x8000_0000 != 0
    }

    pub fn flag_z(&self) -> (set: bool)
        ensures
            set == z_bit(self.cpsr),
    {
        self.cpsr & 0x4000_0000 != 0
    }

    pub fn flag_c(&self) -> (set: bool)
        ensures
            set == c_bit(self.cpsr),
    {
        self.cpsr & 0x2000_0000 != 0
    }

    pub fn flag_v(&self) -> (set: bool)
        ensures
            set == v_bit(self.cpsr),
    {
        self.cpsr & 0x1000_0000 != 0
    }

    pub fn set_c_flag(&mut self, c: bool)
        ensures
            final(self)@ == with_cpsr(old(self)@, final(self).cpsr),
            c_bit(final(self).cpsr) == c,
            final(self).cpsr & 0xdfff_ffff == old(self).cpsr & 0xdfff_ffff,
    {
        let before: u32 = self.cpsr;
        if c {
            self.cpsr = before | 0x2000_0000;
        } else {
            self.cpsr = before & 0xdfff_ffff;
        }
        assert((before | 0x2000_0000) & 0x2000_0000 != 0 && (before & 0xdfff_ffff) & 0x2000_0000
            == 0 && (before | 0x2000_0000) & 0xdfff_ffff == before & 0xdfff_ffff && (before
            & 0xdfff_ffff) & 0xdfff_ffff == before & 0xdfff_ffff) by (bit_vector);
    }

    /// Logical shift left by `n` and the last bit shifted out.
    pub fn lsl_c(x: u32, n: u32) -> (r: (u32, bool))
        requires
            n >= 1,
        ensures
            n < 32 ==> r == (x << n, (x >> ((32 - n) as u32)) & 1 != 0),
            n == 32 ==> r == (0u32, x & 1 != 0),
            n > 32 ==> r == (0u32, false),
    {
        if n >= 32 {
            (0, if n == 32 {
                x & 1 != 0
            } else {
                false
            })
        } else {
            (x << n, (x >> (32 - n)) & 1 != 0)
        }
    }

    /// Logical shift right by `n` and the last bit shifted out.
    pub fn lsr_c(x: u32, n: u32) -> (r: (u32, bool))
        requires
            n >= 1,
        ensures
            n < 32 ==> r == (x >> n, (x >> ((n - 1) as u32)) & 1 != 0),
            n == 32 ==> r == (0u32, (x >> 31) & 1 != 0),
            n > 32 ==> r == (0u32, false),
    {
        if n >= 32 {
            (0, if n == 32 {
                (x >> 31) & 1 != 0
            } else {
                false
            })
        } else {
            (x >> n, (x >> (n - 1)) & 1 != 0)
        }
    }

    /// Arithmetic shift right by `n` and the last bit shifted out.
    pub fn asr_c(x: u32, n: u32) -> (r: (u32, bool))
        requires
            n >= 1,
        ensures
            n < 32 ==> r == (((x as i32) >> n) as u32, (x >> ((n - 1) as u32)) & 1 != 0),
            n >= 32 ==> r == (((x as i32) >> 31u32) as u32, (x >> 31) & 1 != 0),
    {
        if n >= 32 {
            (((x as i32) >> 31u32) as u32, (x >> 31) & 1 != 0)
        } else {
            (((x as i32) >> n) as u32, (x >> (n - 1)) & 1 != 0)
        }
    }

    /// Rotation to the right by `n` modulo 32; the carry is the top bit of the
    /// result.
    pub fn ror_c(x: u32, n: u32) -> (r: (u32, bool))
        ensures
            n % 32 == 0 ==> r.0 == x,
            n % 32 != 0 ==> r.0 == (x >> (n % 32)) | (x << ((32 - n % 32) as u32)),
            r.1 == ((r.0 >> 31) & 1 != 0),
    {
        let m: u32 = n % 32;
        if m == 0 {
            (x, (x >> 31) & 1 != 0)
        } else {
            let r: u32 = (x >> m) | (x << (32 - m));
            (r, (r >> 31) & 1 != 0)
        }
    }

    /// Rotation to the right by one through the carry.
    pub fn rrx_c(x: u32, carry_in: bool) -> (r: (u32, bool))
        ensures
            r.0 == x / 2 + if carry_in {
                0x8000_0000int
            } else {
                0
            },
            r.1 == (x % 2 == 1),
    {
        let top: u32 = if carry_in {
            0x8000_0000
        } else {
            0
        };
        (x / 2 + top, x % 2 == 1)
    }

    /// The shift of a register operand by its kind. A shift by zero leaves the
    /// value and the carry as they are.
    pub fn shift_c(x: u32, stype: u32, amount: u32, carry_in: bool) -> (r: (u32, bool))
        ensures
            r == shifted(x, stype, amount, carry_in),
    {
        if amount == 0 {
            return (x, carry_in);
        }
        if stype % 4 == 0 {
            Self::lsl_c(x, amount)
        } else if stype % 4 == 1 {
            Self::lsr_c(x, amount)
        } else if stype % 4 == 2 {
            Self::asr_c(x, amount)
        } else {
            Self::ror_c(x, amount)
        }
    }

    pub fn cond_passed(&self, cond: u32) -> (passed: bool)
        ensures
            passed == cond_in(self.cpsr, (cond % 16) as int),
    {
        let n = self.flag_n();
        let z = self.flag_z();
        let c = self.flag_c();
        let v = self.flag_v();
        let code: u32 = cond % 16;
        match code {
            0x0 => z,
            0x1 => !z,
            0x2 => c,
            0x3 => !c,
            0x4 => n,
            0x5 => !n,
            0x6 => v,
            0x7 => !v,
            0x8 => c && !z,
            0x9 => !c || z,
            0xA => n == v,
            0xB => n != v,
            0xC => !z && (n == v),
            0xD => z || (n != v),
            _ => true,
        }
    }

    pub fn itstate(&self) -> (it: u8)
        ensures
            it == it_of(self.cpsr),
    {
        let lo: u32 = (self.cpsr >> 25) & 3;
        let hi: u32 = (self.cpsr >> 10) & 0x3f;
        ((hi << 2) | lo) as u8
    }

    pub fn set_itstate(&mut self, it: u8)
        ensures
            final(self)@ == with_cpsr(old(self)@, with_it(old(self).cpsr, it)),
    {
        let wide: u32 = it as u32;
        self.cpsr = (self.cpsr & 0xf9ff_03ff) | (((wide >> 2) & 0x3f) << 10) | ((wide & 3) << 25);
    }

    pub fn in_it_block(&self) -> (inside: bool)
        ensures
            inside == (it_of(self.cpsr) & 0x0f != 0),
    {
        self.itstate() & 0x0f != 0
    }

    /// Moves on to the next instruction of the IT block.
    pub fn it_advance(&mut self)
        ensures
            final(self)@ == with_cpsr(
                old(self)@,
                with_it(old(self).cpsr, it_next(it_of(old(self).cpsr))),
            ),
    {
        let it: u8 = self.itstate();
        if it & 7 == 0 {
            self.set_itstate(0);
        } else {
            let new: u8 = (it & 0xe0) | ((it << 1) & 0x1f);
            self.set_itstate(new);
        }
    }

    /// A branch that may change the instruction set: bit 0 of the target
    /// selects Thumb.
    pub fn bx_write_pc(&mut self, val: u32)
        ensures
            final(self)@ == (CpuView {
                regs: old(self).regs@.update(15, (val - val % 2) as u32),
                cpsr: if val % 2 == 1 {
                    old(self).cpsr | CPSR_THUMB
                } else {
                    old(self).cpsr & !CPSR_THUMB
                },
                ..old(self)@
            }),
            thumb_bit(final(self).cpsr) == (val % 2 == 1),
    {
        let before: u32 = self.cpsr;
        if val % 2 == 1 {
            self.cpsr = before | CPSR_THUMB;
        } else {
            self.cpsr = before & !CPSR_THUMB;
        }
        assert((before | 0x20) & 0x20 != 0 && (before & !0x20u32) & 0x20 == 0) by (bit_vector);
        self.regs[PC] = val - val % 2;
        assert(self.regs@ =~= old(self).regs@.update(15, (val - val % 2) as u32));
    }

    pub fn data_r_u32(&self, mem: &Mem, addr: u32) -> (v: Option<u32>)
        requires
            mem.wf(),
        ensures
            match v {
                Some(v) => accessible(self@, mem, addr as int, 4) && v == mem::le_value(
                    mem.span(addr as int, 4),
                ),
                None => !accessible(self@, mem, addr as int, 4),
            },
    {
        if addr < self.null_segment_size || !mem.is_mapped(addr, 4) {
            return None;
        }
        Some(mem.read_u32(addr))
    }

    pub fn data_r_u16(&self, mem: &Mem, addr: u32) -> (v: Option<u16>)
        requires
            mem.wf(),
        ensures
            match v {
                Some(v) => accessible(self@, mem, addr as int, 2) && v == mem::le_value(
                    mem.span(addr as int, 2),
                ),
                None => !accessible(self@, mem, addr as int, 2),
            },
    {
        if addr < self.null_segment_size || !mem.is_mapped(addr, 2) {
            return None;
        }
        Some(mem.read_u16(addr))
    }

    pub fn data_r_u8(&self, mem: &Mem, addr: u32) -> (v: Option<u8>)
        requires
            mem.wf(),
        ensures
            match v {
                Some(v) => accessible(self@, mem, addr as int, 1) && v == mem.bytes@[addr as int],
                None => !accessible(self@, mem, addr as int, 1),
            },
    {
        if addr < self.null_segment_size || !mem.is_mapped(addr, 1) {
            return None;
        }
        Some(mem.read_u8(addr))
    }

    pub fn data_w_u32(&self, mem: &mut Mem, addr: u32, val: u32) -> (ok: bool)
        requires
            old(mem).wf(),
        ensures
            final(mem).wf(),
            ok == accessible(self@, old(mem), addr as int, 4),
            ok ==> final(mem).is_written(old(mem), addr as int, mem::le_bytes(val as int, 4)),
            !ok ==> *final(mem) == *old(mem),
    {
        if addr < self.null_segment_size || !mem.is_mapped(addr, 4) {
            return false;
        }
        mem.write_u32(addr, val);
        true
    }

    pub fn data_w_u16(&self, mem: &mut Mem, addr: u32, val: u16) -> (ok: bool)
        requires
            old(mem).wf(),
        ensures
            final(mem).wf(),
            ok == accessible(self@, old(mem), addr as int, 2),
            ok ==> final(mem).is_written(old(mem), addr as int, mem::le_bytes(val as int, 2)),
            !ok ==> *final(mem) == *old(mem),
    {
        if addr < self.null_segment_size || !mem.is_mapped(addr, 2) {
            return false;
        }
        let bytes = u16_le_bytes(val);
        mem.write_bytes(addr, &bytes);
        true
    }

    pub fn data_w_u8(&self, mem: &mut Mem, addr: u32, val: u8) -> (ok: bool)
        requires
            old(mem).wf(),
        ensures
            final(mem).wf(),
            ok == accessible(self@, old(mem), addr as int, 1),
            ok ==> final(mem).is_written(old(mem), addr as int, seq![val]),
            !ok ==> *final(mem) == *old(mem),
    {
        if addr < self.null_segment_size || !mem.is_mapped(addr, 1) {
            return false;
        }
        let mut bytes: Vec<u8> = Vec::new();
        bytes.push(val);
        mem.write_bytes(addr, &bytes);
        assert(bytes@ =~= seq![val]);
        true
    }

    pub fn get_sreg(&self, n: usize) -> (v: u32)
        requires
            n < 64,
        ensures
            v == self.extregs@[n as int],
    {
        self.extregs[n]
    }

    pub fn set_sreg(&mut self, n: usize, v: u32)
        requires
            n < 64,
        ensures
            final(self)@ == (CpuView {
                extregs: old(self).extregs@.update(n as int, v),
                ..old(self)@
            }),
    {
        self.extregs[n] = v;
        assert(self.extregs@ =~= old(self).extregs@.update(n as int, v));
    }

    /// A double register: two single registers, the lower one first.
    pub fn get_dreg(&self, n: usize) -> (v: u64)
        requires
            n < 32,
        ensures
            v == dreg(self@, n as int),
    {
        self.extregs[2 * n] as u64 + 0x1_0000_0000 * (self.extregs[2 * n + 1] as u64)
    }

    pub fn set_dreg(&mut self, n: usize, v: u64)
        requires
            n < 32,
        ensures
            final(self)@ == with_dreg(old(self)@, n as int, v),
    {
        self.extregs[2 * n] = (v % 0x1_0000_0000) as u32;
        self.extregs[2 * n + 1] = (v / 0x1_0000_0000) as u32;
        assert(self.extregs@ =~= with_dreg(old(self)@, n as int, v).extregs);
    }

    pub fn read_code_u16(&self, mem: &Mem, addr: u32) -> (v: Option<u16>)
        requires
            mem.wf(),
        ensures
            match v {
                Some(v) => accessible(self@, mem, addr as int, 2) && v == mem::le_value(
                    mem.span(addr as int, 2),
                ),
                None => !accessible(self@, mem, addr as int, 2),
            },
    {
        self.data_r_u16(mem, addr)
    }

    pub fn read_code_u32(&self, mem: &Mem, addr: u32) -> (v: Option<u32>)
        requires
            mem.wf(),
        ensures
            match v {
                Some(v) => accessible(self@, mem, addr as int, 4) && v == mem::le_value(
                    mem.span(addr as int, 4),
                ),
                None => !accessible(self@, mem, addr as int, 4),
            },
    {
        self.data_r_u32(mem, addr)
    }

    /// The instruction at the program counter and its length.
    fn fetch_insn(&self, mem: &Mem) -> (r: Option<(u32, u32)>)
        requires
            mem.wf(),
        ensures
            r == fetch(self@, mem),
    {
        let pc: u32 = self.regs[PC];
        if self.is_thumb() {
            match self.read_code_u16(mem, pc) {
                None => None,
                Some(hw0) => {
                    if (hw0 & 0xf800) < 0xe800 {
                        return Some((hw0 as u32, 2));
                    }
                    match self.read_code_u16(mem, pc + 2) {
                        None => None,
                        Some(hw1) => Some((0x1_0000 * (hw0 as u32) + hw1 as u32, 4)),
                    }
                },
            }
        } else {
            match self.read_code_u32(mem, pc) {
                None => None,
                Some(w) => Some((w, 4)),
            }
        }
    }

    /// Fetches the instruction at the program counter and does what needs no
    /// executor: supervisor calls, IT instructions, and instructions of an IT
    /// block whose condition fails.
    pub fn step_begin(&mut self, mem: &Mem) -> (action: StepAction)
        requires
            old(self).wf(),
            mem.wf(),
        ensures
            final(self).wf(),
            (final(self)@, action) == begun(old(self)@, mem),
    {
        let pc: u32 = self.regs[PC];
        let thumb = self.is_thumb();
        let (insn, len): (u32, u32) = match self.fetch_insn(mem) {
            None => {
                return StepAction::Done(CpuState::Error(CpuError::MemoryError));
            },
            Some(fetched) => fetched,
        };
        if !thumb && (insn & 0xff00_0000) == 0xef00_0000 {
            self.regs[PC] = pc.wrapping_add(4);
            assert(self.regs@ =~= pc_plus(old(self)@, 4).regs);
            return StepAction::Done(CpuState::Svc(insn & 0x00ff_ffff));
        }
        self.dbg_n = self.dbg_n.wrapping_add(1);
        let lpc: u32 = self.dbg_last_pc;
        let linsn: u32 = self.dbg_last_insn;
        self.dbg_last_pc = pc;
        self.dbg_last_insn = insn;
        self.trace[self.trace_pos] = (pc, insn);
        self.trace_pos = (self.trace_pos + 1) % TRACE_LEN;
        assert(self@ =~= traced(old(self)@, insn));
        if (insn == 0 && linsn != 0 && lpc != 0) || pc >= 0xe000_0000 {
            return StepAction::Done(CpuState::Error(CpuError::UndefinedInstruction));
        }
        if thumb && len == 2 && (insn & 0xff00) == 0xbf00 && (insn & 0x000f) != 0 {
            self.set_itstate((insn & 0xff) as u8);
            self.regs[PC] = pc.wrapping_add(2);
            assert(self@ =~= begun(old(self)@, mem).0);
            return StepAction::Done(CpuState::Normal);
        }
        let in_it = self.in_it_block();
        let it: u8 = self.itstate();
        assert((it >> 4) < 16) by (bit_vector);
        if in_it && !self.cond_passed((it >> 4) as u32) {
            self.regs[PC] = pc.wrapping_add(len);
            self.it_advance();
            assert(self@ =~= begun(old(self)@, mem).0);
            return StepAction::Done(CpuState::Normal);
        }
        StepAction::Execute(Fetched { pc, insn, len, thumb, in_it })
    }

    /// Ends a step with the executor's answer: `None` means that it does not
    /// know the instruction.
    pub fn step_finish(&mut self, fetched: Fetched, outcome: Option<CpuState>) -> (st: CpuState)
        requires
            old(self).wf(),
        ensures
            final(self).wf(),
            (final(self)@, st) == finished(old(self)@, fetched, outcome),
    {
        match outcome {
            Some(st) => {
                if fetched.in_it && st == CpuState::Normal {
                    self.it_advance();
                }
                st
            },
            None => {
                self.regs[PC] = fetched.pc.wrapping_add(fetched.len);
                assert(self.regs@ =~= finished(old(self)@, fetched, outcome).0.regs);
                CpuState::Error(CpuError::UndefinedInstruction)
            },
        }
    }

    /// Runs until the budget is used up, the processor stops, or an instruction
    /// has to be executed; without a budget, for one instruction. `resumed`
    /// carries the instruction that was handed out last and the executor's
    /// answer to it.
    pub fn run_or_step(
        &mut self,
        mem: &Mem,
        ticks: &mut Option<u64>,
        resumed: Option<(Fetched, Option<CpuState>)>,
    ) -> (action: StepAction)
        requires
            old(self).wf(),
            mem.wf(),
        ensures
            final(self).wf(),
            (final(self)@, *final(ticks), action) == (match resumed {
                None => ran(old(self)@, mem, *old(ticks)),
                Some((fetched, outcome)) => {
                    let (cpu, st) = finished(old(self)@, fetched, outcome);
                    ran_after(cpu, mem, *old(ticks), st)
                },
            }),
    {
        if let Some((fetched, outcome)) = resumed {
            let st = self.step_finish(fetched, outcome);
            if !Self::spend(ticks, st) {
                return StepAction::Done(st);
            }
        }
        loop
            invariant
                self.wf(),
                mem.wf(),
                ran(self@, mem, *ticks) == (match resumed {
                    None => ran(old(self)@, mem, *old(ticks)),
                    Some((fetched, outcome)) => {
                        let (cpu, st) = finished(old(self)@, fetched, outcome);
                        ran_after(cpu, mem, *old(ticks), st)
                    },
                }),
            decreases
                    match *ticks {
                        Some(budget) => budget as int,
                        None => 0,
                    },
        {
            match self.step_begin(mem) {
                StepAction::Execute(fetched) => {
                    return StepAction::Execute(fetched);
                },
                StepAction::Done(st) => {
                    if !Self::spend(ticks, st) {
                        return StepAction::Done(st);
                    }
                },
            }
        }
    }

    /// Takes one step off the budget; whether the run loop goes on.
    fn spend(ticks: &mut Option<u64>, st: CpuState) -> (on: bool)
        ensures
            *final(ticks) == spent(*old(ticks)),
            on == goes_on(*old(ticks), st),
    {
        match *ticks {
            None => false,
            Some(budget) => {
                *ticks = Some(budget.saturating_sub(1));
                st == CpuState::Normal && budget > 1
            },
        }
    }

    /// The recently fetched instructions with their addresses, oldest first.
    pub fn dump_trace(&self) -> (entries: Vec<(u32, u32)>)
        requires
            self.wf(),
        ensures
            entries@ == trace_entries(self.trace@, self.trace_pos as int, 0),
    {
        let mut out: Vec<(u32, u32)> = Vec::new();
        let mut i: usize = 0;
        while i < TRACE_LEN
            invariant
                self.wf(),
                i <= 64,
                out@ + trace_entries(self.trace@, self.trace_pos as int, i as int)
                    == trace_entries(self.trace@, self.trace_pos as int, 0),
            decreases 64 - i,
        {
            let entry: (u32, u32) = self.trace[(self.trace_pos + i) % TRACE_LEN];
            let ghost rest = trace_entries(self.trace@, self.trace_pos as int, i + 1);
            assert(out@ + (seq![entry] + rest) =~= out@.push(entry) + rest);
            if entry.0 != 0 {
                out.push(entry);
            }
            i = i + 1;
        }
        assert(out@ + Seq::<(u32, u32)>::empty() =~= out@);
        out
    }
}

pub open spec fn shifted(x: u32, stype: u32, amount: u32, carry_in: bool) -> (u32, bool) {
    if amount == 0 {
        (x, carry_in)
    } else if stype % 4 == 0 {
        if amount < 32 {
            (x << amount, (x >> ((32 - amount) as u32)) & 1 != 0)
        } else {
            (0u32, amount == 32 && x & 1 != 0)
        }
    } else if stype % 4 == 1 {
        if amount < 32 {
            (x >> amount, (x >> ((amount - 1) as u32)) & 1 != 0)
        } else {
            (0u32, amount == 32 && (x >> 31) & 1 != 0)
        }
    } else if stype % 4 == 2 {
        if amount < 32 {
            (((x as i32) >> amount) as u32, (x >> ((amount - 1) as u32)) & 1 != 0)
        } else {
            (((x as i32) >> 31u32) as u32, (x >> 31) & 1 != 0)
        }
    } else {
        let r = if amount % 32 == 0 {
            x
        } else {
            (x >> (amount % 32)) | (x << ((32 - amount % 32) as u32))
        };
        (r, (r >> 31) & 1 != 0)
    }
}

/// The double register `n`.
pub open spec fn dreg(cpu: CpuView, n: int) -> u64 {
    (cpu.extregs[2 * n] + 0x1_0000_0000 * cpu.extregs[2 * n + 1]) as u64
}

/// The processor with double register `n` set to `v`.
pub open spec fn with_dreg(cpu: CpuView, n: int, v: u64) -> CpuView {
    CpuView {
        extregs: cpu.extregs.update(2 * n, (v % 0x1_0000_0000) as u32).update(
            2 * n + 1,
            (v / 0x1_0000_0000) as u32,
        ),
        ..cpu
    }
}

/// The thread-specific state of a processor.
pub open spec fn context_of(cpu: CpuView) -> (Seq<u32>, Seq<u32>, u32, u32) {
    (cpu.regs, cpu.extregs, cpu.cpsr, cpu.fpscr)
}

/// A processor with another thread-specific state.
pub open spec fn with_context(cpu: CpuView, ctx: (Seq<u32>, Seq<u32>, u32, u32)) -> CpuView {
    CpuView { regs: ctx.0, extregs: ctx.1, cpsr: ctx.2, fpscr: ctx.3, ..cpu }
}

/// Exchanging the thread state with a context twice restores both.
pub proof fn law_swap_context_twice(cpu: CpuView, ctx: (Seq<u32>, Seq<u32>, u32, u32))
    ensures
        with_context(with_context(cpu, ctx), context_of(cpu)) == cpu,
        context_of(with_context(cpu, ctx)) == ctx,
{
}

/// The IT state that was set is the one that is read, and no other bit of the
/// status register changes.
pub proof fn law_itstate_round_trip(cpsr: u32, it: u8)
    ensures
        it_of(with_it(cpsr, it)) == it,
        with_it(cpsr, it) & 0xf9ff_03ff == cpsr & 0xf9ff_03ff,
        n_bit(with_it(cpsr, it)) == n_bit(cpsr),
        z_bit(with_it(cpsr, it)) == z_bit(cpsr),
        c_bit(with_it(cpsr, it)) == c_bit(cpsr),
        v_bit(with_it(cpsr, it)) == v_bit(cpsr),
        thumb_bit(with_it(cpsr, it)) == thumb_bit(cpsr),
{
    let after = with_it(cpsr, it);
    assert((((after >> 10) & 0x3f) << 2 | ((after >> 25) & 3)) as u8 == it && after & 0xf9ff_03ff
        == cpsr & 0xf9ff_03ff && after & 0x8000_0000 == cpsr & 0x8000_0000 && after & 0x4000_0000
        == cpsr & 0x4000_0000 && after & 0x2000_0000 == cpsr & 0x2000_0000 && after & 0x1000_0000
        == cpsr & 0x1000_0000 && after & 0x20 == cpsr & 0x20) by (bit_vector)
        requires
            after == (cpsr & 0xf9ff_03ff) | (((it as u32 >> 2) & 0x3f) << 10) | ((it as u32 & 3)
                << 25),
    ;
}

/// An IT block covers at most four instructions: after four steps the state is
/// outside of any block. The condition of the block, but for its lowest bit,
/// stays the same inside of it.
pub proof fn law_it_block_ends(it: u8)
    ensures
        it_next(it_next(it_next(it_next(it)))) & 0x0f == 0,
        it_next(it) & 0x0f != 0 ==> it_next(it) & 0xe0 == it & 0xe0,
{
    let a = it_next(it);
    let b = it_next(a);
    let c = it_next(b);
    let d = it_next(c);
    assert(d & 0x0f == 0 && (a & 0x0f != 0 ==> a & 0xe0 == it & 0xe0)) by (bit_vector)
        requires
            a == if it & 7 == 0 { 0u8 } else { (it & 0xe0) | ((it << 1) & 0x1f) },
            b == if a & 7 == 0 { 0u8 } else { (a & 0xe0) | ((a << 1) & 0x1f) },
            c == if b & 7 == 0 { 0u8 } else { (b & 0xe0) | ((b << 1) & 0x1f) },
            d == if c & 7 == 0 { 0u8 } else { (c & 0xe0) | ((c << 1) & 0x1f) },
    ;
}

/// A double register reads back what was written to it, and writing it leaves
/// the other double registers alone.
pub proof fn law_dreg_round_trip(cpu: CpuView, n: int, m: int, v: u64)
    requires
        cpu.extregs.len() == 64,
        0 <= n < 32,
        0 <= m < 32,
    ensures
        dreg(with_dreg(cpu, n, v), n) == v,
        m != n ==> dreg(with_dreg(cpu, n, v), m) == dreg(cpu, m),
{
}

/// Of two conditions that differ in the lowest bit only, exactly one holds;
/// the last two always hold.
pub proof fn law_conditions_are_complementary(cond: int, n: bool, z: bool, c: bool, v: bool)
    requires
        0 <= cond < 16,
        cond % 2 == 0,
    ensures
        cond < 14 ==> condition_holds(cond, n, z, c, v) != condition_holds(cond + 1, n, z, c, v),
        cond == 14 ==> condition_holds(cond, n, z, c, v) && condition_holds(cond + 1, n, z, c, v),
{
}

/// The adder adds: the result is the sum of the words and the carry modulo 2 to the power
/// of 32, the carry out tells that the unsigned sum does not fit, and the overflow that
/// the signed sum is not the signed value of the result.
pub proof fn law_adder_adds(x: u32, y: u32, carry_in: bool)
    ensures
        ({
            let (r, c, v) = sum_with_carry(x, y, carry_in);
            let carry: int = if carry_in {
                1
            } else {
                0
            };
            &&& x + y + carry == r + if c {
                0x1_0000_0000int
            } else {
                0
            }
            &&& v <==> signed_value(x) + signed_value(y) + carry != signed_value(r)
        }),
{
}

/// A word read as a number in two's complement lies in the range of such numbers, and the
/// top bit is its sign.
pub proof fn law_signed_value(x: u32)
    ensures
        -0x8000_0000 <= signed_value(x) <= 0x7fff_ffff,
        (x - signed_value(x)) % 0x1_0000_0000 == 0,
        signed_value(x) < 0 <==> x / 0x8000_0000 == 1,
{
}

/// Adding the complement and a carry subtracts.
pub proof fn law_adder_subtracts(a: u32, b: u32)
    ensures
        ({
            let (r, c, v) = sum_with_carry(a, !b, true);
            let difference = signed_value(a) - signed_value(b);
            &&& r == (a - b) % 0x1_0000_0000
            &&& c <==> a >= b
            &&& v <==> !(-0x8000_0000 <= difference <= 0x7fff_ffff)
            &&& !v ==> signed_value(r) == difference
            &&& r == 0 <==> a == b
        }),
{
    assert(!b == 0xffff_ffff - b) by (bit_vector);
}

/// After a comparison, that is with the flags of a subtraction, the conditions tell how
/// the two numbers compare: equal and not equal; higher or the same and lower, without
/// signs; the difference negative or not; overflow or none; higher, and lower or the same,
/// without signs; greater or equal and less, greater and less or equal, with signs. The
/// last two conditions always hold.
pub proof fn law_conditions_compare(cpsr: u32, a: u32, b: u32)
    requires
        ({
            let (r, c, v) = sum_with_carry(a, !b, true);
            &&& (cpsr & 0x8000_0000 != 0) == (r >= 0x8000_0000)
            &&& (cpsr & 0x4000_0000 != 0) == (r == 0)
            &&& (cpsr & 0x2000_0000 != 0) == c
            &&& (cpsr & 0x1000_0000 != 0) == v
        }),
    ensures
        cond_in(cpsr, 0x0) <==> a == b,
        cond_in(cpsr, 0x1) <==> a != b,
        cond_in(cpsr, 0x2) <==> a >= b,
        cond_in(cpsr, 0x3) <==> a < b,
        cond_in(cpsr, 0x4) <==> (a - b) % 0x1_0000_0000 >= 0x8000_0000,
        cond_in(cpsr, 0x5) <==> (a - b) % 0x1_0000_0000 < 0x8000_0000,
        cond_in(cpsr, 0x6) <==> !(-0x8000_0000 <= signed_value(a) - signed_value(b) <= 0x7fff_ffff),
        cond_in(cpsr, 0x7) <==> -0x8000_0000 <= signed_value(a) - signed_value(b) <= 0x7fff_ffff,
        cond_in(cpsr, 0x8) <==> a > b,
        cond_in(cpsr, 0x9) <==> a <= b,
        cond_in(cpsr, 0xA) <==> signed_value(a) >= signed_value(b),
        cond_in(cpsr, 0xB) <==> signed_value(a) < signed_value(b),
        cond_in(cpsr, 0xC) <==> signed_value(a) > signed_value(b),
        cond_in(cpsr, 0xD) <==> signed_value(a) <= signed_value(b),
        cond_in(cpsr, 0xE),
        cond_in(cpsr, 0xF),
{
    law_adder_subtracts(a, b);
}

/// The condition that each flag stands for, whatever has set the flags.
pub proof fn law_conditions_read_flags(cpsr: u32)
    ensures
        cond_in(cpsr, 0x0) <==> cpsr / 0x4000_0000 % 2 == 1,
        cond_in(cpsr, 0x2) <==> cpsr / 0x2000_0000 % 2 == 1,
        cond_in(cpsr, 0x4) <==> cpsr / 0x8000_0000 % 2 == 1,
        cond_in(cpsr, 0x6) <==> cpsr / 0x1000_0000 % 2 == 1,
{
    assert((cpsr & 0x8000_0000 != 0 <==> cpsr / 0x8000_0000 % 2 == 1) && (cpsr & 0x4000_0000 != 0
        <==> cpsr / 0x4000_0000 % 2 == 1) && (cpsr & 0x2000_0000 != 0 <==> cpsr / 0x2000_0000 % 2
        == 1) && (cpsr & 0x1000_0000 != 0 <==> cpsr / 0x1000_0000 % 2 == 1)) by (bit_vector);
}

/// A shift by one place: to the left it doubles, to the right it halves, without a sign
/// or with one, and around it lets the lowest bit in at the top. The carry is the bit that
/// leaves the word. A shift by no place changes neither.
pub proof fn law_shift_by_one(x: u32, stype: u32, carry_in: bool)
    ensures
        shifted(x, stype, 0, carry_in) == (x, carry_in),
        stype % 4 == 0 ==> 2 * x == shifted(x, stype, 1, carry_in).0 + if shifted(
            x,
            stype,
            1,
            carry_in,
        ).1 {
            0x1_0000_0000int
        } else {
            0
        },
        stype % 4 == 1 ==> shifted(x, stype, 1, carry_in) == ((x / 2) as u32, x % 2 == 1),
        stype % 4 == 2 ==> signed_value(shifted(x, stype, 1, carry_in).0) == signed_value(x) / 2
            && shifted(x, stype, 1, carry_in).1 == (x % 2 == 1),
        stype % 4 == 3 ==> shifted(x, stype, 1, carry_in).0 == x / 2 + (x % 2) * 0x8000_0000
            && shifted(x, stype, 1, carry_in).1 == (x % 2 == 1),
{
    assert(x >> 0u32 == x && x << 1u32 == 2 * (x % 0x8000_0000) && ((x >> 31u32) & 1 != 0 <==> x
        >= 0x8000_0000) && x >> 1u32 == x / 2 && (x & 1 != 0 <==> x % 2 == 1) && (((x as i32)
        >> 1u32) as u32 == x / 2 + (if x >= 0x8000_0000 { 0x8000_0000u32 } else { 0u32 })) && ((x
        >> 1u32) | (x << 31u32)) == x / 2 + (x % 2) * 0x8000_0000 && ((((x >> 1u32) | (x << 31u32))
        >> 31u32) & 1 != 0 <==> x % 2 == 1)) by (bit_vector);
}

/// A shift by some places and one more is the shift by those places and then by one.
pub proof fn law_shift_goes_on(x: u32, stype: u32, amount: u32, carry_in: bool, other: bool)
    requires
        0 < amount < u32::MAX,
    ensures
        shifted(x, stype, (amount + 1) as u32, carry_in) == shifted(
            shifted(x, stype, amount, carry_in).0,
            stype,
            1,
            other,
        ),
{
    let n = amount;
    let more = (amount + 1) as u32;
    let y = shifted(x, stype, amount, carry_in).0;
    assert(y >> 0u32 == y) by (bit_vector);
    if stype % 4 == 3 {
        lemma_rotation_goes_on(x, amount);
    } else if amount < 32 {
        let left = x << n;
        let right = x >> n;
        let signed = ((x as i32) >> n) as u32;
        let last: u32 = (31 - n) as u32;
        assert(left << 1u32 == (if n == 31 { 0u32 } else { x << more }) && ((left >> 31u32) & 1 != 0
            <==> (x >> last) & 1 != 0) && (x >> 0u32) == x) by (bit_vector)
            requires
                0 < n < 32,
                more == n + 1,
                last == 31 - n,
                left == x << n,
        ;
        assert(right >> 1u32 == (if n == 31 { 0u32 } else { x >> more })) by (bit_vector)
            requires
                0 < n < 32,
                more == n + 1,
                right == x >> n,
        ;
        assert(((signed as i32) >> 1u32) as u32 == (if n == 31 { ((x as i32) >> 31u32) as u32 } else {
            ((x as i32) >> more) as u32
        }) && (signed & 1 != 0 <==> (x >> n) & 1 != 0)) by (bit_vector)
            requires
                0 < n < 32,
                more == n + 1,
                signed == ((x as i32) >> n) as u32,
        ;
    } else {
        let fill = ((x as i32) >> 31u32) as u32;
        assert(0u32 << 1u32 == 0 && 0u32 >> 1u32 == 0 && (0u32 >> 31u32) & 1 == 0 && 0u32 & 1 == 0
            && ((fill as i32) >> 1u32) as u32 == fill && (fill & 1 != 0 <==> (x >> 31u32) & 1
            != 0)) by (bit_vector)
            requires
                fill == ((x as i32) >> 31u32) as u32,
        ;
    }
}

proof fn lemma_rotation_goes_on(x: u32, amount: u32)
    requires
        0 < amount < u32::MAX,
    ensures
        shifted(x, 3, (amount + 1) as u32, false) == shifted(
            shifted(x, 3, amount, false).0,
            3,
            1,
            false,
        ),
{
    let m: u32 = amount % 32;
    let k: u32 = (amount + 1) as u32 % 32;
    assert(k == if m == 31 {
        0u32
    } else {
        (m + 1) as u32
    });
    let r: u32 = if m == 0 {
        x
    } else {
        (x >> m) | (x << ((32 - m) as u32))
    };
    let next: u32 = if k == 0 {
        x
    } else {
        (x >> k) | (x << ((32 - k) as u32))
    };
    assert(next == (r >> 1u32) | (r << 31u32)) by (bit_vector)
        requires
            m < 32,
            k == if m == 31 { 0u32 } else { (m + 1) as u32 },
            r == if m == 0 { x } else { (x >> m) | (x << ((32 - m) as u32)) },
            next == if k == 0 { x } else { (x >> k) | (x << ((32 - k) as u32)) },
    ;
}

/// Where the IT state stands in the status register.
pub proof fn law_itstate_place(cpsr: u32)
    ensures
        it_of(cpsr) == cpsr / 1024 % 64 * 4 + cpsr / 0x200_0000 % 4,
{
    assert((((cpsr >> 10) & 0x3f) << 2 | ((cpsr >> 25) & 3)) == cpsr / 1024 % 64 * 4 + cpsr
        / 0x200_0000 % 4) by (bit_vector);
    assert((((cpsr >> 10) & 0x3f) << 2 | ((cpsr >> 25) & 3)) < 256) by (bit_vector);
}

/// From one instruction of an IT block to the next: the block ends behind the lowest bit
/// of the mask that is set, and until there the next bit of the mask becomes the lowest bit
/// of the condition, whose other bits stay.
pub proof fn law_it_block_goes_on(it: u8)
    requires
        it % 16 != 0,
    ensures
        it % 8 == 0 ==> it_next(it) == 0,
        it % 8 != 0 ==> {
            &&& it_next(it) % 16 == 2 * (it % 8)
            &&& it_next(it) / 16 == 2 * (it / 32) + it / 8 % 2
        },
{
    let next = it_next(it);
    assert((it % 8 == 0 ==> next == 0) && (it % 8 != 0 ==> next % 16 == 2 * (it % 8) && next / 16
        == 2 * (it / 32) + it / 8 % 2)) by (bit_vector)
        requires
            next == if it & 7 == 0 { 0u8 } else { (it & 0xe0) | ((it << 1) & 0x1f) },
    ;
}

/// An instruction is read with its low bytes first: a word, or in Thumb a half-word, and
/// two half-words, the first one on top, where the first one is not below 0xe800.
pub proof fn law_fetch_reads_bytes(cpu: CpuView, mem: &Mem)
    requires
        mem.wf(),
        cpu.regs.len() == 16,
    ensures
        ({
            let pc = cpu.regs[15] as int;
            let b = mem.bytes@;
            let first = b[pc] + 256 * b[pc + 1];
            let second = b[pc + 2] + 256 * b[pc + 3];
            let thumb = cpu.cpsr / 32 % 2 == 1;
            let two = cpu.null_segment_size <= pc && mem.null_segment_size <= pc && pc + 2
                <= b.len();
            let four = two && pc + 4 <= b.len();
            fetch(cpu, mem) == if thumb && two && first < 0xe800 {
                Some((first as u32, 2u32))
            } else if thumb && four && first >= 0xe800 {
                Some(((0x1_0000 * first + second) as u32, 4u32))
            } else if !thumb && four {
                Some(((first + 0x1_0000 * second) as u32, 4u32))
            } else {
                None
            }
        }),
{
    let pc = cpu.regs[15] as int;
    let cpsr = cpu.cpsr;
    assert(cpsr & 0x20 != 0 <==> cpsr / 32 % 2 == 1) by (bit_vector);
    assert(forall|h: u16| (#[trigger] (h & 0xf800) < 0xe800) <==> h < 0xe800) by (bit_vector);
    if pc + 2 <= mem.bytes@.len() {
        mem::lemma_le_value_2(mem.span(pc, 2));
    }
    if pc + 4 <= mem.bytes@.len() {
        mem::lemma_le_value_2(mem.span(pc + 2, 2));
        mem::lemma_le_value_4(mem.span(pc, 4));
    }
}

/// What one step does, from the bytes of the instruction: memory that cannot be read
/// stops the processor where it is; a supervisor call gives its number and goes on behind
/// it; an IT instruction sets the state of its block; in a block an instruction is handed
/// out if and only if its condition holds, and else passed over. What is handed out has
/// not moved the program counter.
pub proof fn law_step(cpu: CpuView, mem: &Mem)
    requires
        cpu.regs.len() == 16,
        cpu.regs[15] < 0xe000_0000,
    ensures
        ({
            let (next, action) = begun(cpu, mem);
            let pc = cpu.regs[15];
            let thumb = cpu.cpsr / 32 % 2 == 1;
            let it = it_of(cpu.cpsr);
            match fetch(cpu, mem) {
                None => next == cpu && action == StepAction::Done(
                    CpuState::Error(CpuError::MemoryError),
                ),
                Some((insn, len)) => {
                    let is_svc = !thumb && insn / 0x100_0000 == 0xef;
                    let is_it = thumb && insn / 256 == 0xbf && insn % 16 != 0;
                    let ends = insn == 0 && cpu.dbg_last_insn != 0 && cpu.dbg_last_pc != 0;
                    &&& is_svc ==> action == StepAction::Done(CpuState::Svc(insn % 0x100_0000))
                        && next.regs[15] == pc + 4 && next.cpsr == cpu.cpsr
                    &&& ends ==> action == StepAction::Done(
                        CpuState::Error(CpuError::UndefinedInstruction),
                    ) && next.regs == cpu.regs && next.cpsr == cpu.cpsr
                    &&& is_it && len == 2 ==> {
                        &&& action == StepAction::Done(CpuState::Normal)
                        &&& next.regs[15] == pc + 2
                        &&& it_of(next.cpsr) == insn % 256
                    }
                    &&& !is_svc && !ends && !(is_it && len == 2) ==> {
                        let skipped = it % 16 != 0 && !cond_in(cpu.cpsr, it as int / 16);
                        &&& skipped ==> {
                            &&& action == StepAction::Done(CpuState::Normal)
                            &&& next.regs[15] == (pc + len) % 0x1_0000_0000
                            &&& it_of(next.cpsr) == it_next(it)
                        }
                        &&& !skipped ==> {
                            &&& action == StepAction::Execute(
                                Fetched { pc, insn, len, thumb, in_it: it % 16 != 0 },
                            )
                            &&& next.regs == cpu.regs
                            &&& next.cpsr == cpu.cpsr
                        }
                    }
                    &&& !is_svc ==> {
                        &&& next.dbg_last_pc == pc
                        &&& next.dbg_last_insn == insn
                    }
                },
            }
        }),
{
    let cpsr = cpu.cpsr;
    let it = it_of(cpsr);
    assert(cpsr & 0x20 != 0 <==> cpsr / 32 % 2 == 1) by (bit_vector);
    assert((it & 0x0f != 0 <==> it % 16 != 0) && it >> 4 == it / 16) by (bit_vector);
    if let Some((insn, len)) = fetch(cpu, mem) {
        assert((insn & 0xff00_0000 == 0xef00_0000 <==> insn / 0x100_0000 == 0xef) && insn
            & 0x00ff_ffff == insn % 0x100_0000 && (insn & 0x0f != 0 <==> insn % 16 != 0) && insn
            & 0xff == insn % 256) by (bit_vector);
        if len == 2 {
            assert(insn < 0x1_0000);
            assert(insn & 0xff00 == 0xbf00 <==> insn / 256 == 0xbf) by (bit_vector)
                requires
                    insn < 0x1_0000,
            ;
        }
        law_itstate_round_trip(cpsr, (insn & 0xff) as u8);
        law_itstate_round_trip(cpsr, it_next(it));
    }
}

/// After an instruction has been executed its block goes on; one that is not known is
/// passed over and stops the processor.
pub proof fn law_step_finish(cpu: CpuView, fetched: Fetched, outcome: Option<CpuState>)
    requires
        cpu.regs.len() == 16,
    ensures
        ({
            let (next, st) = finished(cpu, fetched, outcome);
            match outcome {
                None => {
                    &&& st == CpuState::Error(CpuError::UndefinedInstruction)
                    &&& next.regs[15] == (fetched.pc + fetched.len) % 0x1_0000_0000
                    &&& next.cpsr == cpu.cpsr
                },
                Some(given) => {
                    &&& st == given
                    &&& next.regs == cpu.regs
                    &&& it_of(next.cpsr) == if fetched.in_it && given == CpuState::Normal {
                        it_next(it_of(cpu.cpsr))
                    } else {
                        it_of(cpu.cpsr)
                    }
                },
            }
        }),
{
    law_itstate_round_trip(cpu.cpsr, it_next(it_of(cpu.cpsr)));
}

/// A step that ends without the executor leaves the general-purpose registers
/// other than the program counter, the extension registers, the condition
/// flags and the exclusive reservation as they were.
pub proof fn law_fetch_keeps_registers(cpu: CpuView, mem: &Mem)
    requires
        cpu.regs.len() == 16,
    ensures
        forall|i: int| 0 <= i < 15 ==> begun(cpu, mem).0.regs[i] == cpu.regs[i],
        begun(cpu, mem).0.extregs == cpu.extregs,
        begun(cpu, mem).0.excl_addr == cpu.excl_addr,
        begun(cpu, mem).0.fpscr == cpu.fpscr,
        n_bit(begun(cpu, mem).0.cpsr) == n_bit(cpu.cpsr),
        z_bit(begun(cpu, mem).0.cpsr) == z_bit(cpu.cpsr),
        c_bit(begun(cpu, mem).0.cpsr) == c_bit(cpu.cpsr),
        v_bit(begun(cpu, mem).0.cpsr) == v_bit(cpu.cpsr),
{
    if let Some((insn, len)) = fetch(cpu, mem) {
        law_itstate_round_trip(cpu.cpsr, (insn & 0xff) as u8);
        law_itstate_round_trip(cpu.cpsr, it_next(it_of(cpu.cpsr)));
    }
}

/// A call of the run loop: the processor and the memory that it finds, and what it
/// goes on with.
pub struct RunCall {
    pub cpu: CpuView,
    pub mem: Mem,
    pub resumed: Option<(Fetched, Option<CpuState>)>,
}

/// What a call of the run loop gives.
pub open spec fn call_result(call: RunCall, ticks: Option<u64>) -> (
    CpuView,
    Option<u64>,
    StepAction,
) {
    match call.resumed {
        None => ran(call.cpu, &call.mem, ticks),
        Some((fetched, outcome)) => {
            let (cpu, st) = finished(call.cpu, fetched, outcome);
            ran_after(cpu, &call.mem, ticks, st)
        },
    }
}

/// The states of the steps that the run loop completes on its own.
pub open spec fn ran_states(cpu: CpuView, mem: &Mem, ticks: Option<u64>) -> Seq<CpuState>
    decreases
            match ticks {
                Some(budget) => budget as int,
                None => 0,
            },
{
    let (next, action) = begun(cpu, mem);
    match action {
        StepAction::Execute(fetched) => Seq::empty(),
        StepAction::Done(st) => if goes_on(ticks, st) {
            seq![st] + ran_states(next, mem, spent(ticks))
        } else {
            seq![st]
        },
    }
}

/// The states of the steps that a call of the run loop completes.
pub open spec fn call_states(call: RunCall, ticks: Option<u64>) -> Seq<CpuState> {
    match call.resumed {
        None => ran_states(call.cpu, &call.mem, ticks),
        Some((fetched, outcome)) => {
            let (cpu, st) = finished(call.cpu, fetched, outcome);
            if goes_on(ticks, st) {
                seq![st] + ran_states(cpu, &call.mem, spent(ticks))
            } else {
                seq![st]
            }
        },
    }
}

/// The calls make up a run from its start, or from an instruction that was handed out:
/// each call but the last one hands an instruction out, which the next one goes on
/// with. What the executor does to the processor and the memory, and what it answers,
/// is left open.
pub open spec fn is_run(calls: Seq<RunCall>, ticks: Option<u64>, handed: Option<Fetched>) -> bool
    decreases calls.len(),
{
    &&& calls.len() > 0
    &&& match handed {
        None => calls[0].resumed is None,
        Some(fetched) => calls[0].resumed matches Some((f, outcome)) && f == fetched,
    }
    &&& match call_result(calls[0], ticks).2 {
        StepAction::Done(st) => calls.len() == 1,
        StepAction::Execute(fetched) => is_run(
            calls.drop_first(),
            call_result(calls[0], ticks).1,
            Some(fetched),
        ),
    }
}

/// The states of all steps of a run.
pub open spec fn run_states(calls: Seq<RunCall>, ticks: Option<u64>) -> Seq<CpuState>
    decreases calls.len(),
{
    if calls.len() == 0 {
        Seq::empty()
    } else {
        call_states(calls[0], ticks) + run_states(
            calls.drop_first(),
            call_result(calls[0], ticks).1,
        )
    }
}

/// What is left of the budget of a run.
pub open spec fn run_ticks(calls: Seq<RunCall>, ticks: Option<u64>) -> Option<u64>
    decreases calls.len(),
{
    if calls.len() == 0 {
        ticks
    } else {
        run_ticks(calls.drop_first(), call_result(calls[0], ticks).1)
    }
}

/// The state that a run returns.
pub open spec fn run_state(calls: Seq<RunCall>, ticks: Option<u64>) -> CpuState
    decreases calls.len(),
{
    if calls.len() == 0 {
        CpuState::Normal
    } else {
        match call_result(calls[0], ticks).2 {
            StepAction::Done(st) => st,
            StepAction::Execute(fetched) => run_state(
                calls.drop_first(),
                call_result(calls[0], ticks).1,
            ),
        }
    }
}

/// A run takes at least one step and no more than its budget; each takes one off the
/// budget. All steps but the last one end normally, the run returns the state of the
/// last one, and it returns a normal state only when the budget is used up. Without a
/// budget the run is a single step.
pub proof fn law_run_keeps_to_budget(
    calls: Seq<RunCall>,
    ticks: Option<u64>,
    handed: Option<Fetched>,
)
    requires
        is_run(calls, ticks, handed),
    ensures
        ({
            let states = run_states(calls, ticks);
            let steps = states.len() as int;
            let returned = run_state(calls, ticks);
            &&& steps >= 1
            &&& states.last() == returned
            &&& forall|i: int| 0 <= i < steps - 1 ==> #[trigger] states[i] == CpuState::Normal
            &&& match ticks {
                None => steps == 1 && run_ticks(calls, ticks) is None,
                Some(budget) => {
                    &&& steps <= budget || steps == 1
                    &&& run_ticks(calls, ticks) == Some(
                        if steps < budget {
                            (budget - steps) as u64
                        } else {
                            0
                        },
                    )
                    &&& returned == CpuState::Normal ==> run_ticks(calls, ticks) == Some(0u64)
                },
            }
        }),
    decreases calls.len(),
{
    let call = calls[0];
    let states = call_states(call, ticks);
    let rest = calls.drop_first();
    lemma_call_states(call, ticks);
    let left = call_result(call, ticks).1;
    match call_result(call, ticks).2 {
        StepAction::Done(st) => {
            assert(rest.len() == 0);
            assert(run_states(rest, left) =~= Seq::empty());
            assert(run_states(calls, ticks) =~= states);
        },
        StepAction::Execute(fetched) => {
            law_run_keeps_to_budget(rest, left, Some(fetched));
            let later = run_states(rest, left);
            let all = states + later;
            assert(run_states(calls, ticks) == all);
            assert forall|i: int| 0 <= i < all.len() - 1 implies #[trigger] all[i]
                == CpuState::Normal by {
                if i >= states.len() {
                    assert(all[i] == later[i - states.len()]);
                }
            }
        },
    }
}

/// What the states of a call of the run loop have to do with its result.
spec fn fits_result(states: Seq<CpuState>, ticks: Option<u64>, left: Option<u64>, action: StepAction) -> bool {
    let steps = states.len() as int;
    &&& match ticks {
        None => left is None,
        Some(budget) => left == Some(
            if steps < budget {
                (budget - steps) as u64
            } else {
                0
            },
        ),
    }
    &&& match action {
        StepAction::Done(st) => {
            &&& steps >= 1
            &&& states.last() == st
            &&& forall|i: int| 0 <= i < steps - 1 ==> #[trigger] states[i] == CpuState::Normal
            &&& steps > 1 ==> (ticks matches Some(budget) && steps <= budget)
            &&& st == CpuState::Normal ==> (ticks matches Some(budget) ==> budget <= steps)
        },
        StepAction::Execute(fetched) => {
            &&& forall|i: int| 0 <= i < steps ==> #[trigger] states[i] == CpuState::Normal
            &&& steps > 0 ==> (ticks matches Some(budget) && steps < budget)
        },
    }
}

proof fn lemma_one_more(
    st: CpuState,
    states: Seq<CpuState>,
    ticks: Option<u64>,
    left: Option<u64>,
    action: StepAction,
)
    requires
        goes_on(ticks, st),
        fits_result(states, spent(ticks), left, action),
    ensures
        fits_result(seq![st] + states, ticks, left, action),
{
    let all = seq![st] + states;
    assert forall|i: int| 0 < i < all.len() implies #[trigger] all[i] == states[i - 1] by {}
}

proof fn lemma_ran_states(cpu: CpuView, mem: &Mem, ticks: Option<u64>)
    ensures
        fits_result(
            ran_states(cpu, mem, ticks),
            ticks,
            ran(cpu, mem, ticks).1,
            ran(cpu, mem, ticks).2,
        ),
    decreases
            match ticks {
                Some(budget) => budget as int,
                None => 0,
            },
{
    let (next, action) = begun(cpu, mem);
    if let StepAction::Done(st) = action {
        if goes_on(ticks, st) {
            lemma_ran_states(next, mem, spent(ticks));
            lemma_one_more(
                st,
                ran_states(next, mem, spent(ticks)),
                ticks,
                ran(cpu, mem, ticks).1,
                ran(cpu, mem, ticks).2,
            );
        }
    }
}

proof fn lemma_call_states(call: RunCall, ticks: Option<u64>)
    ensures
        fits_result(
            call_states(call, ticks),
            ticks,
            call_result(call, ticks).1,
            call_result(call, ticks).2,
        ),
        call.resumed is Some ==> call_states(call, ticks).len() > 0,
{
    match call.resumed {
        None => lemma_ran_states(call.cpu, &call.mem, ticks),
        Some((fetched, outcome)) => {
            let (cpu, st) = finished(call.cpu, fetched, outcome);
            if goes_on(ticks, st) {
                lemma_ran_states(cpu, &call.mem, spent(ticks));
                lemma_one_more(
                    st,
                    ran_states(cpu, &call.mem, spent(ticks)),
                    ticks,
                    call_result(call, ticks).1,
                    call_result(call, ticks).2,
                );
            }
        },
    }
}

/// An instruction at the top of the address space is not run, as nothing is there: the step
/// fails and the registers stay.
pub proof fn law_step_off_the_end(cpu: CpuView, mem: &Mem)
    requires
        cpu.regs.len() == 16,
        cpu.regs[15] >= 0xe000_0000,
        fetch(cpu, mem) is Some,
        cpu.cpsr / 32 % 2 == 1,
    ensures
        begun(cpu, mem).1 == StepAction::Done(CpuState::Error(CpuError::UndefinedInstruction)),
        begun(cpu, mem).0.regs == cpu.regs,
        begun(cpu, mem).0.cpsr == cpu.cpsr,
{
    let cpsr = cpu.cpsr;
    assert(cpsr & 0x20 != 0 <==> cpsr / 32 % 2 == 1) by (bit_vector);
}

/// A step is noted in the place that the oldest note had, and the next one goes behind it;
/// there are sixty-four places.
pub proof fn law_step_is_noted(cpu: CpuView, mem: &Mem, k: int)
    requires
        cpu.trace.len() == 64,
        0 <= cpu.trace_pos < 64,
        0 <= k < 64,
        begun(cpu, mem).1 is Execute,
    ensures
        ({
            let next = begun(cpu, mem).0;
            let (insn, len) = fetch(cpu, mem)->0;
            &&& next.trace[cpu.trace_pos] == (cpu.regs[15], insn)
            &&& k != cpu.trace_pos ==> next.trace[k] == cpu.trace[k]
            &&& next.trace_pos == if cpu.trace_pos == 63 {
                0
            } else {
                cpu.trace_pos + 1
            }
        }),
{
}

/// Notes are listed from the oldest on, and places that hold none are left out.
pub proof fn law_trace_is_listed(trace: Seq<(u32, u32)>, pos: int, from: int)
    requires
        trace.len() == 64,
        0 <= pos < 64,
        0 <= from < 64,
    ensures
        ({
            let place = if pos + from < 64 {
                pos + from
            } else {
                pos + from - 64
            };
            let rest = trace_entries(trace, pos, from + 1);
            &&& trace[place].0 != 0 ==> trace_entries(trace, pos, from) == seq![trace[place]] + rest
            &&& trace[place].0 == 0 ==> trace_entries(trace, pos, from) == rest
        }),
        trace_entries(trace, pos, 64).len() == 0,
{
}

/// A double register is made of two single ones, the first of which holds its lower half.
pub proof fn law_dreg_halves(cpu: CpuView, n: int, v: u64, k: int)
    requires
        0 <= n < 32,
        cpu.extregs.len() == 64,
        0 <= k < 64,
    ensures
        dreg(cpu, n) == cpu.extregs[2 * n] + 0x1_0000_0000 * cpu.extregs[2 * n + 1],
        with_dreg(cpu, n, v).extregs[2 * n] == v % 0x1_0000_0000,
        with_dreg(cpu, n, v).extregs[2 * n + 1] == v / 0x1_0000_0000,
        k != 2 * n && k != 2 * n + 1 ==> with_dreg(cpu, n, v).extregs[k] == cpu.extregs[k],
{
}

/// The guest cannot reach the segment at address zero, nor what is not mapped.
pub proof fn law_accessible(cpu: CpuView, mem: &Mem, addr: int, len: int)
    requires
        0 <= addr,
        0 <= len,
    ensures
        addr < cpu.null_segment_size ==> !accessible(cpu, mem, addr, len),
        addr < mem.null_segment_size ==> !accessible(cpu, mem, addr, len),
        addr + len > mem.bytes@.len() ==> !accessible(cpu, mem, addr, len),
        addr >= cpu.null_segment_size && addr >= mem.null_segment_size && addr + len
            <= mem.bytes@.len() ==> accessible(cpu, mem, addr, len),
{
}

} // verus!
