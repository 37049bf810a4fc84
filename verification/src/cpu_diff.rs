//! Comparison of two processor backends: the state that a single instruction is run
//! from, and the differences between the states that it leaves.
use crate::cpu;
use crate::cpu::{CpuContext, CpuView, InterpreterCpu, CPSR_THUMB, CPSR_USER_MODE};
use crate::mem;
use crate::mem::Mem;
use crate::text;
use vstd::prelude::*;

verus! {

/// Where the instruction is written.
pub const CODE_BASE: u32 = 0x0001_0000;

/// The top of a region for loads and stores.
pub const STACK_TOP: u32 = 0x0010_0000;

/// The bits of the status register that are compared: flags, state and mode.
pub const CPSR_MASK: u32 = 0xf80f_007f;

/// The flags of the floating-point status register.
pub const FPSCR_MASK: u32 = 0xf000_0000;

/// The state that an instruction has left: the registers and 64 bytes of the region
/// for stores, or nothing if they cannot be read.
pub struct St {
    pub context: CpuContext,
    pub window: Vec<u8>,
}

/// The bytes of an instruction in the order in which they are fetched: the first
/// halfword of a long Thumb instruction is the upper one.
pub open spec fn insn_bytes(insn: u32, len: u32, thumb: bool) -> Seq<u8> {
    if len == 2 {
        mem::le_bytes(insn as int % 0x1_0000, 2)
    } else if thumb {
        mem::le_bytes(insn as int / 0x1_0000, 2) + mem::le_bytes(insn as int % 0x1_0000, 2)
    } else {
        mem::le_bytes(insn as int, 4)
    }
}

/// Writes an instruction to where it is run.
pub fn write_insn(mem: &mut Mem, insn: u32, len: u32, thumb: bool)
    requires
        old(mem).wf(),
        len == 2 || len == 4,
        old(mem).mapped(CODE_BASE as int, len as int),
    ensures
        final(mem).wf(),
        final(mem).is_written(old(mem), CODE_BASE as int, insn_bytes(insn, len, thumb)),
        final(mem).bytes@.len() == old(mem).bytes@.len(),
{
    let low: u16 = (insn % 0x1_0000) as u16;
    if len == 2 {
        let bytes = mem::u16_le_bytes(low);
        mem.write_bytes(CODE_BASE, &bytes);
    } else if thumb {
        let high: u16 = (insn / 0x1_0000) as u16;
        let mut bytes = mem::u16_le_bytes(high);
        let last = mem::u16_le_bytes(low);
        bytes.push(last[0]);
        bytes.push(last[1]);
        assert(bytes@ =~= insn_bytes(insn, len, thumb));
        mem.write_bytes(CODE_BASE, &bytes);
    } else {
        let bytes = mem::u32_le_bytes(insn);
        mem.write_bytes(CODE_BASE, &bytes);
    }
}

/// Memory with the first `n` of some words written at their addresses.
pub open spec fn words_written(bytes: Seq<u8>, words: Seq<(u32, u32)>, n: int) -> Seq<u8>
    decreases n,
{
    if n <= 0 {
        bytes
    } else {
        mem::splice(
            words_written(bytes, words, n - 1),
            words[n - 1].0 as int,
            mem::le_bytes(words[n - 1].1 as int, 4),
        )
    }
}

/// Writes words at their addresses.
pub fn write_words(mem: &mut Mem, init: &Vec<(u32, u32)>)
    requires
        old(mem).wf(),
        forall|i: int| 0 <= i < init@.len() ==> old(mem).mapped((#[trigger] init@[i]).0 as int, 4),
    ensures
        final(mem).wf(),
        final(mem).bytes@ == words_written(old(mem).bytes@, init@, init@.len() as int),
        final(mem).bytes@.len() == old(mem).bytes@.len(),
        final(mem).null_segment_size == old(mem).null_segment_size,
        final(mem).allocations@ == old(mem).allocations@,
{
    let mut i: usize = 0;
    while i < init.len()
        invariant
            i <= init@.len(),
            mem.wf(),
            forall|k: int| 0 <= k < init@.len() ==> old(mem).mapped((#[trigger] init@[k]).0 as int, 4),
            mem.bytes@ == words_written(old(mem).bytes@, init@, i as int),
            mem.bytes@.len() == old(mem).bytes@.len(),
            mem.null_segment_size == old(mem).null_segment_size,
            mem.allocations@ == old(mem).allocations@,
        decreases init@.len() - i,
    {
        assert(old(mem).mapped(init@[i as int].0 as int, 4));
        mem.write_u32(init[i].0, init[i].1);
        i = i + 1;
    }
}

/// The bytes below the top of the region for stores; nothing if they cannot be read.
pub open spec fn window_of(mem: Mem) -> Seq<u8> {
    if mem.mapped(STACK_TOP - 64, 64) {
        mem.span(STACK_TOP - 64, 64)
    } else {
        Seq::empty()
    }
}

pub fn mem_window(mem: &Mem) -> (window: Vec<u8>)
    requires
        mem.wf(),
    ensures
        window@ == window_of(*mem),
{
    match mem.get_bytes_fallible(STACK_TOP - 64, 64) {
        Some(bytes) => bytes,
        None => Vec::new(),
    }
}

/// The status register that an instruction is run from: in user mode, and in the
/// state that the instruction belongs to.
pub open spec fn initial_cpsr(cpsr: u32, thumb: bool) -> u32 {
    (cpsr & !CPSR_THUMB) | CPSR_USER_MODE | if thumb {
        CPSR_THUMB
    } else {
        0
    }
}

/// The registers that an instruction is run from.
pub fn initial_context(regs: &[u32; 16], ext: &[u32; 64], cpsr: u32, thumb: bool) -> (context:
    CpuContext)
    ensures
        context.regs@ == regs@.update(15, CODE_BASE),
        context.extregs@ == ext@,
        context.cpsr == initial_cpsr(cpsr, thumb),
        context.fpscr == 0,
{
    let mut start: [u32; 16] = *regs;
    start[15] = CODE_BASE;
    let state: u32 = if thumb {
        CPSR_THUMB
    } else {
        0
    };
    CpuContext {
        regs: start,
        extregs: *ext,
        cpsr: (cpsr & !CPSR_THUMB) | CPSR_USER_MODE | state,
        fpscr: 0,
    }
}

/// The state that a processor and its memory are in.
pub fn state_of(context: CpuContext, mem: &Mem) -> (st: St)
    requires
        mem.wf(),
    ensures
        st.context == context,
        st.window@ == window_of(*mem),
{
    St { context, window: mem_window(mem) }
}

/// A difference between the states that two backends have left, with what each of
/// them holds.
#[derive(Clone, Copy, Debug, PartialEq, Eq, Structural)]
pub enum Difference {
    Register { number: usize, oracle: u32, interp: u32 },
    Extension { number: usize, oracle: u32, interp: u32 },
    Cpsr { oracle: u32, interp: u32 },
    Memory,
    Fpscr { oracle: u32, interp: u32 },
}

/// The differences of the first `n` registers.
pub open spec fn register_differences(d: Seq<u32>, i: Seq<u32>, n: int) -> Seq<Difference>
    decreases n,
{
    if n <= 0 {
        Seq::empty()
    } else if d[n - 1] != i[n - 1] {
        register_differences(d, i, n - 1).push(
            Difference::Register {
                number: (n - 1) as usize,
                oracle: d[n - 1],
                interp: i[n - 1],
            },
        )
    } else {
        register_differences(d, i, n - 1)
    }
}

/// The differences of the first `n` extension registers.
pub open spec fn extension_differences(d: Seq<u32>, i: Seq<u32>, n: int) -> Seq<Difference>
    decreases n,
{
    if n <= 0 {
        Seq::empty()
    } else if d[n - 1] != i[n - 1] {
        extension_differences(d, i, n - 1).push(
            Difference::Extension {
                number: (n - 1) as usize,
                oracle: d[n - 1],
                interp: i[n - 1],
            },
        )
    } else {
        extension_differences(d, i, n - 1)
    }
}

/// The difference of the status registers in the bits that count.
pub open spec fn cpsr_difference(d: u32, i: u32) -> Seq<Difference> {
    if d & CPSR_MASK != i & CPSR_MASK {
        seq![Difference::Cpsr { oracle: d, interp: i }]
    } else {
        Seq::empty()
    }
}

/// The difference of the flags of the floating-point status registers.
pub open spec fn fpscr_difference(d: u32, i: u32) -> Seq<Difference> {
    if d & FPSCR_MASK != i & FPSCR_MASK {
        seq![Difference::Fpscr { oracle: d, interp: i }]
    } else {
        Seq::empty()
    }
}

/// The differences that count for an instruction on the core registers.
pub open spec fn differences_of(d: St, i: St) -> Seq<Difference> {
    register_differences(d.context.regs@, i.context.regs@, 16) + cpsr_difference(
        d.context.cpsr,
        i.context.cpsr,
    ) + if d.window@ != i.window@ {
        seq![Difference::Memory]
    } else {
        Seq::empty()
    }
}

/// The differences that count for an instruction on the extension registers.
pub open spec fn vfp_differences_of(d: CpuContext, i: CpuContext) -> Seq<Difference> {
    register_differences(d.regs@, i.regs@, 16) + extension_differences(d.extregs@, i.extregs@, 64)
        + cpsr_difference(d.cpsr, i.cpsr) + fpscr_difference(d.fpscr, i.fpscr)
}

fn compare_registers(d: &[u32; 16], i: &[u32; 16]) -> (out: Vec<Difference>)
    ensures
        out@ == register_differences(d@, i@, 16),
{
    let mut out: Vec<Difference> = Vec::new();
    let mut n: usize = 0;
    while n < 16
        invariant
            n <= 16,
            out@ == register_differences(d@, i@, n as int),
        decreases 16 - n,
    {
        if d[n] != i[n] {
            out.push(Difference::Register { number: n, oracle: d[n], interp: i[n] });
        }
        n = n + 1;
    }
    out
}

fn same_bytes(a: &Vec<u8>, b: &Vec<u8>) -> (same: bool)
    ensures
        same == (a@ == b@),
{
    if a.len() != b.len() {
        return false;
    }
    let mut i: usize = 0;
    while i < a.len()
        invariant
            a@.len() == b@.len(),
            i <= a@.len(),
            forall|k: int| 0 <= k < i ==> a@[k] == b@[k],
        decreases a@.len() - i,
    {
        if a[i] != b[i] {
            return false;
        }
        i = i + 1;
    }
    assert(a@ =~= b@);
    true
}

/// Compares what the two backends have left of an instruction on the core registers.
pub fn differences(d: &St, i: &St) -> (out: Vec<Difference>)
    ensures
        out@ == differences_of(*d, *i),
{
    let mut out = compare_registers(&d.context.regs, &i.context.regs);
    if (d.context.cpsr & CPSR_MASK) != (i.context.cpsr & CPSR_MASK) {
        out.push(Difference::Cpsr { oracle: d.context.cpsr, interp: i.context.cpsr });
    }
    if !same_bytes(&d.window, &i.window) {
        out.push(Difference::Memory);
    }
    assert(out@ =~= differences_of(*d, *i));
    out
}

/// Compares what the two backends have left of an instruction on the extension
/// registers.
pub fn vfp_differences(d: &CpuContext, i: &CpuContext) -> (out: Vec<Difference>)
    ensures
        out@ == vfp_differences_of(*d, *i),
{
    let mut out = compare_registers(&d.regs, &i.regs);
    let ghost before = out@;
    let mut n: usize = 0;
    assert(before + extension_differences(d.extregs@, i.extregs@, 0) =~= before);
    while n < 64
        invariant
            n <= 64,
            out@ == before + extension_differences(d.extregs@, i.extregs@, n as int),
        decreases 64 - n,
    {
        if d.extregs[n] != i.extregs[n] {
            out.push(
                Difference::Extension { number: n, oracle: d.extregs[n], interp: i.extregs[n] },
            );
        }
        n = n + 1;
        assert(out@ =~= before + extension_differences(d.extregs@, i.extregs@, n as int));
    }
    if (d.cpsr & CPSR_MASK) != (i.cpsr & CPSR_MASK) {
        out.push(Difference::Cpsr { oracle: d.cpsr, interp: i.cpsr });
    }
    if (d.fpscr & FPSCR_MASK) != (i.fpscr & FPSCR_MASK) {
        out.push(Difference::Fpscr { oracle: d.fpscr, interp: i.fpscr });
    }
    assert(out@ =~= vfp_differences_of(*d, *i));
    out
}

/// A flag as a digit.
pub open spec fn flag_char(set: bool) -> char {
    if set {
        '1'
    } else {
        '0'
    }
}

fn push_flag(out: &mut String, name: char, set: bool)
    ensures
        final(out)@ == old(out)@ + seq![name, flag_char(set)],
{
    out.push(name);
    out.push(
        if set {
            '1'
        } else {
            '0'
        },
    );
    assert(out@ =~= old(out)@ + seq![name, flag_char(set)]);
}

/// The flags of a status register in words: each with its digit.
pub fn nzcv(c: u32) -> (s: String)
    ensures
        s@ == seq![
            'N',
            flag_char(cpu::n_bit(c)),
            'Z',
            flag_char(cpu::z_bit(c)),
            'C',
            flag_char(cpu::c_bit(c)),
            'V',
            flag_char(cpu::v_bit(c)),
            'T',
            flag_char(cpu::thumb_bit(c)),
        ],
{
    let mut cpu = InterpreterCpu::new(0);
    cpu.set_cpsr(c);
    let mut s = String::new();
    push_flag(&mut s, 'N', cpu.flag_n());
    push_flag(&mut s, 'Z', cpu.flag_z());
    push_flag(&mut s, 'C', cpu.flag_c());
    push_flag(&mut s, 'V', cpu.flag_v());
    push_flag(&mut s, 'T', cpu.is_thumb());
    s
}

/// The name of a core register: the last three have names of their own.
pub open spec fn name_of_register(n: int) -> Seq<char> {
    if n == 13 {
        seq!['s', 'p']
    } else if n == 14 {
        seq!['l', 'r']
    } else if n == 15 {
        seq!['p', 'c']
    } else {
        seq!['r'] + text::decimal(n as nat)
    }
}

pub fn register_name(n: u8) -> (name: String)
    requires
        n < 16,
    ensures
        name@ == name_of_register(n as int),
{
    let mut name = String::new();
    if n == 13 {
        name.push('s');
        name.push('p');
    } else if n == 14 {
        name.push('l');
        name.push('r');
    } else if n == 15 {
        name.push('p');
        name.push('c');
    } else {
        name.push('r');
        if n >= 10 {
            name.push(text::digit(n / 10));
        }
        name.push(text::digit(n % 10));
    }
    proof {
        reveal_with_fuel(text::decimal, 3);
    }
    assert(name@ =~= name_of_register(n as int));
    name
}

/// Two states without a difference are equal in all that counts, and two that are
/// equal in all of it have no difference.
pub proof fn law_no_difference(d: St, i: St)
    ensures
        differences_of(d, i).len() == 0 <==> {
            &&& d.context.regs@ =~= i.context.regs@
            &&& d.context.cpsr & CPSR_MASK == i.context.cpsr & CPSR_MASK
            &&& d.window@ == i.window@
        },
{
    lemma_register_differences(d.context.regs@, i.context.regs@, 16);
}

proof fn lemma_register_differences(d: Seq<u32>, i: Seq<u32>, n: int)
    requires
        n <= d.len(),
        n <= i.len(),
    ensures
        register_differences(d, i, n).len() == 0 <==> forall|k: int| 0 <= k < n ==> d[k] == i[k],
    decreases n,
{
    if n > 0 {
        lemma_register_differences(d, i, n - 1);
    }
}

/// An instruction that has been written is what the processor fetches, in the state
/// that it belongs to.
pub proof fn law_written_is_fetched(
    cpu: CpuView,
    before: Mem,
    after: Mem,
    insn: u32,
    len: u32,
    thumb: bool,
)
    requires
        before.mapped(CODE_BASE as int, len as int),
        after.is_written(&before, CODE_BASE as int, insn_bytes(insn, len, thumb)),
        cpu.regs[15] == CODE_BASE,
        cpu.null_segment_size <= CODE_BASE,
        cpu::thumb_bit(cpu.cpsr) == thumb,
        if !thumb {
            len == 4
        } else if len == 2 {
            insn < 0x1_0000 && (insn as u16 & 0xf800) < 0xe800
        } else {
            len == 4 && ((insn / 0x1_0000) as u16 & 0xf800) >= 0xe800
        },
    ensures
        cpu::fetch(cpu, &after) == Some((insn, len)),
{
    reveal_with_fuel(vstd::arithmetic::power::pow, 5);
    mem::law_le_round_trip(insn as int, 4);
    mem::law_le_round_trip(insn as int % 0x1_0000, 2);
    mem::law_le_round_trip(insn as int / 0x1_0000, 2);
    let base = CODE_BASE as int;
    if !thumb {
        assert(after.span(base, 4) =~= mem::le_bytes(insn as int, 4));
    } else if len == 2 {
        assert(after.span(base, 2) =~= mem::le_bytes(insn as int % 0x1_0000, 2));
    } else {
        assert(after.span(base, 2) =~= mem::le_bytes(insn as int / 0x1_0000, 2));
        assert(after.span(base + 2, 2) =~= mem::le_bytes(insn as int % 0x1_0000, 2));
    }
}

/// A register that differs is listed with its number and both values, and one that does
/// not is not.
pub proof fn law_register_is_listed(d: Seq<u32>, i: Seq<u32>, n: int, k: int)
    requires
        0 <= k < n <= usize::MAX,
    ensures
        ({
            let listed = Difference::Register { number: k as usize, oracle: d[k], interp: i[k] };
            register_differences(d, i, n).contains(listed) <==> d[k] != i[k]
        }),
        ({
            let listed = Difference::Extension { number: k as usize, oracle: d[k], interp: i[k] };
            extension_differences(d, i, n).contains(listed) <==> d[k] != i[k]
        }),
    decreases n,
{
    let core = Difference::Register { number: k as usize, oracle: d[k], interp: i[k] };
    let extension = Difference::Extension { number: k as usize, oracle: d[k], interp: i[k] };
    lemma_listed(d, i, n, core);
    lemma_listed(d, i, n, extension);
}

proof fn lemma_listed(d: Seq<u32>, i: Seq<u32>, n: int, listed: Difference)
    requires
        n <= usize::MAX,
    ensures
        register_differences(d, i, n).contains(listed) <==> (listed matches Difference::Register {
            number,
            oracle,
            interp,
        } && number < n && d[number as int] == oracle && i[number as int] == interp && oracle
            != interp),
        extension_differences(d, i, n).contains(listed) <==> (listed matches Difference::Extension {
            number,
            oracle,
            interp,
        } && number < n && d[number as int] == oracle && i[number as int] == interp && oracle
            != interp),
    decreases n,
{
    if n > 0 {
        lemma_listed(d, i, n - 1, listed);
        let number = (n - 1) as usize;
        let (oracle, interp) = (d[n - 1], i[n - 1]);
        lemma_contains_pushed(
            register_differences(d, i, n - 1),
            Difference::Register { number, oracle, interp },
            listed,
        );
        lemma_contains_pushed(
            extension_differences(d, i, n - 1),
            Difference::Extension { number, oracle, interp },
            listed,
        );
    }
}

proof fn lemma_contains_pushed(s: Seq<Difference>, last: Difference, listed: Difference)
    ensures
        s.push(last).contains(listed) <==> s.contains(listed) || listed == last,
{
    if s.contains(listed) {
        let k = choose|k: int| 0 <= k < s.len() && s[k] == listed;
        assert(s.push(last)[k] == listed);
    }
    assert(s.push(last)[s.len() as int] == last);
    if s.push(last).contains(listed) && listed != last {
        let k = choose|k: int| 0 <= k < s.push(last).len() && s.push(last)[k] == listed;
        assert(s[k] == listed);
    }
}

/// Of the status registers only the flags, the comparison bits of the first and the mode
/// count.
pub proof fn law_status_differences(d: u32, i: u32)
    ensures
        cpsr_difference(d, i).len() <= 1 && fpscr_difference(d, i).len() <= 1,
        cpsr_difference(d, i).len() == 0 <==> d / 0x800_0000 == i / 0x800_0000 && d / 0x1_0000 % 16
            == i / 0x1_0000 % 16 && d % 128 == i % 128,
        fpscr_difference(d, i).len() == 0 <==> d / 0x1000_0000 == i / 0x1000_0000,
        cpsr_difference(d, i).len() == 1 ==> cpsr_difference(d, i)[0] == (Difference::Cpsr {
            oracle: d,
            interp: i,
        }),
        fpscr_difference(d, i).len() == 1 ==> fpscr_difference(d, i)[0] == (Difference::Fpscr {
            oracle: d,
            interp: i,
        }),
{
    assert((d & 0xf80f_007f == i & 0xf80f_007f <==> d / 0x800_0000 == i / 0x800_0000 && d
        / 0x1_0000 % 16 == i / 0x1_0000 % 16 && d % 128 == i % 128) && (d & 0xf000_0000 == i
        & 0xf000_0000 <==> d / 0x1000_0000 == i / 0x1000_0000)) by (bit_vector);
}

/// A run begins in user mode, in the state of its instruction, with the other bits as they
/// were asked for.
pub proof fn law_initial_status(cpsr: u32, thumb: bool)
    ensures
        initial_cpsr(cpsr, thumb) / 32 % 2 == if thumb {
            1int
        } else {
            0
        },
        initial_cpsr(cpsr, thumb) / 16 % 2 == 1,
        initial_cpsr(cpsr, thumb) / 64 == cpsr / 64,
        initial_cpsr(cpsr, thumb) % 16 == cpsr % 16,
{
    assert({
        let plain = (cpsr & !0x20u32) | 0x10u32 | 0u32;
        let set = (cpsr & !0x20u32) | 0x10u32 | 0x20u32;
        &&& plain / 32 % 2 == 0 && set / 32 % 2 == 1
        &&& plain / 16 % 2 == 1 && set / 16 % 2 == 1
        &&& plain / 64 == cpsr / 64 && set / 64 == cpsr / 64
        &&& plain % 16 == cpsr % 16 && set % 16 == cpsr % 16
    }) by (bit_vector);
}

/// The last three registers have names, and the others their number behind a letter.
pub proof fn law_register_names(n: int)
    ensures
        name_of_register(13) == seq!['s', 'p'],
        name_of_register(14) == seq!['l', 'r'],
        name_of_register(15) == seq!['p', 'c'],
        0 <= n < 13 ==> name_of_register(n)[0] == 'r' && text::digits_value(
            name_of_register(n).drop_first(),
        ) == n,
{
    if 0 <= n < 13 {
        let digits = text::decimal(n as nat);
        assert(name_of_register(n).drop_first() =~= digits);
        text::law_padded_value(n as nat, 0);
        assert(text::padded(n as nat, 0) =~= digits);
    }
}

/// The window of memory that is compared is the 64 bytes below the top of the stack.
pub proof fn law_window(mem: Mem, k: int)
    requires
        mem.null_segment_size <= 0xf_ffc0,
        mem.bytes@.len() >= 0x10_0000,
        0 <= k < 64,
    ensures
        window_of(mem).len() == 64,
        window_of(mem)[k] == mem.bytes@[0xf_ffc0 + k],
{
}

} // verus!
