//! `NSException` and `NSAssertionHandler`: what happens when the guest raises an
//! exception that nothing can catch.
use crate::http;
use crate::mem;
use crate::mem::Mem;
use crate::ns_string;
use crate::ns_string::to_rust_string;
use crate::objc;
use crate::objc::{Environment, HostObject, Id, Object, NIL};
use crate::text::{chars_of, push_all, same_chars, string_of};
use vstd::prelude::*;

verus! {

/// What is done about an exception: ended where it could spoil a save file, always
/// ended, or always only logged.
#[derive(Clone, Copy, Debug, PartialEq, Eq, Structural)]
pub enum AssertPolicy {
    Auto,
    Abort,
    Log,
}

/// The policy that a setting names.
pub open spec fn policy_of(setting: Option<Seq<char>>) -> AssertPolicy {
    match setting {
        Some(s) => if http::trimmed(s) == "abort"@ {
            AssertPolicy::Abort
        } else if http::trimmed(s) == "log"@ {
            AssertPolicy::Log
        } else {
            AssertPolicy::Auto
        },
        None => AssertPolicy::Auto,
    }
}

pub fn assert_policy(setting: &Option<String>) -> (policy: AssertPolicy)
    ensures
        policy == policy_of(
            match setting {
                Some(s) => Some(s@),
                None => None,
            },
        ),
{
    match setting {
        Some(s) => {
            let word = http::trim(&chars_of(s.as_str()));
            if same_chars(&word, &chars_of("abort")) {
                AssertPolicy::Abort
            } else if same_chars(&word, &chars_of("log")) {
                AssertPolicy::Log
            } else {
                AssertPolicy::Auto
            }
        },
        None => AssertPolicy::Auto,
    }
}

/// The code that encrypts save files: the first address, and one behind the last.
pub const SAVE_ENCRYPT_START: u32 = 0x12492c;

pub const SAVE_ENCRYPT_END: u32 = 0x124968;

/// How many exceptions have been seen.
pub struct ExceptionLog {
    pub count: u32,
}

/// The first exceptions are logged, and a few of the later ones.
pub open spec fn is_logged(n: u32) -> bool {
    n < 64 || n % 256 == 0
}

impl ExceptionLog {
    /// Counts an exception; whether it is to be logged.
    pub fn should_log_exception(&mut self) -> (log: bool)
        ensures
            log == is_logged(old(self).count),
            final(self).count == if old(self).count == u32::MAX {
                0
            } else {
                old(self).count + 1
            },
    {
        let n: u32 = self.count;
        self.count = if n == u32::MAX {
            0
        } else {
            n + 1
        };
        n < 64 || n % 256 == 0
    }
}

/// An address without the bit that tells the instruction set.
pub open spec fn code_address(addr: int) -> int {
    addr - addr % 2
}

/// A frame that can be on the stack.
pub open spec fn frame_ok(sp: int, null_end: int, fp: int) -> bool {
    &&& fp % 4 == 0
    &&& fp >= sp
    &&& fp >= null_end
    &&& fp - sp < 0x80_0000
    &&& fp <= u32::MAX - 8
}

/// A word of guest memory; memory that was never used is zero.
pub open spec fn word_or_zero(bytes: Seq<u8>, addr: int) -> int {
    if addr + 4 <= bytes.len() {
        mem::le_value(bytes.subrange(addr, addr + 4))
    } else {
        0
    }
}

/// The return addresses that the chain of frames gives, `n` at most.
pub open spec fn frame_addresses(bytes: Seq<u8>, sp: int, null_end: int, fp: int, n: nat) -> Seq<
    u32,
>
    decreases n,
{
    if n == 0 || !frame_ok(sp, null_end, fp) {
        Seq::empty()
    } else {
        let saved_fp = word_or_zero(bytes, fp);
        let saved_lr = word_or_zero(bytes, fp + 4);
        if saved_lr == 0 {
            Seq::empty()
        } else if saved_fp <= fp {
            seq![code_address(saved_lr) as u32]
        } else {
            seq![code_address(saved_lr) as u32] + frame_addresses(
                bytes,
                sp,
                null_end,
                saved_fp,
                (n - 1) as nat,
            )
        }
    }
}

fn read_or_zero(mem: &Mem, addr: u32) -> (v: u32)
    requires
        mem.wf(),
        mem.null_segment_size <= addr,
    ensures
        v == word_or_zero(mem.bytes@, addr as int),
{
    if mem.is_mapped(addr, 4) {
        mem.read_u32(addr)
    } else {
        0
    }
}

/// The return addresses of the guest's callers, the last one first: the link
/// register, and what the chain of frames gives.
pub fn guest_return_addresses(mem: &Mem, sp: u32, lr: u32, fp: u32, max: usize) -> (out: Vec<u32>)
    requires
        mem.wf(),
    ensures
        out@ == seq![code_address(lr as int) as u32] + frame_addresses(
            mem.bytes@,
            sp as int,
            mem.null_segment_size as int,
            fp as int,
            if max == 0 {
                0
            } else {
                (max - 1) as nat
            },
        ),
{
    let null_end: u32 = mem.null_segment_size();
    let mut out: Vec<u32> = Vec::new();
    out.push(lr - lr % 2);
    let mut frame: u32 = fp;
    let ghost all = frame_addresses(
        mem.bytes@,
        sp as int,
        null_end as int,
        fp as int,
        if max == 0 {
            0
        } else {
            (max - 1) as nat
        },
    );
    let ghost first = seq![code_address(lr as int) as u32];
    assert(out@ =~= first);
    assert(out@ + all =~= first + all);
    while out.len() < max
        invariant_except_break
            mem.wf(),
            null_end == mem.null_segment_size,
            1 <= out@.len(),
            out@.len() <= max || max == 0,
            out@ + frame_addresses(
                mem.bytes@,
                sp as int,
                null_end as int,
                frame as int,
                if max == 0 {
                    0
                } else {
                    (max - out@.len()) as nat
                },
            ) == first + all,
        ensures
            out@ == first + all,
        decreases max - out@.len(),
    {
        let ghost before = out@;
        let ghost left = (max - out@.len()) as nat;
        if frame % 4 != 0 || frame < sp || frame < null_end || frame - sp >= 0x80_0000 || frame
            > u32::MAX - 8 {
            assert(before + Seq::<u32>::empty() =~= before);
            break;
        }
        let saved_fp: u32 = read_or_zero(mem, frame);
        let saved_lr: u32 = read_or_zero(mem, frame + 4);
        if saved_lr == 0 {
            assert(before + Seq::<u32>::empty() =~= before);
            break;
        }
        out.push(saved_lr - saved_lr % 2);
        let ghost added = code_address(saved_lr as int) as u32;
        if saved_fp <= frame {
            assert(before + seq![added] =~= out@);
            break;
        }
        proof {
            let tail = frame_addresses(
                mem.bytes@,
                sp as int,
                null_end as int,
                saved_fp as int,
                (left - 1) as nat,
            );
            assert(before + (seq![added] + tail) =~= out@ + tail);
        }
        frame = saved_fp;
    }
    assert(out@ == first + all);
    out
}

/// The addresses that are handed out are even, and there are no more of them than
/// asked for.
pub proof fn law_return_addresses(bytes: Seq<u8>, sp: int, null_end: int, fp: int, n: nat)
    requires
        0 <= null_end,
    ensures
        frame_addresses(bytes, sp, null_end, fp, n).len() <= n,
        forall|i: int|
            0 <= i < frame_addresses(bytes, sp, null_end, fp, n).len() ==> #[trigger] frame_addresses(
                bytes,
                sp,
                null_end,
                fp,
                n,
            )[i] % 2 == 0,
    decreases n,
{
    if n > 0 && frame_ok(sp, null_end, fp) {
        let saved_fp = word_or_zero(bytes, fp);
        let saved_lr = word_or_zero(bytes, fp + 4);
        if fp + 8 <= bytes.len() {
            mem::lemma_le_value_4(bytes.subrange(fp + 4, fp + 8));
        }
        law_return_addresses(bytes, sp, null_end, saved_fp, (n - 1) as nat);
        let rest = frame_addresses(bytes, sp, null_end, saved_fp, (n - 1) as nat);
        assert forall|i: int|
            0 <= i < frame_addresses(bytes, sp, null_end, fp, n).len() implies #[trigger] frame_addresses(
            bytes,
            sp,
            null_end,
            fp,
            n,
        )[i] % 2 == 0 by {
            if i > 0 {
                assert(frame_addresses(bytes, sp, null_end, fp, n)[i] == rest[i - 1]);
            }
        }
    }
}

/// A call chain goes through the code that encrypts save files.
pub open spec fn in_save_encrypt(trace: Seq<u32>) -> bool {
    exists|i: int|
        0 <= i < trace.len() && SAVE_ENCRYPT_START <= #[trigger] trace[i] < SAVE_ENCRYPT_END
}

fn passes_save_encrypt(trace: &Vec<u32>) -> (yes: bool)
    ensures
        yes == in_save_encrypt(trace@),
{
    let mut i: usize = 0;
    while i < trace.len()
        invariant
            i <= trace@.len(),
            forall|j: int|
                0 <= j < i ==> !(SAVE_ENCRYPT_START <= #[trigger] trace@[j] < SAVE_ENCRYPT_END),
        decreases trace@.len() - i,
    {
        if SAVE_ENCRYPT_START <= trace[i] && trace[i] < SAVE_ENCRYPT_END {
            return true;
        }
        i = i + 1;
    }
    false
}

/// What is to be done about an exception.
#[derive(Clone, Copy, Debug, PartialEq, Eq, Structural)]
pub enum RaiseOutcome {
    Abort,
    LogAndContinue,
    Continue,
}

pub open spec fn ends_program(policy: AssertPolicy, trace: Seq<u32>) -> bool {
    match policy {
        AssertPolicy::Abort => true,
        AssertPolicy::Log => false,
        AssertPolicy::Auto => in_save_encrypt(trace),
    }
}

/// Decides about an exception with a call chain. Only exceptions that do not end
/// the program are counted.
pub fn raise_outcome(log: &mut ExceptionLog, policy: AssertPolicy, trace: &Vec<u32>) -> (outcome:
    RaiseOutcome)
    ensures
        ends_program(policy, trace@) ==> outcome == RaiseOutcome::Abort && final(log).count == old(
            log,
        ).count,
        !ends_program(policy, trace@) ==> {
            &&& outcome == if is_logged(old(log).count) {
                RaiseOutcome::LogAndContinue
            } else {
                RaiseOutcome::Continue
            }
            &&& final(log).count == if old(log).count == u32::MAX {
                0
            } else {
                old(log).count + 1
            }
        },
{
    let abort: bool = match policy {
        AssertPolicy::Abort => true,
        AssertPolicy::Log => false,
        AssertPolicy::Auto => passes_save_encrypt(trace),
    };
    if abort {
        return RaiseOutcome::Abort;
    }
    if log.should_log_exception() {
        RaiseOutcome::LogAndContinue
    } else {
        RaiseOutcome::Continue
    }
}

/// Decides about a failed assertion: it ends the program only where that is set.
pub fn assertion_outcome(log: &mut ExceptionLog, policy: AssertPolicy) -> (outcome: RaiseOutcome)
    ensures
        policy == AssertPolicy::Abort ==> outcome == RaiseOutcome::Abort && final(log).count
            == old(log).count,
        policy != AssertPolicy::Abort ==> {
            &&& outcome == if is_logged(old(log).count) {
                RaiseOutcome::LogAndContinue
            } else {
                RaiseOutcome::Continue
            }
            &&& final(log).count == if old(log).count == u32::MAX {
                0
            } else {
                old(log).count + 1
            }
        },
{
    if policy == AssertPolicy::Abort {
        return RaiseOutcome::Abort;
    }
    if log.should_log_exception() {
        RaiseOutcome::LogAndContinue
    } else {
        RaiseOutcome::Continue
    }
}

/// How many return addresses of a call chain are looked at.
pub const TRACE_LENGTH: usize = 12;

/// The call chain of a guest, as far as it is looked at.
pub open spec fn call_chain(mem: Mem, sp: u32, lr: u32, fp: u32) -> Seq<u32> {
    seq![code_address(lr as int) as u32] + frame_addresses(
        mem.bytes@,
        sp as int,
        mem.null_segment_size as int,
        fp as int,
        11,
    )
}

/// Raises an exception where the registers of the guest are `sp`, `lr` and `fp`:
/// what is to be done about it, and the call chain.
pub fn raise_common(
    log: &mut ExceptionLog,
    policy: AssertPolicy,
    mem: &Mem,
    sp: u32,
    lr: u32,
    fp: u32,
) -> (r: (RaiseOutcome, Vec<u32>))
    requires
        mem.wf(),
    ensures
        r.1@ == call_chain(*mem, sp, lr, fp),
        ends_program(policy, r.1@) ==> r.0 == RaiseOutcome::Abort && final(log).count == old(
            log,
        ).count,
        !ends_program(policy, r.1@) ==> {
            &&& r.0 == if is_logged(old(log).count) {
                RaiseOutcome::LogAndContinue
            } else {
                RaiseOutcome::Continue
            }
            &&& final(log).count == if old(log).count == u32::MAX {
                0
            } else {
                old(log).count + 1
            }
        },
{
    let trace = guest_return_addresses(mem, sp, lr, fp, TRACE_LENGTH);
    let outcome = raise_outcome(log, policy, &trace);
    (outcome, trace)
}

/// Reports a failed assertion where the registers of the guest are `sp`, `lr` and
/// `fp`: what is to be done about it, and the call chain.
pub fn assertion_failure(
    log: &mut ExceptionLog,
    policy: AssertPolicy,
    mem: &Mem,
    sp: u32,
    lr: u32,
    fp: u32,
) -> (r: (RaiseOutcome, Vec<u32>))
    requires
        mem.wf(),
    ensures
        r.1@ == call_chain(*mem, sp, lr, fp),
        policy == AssertPolicy::Abort ==> r.0 == RaiseOutcome::Abort && final(log).count == old(
            log,
        ).count,
        policy != AssertPolicy::Abort ==> {
            &&& r.0 == if is_logged(old(log).count) {
                RaiseOutcome::LogAndContinue
            } else {
                RaiseOutcome::Continue
            }
            &&& final(log).count == if old(log).count == u32::MAX {
                0
            } else {
                old(log).count + 1
            }
        },
{
    let trace = guest_return_addresses(mem, sp, lr, fp, TRACE_LENGTH);
    let outcome = assertion_outcome(log, policy);
    (outcome, trace)
}

/// Throws an exception object, which nothing can catch: whatever is set, the program
/// ends. The call chain comes with it.
pub fn objc_exception_throw(mem: &Mem, sp: u32, lr: u32, fp: u32) -> (r: (RaiseOutcome, Vec<u32>))
    requires
        mem.wf(),
    ensures
        r.0 == RaiseOutcome::Abort,
        r.1@ == call_chain(*mem, sp, lr, fp),
{
    (RaiseOutcome::Abort, guest_return_addresses(mem, sp, lr, fp, TRACE_LENGTH))
}

pub open spec fn hex_char(d: int) -> char {
    if d < 10 {
        (48 + d) as char
    } else {
        (87 + d) as char
    }
}

/// The hexadecimal digits of a number.
pub open spec fn hex_digits(n: nat) -> Seq<char>
    decreases n,
{
    if n < 16 {
        seq![hex_char(n as int)]
    } else {
        hex_digits(n / 16).push(hex_char((n % 16) as int))
    }
}

fn hex_chars(n: u32) -> (digits: Vec<char>)
    ensures
        digits@ == hex_digits(n as nat),
    decreases n,
{
    let d: u8 = (n % 16) as u8;
    let c: char = if d < 10 {
        (48 + d) as char
    } else {
        (87 + d) as char
    };
    if n < 16 {
        let mut out: Vec<char> = Vec::new();
        out.push(c);
        assert(out@ =~= seq![hex_char(n as int)]);
        out
    } else {
        let mut out = hex_chars(n / 16);
        out.push(c);
        out
    }
}

/// A call chain as a text.
pub open spec fn trace_text(trace: Seq<u32>) -> Seq<char>
    decreases trace.len(),
{
    if trace.len() == 0 {
        Seq::empty()
    } else {
        let before = if trace.len() == 1 {
            Seq::empty()
        } else {
            trace_text(trace.drop_last()) + seq![' ', '\u{2190}', ' ']
        };
        before + seq!['0', 'x'] + hex_digits(trace.last() as nat)
    }
}

pub fn format_trace(trace: &Vec<u32>) -> (line: String)
    ensures
        line@ == trace_text(trace@),
{
    let mut out: Vec<char> = Vec::new();
    let mut i: usize = 0;
    while i < trace.len()
        invariant
            i <= trace@.len(),
            out@ == trace_text(trace@.take(i as int)),
        decreases trace@.len() - i,
    {
        let ghost before = out@;
        assert(trace@.take(i + 1).drop_last() =~= trace@.take(i as int));
        if i > 0 {
            out.push(' ');
            out.push('\u{2190}');
            out.push(' ');
        }
        out.push('0');
        out.push('x');
        let digits = hex_chars(trace[i]);
        push_all(&mut out, &digits);
        proof {
            let head = if i == 0 {
                Seq::empty()
            } else {
                before + seq![' ', '\u{2190}', ' ']
            };
            assert(out@ =~= head + seq!['0', 'x'] + digits@);
        }
        i = i + 1;
    }
    assert(trace@.take(i as int) =~= trace@);
    string_of(&out)
}

/// The name, the reason and the further information of an exception object.
pub open spec fn exception_at(objects: Seq<Object>, id: Id) -> Option<(Id, Id, Id)> {
    if 0 < id < objects.len() {
        match objects[id as int].host {
            HostObject::Exception { name, reason, user_info } => Some((name, reason, user_info)),
            _ => None,
        }
    } else {
        None
    }
}

/// Makes an exception object without contents.
pub fn new_exception_host_object(env: &mut Environment) -> (id: Id)
    requires
        old(env).wf(),
        old(env).has_room(1, 0),
    ensures
        final(env).wf(),
        id == old(env).objc.objects@.len(),
        final(env).objc.objects@ == old(env).objc.objects@.push(
            Object {
                retain_count: Some(1),
                host: HostObject::Exception { name: NIL, reason: NIL, user_info: NIL },
            },
        ),
        final(env).mem == old(env).mem,
        final(env).autorelease_pool == old(env).autorelease_pool,
{
    env.objc.alloc_object(HostObject::Exception { name: NIL, reason: NIL, user_info: NIL })
}

/// Gives a new exception object copies of its contents, which it owns from then
/// on.
pub fn init_exception(env: &mut Environment, this: Id, name: Id, reason: Id, user_info: Id) -> (id:
    Id)
    requires
        old(env).wf(),
        exception_at(old(env).objc.objects@, this) is Some,
    ensures
        final(env).wf(),
        id == this,
        final(env).objc.objects@ == old(env).objc.objects@.update(
            this as int,
            Object {
                retain_count: old(env).objc.objects@[this as int].retain_count,
                host: HostObject::Exception { name, reason, user_info },
            },
        ),
        exception_at(final(env).objc.objects@, this) == Some((name, reason, user_info)),
        final(env).mem == old(env).mem,
        final(env).autorelease_pool == old(env).autorelease_pool,
{
    let retain_count: Option<u32> = env.objc.objects[this as usize].retain_count;
    env.objc.objects.set(
        this as usize,
        Object { retain_count, host: HostObject::Exception { name, reason, user_info } },
    );
    this
}

/// The name, the reason and the further information of an exception.
pub fn exception_fields(env: &Environment, this: Id) -> (fields: Option<(Id, Id, Id)>)
    requires
        env.wf(),
    ensures
        fields == exception_at(env.objc.objects@, this),
{
    if this == NIL || this as usize >= env.objc.objects.len() {
        return None;
    }
    match &env.objc.objects[this as usize].host {
        HostObject::Exception { name, reason, user_info } => Some((*name, *reason, *user_info)),
        _ => None,
    }
}

/// An exception as texts: its class, its name and its reason. An object that is no
/// exception has no name, and its description is its reason.
pub fn describe_exception(
    env: &Environment,
    exception: Id,
    class_name: &Option<String>,
    description: Id,
) -> (r: (String, String, String))
    requires
        env.wf(),
        exception_at(env.objc.objects@, exception) matches Some((name, reason, info)) ==> (name
            == NIL || ns_string::is_string(env.objc.objects@, name)) && (reason == NIL
            || ns_string::is_string(env.objc.objects@, reason)),
        description == NIL || ns_string::is_string(env.objc.objects@, description),
    ensures
        exception == NIL ==> r.0@ == "nil"@ && r.1@.len() == 0 && r.2@.len() == 0,
        exception != NIL ==> {
            &&& r.0@ == match class_name {
                Some(n) => n@,
                None => "?"@,
            }
            &&& match exception_at(env.objc.objects@, exception) {
                Some((name, reason, info)) => {
                    &&& r.1@ == ns_string::text_at(env.objc.objects@, name)
                    &&& r.2@ == ns_string::text_at(env.objc.objects@, reason)
                },
                None => {
                    &&& r.1@.len() == 0
                    &&& r.2@ == ns_string::text_at(env.objc.objects@, description)
                },
            }
        },
{
    if exception == NIL {
        return ("nil".to_owned(), String::new(), String::new());
    }
    let class = match class_name {
        Some(n) => n.clone(),
        None => "?".to_owned(),
    };
    match exception_fields(env, exception) {
        Some((name, reason, _)) => (
            class,
            to_rust_string(env, name),
            to_rust_string(env, reason),
        ),
        None => (class, String::new(), to_rust_string(env, description)),
    }
}

/// An exception owns its contents: they are released with it.
pub proof fn law_exception_owns_contents(name: Id, reason: Id, user_info: Id)
    ensures
        objc::owned_by(HostObject::Exception { name, reason, user_info }).to_multiset()
            =~= seq![name, reason, user_info].to_multiset(),
{
    let owned = objc::owned_by(HostObject::Exception { name, reason, user_info });
    assert(owned =~= seq![name, reason, user_info].reverse());
    seq![name, reason, user_info].lemma_reverse_to_multiset();
}

/// A setting is read without the spaces around it, and anything but its two words leaves
/// the decision open.
pub proof fn law_policy(setting: Seq<char>)
    ensures
        policy_of(None) is Auto,
        policy_of(Some(setting)) is Abort <==> http::trimmed(setting) == seq![
            'a',
            'b',
            'o',
            'r',
            't',
        ],
        policy_of(Some(setting)) is Log <==> http::trimmed(setting) == seq!['l', 'o', 'g'],
{
    reveal_strlit("abort");
    reveal_strlit("log");
    assert("abort"@ =~= seq!['a', 'b', 'o', 'r', 't']);
    assert("log"@ =~= seq!['l', 'o', 'g']);
    assert("abort"@.len() == 5 && "log"@.len() == 3);
}

/// The first exceptions are logged, and then one in two hundred and fifty-six.
pub proof fn law_logged(n: u32, k: int)
    ensures
        n < 64 ==> is_logged(n),
        n == 256 * k ==> is_logged(n),
        n >= 64 && 256 * k < n < 256 * (k + 1) ==> !is_logged(n),
{
}

/// The address of an instruction is that of a return without its lowest bit.
pub proof fn law_code_address(addr: int)
    ensures
        code_address(addr) % 2 == 0,
        addr - 1 <= code_address(addr) <= addr,
{
}

/// A word of memory has its lowest byte first, and is zero where there is no memory.
pub proof fn law_word(bytes: Seq<u8>, addr: int)
    requires
        0 <= addr,
    ensures
        addr + 4 <= bytes.len() ==> word_or_zero(bytes, addr) == bytes[addr] + 0x100 * bytes[addr
            + 1] + 0x1_0000 * bytes[addr + 2] + 0x100_0000 * bytes[addr + 3],
        addr + 4 > bytes.len() ==> word_or_zero(bytes, addr) == 0,
{
    if addr + 4 <= bytes.len() {
        let (p, q, r, s) = (bytes[addr], bytes[addr + 1], bytes[addr + 2], bytes[addr + 3]);
        assert(bytes.subrange(addr, addr + 4) =~= seq![p, q, r, s]);
        mem::law_little_endian(p, q, r, s);
    }
}

/// A frame lies on the stack, which grows down from it, and holds where the caller's frame
/// is and, behind that, where the call returns to. Frames are followed as long as they go
/// up the stack and return somewhere.
pub proof fn law_frames(bytes: Seq<u8>, sp: int, null_end: int, fp: int, n: nat)
    ensures
        frame_addresses(bytes, sp, null_end, fp, 0).len() == 0,
        fp % 4 != 0 || fp < sp || fp < null_end || fp >= sp + 0x80_0000 ==> frame_addresses(
            bytes,
            sp,
            null_end,
            fp,
            n,
        ).len() == 0,
        fp % 4 == 0 && sp <= fp < sp + 0x80_0000 && null_end <= fp <= 0xffff_fff7 ==> {
            let caller = word_or_zero(bytes, fp);
            let back = word_or_zero(bytes, fp + 4);
            let found = frame_addresses(bytes, sp, null_end, fp, n + 1);
            &&& back == 0 ==> found.len() == 0
            &&& back != 0 && caller <= fp ==> found == seq![(back - back % 2) as u32]
            &&& back != 0 && caller > fp ==> found == seq![(back - back % 2) as u32]
                + frame_addresses(bytes, sp, null_end, caller, n)
        },
{
}

/// The chain of calls begins where the current function returns to, and has up to eleven
/// callers behind it.
pub proof fn law_call_chain(mem: Mem, sp: u32, lr: u32, fp: u32)
    ensures
        1 <= call_chain(mem, sp, lr, fp).len() <= 12,
        call_chain(mem, sp, lr, fp)[0] == lr - lr % 2,
        call_chain(mem, sp, lr, fp).drop_first() == frame_addresses(
            mem.bytes@,
            sp as int,
            mem.null_segment_size as int,
            fp as int,
            11,
        ),
{
    law_return_addresses(mem.bytes@, sp as int, mem.null_segment_size as int, fp as int, 11);
    assert(call_chain(mem, sp, lr, fp).drop_first() =~= frame_addresses(
        mem.bytes@,
        sp as int,
        mem.null_segment_size as int,
        fp as int,
        11,
    ));
}

/// An exception ends the program where that has been set, and else only within the
/// function that encrypts saved games.
pub proof fn law_ends_program(trace: Seq<u32>, i: int)
    ensures
        ends_program(AssertPolicy::Abort, trace),
        !ends_program(AssertPolicy::Log, trace),
        0 <= i < trace.len() && 0x12_492c <= trace[i] < 0x12_4968 ==> ends_program(
            AssertPolicy::Auto,
            trace,
        ),
        (forall|k: int|
            0 <= k < trace.len() ==> #[trigger] trace[k] < 0x12_492c || trace[k] >= 0x12_4968)
            ==> !ends_program(AssertPolicy::Auto, trace),
{
}

/// Hexadecimal digits stand for the number that they have been made of, in lower case and
/// without leading zeros.
pub proof fn law_hex_digits(n: nat)
    ensures
        http::hex_number(hex_digits(n)) == Some(n as int),
        hex_digits(n).len() > 0,
        n > 0 ==> hex_digits(n)[0] != '0',
        forall|i: int|
            0 <= i < hex_digits(n).len() ==> (('0' <= #[trigger] hex_digits(n)[i] <= '9') || ('a'
                <= hex_digits(n)[i] <= 'f')),
    decreases n,
{
    let last = hex_char((n % 16) as int);
    assert(http::hex_value(last) == Some((n % 16) as int));
    if n < 16 {
        assert(hex_digits(n).drop_last() =~= Seq::<char>::empty());
        reveal_with_fuel(http::hex_number, 2);
    } else {
        law_hex_digits(n / 16);
        assert(hex_digits(n).drop_last() =~= hex_digits(n / 16));
        assert(hex_digits(n)[0] == hex_digits(n / 16)[0]);
    }
}

/// A trace shows its addresses from the innermost call outwards, with an arrow between any
/// two.
pub proof fn law_trace_text(a: Seq<u32>, b: Seq<u32>, address: u32)
    ensures
        trace_text(seq![address]) == seq!['0', 'x'] + hex_digits(address as nat),
        a.len() > 0 && b.len() > 0 ==> trace_text(a + b) == trace_text(a) + seq![
            ' ',
            '\u{2190}',
            ' ',
        ] + trace_text(b),
    decreases b.len(),
{
    assert(trace_text(seq![address]) =~= seq!['0', 'x'] + hex_digits(address as nat));
    if a.len() > 0 && b.len() > 0 {
        assert((a + b).drop_last() =~= a + b.drop_last());
        if b.len() == 1 {
            assert(a + b.drop_last() =~= a);
        } else {
            law_trace_text(a, b.drop_last(), address);
        }
        assert(trace_text(a + b) =~= trace_text(a) + seq![' ', '\u{2190}', ' '] + trace_text(b));
    }
}

} // verus!
