//! Guest memory.
use vstd::prelude::*;

verus! {

/// The guest's address space: one contiguous range of bytes that starts at
/// address zero. The first `null_segment_size` bytes are never accessible.
pub struct Mem {
    pub bytes: Vec<u8>,
    pub null_segment_size: u32,
    /// Base and size of each allocation that has not been freed.
    pub allocations: Vec<(u32, u32)>,
}

/// The allocations that do not start at `addr`.
pub open spec fn is_elsewhere(addr: u32) -> spec_fn((u32, u32)) -> bool {
    |a: (u32, u32)| a.0 != addr
}

/// The value of a little-endian sequence of bytes.
pub open spec fn le_value(bytes: Seq<u8>) -> int
    decreases bytes.len(),
{
    if bytes.len() == 0 {
        0
    } else {
        bytes[0] as int + 256 * le_value(bytes.drop_first())
    }
}

/// The bytes of `bytes` with those from `at` on replaced by `new`.
pub open spec fn splice(bytes: Seq<u8>, at: int, new: Seq<u8>) -> Seq<u8> {
    bytes.take(at) + new + bytes.skip(at + new.len())
}

pub proof fn lemma_le_value_2(b: Seq<u8>)
    requires
        b.len() == 2,
    ensures
        le_value(b) == b[0] + 256 * b[1],
{
    reveal_with_fuel(le_value, 3);
}

pub proof fn lemma_le_value_4(b: Seq<u8>)
    requires
        b.len() == 4,
    ensures
        le_value(b) == b[0] + 256 * b[1] + 0x1_0000 * b[2] + 0x100_0000 * b[3],
{
    reveal_with_fuel(le_value, 5);
    let c = b.drop_first();
    let d = c.drop_first();
    let e = d.drop_first();
    assert(c[0] == b[1] && d[0] == b[2] && e[0] == b[3]);
    assert(e.drop_first().len() == 0);
}

impl Mem {
    /// The size of the address space fits the guest's pointers.
    pub open spec fn wf(&self) -> bool {
        self.bytes@.len() <= u32::MAX
    }

    /// Whether all of the `len` bytes from `addr` on can be accessed.
    pub open spec fn mapped(&self, addr: int, len: int) -> bool {
        self.null_segment_size <= addr && addr + len <= self.bytes@.len()
    }

    /// The `len` bytes from `addr` on.
    pub open spec fn span(&self, addr: int, len: int) -> Seq<u8> {
        self.bytes@.subrange(addr, addr + len)
    }

    /// This memory with the bytes from `addr` on replaced by `new`.
    pub open spec fn is_written(&self, old_mem: &Mem, addr: int, new: Seq<u8>) -> bool {
        &&& self.bytes@ == splice(old_mem.bytes@, addr, new)
        &&& self.null_segment_size == old_mem.null_segment_size
        &&& self.allocations@ == old_mem.allocations@
    }

    /// An address space that holds only the null segment.
    pub fn new(null_segment_size: u32) -> (mem: Mem)
        ensures
            mem.wf(),
            mem.null_segment_size == null_segment_size,
            mem.bytes@ == Seq::new(null_segment_size as nat, |i: int| 0u8),
            mem.allocations@.len() == 0,
    {
        let mut bytes: Vec<u8> = Vec::new();
        bytes.resize(null_segment_size as usize, 0);
        Mem { bytes, null_segment_size, allocations: Vec::new() }
    }

    pub fn null_segment_size(&self) -> (size: u32)
        ensures
            size == self.null_segment_size,
    {
        self.null_segment_size
    }

    /// Whether a guest access of `len` bytes at `addr` succeeds.
    pub fn is_mapped(&self, addr: u32, len: u32) -> (ok: bool)
        requires
            self.wf(),
        ensures
            ok == self.mapped(addr as int, len as int),
    {
        addr >= self.null_segment_size && addr as u64 + len as u64 <= self.bytes.len() as u64
    }

    /// A copy of the `len` bytes at `addr`, or nothing if one of them is not
    /// accessible.
    pub fn get_bytes_fallible(&self, addr: u32, len: u32) -> (found: Option<Vec<u8>>)
        requires
            self.wf(),
        ensures
            match found {
                Some(b) => self.mapped(addr as int, len as int) && b@ == self.span(
                    addr as int,
                    len as int,
                ),
                None => !self.mapped(addr as int, len as int),
            },
    {
        if !self.is_mapped(addr, len) {
            return None;
        }
        Some(self.bytes_at(addr, len))
    }

    /// A copy of the `len` bytes at `addr`.
    pub fn bytes_at(&self, addr: u32, len: u32) -> (b: Vec<u8>)
        requires
            self.wf(),
            self.mapped(addr as int, len as int),
        ensures
            b@ == self.span(addr as int, len as int),
    {
        let mut out: Vec<u8> = Vec::new();
        let mut i: u32 = 0;
        while i < len
            invariant
                self.wf(),
                i <= len,
                self.mapped(addr as int, len as int),
                out@ == self.span(addr as int, i as int),
            decreases len - i,
        {
            out.push(self.bytes[(addr + i) as usize]);
            assert(self.span(addr as int, i as int).push(self.bytes@[addr + i]) =~= self.span(
                addr as int,
                i + 1,
            ));
            i = i + 1;
        }
        out
    }

    /// Replaces the bytes at `addr` by `new`.
    pub fn write_bytes(&mut self, addr: u32, new: &Vec<u8>)
        requires
            old(self).wf(),
            old(self).mapped(addr as int, new@.len() as int),
        ensures
            final(self).wf(),
            final(self).is_written(old(self), addr as int, new@),
            final(self).bytes@.len() == old(self).bytes@.len(),
    {
        let mut i: usize = 0;
        assert(self.bytes@ =~= splice(old(self).bytes@, addr as int, new@.take(0)));
        while i < new.len()
            invariant
                i <= new@.len(),
                old(self).wf(),
                old(self).mapped(addr as int, new@.len() as int),
                self.bytes@.len() == old(self).bytes@.len(),
                self.null_segment_size == old(self).null_segment_size,
                self.allocations@ == old(self).allocations@,
                self.bytes@ == splice(old(self).bytes@, addr as int, new@.take(i as int)),
            decreases new@.len() - i,
        {
            let b: u8 = new[i];
            self.bytes.set(addr as usize + i, b);
            i = i + 1;
            assert(self.bytes@ =~= splice(old(self).bytes@, addr as int, new@.take(i as int)));
        }
        assert(new@.take(new@.len() as int) =~= new@);
    }

    /// The 32-bit word at `addr`.
    pub fn read_u32(&self, addr: u32) -> (v: u32)
        requires
            self.wf(),
            self.mapped(addr as int, 4),
        ensures
            v == le_value(self.span(addr as int, 4)),
    {
        let a: usize = addr as usize;
        proof {
            lemma_le_value_4(self.span(addr as int, 4));
        }
        self.bytes[a] as u32 + 256 * (self.bytes[a + 1] as u32) + 0x1_0000 * (self.bytes[a
            + 2] as u32) + 0x100_0000 * (self.bytes[a + 3] as u32)
    }

    /// The 16-bit halfword at `addr`.
    pub fn read_u16(&self, addr: u32) -> (v: u16)
        requires
            self.wf(),
            self.mapped(addr as int, 2),
        ensures
            v == le_value(self.span(addr as int, 2)),
    {
        let a: usize = addr as usize;
        proof {
            lemma_le_value_2(self.span(addr as int, 2));
        }
        self.bytes[a] as u16 + 256 * (self.bytes[a + 1] as u16)
    }

    pub fn read_u8(&self, addr: u32) -> (v: u8)
        requires
            self.wf(),
            self.mapped(addr as int, 1),
        ensures
            v == self.bytes@[addr as int],
    {
        self.bytes[addr as usize]
    }

    /// Whether the first zero byte from `addr` on is `len` bytes further.
    pub open spec fn ends_after(&self, addr: int, len: int) -> bool {
        &&& 0 <= len
        &&& self.mapped(addr, len + 1)
        &&& self.bytes@[addr + len] == 0
        &&& forall|i: int| addr <= i < addr + len ==> #[trigger] self.bytes@[i] != 0
    }

    /// The length of the zero-terminated string at `addr`.
    pub fn cstr_len(&self, addr: u32) -> (len: u32)
        requires
            self.wf(),
            exists|n: int| self.ends_after(addr as int, n),
        ensures
            self.ends_after(addr as int, len as int),
    {
        let ghost n = choose|n: int| self.ends_after(addr as int, n);
        let mut len: u32 = 0;
        while self.bytes[addr as usize + len as usize] != 0
            invariant
                self.wf(),
                self.ends_after(addr as int, n),
                len <= n,
                forall|i: int| addr <= i < addr + len ==> #[trigger] self.bytes@[i] != 0,
            decreases n - len,
        {
            len = len + 1;
        }
        assert(len == n) by {
            if len < n {
                assert(self.bytes@[addr + len] != 0);
            }
        }
        len
    }

    /// Writes a 32-bit word at `addr`.
    pub fn write_u32(&mut self, addr: u32, v: u32)
        requires
            old(self).wf(),
            old(self).mapped(addr as int, 4),
        ensures
            final(self).wf(),
            final(self).is_written(old(self), addr as int, le_bytes(v as int, 4)),
            final(self).bytes@.len() == old(self).bytes@.len(),
    {
        let bytes = u32_le_bytes(v);
        self.write_bytes(addr, &bytes);
    }

    /// Adds a zeroed allocation of `size` bytes and returns its address.
    pub fn allocate(&mut self, size: u32) -> (addr: u32)
        requires
            old(self).wf(),
            old(self).null_segment_size <= old(self).bytes@.len(),
            old(self).bytes@.len() + size <= u32::MAX,
        ensures
            final(self).wf(),
            addr == old(self).bytes@.len(),
            final(self).bytes@ == old(self).bytes@ + Seq::new(size as nat, |i: int| 0u8),
            final(self).null_segment_size == old(self).null_segment_size,
            final(self).allocations@ == old(self).allocations@.push((addr, size)),
            final(self).mapped(addr as int, size as int),
    {
        let addr: u32 = self.bytes.len() as u32;
        let ghost before = self.bytes@;
        let end: usize = self.bytes.len() + size as usize;
        self.bytes.resize(end, 0);
        assert(self.bytes@ =~= before + Seq::new(size as nat, |i: int| 0u8));
        self.allocations.push((addr, size));
        addr
    }

    /// Adds an allocation of `size` bytes that starts with `content` and is zero
    /// behind it.
    pub fn allocate_with(&mut self, content: &Vec<u8>, size: u32) -> (addr: u32)
        requires
            old(self).wf(),
            old(self).null_segment_size <= old(self).bytes@.len(),
            content@.len() <= size,
            old(self).bytes@.len() + size <= u32::MAX,
        ensures
            final(self).wf(),
            addr == old(self).bytes@.len(),
            final(self).bytes@ == old(self).bytes@ + padded_with_zeros(content@, size as nat),
            final(self).null_segment_size == old(self).null_segment_size,
            final(self).allocations@ == old(self).allocations@.push((addr, size)),
            final(self).mapped(addr as int, size as int),
    {
        let addr: u32 = self.allocate(size);
        self.write_bytes(addr, content);
        assert(self.bytes@ =~= old(self).bytes@ + padded_with_zeros(content@, size as nat));
        addr
    }

    /// Moves an allocation to a new place with another size: it starts with what
    /// the first `kept` bytes held and is zero behind them.
    pub fn reallocate(&mut self, addr: u32, kept: u32, size: u32) -> (moved: u32)
        requires
            old(self).wf(),
            old(self).null_segment_size <= old(self).bytes@.len(),
            kept <= size,
            kept == 0 || old(self).mapped(addr as int, kept as int),
            old(self).bytes@.len() + size <= u32::MAX,
        ensures
            final(self).wf(),
            moved == old(self).bytes@.len(),
            final(self).bytes@ == old(self).bytes@ + padded_with_zeros(
                old(self).content(addr, kept),
                size as nat,
            ),
            final(self).null_segment_size == old(self).null_segment_size,
            final(self).allocations@ == old(self).allocations@.push((moved, size)).filter(
                is_elsewhere(addr),
            ),
            final(self).mapped(moved as int, size as int),
    {
        let content = self.read_content(addr, kept);
        let moved: u32 = self.allocate_with(&content, size);
        self.free(addr);
        moved
    }

    /// The bytes at an address; no bytes can be anywhere.
    pub open spec fn content(&self, addr: u32, len: u32) -> Seq<u8> {
        if len == 0 {
            Seq::empty()
        } else {
            self.span(addr as int, len as int)
        }
    }

    /// A copy of the bytes at an address; no bytes can be anywhere.
    pub fn read_content(&self, addr: u32, len: u32) -> (bytes: Vec<u8>)
        requires
            self.wf(),
            len == 0 || self.mapped(addr as int, len as int),
        ensures
            bytes@ == self.content(addr, len),
            bytes@.len() == len,
    {
        if len == 0 {
            let none: Vec<u8> = Vec::new();
            assert(none@ =~= Seq::empty());
            none
        } else {
            self.bytes_at(addr, len)
        }
    }

    /// Forgets the allocation at `addr`, if there is one.
    pub fn free(&mut self, addr: u32)
        requires
            old(self).wf(),
        ensures
            final(self).wf(),
            final(self).bytes@ == old(self).bytes@,
            final(self).null_segment_size == old(self).null_segment_size,
            final(self).allocations@ == old(self).allocations@.filter(is_elsewhere(addr)),
    {
        let mut kept: Vec<(u32, u32)> = Vec::new();
        let mut i: usize = 0;
        let ghost keep = is_elsewhere(addr);
        assert(self.allocations@.take(0).filter(keep) =~= Seq::empty()) by {
            reveal(Seq::filter);
        }
        while i < self.allocations.len()
            invariant
                i <= self.allocations@.len(),
                *self == *old(self),
                keep == is_elsewhere(addr),
                kept@ == self.allocations@.take(i as int).filter(keep),
            decreases self.allocations@.len() - i,
        {
            let a: (u32, u32) = self.allocations[i];
            proof {
                reveal(Seq::filter);
                let t = self.allocations@.take(i + 1);
                assert(t.drop_last() =~= self.allocations@.take(i as int));
                assert(t.last() == a);
            }
            if a.0 != addr {
                kept.push(a);
            }
            i = i + 1;
        }
        assert(self.allocations@.take(i as int) =~= self.allocations@);
        self.allocations = kept;
    }
}

/// The content with zeros behind it up to `size` bytes.
pub open spec fn padded_with_zeros(content: Seq<u8>, size: nat) -> Seq<u8> {
    content + Seq::new((size - content.len()) as nat, |i: int| 0u8)
}

/// The `n` lowest bytes of `v`, lowest first.
pub open spec fn le_bytes(v: int, n: nat) -> Seq<u8>
    decreases n,
{
    if n == 0 {
        Seq::empty()
    } else {
        seq![(v % 256) as u8] + le_bytes(v / 256, (n - 1) as nat)
    }
}

/// The bytes of a word, lowest first.
pub fn u32_le_bytes(v: u32) -> (bytes: Vec<u8>)
    ensures
        bytes@ == le_bytes(v as int, 4),
        bytes@.len() == 4,
{
    let mut out: Vec<u8> = Vec::new();
    out.push((v % 256) as u8);
    out.push((v / 256 % 256) as u8);
    out.push((v / 0x1_0000 % 256) as u8);
    out.push((v / 0x100_0000 % 256) as u8);
    proof {
        reveal_with_fuel(le_bytes, 5);
        assert(out@ =~= le_bytes(v as int, 4));
    }
    out
}

/// The bytes of a halfword, lowest first.
pub fn u16_le_bytes(v: u16) -> (bytes: Vec<u8>)
    ensures
        bytes@ == le_bytes(v as int, 2),
        bytes@.len() == 2,
{
    let mut out: Vec<u8> = Vec::new();
    out.push((v % 256) as u8);
    out.push((v / 256) as u8);
    proof {
        reveal_with_fuel(le_bytes, 3);
        assert(out@ =~= le_bytes(v as int, 2));
    }
    out
}

/// Reading the bytes of a number gives the number back.
pub proof fn law_le_round_trip(v: int, n: nat)
    requires
        0 <= v < vstd::arithmetic::power::pow(256, n),
    ensures
        le_bytes(v, n).len() == n,
        le_value(le_bytes(v, n)) == v,
    decreases n,
{
    if n == 0 {
        vstd::arithmetic::power::lemma_pow0(256);
    } else {
        let m = (n - 1) as nat;
        vstd::arithmetic::power::lemma_pow_adds(256, 1, m);
        vstd::arithmetic::power::lemma_pow1(256);
        let p = vstd::arithmetic::power::pow(256, m);
        assert(v / 256 < p) by (nonlinear_arith)
            requires
                v < 256 * p,
        ;
        law_le_round_trip(v / 256, m);
        assert(le_bytes(v, n).drop_first() =~= le_bytes(v / 256, m));
    }
}

/// A 32-bit word that was written to guest memory is read back unchanged, and
/// no byte outside of it changes.
pub proof fn law_write_read_u32(before: Mem, after: Mem, addr: u32, v: u32)
    requires
        before.mapped(addr as int, 4),
        after.is_written(&before, addr as int, le_bytes(v as int, 4)),
    ensures
        after.mapped(addr as int, 4),
        le_value(after.span(addr as int, 4)) == v,
        forall|i: int|
            0 <= i < before.bytes@.len() && !(addr <= i < addr + 4) ==> after.bytes@[i]
                == before.bytes@[i],
{
    reveal_with_fuel(vstd::arithmetic::power::pow, 5);
    law_le_round_trip(v as int, 4);
    assert(after.span(addr as int, 4) =~= le_bytes(v as int, 4));
}

/// The first byte of a number is its lowest.
pub proof fn law_little_endian(a: u8, b: u8, c: u8, d: u8)
    ensures
        le_value(seq![a, b]) == a + 0x100 * b,
        le_value(seq![a, b, c, d]) == a + 0x100 * b + 0x1_0000 * c + 0x100_0000 * d,
{
    assert(seq![a, b].drop_first() =~= seq![b]);
    assert(seq![b].drop_first() =~= Seq::<u8>::empty());
    assert(seq![a, b, c, d].drop_first() =~= seq![b, c, d]);
    assert(seq![b, c, d].drop_first() =~= seq![c, d]);
    assert(seq![c, d].drop_first() =~= seq![d]);
    assert(seq![d].drop_first() =~= Seq::<u8>::empty());
    reveal_with_fuel(le_value, 5);
}

/// What is padded begins with its content, has the size asked for, and zeros behind.
pub proof fn law_padded_with_zeros(content: Seq<u8>, size: nat, i: int)
    requires
        content.len() <= size,
        0 <= i < size,
    ensures
        padded_with_zeros(content, size).len() == size,
        padded_with_zeros(content, size)[i] == if i < content.len() {
            content[i]
        } else {
            0
        },
{
}

/// A text in memory goes on up to the first zero, so that it has one length only, and an
/// address that holds a zero is an empty text.
pub proof fn law_text_length(mem: Mem, addr: int, len: int, other: int)
    ensures
        mem.mapped(addr, 1) && mem.bytes@[addr] == 0 ==> mem.ends_after(addr, 0),
        mem.ends_after(addr, len) && mem.ends_after(addr, other) ==> len == other,
        mem.ends_after(addr, len) ==> mem.bytes@[addr + len] == 0 && mem.mapped(addr, len + 1),
        mem.ends_after(addr, len) && 0 <= other < len ==> mem.bytes@[addr + other] != 0,
{
    if mem.ends_after(addr, len) && mem.ends_after(addr, other) {
        if len < other {
            assert(mem.bytes@[addr + len] != 0);
        } else if other < len {
            assert(mem.bytes@[addr + other] != 0);
        }
    }
    if mem.ends_after(addr, len) && 0 <= other < len {
        assert(mem.bytes@[addr + other] != 0);
    }
}

} // verus!
