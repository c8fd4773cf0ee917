//! Main memory: a zero-filled byte buffer mapped at a base address, read and
//! written in little-endian units of 8, 16 or 32 bits.

use vstd::prelude::*;

verus! {

/// `x` rounded up to the next multiple of `align`.
pub open spec fn aligned_up(x: int, align: int) -> int {
    (x + align - 1) / align * align
}

/// The number of bytes moved by an access of `size` bits, or 0 when
/// `size` is not a width that memory supports.
pub open spec fn width_bytes(size: u32) -> nat {
    if size == 8 {
        1
    } else if size == 16 {
        2
    } else if size == 32 {
        4
    } else {
        0
    }
}

/// The unsigned number whose little-endian bytes are `s`.
pub open spec fn le_value(s: Seq<u8>) -> int
    decreases s.len(),
{
    if s.len() == 0 {
        0
    } else {
        s[0] as int + 256 * le_value(s.drop_first())
    }
}

/// The `n` lowest bytes of `v`, lowest first.
pub open spec fn le_bytes(v: int, n: nat) -> Seq<u8>
    decreases n,
{
    if n == 0 {
        Seq::empty()
    } else {
        seq![(v % 256) as u8] + le_bytes(v / 256, (n - 1) as nat)
    }
}

/// The low `size` bits of `value`: `value & ((1 << size) - 1)`.
pub open spec fn low_bits(value: u32, size: u32) -> u32 {
    (value as u64 & (((1u64 << size as u64) - 1) as u64)) as u32
}

/// Why an access was refused.
#[derive(Debug, Clone, Copy, PartialEq, Eq, Structural)]
pub enum DramError {
    /// The access does not lie inside the memory window.
    OutOfRangeAddress { addr: u32 },
    /// The access width, in bits, is not 8, 16 or 32.
    UnsupportedWidth { size: u32 },
}

/// What a memory holds: its base address and its bytes, `bytes[0]` being the
/// byte at `base`.
pub ghost struct DramView {
    pub base: u32,
    pub bytes: Seq<u8>,
}

impl DramView {
    /// The buffer length is a multiple of 4 and fits the 32-bit address space.
    pub open spec fn wf(self) -> bool {
        &&& self.bytes.len() % 4 == 0
        &&& self.bytes.len() <= u32::MAX
    }

    /// `addr` lies in `[base, base + len)`.
    pub open spec fn in_window(self, addr: u32) -> bool {
        self.base <= addr && addr < self.base + self.bytes.len()
    }

    /// The buffer offset of an access of `size` bits at `addr`, or why it is
    /// refused. The address is checked first, then the width; an access that
    /// starts in the window but runs past its end is out of range too.
    pub open spec fn access(self, addr: u32, size: u32) -> Result<int, DramError> {
        if !self.in_window(addr) {
            Err(DramError::OutOfRangeAddress { addr })
        } else if width_bytes(size) == 0 {
            Err(DramError::UnsupportedWidth { size })
        } else if addr - self.base + width_bytes(size) > self.bytes.len() {
            Err(DramError::OutOfRangeAddress { addr })
        } else {
            Ok(addr - self.base)
        }
    }

    /// What a load of `size` bits at `addr` returns.
    pub open spec fn load(self, addr: u32, size: u32) -> Result<u32, DramError> {
        match self.access(addr, size) {
            Ok(off) => Ok(
                le_value(self.bytes.subrange(off, off + width_bytes(size))) as u32,
            ),
            Err(e) => Err(e),
        }
    }

    /// The memory after a store of the low `size` bits of `value` at `addr`,
    /// or why the store is refused.
    pub open spec fn store(self, addr: u32, value: u32, size: u32) -> Result<DramView, DramError> {
        match self.access(addr, size) {
            Ok(off) => Ok(
                DramView {
                    base: self.base,
                    bytes: self.bytes.subrange(0, off) + le_bytes(value as int, width_bytes(size))
                        + self.bytes.subrange(off + width_bytes(size), self.bytes.len() as int),
                },
            ),
            Err(e) => Err(e),
        }
    }

    /// The memory after a store call: the new memory when the store is
    /// accepted, the same memory when it is refused.
    pub open spec fn after_store(self, addr: u32, value: u32, size: u32) -> DramView {
        match self.store(addr, value, size) {
            Ok(m) => m,
            Err(_) => self,
        }
    }
}

/// A memory window: a byte buffer whose first byte sits at address `base`.
pub struct DRAM {
    data: Vec<u8>,
    base: u32,
}

impl View for DRAM {
    type V = DramView;

    closed spec fn view(&self) -> DramView {
        DramView { base: self.base, bytes: self.data@ }
    }
}

impl DRAM {
    fn align_up(x: u32, align: u32) -> (r: u32)
        requires
            align > 0,
            x + align - 1 <= u32::MAX,
        ensures
            r == aligned_up(x as int, align as int),
            x <= r,
            r % align == 0,
    {
        proof {
            let a = align as int;
            let t = x as int + a - 1;
            assert(t / a * a <= t) by (nonlinear_arith)
                requires a > 0, t >= 0;
            assert(x <= t / a * a) by (nonlinear_arith)
                requires a > 0, t == x + a - 1, x >= 0;
            assert((t / a * a) % a == 0) by (nonlinear_arith)
                requires a > 0, t >= 0;
        }
        (x + (align - 1)) / align * align
    }

    /// A memory at `base` of `size` bytes rounded up to a multiple of 4,
    /// holding `data` at its start and zeros after it. An image larger than
    /// the memory is a configuration error that the caller rules out.
    pub fn new(data: &[u8], base: u32, size: u32) -> (r: DRAM)
        requires
            size <= u32::MAX - 3,
            data@.len() <= aligned_up(size as int, 4),
        ensures
            r@.wf(),
            r@.base == base,
            r@.bytes.len() == aligned_up(size as int, 4),
            r@.bytes == data@ + Seq::new(
                (aligned_up(size as int, 4) - data@.len()) as nat,
                |i: int| 0u8,
            ),
            forall|i: int| data@.len() <= i < r@.bytes.len() ==> r@.bytes[i] == 0u8,
    {
        let len = DRAM::align_up(size, 4) as usize;
        let mut buf: Vec<u8> = Vec::new();
        let mut i: usize = 0;
        while i < len
            invariant
                i <= len,
                len == aligned_up(size as int, 4),
                data@.len() <= len,
                buf@.len() == i,
                forall|j: int| 0 <= j < i ==> buf@[j] == if j < data@.len() {
                    data@[j]
                } else {
                    0u8
                },
            decreases len - i,
        {
            if i < data.len() {
                buf.push(data[i]);
            } else {
                buf.push(0);
            }
            i += 1;
        }
        let dram = DRAM { data: buf, base };
        assert(dram@.bytes =~= data@ + Seq::new((len - data@.len()) as nat, |i: int| 0u8));
        dram
    }

    /// As `new`, but a configuration that does not fit (an image larger than
    /// the rounded size, or a size whose rounding leaves 32 bits) gives `None`.
    pub fn try_new(data: &[u8], base: u32, size: u32) -> (r: Option<DRAM>)
        ensures
            match r {
                Some(m) => {
                    &&& size <= u32::MAX - 3
                    &&& data@.len() <= aligned_up(size as int, 4)
                    &&& m@.wf()
                    &&& m@.base == base
                    &&& m@.bytes == data@ + Seq::new(
                        (aligned_up(size as int, 4) - data@.len()) as nat,
                        |i: int| 0u8,
                    )
                },
                None => size > u32::MAX - 3 || data@.len() > aligned_up(size as int, 4),
            },
    {
        if size > u32::MAX - 3 || data.len() > DRAM::align_up(size, 4) as usize {
            None
        } else {
            Some(DRAM::new(data, base, size))
        }
    }

    /// The buffer offset of an access of `size` bits at `addr`; checks the
    /// address and the width before any byte is touched.
    fn check_access(&self, addr: u32, size: u32) -> (r: Result<usize, DramError>)
        ensures
            match r {
                Ok(off) => self@.access(addr, size) == Ok::<int, DramError>(off as int),
                Err(e) => self@.access(addr, size) == Err::<int, DramError>(e),
            },
    {
        let len = self.data.len();
        if addr < self.base || (addr - self.base) as usize >= len {
            return Err(DramError::OutOfRangeAddress { addr });
        }
        let n: usize = if size == 8 {
            1
        } else if size == 16 {
            2
        } else if size == 32 {
            4
        } else {
            return Err(DramError::UnsupportedWidth { size });
        };
        let off = (addr - self.base) as usize;
        if n > len - off {
            Err(DramError::OutOfRangeAddress { addr })
        } else {
            Ok(off)
        }
    }

    /// Reads `size` bits at `addr`, lowest byte first; the bits above the
    /// width are zero.
    pub fn load(&self, addr: u32, size: u32) -> (r: Result<u32, DramError>)
        ensures
            r == self@.load(addr, size),
            r matches Ok(v) ==> v == low_bits(v, size),
    {
        let off = match self.check_access(addr, size) {
            Ok(off) => off,
            Err(e) => return Err(e),
        };
        assert(off + width_bytes(size) <= self.data.len());
        let ghost s = self.data@.subrange(off as int, off + width_bytes(size));
        proof {
            lemma_le_value_small(s);
        }
        if size == 8 {
            let data = self.data[off] as u32;
            assert(data == low_bits(data, 8)) by (bit_vector)
                requires
                    data <= 0xff,
            ;
            Ok(data)
        } else if size == 16 {
            let b0 = self.data[off];
            let b1 = self.data[off + 1];
            let data = (b0 as u32) | ((b1 as u32) << 8);
            assert(data == b0 + 256 * b1) by (bit_vector)
                requires
                    data == (b0 as u32) | ((b1 as u32) << 8u32),
            ;
            assert(data == low_bits(data, 16)) by (bit_vector)
                requires
                    data == (b0 as u32) | ((b1 as u32) << 8u32),
            ;
            Ok(data)
        } else {
            let b0 = self.data[off];
            let b1 = self.data[off + 1];
            let b2 = self.data[off + 2];
            let b3 = self.data[off + 3];
            let data = (b0 as u32) | ((b1 as u32) << 8) | ((b2 as u32) << 16) | ((b3 as u32) << 24);
            assert(data == low_bits(data, 32)) by (bit_vector);
            assert(data == b0 + 256 * b1 + 65536 * b2 + 16777216 * b3) by (bit_vector)
                requires
                    data == (b0 as u32) | ((b1 as u32) << 8u32) | ((b2 as u32) << 16u32) | ((
                    b3 as u32) << 24u32),
            ;
            Ok(data)
        }
    }

    /// Writes the low `size` bits of `data` at `addr`, lowest byte first.
    /// A refused store writes nothing.
    pub fn store(&mut self, addr: u32, data: u32, size: u32) -> (r: Result<(), DramError>)
        ensures
            final(self)@ == old(self)@.after_store(addr, data, size),
            final(self)@.base == old(self)@.base,
            final(self)@.bytes.len() == old(self)@.bytes.len(),
            match old(self)@.store(addr, data, size) {
                Ok(_) => r == Ok::<(), DramError>(()),
                Err(e) => r == Err::<(), DramError>(e),
            },
    {
        let off = match self.check_access(addr, size) {
            Ok(off) => off,
            Err(e) => return Err(e),
        };
        proof {
            lemma_le_bytes_u32(data);
        }
        assert(off + width_bytes(size) <= self.data.len());
        let ghost pre = self.data@;
        if size == 8 {
            self.data.set(off, #[verifier::truncate] (data as u8));
        } else if size == 16 {
            self.data.set(off, #[verifier::truncate] (data as u8));
            self.data.set(off + 1, #[verifier::truncate] ((data >> 8) as u8));
        } else {
            self.data.set(off, #[verifier::truncate] (data as u8));
            self.data.set(off + 1, #[verifier::truncate] ((data >> 8) as u8));
            self.data.set(off + 2, #[verifier::truncate] ((data >> 16) as u8));
            self.data.set(off + 3, #[verifier::truncate] ((data >> 24) as u8));
        }
        let ghost n = width_bytes(size);
        assert(self.data@ =~= pre.subrange(0, off as int) + le_bytes(data as int, n)
            + pre.subrange(off + n, pre.len() as int));
        Ok(())
    }
}

/// The bytes that a store writes, written with shifts as the hardware does.
proof fn lemma_le_bytes_u32(v: u32)
    ensures
        le_bytes(v as int, 1) == seq![v as u8],
        le_bytes(v as int, 2) == seq![v as u8, (v >> 8u32) as u8],
        le_bytes(v as int, 4) == seq![
            v as u8,
            (v >> 8u32) as u8,
            (v >> 16u32) as u8,
            (v >> 24u32) as u8,
        ],
{
    reveal_with_fuel(le_bytes, 5);
    assert((v % 256) as u8 == v as u8) by (bit_vector);
    assert(((v / 256) % 256) as u8 == (v >> 8u32) as u8) by (bit_vector);
    assert(((v / 256 / 256) % 256) as u8 == (v >> 16u32) as u8) by (bit_vector);
    assert(((v / 256 / 256 / 256) % 256) as u8 == (v >> 24u32) as u8) by (bit_vector);
    assert(le_bytes(v as int, 1) =~= seq![v as u8]);
    assert(le_bytes(v as int, 2) =~= seq![v as u8, (v >> 8u32) as u8]);
    assert(le_bytes(v as int, 4) =~= seq![
        v as u8,
        (v >> 8u32) as u8,
        (v >> 16u32) as u8,
        (v >> 24u32) as u8,
    ]);
}

/// The value of one, two or four little-endian bytes, written out.
proof fn lemma_le_value_small(s: Seq<u8>)
    ensures
        s.len() == 1 ==> le_value(s) == s[0] as int,
        s.len() == 2 ==> le_value(s) == s[0] + 256 * s[1],
        s.len() == 4 ==> le_value(s) == s[0] + 256 * s[1] + 65536 * s[2] + 16777216 * s[3],
{
    reveal_with_fuel(le_value, 5);
    if s.len() >= 1 {
        let s1 = s.drop_first();
        if s1.len() >= 1 {
            let s2 = s1.drop_first();
            assert(s1[0] == s[1]);
            if s2.len() >= 1 {
                let s3 = s2.drop_first();
                assert(s2[0] == s[2]);
                if s3.len() >= 1 {
                    assert(s3[0] == s[3]);
                }
            }
        }
    }
}

/// A store followed by a load of the same width at the same address, with the
/// whole access inside the window, reads back the low `size` bits of the value
/// stored.
pub proof fn lemma_store_then_load(m: DramView, addr: u32, value: u32, size: u32)
    requires
        size == 8 || size == 16 || size == 32,
        m.base <= addr,
        addr + width_bytes(size) <= m.base + m.bytes.len(),
    ensures
        m.store(addr, value, size) is Ok,
        m.after_store(addr, value, size).load(addr, size) == Ok::<u32, DramError>(
            low_bits(value, size),
        ),
{
    let off = addr - m.base;
    let n = width_bytes(size);
    let after = m.after_store(addr, value, size);
    lemma_le_bytes_u32(value);
    assert(le_bytes(value as int, n).len() == n);
    assert(after.bytes.subrange(off, off + n) =~= le_bytes(value as int, n));
    lemma_le_value_small(le_bytes(value as int, n));
    let b0 = value as u8;
    let b1 = (value >> 8u32) as u8;
    let b2 = (value >> 16u32) as u8;
    let b3 = (value >> 24u32) as u8;
    if size == 8 {
        assert(b0 == low_bits(value, 8)) by (bit_vector)
            requires
                b0 == value as u8,
        ;
    } else if size == 16 {
        assert(b0 + 256 * b1 == low_bits(value, 16)) by (bit_vector)
            requires
                b0 == value as u8,
                b1 == (value >> 8u32) as u8,
        ;
    } else {
        assert(b0 + 256 * b1 + 65536 * b2 + 16777216 * b3 == low_bits(value, 32)) by (bit_vector)
            requires
                b0 == value as u8,
                b1 == (value >> 8u32) as u8,
                b2 == (value >> 16u32) as u8,
                b3 == (value >> 24u32) as u8,
        ;
    }
}

/// An address outside the window is refused by both load and store, with the
/// address reported, whatever the width.
pub proof fn lemma_outside_window_refused(m: DramView, addr: u32, value: u32, size: u32)
    requires
        !m.in_window(addr),
    ensures
        m.load(addr, size) == Err::<u32, DramError>(DramError::OutOfRangeAddress { addr }),
        m.store(addr, value, size) == Err::<DramView, DramError>(
            DramError::OutOfRangeAddress { addr },
        ),
{
}

/// A width other than 8, 16 or 32 bits at an address inside the window is
/// refused by both load and store, with the width reported.
pub proof fn lemma_unsupported_width_refused(m: DramView, addr: u32, value: u32, size: u32)
    requires
        m.in_window(addr),
        size != 8 && size != 16 && size != 32,
    ensures
        m.load(addr, size) == Err::<u32, DramError>(DramError::UnsupportedWidth { size }),
        m.store(addr, value, size) == Err::<DramView, DramError>(
            DramError::UnsupportedWidth { size },
        ),
{
}

/// Storing the word `0x04030201` puts the bytes 1, 2, 3, 4 at increasing
/// addresses.
pub proof fn lemma_word_byte_order(m: DramView, addr: u32)
    requires
        m.base <= addr,
        addr + 4 <= m.base + m.bytes.len(),
    ensures
        m.after_store(addr, 0x04030201, 32).bytes.subrange(addr - m.base, addr - m.base + 4)
            == seq![0x01u8, 0x02u8, 0x03u8, 0x04u8],
{
    let off = addr - m.base;
    lemma_le_bytes_u32(0x04030201);
    assert((0x04030201u32 >> 8u32) as u8 == 0x02u8) by (bit_vector);
    assert((0x04030201u32 >> 16u32) as u8 == 0x03u8) by (bit_vector);
    assert((0x04030201u32 >> 24u32) as u8 == 0x04u8) by (bit_vector);
    assert(0x04030201u32 as u8 == 0x01u8) by (bit_vector);
    assert(m.after_store(addr, 0x04030201, 32).bytes.subrange(off, off + 4) =~= seq![
        0x01u8,
        0x02u8,
        0x03u8,
        0x04u8,
    ]);
}

/// A refused store changes nothing: every load afterwards returns what it
/// returned before.
pub proof fn lemma_refused_store_keeps_memory(
    m: DramView,
    addr: u32,
    value: u32,
    size: u32,
    at: u32,
    at_size: u32,
)
    requires
        m.store(addr, value, size) is Err,
    ensures
        m.after_store(addr, value, size).load(at, at_size) == m.load(at, at_size),
{
}

} // verus!
