//! Guest memory.
//!
//! The guest address space is a flat byte array. Address 0 is the null
//! pointer; the first few bytes are never handed out, so no allocation can
//! return null. Allocation is a bump allocator: memory only grows, and a
//! freed block is forgotten by the allocator but its bytes stay readable.
use vstd::prelude::*;

verus! {

/// A guest address.
pub type GuestUSize = u32;

/// Number of bytes at the start of the address space that are never
/// allocated (so that 0 can serve as the null pointer).
pub const NULL_PAGE_SIZE: u32 = 4;

pub struct Mem {
    bytes: Vec<u8>,
    live: Vec<u32>,
}

impl View for Mem {
    type V = Seq<u8>;

    closed spec fn view(&self) -> Seq<u8> {
        self.bytes@
    }
}

/// The bytes of a NUL-terminated string starting at `ptr`, when the
/// terminator is found within memory.
pub open spec fn is_cstr_at(mem: Seq<u8>, ptr: int, n: int) -> bool {
    &&& 0 <= ptr
    &&& 0 <= n
    &&& ptr + n < mem.len()
    &&& mem[ptr + n] == 0
    &&& forall|j: int| ptr <= j < ptr + n ==> mem[j] != 0
}

pub open spec fn has_cstr_at(mem: Seq<u8>, ptr: int) -> bool {
    exists|n: int| is_cstr_at(mem, ptr, n)
}

pub open spec fn cstr_len(mem: Seq<u8>, ptr: int) -> int {
    choose|n: int| is_cstr_at(mem, ptr, n)
}

/// The string at `ptr`, without its terminator.
pub open spec fn cstr_at(mem: Seq<u8>, ptr: int) -> Seq<u8> {
    mem.subrange(ptr, ptr + cstr_len(mem, ptr))
}

pub proof fn lemma_cstr_len_unique(mem: Seq<u8>, ptr: int, n: int)
    requires
        is_cstr_at(mem, ptr, n),
    ensures
        has_cstr_at(mem, ptr),
        cstr_len(mem, ptr) == n,
{
    let m = cstr_len(mem, ptr);
    assert(is_cstr_at(mem, ptr, m));
    if m < n {
        assert(mem[ptr + m] != 0);
    } else if n < m {
        assert(mem[ptr + n] != 0);
    }
}

/// `new` is `old` with `data` written at `ptr`.
pub open spec fn spliced(old: Seq<u8>, ptr: int, data: Seq<u8>) -> Seq<u8> {
    old.subrange(0, ptr) + data + old.subrange(ptr + data.len(), old.len() as int)
}

impl Mem {
    pub closed spec fn wf(&self) -> bool {
        &&& NULL_PAGE_SIZE <= self.bytes@.len() <= u32::MAX
        &&& forall|i: int, j: int| 0 <= i < j < self.live@.len() ==> self.live@[i] < self.live@[j]
        &&& forall|i: int| 0 <= i < self.live@.len() ==> self.live@[i] < self.bytes@.len()
    }

    /// The base addresses of the blocks that are allocated and not freed.
    pub closed spec fn live_blocks(&self) -> Seq<u32> {
        self.live@
    }

    /// The address space never exceeds 32 bits.
    pub proof fn lemma_len_bound(&self)
        requires
            self.wf(),
        ensures
            self@.len() <= u32::MAX,
    {
    }

    pub open spec fn spec_len(&self) -> int {
        self@.len() as int
    }

    /// Fresh guest memory: only the null page.
    pub fn new() -> (mem: Mem)
        ensures
            mem.wf(),
            mem@ == Seq::new(NULL_PAGE_SIZE as nat, |i: int| 0u8),
            mem.live_blocks() == Seq::<u32>::empty(),
    {
        let mut bytes: Vec<u8> = Vec::new();
        let mut i: u32 = 0;
        while i < NULL_PAGE_SIZE
            invariant
                i <= NULL_PAGE_SIZE,
                bytes@ == Seq::new(i as nat, |j: int| 0u8),
            decreases NULL_PAGE_SIZE - i,
        {
            bytes.push(0);
            i = i + 1;
        }
        Mem { bytes, live: Vec::new() }
    }

    /// Whether `ptr` is the base of a block that is allocated and not freed.
    pub fn is_live_block(&self, ptr: u32) -> (r: bool)
        ensures
            r == self.live_blocks().contains(ptr),
    {
        let mut i: usize = 0;
        while i < self.live.len()
            invariant
                i <= self.live@.len(),
                forall|j: int| 0 <= j < i ==> self.live@[j] != ptr,
            decreases self.live@.len() - i,
        {
            if self.live[i] == ptr {
                assert(self.live@[i as int] == ptr);
                return true;
            }
            i = i + 1;
        }
        false
    }

    /// Size of the address space that is in use.
    pub fn len(&self) -> (n: u32)
        requires
            self.wf(),
        ensures
            n == self@.len(),
    {
        self.bytes.len() as u32
    }

    pub fn read(&self, ptr: u32) -> (b: u8)
        requires
            self.wf(),
            ptr < self@.len(),
        ensures
            b == self@[ptr as int],
    {
        self.bytes[ptr as usize]
    }

    pub fn write(&mut self, ptr: u32, b: u8)
        requires
            old(self).wf(),
            ptr < old(self)@.len(),
        ensures
            final(self)@ == old(self)@.update(ptr as int, b),
            final(self).live_blocks() == old(self).live_blocks(),
            final(self).wf(),
    {
        self.bytes.set(ptr as usize, b);
    }

    /// Reads a little-endian 32-bit word.
    pub fn read_u32(&self, ptr: u32) -> (v: u32)
        requires
            self.wf(),
            ptr + 4 <= self@.len(),
        ensures
            v == le_u32(self@, ptr as int),
    {
        let b0 = self.bytes[ptr as usize] as u32;
        let b1 = self.bytes[ptr as usize + 1] as u32;
        let b2 = self.bytes[ptr as usize + 2] as u32;
        let b3 = self.bytes[ptr as usize + 3] as u32;
        b0 + b1 * 256 + b2 * 65536 + b3 * 16777216
    }

    /// Writes a little-endian 32-bit word.
    pub fn write_u32(&mut self, ptr: u32, v: u32)
        requires
            old(self).wf(),
            ptr + 4 <= old(self)@.len(),
        ensures
            final(self)@ == spliced(old(self)@, ptr as int, u32_le_bytes(v)),
            le_u32(final(self)@, ptr as int) == v,
            final(self).live_blocks() == old(self).live_blocks(),
            final(self).wf(),
    {
        let b0 = (v % 256) as u8;
        let b1 = ((v / 256) % 256) as u8;
        let b2 = ((v / 65536) % 256) as u8;
        let b3 = (v / 16777216) as u8;
        self.bytes.set(ptr as usize, b0);
        self.bytes.set(ptr as usize + 1, b1);
        self.bytes.set(ptr as usize + 2, b2);
        self.bytes.set(ptr as usize + 3, b3);
        assert(final(self)@ =~= spliced(old(self)@, ptr as int, u32_le_bytes(v)));
    }

    /// Allocates `size` zeroed bytes (at least one) and returns their address.
    pub fn allocate(&mut self, size: u32) -> (ptr: u32)
        requires
            old(self).wf(),
            old(self)@.len() + block_size(size) <= u32::MAX,
        ensures
            final(self).wf(),
            ptr == old(self)@.len(),
            ptr != 0,
            final(self)@ == old(self)@ + Seq::new(block_size(size), |i: int| 0u8),
            final(self).live_blocks() == old(self).live_blocks().push(ptr),
    {
        let ptr = self.bytes.len() as u32;
        let n: u32 = if size == 0 { 1 } else { size };
        let mut i: u32 = 0;
        while i < n
            invariant
                i <= n,
                n == block_size(size),
                ptr == old(self)@.len(),
                self.bytes@ == old(self)@ + Seq::new(i as nat, |j: int| 0u8),
                self.live@ == old(self).live@,
            decreases n - i,
        {
            self.bytes.push(0);
            i = i + 1;
            assert(self.bytes@ =~= old(self)@ + Seq::new(i as nat, |j: int| 0u8));
        }
        self.live.push(ptr);
        ptr
    }

    /// Gives a block back to the allocator. Freeing null, or an address that
    /// is not the base of a live block, does nothing. The bytes are left as
    /// they are.
    pub fn free(&mut self, ptr: u32)
        requires
            old(self).wf(),
        ensures
            final(self).wf(),
            final(self)@ == old(self)@,
            final(self).live_blocks().to_set() == old(self).live_blocks().to_set().remove(ptr),
    {
        let mut i: usize = 0;
        while i < self.live.len()
            invariant
                i <= self.live@.len(),
                self.live@ == old(self).live@,
                self.bytes@ == old(self).bytes@,
                old(self).wf(),
                forall|j: int| 0 <= j < i ==> self.live@[j] != ptr,
            decreases self.live@.len() - i,
        {
            if self.live[i] == ptr {
                let ghost before = self.live@;
                self.live.remove(i);
                proof {
                    assert forall|x: u32| self.live@.to_set().contains(x) <==> before.to_set().remove(ptr).contains(x) by {
                        if self.live@.contains(x) {
                            let k = choose|k: int| 0 <= k < self.live@.len() && self.live@[k] == x;
                            if k < i {
                                assert(before[k] == x);
                            } else {
                                assert(before[k + 1] == x);
                            }
                        }
                        if before.contains(x) && x != ptr {
                            let k = choose|k: int| 0 <= k < before.len() && before[k] == x;
                            if k < i {
                                assert(self.live@[k] == x);
                            } else {
                                assert(self.live@[k - 1] == x);
                            }
                        }
                    }
                    assert(self.live@.to_set() =~= before.to_set().remove(ptr));
                }
                return;
            }
            i = i + 1;
        }
        proof {
            assert(!old(self).live@.contains(ptr));
            assert(old(self).live@.to_set() =~= old(self).live@.to_set().remove(ptr));
        }
    }

    /// Copies `len` bytes out of guest memory.
    pub fn bytes_at(&self, ptr: u32, len: u32) -> (v: Vec<u8>)
        requires
            self.wf(),
            ptr + len <= self@.len(),
        ensures
            v@ == self@.subrange(ptr as int, ptr + len),
    {
        let mut v: Vec<u8> = Vec::new();
        let mut i: u32 = 0;
        while i < len
            invariant
                i <= len,
                ptr + len <= self@.len(),
                self.wf(),
                v@ == self@.subrange(ptr as int, ptr + i),
            decreases len - i,
        {
            v.push(self.bytes[(ptr + i) as usize]);
            i = i + 1;
            assert(v@ =~= self@.subrange(ptr as int, ptr + i));
        }
        v
    }

    /// Copies `data` into guest memory at `ptr`.
    pub fn write_bytes(&mut self, ptr: u32, data: &[u8])
        requires
            old(self).wf(),
            ptr + data@.len() <= old(self)@.len(),
        ensures
            final(self)@ == spliced(old(self)@, ptr as int, data@),
            final(self).live_blocks() == old(self).live_blocks(),
            final(self).wf(),
    {
        let mut i: usize = 0;
        while i < data.len()
            invariant
                i <= data@.len(),
                ptr + data@.len() <= old(self)@.len(),
                old(self).wf(),
                self.bytes@ == spliced(old(self)@, ptr as int, data@.subrange(0, i as int)),
                self.live@ == old(self).live@,
            decreases data@.len() - i,
        {
            self.bytes.set(ptr as usize + i, data[i]);
            i = i + 1;
            assert(self.bytes@ =~= spliced(old(self)@, ptr as int, data@.subrange(0, i as int)));
        }
        assert(data@.subrange(0, data@.len() as int) =~= data@);
    }

    /// Whether a NUL-terminated string starts at `ptr`: a zero byte lies at
    /// or after it within memory.
    pub fn has_cstr(&self, ptr: u32) -> (r: bool)
        requires
            self.wf(),
        ensures
            r == has_cstr_at(self@, ptr as int),
    {
        let len = self.len();
        let mut p: u32 = ptr;
        while p < len
            invariant
                self.wf(),
                len == self@.len(),
                ptr <= p,
                forall|j: int| ptr <= j < p ==> self@[j] != 0,
            decreases len - p,
        {
            if self.read(p) == 0 {
                assert(is_cstr_at(self@, ptr as int, p - ptr));
                return true;
            }
            p = p + 1;
        }
        proof {
            if has_cstr_at(self@, ptr as int) {
                let n = choose|n: int| is_cstr_at(self@, ptr as int, n);
                assert(self@[ptr + n] == 0);
            }
        }
        false
    }

    /// Reads the NUL-terminated string at `ptr` (without the terminator).
    pub fn cstr_at(&self, ptr: u32) -> (v: Vec<u8>)
        requires
            self.wf(),
            has_cstr_at(self@, ptr as int),
        ensures
            v@ == cstr_at(self@, ptr as int),
    {
        let ghost n = cstr_len(self@, ptr as int);
        let mut v: Vec<u8> = Vec::new();
        let mut off: usize = 0;
        while self.bytes[ptr as usize + off] != 0
            invariant
                is_cstr_at(self@, ptr as int, n),
                self.wf(),
                0 <= off <= n,
                v@ == self@.subrange(ptr as int, ptr + off),
            decreases n - off,
        {
            v.push(self.bytes[ptr as usize + off]);
            off = off + 1;
            assert(v@ =~= self@.subrange(ptr as int, ptr + off));
        }
        v
    }

    /// Allocates a block holding `s` followed by a NUL terminator.
    pub fn alloc_and_write_cstr(&mut self, s: &[u8]) -> (ptr: u32)
        requires
            old(self).wf(),
            old(self)@.len() + s@.len() + 1 <= u32::MAX,
        ensures
            final(self).wf(),
            ptr == old(self)@.len(),
            ptr != 0,
            final(self)@ == old(self)@ + s@ + seq![0u8],
            final(self).live_blocks() == old(self).live_blocks().push(ptr),
    {
        let len = s.len() as u32;
        let ptr = self.allocate(len + 1);
        self.write_bytes(ptr, s);
        assert(self@ =~= old(self)@ + s@ + seq![0u8]);
        ptr
    }
}

pub open spec fn block_size(size: u32) -> nat {
    if size == 0 {
        1
    } else {
        size as nat
    }
}

pub open spec fn le_u32(mem: Seq<u8>, ptr: int) -> int {
    mem[ptr] + mem[ptr + 1] * 256 + mem[ptr + 2] * 65536 + mem[ptr + 3] * 16777216
}

pub open spec fn u32_le_bytes(v: u32) -> Seq<u8> {
    seq![(v % 256) as u8, ((v / 256) % 256) as u8, ((v / 65536) % 256) as u8, (v / 16777216) as u8]
}

} // verus!
