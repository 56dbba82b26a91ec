//! The growing machine-code buffer and its stack of open loop branches.
use vstd::prelude::*;

verus! {

/// The four little-endian bytes of `v`.
pub open spec fn le32(v: u32) -> Seq<u8> {
    seq![
        (v % 0x100) as u8,
        ((v / 0x100) % 0x100) as u8,
        ((v / 0x1_0000) % 0x100) as u8,
        ((v / 0x100_0000) % 0x100) as u8,
    ]
}

/// The eight little-endian bytes of `v`.
pub open spec fn le64(v: u64) -> Seq<u8> {
    le32((v % 0x1_0000_0000) as u32) + le32((v / 0x1_0000_0000) as u32)
}

/// `s` with the bytes from `index` on overwritten by `bytes`, as far as `s`
/// reaches; the length of `s` is kept.
pub open spec fn overwrite(s: Seq<u8>, index: int, bytes: Seq<u8>) -> Seq<u8> {
    Seq::new(
        s.len(),
        |p: int|
            if index <= p < index + bytes.len() {
                bytes[p - index]
            } else {
                s[p]
            },
    )
}

/// Machine code under construction, with the buffer offsets of the loop
/// branches that still wait for their closing bracket.
pub struct Buff {
    pub data: Vec<u8>,
    pub jmp_stack: Vec<usize>,
}

impl Buff {
    /// An empty buffer with no open loops.
    pub fn new() -> (r: Buff)
        ensures
            r.data@ == Seq::<u8>::empty(),
            r.jmp_stack@ == Seq::<usize>::empty(),
    {
        Buff { data: Vec::new(), jmp_stack: Vec::new() }
    }

    /// Appends one byte.
    pub fn push(&mut self, v: u8)
        ensures
            final(self).data@ == old(self).data@.push(v),
            final(self).jmp_stack@ == old(self).jmp_stack@,
    {
        self.data.push(v);
    }

    /// Appends every byte of `vec`, in order.
    pub fn append(&mut self, vec: Vec<u8>)
        ensures
            final(self).data@ == old(self).data@ + vec@,
            final(self).jmp_stack@ == old(self).jmp_stack@,
    {
        let mut i: usize = 0;
        while i < vec.len()
            invariant
                i <= vec@.len(),
                self.data@ == old(self).data@ + vec@.subrange(0, i as int),
                self.jmp_stack@ == old(self).jmp_stack@,
            decreases vec@.len() - i,
        {
            self.push(vec[i]);
            proof {
                assert(vec@.subrange(0, i + 1) =~= vec@.subrange(0, i as int).push(vec@[i as int]));
            }
            i = i + 1;
        }
        proof {
            assert(vec@.subrange(0, vec@.len() as int) =~= vec@);
        }
    }

    /// Records the offset of a loop branch that waits for its closing bracket.
    pub fn stack(&mut self, v: usize)
        ensures
            final(self).jmp_stack@ == old(self).jmp_stack@.push(v),
            final(self).data@ == old(self).data@,
    {
        self.jmp_stack.push(v);
    }

    /// The number of bytes emitted so far.
    pub fn len(&self) -> (r: usize)
        ensures
            r == self.data@.len(),
    {
        self.data.len()
    }

    /// Appends `value` as four little-endian bytes.
    pub fn u32(&mut self, value: u32)
        ensures
            final(self).data@ == old(self).data@ + le32(value),
            final(self).jmp_stack@ == old(self).jmp_stack@,
    {
        let b0: u8 = (value & 0xff) as u8;
        let b1: u8 = ((value >> 8u32) & 0xff) as u8;
        let b2: u8 = ((value >> 16u32) & 0xff) as u8;
        let b3: u8 = ((value >> 24u32) & 0xff) as u8;
        proof {
            assert(b0 == value % 0x100 && b1 == (value / 0x100) % 0x100 && b2 == (value / 0x1_0000)
                % 0x100 && b3 == (value / 0x100_0000) % 0x100) by (bit_vector)
                requires
                    b0 == (value & 0xff) as u8,
                    b1 == ((value >> 8u32) & 0xff) as u8,
                    b2 == ((value >> 16u32) & 0xff) as u8,
                    b3 == ((value >> 24u32) & 0xff) as u8,
            ;
        }
        self.data.push(b0);
        self.data.push(b1);
        self.data.push(b2);
        self.data.push(b3);
        proof {
            assert(self.data@ =~= old(self).data@ + le32(value));
        }
    }

    /// Appends `value` as eight little-endian bytes.
    pub fn u64(&mut self, value: u64)
        ensures
            final(self).data@ == old(self).data@ + le64(value),
            final(self).jmp_stack@ == old(self).jmp_stack@,
    {
        let lo: u32 = #[verifier::truncate] ((value & 0xffff_ffff) as u32);
        let hi: u32 = #[verifier::truncate] ((value >> 32u64) as u32);
        proof {
            assert(lo == value % 0x1_0000_0000 && hi == value / 0x1_0000_0000) by (bit_vector)
                requires
                    lo == (value & 0xffff_ffff) as u32,
                    hi == (value >> 32u64) as u32,
            ;
        }
        self.u32(lo);
        self.u32(hi);
        proof {
            assert(self.data@ =~= old(self).data@ + le64(value));
        }
    }

    /// Overwrites the eight bytes from `index` on with `value`, little-endian.
    pub fn replace_u64(&mut self, value: u64, index: usize)
        requires
            index + 8 <= old(self).data@.len(),
        ensures
            final(self).data@ == overwrite(old(self).data@, index as int, le64(value)),
            final(self).jmp_stack@ == old(self).jmp_stack@,
    {
        let lo: u32 = #[verifier::truncate] ((value & 0xffff_ffff) as u32);
        let hi: u32 = #[verifier::truncate] ((value >> 32u64) as u32);
        proof {
            assert(lo == value % 0x1_0000_0000 && hi == value / 0x1_0000_0000) by (bit_vector)
                requires
                    lo == (value & 0xffff_ffff) as u32,
                    hi == (value >> 32u64) as u32,
            ;
        }
        let ghost bytes = le64(value);
        let ghost a = le32(lo);
        let ghost b = le32(hi);
        proof {
            assert(bytes =~= a + b);
        }
        let n: usize = self.data.len();
        self.replace_u32(lo, index);
        self.replace_u32(hi, index + 4);
        proof {
            let s0 = old(self).data@;
            assert forall|p: int| 0 <= p < s0.len() implies #[trigger] self.data@[p] == overwrite(
                s0,
                index as int,
                bytes,
            )[p] by {
                if index <= p < index + 4 {
                    assert(bytes[p - index] == a[p - index]);
                } else if index + 4 <= p < index + 8 {
                    assert(bytes[p - index] == b[p - index - 4]);
                }
            }
            assert(self.data@ =~= overwrite(s0, index as int, bytes));
        }
    }

    /// Overwrites the four bytes from `index` on with `value`, little-endian;
    /// bytes that would fall past the end of the buffer are left out.
    pub fn replace_u32(&mut self, value: u32, index: usize)
        ensures
            final(self).data@ == overwrite(old(self).data@, index as int, le32(value)),
            final(self).jmp_stack@ == old(self).jmp_stack@,
    {
        let bytes: [u8; 4] = [
            (value & 0xff) as u8,
            ((value >> 8u32) & 0xff) as u8,
            ((value >> 16u32) & 0xff) as u8,
            ((value >> 24u32) & 0xff) as u8,
        ];
        proof {
            let b0 = bytes@[0];
            let b1 = bytes@[1];
            let b2 = bytes@[2];
            let b3 = bytes@[3];
            assert(b0 == value % 0x100 && b1 == (value / 0x100) % 0x100 && b2 == (value / 0x1_0000)
                % 0x100 && b3 == (value / 0x100_0000) % 0x100) by (bit_vector)
                requires
                    b0 == (value & 0xff) as u8,
                    b1 == ((value >> 8u32) & 0xff) as u8,
                    b2 == ((value >> 16u32) & 0xff) as u8,
                    b3 == ((value >> 24u32) & 0xff) as u8,
            ;
            assert(bytes@ =~= le32(value));
        }
        let len: usize = self.data.len();
        let mut i: usize = 0;
        while i < 4
            invariant
                i <= 4,
                len == old(self).data@.len(),
                bytes@ == le32(value),
                self.jmp_stack@ == old(self).jmp_stack@,
                self.data@ =~= overwrite(old(self).data@, index as int, le32(value).subrange(0, i as int)),
            decreases 4 - i,
        {
            if i < len && index < len - i {
                self.data.set(index + i, bytes[i]);
            }
            i = i + 1;
            proof {
                assert(self.data@ =~= overwrite(old(self).data@, index as int, le32(value).subrange(0, i as int)));
            }
        }
        proof {
            assert(le32(value).subrange(0, 4) =~= le32(value));
        }
    }
}

} // verus!
