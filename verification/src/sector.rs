//! The unit of device I/O: a buffer of exactly 512 bytes.

use crate::byteorder::{le_u16, le_u32, overlay, u16_le_bytes, u32_le_bytes};
use crate::byteorder::{ReadBytesExt, WriteBytesExt};
use vstd::prelude::*;
use vstd::slice::slice_subrange;
use vstd::std_specs::cmp::PartialEqSpecImpl;

verus! {

/// Number of bytes in one sector.
pub const SECTOR_SIZE: usize = 512;

/// One sector of a block device.
#[derive(Clone, Copy, Debug)]
pub struct Sector(pub [u8; 512]);

impl View for Sector {
    type V = Seq<u8>;

    open spec fn view(&self) -> Seq<u8> {
        self.0@
    }
}

/// 512 zero bytes.
pub open spec fn zero_sector() -> Seq<u8> {
    Seq::new(512, |i: int| 0u8)
}

/// `data` followed by as many zero bytes as it takes to fill a sector.
pub open spec fn zero_padded(data: Seq<u8>) -> Seq<u8> {
    Seq::new(
        512,
        |i: int|
            if i < data.len() {
                data[i]
            } else {
                0u8
            },
    )
}

impl Sector {
    /// A sector whose bytes are all zero.
    pub fn zeroed() -> (s: Sector)
        ensures
            s@ == zero_sector(),
    {
        let s = Sector([0u8;512]);
        assert(s@ =~= zero_sector());
        s
    }

    /// A sector that starts with `data` and is zero behind it.
    pub fn from_slice(data: &[u8]) -> (s: Sector)
        requires
            data@.len() <= 512,
        ensures
            s@ == zero_padded(data@),
    {
        let mut buf = [0u8;512];
        let mut i: usize = 0;
        while i < data.len()
            invariant
                i <= data@.len() <= 512,
                forall|j: int| 0 <= j < i ==> buf@[j] == data@[j],
                forall|j: int| i <= j < 512 ==> buf@[j] == 0u8,
            decreases data@.len() - i,
        {
            buf[i] = data[i];
            i += 1;
        }
        let s = Sector(buf);
        assert(s@ =~= zero_padded(data@));
        s
    }

    /// The bytes of the sector.
    pub fn as_slice(&self) -> (s: &[u8])
        ensures
            s@ == self@,
    {
        self.0.as_slice()
    }

    /// The byte at `at`.
    pub fn read_u8_at(&self, at: usize) -> (r: u8)
        requires
            at < 512,
        ensures
            r == self@[at as int],
    {
        self.0[at]
    }

    /// The 16-bit little-endian number at `at`.
    pub fn read_le_u16_at(&self, at: usize) -> (r: u16)
        requires
            at + 2 <= 512,
        ensures
            r == le_u16(self@.subrange(at as int, at + 2)),
    {
        slice_subrange(self.0.as_slice(), at, at + 2).read_le_u16().unwrap()
    }

    /// The 32-bit little-endian number at `at`.
    pub fn read_le_u32_at(&self, at: usize) -> (r: u32)
        requires
            at + 4 <= 512,
        ensures
            r == le_u32(self@.subrange(at as int, at + 4)),
    {
        slice_subrange(self.0.as_slice(), at, at + 4).read_le_u32().unwrap()
    }

    /// Replaces the byte at `at` by `n`.
    pub fn write_u8_at(&mut self, at: usize, n: u8)
        requires
            at < 512,
        ensures
            final(self)@ == overlay(old(self)@, at as int, seq![n]),
    {
        self.0[at] = n;
        assert(self@ =~= overlay(old(self)@, at as int, seq![n]));
    }

    /// Replaces the two bytes at `at` by the little-endian encoding of `n`.
    pub fn write_le_u16_at(&mut self, at: usize, n: u16)
        requires
            at + 2 <= 512,
        ensures
            final(self)@ == overlay(old(self)@, at as int, u16_le_bytes(n)),
    {
        let whole: &mut [u8] = &mut self.0;
        let (_, tail) = whole.split_at_mut(at);
        let _ = tail.write_le_u16(n);
        assert(self@ =~= overlay(old(self)@, at as int, u16_le_bytes(n)));
    }

    /// Replaces the four bytes at `at` by the little-endian encoding of `n`.
    pub fn write_le_u32_at(&mut self, at: usize, n: u32)
        requires
            at + 4 <= 512,
        ensures
            final(self)@ == overlay(old(self)@, at as int, u32_le_bytes(n)),
    {
        let whole: &mut [u8] = &mut self.0;
        let (_, tail) = whole.split_at_mut(at);
        let _ = tail.write_le_u32(n);
        assert(self@ =~= overlay(old(self)@, at as int, u32_le_bytes(n)));
    }

    /// Replaces the bytes from `at` on by those of `data`.
    pub fn write_bytes_at(&mut self, at: usize, data: &[u8])
        requires
            at + data@.len() <= 512,
        ensures
            final(self)@ == overlay(old(self)@, at as int, data@),
    {
        let mut i: usize = 0;
        while i < data.len()
            invariant
                i <= data@.len(),
                at + data@.len() <= 512,
                self@ == overlay(old(self)@, at as int, data@.subrange(0, i as int)),
            decreases data@.len() - i,
        {
            self.0[at + i] = data[i];
            i += 1;
            assert(self@ =~= overlay(old(self)@, at as int, data@.subrange(0, i as int)));
        }
        assert(data@.subrange(0, i as int) =~= data@);
    }
}

impl PartialEq for Sector {
    /// Two sectors are equal where they hold the same bytes.
    fn eq(&self, other: &Sector) -> (r: bool) {
        let mut i: usize = 0;
        while i < 512
            invariant
                i <= 512,
                forall|k: int| 0 <= k < i ==> self@[k] == other@[k],
            decreases 512 - i,
        {
            if self.0[i] != other.0[i] {
                return false;
            }
            i += 1;
        }
        assert(self@ =~= other@);
        true
    }
}

impl Eq for Sector {

}

impl PartialEqSpecImpl for Sector {
    open spec fn obeys_eq_spec() -> bool {
        true
    }

    open spec fn eq_spec(&self, other: &Sector) -> bool {
        self@ == other@
    }
}

} // verus!
