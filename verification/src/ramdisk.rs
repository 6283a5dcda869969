//! A block device that lives in memory.

use crate::byteorder::{overlay, u16_le_bytes};
use crate::disk::{written, Disk, DiskInfo, Error, Frame};
use crate::sector::{zero_sector, Sector};
use vstd::prelude::*;

verus! {

/// The number that the signature of a boot record reads as: the bytes
/// `0x55 0xAA`, low byte first.
pub const BOOT_SIGNATURE: u16 = 0xAA55;

/// A device of `size` sectors that was never written: all zero but for the
/// signature of a boot record at the end of the first sector.
pub open spec fn blank_disk(size: nat) -> Seq<Seq<u8>> {
    Seq::new(
        size,
        |i: int|
            if i == 0 {
                overlay(zero_sector(), 510, u16_le_bytes(BOOT_SIGNATURE))
            } else {
                zero_sector()
            },
    )
}

/// A block device held in memory.
pub struct RamDisk {
    sectors: Vec<Sector>,
}

impl RamDisk {
    /// A device of `size` sectors with the signature of a boot record in
    /// its first sector and zeros everywhere else.
    pub fn new(size: usize) -> (r: RamDisk)
        requires
            size > 1,
        ensures
            r.wf(),
            r.size() == size,
            r.sectors() == blank_disk(size as nat),
    {
        let mut sectors: Vec<Sector> = Vec::with_capacity(size);
        let mut i: usize = 0;
        while i < size
            invariant
                i <= size,
                sectors@.len() == i,
                forall|k: int| 0 <= k < i ==> (#[trigger] sectors@[k])@ == zero_sector(),
            decreases size - i,
        {
            sectors.push(Sector::zeroed());
            i += 1;
        }
        let mut first = sectors[0];
        first.write_le_u16_at(510, BOOT_SIGNATURE);
        sectors[0] = first;
        let r = RamDisk { sectors };
        assert(r.sectors() =~= blank_disk(size as nat));
        r
    }

    /// The number of sectors.
    pub fn len(&self) -> (r: usize)
        ensures
            r == self.sectors().len(),
    {
        self.sectors.len()
    }

    /// The sectors in the order of their addresses.
    pub fn as_slice(&self) -> (r: &[Sector])
        ensures
            r@.len() == self.sectors().len(),
            forall|i: int| 0 <= i < r@.len() ==> (#[trigger] r@[i])@ == self.sectors()[i],
    {
        self.sectors.as_slice()
    }
}

impl Disk for RamDisk {
    closed spec fn sectors(&self) -> Seq<Seq<u8>> {
        Seq::new(self.sectors@.len(), |i: int| self.sectors@[i]@)
    }

    /// The device holds as many sectors as it declares.
    open spec fn size(&self) -> nat {
        self.sectors().len()
    }

    /// The device stands alone.
    open spec fn frames(&self) -> Seq<Frame> {
        Seq::empty()
    }

    /// Every value of the type is a device.
    open spec fn wf(&self) -> bool {
        true
    }

    proof fn lemma_sectors(&self) {
        assert(self.sectors@.len() == self.sectors.len());
    }

    fn info(&self) -> (r: DiskInfo) {
        DiskInfo { size: self.sectors.len(), sector_size: 512 }
    }

    fn read_sector(&self, lba: usize) -> (r: Result<Sector, Error>) {
        if lba < self.sectors.len() {
            Ok(self.sectors[lba])
        } else {
            Err(Error::BeyondDiskSize)
        }
    }

    fn write_sector(&mut self, lba: usize, data: &[u8]) -> (r: Result<(), Error>) {
        if lba >= self.sectors.len() {
            Err(Error::BeyondDiskSize)
        } else if data.len() > 512 {
            Err(Error::WriteError)
        } else {
            self.sectors[lba] = Sector::from_slice(data);
            assert(self.sectors() =~= written(old(self).sectors(), lba as int, data@));
            Ok(())
        }
    }
}

} // verus!
