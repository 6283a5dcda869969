//! Block devices: a sequence of 512-byte sectors that is read and written
//! one sector at a time, by its linear block address.

use crate::path::PathBuf;
use crate::sector::{zero_padded, Sector};
use vstd::prelude::*;

verus! {

/// What the operations of this library fail with.
#[derive(Debug, Clone, PartialEq)]
pub enum Error {
    /// A block address lies behind the end of the device.
    BeyondDiskSize,
    /// The first sector does not end in the signature of a boot record.
    CorruptDisk,
    /// A chain of clusters ended early or ran into an entry that cannot be
    /// part of a chain.
    CorruptFAT,
    /// The device did not take a write.
    WriteError,
    /// A path has no file name that could be stored.
    InvalidPath,
    /// A component of a path was not found; the path leads up to it.
    Nonexistent(PathBuf),
}

/// An error, with the bytes of the path where it holds one.
pub enum ErrorView {
    BeyondDiskSize,
    CorruptDisk,
    CorruptFAT,
    WriteError,
    InvalidPath,
    Nonexistent(Seq<u8>),
}

impl View for Error {
    type V = ErrorView;

    open spec fn view(&self) -> ErrorView {
        match *self {
            Error::BeyondDiskSize => ErrorView::BeyondDiskSize,
            Error::CorruptDisk => ErrorView::CorruptDisk,
            Error::CorruptFAT => ErrorView::CorruptFAT,
            Error::WriteError => ErrorView::WriteError,
            Error::InvalidPath => ErrorView::InvalidPath,
            Error::Nonexistent(p) => ErrorView::Nonexistent(p@),
        }
    }
}

/// A result, with the view of its error.
pub open spec fn outcome<T>(r: Result<T, Error>) -> Result<T, ErrorView> {
    match r {
        Ok(v) => Ok(v),
        Err(e) => Err(e@),
    }
}

/// The size of a device.
#[derive(Debug, Clone, Copy, PartialEq, Eq)]
pub struct DiskInfo {
    /// The number of sectors.
    pub size: usize,
    /// The number of bytes in a sector.
    pub sector_size: usize,
}

/// Whether every sector of `s` has 512 bytes.
pub open spec fn sectors_wf(s: Seq<Seq<u8>>) -> bool {
    forall|i: int| 0 <= i < s.len() ==> (#[trigger] s[i]).len() == 512
}

/// What reading the sector `lba` of a device with the sectors `s` gives.
pub open spec fn read_outcome(s: Seq<Seq<u8>>, lba: int) -> Result<Seq<u8>, ErrorView> {
    if 0 <= lba < s.len() {
        Ok(s[lba])
    } else {
        Err(ErrorView::BeyondDiskSize)
    }
}

/// What writing `data` to the sector `lba` of a device with the sectors `s`
/// answers: an address behind the end is refused first, then data that is
/// longer than a sector.
pub open spec fn write_outcome(s: Seq<Seq<u8>>, lba: int, data: Seq<u8>) -> Result<(), ErrorView> {
    if !(0 <= lba < s.len()) {
        Err(ErrorView::BeyondDiskSize)
    } else if data.len() > 512 {
        Err(ErrorView::WriteError)
    } else {
        Ok(())
    }
}

/// The sectors of a device after `data` was written to the sector `lba` of
/// one with the sectors `s`: a write that was taken replaces that sector by
/// `data`, filled up with zeros; a write that was refused changes nothing.
pub open spec fn written(s: Seq<Seq<u8>>, lba: int, data: Seq<u8>) -> Seq<Seq<u8>> {
    if write_outcome(s, lba, data) is Ok {
        s.update(lba, zero_padded(data))
    } else {
        s
    }
}

/// What a device that is a view on another leaves of that other device
/// as it is: where the view starts on it, how many sectors the view has,
/// and the sectors around the view.
pub struct Frame {
    /// The address on the device beneath of the first sector of the view.
    pub start: nat,
    /// The number of sectors of the view.
    pub extent: nat,
    /// The sectors of the device beneath, with nothing in place of the
    /// sectors that the view shows.
    pub around: Seq<Seq<u8>>,
}

/// The sectors `s` with nothing in place of those from `start` on and
/// before `start + extent`.
pub open spec fn around(s: Seq<Seq<u8>>, start: nat, extent: nat) -> Seq<Seq<u8>> {
    Seq::new(
        s.len(),
        |i: int|
            if start <= i < start + extent {
                Seq::empty()
            } else {
                s[i]
            },
    )
}

/// A block device.
pub trait Disk {
    /// The sectors that can be read and written, in the order of their
    /// addresses.
    spec fn sectors(&self) -> Seq<Seq<u8>>;

    /// The number of sectors that the device declares.
    spec fn size(&self) -> nat;

    /// What lies beneath the device and is no sector of it: nothing for a
    /// device that stands alone, and for a view on another device its
    /// frame, followed by what lies beneath that device. No write changes
    /// it.
    spec fn frames(&self) -> Seq<Frame>;

    /// What holds of every device that was made by its constructor.
    spec fn wf(&self) -> bool;

    /// Every sector of a device has 512 bytes, and a device holds no more
    /// sectors than it declares.
    proof fn lemma_sectors(&self)
        requires
            self.wf(),
        ensures
            sectors_wf(self.sectors()),
            self.sectors().len() <= self.size() <= usize::MAX,
    ;

    /// The declared size of the device.
    fn info(&self) -> (r: DiskInfo)
        requires
            self.wf(),
        ensures
            r.size == self.size(),
            r.sector_size == 512,
    ;

    /// The sector at `lba` as it was last written.
    fn read_sector(&self, lba: usize) -> (r: Result<Sector, Error>)
        requires
            self.wf(),
        ensures
            r matches Ok(s) ==> read_outcome(self.sectors(), lba as int) == Ok::<
                Seq<u8>,
                ErrorView,
            >(s@),
            r matches Err(e) ==> read_outcome(self.sectors(), lba as int) == Err::<
                Seq<u8>,
                ErrorView,
            >(e@),
    ;

    /// Replaces the sector at `lba` by `data`, filled up with zeros.
    fn write_sector(&mut self, lba: usize, data: &[u8]) -> (r: Result<(), Error>)
        requires
            old(self).wf(),
        ensures
            final(self).wf(),
            final(self).size() == old(self).size(),
            final(self).frames() == old(self).frames(),
            outcome(r) == write_outcome(old(self).sectors(), lba as int, data@),
            final(self).sectors() == written(old(self).sectors(), lba as int, data@),
    ;
}

/// A written image keeps its number of sectors and their size.
pub proof fn lemma_written(s: Seq<Seq<u8>>, lba: int, data: Seq<u8>)
    requires
        sectors_wf(s),
    ensures
        sectors_wf(written(s, lba, data)),
        written(s, lba, data).len() == s.len(),
{
}

} // verus!
