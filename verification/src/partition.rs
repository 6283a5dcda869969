//! The partition table of a master boot record, and a partition as a block
//! device of its own.
//!
//! The table is four entries of 16 bytes each, from byte 446 of the first
//! sector on. The sector ends in the signature `0x55 0xAA`.

use crate::byteorder::{le_u32, lemma_u32_round_trip, low32, low_bits, overlay, u32_le_bytes};
use crate::disk::{outcome, read_outcome, sectors_wf, write_outcome, written};
use crate::disk::{around, Disk, DiskInfo, Error, ErrorView, Frame};
use crate::fat::{layout_of, Fat32};
use crate::sector::{zero_padded, Sector};
use vstd::prelude::*;

verus! {

/// Where the partition table starts in the first sector.
pub const TABLE_START: usize = 446;

/// The number of bytes of one entry of the table.
pub const ENTRY_SIZE: usize = 16;

/// The type byte of a FAT32 partition that is addressed by block.
pub const TYPE_FAT32_LBA: u8 = 0x0C;

/// The file system that a partition is marked to hold.
#[derive(Debug, Clone, Copy, PartialEq, Eq)]
pub enum Format {
    /// FAT32, addressed by block.
    Fat32,
    /// Another type byte.
    Unrecognized(u8),
}

/// The type byte that `f` is stored as.
pub open spec fn type_byte(f: Format) -> u8 {
    match f {
        Format::Fat32 => TYPE_FAT32_LBA,
        Format::Unrecognized(n) => n,
    }
}

impl Format {
    /// The type byte that the format is stored as.
    pub fn serialize(&self) -> (r: u8)
        ensures
            r == type_byte(*self),
    {
        match *self {
            Format::Fat32 => TYPE_FAT32_LBA,
            Format::Unrecognized(n) => n,
        }
    }
}

/// One entry of the partition table.
#[derive(Debug, Clone, Copy, PartialEq, Eq)]
pub struct PartitionInfo {
    /// The file system of the partition.
    pub format: Format,
    /// The address of its first sector.
    pub start: usize,
    /// The number of its sectors.
    pub size: usize,
    /// Whether the machine may start from it.
    pub bootable: bool,
}

/// Whether the sector `mbr` ends in the signature of a boot record.
pub open spec fn has_signature(mbr: Seq<u8>) -> bool {
    mbr[510] == 0x55 && mbr[511] == 0xAA
}

/// The 16 bytes of the entry `index` of the table in the sector `mbr`.
pub open spec fn table_entry(mbr: Seq<u8>, index: int) -> Seq<u8> {
    mbr.subrange(446 + 16 * index, 462 + 16 * index)
}

/// What the 16 bytes `e` of an entry say: nothing where the type byte is
/// zero, else the partition.
pub open spec fn decode_entry(e: Seq<u8>) -> Option<PartitionInfo> {
    if e[4] == 0 {
        None
    } else {
        Some(
            PartitionInfo {
                format: if e[4] == TYPE_FAT32_LBA {
                    Format::Fat32
                } else {
                    Format::Unrecognized(e[4])
                },
                start: le_u32(e.subrange(8, 12)) as usize,
                size: le_u32(e.subrange(12, 16)) as usize,
                bootable: e[0] >= 0x80,
            },
        )
    }
}

/// The 16 bytes that the partition `p` is stored as. The fields for
/// cylinder, head and sector are zero. Of the start and the size only the
/// low 32 bits are stored.
pub open spec fn encode_entry(p: PartitionInfo) -> Seq<u8> {
    seq![
        if p.bootable {
            0x80u8
        } else {
            0x00u8
        },
        0u8,
        0u8,
        0u8,
        type_byte(p.format),
        0u8,
        0u8,
        0u8,
    ] + u32_le_bytes(low32(p.start)) + u32_le_bytes(low32(p.size))
}

/// What the entry `index` of the table on a device with the sectors `s`
/// reads as.
pub open spec fn partition_info(s: Seq<Seq<u8>>, index: int) -> Result<
    Option<PartitionInfo>,
    ErrorView,
> {
    if s.len() == 0 {
        Err(ErrorView::BeyondDiskSize)
    } else if !has_signature(s[0]) {
        Err(ErrorView::CorruptDisk)
    } else {
        Ok(decode_entry(table_entry(s[0], index)))
    }
}

/// The sectors `s` with the partition `p` stored in the entry `index` of
/// the table. A device without sectors has no table to store it in.
pub open spec fn with_partition(s: Seq<Seq<u8>>, index: int, p: PartitionInfo) -> Seq<Seq<u8>> {
    if s.len() == 0 {
        s
    } else {
        s.update(0, overlay(s[0], 446 + 16 * index, encode_entry(p)))
    }
}

/// Reads the entry `index` of the partition table of `disk`.
///
/// Fails with `CorruptDisk` where the first sector lacks the signature, and
/// answers `None` for an entry whose type byte is zero.
pub fn get_pinfo<T: Disk>(disk: &T, index: usize) -> (r: Result<Option<PartitionInfo>, Error>)
    requires
        disk.wf(),
        index < 4,
    ensures
        outcome(r) == partition_info(disk.sectors(), index as int),
{
    proof {
        disk.lemma_sectors();
    }
    let mbr = match disk.read_sector(0) {
        Ok(s) => s,
        Err(e) => {
            return Err(e);
        },
    };
    if mbr.read_u8_at(510) != 0x55 || mbr.read_u8_at(511) != 0xAA {
        return Err(Error::CorruptDisk);
    }
    let at = TABLE_START + index * ENTRY_SIZE;
    let ghost e = table_entry(mbr@, index as int);
    let kind = mbr.read_u8_at(at + 4);
    let format = if kind == TYPE_FAT32_LBA {
        Format::Fat32
    } else if kind == 0x00 {
        return Ok(None);
    } else {
        Format::Unrecognized(kind)
    };
    let bootable = mbr.read_u8_at(at) >= 0x80;
    let start = mbr.read_le_u32_at(at + 8);
    let size = mbr.read_le_u32_at(at + 12);
    proof {
        assert(mbr@.subrange(at + 8, at + 12) =~= e.subrange(8, 12));
        assert(mbr@.subrange(at + 12, at + 16) =~= e.subrange(12, 16));
    }
    Ok(
        Some(
            PartitionInfo { format: format, start: start as usize, size: size as usize, bootable },
        ),
    )
}

/// Stores `pinfo` in the entry `index` of the partition table of `disk`.
///
/// The rest of the first sector stays as it is. Fails, and changes
/// nothing, where the device has no first sector.
#[verifier::rlimit(50)]
pub fn set_pinfo<T: Disk>(disk: &mut T, index: usize, pinfo: &PartitionInfo) -> (r: Result<
    (),
    Error,
>)
    requires
        old(disk).wf(),
        index < 4,
    ensures
        final(disk).wf(),
        final(disk).size() == old(disk).size(),
        final(disk).frames() == old(disk).frames(),
        final(disk).sectors() == with_partition(old(disk).sectors(), index as int, *pinfo),
        old(disk).sectors().len() > 0 ==> r is Ok,
        old(disk).sectors().len() == 0 ==> outcome(r) == Err::<(), ErrorView>(
            ErrorView::BeyondDiskSize,
        ),
{
    proof {
        disk.lemma_sectors();
    }
    let mut mbr = match disk.read_sector(0) {
        Ok(s) => s,
        Err(e) => {
            return Err(e);
        },
    };
    let ghost before = mbr@;
    let at = TABLE_START + index * ENTRY_SIZE;
    mbr.write_u8_at(
        at,
        if pinfo.bootable {
            0x80
        } else {
            0x00
        },
    );
    mbr.write_u8_at(at + 1, 0);
    mbr.write_u8_at(at + 2, 0);
    mbr.write_u8_at(at + 3, 0);
    mbr.write_u8_at(at + 4, pinfo.format.serialize());
    mbr.write_u8_at(at + 5, 0);
    mbr.write_u8_at(at + 6, 0);
    mbr.write_u8_at(at + 7, 0);
    mbr.write_le_u32_at(at + 8, low_bits(pinfo.start));
    mbr.write_le_u32_at(at + 12, low_bits(pinfo.size));
    assert(mbr@ =~= overlay(before, at as int, encode_entry(*pinfo)));
    let r = disk.write_sector(0, mbr.as_slice());
    assert(zero_padded(mbr@) =~= mbr@);
    r
}

/// A partition as a block device: the sectors of an underlying device from
/// `start` on, `size` of them at most.
pub struct Partition<D: Disk> {
    device: D,
    start: usize,
    size: usize,
}

impl<D: Disk> Partition<D> {
    /// The device that the partition lies on.
    pub closed spec fn device(&self) -> D {
        self.device
    }

    /// The address of the first sector of the partition on its device.
    pub closed spec fn start(&self) -> nat {
        self.start as nat
    }

    /// The number of sectors of the partition.
    pub closed spec fn extent(&self) -> nat {
        self.size as nat
    }

    /// The partition of `size` sectors that starts at `start` on `device`.
    pub fn new(device: D, start: usize, size: usize) -> (r: Partition<D>)
        requires
            device.wf(),
        ensures
            r.wf(),
            r.device() == device,
            r.start() == start,
            r.extent() == size,
    {
        Partition { device, start, size }
    }

    /// Gives the device back.
    pub fn into_inner(self) -> (r: D)
        requires
            self.wf(),
        ensures
            r == self.device(),
            r.wf(),
    {
        self.device
    }

    /// The device that the partition lies on.
    pub fn get_ref(&self) -> (r: &D)
        ensures
            *r == self.device(),
    {
        &self.device
    }
}

/// How many sectors of a partition of `size` sectors at `start` can be
/// read on a device of `len` sectors.
pub open spec fn readable(len: nat, start: nat, size: nat) -> nat {
    if start >= len {
        0
    } else if start + size <= len {
        size
    } else {
        (len - start) as nat
    }
}

/// The sectors of a device with the sectors `s` that the partition of
/// `size` sectors at `start` shows.
pub open spec fn partition_sectors(s: Seq<Seq<u8>>, start: nat, size: nat) -> Seq<Seq<u8>> {
    Seq::new(readable(s.len(), start, size), |i: int| s[start + i])
}

impl<D: Disk> Disk for Partition<D> {
    open spec fn sectors(&self) -> Seq<Seq<u8>> {
        partition_sectors(self.device().sectors(), self.start(), self.extent())
    }

    open spec fn size(&self) -> nat {
        self.extent()
    }

    /// The place of the partition on its device and the sectors of the
    /// device around it, followed by what lies beneath the device.
    open spec fn frames(&self) -> Seq<Frame> {
        seq![
            (Frame {
                start: self.start(),
                extent: self.extent(),
                around: around(self.device().sectors(), self.start(), self.extent()),
            }),
        ] + self.device().frames()
    }

    open spec fn wf(&self) -> bool {
        self.device().wf()
    }

    proof fn lemma_sectors(&self) {
        self.device().lemma_sectors();
    }

    fn info(&self) -> (r: DiskInfo) {
        DiskInfo { size: self.size, sector_size: 512 }
    }

    /// Reads the sector `start + lba` of the device where `lba` lies in the
    /// partition.
    fn read_sector(&self, lba: usize) -> (r: Result<Sector, Error>)
        ensures
            lba < self.extent() ==> (r matches Ok(s) ==> read_outcome(
                self.device().sectors(),
                self.start() + lba,
            ) == Ok::<Seq<u8>, ErrorView>(s@)) && (r matches Err(e) ==> read_outcome(
                self.device().sectors(),
                self.start() + lba,
            ) == Err::<Seq<u8>, ErrorView>(e@)),
            lba >= self.extent() ==> r matches Err(Error::BeyondDiskSize),
    {
        proof {
            self.device.lemma_sectors();
        }
        if lba < self.size {
            match self.start.checked_add(lba) {
                Some(at) => self.device.read_sector(at),
                None => Err(Error::BeyondDiskSize),
            }
        } else {
            Err(Error::BeyondDiskSize)
        }
    }

    /// Writes the sector `start + lba` of the device where `lba` lies in
    /// the partition.
    fn write_sector(&mut self, lba: usize, data: &[u8]) -> (r: Result<(), Error>)
        ensures
            final(self).start() == old(self).start(),
            final(self).extent() == old(self).extent(),
            lba < old(self).extent() ==> outcome(r) == write_outcome(
                old(self).device().sectors(),
                old(self).start() + lba,
                data@,
            ) && final(self).device().sectors() == written(
                old(self).device().sectors(),
                old(self).start() + lba,
                data@,
            ),
            lba >= old(self).extent() ==> r matches Err(Error::BeyondDiskSize),
            lba >= old(self).extent() ==> final(self).device().sectors() == old(
                self,
            ).device().sectors(),
    {
        proof {
            self.device.lemma_sectors();
        }
        if lba < self.size {
            match self.start.checked_add(lba) {
                Some(at) => {
                    let r = self.device.write_sector(at, data);
                    proof {
                        assert(self.sectors() =~= written(old(self).sectors(), lba as int, data@));
                        assert(around(self.device.sectors(), self.start(), self.extent()) =~= around(
                            old(self).device.sectors(),
                            self.start(),
                            self.extent(),
                        ));
                    }
                    r
                },
                None => Err(Error::BeyondDiskSize),
            }
        } else {
            Err(Error::BeyondDiskSize)
        }
    }
}

/// A partition shows the sectors of its device from its start on, and
/// nothing behind its extent: reading the sector `k` of the partition is
/// reading the sector `start + k` of the device for every `k` below the
/// extent, and fails with `BeyondDiskSize` from the extent on.
pub proof fn lemma_partition_isolation(s: Seq<Seq<u8>>, start: nat, size: nat, k: nat)
    ensures
        k < size ==> read_outcome(partition_sectors(s, start, size), k as int) == read_outcome(
            s,
            (start + k) as int,
        ),
        k >= size ==> read_outcome(partition_sectors(s, start, size), k as int) == Err::<
            Seq<u8>,
            ErrorView,
        >(ErrorView::BeyondDiskSize),
{
}

/// Two partitions with the same frames lie at the same place on devices
/// that hold the same sectors around them: whatever was written to the
/// one to make it the other left the device around the partition, the
/// first sector with the partition table among it where the partition
/// starts behind it, as it was.
pub proof fn lemma_same_frames<D: Disk>(a: Partition<D>, b: Partition<D>)
    requires
        a.frames() == b.frames(),
    ensures
        a.start() == b.start(),
        a.extent() == b.extent(),
        a.device().frames() == b.device().frames(),
        a.device().sectors().len() == b.device().sectors().len(),
        forall|i: int|
            0 <= i < a.device().sectors().len() && !(a.start() <= i < a.start() + a.extent())
                ==> #[trigger] a.device().sectors()[i] == b.device().sectors()[i],
        a.start() >= 1 ==> forall|index: int|
            #[trigger] partition_info(a.device().sectors(), index) == partition_info(
                b.device().sectors(),
                index,
            ),
{
    let fa = a.frames();
    let fb = b.frames();
    assert(fa[0] == fb[0]);
    assert(a.device().frames() =~= fa.subrange(1, fa.len() as int));
    assert(b.device().frames() =~= fb.subrange(1, fb.len() as int));
    let ra = around(a.device().sectors(), a.start(), a.extent());
    let rb = around(b.device().sectors(), b.start(), b.extent());
    assert(ra == rb);
    assert(ra.len() == rb.len());
    assert forall|i: int|
        0 <= i < a.device().sectors().len() && !(a.start() <= i < a.start() + a.extent())
        implies #[trigger] a.device().sectors()[i] == b.device().sectors()[i] by {
        assert(ra[i] == rb[i]);
    }
    if a.start() >= 1 && a.device().sectors().len() > 0 {
        assert(a.device().sectors()[0] == b.device().sectors()[0]);
    }
}

/// A partition that was stored in the table is read back from it: for
/// every entry of the table and every partition whose type byte is not
/// zero and, where it is not FAT32, not that of FAT32, whose start and size
/// fit in 32 bits, on a device whose first sector has the signature.
#[verifier::rlimit(50)]
pub proof fn lemma_partition_round_trip(s: Seq<Seq<u8>>, index: int, p: PartitionInfo)
    requires
        sectors_wf(s),
        s.len() > 0,
        has_signature(s[0]),
        0 <= index < 4,
        p.start <= u32::MAX,
        p.size <= u32::MAX,
        p.format matches Format::Unrecognized(n) ==> n != 0x00 && n != TYPE_FAT32_LBA,
    ensures
        partition_info(with_partition(s, index, p), index) == Ok::<
            Option<PartitionInfo>,
            ErrorView,
        >(Some(p)),
{
    let t = with_partition(s, index, p);
    let e = encode_entry(p);
    assert(table_entry(t[0], index) =~= e);
    lemma_u32_round_trip(low32(p.start));
    lemma_u32_round_trip(low32(p.size));
    assert(e.subrange(8, 12) =~= u32_le_bytes(low32(p.start)));
    assert(e.subrange(12, 16) =~= u32_le_bytes(low32(p.size)));
}

/// Storing a partition in one entry of the table leaves the other entries,
/// the signature and every other sector as they were.
pub proof fn lemma_partition_frame(s: Seq<Seq<u8>>, index: int, p: PartitionInfo, other: int)
    requires
        sectors_wf(s),
        s.len() > 0,
        0 <= index < 4,
        0 <= other < 4,
        other != index,
    ensures
        has_signature(with_partition(s, index, p)[0]) == has_signature(s[0]),
        table_entry(with_partition(s, index, p)[0], other) == table_entry(s[0], other),
        forall|i: int| 1 <= i < s.len() ==> with_partition(s, index, p)[i] == s[i],
{
    assert(table_entry(with_partition(s, index, p)[0], other) =~= table_entry(s[0], other));
}

/// The partition that the entry `index` of the table of `disk` describes,
/// as a device.
///
/// The entry has to be in use: where the table can be read, it holds a
/// partition.
pub fn get_partition<T: Disk>(disk: T, index: usize) -> (r: Result<Partition<T>, Error>)
    requires
        disk.wf(),
        index < 4,
        partition_info(disk.sectors(), index as int) matches Ok(p) ==> p is Some,
    ensures
        r matches Ok(part) ==> part.wf() && part.device() == disk,
        r matches Ok(part) ==> (partition_info(disk.sectors(), index as int) matches Ok(Some(p))
            && part.start() == p.start && part.extent() == p.size),
        r matches Err(e) ==> partition_info(disk.sectors(), index as int) == Err::<
            Option<PartitionInfo>,
            ErrorView,
        >(e@),
        r is Ok <==> partition_info(disk.sectors(), index as int) is Ok,
{
    let pinfo = match get_pinfo(&disk, index) {
        Ok(Some(pinfo)) => pinfo,
        Ok(None) => vstd::pervasive::unreached(),
        Err(e) => {
            return Err(e);
        },
    };
    Ok(Partition { device: disk, start: pinfo.start, size: pinfo.size })
}

/// Mounts the file system of the partition that the entry `index` of the
/// table of `disk` describes.
///
/// The entry has to hold a FAT32 partition: where the table can be read,
/// it does. Fails with what reading the table fails with, and with
/// `BeyondDiskSize` where no sector of the partition lies on the device.
pub fn mount<T: Disk>(disk: T, index: usize) -> (r: Result<Fat32<Partition<T>>, Error>)
    requires
        disk.wf(),
        index < 4,
        partition_info(disk.sectors(), index as int) matches Ok(p) ==> (p matches Some(q)
            && q.format is Fat32),
    ensures
        r matches Ok(fs) ==> fs.wf() && fs.disk().device() == disk && fs.image().len() > 0
            && fs.layout() == layout_of(fs.image()[0]),
        r matches Ok(fs) ==> (partition_info(disk.sectors(), index as int) matches Ok(Some(p))
            && fs.disk().start() == p.start && fs.disk().extent() == p.size),
        partition_info(disk.sectors(), index as int) matches Err(e) ==> (r matches Err(x) && x@
            == e),
        partition_info(disk.sectors(), index as int) matches Ok(Some(p)) ==> (r is Ok <==> readable(
            disk.sectors().len(),
            p.start as nat,
            p.size as nat,
        ) > 0),
        partition_info(disk.sectors(), index as int) is Ok ==> (r matches Err(x) ==> x@
            == ErrorView::BeyondDiskSize),
{
    let partition = match get_partition(disk, index) {
        Ok(p) => p,
        Err(e) => {
            return Err(e);
        },
    };
    Fat32::new(partition)
}

} // verus!
