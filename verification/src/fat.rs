//! A FAT32 file system on a block device.
//!
//! The volume starts with a header sector. Behind it come the reserved
//! sectors, then the file allocation tables, then the clusters, which are
//! numbered from 2 on and are one sector each. The root directory starts in
//! cluster 2. Only the first table is read and written once the volume is
//! formatted.

use crate::byteorder::{le_u16, le_u32, low32, low_bits, overlay, u16_le_bytes, u32_le_bytes};
use crate::disk::{outcome, read_outcome, sectors_wf, write_outcome, written, Disk, Error};
use crate::disk::ErrorView;
use crate::fs::FileSystem;
use crate::path::{component_text, file_stem_of, parent_of, path_components, path_extension_of};
use crate::path::{Component, Path};
use crate::sector::{zero_padded, zero_sector, Sector};
use vstd::arithmetic::div_mod::lemma_fundamental_div_mod_converse;
use vstd::slice::{slice_subrange, slice_to_vec};
use vstd::prelude::*;

verus! {

/// The number of file allocation tables that a formatted volume has.
pub const FATS: usize = 2;

/// The number of reserved sectors that a formatted volume has.
pub const RESERVED: usize = 32;

/// The number of bytes in a sector.
pub const SSIZE: usize = 512;

/// The number of sectors in a cluster.
pub const CSIZE: usize = 1;

/// The number of entries of a file allocation table in one sector.
pub const ENTRIES_PER_SECTOR: usize = 128;

/// The bits of an entry of the table that count.
pub const FAT_MASK: u32 = 0x0FFF_FFFF;

/// The cluster that the root directory starts in.
pub const ROOT_CLUSTER: usize = 2;

/// What the file allocation table says of one cluster.
#[derive(Debug, Clone, Copy, PartialEq, Eq)]
pub enum FatEntry {
    /// The cluster is not in use.
    Free,
    /// The cluster is in use, and the chain goes on in the cluster given.
    Cont(u32),
    /// The cluster is the last of its chain.
    End,
    /// The cluster is damaged.
    Bad,
    /// The entry holds a value that is set aside.
    Reserved(u32),
}

/// What the 28 bits `n` of an entry mean.
pub open spec fn classify(n: u32) -> FatEntry {
    if n >= 0x0FFF_FFF8 {
        FatEntry::End
    } else if n == 0x0FFF_FFF7 {
        FatEntry::Bad
    } else if n >= 0x0FFF_FFF0 {
        FatEntry::Reserved(n)
    } else if n >= 0x0000_0002 {
        FatEntry::Cont(n)
    } else if n == 0x0000_0001 {
        FatEntry::Reserved(n)
    } else {
        FatEntry::Free
    }
}

/// The number that an entry is stored as.
pub open spec fn fat_code(e: FatEntry) -> u32 {
    match e {
        FatEntry::Cont(n) => n,
        FatEntry::Free => 0x0000_0000,
        FatEntry::End => 0x0FFF_FFFF,
        FatEntry::Bad => 0x0FFF_FFF7,
        FatEntry::Reserved(n) => n,
    }
}

/// The low 28 bits of `n`.
pub open spec fn low28(n: int) -> u32 {
    (n % 0x1000_0000) as u32
}

/// Where the tables and the clusters of a volume start.
#[derive(Debug, Clone, Copy, PartialEq, Eq)]
pub struct Layout {
    /// The address of the first sector of the first table.
    pub fat_begin: usize,
    /// The address of cluster 2.
    pub cluster_begin: usize,
}

/// `n`, or the largest machine word where `n` is larger.
pub open spec fn clamped(n: int) -> usize {
    if n > usize::MAX {
        usize::MAX
    } else {
        n as usize
    }
}

/// The number of reserved sectors that the header `h` declares.
pub open spec fn header_reserved(h: Seq<u8>) -> int {
    le_u16(h.subrange(14, 16))
}

/// The number of tables that the header `h` declares.
pub open spec fn header_fats(h: Seq<u8>) -> int {
    h[16] as int
}

/// The number of sectors of one table that the header `h` declares.
pub open spec fn header_fat_size(h: Seq<u8>) -> int {
    le_u32(h.subrange(36, 40))
}

/// The layout that the header `h` declares: the first table starts behind
/// the header sector and the reserved sectors, and the clusters start behind
/// the last table.
pub open spec fn layout_of(h: Seq<u8>) -> Layout {
    Layout {
        fat_begin: (1 + header_reserved(h)) as usize,
        cluster_begin: clamped(1 + header_reserved(h) + header_fats(h) * header_fat_size(h)),
    }
}

/// The address of the sector of cluster `c`.
pub open spec fn cluster_lba(l: Layout, c: int) -> int {
    l.cluster_begin + (c - 2)
}

/// The address of the sector that holds the entry of cluster `c` in the
/// first table.
pub open spec fn fat_lba(l: Layout, c: int) -> int {
    l.fat_begin + c / 128
}

/// Where the entry of cluster `c` starts in its sector.
pub open spec fn fat_offset(c: int) -> int {
    (c % 128) * 4
}

/// What the table on a device with the sectors `s` says of cluster `c`.
#[verifier::opaque]
pub open spec fn fat_entry(s: Seq<Seq<u8>>, l: Layout, c: int) -> Result<FatEntry, ErrorView> {
    match read_outcome(s, fat_lba(l, c)) {
        Ok(sector) => Ok(
            classify(low28(le_u32(sector.subrange(fat_offset(c), fat_offset(c) + 4)))),
        ),
        Err(e) => Err(e),
    }
}

/// Whether the entry of cluster `c` can be written.
pub open spec fn fat_writable(s: Seq<Seq<u8>>, l: Layout, c: int) -> Result<(), ErrorView> {
    match read_outcome(s, fat_lba(l, c)) {
        Ok(_) => Ok(()),
        Err(e) => Err(e),
    }
}

/// The sectors `s` with the entry of cluster `c` set to `e`. Nothing
/// changes where that entry lies behind the end of the device.
pub open spec fn with_fat_entry(s: Seq<Seq<u8>>, l: Layout, c: int, e: FatEntry) -> Seq<Seq<u8>> {
    if 0 <= fat_lba(l, c) < s.len() {
        s.update(
            fat_lba(l, c),
            overlay(s[fat_lba(l, c)], fat_offset(c), u32_le_bytes(fat_code(e))),
        )
    } else {
        s
    }
}

/// The cluster that follows `c` in its chain, if the table names one.
pub open spec fn next_of(s: Seq<Seq<u8>>, l: Layout, c: int) -> Result<Option<usize>, ErrorView> {
    match fat_entry(s, l, c) {
        Ok(FatEntry::Cont(n)) => Ok(Some(n as usize)),
        Ok(_) => Ok(None),
        Err(e) => Err(e),
    }
}

/// The first cluster that the search for a free cluster looks at.
pub open spec fn scan_start(l: Layout) -> int {
    if l.cluster_begin < 2 {
        2
    } else {
        l.cluster_begin as int
    }
}

/// The first cluster number whose sector lies behind the `size` sectors of
/// the device.
pub open spec fn cluster_limit(l: Layout, size: nat) -> int {
    size - l.cluster_begin + 2
}

/// The first cluster from `from` on, and below `limit`, whose entry is
/// free. Fails with `WriteError` where there is none, and with what reading
/// the table fails with.
pub open spec fn find_free(s: Seq<Seq<u8>>, l: Layout, from: int, limit: int) -> Result<
    int,
    ErrorView,
>
    decreases limit - from,
{
    if from >= limit {
        Err(ErrorView::WriteError)
    } else {
        match fat_entry(s, l, from) {
            Err(e) => Err(e),
            Ok(FatEntry::Free) => Ok(from),
            Ok(_) => find_free(s, l, from + 1, limit),
        }
    }
}

/// The last cluster of the chain that `c` belongs to, followed for `fuel`
/// links at most. Fails with `CorruptFAT` where the chain is longer, or
/// runs into an entry that neither ends nor continues it.
pub open spec fn chain_end(s: Seq<Seq<u8>>, l: Layout, c: int, fuel: nat) -> Result<
    int,
    ErrorView,
>
    decreases fuel,
{
    match fat_entry(s, l, c) {
        Err(e) => Err(e),
        Ok(FatEntry::End) => Ok(c),
        Ok(FatEntry::Cont(n)) => if fuel == 0 {
            Err(ErrorView::CorruptFAT)
        } else {
            chain_end(s, l, n as int, (fuel - 1) as nat)
        },
        Ok(_) => Err(ErrorView::CorruptFAT),
    }
}

/// What a step on the volume leaves behind: the sectors of the device and
/// the answer.
pub struct Step<T> {
    pub sectors: Seq<Seq<u8>>,
    pub result: Result<T, ErrorView>,
}

/// Setting the entry of cluster `c` to `e`.
pub open spec fn set_fat(s: Seq<Seq<u8>>, l: Layout, c: int, e: FatEntry) -> Step<()> {
    Step { sectors: with_fat_entry(s, l, c, e), result: fat_writable(s, l, c) }
}

/// Writing `data` to cluster `c`.
pub open spec fn put_cluster(s: Seq<Seq<u8>>, l: Layout, c: int, data: Seq<u8>) -> Step<()> {
    Step {
        sectors: written(s, cluster_lba(l, c), data),
        result: write_outcome(s, cluster_lba(l, c), data),
    }
}

/// Marking cluster `new` as the end of a chain, as the last step of
/// allocating it.
pub open spec fn close_chain(s: Seq<Seq<u8>>, l: Layout, new: int) -> Step<usize> {
    Step {
        sectors: with_fat_entry(s, l, new, FatEntry::End),
        result: match fat_writable(s, l, new) {
            Ok(_) => Ok(new as usize),
            Err(e) => Err(e),
        },
    }
}

/// Allocating a cluster on a device of `size` declared sectors: the first
/// free cluster is filled with zeros; where `old` names a cluster, the last
/// cluster of its chain is made to continue in the new one; and the new
/// cluster is marked as the end of its chain. Each step that fails ends the
/// allocation and leaves what was written before it.
pub open spec fn allocate(s: Seq<Seq<u8>>, l: Layout, size: nat, old: Option<usize>) -> Step<
    usize,
> {
    match find_free(s, l, scan_start(l), cluster_limit(l, size)) {
        Err(e) => Step { sectors: s, result: Err(e) },
        Ok(new) => {
            let zeroed = put_cluster(s, l, new, zero_sector());
            match zeroed.result {
                Err(e) => Step { sectors: zeroed.sectors, result: Err(e) },
                Ok(_) => match old {
                    None => close_chain(zeroed.sectors, l, new),
                    Some(o) => match chain_end(zeroed.sectors, l, o as int, size) {
                        Err(e) => Step { sectors: zeroed.sectors, result: Err(e) },
                        Ok(last) => {
                            let linked = set_fat(
                                zeroed.sectors,
                                l,
                                last,
                                FatEntry::Cont(low32(new as usize)),
                            );
                            match linked.result {
                                Err(e) => Step { sectors: linked.sectors, result: Err(e) },
                                Ok(_) => close_chain(linked.sectors, l, new),
                            }
                        },
                    },
                },
            }
        },
    }
}

/// A mounted FAT32 volume.
pub struct Fat32<D: Disk> {
    // The device that holds the volume.
    disk: D,
    // The address of the first table.
    fat_begin: usize,
    // The address of cluster 2.
    cluster_begin: usize,
    // The number of sectors in a cluster.
    cluster_size: usize,
    // The cluster that the root directory starts in.
    rdir_cluster: usize,
}

impl<D: Disk> Fat32<D> {
    /// The device that holds the volume.
    pub closed spec fn disk(&self) -> D {
        self.disk
    }

    /// The sectors of the device.
    pub open spec fn image(&self) -> Seq<Seq<u8>> {
        self.disk().sectors()
    }

    /// The number of sectors that the device declares.
    pub open spec fn limit(&self) -> nat {
        self.disk().size()
    }

    /// Where the tables and the clusters start.
    pub closed spec fn layout(&self) -> Layout {
        Layout { fat_begin: self.fat_begin, cluster_begin: self.cluster_begin }
    }

    /// The number of sectors in a cluster.
    pub closed spec fn cluster_sectors(&self) -> nat {
        self.cluster_size as nat
    }

    /// The cluster that the root directory starts in.
    pub closed spec fn root(&self) -> nat {
        self.rdir_cluster as nat
    }

    /// What holds of every mounted volume: its first sector is the header
    /// that its layout was read from, which no operation writes to.
    pub open spec fn wf(&self) -> bool {
        &&& self.disk().wf()
        &&& self.cluster_sectors() == 1
        &&& self.root() == 2
        &&& 1 <= self.layout().fat_begin <= self.layout().cluster_begin
        &&& self.image().len() > 0
        &&& self.layout() == layout_of(self.image()[0])
    }

    /// Mounts the volume on `disk`: reads its header and works out where the
    /// tables and the clusters start. The tables are not looked at.
    pub fn new(disk: D) -> (r: Result<Fat32<D>, Error>)
        requires
            disk.wf(),
        ensures
            r matches Ok(fs) ==> fs.wf() && fs.disk() == disk && disk.sectors().len() > 0
                && fs.layout() == layout_of(disk.sectors()[0]),
            r matches Err(e) ==> disk.sectors().len() == 0 && e@ == ErrorView::BeyondDiskSize,
    {
        proof {
            disk.lemma_sectors();
        }
        let header = match disk.read_sector(0) {
            Ok(s) => s,
            Err(e) => {
                return Err(e);
            },
        };
        let reserved = header.read_le_u16_at(14);
        let fats = header.read_u8_at(16);
        let fsize = header.read_le_u32_at(36);
        let fat_begin: usize = 1 + reserved as usize;
        assert((fats as u64) * (fsize as u64) <= 255 * 0xffff_ffff) by (nonlinear_arith)
            requires
                fats <= 255,
                fsize <= 0xffff_ffff,
        ;
        let total: u64 = fat_begin as u64 + (fats as u64) * (fsize as u64);
        let cluster_begin: usize = if total > usize::MAX as u64 {
            usize::MAX
        } else {
            total as usize
        };
        Ok(
            Fat32 {
                disk: disk,
                fat_begin: fat_begin,
                cluster_begin: cluster_begin,
                cluster_size: CSIZE,
                rdir_cluster: ROOT_CLUSTER,
            },
        )
    }

    /// Unmounts the volume and gives the device back.
    pub fn into_inner(self) -> (r: D)
        requires
            self.wf(),
        ensures
            r == self.disk(),
            r.wf(),
    {
        self.disk
    }

    /// The device that holds the volume.
    pub fn get_ref(&self) -> (r: &D)
        ensures
            *r == self.disk(),
    {
        &self.disk
    }

    /// Where the tables and the clusters start.
    pub fn geometry(&self) -> (r: Layout)
        ensures
            r == self.layout(),
    {
        Layout { fat_begin: self.fat_begin, cluster_begin: self.cluster_begin }
    }

    /// The cluster that the root directory starts in.
    pub fn root_cluster(&self) -> (r: usize)
        ensures
            r == self.root(),
    {
        self.rdir_cluster
    }

    // The address of the sector of cluster `c`, where it fits the machine
    // word.
    fn cluster_address(&self, c: usize) -> (r: Option<usize>)
        requires
            self.wf(),
            c >= 2,
        ensures
            cluster_lba(self.layout(), c as int) <= usize::MAX ==> r == Some(
                cluster_lba(self.layout(), c as int) as usize,
            ),
            cluster_lba(self.layout(), c as int) > usize::MAX ==> r is None,
    {
        match (c - 2).checked_mul(self.cluster_size) {
            Some(n) => self.cluster_begin.checked_add(n),
            None => None,
        }
    }

    /// The sector of cluster `c`.
    pub fn read_cluster(&self, c: usize) -> (r: Result<Sector, Error>)
        requires
            self.wf(),
            c >= 2,
        ensures
            r matches Ok(s) ==> read_outcome(self.image(), cluster_lba(self.layout(), c as int))
                == Ok::<Seq<u8>, ErrorView>(s@),
            r matches Err(e) ==> read_outcome(self.image(), cluster_lba(self.layout(), c as int))
                == Err::<Seq<u8>, ErrorView>(e@),
    {
        proof {
            self.disk.lemma_sectors();
        }
        match self.cluster_address(c) {
            Some(lba) => self.disk.read_sector(lba),
            None => Err(Error::BeyondDiskSize),
        }
    }

    /// Replaces the sector of cluster `c` by `data`, filled up with zeros.
    pub fn write_cluster(&mut self, c: usize, data: &[u8]) -> (r: Result<(), Error>)
        requires
            old(self).wf(),
            c >= 2,
        ensures
            final(self).wf(),
            final(self).layout() == old(self).layout(),
            final(self).limit() == old(self).limit(),
            final(self).disk().frames() == old(self).disk().frames(),
            final(self).image() == put_cluster(
                old(self).image(),
                old(self).layout(),
                c as int,
                data@,
            ).sectors,
            outcome(r) == put_cluster(old(self).image(), old(self).layout(), c as int, data@).result,
    {
        proof {
            self.disk.lemma_sectors();
        }
        match self.cluster_address(c) {
            Some(lba) => self.disk.write_sector(lba, data),
            None => Err(Error::BeyondDiskSize),
        }
    }

    // The address of the sector that holds the entry of cluster `c`, where
    // it fits the machine word.
    fn fat_address(&self, c: usize) -> (r: Option<usize>)
        ensures
            fat_lba(self.layout(), c as int) <= usize::MAX ==> r == Some(
                fat_lba(self.layout(), c as int) as usize,
            ),
            fat_lba(self.layout(), c as int) > usize::MAX ==> r is None,
    {
        self.fat_begin.checked_add(c / ENTRIES_PER_SECTOR)
    }

    /// What the table says of cluster `c`.
    pub fn read_fate(&self, c: usize) -> (r: Result<FatEntry, Error>)
        requires
            self.wf(),
        ensures
            outcome(r) == fat_entry(self.image(), self.layout(), c as int),
    {
        proof {
            reveal(fat_entry);
            self.disk.lemma_sectors();
        }
        let lba = match self.fat_address(c) {
            Some(lba) => lba,
            None => {
                return Err(Error::BeyondDiskSize);
            },
        };
        let offset = (c % ENTRIES_PER_SECTOR) * 4;
        let fat_sector = match self.disk.read_sector(lba) {
            Ok(s) => s,
            Err(e) => {
                return Err(e);
            },
        };
        let raw = fat_sector.read_le_u32_at(offset);
        let entry = FAT_MASK & raw;
        assert(entry == low28(raw as int)) by {
            assert(0x0FFF_FFFFu32 & raw == raw % 0x1000_0000u32) by (bit_vector);
        }
        let status = if entry >= 0x0FFF_FFF8 {
            FatEntry::End
        } else if entry == 0x0FFF_FFF7 {
            FatEntry::Bad
        } else if entry >= 0x0FFF_FFF0 {
            FatEntry::Reserved(entry)
        } else if entry >= 0x0000_0002 {
            FatEntry::Cont(entry)
        } else if entry == 0x0000_0001 {
            FatEntry::Reserved(entry)
        } else {
            FatEntry::Free
        };
        Ok(status)
    }

    /// Sets the entry of cluster `c` in the table to `fate`.
    pub fn write_fate(&mut self, c: usize, fate: &FatEntry) -> (r: Result<(), Error>)
        requires
            old(self).wf(),
        ensures
            final(self).wf(),
            final(self).layout() == old(self).layout(),
            final(self).limit() == old(self).limit(),
            final(self).disk().frames() == old(self).disk().frames(),
            final(self).image() == set_fat(
                old(self).image(),
                old(self).layout(),
                c as int,
                *fate,
            ).sectors,
            outcome(r) == set_fat(old(self).image(), old(self).layout(), c as int, *fate).result,
    {
        proof {
            self.disk.lemma_sectors();
        }
        let entry: u32 = match *fate {
            FatEntry::Cont(n) => n,
            FatEntry::Free => 0x0000_0000,
            FatEntry::End => 0x0FFF_FFFF,
            FatEntry::Bad => 0x0FFF_FFF7,
            FatEntry::Reserved(n) => n,
        };
        let lba = match self.fat_address(c) {
            Some(lba) => lba,
            None => {
                return Err(Error::BeyondDiskSize);
            },
        };
        let offset = (c % ENTRIES_PER_SECTOR) * 4;
        let mut fat_sector = match self.disk.read_sector(lba) {
            Ok(s) => s,
            Err(e) => {
                return Err(e);
            },
        };
        fat_sector.write_le_u32_at(offset, entry);
        assert(zero_padded(fat_sector@) =~= fat_sector@);
        self.disk.write_sector(lba, fat_sector.as_slice())
    }

    /// The cluster that follows `cluster` in its chain, if the table names
    /// one.
    pub fn next_cluster(&self, cluster: usize) -> (r: Result<Option<usize>, Error>)
        requires
            self.wf(),
        ensures
            outcome(r) == next_of(self.image(), self.layout(), cluster as int),
            r matches Ok(Some(n)) ==> n >= 2,
    {
        proof {
            reveal(fat_entry);
        }
        match self.read_fate(cluster) {
            Ok(FatEntry::Cont(n)) => Ok(Some(n as usize)),
            Ok(_) => Ok(None),
            Err(e) => Err(e),
        }
    }

    // The first free cluster whose sector lies on the device.
    fn find_free_cluster(&self) -> (r: Result<usize, Error>)
        requires
            self.wf(),
        ensures
            outcome(r) matches Ok(new) ==> find_free(
                self.image(),
                self.layout(),
                scan_start(self.layout()),
                cluster_limit(self.layout(), self.limit()),
            ) == Ok::<int, ErrorView>(new as int) && new >= 2,
            outcome(r) matches Err(e) ==> find_free(
                self.image(),
                self.layout(),
                scan_start(self.layout()),
                cluster_limit(self.layout(), self.limit()),
            ) == Err::<int, ErrorView>(e),
    {
        let size = self.disk.info().size;
        let mut new: usize = if self.cluster_begin < 2 {
            2
        } else {
            self.cluster_begin
        };
        let ghost limit = cluster_limit(self.layout(), self.limit());
        loop
            invariant
                self.wf(),
                size == self.limit(),
                limit == cluster_limit(self.layout(), self.limit()),
                new >= 2,
                new >= self.layout().cluster_begin,
                find_free(self.image(), self.layout(), new as int, limit) == find_free(
                    self.image(),
                    self.layout(),
                    scan_start(self.layout()),
                    limit,
                ),
            decreases limit - new,
        {
            // the sector of `new` has to lie on the device
            if size < self.cluster_begin || new - 2 >= size - self.cluster_begin {
                return Err(Error::WriteError);
            }
            match self.read_fate(new) {
                Ok(FatEntry::Free) => {
                    return Ok(new);
                },
                Ok(_) => {},
                Err(e) => {
                    return Err(e);
                },
            }
            new = match new.checked_add(1) {
                Some(n) => n,
                None => {
                    assert(new + 1 >= limit);
                    assert(find_free(self.image(), self.layout(), new + 1, limit) == Err::<
                        int,
                        ErrorView,
                    >(ErrorView::WriteError));
                    return Err(Error::WriteError);
                },
            };
        }
    }

    // The last cluster of the chain that `first` belongs to.
    fn find_chain_end(&self, first: usize) -> (r: Result<usize, Error>)
        requires
            self.wf(),
        ensures
            outcome(r) matches Ok(last) ==> chain_end(
                self.image(),
                self.layout(),
                first as int,
                self.limit(),
            ) == Ok::<int, ErrorView>(last as int),
            outcome(r) matches Err(e) ==> chain_end(
                self.image(),
                self.layout(),
                first as int,
                self.limit(),
            ) == Err::<int, ErrorView>(e),
    {
        let mut fuel = self.disk.info().size;
        let mut at = first;
        loop
            invariant
                self.wf(),
                fuel <= self.limit(),
                chain_end(self.image(), self.layout(), at as int, fuel as nat) == chain_end(
                    self.image(),
                    self.layout(),
                    first as int,
                    self.limit(),
                ),
            decreases fuel,
        {
            match self.read_fate(at) {
                Ok(FatEntry::End) => {
                    return Ok(at);
                },
                Ok(FatEntry::Cont(c)) => {
                    if fuel == 0 {
                        return Err(Error::CorruptFAT);
                    }
                    fuel = fuel - 1;
                    at = c as usize;
                },
                Ok(_) => {
                    return Err(Error::CorruptFAT);
                },
                Err(e) => {
                    return Err(e);
                },
            }
        }
    }

    /// Allocates a cluster: finds the first free one, fills it with zeros
    /// and marks it as the end of a chain. Where `prev` names a cluster, the
    /// chain that it belongs to is made to go on in the new cluster.
    ///
    /// The search starts at the cluster whose number is the address of
    /// cluster 2, and at cluster 2 where that address is below 2, and looks
    /// at every cluster whose sector lies on the device.
    ///
    /// Fails with `WriteError` where no cluster on the device is free, and
    /// with `CorruptFAT` where the chain of `prev` does not end.
    pub fn alloc_cluster(&mut self, prev: Option<usize>) -> (r: Result<usize, Error>)
        requires
            old(self).wf(),
        ensures
            final(self).wf(),
            final(self).layout() == old(self).layout(),
            final(self).limit() == old(self).limit(),
            final(self).disk().frames() == old(self).disk().frames(),
            final(self).image() == allocate(
                old(self).image(),
                old(self).layout(),
                old(self).limit(),
                prev,
            ).sectors,
            outcome(r) == allocate(
                old(self).image(),
                old(self).layout(),
                old(self).limit(),
                prev,
            ).result,
            r matches Ok(new) ==> new >= 2,
    {
        let new = match self.find_free_cluster() {
            Ok(new) => new,
            Err(e) => {
                return Err(e);
            },
        };
        let zeros = Sector::zeroed();
        match self.write_cluster(new, zeros.as_slice()) {
            Ok(_) => {},
            Err(e) => {
                return Err(e);
            },
        }
        if let Some(o) = prev {
            let last = match self.find_chain_end(o) {
                Ok(last) => last,
                Err(e) => {
                    return Err(e);
                },
            };
            match self.write_fate(last, &FatEntry::Cont(low_bits(new))) {
                Ok(_) => {},
                Err(e) => {
                    return Err(e);
                },
            }
        }
        match self.write_fate(new, &FatEntry::End) {
            Ok(_) => Ok(new),
            Err(e) => Err(e),
        }
    }
}

/// The byte that fills up a name on disk.
pub const SPACE: u8 = 0x20;

/// The first byte of the entry that ends a directory.
pub const END_MARK: u8 = 0x00;

/// The first byte of an entry that is not in use.
pub const FREE_MARK: u8 = 0xE5;

/// The attribute bit of a directory.
pub const IS_SUBDIR: u8 = 0x10;

/// The number of entries of a directory in one cluster.
pub const ENTRIES_PER_CLUSTER: usize = 16;

/// The number of bytes of an entry of a directory.
pub const ENTRY_BYTES: usize = 32;

/// The longest chain of a directory that is followed, in clusters.
pub const MAX_HOPS: usize = 0x0800_0000;

/// An entry of a directory.
#[derive(Debug, Clone, PartialEq, Eq)]
pub enum DirEntry {
    /// The end of the directory.
    End,
    /// An entry that is not in use.
    Free,
    /// A directory.
    Dir { name: Vec<u8>, ext: Vec<u8>, start: usize },
    /// A file.
    File { name: Vec<u8>, ext: Vec<u8>, start: usize, size: usize },
}

/// An entry of a directory, with its names as sequences of bytes.
pub enum DirEntryView {
    End,
    Free,
    Dir { name: Seq<u8>, ext: Seq<u8>, start: usize },
    File { name: Seq<u8>, ext: Seq<u8>, start: usize, size: usize },
}

impl View for DirEntry {
    type V = DirEntryView;

    open spec fn view(&self) -> DirEntryView {
        match *self {
            DirEntry::End => DirEntryView::End,
            DirEntry::Free => DirEntryView::Free,
            DirEntry::Dir { name, ext, start } => DirEntryView::Dir {
                name: name@,
                ext: ext@,
                start: start,
            },
            DirEntry::File { name, ext, start, size } => DirEntryView::File {
                name: name@,
                ext: ext@,
                start: start,
                size: size,
            },
        }
    }
}

/// The name of an entry that has one.
pub open spec fn entry_name(d: DirEntryView) -> Option<Seq<u8>> {
    match d {
        DirEntryView::Dir { name, .. } => Some(name),
        DirEntryView::File { name, .. } => Some(name),
        _ => None,
    }
}

/// The extension of an entry that has one.
pub open spec fn entry_ext(d: DirEntryView) -> Option<Seq<u8>> {
    match d {
        DirEntryView::Dir { ext, .. } => Some(ext),
        DirEntryView::File { ext, .. } => Some(ext),
        _ => None,
    }
}

/// The first cluster of an entry that has one.
pub open spec fn entry_start(d: DirEntryView) -> Option<usize> {
    match d {
        DirEntryView::Dir { start, .. } => Some(start),
        DirEntryView::File { start, .. } => Some(start),
        _ => None,
    }
}

/// The size of an entry that is a file.
pub open spec fn entry_size(d: DirEntryView) -> Option<usize> {
    match d {
        DirEntryView::File { size, .. } => Some(size),
        _ => None,
    }
}

impl DirEntry {
    /// The name of a directory or a file, unless it is empty.
    pub fn name(&self) -> (r: Option<&[u8]>)
        ensures
            r is Some == (entry_name(self@) matches Some(n) && n.len() > 0),
            r matches Some(n) ==> Some(n@) == entry_name(self@),
    {
        match self {
            DirEntry::Dir { name, .. } => if name.len() == 0 {
                None
            } else {
                Some(name.as_slice())
            },
            DirEntry::File { name, .. } => if name.len() == 0 {
                None
            } else {
                Some(name.as_slice())
            },
            _ => None,
        }
    }

    /// The extension of a directory or a file, unless it is empty.
    pub fn ext(&self) -> (r: Option<&[u8]>)
        ensures
            r is Some == (entry_ext(self@) matches Some(n) && n.len() > 0),
            r matches Some(n) ==> Some(n@) == entry_ext(self@),
    {
        match self {
            DirEntry::Dir { ext, .. } => if ext.len() == 0 {
                None
            } else {
                Some(ext.as_slice())
            },
            DirEntry::File { ext, .. } => if ext.len() == 0 {
                None
            } else {
                Some(ext.as_slice())
            },
            _ => None,
        }
    }

    /// The first cluster of a directory or a file.
    pub fn start(&self) -> (r: Option<usize>)
        ensures
            r == entry_start(self@),
    {
        match self {
            DirEntry::Dir { start, .. } => Some(*start),
            DirEntry::File { start, .. } => Some(*start),
            _ => None,
        }
    }

    /// The size of a file in bytes.
    pub fn size(&self) -> (r: Option<usize>)
        ensures
            r == entry_size(self@),
    {
        match self {
            DirEntry::File { size, .. } => Some(*size),
            _ => None,
        }
    }
}

/// The length of the first `n` bytes of `b` without the spaces at their end.
pub open spec fn stripped_len(b: Seq<u8>, n: int) -> int
    decreases n,
{
    if n <= 0 {
        0
    } else if b[n - 1] == SPACE {
        stripped_len(b, n - 1)
    } else {
        n
    }
}

/// `b` without the spaces at its end.
pub open spec fn stripped(b: Seq<u8>) -> Seq<u8> {
    b.subrange(0, stripped_len(b, b.len() as int))
}

/// The first `n` bytes of `b`, filled up with spaces where `b` is shorter.
pub open spec fn padded(b: Seq<u8>, n: nat) -> Seq<u8> {
    Seq::new(
        n,
        |i: int|
            if i < b.len() {
                b[i]
            } else {
                SPACE
            },
    )
}

/// The 32 bytes of the entry `i` in the sector of a directory.
pub open spec fn slot(sector: Seq<u8>, i: int) -> Seq<u8> {
    sector.subrange(32 * i, 32 * i + 32)
}

/// The first cluster that the 32 bytes `e` of an entry name.
pub open spec fn stored_start(e: Seq<u8>) -> usize {
    (le_u16(e.subrange(20, 22)) * 65536 + le_u16(e.subrange(26, 28))) as usize
}

/// What the 32 bytes `e` of an entry say. The names come without the
/// spaces that fill them up.
pub open spec fn decode_dire(e: Seq<u8>) -> DirEntryView {
    if e[0] == END_MARK {
        DirEntryView::End
    } else if e[0] == FREE_MARK {
        DirEntryView::Free
    } else if e[11] & IS_SUBDIR != 0 {
        DirEntryView::Dir {
            name: stripped(e.subrange(0, 8)),
            ext: stripped(e.subrange(8, 11)),
            start: stored_start(e),
        }
    } else {
        DirEntryView::File {
            name: stripped(e.subrange(0, 8)),
            ext: stripped(e.subrange(8, 11)),
            start: stored_start(e),
            size: le_u32(e.subrange(28, 32)) as usize,
        }
    }
}

/// The 32 bytes of a directory or a file: the name in 8 bytes and the
/// extension in 3, cut or filled up with spaces; the attributes; the high
/// and the low half of the low 32 bits of the first cluster; the low 32
/// bits of the size; and zeros everywhere else.
pub open spec fn entry_bytes(name: Seq<u8>, ext: Seq<u8>, attr: u8, start: usize, size: usize) -> Seq<
    u8,
> {
    padded(name, 8) + padded(ext, 3) + seq![attr] + Seq::new(8, |i: int| 0u8) + u16_le_bytes(
        (low32(start) / 65536) as u16,
    ) + Seq::new(4, |i: int| 0u8) + u16_le_bytes((low32(start) % 65536) as u16) + u32_le_bytes(
        low32(size),
    )
}

/// The 32 bytes that take the place of `old` when the entry `d` is stored:
/// for the end of a directory and for an entry that is not in use, only
/// the first byte changes.
pub open spec fn encode_dire(old: Seq<u8>, d: DirEntryView) -> Seq<u8> {
    match d {
        DirEntryView::End => old.update(0, END_MARK),
        DirEntryView::Free => old.update(0, FREE_MARK),
        DirEntryView::Dir { name, ext, start } => entry_bytes(name, ext, IS_SUBDIR, start, 0),
        DirEntryView::File { name, ext, start, size } => entry_bytes(name, ext, 0, start, size),
    }
}

/// The cluster that lies `hops` links behind `cluster` in its chain. Fails
/// with `CorruptFAT` where the chain ends before.
pub open spec fn hop(s: Seq<Seq<u8>>, l: Layout, cluster: usize, hops: nat) -> Result<
    usize,
    ErrorView,
>
    decreases hops,
{
    if hops == 0 {
        Ok(cluster)
    } else {
        match next_of(s, l, cluster as int) {
            Err(e) => Err(e),
            Ok(None) => Err(ErrorView::CorruptFAT),
            Ok(Some(n)) => hop(s, l, n, (hops - 1) as nat),
        }
    }
}

/// The entry `offset` of the directory that starts in `cluster`.
pub open spec fn dire_at(s: Seq<Seq<u8>>, l: Layout, cluster: usize, offset: usize) -> Result<
    DirEntryView,
    ErrorView,
> {
    match hop(s, l, cluster, (offset / 16) as nat) {
        Err(e) => Err(e),
        Ok(c) => match read_outcome(s, cluster_lba(l, c as int)) {
            Err(e) => Err(e),
            Ok(sector) => Ok(decode_dire(slot(sector, offset as int % 16))),
        },
    }
}

/// Storing `d` as the entry `offset` of the directory that starts in
/// `cluster`.
pub open spec fn put_dire(
    s: Seq<Seq<u8>>,
    l: Layout,
    cluster: usize,
    offset: usize,
    d: DirEntryView,
) -> Step<()> {
    match hop(s, l, cluster, (offset / 16) as nat) {
        Err(e) => Step { sectors: s, result: Err(e) },
        Ok(c) => match read_outcome(s, cluster_lba(l, c as int)) {
            Err(e) => Step { sectors: s, result: Err(e) },
            Ok(sector) => Step {
                sectors: s.update(
                    cluster_lba(l, c as int),
                    overlay(
                        sector,
                        32 * (offset as int % 16),
                        encode_dire(slot(sector, offset as int % 16), d),
                    ),
                ),
                result: Ok(()),
            },
        },
    }
}

/// What looking through the entries of one sector for a name ends in.
pub enum Scan {
    /// The entry with this number has the name.
    Found(int),
    /// The directory ends in this sector.
    End,
    /// All entries were looked at.
    Pass,
}

/// Whether the entry `e` has the stem `stem` and the extension `ext`, the
/// spaces that fill up its names apart.
pub open spec fn has_name(e: Seq<u8>, stem: Seq<u8>, ext: Seq<u8>) -> bool {
    stripped(e.subrange(0, 8)) == stem && stripped(e.subrange(8, 11)) == ext
}

/// Looking through the entries of `sector` from the entry `i` on for the
/// name with the stem `stem` and the extension `ext`. Entries that are not
/// in use are passed over.
pub open spec fn scan_names(sector: Seq<u8>, stem: Seq<u8>, ext: Seq<u8>, i: int) -> Scan
    decreases 16 - i,
{
    if i >= 16 {
        Scan::Pass
    } else if slot(sector, i)[0] == END_MARK {
        Scan::End
    } else if slot(sector, i)[0] != FREE_MARK && has_name(slot(sector, i), stem, ext) {
        Scan::Found(i)
    } else {
        scan_names(sector, stem, ext, i + 1)
    }
}

/// The number of links of a directory's chain that are followed on a
/// device of `size` declared sectors.
pub open spec fn hop_limit(size: nat) -> nat {
    if size < MAX_HOPS {
        size
    } else {
        MAX_HOPS as nat
    }
}

/// The number of the first entry with the stem `stem` and the extension
/// `ext` in the directory that goes on in `cluster`, counted from `base`
/// for the first entry of that cluster. The search ends without a find at
/// the end of the directory, and fails with `CorruptFAT` where the chain
/// ends before, or is longer than `fuel` links.
pub open spec fn find_entry(
    s: Seq<Seq<u8>>,
    l: Layout,
    cluster: usize,
    stem: Seq<u8>,
    ext: Seq<u8>,
    base: int,
    fuel: nat,
) -> Result<Option<usize>, ErrorView>
    decreases fuel,
{
    match read_outcome(s, cluster_lba(l, cluster as int)) {
        Err(e) => Err(e),
        Ok(sector) => match scan_names(sector, stem, ext, 0) {
            Scan::Found(i) => Ok(Some((base + i) as usize)),
            Scan::End => Ok(None),
            Scan::Pass => match next_of(s, l, cluster as int) {
                Err(e) => Err(e),
                Ok(None) => Err(ErrorView::CorruptFAT),
                Ok(Some(n)) => if fuel == 0 {
                    Err(ErrorView::CorruptFAT)
                } else {
                    find_entry(s, l, n, stem, ext, base + 16, (fuel - 1) as nat)
                },
            },
        },
    }
}

/// The stem that the path `p` is looked up by: that of its file name, or
/// nothing where it has none.
pub open spec fn lookup_stem(p: Seq<u8>) -> Seq<u8> {
    match file_stem_of(p) {
        Some(x) => x,
        None => Seq::empty(),
    }
}

/// The extension that the path `p` is looked up by: that of its file name,
/// or nothing where it has none.
pub open spec fn lookup_ext(p: Seq<u8>) -> Seq<u8> {
    match path_extension_of(p) {
        Some(x) => x,
        None => Seq::empty(),
    }
}

/// What looking through the entries of one sector for room ends in.
pub enum Room {
    /// The entry with this number is not in use.
    Free(int),
    /// The directory ends in the entry with this number.
    End(int),
    /// All entries are in use.
    Full,
}

/// Looking through the entries of `sector` from the entry `i` on for one
/// that is not in use, or for the end of the directory.
pub open spec fn scan_room(sector: Seq<u8>, i: int) -> Room
    decreases 16 - i,
{
    if i >= 16 {
        Room::Full
    } else if slot(sector, i)[0] == FREE_MARK {
        Room::Free(i)
    } else if slot(sector, i)[0] == END_MARK {
        Room::End(i)
    } else {
        scan_room(sector, i + 1)
    }
}

/// Moving the end of a directory one entry on, from the entry `i` of
/// `cluster`: that entry is marked as not in use, and the end is stored in
/// the entry behind it, or, where `i` is the last entry of the cluster, in
/// the first entry of a cluster that is allocated for the chain.
pub open spec fn push_end(s: Seq<Seq<u8>>, l: Layout, size: nat, cluster: usize, i: usize) -> Step<
    (),
> {
    let freed = put_dire(s, l, cluster, i, DirEntryView::Free);
    match freed.result {
        Err(e) => freed,
        Ok(_) => if i < 15 {
            put_dire(freed.sectors, l, cluster, (i + 1) as usize, DirEntryView::End)
        } else {
            let grown = allocate(freed.sectors, l, size, Some(cluster));
            match grown.result {
                Err(e) => Step { sectors: grown.sectors, result: Err(e) },
                Ok(new) => put_dire(grown.sectors, l, new, 0, DirEntryView::End),
            }
        },
    }
}

/// Finding room for an entry in the directory that goes on in `cluster`,
/// whose first entry has the number `base`: the first entry that is not in
/// use, or the entry that ends the directory, whose end is then moved one
/// entry on.
pub open spec fn make_room(
    s: Seq<Seq<u8>>,
    l: Layout,
    size: nat,
    cluster: usize,
    base: int,
    fuel: nat,
) -> Step<usize>
    decreases fuel,
{
    match read_outcome(s, cluster_lba(l, cluster as int)) {
        Err(e) => Step { sectors: s, result: Err(e) },
        Ok(sector) => match scan_room(sector, 0) {
            Room::Free(i) => Step { sectors: s, result: Ok((base + i) as usize) },
            Room::End(i) => {
                let moved = push_end(s, l, size, cluster, i as usize);
                Step {
                    sectors: moved.sectors,
                    result: match moved.result {
                        Err(e) => Err(e),
                        Ok(_) => Ok((base + i) as usize),
                    },
                }
            },
            Room::Full => match next_of(s, l, cluster as int) {
                Err(e) => Step { sectors: s, result: Err(e) },
                Ok(None) => Step { sectors: s, result: Err(ErrorView::CorruptFAT) },
                Ok(Some(n)) => if fuel == 0 {
                    Step { sectors: s, result: Err(ErrorView::CorruptFAT) }
                } else {
                    make_room(s, l, size, n, base + 16, (fuel - 1) as nat)
                },
            },
        },
    }
}

// The length of the `n` bytes of `sector` from `at` on without the spaces
// at their end.
fn strip_spaces(sector: &Sector, at: usize, n: usize) -> (r: usize)
    requires
        at + n <= 512,
    ensures
        r == stripped_len(sector@.subrange(at as int, at + n), n as int),
        r <= n,
{
    let ghost b = sector@.subrange(at as int, at + n);
    let mut k = n;
    while k > 0 && sector.read_u8_at(at + k - 1) == SPACE
        invariant
            k <= n,
            at + n <= 512,
            b == sector@.subrange(at as int, at + n),
            stripped_len(b, k as int) == stripped_len(b, n as int),
        decreases k,
    {
        k -= 1;
    }
    k
}

// The `n` bytes of `sector` from `at` on without the spaces at their end.
fn stripped_field(sector: &Sector, at: usize, n: usize) -> (r: Vec<u8>)
    requires
        at + n <= 512,
    ensures
        r@ == stripped(sector@.subrange(at as int, at + n)),
{
    let k = strip_spaces(sector, at, n);
    let r = slice_to_vec(slice_subrange(sector.as_slice(), at, at + k));
    assert(r@ =~= stripped(sector@.subrange(at as int, at + n)));
    r
}

// Whether the `n` bytes of `sector` from `at` on, without the spaces at
// their end, are the bytes of `name`.
fn field_is(sector: &Sector, at: usize, n: usize, name: &[u8]) -> (r: bool)
    requires
        at + n <= 512,
    ensures
        r == (stripped(sector@.subrange(at as int, at + n)) == name@),
{
    let k = strip_spaces(sector, at, n);
    let ghost field = stripped(sector@.subrange(at as int, at + n));
    assert(field.len() == k);
    if k != name.len() {
        return false;
    }
    let mut i: usize = 0;
    while i < k
        invariant
            i <= k <= n,
            at + n <= 512,
            k == name@.len(),
            field == stripped(sector@.subrange(at as int, at + n)),
            field.len() == k,
            forall|j: int| 0 <= j < k ==> field[j] == sector@[at + j],
            forall|j: int| 0 <= j < i ==> field[j] == name@[j],
        decreases k - i,
    {
        if sector.read_u8_at(at + i) != name[i] {
            assert(field[i as int] != name@[i as int]);
            return false;
        }
        i += 1;
    }
    assert(field =~= name@);
    true
}

// Writes the first `n` bytes of `name`, filled up with spaces, into
// `sector` from `at` on.
fn write_padded(sector: &mut Sector, at: usize, n: usize, name: &[u8])
    requires
        at + n <= 512,
    ensures
        final(sector)@ == overlay(old(sector)@, at as int, padded(name@, n as nat)),
{
    let mut i: usize = 0;
    while i < n
        invariant
            i <= n,
            at + n <= 512,
            sector@ == overlay(old(sector)@, at as int, padded(name@, n as nat).subrange(0, i as int)),
        decreases n - i,
    {
        let b = if i < name.len() {
            name[i]
        } else {
            SPACE
        };
        sector.write_u8_at(at + i, b);
        i += 1;
        assert(sector@ =~= overlay(
            old(sector)@,
            at as int,
            padded(name@, n as nat).subrange(0, i as int),
        ));
    }
    assert(padded(name@, n as nat).subrange(0, n as int) =~= padded(name@, n as nat));
}

// Writes zeros over the `n` bytes of `sector` from `at` on.
fn write_zeros(sector: &mut Sector, at: usize, n: usize)
    requires
        at + n <= 512,
    ensures
        final(sector)@ == overlay(old(sector)@, at as int, Seq::new(n as nat, |i: int| 0u8)),
{
    let mut i: usize = 0;
    while i < n
        invariant
            i <= n,
            at + n <= 512,
            sector@ == overlay(old(sector)@, at as int, Seq::new(i as nat, |i: int| 0u8)),
        decreases n - i,
    {
        sector.write_u8_at(at + i, 0);
        i += 1;
        assert(sector@ =~= overlay(old(sector)@, at as int, Seq::new(i as nat, |i: int| 0u8)));
    }
}

// Reads the entry that the 32 bytes of `sector` from `at` on hold.
fn parse_dire(sector: &Sector, index: usize) -> (r: DirEntry)
    requires
        index < 16,
    ensures
        r@ == decode_dire(slot(sector@, index as int)),
{
    let at = index * ENTRY_BYTES;
    let ghost e = slot(sector@, index as int);
    let first = sector.read_u8_at(at);
    if first == END_MARK {
        return DirEntry::End;
    }
    if first == FREE_MARK {
        return DirEntry::Free;
    }
    proof {
        assert(sector@.subrange(at as int, at + 8) =~= e.subrange(0, 8));
        assert(sector@.subrange(at + 8, at + 8 + 3) =~= e.subrange(8, 11));
        assert(sector@.subrange(at + 20, at + 20 + 2) =~= e.subrange(20, 22));
        assert(sector@.subrange(at + 26, at + 26 + 2) =~= e.subrange(26, 28));
        assert(sector@.subrange(at + 28, at + 28 + 4) =~= e.subrange(28, 32));
    }
    let name = stripped_field(sector, at, 8);
    let ext = stripped_field(sector, at + 8, 3);
    let attrib = sector.read_u8_at(at + 11);
    let cluster_hi = sector.read_le_u16_at(at + 20) as usize;
    let cluster_lo = sector.read_le_u16_at(at + 26) as usize;
    let cluster = cluster_hi * 65536 + cluster_lo;
    if attrib & IS_SUBDIR != 0 {
        DirEntry::Dir { name: name, ext: ext, start: cluster }
    } else {
        let size = sector.read_le_u32_at(at + 28) as usize;
        DirEntry::File { name: name, ext: ext, start: cluster, size: size }
    }
}

// Writes the 32 bytes of a directory or a file into `sector` from the
// entry `index` on.
fn write_entry(
    sector: &mut Sector,
    index: usize,
    name: &[u8],
    ext: &[u8],
    attr: u8,
    start: usize,
    size: usize,
)
    requires
        index < 16,
    ensures
        final(sector)@ == overlay(
            old(sector)@,
            32 * index as int,
            entry_bytes(name@, ext@, attr, start, size),
        ),
{
    let at = index * ENTRY_BYTES;
    let cluster = low_bits(start);
    write_padded(sector, at, 8, name);
    write_padded(sector, at + 8, 3, ext);
    sector.write_u8_at(at + 11, attr);
    write_zeros(sector, at + 12, 8);
    sector.write_le_u16_at(at + 20, (cluster / 65536) as u16);
    write_zeros(sector, at + 22, 4);
    sector.write_le_u16_at(at + 26, (cluster % 65536) as u16);
    sector.write_le_u32_at(at + 28, low_bits(size));
    assert(sector@ =~= overlay(
        old(sector)@,
        32 * index as int,
        entry_bytes(name@, ext@, attr, start, size),
    ));
}

impl<D: Disk> Fat32<D> {
    // The cluster and the entry in it that the entry `offset` of the
    // directory that starts in `cluster` lies in.
    fn seek(&self, cluster: usize, offset: usize) -> (r: Result<(usize, usize), Error>)
        requires
            self.wf(),
            cluster >= 2,
        ensures
            r matches Ok(p) ==> hop(self.image(), self.layout(), cluster, (offset / 16) as nat)
                == Ok::<usize, ErrorView>(p.0) && p.1 == offset % 16 && p.0 >= 2,
            r matches Err(e) ==> hop(self.image(), self.layout(), cluster, (offset / 16) as nat)
                == Err::<usize, ErrorView>(e@),
    {
        let mut at = cluster;
        let mut left = offset;
        while left >= ENTRIES_PER_CLUSTER
            invariant
                self.wf(),
                at >= 2,
                left % 16 == offset % 16,
                hop(self.image(), self.layout(), at, (left / 16) as nat) == hop(
                    self.image(),
                    self.layout(),
                    cluster,
                    (offset / 16) as nat,
                ),
            decreases left,
        {
            at = match self.next_cluster(at) {
                Ok(Some(n)) => n,
                Ok(None) => {
                    return Err(Error::CorruptFAT);
                },
                Err(e) => {
                    return Err(e);
                },
            };
            left = left - ENTRIES_PER_CLUSTER;
        }
        Ok((at, left))
    }

    /// The entry `offset` of the directory that starts in `cluster`.
    ///
    /// Fails with `CorruptFAT` where the chain of the directory ends before
    /// the cluster of that entry.
    pub fn get_dire(&self, cluster: usize, offset: usize) -> (r: Result<DirEntry, Error>)
        requires
            self.wf(),
            cluster >= 2,
        ensures
            r matches Ok(d) ==> dire_at(self.image(), self.layout(), cluster, offset) == Ok::<
                DirEntryView,
                ErrorView,
            >(d@),
            r matches Err(e) ==> dire_at(self.image(), self.layout(), cluster, offset) == Err::<
                DirEntryView,
                ErrorView,
            >(e@),
    {
        let (at, index) = match self.seek(cluster, offset) {
            Ok(p) => p,
            Err(e) => {
                return Err(e);
            },
        };
        let sector = match self.read_cluster(at) {
            Ok(s) => s,
            Err(e) => {
                return Err(e);
            },
        };
        Ok(parse_dire(&sector, index))
    }

    /// Stores `dire` as the entry `offset` of the directory that starts in
    /// `cluster`.
    ///
    /// Fails with `CorruptFAT` where the chain of the directory ends before
    /// the cluster of that entry; nothing is written then.
    pub fn set_dire(&mut self, cluster: usize, offset: usize, dire: &DirEntry) -> (r: Result<
        (),
        Error,
    >)
        requires
            old(self).wf(),
            cluster >= 2,
        ensures
            final(self).wf(),
            final(self).layout() == old(self).layout(),
            final(self).limit() == old(self).limit(),
            final(self).disk().frames() == old(self).disk().frames(),
            final(self).image() == put_dire(
                old(self).image(),
                old(self).layout(),
                cluster,
                offset,
                dire@,
            ).sectors,
            outcome(r) == put_dire(
                old(self).image(),
                old(self).layout(),
                cluster,
                offset,
                dire@,
            ).result,
    {
        proof {
            self.disk.lemma_sectors();
        }
        let (at, index) = match self.seek(cluster, offset) {
            Ok(p) => p,
            Err(e) => {
                return Err(e);
            },
        };
        let mut sector = match self.read_cluster(at) {
            Ok(s) => s,
            Err(e) => {
                return Err(e);
            },
        };
        let ghost before = sector@;
        match dire {
            DirEntry::End => {
                sector.write_u8_at(index * ENTRY_BYTES, END_MARK);
            },
            DirEntry::Free => {
                sector.write_u8_at(index * ENTRY_BYTES, FREE_MARK);
            },
            DirEntry::Dir { name, ext, start } => {
                write_entry(&mut sector, index, name.as_slice(), ext.as_slice(), IS_SUBDIR, *start, 0);
            },
            DirEntry::File { name, ext, start, size } => {
                write_entry(&mut sector, index, name.as_slice(), ext.as_slice(), 0, *start, *size);
            },
        }
        assert(sector@ =~= overlay(
            before,
            32 * (offset as int % 16),
            encode_dire(slot(before, offset as int % 16), dire@),
        ));
        assert(zero_padded(sector@) =~= sector@);
        self.write_cluster(at, sector.as_slice())
    }

    // Looks through the entries of `sector` for the name with the stem
    // `stem` and the extension `ext`.
    fn scan_sector(sector: &Sector, stem: &[u8], ext: &[u8]) -> (r: Option<Option<usize>>)
        ensures
            r matches Some(Some(i)) ==> scan_names(sector@, stem@, ext@, 0) == Scan::Found(i as int)
                && i < 16,
            r matches Some(None) ==> scan_names(sector@, stem@, ext@, 0) == Scan::End,
            r is None ==> scan_names(sector@, stem@, ext@, 0) == Scan::Pass,
    {
        let mut i: usize = 0;
        while i < ENTRIES_PER_CLUSTER
            invariant
                i <= 16,
                scan_names(sector@, stem@, ext@, i as int) == scan_names(sector@, stem@, ext@, 0),
            decreases 16 - i,
        {
            let at = i * ENTRY_BYTES;
            let ghost e = slot(sector@, i as int);
            let first = sector.read_u8_at(at);
            if first == END_MARK {
                return Some(None);
            }
            if first != FREE_MARK {
                proof {
                    assert(sector@.subrange(at as int, at + 8) =~= e.subrange(0, 8));
                    assert(sector@.subrange(at + 8, at + 8 + 3) =~= e.subrange(8, 11));
                }
                if field_is(sector, at, 8, stem) && field_is(sector, at + 8, 3, ext) {
                    return Some(Some(i));
                }
            }
            i += 1;
        }
        None
    }

    /// The number of the entry for `child` in the directory that starts in
    /// `cluster`, if there is one. Of `child` only the stem and the
    /// extension of its file name count.
    ///
    /// Fails with `CorruptFAT` where the chain of the directory ends before
    /// the directory does.
    pub fn find_dire_index(&self, cluster: usize, child: Path<'_>) -> (r: Result<
        Option<usize>,
        Error,
    >)
        requires
            self.wf(),
            cluster >= 2,
        ensures
            outcome(r) == find_entry(
                self.image(),
                self.layout(),
                cluster,
                lookup_stem(child@),
                lookup_ext(child@),
                0,
                hop_limit(self.limit()),
            ),
    {
        let empty: [u8; 0] = [];
        let stem: &[u8] = match child.file_stem() {
            Some(x) => x,
            None => {
                assert(empty@ =~= Seq::<u8>::empty());
                empty.as_slice()
            },
        };
        let ext: &[u8] = match child.extension() {
            Some(x) => x,
            None => {
                assert(empty@ =~= Seq::<u8>::empty());
                empty.as_slice()
            },
        };
        let size = self.disk.info().size;
        let mut fuel: usize = if size < MAX_HOPS {
            size
        } else {
            MAX_HOPS
        };
        let mut at = cluster;
        let mut dire_index: usize = 0;
        loop
            invariant
                self.wf(),
                at >= 2,
                stem@ == lookup_stem(child@),
                ext@ == lookup_ext(child@),
                fuel <= MAX_HOPS,
                dire_index + 16 * fuel <= 16 * MAX_HOPS,
                find_entry(
                    self.image(),
                    self.layout(),
                    at,
                    stem@,
                    ext@,
                    dire_index as int,
                    fuel as nat,
                ) == find_entry(
                    self.image(),
                    self.layout(),
                    cluster,
                    lookup_stem(child@),
                    lookup_ext(child@),
                    0,
                    hop_limit(self.limit()),
                ),
            decreases fuel,
        {
            let sector = match self.read_cluster(at) {
                Ok(s) => s,
                Err(e) => {
                    return Err(e);
                },
            };
            match Self::scan_sector(&sector, stem, ext) {
                Some(Some(i)) => {
                    return Ok(Some(dire_index + i));
                },
                Some(None) => {
                    return Ok(None);
                },
                None => {},
            }
            at = match self.next_cluster(at) {
                Ok(Some(c)) => c,
                Ok(None) => {
                    return Err(Error::CorruptFAT);
                },
                Err(e) => {
                    return Err(e);
                },
            };
            if fuel == 0 {
                return Err(Error::CorruptFAT);
            }
            fuel = fuel - 1;
            dire_index = dire_index + 16;
        }
    }

    /// The first cluster of `child` in the directory that starts in
    /// `cluster`, if the directory has an entry for it.
    pub fn find_dire_cluster(&self, cluster: usize, child: Path<'_>) -> (r: Result<
        Option<usize>,
        Error,
    >)
        requires
            self.wf(),
            cluster >= 2,
        ensures
            outcome(r) == find_start(
                self.image(),
                self.layout(),
                self.limit(),
                cluster,
                lookup_stem(child@),
                lookup_ext(child@),
            ),
    {
        match self.find_dire_index(cluster, child) {
            Ok(Some(i)) => match self.get_dire(cluster, i) {
                Ok(d) => Ok(d.start()),
                Err(e) => Err(e),
            },
            Ok(None) => Ok(None),
            Err(e) => Err(e),
        }
    }

    // Looks through the entries of `sector` for one that is not in use, or
    // for the end of the directory.
    fn scan_for_room(sector: &Sector) -> (r: (bool, usize))
        ensures
            r.1 <= 16,
            r.1 == 16 ==> scan_room(sector@, 0) == Room::Full,
            r.1 < 16 && r.0 ==> scan_room(sector@, 0) == Room::Free(r.1 as int),
            r.1 < 16 && !r.0 ==> scan_room(sector@, 0) == Room::End(r.1 as int),
    {
        let mut i: usize = 0;
        while i < ENTRIES_PER_CLUSTER
            invariant
                i <= 16,
                scan_room(sector@, i as int) == scan_room(sector@, 0),
            decreases 16 - i,
        {
            let first = sector.read_u8_at(i * ENTRY_BYTES);
            if first == FREE_MARK {
                return (true, i);
            }
            if first == END_MARK {
                return (false, i);
            }
            i += 1;
        }
        (false, 16)
    }

    // Moves the end of a directory one entry on, from the entry `i` of
    // `cluster`.
    fn move_end(&mut self, cluster: usize, i: usize) -> (r: Result<(), Error>)
        requires
            old(self).wf(),
            cluster >= 2,
            i < 16,
        ensures
            final(self).wf(),
            final(self).layout() == old(self).layout(),
            final(self).limit() == old(self).limit(),
            final(self).disk().frames() == old(self).disk().frames(),
            final(self).image() == push_end(
                old(self).image(),
                old(self).layout(),
                old(self).limit(),
                cluster,
                i,
            ).sectors,
            outcome(r) == push_end(
                old(self).image(),
                old(self).layout(),
                old(self).limit(),
                cluster,
                i,
            ).result,
    {
        match self.set_dire(cluster, i, &DirEntry::Free) {
            Ok(_) => {},
            Err(e) => {
                return Err(e);
            },
        }
        if i < 15 {
            self.set_dire(cluster, i + 1, &DirEntry::End)
        } else {
            let new = match self.alloc_cluster(Some(cluster)) {
                Ok(new) => new,
                Err(e) => {
                    return Err(e);
                },
            };
            self.set_dire(new, 0, &DirEntry::End)
        }
    }

    /// Finds room for an entry in the directory that starts in `cluster`,
    /// and answers with the number of the entry: the first one that is not
    /// in use, or the one that ended the directory, whose end is then moved
    /// one entry on, into a new cluster where the last one is full.
    ///
    /// Fails with `CorruptFAT` where the chain of the directory ends before
    /// the directory does.
    pub fn alloc_dire(&mut self, cluster: usize) -> (r: Result<usize, Error>)
        requires
            old(self).wf(),
            cluster >= 2,
        ensures
            final(self).wf(),
            final(self).layout() == old(self).layout(),
            final(self).limit() == old(self).limit(),
            final(self).disk().frames() == old(self).disk().frames(),
            final(self).image() == make_room(
                old(self).image(),
                old(self).layout(),
                old(self).limit(),
                cluster,
                0,
                hop_limit(old(self).limit()),
            ).sectors,
            outcome(r) == make_room(
                old(self).image(),
                old(self).layout(),
                old(self).limit(),
                cluster,
                0,
                hop_limit(old(self).limit()),
            ).result,
    {
        let size = self.disk.info().size;
        let mut fuel: usize = if size < MAX_HOPS {
            size
        } else {
            MAX_HOPS
        };
        let mut at = cluster;
        let mut base: usize = 0;
        loop
            invariant
                self.wf(),
                at >= 2,
                self.layout() == old(self).layout(),
                self.limit() == old(self).limit(),
                self.disk().frames() == old(self).disk().frames(),
                fuel <= MAX_HOPS,
                base + 16 * fuel <= 16 * MAX_HOPS,
                make_room(
                    self.image(),
                    self.layout(),
                    self.limit(),
                    at,
                    base as int,
                    fuel as nat,
                ) == make_room(
                    old(self).image(),
                    old(self).layout(),
                    old(self).limit(),
                    cluster,
                    0,
                    hop_limit(old(self).limit()),
                ),
            decreases fuel,
        {
            let sector = match self.read_cluster(at) {
                Ok(s) => s,
                Err(e) => {
                    return Err(e);
                },
            };
            let (free, i) = Self::scan_for_room(&sector);
            if i < 16 {
                if free {
                    return Ok(base + i);
                }
                return match self.move_end(at, i) {
                    Ok(_) => Ok(base + i),
                    Err(e) => Err(e),
                };
            }
            at = match self.next_cluster(at) {
                Ok(Some(c)) => c,
                Ok(None) => {
                    return Err(Error::CorruptFAT);
                },
                Err(e) => {
                    return Err(e);
                },
            };
            if fuel == 0 {
                return Err(Error::CorruptFAT);
            }
            fuel = fuel - 1;
            base = base + 16;
        }
    }
}

/// The first cluster of the entry with the stem `stem` and the extension
/// `ext` in the directory that starts in `cluster`, if there is one.
pub open spec fn find_start(
    s: Seq<Seq<u8>>,
    l: Layout,
    size: nat,
    cluster: usize,
    stem: Seq<u8>,
    ext: Seq<u8>,
) -> Result<Option<usize>, ErrorView> {
    match find_entry(s, l, cluster, stem, ext, 0, hop_limit(size)) {
        Err(e) => Err(e),
        Ok(None) => Ok(None),
        Ok(Some(i)) => match dire_at(s, l, cluster, i) {
            Err(e) => Err(e),
            Ok(d) => Ok(entry_start(d)),
        },
    }
}

/// The path `p` without its last `n` components, as far as it has them.
pub open spec fn ancestor(p: Seq<u8>, n: nat) -> Seq<u8>
    decreases n,
{
    if n == 0 {
        p
    } else {
        match parent_of(p) {
            Some(q) => ancestor(q, (n - 1) as nat),
            None => p,
        }
    }
}

/// Following the components of `path` from the component `k` on, with
/// `cluster` as the directory that was reached: the root leads to the root
/// directory, and every other component is looked up, by the stem and the
/// extension of its text, in the directory reached. Where it is not found,
/// the walk fails with the path up to that component; where its entry
/// names no cluster, with `CorruptFAT`.
pub open spec fn resolve(
    s: Seq<Seq<u8>>,
    l: Layout,
    size: nat,
    path: Seq<u8>,
    k: int,
    cluster: usize,
) -> Result<usize, ErrorView>
    decreases path_components(path).len() - k,
{
    let comps = path_components(path);
    if k < 0 || k >= comps.len() {
        Ok(cluster)
    } else if comps[k] is RootDir {
        resolve(s, l, size, path, k + 1, ROOT_CLUSTER)
    } else {
        let text = component_text(comps[k]);
        match find_start(s, l, size, cluster, lookup_stem(text), lookup_ext(text)) {
            Err(e) => Err(e),
            Ok(None) => Err(
                ErrorView::Nonexistent(ancestor(path, (comps.len() - 1 - k) as nat)),
            ),
            Ok(Some(c)) => if c < 2 {
                Err(ErrorView::CorruptFAT)
            } else {
                resolve(s, l, size, path, k + 1, c)
            },
        }
    }
}

/// The cluster that the directory `path` starts in.
pub open spec fn directory(s: Seq<Seq<u8>>, l: Layout, size: nat, path: Seq<u8>) -> Result<
    usize,
    ErrorView,
> {
    resolve(s, l, size, path, 0, ROOT_CLUSTER)
}

/// The cluster that the parent of `path` starts in; the root directory
/// where `path` has no parent.
pub open spec fn parent_directory(s: Seq<Seq<u8>>, l: Layout, size: nat, path: Seq<u8>) -> Result<
    usize,
    ErrorView,
> {
    match parent_of(path) {
        Some(p) => directory(s, l, size, p),
        None => Ok(ROOT_CLUSTER),
    }
}

/// Whether every byte of `b` is ASCII.
pub open spec fn is_ascii(b: Seq<u8>) -> bool {
    forall|i: int| 0 <= i < b.len() ==> b[i] < 0x80
}

/// The stem that `path` is stored under: that of its file name, which it
/// has to have, and which has to be ASCII.
pub open spec fn stored_stem(path: Seq<u8>) -> Result<Seq<u8>, ErrorView> {
    match file_stem_of(path) {
        Some(x) => if is_ascii(x) {
            Ok(x)
        } else {
            Err(ErrorView::InvalidPath)
        },
        None => Err(ErrorView::InvalidPath),
    }
}

/// The extension that `path` is stored under: that of its file name, which
/// has to be ASCII, or nothing where it has none.
pub open spec fn stored_ext(path: Seq<u8>) -> Result<Seq<u8>, ErrorView> {
    match path_extension_of(path) {
        Some(x) => if is_ascii(x) {
            Ok(x)
        } else {
            Err(ErrorView::InvalidPath)
        },
        None => Ok(Seq::empty()),
    }
}

/// Storing the entry of a new directory or of a file as the entry `i` of
/// the directory `dir`, under the stem and the extension of `path`.
pub open spec fn put_named(
    s: Seq<Seq<u8>>,
    l: Layout,
    path: Seq<u8>,
    dir: usize,
    i: usize,
    is_dir: bool,
    start: usize,
    size: usize,
) -> Step<()> {
    match stored_stem(path) {
        Err(e) => Step { sectors: s, result: Err(e) },
        Ok(name) => match stored_ext(path) {
            Err(e) => Step { sectors: s, result: Err(e) },
            Ok(ext) => put_dire(
                s,
                l,
                dir,
                i,
                if is_dir {
                    DirEntryView::Dir { name: name, ext: ext, start: start }
                } else {
                    DirEntryView::File { name: name, ext: ext, start: start, size: size }
                },
            ),
        },
    }
}

/// Making the directory `path`: its parent is found; a cluster is
/// allocated and made an empty directory; room is made in the parent; and
/// the entry is stored there. Each step that fails ends the work and
/// leaves what was written before it.
pub open spec fn create_dir(s: Seq<Seq<u8>>, l: Layout, size: nat, path: Seq<u8>) -> Step<()> {
    match parent_directory(s, l, size, path) {
        Err(e) => Step { sectors: s, result: Err(e) },
        Ok(dir) => {
            let fresh = allocate(s, l, size, None);
            match fresh.result {
                Err(e) => Step { sectors: fresh.sectors, result: Err(e) },
                Ok(new_c) => {
                    let emptied = put_dire(fresh.sectors, l, new_c, 0, DirEntryView::End);
                    match emptied.result {
                        Err(e) => emptied,
                        Ok(_) => {
                            let room = make_room(emptied.sectors, l, size, dir, 0, hop_limit(size));
                            match room.result {
                                Err(e) => Step { sectors: room.sectors, result: Err(e) },
                                Ok(i) => put_named(room.sectors, l, path, dir, i, true, new_c, 0),
                            }
                        },
                    }
                },
            }
        },
    }
}

/// Writing `data` from the byte `from` on along the chain that goes on in
/// `cluster`, 512 bytes to a cluster: after each cluster that was written,
/// where more of `data` is left, the chain is followed, or grown by a
/// cluster where it ends.
pub open spec fn write_chain(
    s: Seq<Seq<u8>>,
    l: Layout,
    size: nat,
    cluster: usize,
    data: Seq<u8>,
    from: int,
) -> Step<()>
    decreases data.len() - from,
{
    if from < 0 || from >= data.len() {
        Step { sectors: s, result: Ok(()) }
    } else if cluster < 2 {
        Step { sectors: s, result: Err(ErrorView::CorruptFAT) }
    } else {
        let upto = if from + 512 <= data.len() {
            from + 512
        } else {
            data.len() as int
        };
        let put = put_cluster(s, l, cluster as int, data.subrange(from, upto));
        match put.result {
            Err(e) => put,
            Ok(_) => if upto >= data.len() {
                put
            } else {
                match next_of(put.sectors, l, cluster as int) {
                    Err(e) => Step { sectors: put.sectors, result: Err(e) },
                    Ok(Some(n)) => write_chain(put.sectors, l, size, n, data, upto),
                    Ok(None) => {
                        let grown = allocate(put.sectors, l, size, Some(cluster));
                        match grown.result {
                            Err(e) => Step { sectors: grown.sectors, result: Err(e) },
                            Ok(n) => write_chain(grown.sectors, l, size, n, data, upto),
                        }
                    },
                }
            },
        }
    }
}

/// Storing the entry of the file `path` as the entry `i` of the directory
/// `dir`, and then its contents from the cluster `start` on.
pub open spec fn fill_file(
    s: Seq<Seq<u8>>,
    l: Layout,
    size: nat,
    path: Seq<u8>,
    data: Seq<u8>,
    dir: usize,
    i: usize,
    start: usize,
) -> Step<()> {
    let named = put_named(s, l, path, dir, i, false, start, data.len() as usize);
    match named.result {
        Err(e) => named,
        Ok(_) => write_chain(named.sectors, l, size, start, data, 0),
    }
}

/// Storing `data` as the file `path`: its parent is found; where the
/// parent has an entry for it, that entry and its chain are used again,
/// else room is made in the parent and a cluster is allocated; then the
/// entry and the contents are written. Each step that fails ends the work
/// and leaves what was written before it.
pub open spec fn store_file(s: Seq<Seq<u8>>, l: Layout, size: nat, path: Seq<u8>, data: Seq<u8>) -> Step<
    (),
> {
    match parent_directory(s, l, size, path) {
        Err(e) => Step { sectors: s, result: Err(e) },
        Ok(dir) => match find_entry(
            s,
            l,
            dir,
            lookup_stem(path),
            lookup_ext(path),
            0,
            hop_limit(size),
        ) {
            Err(e) => Step { sectors: s, result: Err(e) },
            Ok(Some(i)) => match dire_at(s, l, dir, i) {
                Err(e) => Step { sectors: s, result: Err(e) },
                Ok(d) => match entry_start(d) {
                    None => Step { sectors: s, result: Err(ErrorView::CorruptFAT) },
                    Some(start) => fill_file(s, l, size, path, data, dir, i, start),
                },
            },
            Ok(None) => {
                let room = make_room(s, l, size, dir, 0, hop_limit(size));
                match room.result {
                    Err(e) => Step { sectors: room.sectors, result: Err(e) },
                    Ok(i) => {
                        let fresh = allocate(room.sectors, l, size, None);
                        match fresh.result {
                            Err(e) => Step { sectors: fresh.sectors, result: Err(e) },
                            Ok(start) => fill_file(
                                fresh.sectors,
                                l,
                                size,
                                path,
                                data,
                                dir,
                                i,
                                start,
                            ),
                        }
                    },
                }
            },
        },
    }
}

// Whether every byte of `b` is ASCII.
fn all_ascii(b: &[u8]) -> (r: bool)
    ensures
        r == is_ascii(b@),
{
    let mut i: usize = 0;
    while i < b.len()
        invariant
            i <= b@.len(),
            forall|j: int| 0 <= j < i ==> b@[j] < 0x80,
        decreases b@.len() - i,
    {
        if b[i] >= 0x80 {
            return false;
        }
        i += 1;
    }
    true
}

/// The stem that `path` is stored under.
///
/// Fails with `InvalidPath` where the path has no file name, or a stem
/// that is not ASCII.
pub fn normalize_stem<'a>(path: Path<'a>) -> (r: Result<&'a [u8], Error>)
    ensures
        r matches Ok(x) ==> stored_stem(path@) == Ok::<Seq<u8>, ErrorView>(x@),
        r matches Err(e) ==> stored_stem(path@) == Err::<Seq<u8>, ErrorView>(e@),
{
    match path.file_stem() {
        Some(s) => if all_ascii(s) {
            Ok(s)
        } else {
            Err(Error::InvalidPath)
        },
        None => Err(Error::InvalidPath),
    }
}

/// The extension that `path` is stored under, which is empty where the
/// file name has none.
///
/// Fails with `InvalidPath` where the extension is not ASCII.
pub fn normalize_ext<'a>(path: Path<'a>) -> (r: Result<&'a [u8], Error>)
    ensures
        r matches Ok(x) ==> stored_ext(path@) == Ok::<Seq<u8>, ErrorView>(x@),
        r matches Err(e) ==> stored_ext(path@) == Err::<Seq<u8>, ErrorView>(e@),
{
    match path.extension() {
        Some(s) => if all_ascii(s) {
            Ok(s)
        } else {
            Err(Error::InvalidPath)
        },
        None => {
            let empty: &'static [u8; 0] = &[];
            assert(empty@ =~= Seq::<u8>::empty());
            Ok(empty)
        },
    }
}

impl<D: Disk> Fat32<D> {
    /// The cluster that the directory `path` starts in. The root of the
    /// path, and the empty path, lead to the root directory.
    ///
    /// Fails with `Nonexistent` and the path up to the first component
    /// that was not found, and with `CorruptFAT` where the entry of a
    /// component names a cluster below 2.
    pub fn find_dir(&self, path: Path<'_>) -> (r: Result<usize, Error>)
        requires
            self.wf(),
        ensures
            outcome(r) == directory(self.image(), self.layout(), self.limit(), path@),
            r matches Ok(c) ==> c >= 2,
    {
        let mut cluster = self.rdir_cluster;
        let mut iter = path.components();
        let ghost comps = path_components(path@);
        let ghost mut k: int = 0;
        loop
            invariant
                self.wf(),
                cluster >= 2,
                iter.wf(),
                comps == path_components(path@),
                0 <= k <= comps.len(),
                iter.remaining() == comps.skip(k),
                resolve(self.image(), self.layout(), self.limit(), path@, k, cluster) == directory(
                    self.image(),
                    self.layout(),
                    self.limit(),
                    path@,
                ),
            decreases comps.len() - k,
        {
            let item = match iter.next() {
                Some(item) => item,
                None => {
                    return Ok(cluster);
                },
            };
            proof {
                assert(comps.skip(k)[0] == comps[k]);
                assert(comps.skip(k).drop_first() =~= comps.skip(k + 1));
            }
            match item {
                Component::RootDir => {
                    cluster = self.rdir_cluster;
                },
                _ => {
                    match self.find_dire_cluster(cluster, Path::from_bytes(item.as_os_str())) {
                        Ok(Some(c)) => {
                            if c < 2 {
                                return Err(Error::CorruptFAT);
                            }
                            cluster = c;
                        },
                        Ok(None) => {
                            let ghost left = comps.len() - 1 - k;
                            let mut epath = path;
                            assert(iter.remaining().len() == left);
                            loop
                                invariant
                                    iter.wf(),
                                    ancestor(epath@, iter.remaining().len()) == ancestor(
                                        path@,
                                        left as nat,
                                    ),
                                ensures
                                    epath@ == ancestor(path@, left as nat),
                                decreases iter.remaining().len(),
                            {
                                if iter.next().is_none() {
                                    break ;
                                }
                                epath =
                                match epath.parent() {
                                    Some(p) => p,
                                    None => epath,
                                };
                            }
                            return Err(Error::Nonexistent(epath.to_path_buf()));
                        },
                        Err(e) => {
                            return Err(e);
                        },
                    }
                },
            }
            proof {
                k = k + 1;
            }
        }
    }

    /// The cluster that the parent of `path` starts in; the root directory
    /// where `path` has no parent.
    pub fn find_parent_dir(&self, path: Path<'_>) -> (r: Result<usize, Error>)
        requires
            self.wf(),
        ensures
            outcome(r) == parent_directory(self.image(), self.layout(), self.limit(), path@),
            r matches Ok(c) ==> c >= 2,
    {
        match path.parent() {
            Some(parent) => self.find_dir(parent),
            None => Ok(self.rdir_cluster),
        }
    }

    // Stores the entry of a new directory or of a file as the entry `i`
    // of the directory `dir`, under the stem and the extension of `path`.
    fn set_named(
        &mut self,
        path: Path<'_>,
        dir: usize,
        i: usize,
        is_dir: bool,
        start: usize,
        size: usize,
    ) -> (r: Result<(), Error>)
        requires
            old(self).wf(),
            dir >= 2,
        ensures
            final(self).wf(),
            final(self).layout() == old(self).layout(),
            final(self).limit() == old(self).limit(),
            final(self).disk().frames() == old(self).disk().frames(),
            final(self).image() == put_named(
                old(self).image(),
                old(self).layout(),
                path@,
                dir,
                i,
                is_dir,
                start,
                size,
            ).sectors,
            outcome(r) == put_named(
                old(self).image(),
                old(self).layout(),
                path@,
                dir,
                i,
                is_dir,
                start,
                size,
            ).result,
    {
        let name = match normalize_stem(path) {
            Ok(x) => slice_to_vec(x),
            Err(e) => {
                return Err(e);
            },
        };
        let ext = match normalize_ext(path) {
            Ok(x) => slice_to_vec(x),
            Err(e) => {
                return Err(e);
            },
        };
        let dire = if is_dir {
            DirEntry::Dir { name: name, ext: ext, start: start }
        } else {
            DirEntry::File { name: name, ext: ext, start: start, size: size }
        };
        self.set_dire(dir, i, &dire)
    }

    // Writes `data` along the chain that starts in `start`.
    fn write_contents(&mut self, start: usize, data: &[u8]) -> (r: Result<(), Error>)
        requires
            old(self).wf(),
        ensures
            final(self).wf(),
            final(self).layout() == old(self).layout(),
            final(self).limit() == old(self).limit(),
            final(self).disk().frames() == old(self).disk().frames(),
            final(self).image() == write_chain(
                old(self).image(),
                old(self).layout(),
                old(self).limit(),
                start,
                data@,
                0,
            ).sectors,
            outcome(r) == write_chain(
                old(self).image(),
                old(self).layout(),
                old(self).limit(),
                start,
                data@,
                0,
            ).result,
    {
        let mut fcluster = start;
        let mut from: usize = 0;
        while from < data.len()
            invariant
                self.wf(),
                self.layout() == old(self).layout(),
                self.limit() == old(self).limit(),
                self.disk().frames() == old(self).disk().frames(),
                from <= data@.len(),
                write_chain(
                    self.image(),
                    self.layout(),
                    self.limit(),
                    fcluster,
                    data@,
                    from as int,
                ) == write_chain(
                    old(self).image(),
                    old(self).layout(),
                    old(self).limit(),
                    start,
                    data@,
                    0,
                ),
            decreases data@.len() - from,
        {
            if fcluster < 2 {
                return Err(Error::CorruptFAT);
            }
            let upto = if data.len() - from >= SSIZE {
                from + SSIZE
            } else {
                data.len()
            };
            let chunk = slice_subrange(data, from, upto);
            match self.write_cluster(fcluster, chunk) {
                Ok(_) => {},
                Err(e) => {
                    return Err(e);
                },
            }
            if upto >= data.len() {
                return Ok(());
            }
            // more is left: find where to write it
            fcluster = match self.next_cluster(fcluster) {
                Ok(Some(c)) => c,
                Ok(None) => match self.alloc_cluster(Some(fcluster)) {
                    Ok(c) => c,
                    Err(e) => {
                        return Err(e);
                    },
                },
                Err(e) => {
                    return Err(e);
                },
            };
            from = upto;
        }
        Ok(())
    }
}

impl<D: Disk> FileSystem for Fat32<D> {
    open spec fn mounted(&self) -> bool {
        self.wf()
    }

    /// Makes the directory `path` in its parent, which has to exist: a
    /// cluster is allocated and made an empty directory, and an entry for
    /// it is stored in the parent.
    ///
    /// Fails with `InvalidPath` where the path has no name that can be
    /// stored; the cluster is allocated all the same.
    fn make_dir(&mut self, path: Path<'_>) -> (r: Result<(), Error>)
        ensures
            final(self).layout() == old(self).layout(),
            final(self).limit() == old(self).limit(),
            final(self).disk().frames() == old(self).disk().frames(),
            final(self).image() == create_dir(
                old(self).image(),
                old(self).layout(),
                old(self).limit(),
                path@,
            ).sectors,
            outcome(r) == create_dir(
                old(self).image(),
                old(self).layout(),
                old(self).limit(),
                path@,
            ).result,
    {
        let cluster = match self.find_parent_dir(path) {
            Ok(c) => c,
            Err(e) => {
                return Err(e);
            },
        };
        let new_c = match self.alloc_cluster(None) {
            Ok(c) => c,
            Err(e) => {
                return Err(e);
            },
        };
        match self.set_dire(new_c, 0, &DirEntry::End) {
            Ok(_) => {},
            Err(e) => {
                return Err(e);
            },
        }
        let direi = match self.alloc_dire(cluster) {
            Ok(i) => i,
            Err(e) => {
                return Err(e);
            },
        };
        self.set_named(path, cluster, direi, true, new_c, 0)
    }

    /// Removes nothing and succeeds.
    fn delete(&mut self, path: Path<'_>) -> (r: Result<(), Error>)
        ensures
            r is Ok,
            *final(self) == *old(self),
    {
        Ok(())
    }

    /// Stores `data` as the file `path`, in a directory that has to exist.
    /// A file that exists keeps its first cluster and its chain, which is
    /// grown where `data` needs more clusters, and never cut. A new file
    /// gets as many clusters as `data` takes up, and one where `data` is
    /// empty.
    ///
    /// Fails with `CorruptFAT` where the entry of a file that exists names
    /// a cluster below 2 and `data` is not empty.
    fn write_file(&mut self, path: Path<'_>, data: &[u8]) -> (r: Result<(), Error>)
        ensures
            final(self).layout() == old(self).layout(),
            final(self).limit() == old(self).limit(),
            final(self).disk().frames() == old(self).disk().frames(),
            final(self).image() == store_file(
                old(self).image(),
                old(self).layout(),
                old(self).limit(),
                path@,
                data@,
            ).sectors,
            outcome(r) == store_file(
                old(self).image(),
                old(self).layout(),
                old(self).limit(),
                path@,
                data@,
            ).result,
    {
        let dcluster = match self.find_parent_dir(path) {
            Ok(c) => c,
            Err(e) => {
                return Err(e);
            },
        };
        let found = match self.find_dire_index(dcluster, path) {
            Ok(f) => f,
            Err(e) => {
                return Err(e);
            },
        };
        let (direi, fcluster) = match found {
            Some(i) => {
                let start = match self.get_dire(dcluster, i) {
                    Ok(d) => d.start(),
                    Err(e) => {
                        return Err(e);
                    },
                };
                match start {
                    Some(start) => (i, start),
                    None => {
                        return Err(Error::CorruptFAT);
                    },
                }
            },
            None => {
                let i = match self.alloc_dire(dcluster) {
                    Ok(i) => i,
                    Err(e) => {
                        return Err(e);
                    },
                };
                let start = match self.alloc_cluster(None) {
                    Ok(c) => c,
                    Err(e) => {
                        return Err(e);
                    },
                };
                (i, start)
            },
        };
        match self.set_named(path, dcluster, direi, false, fcluster, data.len()) {
            Ok(_) => {},
            Err(e) => {
                return Err(e);
            },
        }
        self.write_contents(fcluster, data)
    }

    /// Reads nothing and succeeds with no bytes.
    fn read_file(&mut self, path: Path<'_>) -> (r: Result<Vec<u8>, Error>)
        ensures
            r matches Ok(v) && v@.len() == 0,
            *final(self) == *old(self),
    {
        Ok(Vec::new())
    }
}

/// The sectors of a device of `dsize` sectors that are left for tables and
/// clusters: all but the header and `reserved` sectors.
pub open spec fn usable(dsize: int, reserved: int) -> int {
    if dsize > reserved {
        dsize - reserved - 1
    } else {
        0
    }
}

/// How many times a sector of every table, and the 128 clusters that it
/// describes, fit into `a` sectors and leave at least one sector over.
pub open spec fn full_rounds(a: int, fats: int) -> int {
    if a <= 0 {
        0
    } else {
        (a - 1) / (128 + fats)
    }
}

/// The number of sectors of one table, and the number of clusters, of a
/// volume on `dsize` sectors with `fats` tables and `reserved` reserved
/// sectors: one sector of every table for each 128 clusters, and for what
/// is left over one more sector of every table, if more than that is left.
pub open spec fn sizes(dsize: int, fats: int, reserved: int) -> (int, int) {
    let a = usable(dsize, reserved);
    let k = full_rounds(a, fats);
    let left = a - k * (128 + fats);
    if left > fats {
        (k + 1, 128 * k + left - fats)
    } else {
        (k, 128 * k)
    }
}

/// The number of sectors of one table of a formatted volume on `dsize`
/// sectors.
pub open spec fn fat_sectors(dsize: int) -> int {
    sizes(dsize, FATS as int, RESERVED as int).0
}

/// The tables and at least one cluster fit on the device.
pub proof fn lemma_fat_sectors(dsize: int)
    requires
        0 <= dsize,
    ensures
        0 <= fat_sectors(dsize),
        dsize >= 33 ==> 33 + 2 * fat_sectors(dsize) <= dsize,
        dsize < 36 ==> fat_sectors(dsize) == 0,
        dsize >= 36 ==> fat_sectors(dsize) >= 1 && 33 + 2 * fat_sectors(dsize) < dsize,
        2 * fat_sectors(dsize) <= dsize,
{
}

/// The header, the reserved sectors, the tables and the clusters fit on
/// the device; every table has an entry for every cluster; and no more
/// sectors are left over than there are tables.
pub proof fn lemma_sizes(dsize: int, fats: int, reserved: int)
    requires
        0 <= fats,
        0 <= reserved < dsize,
    ensures
        ({
            let (fsize, csize) = sizes(dsize, fats, reserved);
            &&& 0 <= fsize
            &&& 0 <= csize <= 128 * fsize
            &&& 0 <= dsize - (1 + reserved + fats * fsize + csize) <= fats
        }),
{
    let a = usable(dsize, reserved);
    let k = full_rounds(a, fats);
    let d = 128 + fats;
    if a > 0 {
        vstd::arithmetic::div_mod::lemma_fundamental_div_mod(a - 1, d);
        vstd::arithmetic::div_mod::lemma_div_pos_is_pos(a - 1, d);
        vstd::arithmetic::div_mod::lemma_mod_bound(a - 1, d);
    }
    let left = a - k * d;
    assert(k * d == 128 * k + fats * k) by (nonlinear_arith)
        requires
            d == 128 + fats,
    ;
    assert(fats * (k + 1) == fats * k + fats) by (nonlinear_arith);
    assert(k * d == d * k) by (nonlinear_arith);
}

/// Works out the number of sectors of one table, and the number of
/// clusters, of a volume on `dsize` sectors.
pub fn calc_sizes(dsize: usize, fats: usize, reserved: usize) -> (r: (usize, usize))
    requires
        fats <= usize::MAX - 128,
    ensures
        r.0 == sizes(dsize as int, fats as int, reserved as int).0,
        r.1 == sizes(dsize as int, fats as int, reserved as int).1,
{
    let start: usize = if dsize > reserved {
        dsize - reserved - 1
    } else {
        0
    };
    let mut available = start;
    let mut fsize: usize = 0;
    let mut csize: usize = 0;
    while available > 128 + fats
        invariant
            fats <= usize::MAX - 128,
            available + fsize * (128 + fats) == start,
            csize == 128 * fsize,
            start > 0 ==> available >= 1,
        decreases available,
    {
        assert((fsize + 1) * (128 + fats) == fsize * (128 + fats) + (128 + fats))
            by (nonlinear_arith);
        assert(fsize * (128 + fats) >= 128 * fsize) by (nonlinear_arith)
            requires
                fats >= 0,
                fsize >= 0,
        ;
        fsize += 1;
        csize += 128;
        available -= 128;
        available -= fats;
    }
    proof {
        if start > 0 {
            lemma_fundamental_div_mod_converse(
                start - 1,
                128 + fats,
                fsize as int,
                available - 1,
            );
        } else {
            assert(fsize * (128 + fats) == 0);
            assert(fsize == 0) by (nonlinear_arith)
                requires
                    fsize * (128 + fats) == 0,
                    fats >= 0,
                    fsize >= 0,
            ;
        }
        assert(fsize * (128 + fats) >= 128 * fsize) by (nonlinear_arith)
            requires
                fats >= 0,
                fsize >= 0,
        ;
    }
    if available > fats {
        fsize += 1;
        available -= fats;
        csize += available;
    }
    (fsize, csize)
}

/// The header of a volume on `dsize` sectors whose tables have `fsize`
/// sectors: 512 bytes to a sector, one sector to a cluster, 32 reserved
/// sectors, two tables, and the low 32 bits of the number of sectors and
/// of the size of a table.
pub open spec fn header_bytes(dsize: usize, fsize: usize) -> Seq<u8> {
    overlay(
        overlay(
            overlay(
                overlay(
                    overlay(
                        overlay(
                            overlay(zero_sector(), 11, u16_le_bytes(SSIZE as u16)),
                            13,
                            seq![CSIZE as u8],
                        ),
                        14,
                        u16_le_bytes(RESERVED as u16),
                    ),
                    16,
                    seq![FATS as u8],
                ),
                19,
                u16_le_bytes(0),
            ),
            32,
            u32_le_bytes(low32(dsize)),
        ),
        36,
        u32_le_bytes(low32(fsize)),
    )
}

/// The header of a formatted volume on `dsize` sectors.
pub open spec fn format_header(dsize: usize) -> Seq<u8> {
    header_bytes(dsize, fat_sectors(dsize as int) as usize)
}

/// The first sector of a table of a formatted volume: the entries of the
/// clusters 0 and 1 are set aside, the root directory ends in cluster 2,
/// and every other cluster is free.
pub open spec fn first_fat_sector() -> Seq<u8> {
    overlay(
        overlay(overlay(zero_sector(), 0, u32_le_bytes(1)), 4, u32_le_bytes(1)),
        8,
        u32_le_bytes(0x0FFF_FFFF),
    )
}

/// What the sector `i` holds once a device of `dsize` declared sectors is
/// formatted, where it held `old` before: the header, then zeros in the
/// reserved sectors, then the two tables; the clusters stay as they were.
pub open spec fn formatted_sector(dsize: usize, i: int, old: Seq<u8>) -> Seq<u8> {
    let f = fat_sectors(dsize as int);
    if i == 0 {
        format_header(dsize)
    } else if i <= 32 {
        zero_sector()
    } else if i == 33 || i == 33 + f {
        first_fat_sector()
    } else if i < 33 + 2 * f {
        zero_sector()
    } else {
        old
    }
}

/// The sectors `s` of a device of `dsize` declared sectors, formatted.
pub open spec fn formatted(s: Seq<Seq<u8>>, dsize: usize) -> Seq<Seq<u8>> {
    Seq::new(s.len(), |i: int| formatted_sector(dsize, i, s[i]))
}

/// The number of sectors from the start of the device on that formatting
/// writes.
pub open spec fn format_extent(dsize: usize) -> int {
    if fat_sectors(dsize as int) == 0 {
        34
    } else {
        33 + 2 * fat_sectors(dsize as int)
    }
}

/// The sectors `s`, formatted as far as the sector `upto`.
pub open spec fn formatted_upto(s: Seq<Seq<u8>>, dsize: usize, upto: int) -> Seq<Seq<u8>> {
    Seq::new(
        s.len(),
        |i: int|
            if i < upto {
                formatted_sector(dsize, i, s[i])
            } else {
                s[i]
            },
    )
}

// Writes the sector `lba` of a device that is formatted as far as the
// sector `upto`, which is `lba` or lies behind it.
fn format_sector<T: Disk>(
    disk: &mut T,
    lba: usize,
    sector: &Sector,
    Ghost(s): Ghost<Seq<Seq<u8>>>,
    Ghost(dsize): Ghost<usize>,
    Ghost(upto): Ghost<int>,
) -> (r: Result<(), Error>)
    requires
        old(disk).wf(),
        old(disk).sectors() == formatted_upto(s, dsize, upto),
        lba <= upto <= lba + 1,
        sector@ == formatted_sector(dsize, lba as int, s[lba as int]) || lba >= s.len(),
    ensures
        final(disk).wf(),
        final(disk).size() == old(disk).size(),
        final(disk).frames() == old(disk).frames(),
        r is Ok ==> lba < s.len() && final(disk).sectors() == formatted_upto(s, dsize, lba + 1),
        r matches Err(e) ==> lba >= s.len() && e@ == ErrorView::BeyondDiskSize && final(disk).sectors() == formatted(s, dsize),
{
    proof {
        disk.lemma_sectors();
    }
    let r = disk.write_sector(lba, sector.as_slice());
    proof {
        assert(zero_padded(sector@) =~= sector@);
        if r is Ok {
            assert(disk.sectors() =~= formatted_upto(s, dsize, lba + 1));
        } else {
            assert(disk.sectors() =~= formatted(s, dsize));
        }
    }
    r
}

// The header sector of a volume on `dsize` sectors whose tables have
// `fsize` sectors.
fn header_sector(dsize: usize, fsize: usize) -> (header: Sector)
    ensures
        header@ == header_bytes(dsize, fsize),
{
    let mut header = Sector::zeroed();
    header.write_le_u16_at(11, SSIZE as u16);
    header.write_u8_at(13, CSIZE as u8);
    header.write_le_u16_at(14, RESERVED as u16);
    header.write_u8_at(16, FATS as u8);
    header.write_le_u16_at(19, 0);
    header.write_le_u32_at(32, low_bits(dsize));
    header.write_le_u32_at(36, low_bits(fsize));
    header
}

// The first sector of a table of a formatted volume.
fn table_head() -> (first: Sector)
    ensures
        first@ == first_fat_sector(),
{
    let mut first = Sector::zeroed();
    first.write_le_u32_at(0, 0x0000_0001);
    first.write_le_u32_at(4, 0x0000_0001);
    first.write_le_u32_at(8, 0x0FFF_FFFF);
    first
}

// Writes one table of `fsize` sectors from the sector `fat_start` on, on a
// device that is formatted as far as the sector `upto`.
fn format_table<T: Disk>(
    disk: &mut T,
    fat_start: usize,
    fsize: usize,
    Ghost(s): Ghost<Seq<Seq<u8>>>,
    Ghost(dsize): Ghost<usize>,
    Ghost(upto): Ghost<int>,
) -> (r: Result<(), Error>)
    requires
        old(disk).wf(),
        old(disk).sectors() == formatted_upto(s, dsize, upto),
        fat_start <= upto <= fat_start + 1,
        fsize == fat_sectors(dsize as int),
        fat_start == 33 || fat_start == 33 + fsize,
        fat_start + fsize <= usize::MAX,
    ensures
        final(disk).wf(),
        final(disk).size() == old(disk).size(),
        final(disk).frames() == old(disk).frames(),
        r is Ok ==> s.len() >= fat_start + 1 && s.len() >= fat_start + fsize && final(disk).sectors() == formatted_upto(
            s,
            dsize,
            if fsize == 0 {
                fat_start + 1
            } else {
                fat_start + fsize
            },
        ),
        r matches Err(e) ==> e@ == ErrorView::BeyondDiskSize && final(disk).sectors() == formatted(
            s,
            dsize,
        ) && (s.len() < fat_start + 1 || s.len() < fat_start + fsize),
{
    let first = table_head();
    let zeros = Sector::zeroed();
    match format_sector(disk, fat_start, &first, Ghost(s), Ghost(dsize), Ghost(upto)) {
        Ok(_) => {},
        Err(e) => {
            return Err(e);
        },
    }
    let mut j: usize = 1;
    while j < fsize
        invariant
            1 <= j,
            fsize >= 1 ==> j <= fsize,
            fsize == fat_sectors(dsize as int),
            fat_start == 33 || fat_start == 33 + fsize,
            fat_start + fsize <= usize::MAX,
            disk.wf(),
            disk.size() == old(disk).size(),
            disk.frames() == old(disk).frames(),
            zeros@ == zero_sector(),
            s.len() >= fat_start + j,
            disk.sectors() == formatted_upto(s, dsize, fat_start + j),
        decreases fsize - j,
    {
        match format_sector(
            disk,
            fat_start + j,
            &zeros,
            Ghost(s),
            Ghost(dsize),
            Ghost(fat_start + j),
        ) {
            Ok(_) => {},
            Err(e) => {
                return Err(e);
            },
        }
        j += 1;
    }
    Ok(())
}

/// Formats the device as a FAT32 volume: writes the header, zeros in the
/// reserved sectors, and two tables in which only the root directory has
/// a cluster. What lies behind the tables stays as it is.
///
/// Fails with `BeyondDiskSize` where the device is too small for the
/// tables; what lies on the device is then written all the same.
#[verifier::rlimit(50)]
pub fn format<T: Disk>(disk: &mut T) -> (r: Result<(), Error>)
    requires
        old(disk).wf(),
    ensures
        final(disk).wf(),
        final(disk).size() == old(disk).size(),
        final(disk).frames() == old(disk).frames(),
        final(disk).sectors() == formatted(old(disk).sectors(), old(disk).size() as usize),
        r is Ok <==> old(disk).sectors().len() >= format_extent(old(disk).size() as usize),
        r matches Err(e) ==> e@ == ErrorView::BeyondDiskSize,
{
    let dsize = disk.info().size;
    let ghost s = disk.sectors();
    proof {
        disk.lemma_sectors();
        lemma_fat_sectors(dsize as int);
    }
    let (fsize, _) = calc_sizes(dsize, FATS, RESERVED);
    let header = header_sector(dsize, fsize);
    assert(disk.sectors() =~= formatted_upto(s, dsize, 0));
    match format_sector(disk, 0, &header, Ghost(s), Ghost(dsize), Ghost(0)) {
        Ok(_) => {},
        Err(e) => {
            return Err(e);
        },
    }
    let zeros = Sector::zeroed();
    let mut i: usize = 0;
    while i < RESERVED
        invariant
            i <= 32,
            disk.wf(),
            disk.size() == old(disk).size(),
            disk.frames() == old(disk).frames(),
            s == old(disk).sectors(),
            dsize == old(disk).size(),
            format_extent(dsize) >= 34,
            s.len() >= 1 + i,
            zeros@ == zero_sector(),
            disk.sectors() == formatted_upto(s, dsize, 1 + i),
        decreases 32 - i,
    {
        match format_sector(disk, 1 + i, &zeros, Ghost(s), Ghost(dsize), Ghost(1 + i)) {
            Ok(_) => {},
            Err(e) => {
                return Err(e);
            },
        }
        i += 1;
    }
    // the first table
    match format_table(disk, 1 + RESERVED, fsize, Ghost(s), Ghost(dsize), Ghost(33)) {
        Ok(_) => {},
        Err(e) => {
            return Err(e);
        },
    }
    // the second table
    let ghost upto: int = if fsize == 0 {
        34
    } else {
        33 + fsize
    };
    match format_table(disk, 1 + RESERVED + fsize, fsize, Ghost(s), Ghost(dsize), Ghost(upto)) {
        Ok(_) => {},
        Err(e) => {
            return Err(e);
        },
    }
    assert(disk.sectors() =~= formatted(s, dsize));
    Ok(())
}

/// The header of a volume declares the first table behind the header
/// and the 32 reserved sectors, and the clusters behind two tables.
#[verifier::rlimit(50)]
pub proof fn lemma_header_layout(dsize: usize, fsize: usize)
    requires
        fsize <= u32::MAX,
        33 + 2 * fsize <= usize::MAX,
    ensures
        header_bytes(dsize, fsize).len() == 512,
        layout_of(header_bytes(dsize, fsize)).fat_begin == 33,
        layout_of(header_bytes(dsize, fsize)).cluster_begin == 33 + 2 * fsize,
{
    let h = header_bytes(dsize, fsize);
    let b = u32_le_bytes(low32(fsize));
    assert(h.len() == 512);
    assert(h[14] == 32 && h[15] == 0 && h[16] == 2);
    assert(h[36] == b[0] && h[37] == b[1] && h[38] == b[2] && h[39] == b[3]);
    assert(header_reserved(h) == 32);
    assert(header_fats(h) == 2);
    assert(header_fat_size(h) == le_u32(b));
    assert(low32(fsize) == fsize);
    crate::byteorder::lemma_u32_round_trip(low32(fsize));
    assert(header_fat_size(h) == fsize);
    assert(header_fats(h) * header_fat_size(h) == 2 * fsize);
}

/// In the first sector of a table of a formatted volume, the entry of
/// cluster 2 ends its chain, and every entry behind it is free.
pub proof fn lemma_first_fat_sector(c: int)
    requires
        2 <= c < 128,
    ensures
        first_fat_sector().len() == 512,
        classify(
            low28(le_u32(first_fat_sector().subrange(fat_offset(c), fat_offset(c) + 4))),
        ) == if c == 2 {
            FatEntry::End
        } else {
            FatEntry::Free
        },
{
    let t = first_fat_sector();
    if c == 2 {
        assert(t.subrange(8, 12) =~= u32_le_bytes(0x0FFF_FFFF));
    } else {
        assert(t.subrange(fat_offset(c), fat_offset(c) + 4) =~= u32_le_bytes(0));
    }
}

/// A volume that was formatted can be mounted, and is empty: on a device
/// that declares as many sectors as it has, at least 36 and less than 2^32,
/// and whose first sector behind the tables starts with a zero byte, the
/// header after formatting declares the tables from sector 33 on and the
/// clusters behind them, the table says of cluster 2 that it ends its
/// chain, and the first entry of the root directory is the end of the
/// directory.
#[verifier::rlimit(50)]
pub proof fn lemma_format_then_mount(s: Seq<Seq<u8>>, dsize: usize)
    requires
        sectors_wf(s),
        s.len() == dsize,
        36 <= dsize <= u32::MAX,
        s[33 + 2 * fat_sectors(dsize as int)][0] == END_MARK,
    ensures
        formatted(s, dsize).len() == s.len(),
        layout_of(formatted(s, dsize)[0]).fat_begin == 33,
        layout_of(formatted(s, dsize)[0]).cluster_begin == 33 + 2 * fat_sectors(dsize as int),
        fat_entry(formatted(s, dsize), layout_of(formatted(s, dsize)[0]), 2) == Ok::<
            FatEntry,
            ErrorView,
        >(FatEntry::End),
        dire_at(formatted(s, dsize), layout_of(formatted(s, dsize)[0]), ROOT_CLUSTER, 0) == Ok::<
            DirEntryView,
            ErrorView,
        >(DirEntryView::End),
{
    reveal(fat_entry);
    lemma_fat_sectors(dsize as int);
    let f = fat_sectors(dsize as int);
    let t = formatted(s, dsize);
    lemma_header_layout(dsize, f as usize);
    lemma_first_fat_sector(2);
    let l = layout_of(t[0]);
    assert(t[0] == header_bytes(dsize, f as usize));
    assert(t[33] == first_fat_sector());
    assert(fat_lba(l, 2) == 33);
    assert(fat_offset(2) == 8);
    assert(cluster_lba(l, 2) == 33 + 2 * f);
    assert(t[33 + 2 * f] == s[33 + 2 * f]);
    assert(hop(t, l, ROOT_CLUSTER, 0) == Ok::<usize, ErrorView>(ROOT_CLUSTER));
    assert(slot(t[33 + 2 * f], 0)[0] == END_MARK);
}

} // verus!
