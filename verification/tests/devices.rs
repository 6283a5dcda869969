use disk::byteorder::{ReadBytesExt, WriteBytesExt};
use disk::disk::{Disk, Error};
use disk::partition::{get_partition, get_pinfo, mount, set_pinfo};
use disk::partition::{Format, Partition, PartitionInfo};
use disk::ramdisk::RamDisk;
use disk::sector::Sector;

#[test]
fn reading_little_endian() {
    let bytes: &[u8] = &[0x78, 0x56, 0x34, 0x12, 0xFF];
    assert_eq!(bytes.read_u8(), Ok(0x78));
    assert_eq!(bytes.read_le_u16(), Ok(0x5678));
    assert_eq!(bytes.read_le_u32(), Ok(0x1234_5678));
    assert_eq!(bytes[3..].read_le_u16(), Ok(0xFF12));
    assert_eq!(bytes[4..].read_le_u16(), Err(disk::byteorder::Error::UnexpectedEof));
    assert_eq!(bytes[2..].read_le_u32(), Err(disk::byteorder::Error::UnexpectedEof));
    assert_eq!(bytes[5..].read_u8(), Err(disk::byteorder::Error::UnexpectedEof));
}

#[test]
fn writing_little_endian() {
    let mut buf = [0xEEu8; 6];
    assert_eq!(buf[1..].write_le_u32(0x1234_5678), Ok(()));
    assert_eq!(buf, [0xEE, 0x78, 0x56, 0x34, 0x12, 0xEE]);
    assert_eq!(buf[..].write_le_u16(0xAA55), Ok(()));
    assert_eq!(buf, [0x55, 0xAA, 0x56, 0x34, 0x12, 0xEE]);
    assert_eq!(buf[5..].write_u8(7), Ok(()));
    assert_eq!(buf[5], 7);
    assert_eq!(buf[5..].write_le_u16(1), Err(disk::byteorder::Error::UnexpectedEof));
    assert_eq!(buf[3..].write_le_u32(1), Err(disk::byteorder::Error::UnexpectedEof));
    assert_eq!(buf[6..].write_u8(1), Err(disk::byteorder::Error::UnexpectedEof));
    assert_eq!(buf, [0x55, 0xAA, 0x56, 0x34, 0x12, 7]);
}

#[test]
fn sectors() {
    let zero = Sector::zeroed();
    assert!(zero.0.iter().all(|b| *b == 0));
    let mut s = Sector::from_slice(&[1, 2, 3]);
    assert_eq!(&s.0[..4], &[1, 2, 3, 0]);
    assert!(s != zero);
    assert!(s == Sector::from_slice(&[1, 2, 3, 0, 0]));
    assert_eq!(s.as_slice().len(), 512);
    s.write_le_u32_at(508, 0xDDCC_BBAA);
    assert_eq!(&s.0[508..], &[0xAA, 0xBB, 0xCC, 0xDD]);
    assert_eq!(s.read_le_u32_at(508), 0xDDCC_BBAA);
    assert_eq!(s.read_le_u16_at(509), 0xCCBB);
    assert_eq!(s.read_u8_at(511), 0xDD);
    s.write_le_u16_at(0, 0x0102);
    s.write_u8_at(2, 9);
    assert_eq!(&s.0[..4], &[2, 1, 9, 0]);
    s.write_bytes_at(10, b"abc");
    assert_eq!(&s.0[9..14], b"\0abc\0");
    let copy = s;
    assert!(copy == s);
}

#[test]
fn ram_disk() {
    let mut disk = RamDisk::new(4);
    assert_eq!(disk.info().size, 4);
    assert_eq!(disk.info().sector_size, 512);
    assert_eq!(disk.len(), 4);
    let first = disk.read_sector(0).unwrap();
    assert_eq!(&first.0[510..], &[0x55, 0xAA]);
    assert!(first.0[..510].iter().all(|b| *b == 0));
    assert!(disk.read_sector(3).unwrap() == Sector::zeroed());
    assert_eq!(disk.read_sector(4).err(), Some(Error::BeyondDiskSize));
    assert_eq!(disk.write_sector(3, b"tail"), Ok(()));
    assert_eq!(&disk.read_sector(3).unwrap().0[..5], b"tail\0");
    assert_eq!(disk.write_sector(3, &[1u8; 512]), Ok(()));
    assert!(disk.read_sector(3).unwrap().0.iter().all(|b| *b == 1));
    assert_eq!(disk.write_sector(3, &[2u8; 513]), Err(Error::WriteError));
    assert_eq!(disk.write_sector(4, b"x"), Err(Error::BeyondDiskSize));
    assert_eq!(disk.write_sector(4, &[2u8; 513]), Err(Error::BeyondDiskSize));
    assert!(disk.read_sector(3).unwrap().0.iter().all(|b| *b == 1));
    assert_eq!(disk.as_slice().len(), 4);
    assert_eq!(disk.as_slice()[3].0[0], 1);
}

#[test]
fn partition_table_round_trip() {
    let cases = [
        PartitionInfo { format: Format::Fat32, start: 1, size: 127, bootable: true },
        PartitionInfo { format: Format::Fat32, start: 0, size: 0, bootable: false },
        PartitionInfo { format: Format::Unrecognized(0x83), start: 0x1234_5678, size: 0xFFFF_FFFF, bootable: false },
        PartitionInfo { format: Format::Unrecognized(0x0B), start: 7, size: 9, bootable: true },
    ];
    for index in 0..4 {
        for (k, p) in cases.iter().enumerate() {
            let mut disk = RamDisk::new(2);
            assert_eq!(set_pinfo(&mut disk, index, p), Ok(()));
            assert_eq!(get_pinfo(&disk, index), Ok(Some(*p)), "{} {}", index, k);
            for other in 0..4 {
                if other != index {
                    assert_eq!(get_pinfo(&disk, other), Ok(None));
                }
            }
        }
    }
}

#[test]
fn partition_table_bytes() {
    let mut disk = RamDisk::new(2);
    let mut mbr = [0xCCu8; 512];
    mbr[510] = 0x55;
    mbr[511] = 0xAA;
    disk.write_sector(0, &mbr).unwrap();
    let p = PartitionInfo { format: Format::Fat32, start: 0x0102_0304, size: 0x0A0B_0C0D, bootable: true };
    set_pinfo(&mut disk, 2, &p).unwrap();
    let got = disk.read_sector(0).unwrap();
    assert_eq!(
        &got.0[478..494],
        &[0x80, 0, 0, 0, 0x0C, 0, 0, 0, 4, 3, 2, 1, 0x0D, 0x0C, 0x0B, 0x0A]
    );
    assert!(got.0[..478].iter().all(|b| *b == 0xCC));
    assert!(got.0[494..510].iter().all(|b| *b == 0xCC));
    assert_eq!(Format::Fat32.serialize(), 0x0C);
    assert_eq!(Format::Unrecognized(0x83).serialize(), 0x83);
    // an entry that is read, not written
    let q = get_pinfo(&disk, 3).unwrap().unwrap();
    assert_eq!(q.format, Format::Unrecognized(0xCC));
    assert_eq!(q.start, 0xCCCC_CCCC);
    assert!(q.bootable);
    mbr[446] = 0x7F;
    disk.write_sector(0, &mbr).unwrap();
    assert!(!get_pinfo(&disk, 0).unwrap().unwrap().bootable);
}

#[test]
fn start_and_size_are_cut_to_32_bits() {
    let mut disk = RamDisk::new(2);
    let p = PartitionInfo { format: Format::Fat32, start: usize::MAX, size: usize::MAX - 1, bootable: false };
    set_pinfo(&mut disk, 0, &p).unwrap();
    let q = get_pinfo(&disk, 0).unwrap().unwrap();
    assert_eq!(q.start, 0xFFFF_FFFF);
    assert_eq!(q.size, 0xFFFF_FFFE);
}

#[test]
fn corrupt_table() {
    let mut disk = RamDisk::new(2);
    let mut mbr = disk.read_sector(0).unwrap();
    mbr.0[510] = 0;
    mbr.0[511] = 0;
    disk.write_sector(0, &mbr.0).unwrap();
    assert_eq!(get_pinfo(&disk, 0), Err(Error::CorruptDisk));
    mbr.0[510] = 0x55;
    disk.write_sector(0, &mbr.0).unwrap();
    assert_eq!(get_pinfo(&disk, 3), Err(Error::CorruptDisk));
    mbr.0[511] = 0xAA;
    disk.write_sector(0, &mbr.0).unwrap();
    assert_eq!(get_pinfo(&disk, 3), Ok(None));
}

fn numbered(n: usize) -> RamDisk {
    let mut disk = RamDisk::new(n);
    for lba in 1..n {
        disk.write_sector(lba, &[lba as u8; 512]).unwrap();
    }
    disk
}

#[test]
fn partition_shows_its_part_of_the_device() {
    let mut part = Partition::new(numbered(10), 3, 5);
    assert_eq!(part.info().size, 5);
    assert_eq!(part.info().sector_size, 512);
    for k in 0..5 {
        assert!(part.read_sector(k).unwrap() == part.get_ref().read_sector(3 + k).unwrap());
        assert_eq!(part.read_sector(k).unwrap().0[0], 3 + k as u8);
    }
    assert_eq!(part.read_sector(5).err(), Some(Error::BeyondDiskSize));
    assert_eq!(part.read_sector(usize::MAX).err(), Some(Error::BeyondDiskSize));
    assert_eq!(part.write_sector(5, b"x"), Err(Error::BeyondDiskSize));
    assert_eq!(part.write_sector(4, &[0u8; 600]), Err(Error::WriteError));
    assert_eq!(part.write_sector(4, b"last"), Ok(()));
    let disk = part.into_inner();
    assert_eq!(&disk.read_sector(7).unwrap().0[..5], b"last\0");
    assert_eq!(disk.read_sector(8).unwrap().0[0], 8);
    assert_eq!(disk.read_sector(6).unwrap().0[0], 6);
}

#[test]
fn partition_behind_the_end_of_the_device() {
    let mut part = Partition::new(numbered(10), 8, 5);
    assert_eq!(part.info().size, 5);
    assert_eq!(part.read_sector(1).unwrap().0[0], 9);
    assert_eq!(part.read_sector(2).err(), Some(Error::BeyondDiskSize));
    assert_eq!(part.write_sector(2, b"x"), Err(Error::BeyondDiskSize));
    let part = Partition::new(numbered(10), usize::MAX, 5);
    assert_eq!(part.read_sector(1).err(), Some(Error::BeyondDiskSize));
}

#[test]
fn partition_from_the_table() {
    let mut disk = numbered(64);
    let p = PartitionInfo { format: Format::Fat32, start: 4, size: 60, bootable: true };
    set_pinfo(&mut disk, 1, &p).unwrap();
    let part = get_partition(disk, 1).unwrap();
    assert_eq!(part.info().size, 60);
    assert_eq!(part.read_sector(0).unwrap().0[0], 4);
    assert_eq!(part.read_sector(59).unwrap().0[0], 63);
    assert_eq!(part.read_sector(60).err(), Some(Error::BeyondDiskSize));
}

#[test]
fn mounting_a_partition() {
    let mut disk = RamDisk::new(128);
    let p = PartitionInfo { format: Format::Fat32, start: 1, size: 127, bootable: true };
    set_pinfo(&mut disk, 0, &p).unwrap();
    let mut part = get_partition(disk, 0).unwrap();
    disk::fat::format(&mut part).unwrap();
    let disk = part.into_inner();
    let fs = mount(disk, 0).unwrap();
    assert_eq!(fs.root_cluster(), 2);
    assert_eq!(fs.geometry().fat_begin, 33);
    assert_eq!(fs.get_ref().info().size, 127);
    let mut bad = RamDisk::new(4);
    bad.write_sector(0, &[0u8; 512]).unwrap();
    assert!(matches!(mount(bad, 0), Err(Error::CorruptDisk)));
}
