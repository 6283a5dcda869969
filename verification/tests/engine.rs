use disk::disk::{Disk, Error};
use disk::fat::{calc_sizes, normalize_ext, normalize_stem, DirEntry, Fat32, FatEntry};
use disk::fs::FileSystem;
use disk::partition::{get_partition, set_pinfo, Format, Partition, PartitionInfo};
use disk::path::{Path, PathBuf};
use disk::ramdisk::RamDisk;

// A formatted partition of 127 sectors behind the first sector of a device
// of 128 sectors, mounted.
fn fresh() -> Fat32<Partition<RamDisk>> {
    let mut disk = RamDisk::new(128);
    let pinfo = PartitionInfo { format: Format::Fat32, start: 1, size: 127, bootable: true };
    set_pinfo(&mut disk, 0, &pinfo).unwrap();
    let mut partition = get_partition(disk, 0).unwrap();
    disk::fat::format(&mut partition).unwrap();
    Fat32::new(partition).unwrap()
}

// The clusters of the chain that starts in `start`.
fn chain(fs: &Fat32<Partition<RamDisk>>, start: usize) -> Vec<usize> {
    let mut clusters = vec![start];
    let mut at = start;
    while let Some(next) = fs.next_cluster(at).unwrap() {
        clusters.push(next);
        at = next;
        assert!(clusters.len() < 1000);
    }
    clusters
}

#[test]
fn format_then_mount() {
    let fs = fresh();
    assert_eq!(fs.root_cluster(), 2);
    assert_eq!(fs.geometry().fat_begin, 33);
    assert_eq!(fs.geometry().cluster_begin, 35);
    assert_eq!(fs.read_fate(0).unwrap(), FatEntry::Reserved(1));
    assert_eq!(fs.read_fate(1).unwrap(), FatEntry::Reserved(1));
    assert_eq!(fs.read_fate(2).unwrap(), FatEntry::End);
    assert_eq!(fs.read_fate(3).unwrap(), FatEntry::Free);
    assert_eq!(fs.get_dire(2, 0).unwrap(), DirEntry::End);
}

#[test]
fn write_then_remount() {
    let mut fs = fresh();
    fs.write_file(Path::new("/A.TXT"), b"hi").unwrap();
    let partition = fs.into_inner();
    let fs = Fat32::new(partition).unwrap();
    match fs.get_dire(2, 0).unwrap() {
        DirEntry::File { name, ext, start, size } => {
            assert_eq!(name, b"A".to_vec());
            assert_eq!(ext, b"TXT".to_vec());
            assert_eq!(size, 2);
            assert!(start >= 2);
        }
        other => panic!("not a file: {:?}", other),
    }
    assert_eq!(fs.get_dire(2, 1).unwrap(), DirEntry::End);
    assert_eq!(fs.find_dire_index(2, Path::new("A.TXT")).unwrap(), Some(0));
    assert_eq!(fs.find_dire_index(2, Path::new("B.TXT")).unwrap(), None);
}

#[test]
fn file_in_directory() {
    let mut fs = fresh();
    fs.make_dir(Path::new("/D")).unwrap();
    let data: Vec<u8> = (0..2048).map(|i| (i % 251) as u8).collect();
    fs.write_file(Path::new("/D/B.BIN"), &data).unwrap();
    let dir = fs.find_dir(Path::new("/D")).unwrap();
    let entry = fs.get_dire(dir, 0).unwrap();
    assert_eq!(entry.name(), Some(&b"B"[..]));
    assert_eq!(entry.ext(), Some(&b"BIN"[..]));
    assert_eq!(entry.size(), Some(2048));
    let clusters = chain(&fs, entry.start().unwrap());
    // four clusters hold the bytes, linked one to the next
    assert_eq!(clusters.len(), 4);
    for k in 0..4 {
        let sector = fs.read_cluster(clusters[k]).unwrap();
        assert_eq!(&sector.0[..], &data[512 * k..512 * (k + 1)]);
    }
    for k in 0..3 {
        assert_eq!(fs.read_fate(clusters[k]).unwrap(), FatEntry::Cont(clusters[k + 1] as u32));
    }
    // the chain ends in the fourth
    assert_eq!(fs.read_fate(clusters[3]).unwrap(), FatEntry::End);
    assert_eq!(fs.next_cluster(clusters[3]).unwrap(), None);
    // and no cluster behind it was taken
    assert_eq!(fs.read_fate(clusters[3] + 1).unwrap(), FatEntry::Free);
}

#[test]
fn make_dir_then_find() {
    let mut fs = fresh();
    fs.make_dir(Path::new("/FOO")).unwrap();
    let entry = fs.get_dire(2, 0).unwrap();
    let start = match &entry {
        DirEntry::Dir { name, ext, start } => {
            assert_eq!(name, &b"FOO".to_vec());
            assert!(ext.is_empty());
            *start
        }
        other => panic!("not a directory: {:?}", other),
    };
    assert_eq!(entry.ext(), None);
    assert_eq!(entry.size(), None);
    assert_eq!(fs.find_dir(Path::new("/FOO")).unwrap(), start);
    assert_eq!(fs.find_dir(Path::new("FOO")).unwrap(), start);
    assert_eq!(fs.find_dire_cluster(2, Path::new("FOO")).unwrap(), Some(start));
    // the first free cluster is looked for from the number of the first data sector on
    assert_eq!(start, 35);
    assert_eq!(fs.read_fate(start).unwrap(), FatEntry::End);
    assert_eq!(fs.get_dire(start, 0).unwrap(), DirEntry::End);
    assert_eq!(fs.get_dire(2, 1).unwrap(), DirEntry::End);
}

#[test]
fn lower_case_names_are_kept() {
    let mut fs = fresh();
    fs.make_dir(Path::new("/foo")).unwrap();
    assert_eq!(fs.get_dire(2, 0).unwrap().name(), Some(&b"foo"[..]));
    assert!(fs.find_dir(Path::new("/foo")).is_ok());
    assert!(fs.find_dir(Path::new("/FOO")).is_err());
}

#[test]
fn file_metadata() {
    let mut fs = fresh();
    let data = vec![7u8; 1300];
    fs.write_file(Path::new("/kernel.img"), &data).unwrap();
    let entry = fs.get_dire(2, 0).unwrap();
    assert_eq!(entry.size(), Some(1300));
    assert_ne!(entry.start(), Some(0));
    assert_eq!(entry.name(), Some(&b"kernel"[..]));
    assert_eq!(entry.ext(), Some(&b"img"[..]));
    let clusters = chain(&fs, entry.start().unwrap());
    // three clusters for the bytes
    assert_eq!(clusters.len(), 3);
    assert_eq!(fs.read_fate(clusters[2]).unwrap(), FatEntry::End);
    let last = fs.read_cluster(clusters[2]).unwrap();
    assert_eq!(&last.0[..276], &data[1024..]);
    assert!(last.0[276..].iter().all(|b| *b == 0));
}

#[test]
fn empty_file_has_one_cluster() {
    let mut fs = fresh();
    fs.write_file(Path::new("/EMPTY"), b"").unwrap();
    let entry = fs.get_dire(2, 0).unwrap();
    assert_eq!(entry.size(), Some(0));
    assert_eq!(entry.ext(), None);
    let clusters = chain(&fs, entry.start().unwrap());
    assert_eq!(clusters.len(), 1);
    assert_eq!(fs.read_fate(clusters[0]).unwrap(), FatEntry::End);
}

#[test]
fn seventeen_files_grow_the_root() {
    let mut fs = fresh();
    for k in 0..16 {
        let name = format!("/F{:02}", k);
        fs.write_file(Path::new(&name), b"x").unwrap();
        assert_eq!(chain(&fs, 2).len(), if k < 15 { 1 } else { 2 });
    }
    assert_eq!(chain(&fs, 2).len(), 2);
    fs.write_file(Path::new("/F16"), b"x").unwrap();
    let root = chain(&fs, 2);
    assert_eq!(root.len(), 2);
    match fs.get_dire(2, 16).unwrap() {
        DirEntry::File { name, size, .. } => {
            assert_eq!(name, b"F16".to_vec());
            assert_eq!(size, 1);
        }
        other => panic!("not a file: {:?}", other),
    }
    assert_eq!(fs.get_dire(2, 17).unwrap(), DirEntry::End);
    assert_eq!(fs.get_dire(root[1], 0).unwrap(), fs.get_dire(2, 16).unwrap());
    assert_eq!(fs.find_dire_index(2, Path::new("F16")).unwrap(), Some(16));
    assert_eq!(fs.find_dire_index(2, Path::new("F03")).unwrap(), Some(3));
    assert_eq!(fs.find_dire_index(2, Path::new("F17")).unwrap(), None);
}

#[test]
fn sixteenth_entry_moves_the_end_into_a_new_cluster() {
    let mut fs = fresh();
    for k in 0..15 {
        let name = format!("/F{:02}", k);
        fs.write_file(Path::new(&name), b"").unwrap();
    }
    assert_eq!(chain(&fs, 2).len(), 1);
    assert_eq!(fs.get_dire(2, 15).unwrap(), DirEntry::End);
    assert_eq!(fs.get_dire(2, 16), Err(Error::CorruptFAT));
    fs.write_file(Path::new("/F15"), b"").unwrap();
    assert_eq!(chain(&fs, 2).len(), 2);
    assert_eq!(fs.get_dire(2, 16).unwrap(), DirEntry::End);
}

#[test]
fn overwrite_keeps_the_start() {
    let mut fs = fresh();
    fs.write_file(Path::new("/A.TXT"), b"hello").unwrap();
    let first = fs.get_dire(2, 0).unwrap();
    assert_eq!(first.size(), Some(5));
    fs.write_file(Path::new("/A.TXT"), b"world!").unwrap();
    let second = fs.get_dire(2, 0).unwrap();
    assert_eq!(second.start(), first.start());
    assert_eq!(second.size(), Some(6));
    assert_eq!(fs.get_dire(2, 1).unwrap(), DirEntry::End);
    let sector = fs.read_cluster(second.start().unwrap()).unwrap();
    assert_eq!(&sector.0[..6], b"world!");
    assert!(sector.0[6..].iter().all(|b| *b == 0));
}

#[test]
fn overwrite_with_less_keeps_the_chain() {
    let mut fs = fresh();
    fs.write_file(Path::new("/A.TXT"), &vec![1u8; 1500]).unwrap();
    let start = fs.get_dire(2, 0).unwrap().start().unwrap();
    assert_eq!(chain(&fs, start).len(), 3);
    fs.write_file(Path::new("/A.TXT"), b"x").unwrap();
    assert_eq!(fs.get_dire(2, 0).unwrap().size(), Some(1));
    assert_eq!(chain(&fs, start).len(), 3);
}

#[test]
fn missing_parent() {
    let mut fs = fresh();
    assert_eq!(
        fs.write_file(Path::new("/nope/x"), b""),
        Err(Error::Nonexistent(PathBuf::from_str("/nope")))
    );
    assert_eq!(fs.get_dire(2, 0).unwrap(), DirEntry::End);
    match fs.make_dir(Path::new("/a/b/c")) {
        Err(Error::Nonexistent(p)) => assert_eq!(p.into_os_string(), b"/a".to_vec()),
        other => panic!("{:?}", other),
    }
    fs.make_dir(Path::new("/a")).unwrap();
    match fs.find_dir(Path::new("/a/b/c")) {
        Err(Error::Nonexistent(p)) => assert_eq!(p.into_os_string(), b"/a/b".to_vec()),
        other => panic!("{:?}", other),
    }
}

#[test]
fn paths_without_a_name_are_invalid() {
    let mut fs = fresh();
    assert_eq!(fs.make_dir(Path::new("/")), Err(Error::InvalidPath));
    assert_eq!(fs.write_file(Path::new(".."), b""), Err(Error::InvalidPath));
    assert_eq!(fs.make_dir(Path::from_bytes(b"/caf\xc3\xa9")), Err(Error::InvalidPath));
    assert_eq!(fs.write_file(Path::from_bytes(b"/a.\xff"), b""), Err(Error::InvalidPath));
}

#[test]
fn long_names_are_cut() {
    let mut fs = fresh();
    fs.write_file(Path::new("/LONGFILENAME.TEXT"), b"abc").unwrap();
    let entry = fs.get_dire(2, 0).unwrap();
    assert_eq!(entry.name(), Some(&b"LONGFILE"[..]));
    assert_eq!(entry.ext(), Some(&b"TEX"[..]));
}

#[test]
fn nested_directories() {
    let mut fs = fresh();
    fs.make_dir(Path::new("a")).unwrap();
    fs.make_dir(Path::new("a/b")).unwrap();
    fs.write_file(Path::new("a/b/c.d"), b"deep").unwrap();
    let a = fs.find_dir(Path::new("a")).unwrap();
    let b = fs.find_dir(Path::new("a/b")).unwrap();
    assert_ne!(a, b);
    assert_eq!(fs.find_parent_dir(Path::new("a/b/c.d")).unwrap(), b);
    assert_eq!(fs.find_parent_dir(Path::new("a")).unwrap(), 2);
    assert_eq!(fs.find_dir(Path::new("")).unwrap(), 2);
    assert_eq!(fs.find_dir(Path::new("/")).unwrap(), 2);
    let entry = fs.get_dire(b, 0).unwrap();
    assert_eq!(entry.size(), Some(4));
    let sector = fs.read_cluster(entry.start().unwrap()).unwrap();
    assert_eq!(&sector.0[..4], b"deep");
}

#[test]
fn stubs_do_nothing() {
    let mut fs = fresh();
    fs.write_file(Path::new("/A"), b"abc").unwrap();
    assert_eq!(fs.read_file(Path::new("/A")), Ok(Vec::new()));
    assert_eq!(fs.delete(Path::new("/A")), Ok(()));
    assert_eq!(fs.get_dire(2, 0).unwrap().size(), Some(3));
}

#[test]
fn full_volume() {
    let mut disk = RamDisk::new(72);
    disk::fat::format(&mut disk).unwrap();
    let mut fs = Fat32::new(disk).unwrap();
    // clusters from sector 35 on, looked through from number 35 on, which
    // lies in sector 68: the numbers 35 to 38 can be had
    assert_eq!(fs.alloc_cluster(None), Ok(35));
    assert_eq!(fs.alloc_cluster(None), Ok(36));
    assert_eq!(fs.alloc_cluster(Some(35)), Ok(37));
    assert_eq!(fs.read_fate(35).unwrap(), FatEntry::Cont(37));
    assert_eq!(fs.alloc_cluster(None), Ok(38));
    assert_eq!(fs.alloc_cluster(None), Err(Error::WriteError));
}

#[test]
fn broken_chain() {
    let mut fs = fresh();
    let c = fs.alloc_cluster(None).unwrap();
    fs.write_fate(c, &FatEntry::Bad).unwrap();
    assert_eq!(fs.alloc_cluster(Some(c)), Err(Error::CorruptFAT));
    assert_eq!(fs.next_cluster(c), Ok(None));
    // a chain that runs in a circle
    let d = fs.alloc_cluster(None).unwrap();
    fs.write_fate(d, &FatEntry::Cont(d as u32)).unwrap();
    assert_eq!(fs.alloc_cluster(Some(d)), Err(Error::CorruptFAT));
}

#[test]
fn fat_codes() {
    let mut fs = fresh();
    fs.write_fate(5, &FatEntry::Cont(9)).unwrap();
    assert_eq!(fs.read_fate(5).unwrap(), FatEntry::Cont(9));
    fs.write_fate(5, &FatEntry::Bad).unwrap();
    assert_eq!(fs.read_fate(5).unwrap(), FatEntry::Bad);
    fs.write_fate(5, &FatEntry::End).unwrap();
    assert_eq!(fs.read_fate(5).unwrap(), FatEntry::End);
    fs.write_fate(5, &FatEntry::Reserved(0x0FFF_FFF3)).unwrap();
    assert_eq!(fs.read_fate(5).unwrap(), FatEntry::Reserved(0x0FFF_FFF3));
    fs.write_fate(5, &FatEntry::Cont(0xF000_0007)).unwrap();
    assert_eq!(fs.read_fate(5).unwrap(), FatEntry::Cont(7));
    fs.write_fate(5, &FatEntry::Free).unwrap();
    assert_eq!(fs.read_fate(5).unwrap(), FatEntry::Free);
    // the entry of cluster 5 lies at byte 20 of the first table sector
    fs.write_fate(5, &FatEntry::Cont(0x0102_0304)).unwrap();
    let table = fs.get_ref().read_sector(33).unwrap();
    assert_eq!(&table.0[20..24], &[4, 3, 2, 1]);
    assert_eq!(fs.read_fate(200_000), Err(Error::BeyondDiskSize));
}

#[test]
fn entry_bytes_on_disk() {
    let mut fs = fresh();
    let dire = DirEntry::File {
        name: b"AB".to_vec(),
        ext: b"C".to_vec(),
        start: 0x0012_3456,
        size: 0x0A0B_0C0D,
    };
    fs.set_dire(2, 3, &dire).unwrap();
    let sector = fs.read_cluster(2).unwrap();
    let mut want = [0u8; 32];
    want[..11].copy_from_slice(b"AB      C  ");
    want[20] = 0x12;
    want[26] = 0x56;
    want[27] = 0x34;
    want[28..32].copy_from_slice(&[0x0D, 0x0C, 0x0B, 0x0A]);
    assert_eq!(&sector.0[96..128], &want);
    assert_eq!(fs.get_dire(2, 3).unwrap(), dire);
    let dir = DirEntry::Dir { name: b"SUB".to_vec(), ext: Vec::new(), start: 40 };
    fs.set_dire(2, 3, &dir).unwrap();
    let sector = fs.read_cluster(2).unwrap();
    assert_eq!(sector.0[96 + 11], 0x10);
    assert_eq!(&sector.0[96 + 28..128], &[0, 0, 0, 0]);
    assert_eq!(fs.get_dire(2, 3).unwrap(), dir);
    fs.set_dire(2, 3, &DirEntry::Free).unwrap();
    let sector = fs.read_cluster(2).unwrap();
    assert_eq!(sector.0[96], 0xE5);
    assert_eq!(&sector.0[97..99], b"UB");
    assert_eq!(fs.get_dire(2, 3).unwrap(), DirEntry::Free);
}

#[test]
fn too_small_to_format() {
    let mut disk = RamDisk::new(20);
    assert_eq!(disk::fat::format(&mut disk), Err(Error::BeyondDiskSize));
    let mut disk = RamDisk::new(33);
    assert_eq!(disk::fat::format(&mut disk), Err(Error::BeyondDiskSize));
    let mut disk = RamDisk::new(34);
    assert_eq!(disk::fat::format(&mut disk), Ok(()));
}

#[test]
fn format_leaves_the_clusters() {
    let mut disk = RamDisk::new(300);
    for lba in 0..300 {
        disk.write_sector(lba, &[0xAB; 512]).unwrap();
    }
    disk::fat::format(&mut disk).unwrap();
    // 267 sectors for tables and clusters: two rounds of 130, and 7 left over
    let header = disk.read_sector(0).unwrap();
    assert_eq!(&header.0[11..17], &[0x00, 0x02, 0x01, 0x20, 0x00, 0x02]);
    assert_eq!(&header.0[32..36], &[0x2C, 0x01, 0x00, 0x00]);
    assert_eq!(&header.0[36..40], &[3, 0, 0, 0]);
    assert!(header.0[40..].iter().all(|b| *b == 0));
    for lba in 1..33 {
        assert!(disk.read_sector(lba).unwrap().0.iter().all(|b| *b == 0));
    }
    for lba in [33, 36] {
        let table = disk.read_sector(lba).unwrap();
        assert_eq!(&table.0[..12], &[1, 0, 0, 0, 1, 0, 0, 0, 0xFF, 0xFF, 0xFF, 0x0F]);
        assert!(table.0[12..].iter().all(|b| *b == 0));
    }
    for lba in [34, 35, 37, 38] {
        assert!(disk.read_sector(lba).unwrap().0.iter().all(|b| *b == 0));
    }
    for lba in 39..300 {
        assert!(disk.read_sector(lba).unwrap().0.iter().all(|b| *b == 0xAB));
    }
    let fs = Fat32::new(disk).unwrap();
    assert_eq!(fs.geometry().cluster_begin, 39);
    assert_eq!(fs.read_fate(2).unwrap(), FatEntry::End);
    // the root directory was not emptied
    assert!(matches!(fs.get_dire(2, 0).unwrap(), DirEntry::File { .. }));
}

#[test]
fn sizes_of_tables_and_clusters() {
    assert_eq!(calc_sizes(127, 2, 32), (1, 92));
    assert_eq!(calc_sizes(300, 2, 32), (3, 261));
    assert_eq!(calc_sizes(8192, 2, 32), (63, 8033));
    assert_eq!(calc_sizes(0, 2, 32), (0, 0));
    assert_eq!(calc_sizes(33, 2, 32), (0, 0));
    assert_eq!(calc_sizes(35, 2, 32), (0, 0));
    assert_eq!(calc_sizes(36, 2, 32), (1, 1));
    assert_eq!(calc_sizes(163, 2, 32), (1, 128));
    assert_eq!(calc_sizes(164, 2, 32), (1, 128));
    assert_eq!(calc_sizes(165, 2, 32), (1, 128));
    assert_eq!(calc_sizes(166, 2, 32), (2, 129));
    assert_eq!(calc_sizes(1000, 1, 0), (8, 991));
}

#[test]
fn names_for_the_disk() {
    assert_eq!(normalize_stem(Path::new("/a/KERNEL.IMG")), Ok(&b"KERNEL"[..]));
    assert_eq!(normalize_ext(Path::new("/a/KERNEL.IMG")), Ok(&b"IMG"[..]));
    assert_eq!(normalize_stem(Path::new("README")), Ok(&b"README"[..]));
    assert_eq!(normalize_ext(Path::new("README")), Ok(&b""[..]));
    assert_eq!(normalize_stem(Path::new(".hidden")), Ok(&b".hidden"[..]));
    assert_eq!(normalize_ext(Path::new(".hidden")), Ok(&b""[..]));
    assert_eq!(normalize_stem(Path::new("/")), Err(Error::InvalidPath));
    assert_eq!(normalize_ext(Path::new("/")), Ok(&b""[..]));
    assert_eq!(normalize_stem(Path::new("a/..")), Err(Error::InvalidPath));
    assert_eq!(normalize_stem(Path::from_bytes(b"\x7fx")), Ok(&b"\x7fx"[..]));
    assert_eq!(normalize_stem(Path::from_bytes(b"\xe5x")), Err(Error::InvalidPath));
    assert_eq!(normalize_ext(Path::from_bytes(b"x.\x80")), Err(Error::InvalidPath));
}

#[test]
fn chain_of_a_file_written_over_with_more() {
    let mut fs = fresh();
    fs.write_file(Path::new("/A.TXT"), &vec![1u8; 600]).unwrap();
    let start = fs.get_dire(2, 0).unwrap().start().unwrap();
    let before = chain(&fs, start);
    assert_eq!(before.len(), 2);
    fs.write_file(Path::new("/A.TXT"), &vec![2u8; 2000]).unwrap();
    let after = chain(&fs, start);
    assert_eq!(after.len(), 4);
    assert_eq!(&after[..2], &before[..]);
    assert_eq!(fs.get_dire(2, 0).unwrap().size(), Some(2000));
    assert_eq!(fs.get_dire(2, 0).unwrap().start(), Some(start));
    assert!(fs.read_cluster(after[3]).unwrap().0[..464].iter().all(|b| *b == 2));
}

#[test]
fn clusters_of_a_new_file() {
    for (len, want) in [(0, 1), (1, 1), (511, 1), (512, 1), (513, 2), (1024, 2), (1025, 3)] {
        let mut fs = fresh();
        fs.write_file(Path::new("/F"), &vec![9u8; len]).unwrap();
        let entry = fs.get_dire(2, 0).unwrap();
        assert_eq!(entry.size(), Some(len));
        let clusters = chain(&fs, entry.start().unwrap());
        assert_eq!(clusters.len(), want, "{}", len);
        assert_eq!(fs.read_fate(clusters[want - 1]).unwrap(), FatEntry::End);
    }
}

#[test]
fn remount_through_the_table() {
    let mut fs = fresh();
    fs.write_file(Path::new("/A.TXT"), b"hi").unwrap();
    let start = fs.get_dire(2, 0).unwrap().start().unwrap();
    // unmount down to the device, and mount again by its table
    let disk = fs.into_inner().into_inner();
    assert_eq!(&disk.read_sector(0).unwrap().0[446..462], &[
        0x80, 0, 0, 0, 0x0C, 0, 0, 0, 1, 0, 0, 0, 127, 0, 0, 0
    ]);
    assert_eq!(&disk.read_sector(0).unwrap().0[510..], &[0x55, 0xAA]);
    let fs = disk::partition::mount(disk, 0).unwrap();
    assert_eq!(fs.geometry().fat_begin, 33);
    assert_eq!(fs.geometry().cluster_begin, 35);
    match fs.get_dire(2, 0).unwrap() {
        DirEntry::File { name, ext, start: again, size } => {
            assert_eq!(name, b"A".to_vec());
            assert_eq!(ext, b"TXT".to_vec());
            assert_eq!(size, 2);
            assert_eq!(again, start);
        }
        other => panic!("not a file: {:?}", other),
    }
    assert_eq!(fs.get_dire(2, 1).unwrap(), DirEntry::End);
    assert_eq!(&fs.read_cluster(start).unwrap().0[..3], b"hi\0");
}

#[test]
fn sizes_with_many_tables() {
    assert_eq!(calc_sizes(1000, 256, 32), (2, 256));
    assert_eq!(calc_sizes(1000, 1000, 0), (0, 0));
    assert_eq!(calc_sizes(2000, 1000, 0), (1, 128));
    assert_eq!(calc_sizes(usize::MAX, usize::MAX - 128, 0), (1, 127));
}

#[test]
fn first_file_takes_the_free_clusters() {
    let mut disk = RamDisk::new(72);
    disk::fat::format(&mut disk).unwrap();
    let mut fs = Fat32::new(disk).unwrap();
    // the clusters 35 to 38 are free
    assert_eq!(fs.write_file(Path::new("/kernel.img"), &vec![7u8; 2048]), Ok(()));
    assert_eq!(
        fs.get_dire(2, 0).unwrap(),
        DirEntry::File { name: b"kernel".to_vec(), ext: b"img".to_vec(), start: 35, size: 2048 }
    );
    assert_eq!(fs.get_dire(2, 1).unwrap(), DirEntry::End);
    assert_eq!(fs.read_fate(35).unwrap(), FatEntry::Cont(36));
    assert_eq!(fs.read_fate(36).unwrap(), FatEntry::Cont(37));
    assert_eq!(fs.read_fate(37).unwrap(), FatEntry::Cont(38));
    assert_eq!(fs.read_fate(38).unwrap(), FatEntry::End);
    assert_eq!(fs.alloc_cluster(None), Err(Error::WriteError));
}

#[test]
fn first_file_of_one_cluster_too_many() {
    let mut disk = RamDisk::new(72);
    disk::fat::format(&mut disk).unwrap();
    let mut fs = Fat32::new(disk).unwrap();
    assert_eq!(fs.write_file(Path::new("/kernel.img"), &vec![7u8; 2049]), Err(Error::WriteError));
}

#[test]
fn overwrite_keeps_the_other_entries() {
    let mut fs = fresh();
    fs.write_file(Path::new("/A.TXT"), b"first").unwrap();
    fs.write_file(Path::new("/B.TXT"), b"second").unwrap();
    fs.make_dir(Path::new("/C")).unwrap();
    let a = fs.get_dire(2, 0).unwrap();
    let b = fs.get_dire(2, 1).unwrap();
    let c = fs.get_dire(2, 2).unwrap();
    fs.write_file(Path::new("/B.TXT"), &vec![9u8; 700]).unwrap();
    assert_eq!(fs.get_dire(2, 0).unwrap(), a);
    assert_eq!(fs.get_dire(2, 2).unwrap(), c);
    assert_eq!(fs.get_dire(2, 3).unwrap(), DirEntry::End);
    let after = fs.get_dire(2, 1).unwrap();
    assert_eq!(after.start(), b.start());
    assert_eq!(after.size(), Some(700));
    assert_eq!(after.name(), b.name());
}
