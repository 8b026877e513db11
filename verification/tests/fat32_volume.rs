use coolos::fat32::{
    check, copy_file, create_dir, create_file, delete_file, list_dir, read_file, rename,
    safe_write_file, stats, write_file, Disk, FsError,
};
use std::io::{Cursor, Read, Write};

fn formatted_image() -> Vec<u8> {
    let mut bytes = vec![0u8; 70_000 * 512];
    {
        let cursor = Cursor::new(&mut bytes);
        let options = fatfs::FormatVolumeOptions::new()
            .fat_type(fatfs::FatType::Fat32)
            .bytes_per_cluster(512)
            .total_sectors(70_000);
        fatfs::format_volume(cursor, options).expect("format");
    }
    bytes
}

fn image_with_files() -> Vec<u8> {
    let mut bytes = formatted_image();
    {
        let cursor = Cursor::new(&mut bytes);
        let fs = fatfs::FileSystem::new(cursor, fatfs::FsOptions::new()).expect("mount");
        let root = fs.root_dir();
        let mut f = root.create_file("HELLO.TXT").expect("create");
        f.write_all(b"hello world").expect("write");
        let docs = root.create_dir("docs").expect("dir");
        let mut g = docs.create_file("A long file name.txt").expect("create long");
        g.write_all(&vec![7u8; 2000]).expect("write long");
    }
    bytes
}

fn names(disk: &Disk, path: &str) -> Vec<String> {
    let mut v: Vec<String> = list_dir(disk, path)
        .expect("listing")
        .into_iter()
        .map(|e| e.name)
        .collect();
    v.sort();
    v
}

#[test]
fn mutation_roundtrip_on_fresh_volume() {
    let mut disk = Disk::new(formatted_image());
    let _ = create_dir(&mut disk, "/TMP");
    match create_file(&mut disk, "/TMP/SELFTEST.TXT") {
        Ok(()) | Err(FsError::AlreadyExists) => {}
        Err(e) => panic!("create failed: {:?}", e),
    }
    write_file(&mut disk, "/TMP/SELFTEST.TXT", b"selftest\n").expect("write");
    assert_eq!(read_file(&disk, "/TMP/SELFTEST.TXT"), Some(b"selftest\n".to_vec()));
}

#[test]
fn reads_files_written_by_another_implementation() {
    let disk = Disk::new(image_with_files());
    assert_eq!(read_file(&disk, "/HELLO.TXT"), Some(b"hello world".to_vec()));
    assert_eq!(read_file(&disk, "/hello.txt"), Some(b"hello world".to_vec()));
    assert_eq!(read_file(&disk, "/docs/A long file name.txt"), Some(vec![7u8; 2000]));
    assert_eq!(read_file(&disk, "/DOCS/a LONG file NAME.TXT"), Some(vec![7u8; 2000]));
    assert_eq!(read_file(&disk, "/missing.txt"), None);
    assert_eq!(read_file(&disk, "relative.txt"), None);
    assert_eq!(read_file(&disk, "/docs"), None);
    assert_eq!(names(&disk, "/"), vec!["HELLO.TXT".to_string(), "docs".to_string()]);
    assert_eq!(names(&disk, "/docs"), vec!["A long file name.txt".to_string()]);
    let info = list_dir(&disk, "/").unwrap();
    let hello = info.iter().find(|e| e.name == "HELLO.TXT").unwrap();
    assert_eq!(hello.size, 11);
    assert!(!hello.is_dir);
    assert!(info.iter().find(|e| e.name == "docs").unwrap().is_dir);
}

#[test]
fn long_names_written_here_are_read_by_another_implementation() {
    let mut disk = Disk::new(formatted_image());
    create_dir(&mut disk, "/Projects").expect("dir");
    create_file(&mut disk, "/Projects/Read me first.md").expect("file");
    write_file(&mut disk, "/Projects/Read me first.md", b"# notes\n").expect("write");
    assert_eq!(read_file(&disk, "/Projects/Read me first.md"), Some(b"# notes\n".to_vec()));
    let mut bytes = disk.bytes.clone();
    let cursor = Cursor::new(&mut bytes);
    let fs = fatfs::FileSystem::new(cursor, fatfs::FsOptions::new()).expect("mount");
    let mut f = fs.root_dir().open_file("Projects/Read me first.md").expect("open");
    let mut s = String::new();
    f.read_to_string(&mut s).unwrap();
    assert_eq!(s, "# notes\n");
}

#[test]
fn create_refuses_existing_names_and_leaves_the_disk_alone() {
    let mut disk = Disk::new(image_with_files());
    let before = disk.bytes.clone();
    assert_eq!(create_file(&mut disk, "/HELLO.TXT"), Err(FsError::AlreadyExists));
    assert_eq!(create_file(&mut disk, "/hello.txt"), Err(FsError::AlreadyExists));
    assert_eq!(create_dir(&mut disk, "/docs"), Err(FsError::AlreadyExists));
    assert_eq!(create_file(&mut disk, "no/slash"), Err(FsError::InvalidPath));
    assert_eq!(create_file(&mut disk, "/"), Err(FsError::InvalidPath));
    assert_eq!(create_file(&mut disk, "/nodir/x.txt"), Err(FsError::NotFound));
    assert_eq!(create_file(&mut disk, "/HELLO.TXT/x.txt"), Err(FsError::NotDirectory));
    assert_eq!(create_file(&mut disk, "/a*b"), Err(FsError::UnsupportedName));
    assert_eq!(create_dir(&mut disk, "/bad|name"), Err(FsError::UnsupportedName));
    assert!(disk.bytes == before);
}

#[test]
fn write_delete_rename_and_copy() {
    let mut disk = Disk::new(image_with_files());
    assert_eq!(write_file(&mut disk, "/docs", b"x"), Err(FsError::InvalidPath));
    assert_eq!(write_file(&mut disk, "/nothere", b"x"), Err(FsError::NotFound));
    assert_eq!(delete_file(&mut disk, "/docs"), Err(FsError::NotEmpty));
    let big: Vec<u8> = (0..5000u32).map(|i| (i % 251) as u8).collect();
    write_file(&mut disk, "/HELLO.TXT", &big).unwrap();
    assert_eq!(read_file(&disk, "/HELLO.TXT"), Some(big.clone()));
    write_file(&mut disk, "/HELLO.TXT", b"").unwrap();
    assert_eq!(read_file(&disk, "/HELLO.TXT"), Some(Vec::new()));
    copy_file(&mut disk, "/docs/A long file name.txt", "/COPY.BIN").unwrap();
    assert_eq!(read_file(&disk, "/COPY.BIN"), Some(vec![7u8; 2000]));
    assert_eq!(copy_file(&mut disk, "/none", "/X"), Err(FsError::NotFound));
    rename(&mut disk, "/COPY.BIN", "copy of long.bin").unwrap();
    assert_eq!(read_file(&disk, "/COPY.BIN"), None);
    assert_eq!(read_file(&disk, "/copy of long.bin"), Some(vec![7u8; 2000]));
    rename(&mut disk, "/copy of long.bin", "SHORT.BIN").unwrap();
    assert_eq!(read_file(&disk, "/SHORT.BIN"), Some(vec![7u8; 2000]));
    assert_eq!(rename(&mut disk, "/SHORT.BIN", "HELLO.TXT"), Err(FsError::AlreadyExists));
    let before = disk.bytes.clone();
    assert_eq!(rename(&mut disk, "/SHORT.BIN", "short.bin"), Ok(()));
    assert!(disk.bytes == before);
    delete_file(&mut disk, "/docs/A long file name.txt").unwrap();
    assert_eq!(names(&disk, "/docs"), Vec::<String>::new());
    delete_file(&mut disk, "/docs").unwrap();
    assert_eq!(read_file(&disk, "/docs/A long file name.txt"), None);
    assert_eq!(delete_file(&mut disk, "/docs"), Err(FsError::NotFound));
    safe_write_file(&mut disk, "/HELLO.TXT", b"replaced").unwrap();
    assert_eq!(read_file(&disk, "/HELLO.TXT"), Some(b"replaced".to_vec()));
    assert_eq!(read_file(&disk, "/CWTMP.TMP"), None);
}

#[test]
fn many_entries_grow_the_directory() {
    let mut disk = Disk::new(formatted_image());
    create_dir(&mut disk, "/MANY").unwrap();
    for i in 0..40 {
        let path = format!("/MANY/File number {}.txt", i);
        create_file(&mut disk, &path).unwrap();
        write_file(&mut disk, &path, path.as_bytes()).unwrap();
    }
    for i in 0..40 {
        let path = format!("/MANY/File number {}.txt", i);
        assert_eq!(read_file(&disk, &path), Some(path.as_bytes().to_vec()));
    }
    assert_eq!(list_dir(&disk, "/MANY").unwrap().len(), 40);
}

#[test]
fn statistics_add_up() {
    let mut disk = Disk::new(formatted_image());
    let s0 = stats(&disk).expect("stats");
    assert_eq!(s0.free_clusters + s0.used_clusters, s0.total_clusters);
    assert_eq!(s0.bytes_per_cluster, 512);
    create_file(&mut disk, "/A.BIN").unwrap();
    write_file(&mut disk, "/A.BIN", &vec![1u8; 1500]).unwrap();
    let s1 = stats(&disk).unwrap();
    assert_eq!(s1.used_clusters, s0.used_clusters + 3);
    let report = check(&disk).unwrap();
    assert!(report.ok);
    assert_eq!(report.root_entries, 1);
}

#[test]
fn blank_disk_has_no_volume() {
    let mut disk = Disk::new(vec![0u8; 4096]);
    assert_eq!(read_file(&disk, "/A"), None);
    assert!(list_dir(&disk, "/").is_none());
    assert!(stats(&disk).is_none());
    assert!(check(&disk).is_none());
    assert_eq!(create_file(&mut disk, "/A"), Err(FsError::Io));
}

#[test]
fn sector_reads_give_back_writes() {
    let mut disk = Disk::new(vec![0u8; 4 * 512]);
    let data: Vec<u8> = (0..512u32).map(|i| (i % 256) as u8).collect();
    assert!(disk.write_sector(2, &data));
    let mut buf = vec![0u8; 512];
    assert!(disk.read_sector(2, &mut buf));
    assert_eq!(buf, data);
    assert!(disk.read_sector(1, &mut buf));
    assert_eq!(buf, vec![0u8; 512]);
    assert!(!disk.write_sector(4, &data));
    assert!(!disk.read_sector(9, &mut buf));
    assert_eq!(disk.sector_count(), 4);
}

#[test]
fn kernel_log_flush_writes_the_log_file() {
    let mut disk = Disk::new(formatted_image());
    let mut log = coolos::klog::KernelLog::new();
    coolos::klog::log(&mut log, 5, "boot");
    coolos::klog::log(&mut log, 9, "ready");
    assert_eq!(coolos::klog::flush_to_disk(&log, &mut disk, true), Ok(()));
    assert_eq!(
        read_file(&disk, "/LOGS/KERNEL.TXT").expect("log file"),
        b"5  boot\n9  ready\n".to_vec()
    );
    coolos::klog::log(&mut log, 12, "again");
    assert_eq!(coolos::klog::flush_to_disk(&log, &mut disk, true), Ok(()));
    assert_eq!(
        read_file(&disk, "/LOGS/KERNEL.TXT").expect("log file"),
        b"5  boot\n9  ready\n12  again\n".to_vec()
    );
}

#[test]
fn kernel_log_flush_on_blank_disk_or_switched_off() {
    let mut log = coolos::klog::KernelLog::new();
    coolos::klog::log(&mut log, 1, "x");
    let mut blank = Disk::new(vec![0u8; 64 * 512]);
    assert_eq!(coolos::klog::flush_to_disk(&log, &mut blank, true), Err(FsError::Io));
    assert!(blank.bytes.iter().all(|b| *b == 0));
    let mut disk = Disk::new(formatted_image());
    let before = disk.bytes.clone();
    assert_eq!(coolos::klog::flush_to_disk(&log, &mut disk, false), Ok(()));
    assert!(disk.bytes == before);
}

#[test]
fn large_clusters_are_supported() {
    // FAT32 needs at least 65525 clusters: 16-sector clusters make this a
    // volume of about half a gigabyte, most of it never touched.
    let total: u32 = 1_070_000;
    let mut bytes = vec![0u8; total as usize * 512];
    {
        let cursor = Cursor::new(&mut bytes);
        let options = fatfs::FormatVolumeOptions::new()
            .fat_type(fatfs::FatType::Fat32)
            .bytes_per_cluster(512 * 16)
            .total_sectors(total);
        fatfs::format_volume(cursor, options).expect("format");
    }
    let mut disk = Disk::new(bytes);
    assert_eq!(names(&disk, "/"), Vec::<String>::new());
    assert_eq!(disk.bytes[13], 16);
    assert_eq!(write_file(&mut disk, "/NONE.TXT", b"x"), Err(FsError::NotFound));
    assert_eq!(create_file(&mut disk, "/BIG.TXT"), Ok(()));
    assert_eq!(create_file(&mut disk, "/BIG.TXT"), Err(FsError::AlreadyExists));
    let data: Vec<u8> = (0..20_000u32).map(|i| (i % 251) as u8).collect();
    assert_eq!(write_file(&mut disk, "/BIG.TXT", &data), Ok(()));
    assert_eq!(read_file(&disk, "/BIG.TXT"), Some(data));
    assert_eq!(delete_file(&mut disk, "/GONE.TXT"), Err(FsError::NotFound));
    assert_eq!(rename(&mut disk, "/BIG.TXT", "Renamed file.txt"), Ok(()));
    assert_eq!(names(&disk, "/"), vec!["Renamed file.txt".to_string()]);
}
