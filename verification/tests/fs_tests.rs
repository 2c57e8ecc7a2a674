use my_os::fs::initrd::InitRamDisk;
use my_os::fs::FileSystem;

#[test]
fn ramdisk_lists_three_files() {
    let rd = InitRamDisk;
    assert_eq!(rd.file_count(), 3);
    let names: Vec<(&str, usize)> =
        (0..3).map(|i| rd.file_at(i).map(|f| (f.name, f.size)).unwrap()).collect();
    assert_eq!(names, vec![("hello.txt", 35), ("readme.txt", 91), ("numbers.txt", 10)]);
    assert!(rd.file_info(3).is_none());
}

#[test]
fn ramdisk_open_finds_files_by_name() {
    let rd = InitRamDisk;
    assert_eq!(rd.open("hello.txt"), Some(0));
    assert_eq!(rd.open("numbers.txt"), Some(2));
    assert_eq!(rd.open("hello"), None);
}

#[test]
fn ramdisk_read_stops_at_the_end() {
    let rd = InitRamDisk;
    let mut buf = [b'.'; 8];
    assert_eq!(rd.read(2, 6, &mut buf), 4);
    assert_eq!(&buf, b"4\n5\n....");
    assert_eq!(rd.read(2, 10, &mut buf), 0);
    assert_eq!(rd.read(7, 0, &mut buf), 0);
}
