use fat32_impl::file_system::interface::ShellSession;
use fat32_impl::file_system::{
    list_directory_entries, list_files_names, Fat32FileSystem, FileInfo, FsError,
};
use std::rc::Rc;

const SECTOR: usize = 512;
const FAT_SECTOR: usize = 32;
const DATA_SECTOR: usize = 96;
const FILE_TEXT: &str = "test d'écriture dans un fichier d'un dossier\n";

fn checksum(name: &[u8; 11]) -> u8 {
    let mut sum: u8 = 0;
    for b in name.iter() {
        sum = ((sum & 1) << 7).wrapping_add(sum >> 1).wrapping_add(*b);
    }
    sum
}

fn standard_entry(name: &[u8; 11], attr: u8, cluster: u32, size: u32) -> [u8; 32] {
    let mut e = [0u8; 32];
    e[..11].copy_from_slice(name);
    e[11] = attr;
    e[20..22].copy_from_slice(&((cluster >> 16) as u16).to_le_bytes());
    e[26..28].copy_from_slice(&(cluster as u16).to_le_bytes());
    e[28..32].copy_from_slice(&size.to_le_bytes());
    e
}

fn long_name_entries(name: &str, short: &[u8; 11]) -> Vec<[u8; 32]> {
    let mut units: Vec<u16> = name.encode_utf16().collect();
    if units.len() % 13 != 0 {
        units.push(0);
        while units.len() % 13 != 0 {
            units.push(0xFFFF);
        }
    }
    let count = units.len() / 13;
    let mut entries = Vec::new();
    for seq in (1..=count).rev() {
        let part = &units[13 * (seq - 1)..13 * seq];
        let mut e = [0u8; 32];
        e[0] = seq as u8 | if seq == count { 0x40 } else { 0 };
        e[11] = 0x0F;
        e[13] = checksum(short);
        for (i, unit) in part.iter().enumerate() {
            let at = if i < 5 {
                1 + 2 * i
            } else if i < 11 {
                14 + 2 * (i - 5)
            } else {
                28 + 2 * (i - 11)
            };
            e[at..at + 2].copy_from_slice(&unit.to_le_bytes());
        }
        entries.push(e);
    }
    entries
}

fn put_entries(disk: &mut [u8], cluster: usize, entries: &[[u8; 32]]) {
    let start = (DATA_SECTOR + cluster - 2) * SECTOR;
    for (i, e) in entries.iter().enumerate() {
        disk[start + 32 * i..start + 32 * i + 32].copy_from_slice(e);
    }
}

fn put_fat(disk: &mut [u8], cluster: usize, next: u32) {
    let at = FAT_SECTOR * SECTOR + 4 * cluster;
    disk[at..at + 4].copy_from_slice(&next.to_le_bytes());
}

fn blank_image(clusters: usize) -> Vec<u8> {
    let mut disk = vec![0u8; (DATA_SECTOR + clusters) * SECTOR];
    disk[11..13].copy_from_slice(&512u16.to_le_bytes());
    disk[13] = 1;
    disk[14..16].copy_from_slice(&32u16.to_le_bytes());
    disk[16] = 2;
    disk[36..40].copy_from_slice(&32u32.to_le_bytes());
    disk[44..48].copy_from_slice(&2u32.to_le_bytes());
    disk
}

fn test_image() -> Vec<u8> {
    let mut disk = blank_image(6);
    for cluster in 2..8 {
        put_fat(&mut disk, cluster, 0x0FFF_FFFF);
    }
    let mut root = Vec::new();
    root.extend(long_name_entries("test.txt", b"TEST    TXT"));
    root.push(standard_entry(b"TEST    TXT", 0x20, 3, 5));
    root.extend(long_name_entries("test_dir", b"TEST_DIR   "));
    root.push(standard_entry(b"TEST_DIR   ", 0x10, 4, 0));
    put_entries(&mut disk, 2, &root);
    let at = (DATA_SECTOR + 1) * SECTOR;
    disk[at..at + 5].copy_from_slice(b"hello");
    let mut dir = Vec::new();
    dir.push(standard_entry(b".          ", 0x10, 4, 0));
    dir.push(standard_entry(b"..         ", 0x10, 0, 0));
    dir.extend(long_name_entries("test_dir_file", b"TEST_D~1   "));
    dir.push(standard_entry(b"TEST_D~1   ", 0x20, 5, FILE_TEXT.len() as u32));
    put_entries(&mut disk, 4, &dir);
    let at = (DATA_SECTOR + 3) * SECTOR;
    disk[at..at + FILE_TEXT.len()].copy_from_slice(FILE_TEXT.as_bytes());
    disk
}

fn volume(disk: Vec<u8>) -> Fat32FileSystem {
    Fat32FileSystem::new(disk.into_boxed_slice()).unwrap()
}

fn names(files: &[FileInfo]) -> Vec<String> {
    files.iter().map(|f| f.name.clone()).collect()
}

#[test]
fn boot_sector_geometry() {
    let fs = volume(blank_image(1));
    assert_eq!(fs.bytes_per_sector, 512);
    assert_eq!(fs.sectors_per_cluster, 1);
    assert_eq!(fs.fat_sector, 32);
    assert_eq!(fs.data_sector, 96);
    assert_eq!(fs.root_cluster, 2);
}

#[test]
fn short_image_is_malformed() {
    let r = Fat32FileSystem::new(vec![0u8; 47].into_boxed_slice());
    assert_eq!(r.err(), Some(FsError::MalformedBootSector));
}

#[test]
fn sector_size_must_be_power_of_two() {
    let mut disk = blank_image(1);
    disk[11..13].copy_from_slice(&500u16.to_le_bytes());
    assert_eq!(
        Fat32FileSystem::new(disk.into_boxed_slice()).err(),
        Some(FsError::MalformedBootSector)
    );
    let mut disk = blank_image(1);
    disk[11..13].copy_from_slice(&0u16.to_le_bytes());
    assert_eq!(
        Fat32FileSystem::new(disk.into_boxed_slice()).err(),
        Some(FsError::MalformedBootSector)
    );
}

#[test]
fn root_cluster_below_two_is_malformed() {
    let mut disk = blank_image(1);
    disk[44..48].copy_from_slice(&1u32.to_le_bytes());
    assert_eq!(
        Fat32FileSystem::new(disk.into_boxed_slice()).err(),
        Some(FsError::MalformedBootSector)
    );
}

#[test]
fn data_sector_must_fit_32_bits() {
    let mut disk = blank_image(1);
    disk[16] = 255;
    disk[36..40].copy_from_slice(&0xFFFF_FFFFu32.to_le_bytes());
    assert_eq!(
        Fat32FileSystem::new(disk.into_boxed_slice()).err(),
        Some(FsError::MalformedBootSector)
    );
}

#[test]
fn init_test() {
    let fs = volume(test_image());
    let root_data = fs.read_cluster(fs.root_cluster).unwrap();
    assert_ne!(0, fs.data_sector);
    assert_ne!(0, fs.fat_sector);
    assert!(fs.root_cluster >= 2);
    assert_ne!(0, root_data.len());
    let expected_size = (fs.sectors_per_cluster * fs.bytes_per_sector) as usize;
    assert_eq!(expected_size, root_data.len());
}

#[test]
fn ls_test() {
    let fs = volume(test_image());
    let files = list_directory_entries(&fs, fs.root_cluster).unwrap();
    let files_list = list_files_names(&files);
    assert_eq!(["test.txt", "test_dir"], files_list.as_slice());
    assert!(!files[0].is_directory);
    assert_eq!(files[0].size, 5);
    assert_eq!(files[0].start_cluster, 3);
    assert!(files[1].is_directory);
    assert_eq!(files[1].start_cluster, 4);
}

#[test]
fn cd_test() {
    let fs = Rc::new(volume(test_image()));
    let mut shell = ShellSession::new(fs.clone());
    let first_cluster = shell.current_cluster;
    let root_ls = shell.ls_entries().unwrap();
    assert!(root_ls.iter().any(|e| e.name == "test_dir"));

    shell.cd("test_dir").unwrap();
    assert_ne!(first_cluster, shell.current_cluster);
    let test_dir_ls = shell.ls_entries().unwrap();
    assert!(test_dir_ls.iter().any(|e| e.name == "test_dir_file"));
    assert_eq!(names(&test_dir_ls), vec!["test_dir_file".to_string()]);

    shell.cd("..").unwrap();
    let back_ls = shell.ls_entries().unwrap();
    assert!(back_ls == root_ls);
    assert_eq!(shell.current_cluster, first_cluster);
}

#[test]
fn read_test() {
    let fs = volume(test_image());
    let data = match fs.read_file("/test_dir/test_dir_file", None) {
        Ok(content) => content,
        Err(e) => e.message().to_string(),
    };
    assert_eq!("test d'écriture dans un fichier d'un dossier\n", data);
    assert_eq!(data.len(), 46);
}

#[test]
fn read_file_length_is_entry_size() {
    let fs = volume(test_image());
    let info = fs.parse_path("/test_dir/test_dir_file", None).unwrap().unwrap();
    let text = fs.read_file("/test_dir/test_dir_file", None).unwrap();
    assert_eq!(text.len(), info.size as usize);
    assert_eq!(fs.read_file("/test.txt", None).unwrap(), "hello");
}

#[test]
fn read_file_errors() {
    let fs = volume(test_image());
    assert_eq!(fs.read_file("/nothing", None), Err(FsError::FileNotFound));
    assert_eq!(fs.read_file("/test_dir", None), Err(FsError::NotAFile));
    assert_eq!(fs.read_file("/test.txt/x", None), Err(FsError::FileNotFound));
    assert_eq!(fs.read_file("", None), Err(FsError::FileNotFound));
}

#[test]
fn read_file_rejects_bad_utf8() {
    let mut disk = test_image();
    let at = (DATA_SECTOR + 1) * SECTOR;
    disk[at] = 0xFF;
    let fs = volume(disk);
    assert_eq!(fs.read_file("/test.txt", None), Err(FsError::InvalidEncoding));
}

#[test]
fn read_file_follows_the_chain() {
    let mut disk = test_image();
    put_fat(&mut disk, 3, 6);
    put_fat(&mut disk, 6, 0x0FFF_FFF8);
    let root_at = DATA_SECTOR * SECTOR;
    disk[root_at + 32 + 28..root_at + 32 + 32].copy_from_slice(&515u32.to_le_bytes());
    let second = (DATA_SECTOR + 4) * SECTOR;
    disk[second..second + 3].copy_from_slice(b"xyz");
    let fs = volume(disk);
    let text = fs.read_file("/test.txt", None).unwrap();
    assert_eq!(text.len(), 515);
    assert!(text.starts_with("hello"));
    assert!(text.ends_with("xyz"));
    assert_eq!(fs.read_chain(3).unwrap().len(), 1024);
}

#[test]
fn size_beyond_the_chain_reads_the_chain() {
    let mut disk = test_image();
    let root_at = DATA_SECTOR * SECTOR;
    disk[root_at + 32 + 28..root_at + 32 + 32].copy_from_slice(&1000u32.to_le_bytes());
    let fs = volume(disk);
    assert_eq!(fs.read_file("/test.txt", None).unwrap().len(), 512);
}

#[test]
fn cyclic_chain_is_out_of_bounds() {
    let mut disk = test_image();
    put_fat(&mut disk, 3, 6);
    put_fat(&mut disk, 6, 3);
    let fs = volume(disk);
    assert_eq!(fs.read_file("/test.txt", None), Err(FsError::OutOfBounds));
    assert_eq!(fs.read_chain(3).err(), Some(FsError::OutOfBounds));
}

#[test]
fn chain_out_of_the_image_is_out_of_bounds() {
    let mut disk = test_image();
    put_fat(&mut disk, 3, 500);
    let fs = volume(disk);
    assert_eq!(fs.read_file("/test.txt", None), Err(FsError::OutOfBounds));
}

#[test]
fn sector_and_cluster_bounds() {
    let disk = test_image();
    let fs = volume(disk.clone());
    assert_eq!(fs.read_sector(0).unwrap(), disk[..512].to_vec());
    assert_eq!(fs.read_sector(101).unwrap().len(), 512);
    assert_eq!(fs.read_sector(102).err(), Some(FsError::OutOfBounds));
    assert_eq!(fs.read_sector(u32::MAX).err(), Some(FsError::OutOfBounds));
    assert_eq!(fs.read_cluster(2).unwrap(), disk[96 * 512..97 * 512].to_vec());
    assert_eq!(fs.read_cluster(7).unwrap().len(), 512);
    assert_eq!(fs.read_cluster(8).err(), Some(FsError::OutOfBounds));
    assert_eq!(fs.read_cluster(1).err(), Some(FsError::OutOfBounds));
    assert_eq!(fs.read_cluster(0).err(), Some(FsError::OutOfBounds));
    assert_eq!(fs.read_cluster(u32::MAX).err(), Some(FsError::OutOfBounds));
    assert_eq!(list_directory_entries(&fs, 9).err(), Some(FsError::OutOfBounds));
}

#[test]
fn fat_entry_keeps_28_bits() {
    let mut disk = test_image();
    put_fat(&mut disk, 3, 0xF000_0006);
    let fs = volume(disk);
    assert_eq!(fs.read_fat_entry(3), Ok(6));
    assert_eq!(fs.read_fat_entry(2), Ok(0x0FFF_FFFF));
    assert_eq!(fs.read_fat_entry(0x0FFF_FFFF).err(), Some(FsError::OutOfBounds));
}

#[test]
fn path_in_one_go_and_in_steps() {
    let fs = volume(test_image());
    let dir = fs.parse_path("/test_dir", None).unwrap().unwrap();
    assert!(dir.is_directory);
    let whole = fs.parse_path("/test_dir/test_dir_file", None).unwrap();
    let stepped = fs.parse_path("test_dir_file", Some(dir.start_cluster)).unwrap();
    assert!(whole.is_some());
    assert!(whole == stepped);
    let again = fs.parse_path("test_dir/./test_dir_file", Some(2)).unwrap();
    assert!(again == whole);
    let back = fs.parse_path("test_dir/../test.txt", None).unwrap().unwrap();
    assert_eq!(back.name, "test.txt");
}

#[test]
fn path_edge_cases() {
    let fs = volume(test_image());
    assert!(fs.parse_path("", None).unwrap().is_none());
    assert!(fs.parse_path("/", None).unwrap().is_none());
    assert!(fs.parse_path(".", None).unwrap().is_none());
    assert!(fs.parse_path("..", None).unwrap().is_none());
    assert!(fs.parse_path("/test.txt/more", None).unwrap().is_none());
    assert!(fs.parse_path("TEST.TXT", None).unwrap().is_none());
    let parent = fs.parse_path("..", Some(4)).unwrap().unwrap();
    assert_eq!(parent.name, "..");
    assert!(parent.is_directory);
    assert_eq!(parent.size, 0);
    assert_eq!(parent.start_cluster, 2);
    let doubled = fs.parse_path("//test_dir//test_dir_file", Some(4)).unwrap().unwrap();
    assert_eq!(doubled.name, "test_dir_file");
    let relative = fs.parse_path("test_dir_file", Some(4)).unwrap().unwrap();
    assert_eq!(relative.start_cluster, 5);
    assert_eq!(fs.parse_path("x", Some(99)).err(), Some(FsError::OutOfBounds));
    assert_eq!(fs.find_parent_cluster(4), Ok(Some(2)));
    assert_eq!(fs.find_parent_cluster(2), Ok(None));
    assert_eq!(fs.find_parent_cluster(99).err(), Some(FsError::OutOfBounds));
}

#[test]
fn shell_commands() {
    let fs = Rc::new(volume(test_image()));
    let mut shell = ShellSession::new(fs.clone());
    assert_eq!(shell.current_cluster, 2);
    assert_eq!(shell.ls(None).unwrap(), "> [FILE] test.txt [DIR] test_dir \n");
    assert_eq!(shell.ls(Some("test_dir")).unwrap(), "> [FILE] test_dir_file \n");
    assert_eq!(shell.ls(Some("nothing")), Err(FsError::EntryNotFound));
    assert_eq!(shell.cd("nothing"), Err(FsError::EntryNotFound));
    assert_eq!(shell.cd("test.txt"), Err(FsError::NotADirectory));
    assert_eq!(shell.current_cluster, 2);
    assert_eq!(shell.cd("test_dir"), Ok(()));
    assert_eq!(shell.current_cluster, 4);
    assert_eq!(shell.ls(None).unwrap(), "> [FILE] test_dir_file \n");
    assert_eq!(shell.cat("test_dir/test_dir_file").unwrap(), FILE_TEXT);
    assert_eq!(shell.cat("test_dir_file"), Err(FsError::FileNotFound));
    assert_eq!(shell.cd("../"), Ok(()));
    assert_eq!(shell.current_cluster, 2);
    assert_eq!(shell.cd("/test_dir/.."), Ok(()));
    assert_eq!(shell.current_cluster, 2);
}

#[test]
fn error_messages() {
    assert_eq!(FsError::FileNotFound.message(), "File not found");
    assert_eq!(FsError::NotAFile.message(), "Not a file");
    assert_eq!(FsError::InvalidEncoding.message(), "Invalid UTF-8 content");
    assert_eq!(FsError::EntryNotFound.message(), "Entry not found");
    assert_eq!(FsError::NotADirectory.message(), "Not a directory");
    assert_eq!(FsError::OutOfBounds.message(), "Error reading outbound");
    assert_eq!(FsError::MalformedBootSector.message(), "Malformed boot sector");
}

#[test]
fn long_name_round_trip() {
    let name = "Un très long nom de fichier, avec des accents et \u{1F600}.text";
    assert!(name.encode_utf16().count() > 39);
    let mut disk = blank_image(1);
    put_fat(&mut disk, 2, 0x0FFF_FFFF);
    let mut root = long_name_entries(name, b"UNTRSL~1TEX");
    assert_eq!(root.len(), 5);
    root.push(standard_entry(b"UNTRSL~1TEX", 0x20, 3, 7));
    put_entries(&mut disk, 2, &root);
    let fs = volume(disk);
    let files = list_directory_entries(&fs, 2).unwrap();
    assert_eq!(files.len(), 1);
    assert_eq!(files[0].name, name);
    assert_eq!(files[0].size, 7);
}

#[test]
fn checksum_mismatch_falls_back_to_short_name() {
    let mut disk = blank_image(1);
    let mut root = long_name_entries("test.txt", b"TEST    TXT");
    root.push(standard_entry(b"TEXT    TXT", 0x20, 3, 7));
    put_entries(&mut disk, 2, &root);
    let fs = volume(disk);
    let files = list_directory_entries(&fs, 2).unwrap();
    assert_eq!(names(&files), vec!["TEXT.TXT".to_string()]);
}

#[test]
fn deleted_entries_labels_and_the_end_mark() {
    let mut disk = blank_image(1);
    let mut root = Vec::new();
    root.extend(long_name_entries("gone.txt", b"GONE    TXT"));
    let mut deleted = standard_entry(b"GONE    TXT", 0x20, 3, 1);
    deleted[0] = 0xE5;
    root.push(deleted);
    root.push(standard_entry(b"MYDISK     ", 0x08, 0, 0));
    root.extend(long_name_entries("kept.txt", b"KEPT    TXT"));
    let mut lost = standard_entry(b"LOST    TXT", 0x20, 3, 1);
    lost[0] = 0xE5;
    root.push(lost);
    root.push(standard_entry(b"KEPT    TXT", 0x20, 4, 2));
    root.push(standard_entry(b"NOEXT      ", 0x10, 5, 0));
    root.push([0u8; 32]);
    root.push(standard_entry(b"AFTER   END", 0x20, 6, 3));
    put_entries(&mut disk, 2, &root);
    let fs = volume(disk);
    let files = list_directory_entries(&fs, 2).unwrap();
    assert_eq!(names(&files), vec!["KEPT.TXT".to_string(), "NOEXT".to_string()]);
    assert!(files[1].is_directory);
}

#[test]
fn long_name_that_is_not_utf16_falls_back() {
    let mut disk = blank_image(1);
    let mut root = long_name_entries("test.txt", b"TEST    TXT");
    root[0][1..3].copy_from_slice(&0xD800u16.to_le_bytes());
    root.push(standard_entry(b"TEST    TXT", 0x20, 3, 7));
    put_entries(&mut disk, 2, &root);
    let fs = volume(disk);
    let files = list_directory_entries(&fs, 2).unwrap();
    assert_eq!(names(&files), vec!["TEST.TXT".to_string()]);
}

#[test]
fn high_half_of_the_first_cluster() {
    let mut disk = blank_image(1);
    let root = vec![standard_entry(b"BIG     BIN", 0x20, 0x0012_3456, 0xDEAD_BEEF)];
    put_entries(&mut disk, 2, &root);
    let fs = volume(disk);
    let files = list_directory_entries(&fs, 2).unwrap();
    assert_eq!(files[0].start_cluster, 0x0012_3456);
    assert_eq!(files[0].size, 0xDEAD_BEEF);
}
