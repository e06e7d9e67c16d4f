use rv32_kernel::fs::{
    can_flush, fs_check, fs_flush, fs_init, fs_lookup, File, FileSystem, DISK_MAX_SIZE,
};

fn put(disk: &mut [u8; 2560], off: usize, bytes: &[u8]) {
    disk[off..off + bytes.len()].copy_from_slice(bytes);
}

fn octal(n: usize, width: usize) -> Vec<u8> {
    format!("{:0width$o}", n, width = width).into_bytes()
}

fn checksum(disk: &[u8; 2560], off: usize) -> usize {
    let mut sum = 0usize;
    for k in 0..512 {
        sum += if (148..156).contains(&k) { 0x20 } else { disk[off + k] as usize };
    }
    sum
}

fn put_entry(disk: &mut [u8; 2560], off: usize, name: &[u8], data: &[u8]) {
    put(disk, off, name);
    put(disk, off + 100, b"0000644\0");
    put(disk, off + 124, &octal(data.len(), 11));
    disk[off + 135] = 0;
    disk[off + 156] = b'0';
    put(disk, off + 257, b"ustar\0");
    put(disk, off + 263, b"00");
    let sum = checksum(disk, off);
    put(disk, off + 148, &octal(sum, 6));
    disk[off + 154] = 0;
    disk[off + 155] = b' ';
    put(disk, off + 512, data);
}

fn empty_fs() -> FileSystem {
    FileSystem { files: [File::new(); 2], disk: [0u8; 2560] }
}

fn named(name: &[u8], data: &[u8]) -> File {
    let mut f = File::new();
    f.in_use = true;
    f.name[..name.len()].copy_from_slice(name);
    f.data[..data.len()].copy_from_slice(data);
    f.size = data.len();
    f
}

#[test]
fn file_new_is_unused_and_zeroed() {
    let f = File::new();
    assert!(!f.in_use);
    assert_eq!(f.size, 0);
    assert!(f.name.iter().all(|b| *b == 0));
    assert!(f.data.iter().all(|b| *b == 0));
}

#[test]
fn disk_image_is_five_sectors() {
    assert_eq!(DISK_MAX_SIZE, 2560);
    assert_eq!(DISK_MAX_SIZE % 512, 0);
}

#[test]
fn init_reads_one_file() {
    let mut fs = empty_fs();
    put_entry(&mut fs.disk, 0, b"lorem.txt", b"Lorem ipsum dolor sit amet");
    assert!(fs_check(&fs));
    fs_init(&mut fs);
    assert!(fs.files[0].in_use);
    assert_eq!(&fs.files[0].name[..10], b"lorem.txt\0");
    assert_eq!(fs.files[0].size, 26);
    assert_eq!(&fs.files[0].data[..26], b"Lorem ipsum dolor sit amet");
    assert!(!fs.files[1].in_use);
}

#[test]
fn init_reads_two_files_in_archive_order() {
    let mut fs = empty_fs();
    put_entry(&mut fs.disk, 0, b"a.txt", &[7u8; 600]);
    put_entry(&mut fs.disk, 1536, b"b.txt", b"bee");
    assert!(fs_check(&fs));
    fs_init(&mut fs);
    assert!(fs.files[0].in_use && fs.files[1].in_use);
    assert_eq!(&fs.files[0].name[..6], b"a.txt\0");
    assert_eq!(fs.files[0].size, 600);
    assert_eq!(&fs.files[0].data[..600], &[7u8; 600][..]);
    assert_eq!(&fs.files[1].name[..6], b"b.txt\0");
    assert_eq!(fs.files[1].size, 3);
    assert_eq!(&fs.files[1].data[..3], b"bee");
}

#[test]
fn init_stops_at_an_empty_name() {
    let mut fs = empty_fs();
    assert!(fs_check(&fs));
    fs_init(&mut fs);
    assert!(!fs.files[0].in_use);
    assert!(!fs.files[1].in_use);
}

#[test]
fn init_takes_a_space_terminated_size() {
    let mut fs = empty_fs();
    put_entry(&mut fs.disk, 0, b"s.txt", b"abcde");
    put(&mut fs.disk, 124, b"5 \0\0\0\0\0\0\0\0\0\0");
    assert!(fs_check(&fs));
    fs_init(&mut fs);
    assert_eq!(fs.files[0].size, 5);
    assert_eq!(&fs.files[0].data[..5], b"abcde");
}

#[test]
fn init_leaves_the_disk_image_alone() {
    let mut fs = empty_fs();
    put_entry(&mut fs.disk, 0, b"lorem.txt", b"Lorem");
    let before = fs.disk;
    fs_init(&mut fs);
    assert_eq!(fs.disk[..], before[..]);
}

#[test]
fn check_refuses_a_wrong_magic() {
    let mut fs = empty_fs();
    put_entry(&mut fs.disk, 0, b"lorem.txt", b"Lorem");
    fs.disk[257] = b'x';
    assert!(!fs_check(&fs));
}

#[test]
fn init_cuts_a_large_file_to_the_capacity() {
    let mut fs = empty_fs();
    let mut data = [0u8; 1500];
    for (i, b) in data.iter_mut().enumerate() {
        *b = (i % 253) as u8 + 1;
    }
    put_entry(&mut fs.disk, 0, b"big.bin", &data);
    // the next header lies behind the whole entry: 512 + 1500, rounded up
    put_entry(&mut fs.disk, 2048, b"next.txt", b"");
    assert!(fs_check(&fs));
    fs_init(&mut fs);
    assert!(fs.files[0].in_use);
    assert_eq!(&fs.files[0].name[..8], b"big.bin\0");
    assert_eq!(fs.files[0].size, 1024);
    assert_eq!(fs.files[0].data[..], data[..1024]);
    assert!(fs.files[1].in_use);
    assert_eq!(&fs.files[1].name[..9], b"next.txt\0");
    assert_eq!(fs.files[1].size, 0);
    assert!(can_flush(&fs));
}

#[test]
fn init_takes_a_file_of_one_byte_more_than_the_capacity() {
    let mut fs = empty_fs();
    put_entry(&mut fs.disk, 0, b"big", &[9u8; 1025]);
    assert!(fs_check(&fs));
    fs_init(&mut fs);
    assert_eq!(fs.files[0].size, 1024);
    assert_eq!(fs.files[0].data[..], [9u8; 1024][..]);
    // the next header is sought at 2048, where nothing is
    assert!(!fs.files[1].in_use);
}

#[test]
fn init_ends_where_the_next_header_lies_behind_the_image() {
    let mut fs = empty_fs();
    put_entry(&mut fs.disk, 0, b"huge", &[7u8; 1024]);
    put(&mut fs.disk, 124, b"77777777777\0");
    fs.disk[1536] = b'x';
    fs.disk[2048] = b'x';
    assert!(fs_check(&fs));
    fs_init(&mut fs);
    assert!(fs.files[0].in_use);
    assert_eq!(fs.files[0].size, 1024);
    assert_eq!(fs.files[0].data[..], [7u8; 1024][..]);
    assert!(!fs.files[1].in_use);
}

#[test]
fn init_ends_at_the_end_of_the_image() {
    let mut fs = empty_fs();
    // an entry that fills the image: the next header would start at 2560
    put_entry(&mut fs.disk, 0, b"fill", &[3u8; 1024]);
    put(&mut fs.disk, 124, b"00000004000\0");
    assert!(fs_check(&fs));
    fs_init(&mut fs);
    assert_eq!(fs.files[0].size, 1024);
    assert!(!fs.files[1].in_use);
}

#[test]
fn check_refuses_kept_bytes_beyond_the_image() {
    let mut fs = empty_fs();
    put_entry(&mut fs.disk, 0, b"a", &[1u8; 1024]);
    put_entry(&mut fs.disk, 1536, b"b", b"");
    // of 2000 bytes 1024 are kept, and they do not fit behind 1536 + 512
    put(&mut fs.disk, 1536 + 124, &octal(2000, 11));
    assert!(!fs_check(&fs));
}

#[test]
fn check_refuses_data_beyond_the_image() {
    let mut fs = empty_fs();
    put_entry(&mut fs.disk, 0, b"a", &[1u8; 1024]);
    put_entry(&mut fs.disk, 1536, b"b", b"");
    put(&mut fs.disk, 1536 + 124, &octal(513, 11));
    assert!(!fs_check(&fs));
}

#[test]
fn check_accepts_data_up_to_the_end_of_the_image() {
    let mut fs = empty_fs();
    put_entry(&mut fs.disk, 0, b"a", &[1u8; 1024]);
    put_entry(&mut fs.disk, 1536, b"b", &[2u8; 512]);
    assert!(fs_check(&fs));
    fs_init(&mut fs);
    assert_eq!(fs.files[1].size, 512);
    assert_eq!(&fs.files[1].data[..512], &[2u8; 512][..]);
}

#[test]
fn flush_writes_a_ustar_header() {
    let mut fs = empty_fs();
    fs.files[0] = named(b"lorem.txt", b"Lorem ipsum dolor sit amet");
    fs_flush(&mut fs);
    assert_eq!(&fs.disk[0..10], b"lorem.txt\0");
    assert_eq!(&fs.disk[100..108], b"0000644\0");
    assert_eq!(&fs.disk[124..136], b"00000000032\0");
    assert_eq!(fs.disk[156], b'0');
    assert_eq!(&fs.disk[257..263], b"ustar\0");
    assert_eq!(&fs.disk[263..265], b"00");
    assert_eq!(&fs.disk[512..538], b"Lorem ipsum dolor sit amet");
}

#[test]
fn flush_writes_the_checksum_as_six_digits_nul_space() {
    let mut fs = empty_fs();
    fs.files[0] = named(b"lorem.txt", b"Lorem ipsum dolor sit amet");
    fs_flush(&mut fs);
    let sum = checksum(&fs.disk, 0);
    assert_eq!(&fs.disk[148..154], &octal(sum, 6)[..]);
    assert_eq!(fs.disk[154], 0);
    assert_eq!(fs.disk[155], b' ');
    // name 941, mode 350, size 533, type 48, magic 559, version 96, blank checksum 256
    assert_eq!(sum, 941 + 350 + 533 + 48 + 559 + 96 + 256);
    assert_eq!(&fs.disk[148..154], b"005337");
}

#[test]
fn flush_counts_every_byte_of_the_header_in_the_checksum() {
    let mut fs = empty_fs();
    fs.files[0] = named(b"a", b"");
    fs.disk[108] = 9;
    fs.disk[505] = 200;
    fs_flush(&mut fs);
    assert_eq!(fs.disk[108], 9);
    assert_eq!(fs.disk[505], 200);
    let sum = checksum(&fs.disk, 0);
    assert_eq!(oct2(&fs.disk[148..154]), sum);
}

fn oct2(digits: &[u8]) -> usize {
    digits.iter().fold(0, |acc, d| acc * 8 + (*d - b'0') as usize)
}

#[test]
fn flush_keeps_the_file_table() {
    let mut fs = empty_fs();
    fs.files[1] = named(b"only", b"xyz");
    fs_flush(&mut fs);
    assert!(!fs.files[0].in_use);
    assert!(fs.files[1].in_use);
    assert_eq!(fs.files[1].size, 3);
    assert_eq!(&fs.files[1].name[..5], b"only\0");
}

#[test]
fn flush_places_entries_on_block_boundaries() {
    let mut fs = empty_fs();
    fs.files[0] = named(b"a.txt", &[7u8; 600]);
    fs.files[1] = named(b"b.txt", b"bee");
    fs_flush(&mut fs);
    assert_eq!(&fs.disk[0..6], b"a.txt\0");
    assert_eq!(&fs.disk[512..1112], &[7u8; 600][..]);
    assert_eq!(&fs.disk[1536..1542], b"b.txt\0");
    assert_eq!(&fs.disk[1536 + 124..1536 + 136], b"00000000003\0");
    assert_eq!(&fs.disk[2048..2051], b"bee");
}

#[test]
fn flush_zeroes_what_lies_behind_the_last_entry() {
    let mut fs = empty_fs();
    fs.disk = [0xEE; 2560];
    fs.files[0] = named(b"a", b"12345");
    fs_flush(&mut fs);
    assert!(fs.disk[1024..].iter().all(|b| *b == 0));
    assert_eq!(&fs.disk[512..517], b"12345");
}

#[test]
fn flush_of_an_empty_table_gives_an_empty_archive() {
    let mut fs = empty_fs();
    fs.disk = [0xEE; 2560];
    fs_flush(&mut fs);
    assert!(fs.disk.iter().all(|b| *b == 0));
}

#[test]
fn flush_then_init_restores_the_files() {
    let mut fs = empty_fs();
    fs.disk = [0xAB; 2560];
    fs.files[0] = named(b"one.txt", &[3u8; 700]);
    fs.files[1] = named(b"two.txt", b"second");
    fs_flush(&mut fs);
    let mut back = FileSystem { files: [File::new(); 2], disk: fs.disk };
    assert!(fs_check(&back));
    fs_init(&mut back);
    for i in 0..2 {
        assert!(back.files[i].in_use);
        assert_eq!(back.files[i].name[..], fs.files[i].name[..]);
        assert_eq!(back.files[i].size, fs.files[i].size);
        assert_eq!(back.files[i].data[..back.files[i].size], fs.files[i].data[..fs.files[i].size]);
    }
}

#[test]
fn flush_then_init_moves_files_to_the_front_in_table_order() {
    let mut fs = empty_fs();
    fs.files[1] = named(b"late.txt", b"data");
    fs_flush(&mut fs);
    let mut back = FileSystem { files: [File::new(); 2], disk: fs.disk };
    fs_init(&mut back);
    assert!(back.files[0].in_use);
    assert_eq!(&back.files[0].name[..9], b"late.txt\0");
    assert_eq!(back.files[0].size, 4);
    assert_eq!(&back.files[0].data[..4], b"data");
    assert!(!back.files[1].in_use);
}

#[test]
fn flush_then_init_after_a_file_shrank() {
    let mut fs = empty_fs();
    fs.files[0] = named(b"f", &[0x55u8; 600]);
    fs_flush(&mut fs);
    fs.files[0].size = 100;
    fs_flush(&mut fs);
    let mut back = FileSystem { files: [File::new(); 2], disk: fs.disk };
    assert!(fs_check(&back));
    fs_init(&mut back);
    assert_eq!(back.files[0].size, 100);
    assert!(!back.files[1].in_use);
}

#[test]
fn flush_then_init_with_files_of_full_size() {
    let mut fs = empty_fs();
    fs.files[0] = named(b"full", &[1u8; 1024]);
    fs.files[1] = named(b"half", &[2u8; 512]);
    fs_flush(&mut fs);
    let mut back = FileSystem { files: [File::new(); 2], disk: fs.disk };
    assert!(fs_check(&back));
    fs_init(&mut back);
    assert_eq!(back.files[0].size, 1024);
    assert_eq!(back.files[0].data[..], [1u8; 1024][..]);
    assert_eq!(back.files[1].size, 512);
    assert_eq!(back.files[1].data[..512], [2u8; 512][..]);
}

#[test]
fn lookup_finds_a_file_by_its_name() {
    let mut fs = empty_fs();
    fs.files[0] = named(b"a.txt", b"");
    fs.files[1] = named(b"b.txt", b"");
    assert_eq!(fs_lookup(&fs, b"a.txt"), Ok(0));
    assert_eq!(fs_lookup(&fs, b"b.txt"), Ok(1));
}

#[test]
fn lookup_reports_a_missing_name() {
    let mut fs = empty_fs();
    fs.files[0] = named(b"a.txt", b"");
    assert_eq!(fs_lookup(&fs, b"c.txt"), Err(()));
    assert_eq!(fs_lookup(&fs, b"a.tx"), Err(()));
    assert_eq!(fs_lookup(&fs, b"a.txt2"), Err(()));
}

#[test]
fn lookup_compares_up_to_the_terminator() {
    let mut fs = empty_fs();
    fs.files[0] = named(b"a.txt\0junk", b"");
    assert_eq!(fs_lookup(&fs, b"a.txt"), Ok(0));
}

#[test]
fn lookup_returns_the_first_of_equal_names() {
    let mut fs = empty_fs();
    fs.files[0] = named(b"same", b"");
    fs.files[1] = named(b"same", b"");
    assert_eq!(fs_lookup(&fs, b"same"), Ok(0));
}

#[test]
fn lookup_takes_a_name_that_fills_the_field() {
    let mut fs = empty_fs();
    fs.files[1] = named(&[b'n'; 100], b"");
    assert_eq!(fs_lookup(&fs, &[b'n'; 100]), Ok(1));
    assert_eq!(fs_lookup(&fs, &[b'n'; 99]), Err(()));
}

#[test]
fn can_flush_tells_whether_the_entries_fit() {
    let mut fs = empty_fs();
    assert!(can_flush(&fs));
    fs.files[0] = named(b"a", &[1u8; 1024]);
    fs.files[1] = named(b"b", &[2u8; 512]);
    assert!(can_flush(&fs));
    fs.files[1].size = 513;
    assert!(!can_flush(&fs));
    fs.files[1].in_use = false;
    assert!(can_flush(&fs));
    fs.files[1].size = 1025;
    assert!(!can_flush(&fs));
}
