use rv32_kernel::common::{align_up, ascii_len, is_aligned, oct2int, Console};

#[test]
fn align_up_rounds_to_next_multiple() {
    assert_eq!(align_up(0, 512), 0);
    assert_eq!(align_up(1, 512), 512);
    assert_eq!(align_up(512, 512), 512);
    assert_eq!(align_up(513, 512), 1024);
    assert_eq!(align_up(2264, 512), 2560);
    assert_eq!(align_up(529, 4096), 4096);
}

#[test]
fn align_up_with_align_one_is_identity() {
    assert_eq!(align_up(0, 1), 0);
    assert_eq!(align_up(12345, 1), 12345);
}

#[test]
fn is_aligned_tests_divisibility() {
    assert!(is_aligned(0, 4096));
    assert!(is_aligned(8192, 4096));
    assert!(!is_aligned(8193, 4096));
    assert!(!is_aligned(4095, 4096));
}

#[test]
fn ascii_len_counts_the_terminator() {
    assert_eq!(ascii_len(b"ustar\0"), 6);
    assert_eq!(ascii_len(b"\0"), 1);
    assert_eq!(ascii_len(b"ab\0cd\0"), 3);
}

#[test]
fn ascii_len_without_terminator_takes_one_to_follow() {
    assert_eq!(ascii_len(b"abc"), 4);
    assert_eq!(ascii_len(b""), 1);
}

#[test]
fn oct2int_reads_octal_digits() {
    assert_eq!(oct2int(b"00000000032\0"), 26);
    assert_eq!(oct2int(b"00000002000\0"), 1024);
    assert_eq!(oct2int(b"777"), 511);
    assert_eq!(oct2int(b"0"), 0);
}

#[test]
fn oct2int_stops_at_nul_space_and_other_bytes() {
    assert_eq!(oct2int(b"12 34"), 10);
    assert_eq!(oct2int(b"12\x0034"), 10);
    assert_eq!(oct2int(b"128"), 10);
    assert_eq!(oct2int(b""), 0);
    assert_eq!(oct2int(b" 12"), 0);
}

#[test]
fn oct2int_takes_twenty_one_digits() {
    assert_eq!(oct2int(b"777777777777777777777"), (1u64 << 63) - 1);
}

#[test]
fn console_write_appends_bytes_in_order() {
    let mut c = Console::new();
    c.write(b"ab");
    c.write(b"");
    c.write(&[0, 0xff]);
    assert_eq!(c.out, vec![b'a', b'b', 0, 0xff]);
    assert!(c.input.is_empty());
}

#[test]
fn console_write_str_appends_bytes_in_order() {
    let mut c = Console::new();
    assert!(c.out.is_empty());
    assert!(c.input.is_empty());
    c.write_str("hel");
    c.write_str("lo\n");
    assert_eq!(c.out, b"hello\n".to_vec());
    assert!(c.input.is_empty());
}
