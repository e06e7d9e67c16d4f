//! The flat file store: a fixed table of files kept in memory, and the ustar
//! image of that table as it lies on the block device.
//!
//! Reading the image turns its headers into table entries; flushing writes
//! the table back as headers with fresh size and checksum fields. Moving the
//! image between memory and the device, sector by sector, is the block
//! driver's business and happens outside these functions.

use vstd::prelude::*;
use crate::common::{
    align_up, ascii_len, is_octal_digit, lemma_strlen_from, oct2int, octal_end_from, octal_value,
    pow8, spec_align_up, spec_cstr, spec_oct2int, spec_strlen,
};

verus! {

/// Number of entries in the file table.
pub const FILES_MAX: usize = 2;

/// Size of a file's name field.
pub const FILE_NAME_SIZE: usize = 100;

/// Capacity of a file's data.
pub const FILE_DATA_SIZE: usize = 1024;

/// Size of the disk image kept in memory: two file records, rounded up to
/// whole sectors.
pub const DISK_MAX_SIZE: usize = 2560;

/// One entry of the file table.
#[derive(Clone, Copy)]
pub struct File {
    pub in_use: bool,
    pub name: [u8; 100],
    pub data: [u8; 1024],
    pub size: usize,
}

impl File {
    /// An unused entry: no name, no data.
    pub fn new() -> (f: File)
        ensures
            !f.in_use,
            f.size == 0,
            f.name@ == Seq::new(100, |i: int| 0u8),
            f.data@ == Seq::new(1024, |i: int| 0u8),
    {
        let f = File { in_use: false, name: [0u8; 100], data: [0u8; 1024], size: 0 };
        assert(f.name@ =~= Seq::new(100, |i: int| 0u8));
        assert(f.data@ =~= Seq::new(1024, |i: int| 0u8));
        f
    }

    /// The size does not exceed the data capacity.
    pub open spec fn wf(&self) -> bool {
        self.size <= FILE_DATA_SIZE
    }

    /// The name as a string: the bytes before the first NUL.
    pub open spec fn name_str(&self) -> Seq<u8> {
        spec_cstr(self.name@)
    }

    /// The bytes that the file holds.
    pub open spec fn contents(&self) -> Seq<u8> {
        self.data@.take(self.size as int)
    }
}

/// The file table together with the in-memory copy of the disk image.
pub struct FileSystem {
    pub files: [File; 2],
    pub disk: [u8; 2560],
}

/// `s` with the bytes of `t` written over it from index `off` on.
pub open spec fn splice(s: Seq<u8>, off: int, t: Seq<u8>) -> Seq<u8> {
    Seq::new(s.len(), |k: int| if off <= k < off + t.len() { t[k - off] } else { s[k] })
}

/// `s` with every byte from index `off` on set to zero.
pub open spec fn zero_from(s: Seq<u8>, off: int) -> Seq<u8> {
    Seq::new(s.len(), |k: int| if off <= k { 0u8 } else { s[k] })
}

/// The number `n` written as `w` octal digits, most significant first,
/// padded with zeros on the left (and cut on the left where it is too long).
pub open spec fn octal_field(n: nat, w: nat) -> Seq<u8>
    decreases w,
{
    if w == 0 {
        Seq::empty()
    } else {
        octal_field(n / 8, (w - 1) as nat).push((0x30 + n % 8) as u8)
    }
}

/// The sum of the bytes of `s`.
pub open spec fn byte_sum(s: Seq<u8>) -> nat
    decreases s.len(),
{
    if s.len() == 0 {
        0
    } else {
        byte_sum(s.drop_last()) + s.last() as nat
    }
}

/// The `mode` field of every header written: `0000644` and a NUL.
pub open spec fn mode_bytes() -> Seq<u8> {
    seq![0x30u8, 0x30u8, 0x30u8, 0x30u8, 0x36u8, 0x34u8, 0x34u8, 0u8]
}

/// The `magic` field of every header written: `ustar` and a NUL.
pub open spec fn magic_bytes() -> Seq<u8> {
    seq![0x75u8, 0x73u8, 0x74u8, 0x61u8, 0x72u8, 0u8]
}

/// The `version` field of every header written: `00`.
pub open spec fn version_bytes() -> Seq<u8> {
    seq![0x30u8, 0x30u8]
}

/// Eight ASCII spaces: what the checksum field counts as while the checksum
/// is taken.
pub open spec fn blank_checksum() -> Seq<u8> {
    seq![0x20u8, 0x20u8, 0x20u8, 0x20u8, 0x20u8, 0x20u8, 0x20u8, 0x20u8]
}

/// The ustar checksum of the header block at `off`: the sum of its 512 bytes
/// with the checksum field read as eight spaces.
pub open spec fn header_checksum(disk: Seq<u8>, off: int) -> nat {
    byte_sum(splice(disk.subrange(off, off + 512), 148, blank_checksum()))
}

/// The image `disk` with every header field but the checksum written for a
/// file called `name` of `size` bytes at `off`. Fields that the file store
/// does not use keep the bytes they had.
pub open spec fn with_header_fields(disk: Seq<u8>, off: int, name: Seq<u8>, size: nat) -> Seq<u8> {
    let d = splice(disk, off, name);
    let d = splice(d, off + 100, mode_bytes());
    let d = splice(d, off + 257, magic_bytes());
    let d = splice(d, off + 263, version_bytes());
    let d = splice(d, off + 156, seq![0x30u8]);
    splice(d, off + 124, octal_field(size, 11).push(0u8))
}

/// The image `disk` with the complete header of a file called `name` of
/// `size` bytes written at `off`: the fields, then the checksum over them as
/// six octal digits, a NUL and a space.
pub open spec fn with_header(disk: Seq<u8>, off: int, name: Seq<u8>, size: nat) -> Seq<u8> {
    let d = with_header_fields(disk, off, name, size);
    splice(d, off + 148, octal_field(header_checksum(d, off), 6).push(0u8).push(0x20u8))
}

/// The image `disk` with the header and the contents of `file` written at
/// `off`.
pub open spec fn with_entry(disk: Seq<u8>, off: int, file: File) -> Seq<u8> {
    splice(with_header(disk, off, file.name@, file.size as nat), off + 512, file.contents())
}

/// Number of image bytes that an entry of `size` data bytes takes: header
/// and data, rounded up to whole blocks.
pub open spec fn entry_span(size: int) -> int {
    spec_align_up(512 + size, 512)
}

/// Offset in the image just behind the entries of the files in use among
/// `files[i..]`, when the first of them is written at `off`.
pub open spec fn flush_end_from(files: Seq<File>, i: int, off: int) -> int
    decreases files.len() - i,
{
    if i < 0 || i >= files.len() {
        off
    } else if !files[i].in_use {
        flush_end_from(files, i + 1, off)
    } else {
        flush_end_from(files, i + 1, off + entry_span(files[i].size as int))
    }
}

/// The image `disk` after the files in use among `files[i..]` were written
/// one behind the other from `off` on, and everything behind the last of
/// them was zeroed.
pub open spec fn flush_from(files: Seq<File>, disk: Seq<u8>, i: int, off: int) -> Seq<u8>
    decreases files.len() - i,
{
    if i < 0 || i >= files.len() {
        zero_from(disk, off)
    } else if !files[i].in_use {
        flush_from(files, disk, i + 1, off)
    } else {
        flush_from(
            files,
            with_entry(disk, off, files[i]),
            i + 1,
            off + entry_span(files[i].size as int),
        )
    }
}

/// The image that a flush of `files` makes of `disk`.
pub open spec fn spec_flush(files: Seq<File>, disk: Seq<u8>) -> Seq<u8> {
    flush_from(files, disk, 0, 0)
}

/// Every file keeps within its data capacity, and the entries of the files
/// in use fit into the image.
pub open spec fn flushable(files: Seq<File>) -> bool {
    &&& forall|i: int| 0 <= i < files.len() ==> (#[trigger] files[i]).wf()
    &&& flush_end_from(files, 0, 0) <= DISK_MAX_SIZE
}

/// Copies the first `n` bytes of `src` into the image at `off`.
fn write_bytes(disk: &mut [u8; 2560], off: usize, src: &[u8], n: usize)
    requires
        n <= src@.len(),
        off + n <= DISK_MAX_SIZE,
    ensures
        final(disk)@ == splice(old(disk)@, off as int, src@.take(n as int)),
{
    let mut k: usize = 0;
    while k < n
        invariant
            k <= n <= src@.len(),
            off + n <= DISK_MAX_SIZE,
            disk@ == splice(old(disk)@, off as int, src@.take(k as int)),
        decreases n - k,
    {
        disk[off + k] = src[k];
        k += 1;
    }
}

/// Writes `n` as `w` octal digits into the image at `off`.
fn write_octal(disk: &mut [u8; 2560], off: usize, w: usize, n: usize)
    requires
        off + w <= DISK_MAX_SIZE,
    ensures
        final(disk)@ == splice(old(disk)@, off as int, octal_field(n as nat, w as nat)),
{
    let mut rest: usize = n;
    let mut i: usize = 0;
    while i < w
        invariant
            i <= w,
            off + w <= DISK_MAX_SIZE,
            octal_field(n as nat, w as nat) =~= octal_field(rest as nat, (w - i) as nat)
                + disk@.subrange(off + w - i, off + w),
            forall|k: int|
                0 <= k < 2560 && !(off + w - i <= k < off + w) ==> disk@[k] == old(disk)@[k],
        decreases w - i,
    {
        let ghost before = disk@;
        disk[off + (w - 1 - i)] = (rest % 8) as u8 + 0x30;
        proof {
            let head = octal_field((rest / 8) as nat, (w - i - 1) as nat);
            let digit = (0x30 + rest % 8) as u8;
            assert(octal_field(rest as nat, (w - i) as nat) == head.push(digit));
            assert(disk@.subrange(off + w - i - 1, off + w) =~= seq![digit] + before.subrange(
                off + w - i,
                off + w,
            ));
            assert(head.push(digit) + before.subrange(off + w - i, off + w) =~= head + (seq![digit]
                + before.subrange(off + w - i, off + w)));
        }
        rest = rest / 8;
        i += 1;
    }
    proof {
        lemma_octal_field_len(n as nat, w as nat);
        assert(octal_field(rest as nat, 0) =~= Seq::<u8>::empty());
        assert(disk@ =~= splice(old(disk)@, off as int, octal_field(n as nat, w as nat)));
    }
}

/// An octal field of width `w` has `w` bytes, each an octal digit.
pub proof fn lemma_octal_field_len(n: nat, w: nat)
    ensures
        octal_field(n, w).len() == w,
        forall|j: int| 0 <= j < w ==> is_octal_digit(#[trigger] octal_field(n, w)[j]),
    decreases w,
{
    if w > 0 {
        lemma_octal_field_len(n / 8, (w - 1) as nat);
    }
}

/// Flushing from a later file and offset ends no earlier.
pub proof fn lemma_flush_end_monotonic(files: Seq<File>, i: int, off: int)
    ensures
        off <= flush_end_from(files, i, off),
    decreases files.len() - i,
{
    if 0 <= i < files.len() {
        if files[i].in_use {
            lemma_flush_end_monotonic(files, i + 1, off + entry_span(files[i].size as int));
        } else {
            lemma_flush_end_monotonic(files, i + 1, off);
        }
    }
}

/// Computes the checksum of the header block at `off`.
fn checksum(disk: &[u8; 2560], off: usize) -> (sum: usize)
    requires
        off + 512 <= DISK_MAX_SIZE,
    ensures
        sum == header_checksum(disk@, off as int),
        sum <= 512 * 255,
{
    let ghost block = splice(disk@.subrange(off as int, off + 512), 148, blank_checksum());
    let mut acc: usize = 0;
    let mut k: usize = 0;
    while k < 512
        invariant
            k <= 512,
            off + 512 <= DISK_MAX_SIZE,
            block == splice(disk@.subrange(off as int, off + 512), 148, blank_checksum()),
            acc == byte_sum(block.take(k as int)),
            acc <= k * 255,
        decreases 512 - k,
    {
        let b: u8 = if 148 <= k && k < 156 {
            0x20
        } else {
            disk[off + k]
        };
        proof {
            assert(block.take(k + 1).drop_last() =~= block.take(k as int));
            assert(block.take(k + 1).last() == b);
        }
        acc = acc + b as usize;
        k += 1;
    }
    assert(block.take(512) =~= block);
    acc
}

/// Writes the header of `file` into the image at `off`.
fn write_header(disk: &mut [u8; 2560], off: usize, file: &File)
    requires
        off + 512 <= DISK_MAX_SIZE,
    ensures
        final(disk)@ == with_header(old(disk)@, off as int, file.name@, file.size as nat),
{
    let mode: [u8; 8] = [0x30, 0x30, 0x30, 0x30, 0x36, 0x34, 0x34, 0];
    let magic: [u8; 6] = [0x75, 0x73, 0x74, 0x61, 0x72, 0];
    let version: [u8; 2] = [0x30, 0x30];
    assert(file.name@.take(100) =~= file.name@);
    assert(mode@.take(8) =~= mode_bytes());
    assert(magic@.take(6) =~= magic_bytes());
    assert(version@.take(2) =~= version_bytes());
    write_bytes(disk, off, &file.name, 100);
    write_bytes(disk, off + 100, &mode, 8);
    write_bytes(disk, off + 257, &magic, 6);
    write_bytes(disk, off + 263, &version, 2);
    let ghost before_type = disk@;
    disk[off + 156] = 0x30;
    assert(disk@ =~= splice(before_type, off + 156, seq![0x30u8]));
    let ghost before_size = disk@;
    write_octal(disk, off + 124, 11, file.size);
    disk[off + 135] = 0;
    proof {
        lemma_octal_field_len(file.size as nat, 11);
        assert(disk@ =~= splice(
            before_size,
            off + 124,
            octal_field(file.size as nat, 11).push(0u8),
        ));
    }
    let ghost fields = disk@;
    let sum = checksum(disk, off);
    write_octal(disk, off + 148, 6, sum);
    disk[off + 154] = 0;
    disk[off + 155] = 0x20;
    proof {
        lemma_octal_field_len(sum as nat, 6);
        assert(disk@ =~= splice(
            fields,
            off + 148,
            octal_field(sum as nat, 6).push(0u8).push(0x20u8),
        ));
    }
}

/// Writes the file table into the disk image as a ustar archive.
///
/// The files in use are written in table order, each as a header block
/// followed by its contents, each entry starting on a block boundary.
/// Everything behind the last entry is zeroed, so that the archive ends in
/// a zero block wherever the image has room for one. The table itself is
/// left as it is.
pub fn fs_flush(fs: &mut FileSystem)
    requires
        flushable(old(fs).files@),
    ensures
        final(fs).files == old(fs).files,
        final(fs).disk@ == spec_flush(old(fs).files@, old(fs).disk@),
{
    let mut off: usize = 0;
    let mut i: usize = 0;
    while i < FILES_MAX
        invariant
            i <= FILES_MAX,
            fs.files == old(fs).files,
            flushable(fs.files@),
            off <= DISK_MAX_SIZE,
            flush_end_from(fs.files@, i as int, off as int) <= DISK_MAX_SIZE,
            flush_from(fs.files@, fs.disk@, i as int, off as int) == spec_flush(
                old(fs).files@,
                old(fs).disk@,
            ),
        decreases FILES_MAX - i,
    {
        if fs.files[i].in_use {
            let file = fs.files[i];
            proof {
                assert(fs.files@[i as int].wf());
                lemma_flush_end_monotonic(
                    fs.files@,
                    i + 1,
                    off + entry_span(file.size as int),
                );
            }
            write_header(&mut fs.disk, off, &file);
            write_bytes(&mut fs.disk, off + 512, &file.data, file.size);
            off = off + align_up(512 + file.size, 512);
        }
        i += 1;
    }
    let ghost written = fs.disk@;
    let mut k: usize = off;
    while k < DISK_MAX_SIZE
        invariant
            off <= k <= DISK_MAX_SIZE,
            fs.files == old(fs).files,
            written.len() == DISK_MAX_SIZE,
            forall|j: int|
                0 <= j < DISK_MAX_SIZE ==> fs.disk@[j] == if off <= j < k {
                    0u8
                } else {
                    written[j]
                },
        decreases DISK_MAX_SIZE - k,
    {
        fs.disk[k] = 0;
        k += 1;
    }
    assert(fs.disk@ =~= zero_from(written, off as int));
}

/// The five letters that open the `magic` field of a ustar header.
pub open spec fn ustar_bytes() -> Seq<u8> {
    seq![0x75u8, 0x73u8, 0x74u8, 0x61u8, 0x72u8]
}

/// Whether a header starts at `off`: `off` lies in the image, and the
/// first byte of the name there is not NUL.
pub open spec fn header_present(disk: Seq<u8>, off: int) -> bool {
    0 <= off < disk.len() && disk[off] != 0
}

/// The `name` field of the header at `off`.
pub open spec fn header_name(disk: Seq<u8>, off: int) -> Seq<u8> {
    disk.subrange(off, off + 100)
}

/// Whether the `magic` field of the header at `off` starts with `ustar`.
pub open spec fn header_magic_ok(disk: Seq<u8>, off: int) -> bool {
    disk.subrange(off + 257, off + 262) == ustar_bytes()
}

/// The file size that the header at `off` gives: its `size` field read as
/// an octal number.
pub open spec fn header_file_size(disk: Seq<u8>, off: int) -> nat {
    spec_oct2int(disk.subrange(off + 124, off + 136))
}

/// Number of bytes of the entry at `off` that the file table keeps: the
/// size that the header gives, cut to the data capacity of a file.
pub open spec fn kept_size(disk: Seq<u8>, off: int) -> nat {
    if header_file_size(disk, off) <= FILE_DATA_SIZE {
        header_file_size(disk, off)
    } else {
        FILE_DATA_SIZE as nat
    }
}

/// Offset in the image of the header of entry `i`: each entry starts where
/// the span of the one before it ends. The span is that of the whole
/// entry, also where the file table keeps less of it.
pub open spec fn archive_offset(disk: Seq<u8>, i: nat) -> int
    decreases i,
{
    if i == 0 {
        0
    } else {
        let off = archive_offset(disk, (i - 1) as nat);
        off + entry_span(header_file_size(disk, off) as int)
    }
}

/// Number of entries of the archive counted from entry `i` on: the index of
/// the first entry at or after `i` at which no header is present, be it
/// that the name there is empty or that the image ends before it; at most
/// the capacity of the file table.
pub open spec fn archive_len_from(disk: Seq<u8>, i: nat) -> nat
    decreases FILES_MAX - i,
{
    if i < FILES_MAX && header_present(disk, archive_offset(disk, i)) {
        archive_len_from(disk, i + 1)
    } else {
        i
    }
}

/// Number of entries that the file store reads from the archive.
pub open spec fn archive_len(disk: Seq<u8>) -> nat {
    archive_len_from(disk, 0)
}

/// The entry at `off` can be read: its header lies within the image, its
/// magic is right, and the bytes of it that the file table keeps lie
/// within the image.
pub open spec fn entry_ok(disk: Seq<u8>, off: int) -> bool {
    &&& 0 <= off
    &&& off + 512 <= disk.len()
    &&& header_magic_ok(disk, off)
    &&& off + 512 + kept_size(disk, off) <= disk.len()
}

/// Every entry of the archive can be read.
pub open spec fn archive_ok(disk: Seq<u8>) -> bool {
    forall|i: nat| i < archive_len(disk) ==> entry_ok(disk, #[trigger] archive_offset(disk, i))
}

/// `file` is what reading the entry at `off` makes of the table entry
/// `before`: in use, named as the header says, of the size that the header
/// gives or, where that is more, of the data capacity of a file, and its
/// data overwritten from the start with as many bytes of the entry.
pub open spec fn entry_read(file: File, before: File, disk: Seq<u8>, off: int) -> bool {
    let size = kept_size(disk, off) as int;
    &&& file.in_use
    &&& file.name@ == header_name(disk, off)
    &&& file.size == size
    &&& file.data@ == splice(before.data@, 0, disk.subrange(off + 512, off + 512 + size))
}

/// `after` is the file table that reading the archive in `disk` makes of
/// the table `before`: its first entries are those of the archive, in
/// archive order, and the others are untouched.
pub open spec fn table_read(after: Seq<File>, before: Seq<File>, disk: Seq<u8>) -> bool {
    &&& after.len() == before.len()
    &&& forall|i: int|
        0 <= i < after.len() && i < archive_len(disk) ==> entry_read(
            #[trigger] after[i],
            before[i],
            disk,
            archive_offset(disk, i as nat),
        )
    &&& forall|i: int|
        0 <= i < after.len() && i >= archive_len(disk) ==> #[trigger] after[i] == before[i]
}

/// Counting the archive's entries from any entry that is reached gives the
/// same number.
pub proof fn lemma_archive_len_from(disk: Seq<u8>, i: nat)
    requires
        i <= FILES_MAX,
        forall|j: nat| j < i ==> header_present(disk, #[trigger] archive_offset(disk, j)),
    ensures
        archive_len(disk) == archive_len_from(disk, i),
        i <= archive_len(disk) <= FILES_MAX,
    decreases i,
{
    lemma_archive_len_bounds(disk, i);
    if i > 0 {
        lemma_archive_len_from(disk, (i - 1) as nat);
    }
}

/// Counting from entry `i` gives a number between `i` and the capacity.
pub proof fn lemma_archive_len_bounds(disk: Seq<u8>, i: nat)
    requires
        i <= FILES_MAX,
    ensures
        i <= archive_len_from(disk, i) <= FILES_MAX,
    decreases FILES_MAX - i,
{
    if i < FILES_MAX && header_present(disk, archive_offset(disk, i)) {
        lemma_archive_len_bounds(disk, i + 1);
    }
}

/// Whether the `magic` field of the header at `off` starts with `ustar`.
fn magic_ok(disk: &[u8; 2560], off: usize) -> (b: bool)
    requires
        off + 512 <= DISK_MAX_SIZE,
    ensures
        b == header_magic_ok(disk@, off as int),
{
    let b = disk[off + 257] == 0x75 && disk[off + 258] == 0x73 && disk[off + 259] == 0x74
        && disk[off + 260] == 0x61 && disk[off + 261] == 0x72;
    proof {
        let m = disk@.subrange(off + 257, off + 262);
        assert(m[0] == disk@[off + 257]);
        assert(m[1] == disk@[off + 258]);
        assert(m[2] == disk@[off + 259]);
        assert(m[3] == disk@[off + 260]);
        assert(m[4] == disk@[off + 261]);
        if b {
            assert(m =~= ustar_bytes());
        }
    }
    b
}

/// Reads the `size` field of the header at `off`.
fn file_size(disk: &[u8; 2560], off: usize) -> (n: u64)
    requires
        off + 512 <= DISK_MAX_SIZE,
    ensures
        n == header_file_size(disk@, off as int),
{
    let mut field: [u8; 12] = [0u8; 12];
    let mut k: usize = 0;
    while k < 12
        invariant
            k <= 12,
            off + 512 <= DISK_MAX_SIZE,
            forall|j: int| 0 <= j < k ==> field@[j] == disk@[off + 124 + j],
        decreases 12 - k,
    {
        field[k] = disk[off + 124 + k];
        k += 1;
    }
    assert(field@ =~= disk@.subrange(off + 124, off + 136));
    oct2int(&field)
}

/// An offset as the walk over the archive holds it: the offset itself
/// while it lies in the image, and the size of the image from there on.
pub open spec fn walk_offset(off: int) -> int {
    if off < DISK_MAX_SIZE {
        off
    } else {
        DISK_MAX_SIZE as int
    }
}

/// Number of bytes of an entry of `size` bytes that the file table keeps.
fn kept(size: u64) -> (n: usize)
    ensures
        n == if size <= FILE_DATA_SIZE {
            size as int
        } else {
            FILE_DATA_SIZE as int
        },
{
    if size <= 1024 {
        size as usize
    } else {
        FILE_DATA_SIZE
    }
}

/// Where the walk over the archive goes on behind an entry of `size` bytes
/// at `off`: behind the span of the whole entry, or at the end of the
/// image where that lies behind it.
fn next_offset(off: usize, size: u64) -> (next: usize)
    requires
        off % 512 == 0,
        off + 512 <= DISK_MAX_SIZE,
    ensures
        next == walk_offset(off + entry_span(size as int)),
        next % 512 == 0,
        next <= DISK_MAX_SIZE,
{
    if size >= 2560 {
        DISK_MAX_SIZE
    } else {
        let next = off + align_up(512 + size as usize, 512);
        if next >= DISK_MAX_SIZE {
            DISK_MAX_SIZE
        } else {
            next
        }
    }
}

/// Whether the archive in the disk image can be read into the file table:
/// every header that is present has the ustar magic, and the bytes that
/// the file table keeps of its entry lie within the image. An entry may be
/// larger than a file of the table can be.
pub fn fs_check(fs: &FileSystem) -> (ok: bool)
    ensures
        ok == archive_ok(fs.disk@),
{
    let mut off: usize = 0;
    let mut i: usize = 0;
    while i < FILES_MAX
        invariant
            i <= FILES_MAX,
            off % 512 == 0,
            off <= DISK_MAX_SIZE,
            off == walk_offset(archive_offset(fs.disk@, i as nat)),
            forall|j: nat|
                j < i ==> header_present(fs.disk@, #[trigger] archive_offset(fs.disk@, j)),
            forall|j: nat| j < i ==> entry_ok(fs.disk@, #[trigger] archive_offset(fs.disk@, j)),
        decreases FILES_MAX - i,
    {
        proof {
            lemma_archive_len_from(fs.disk@, i as nat);
        }
        if off >= DISK_MAX_SIZE || fs.disk[off] == 0 {
            return true;
        }
        proof {
            lemma_archive_len_bounds(fs.disk@, (i + 1) as nat);
        }
        if !magic_ok(&fs.disk, off) {
            return false;
        }
        let size = file_size(&fs.disk, off);
        if off + 512 + kept(size) > DISK_MAX_SIZE {
            return false;
        }
        off = next_offset(off, size);
        i += 1;
    }
    proof {
        lemma_archive_len_from(fs.disk@, i as nat);
    }
    true
}

/// Reads the archive in the disk image into the file table.
///
/// The headers are walked from the start of the image, at most as many as
/// the table has entries; the walk ends at the first block whose name is
/// empty, and at the end of the image. Entry `i` of the archive becomes
/// entry `i` of the table. Of an entry that is larger than a file of the
/// table can be, the table keeps the first 1024 bytes, and the next
/// header is sought behind the whole entry. The image itself is left as it
/// is.
pub fn fs_init(fs: &mut FileSystem)
    requires
        archive_ok(old(fs).disk@),
    ensures
        final(fs).disk == old(fs).disk,
        table_read(final(fs).files@, old(fs).files@, old(fs).disk@),
{
    let mut off: usize = 0;
    let mut i: usize = 0;
    while i < FILES_MAX
        invariant
            i <= FILES_MAX,
            fs.disk == old(fs).disk,
            archive_ok(fs.disk@),
            off % 512 == 0,
            off <= DISK_MAX_SIZE,
            off == walk_offset(archive_offset(fs.disk@, i as nat)),
            forall|j: nat|
                j < i ==> header_present(fs.disk@, #[trigger] archive_offset(fs.disk@, j)),
            forall|j: int|
                0 <= j < i ==> entry_read(
                    #[trigger] fs.files@[j],
                    old(fs).files@[j],
                    fs.disk@,
                    archive_offset(fs.disk@, j as nat),
                ),
            forall|j: int| i <= j < FILES_MAX ==> #[trigger] fs.files@[j] == old(fs).files@[j],
            i == FILES_MAX ==> archive_len(fs.disk@) == i,
        ensures
            i <= FILES_MAX,
            fs.disk == old(fs).disk,
            archive_len(fs.disk@) == i,
            forall|j: int|
                0 <= j < i ==> entry_read(
                    #[trigger] fs.files@[j],
                    old(fs).files@[j],
                    fs.disk@,
                    archive_offset(fs.disk@, j as nat),
                ),
            forall|j: int| i <= j < FILES_MAX ==> #[trigger] fs.files@[j] == old(fs).files@[j],
        decreases FILES_MAX - i,
    {
        proof {
            lemma_archive_len_from(fs.disk@, i as nat);
        }
        if off >= DISK_MAX_SIZE || fs.disk[off] == 0 {
            break;
        }
        proof {
            lemma_archive_len_bounds(fs.disk@, (i + 1) as nat);
            assert(entry_ok(fs.disk@, archive_offset(fs.disk@, i as nat)));
        }
        let whole = file_size(&fs.disk, off);
        let size = kept(whole);
        let mut file = fs.files[i];
        file.in_use = true;
        let mut k: usize = 0;
        while k < FILE_NAME_SIZE
            invariant
                k <= FILE_NAME_SIZE,
                i < FILES_MAX,
                off + 512 <= DISK_MAX_SIZE,
                file.in_use,
                file.data == old(fs).files@[i as int].data,
                forall|j: int| 0 <= j < k ==> file.name@[j] == fs.disk@[off + j],
            decreases FILE_NAME_SIZE - k,
        {
            file.name[k] = fs.disk[off + k];
            k += 1;
        }
        let mut k: usize = 0;
        while k < size
            invariant
                k <= size <= FILE_DATA_SIZE,
                i < FILES_MAX,
                off + 512 + size <= DISK_MAX_SIZE,
                file.in_use,
                file.name@ =~= header_name(fs.disk@, off as int),
                forall|j: int| 0 <= j < k ==> file.data@[j] == fs.disk@[off + 512 + j],
                forall|j: int|
                    k <= j < FILE_DATA_SIZE ==> file.data@[j] == old(fs).files@[i as int].data@[j],
            decreases size - k,
        {
            file.data[k] = fs.disk[off + 512 + k];
            k += 1;
        }
        file.size = size;
        proof {
            assert(file.data@ =~= splice(
                old(fs).files@[i as int].data@,
                0,
                fs.disk@.subrange(off + 512, off + 512 + size),
            ));
        }
        fs.files[i] = file;
        off = next_offset(off, whole);
        i += 1;
        proof {
            if i == FILES_MAX {
                lemma_archive_len_from(fs.disk@, i as nat);
            }
        }
    }
}

/// Index of the first entry of `files`, at or after `i`, whose name is
/// `name`, if there is one.
pub open spec fn lookup_from(files: Seq<File>, name: Seq<u8>, i: int) -> Option<int>
    decreases files.len() - i,
{
    if i < 0 || i >= files.len() {
        None
    } else if files[i].name_str() == name {
        Some(i)
    } else {
        lookup_from(files, name, i + 1)
    }
}

/// Index of the first entry of `files` whose name is `name`.
pub open spec fn spec_lookup(files: Seq<File>, name: Seq<u8>) -> Option<int> {
    lookup_from(files, name, 0)
}

/// Whether the string in the name field `field` is `name`.
fn name_matches(field: &[u8; 100], name: &[u8]) -> (b: bool)
    ensures
        b == (spec_cstr(field@) == name@),
{
    let len = ascii_len(field.as_slice()) - 1;
    proof {
        lemma_strlen_from(field@, 0);
    }
    if len != name.len() {
        return false;
    }
    let mut k: usize = 0;
    while k < len
        invariant
            k <= len == name@.len(),
            len == spec_strlen(field@),
            len <= 100,
            forall|j: int| 0 <= j < k ==> field@[j] == name@[j],
        decreases len - k,
    {
        if field[k] != name[k] {
            assert(spec_cstr(field@)[k as int] != name@[k as int]);
            return false;
        }
        k += 1;
    }
    assert(spec_cstr(field@) =~= name@);
    true
}

/// Finds the file called `filename`: the index of the first table entry
/// whose name, read up to its NUL terminator, equals `filename`.
pub fn fs_lookup(fs: &FileSystem, filename: &[u8]) -> (r: Result<usize, ()>)
    ensures
        match r {
            Ok(i) => spec_lookup(fs.files@, filename@) == Some(i as int),
            Err(_) => spec_lookup(fs.files@, filename@).is_none(),
        },
{
    let mut i: usize = 0;
    while i < FILES_MAX
        invariant
            i <= FILES_MAX,
            spec_lookup(fs.files@, filename@) == lookup_from(fs.files@, filename@, i as int),
        decreases FILES_MAX - i,
    {
        if name_matches(&fs.files[i].name, filename) {
            return Ok(i);
        }
        i += 1;
    }
    Err(())
}

/// A number below `8^w`, written as `w` octal digits, is read back as itself.
pub proof fn lemma_octal_value_field(n: nat, w: nat)
    requires
        n < pow8(w),
    ensures
        octal_value(octal_field(n, w)) == n,
    decreases w,
{
    if w > 0 {
        let head = octal_field(n / 8, (w - 1) as nat);
        let field = octal_field(n, w);
        assert(field.drop_last() =~= head);
        lemma_octal_value_field(n / 8, (w - 1) as nat);
    }
}

/// Where every byte of `s` from `i` up to `w` is an octal digit and the
/// byte at `w`, if there is one, is none, the digits that start at `i` end
/// at `w`.
pub proof fn lemma_octal_end(s: Seq<u8>, i: int, w: int)
    requires
        0 <= i <= w <= s.len(),
        forall|j: int| i <= j < w ==> is_octal_digit(s[j]),
        w < s.len() ==> !is_octal_digit(s[w]),
    ensures
        octal_end_from(s, i) == w,
    decreases w - i,
{
    if i < w {
        lemma_octal_end(s, i + 1, w);
    }
}

/// An octal field followed by a NUL is parsed as the number written,
/// provided the number fits the field.
pub proof fn lemma_octal_roundtrip(n: nat, w: nat)
    requires
        n < pow8(w),
    ensures
        spec_oct2int(octal_field(n, w).push(0u8)) == n,
{
    let s = octal_field(n, w).push(0u8);
    lemma_octal_field_len(n, w);
    lemma_octal_end(s, 0, w as int);
    assert(s.take(w as int) =~= octal_field(n, w));
    lemma_octal_value_field(n, w);
}

/// The files in use among `files[i..]`, in table order.
pub open spec fn used_from(files: Seq<File>, i: int) -> Seq<File>
    decreases files.len() - i,
{
    if i < 0 || i >= files.len() {
        Seq::empty()
    } else if files[i].in_use {
        seq![files[i]] + used_from(files, i + 1)
    } else {
        used_from(files, i + 1)
    }
}

/// The files in use, in table order.
pub open spec fn used_files(files: Seq<File>) -> Seq<File> {
    used_from(files, 0)
}

/// `a` and `b` have the same length and agree below index `n`.
pub open spec fn same_below(a: Seq<u8>, b: Seq<u8>, n: int) -> bool {
    &&& a.len() == b.len()
    &&& forall|k: int| 0 <= k < n && k < a.len() ==> a[k] == b[k]
}

/// Flushing from `off` on leaves the image below `off` as it is.
pub proof fn lemma_flush_keeps_prefix(files: Seq<File>, disk: Seq<u8>, i: int, off: int)
    requires
        0 <= off,
        0 <= i,
    ensures
        same_below(flush_from(files, disk, i, off), disk, off),
    decreases files.len() - i,
{
    if i < files.len() {
        if files[i].in_use {
            let d = with_entry(disk, off, files[i]);
            let next = off + entry_span(files[i].size as int);
            lemma_flush_keeps_prefix(files, d, i + 1, next);
            assert(same_below(d, disk, off));
            assert(off <= next);
            assert(same_below(flush_from(files, d, i + 1, next), d, off));
        } else {
            lemma_flush_keeps_prefix(files, disk, i + 1, off);
        }
    } else {
        assert(same_below(zero_from(disk, off), disk, off));
    }
}

/// An image that agrees with `with_entry(disk, off, file)` up to the end of
/// that entry's span holds, at `off`, a readable entry with the name, size
/// and contents of `file`.
#[verifier::rlimit(50)]
pub proof fn lemma_entry_written(image: Seq<u8>, disk: Seq<u8>, off: int, file: File)
    requires
        0 <= off,
        file.wf(),
        off + entry_span(file.size as int) <= disk.len(),
        same_below(image, with_entry(disk, off, file), off + entry_span(file.size as int)),
    ensures
        header_present(image, off) == (file.name@[0] != 0),
        header_name(image, off) == file.name@,
        header_magic_ok(image, off),
        header_file_size(image, off) == file.size,
        image.subrange(off + 512, off + 512 + file.size) == file.contents(),
        entry_ok(image, off),
{
    let size = file.size as nat;
    let fields = with_header_fields(disk, off, file.name@, size);
    let sum = header_checksum(fields, off);
    let header = with_header(disk, off, file.name@, size);
    let entry = with_entry(disk, off, file);
    lemma_octal_field_len(size, 11);
    lemma_octal_field_len(sum, 6);
    assert(header_name(image, off) =~= file.name@);
    assert(image.subrange(off + 257, off + 262) =~= ustar_bytes());
    assert(image.subrange(off + 124, off + 136) =~= octal_field(size, 11).push(0u8));
    assert(pow8(11) == 8589934592) by {
        reveal_with_fuel(pow8, 12);
    }
    lemma_octal_roundtrip(size, 11);
    assert(image.subrange(off + 512, off + 512 + file.size) =~= file.contents());
}

/// The entry at `off` of `image` has the name, the size and the contents
/// of `file`, and the file table keeps all of it.
pub open spec fn entry_holds(image: Seq<u8>, off: int, file: File) -> bool {
    &&& header_name(image, off) == file.name@
    &&& header_file_size(image, off) == file.size
    &&& kept_size(image, off) == file.size
    &&& image.subrange(off + 512, off + 512 + file.size) == file.contents()
}

/// The image that a flush writes can be read back.
///
/// Let the table hold files within their capacity whose entries fit the
/// image, each file in use with a name that is not empty. Then the image
/// that a flush writes is an archive that can be read; it holds as many
/// entries as files are in use; and its entries have, in table order, the
/// names, the sizes and the contents of the files in use.
#[verifier::rlimit(50)]
pub proof fn lemma_flush_readable(files: Seq<File>, disk: Seq<u8>)
    requires
        files.len() == FILES_MAX,
        disk.len() == DISK_MAX_SIZE,
        flushable(files),
        forall|i: int|
            0 <= i < files.len() && files[i].in_use ==> (#[trigger] files[i]).name@[0] != 0,
    ensures
        archive_ok(spec_flush(files, disk)),
        archive_len(spec_flush(files, disk)) == used_files(files).len(),
        forall|k: int|
            0 <= k < used_files(files).len() ==> entry_holds(
                spec_flush(files, disk),
                archive_offset(spec_flush(files, disk), k as nat),
                #[trigger] used_files(files)[k],
            ),
{
    let image = spec_flush(files, disk);
    let f0 = files[0];
    let f1 = files[1];
    assert(f0.wf() && f1.wf());
    reveal_with_fuel(flush_from, 4);
    reveal_with_fuel(flush_end_from, 4);
    reveal_with_fuel(used_from, 4);
    reveal_with_fuel(archive_len_from, 4);
    reveal_with_fuel(archive_offset, 3);
    let span0 = entry_span(f0.size as int);
    let span1 = entry_span(f1.size as int);
    if f0.in_use {
        let d1 = with_entry(disk, 0, f0);
        lemma_flush_keeps_prefix(files, d1, 1, span0);
        if f1.in_use {
            let d2 = with_entry(d1, span0, f1);
            lemma_flush_keeps_prefix(files, d2, 2, span0 + span1);
            assert(same_below(image, d1, span0));
            lemma_entry_written(image, disk, 0, f0);
            lemma_entry_written(image, d1, span0, f1);
            assert(archive_offset(image, 1) == span0);
            assert(archive_len(image) == 2);
            assert(used_files(files) =~= seq![f0, f1]);
        } else {
            lemma_entry_written(image, disk, 0, f0);
            assert(archive_offset(image, 1) == span0);
            assert(image[span0] == 0);
            assert(archive_len(image) == 1);
            assert(used_files(files) =~= seq![f0]);
        }
    } else {
        if f1.in_use {
            let d1 = with_entry(disk, 0, f1);
            lemma_flush_keeps_prefix(files, d1, 2, span1);
            lemma_entry_written(image, disk, 0, f1);
            assert(archive_offset(image, 1) == span1);
            assert(image[span1] == 0);
            assert(archive_len(image) == 1);
            assert(used_files(files) =~= seq![f1]);
        } else {
            assert(image[0] == 0);
            assert(archive_len(image) == 0);
            assert(used_files(files) =~= Seq::<File>::empty());
        }
    }
    assert forall|i: nat| i < archive_len(image) implies entry_ok(
        image,
        #[trigger] archive_offset(image, i),
    ) by {
        assert(i == 0 || i == 1);
    }
    assert forall|k: int| 0 <= k < used_files(files).len() implies entry_holds(
        image,
        archive_offset(image, k as nat),
        #[trigger] used_files(files)[k],
    ) by {
        assert(k == 0 || k == 1);
    }
}

/// Flushing a file table and reading the image back restores its files.
///
/// Let the table hold files within their capacity whose entries fit the
/// image, each file in use with a name that is not empty. Then reading the
/// image that a flush writes into any table gives, entry by entry and in
/// table order, the name, the size and the contents of the files in use.
pub proof fn lemma_flush_then_init(
    files: Seq<File>,
    disk: Seq<u8>,
    before: Seq<File>,
    after: Seq<File>,
)
    requires
        files.len() == FILES_MAX,
        before.len() == FILES_MAX,
        disk.len() == DISK_MAX_SIZE,
        flushable(files),
        forall|i: int|
            0 <= i < files.len() && files[i].in_use ==> (#[trigger] files[i]).name@[0] != 0,
        table_read(after, before, spec_flush(files, disk)),
    ensures
        forall|k: int|
            0 <= k < used_files(files).len() ==> {
                &&& (#[trigger] after[k]).in_use
                &&& after[k].name@ == used_files(files)[k].name@
                &&& after[k].size == used_files(files)[k].size
                &&& after[k].contents() == used_files(files)[k].contents()
            },
        forall|k: int|
            used_files(files).len() <= k < FILES_MAX ==> #[trigger] after[k] == before[k],
{
    let image = spec_flush(files, disk);
    lemma_flush_readable(files, disk);
    lemma_archive_len_bounds(image, 0);
    assert forall|k: int| 0 <= k < used_files(files).len() implies {
        &&& (#[trigger] after[k]).in_use
        &&& after[k].name@ == used_files(files)[k].name@
        &&& after[k].size == used_files(files)[k].size
        &&& after[k].contents() == used_files(files)[k].contents()
    } by {
        let off = archive_offset(image, k as nat);
        assert(entry_holds(image, off, used_files(files)[k]));
        assert(entry_read(after[k], before[k], image, off));
        assert(after[k].contents() =~= image.subrange(off + 512, off + 512 + after[k].size));
    }
}

/// The span of an entry grows with the size of its data.
pub proof fn lemma_entry_span_monotonic(a: int, b: int)
    requires
        0 <= a <= b,
    ensures
        entry_span(a) <= entry_span(b),
{
}

/// A table whose files are no larger than those of another, slot by slot,
/// and in use in the same slots, ends no later in the image.
pub proof fn lemma_flush_end_shrinks(
    small: Seq<File>,
    large: Seq<File>,
    i: int,
    off_small: int,
    off_large: int,
)
    requires
        small.len() == large.len(),
        0 <= i,
        off_small <= off_large,
        forall|j: int|
            0 <= j < small.len() ==> {
                &&& (#[trigger] small[j]).in_use == large[j].in_use
                &&& small[j].size <= large[j].size
            },
    ensures
        flush_end_from(small, i, off_small) <= flush_end_from(large, i, off_large),
    decreases small.len() - i,
{
    if i < small.len() {
        assert(small[i].in_use == large[i].in_use && small[i].size <= large[i].size);
        if small[i].in_use {
            lemma_entry_span_monotonic(small[i].size as int, large[i].size as int);
            lemma_flush_end_shrinks(
                small,
                large,
                i + 1,
                off_small + entry_span(small[i].size as int),
                off_large + entry_span(large[i].size as int),
            );
        } else {
            lemma_flush_end_shrinks(small, large, i + 1, off_small, off_large);
        }
    }
}

/// A slot that the lookup finds is a slot of the table at or after `i`.
pub proof fn lemma_lookup_bounds(files: Seq<File>, name: Seq<u8>, i: int)
    requires
        0 <= i,
    ensures
        match lookup_from(files, name, i) {
            Some(k) => i <= k < files.len() && files[k].name_str() == name,
            None => forall|j: int| i <= j < files.len() ==> files[j].name_str() != name,
        },
    decreases files.len() - i,
{
    if i < files.len() && files[i].name_str() != name {
        lemma_lookup_bounds(files, name, i + 1);
    }
}

/// Whether the file table can be flushed: every file keeps within its data
/// capacity, and the entries of the files in use fit into the image.
pub fn can_flush(fs: &FileSystem) -> (b: bool)
    ensures
        b == flushable(fs.files@),
{
    let mut off: usize = 0;
    let mut i: usize = 0;
    while i < FILES_MAX
        invariant
            i <= FILES_MAX,
            off <= DISK_MAX_SIZE,
            forall|j: int| 0 <= j < i ==> (#[trigger] fs.files@[j]).wf(),
            flush_end_from(fs.files@, 0, 0) == flush_end_from(fs.files@, i as int, off as int),
        decreases FILES_MAX - i,
    {
        let file = &fs.files[i];
        if file.size > FILE_DATA_SIZE {
            assert(!fs.files@[i as int].wf());
            return false;
        }
        if file.in_use {
            let span = align_up(512 + file.size, 512);
            if span > DISK_MAX_SIZE - off {
                proof {
                    lemma_flush_end_monotonic(fs.files@, i + 1, off + span);
                }
                return false;
            }
            off = off + span;
        }
        i += 1;
    }
    true
}

/// A table that was read from an archive can be flushed: where the archive
/// can be read and the table held no file before, the files that were read
/// keep within their capacity and their entries fit into the image.
pub proof fn lemma_init_flushable(before: Seq<File>, after: Seq<File>, disk: Seq<u8>)
    requires
        before.len() == FILES_MAX,
        disk.len() == DISK_MAX_SIZE,
        archive_ok(disk),
        forall|i: int| 0 <= i < before.len() ==> !(#[trigger] before[i]).in_use && before[i].wf(),
        table_read(after, before, disk),
    ensures
        flushable(after),
{
    reveal_with_fuel(flush_end_from, 4);
    reveal_with_fuel(archive_len_from, 4);
    reveal_with_fuel(archive_offset, 3);
    lemma_archive_len_bounds(disk, 0);
    let n = archive_len(disk);
    assert forall|i: int| 0 <= i < after.len() implies (#[trigger] after[i]).wf() by {
        if i < n {
            assert(entry_ok(disk, archive_offset(disk, i as nat)));
            assert(entry_read(after[i], before[i], disk, archive_offset(disk, i as nat)));
        } else {
            assert(after[i] == before[i]);
        }
    }
    if n >= 1 {
        assert(entry_ok(disk, archive_offset(disk, 0)));
        assert(entry_read(after[0], before[0], disk, archive_offset(disk, 0)));
    } else {
        assert(after[0] == before[0]);
    }
    if n >= 2 {
        assert(entry_ok(disk, archive_offset(disk, 1)));
        assert(entry_read(after[1], before[1], disk, archive_offset(disk, 1)));
    } else {
        assert(after[1] == before[1]);
    }
}

} // verus!
