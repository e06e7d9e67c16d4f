//! Types, constants and small helpers shared by every part of the kernel.

use vstd::prelude::*;
use vstd::string::StringSliceAdditionalSpecFns;

verus! {

/// A physical address.
pub type PAddr = u32;

/// A virtual address.
pub type VAddr = u32;

/// Size of a page in bytes.
pub const PAGE_SIZE: usize = 4096;

/// System call number: emit one byte on the console.
pub const SYS_PUTCHAR: u32 = 1;

/// System call number: wait for one byte from the console.
pub const SYS_GETCHAR: u32 = 2;

/// System call number: terminate the calling process.
pub const SYS_EXIT: u32 = 3;

/// System call number: read a file into a user buffer.
pub const SYS_READFILE: u32 = 4;

/// System call number: overwrite a file from a user buffer.
pub const SYS_WRITEFILE: u32 = 5;

/// Physical address of the virtio block device's register window.
pub const VIRTIO_BLK_PADDR: usize = 0x10001000;

/// The smallest multiple of `align` that is not below `value`.
pub open spec fn spec_align_up(value: int, align: int) -> int {
    if value % align == 0 {
        value
    } else {
        value + (align - value % align)
    }
}

/// Rounds `value` up to the next multiple of `align`.
pub fn align_up(value: usize, align: usize) -> (r: usize)
    requires
        align > 0,
        spec_align_up(value as int, align as int) <= usize::MAX,
    ensures
        r == spec_align_up(value as int, align as int),
        r % align == 0,
        value <= r < value + align,
{
    let rem: usize = value % align;
    if rem == 0 {
        value
    } else {
        assert((value + (align - rem)) % (align as int) == 0) by (nonlinear_arith)
            requires
                rem == value % align,
                align > 0,
        ;
        value + (align - rem)
    }
}

/// Whether `value` is a multiple of `align`.
pub fn is_aligned(value: usize, align: usize) -> (b: bool)
    requires
        align > 0,
    ensures
        b == (value % align == 0),
{
    value % align == 0
}

/// Number of bytes of `s` from index `i` on that come before the first NUL
/// (or before the end of `s`, when it holds no NUL from `i` on).
pub open spec fn spec_strlen_from(s: Seq<u8>, i: int) -> nat
    decreases s.len() - i,
{
    if 0 <= i < s.len() && s[i] != 0 {
        1 + spec_strlen_from(s, i + 1)
    } else {
        0
    }
}

/// Length of the NUL-terminated string that starts `s`.
pub open spec fn spec_strlen(s: Seq<u8>) -> nat {
    spec_strlen_from(s, 0)
}

/// The NUL-terminated string that starts `s`, without its terminator.
pub open spec fn spec_cstr(s: Seq<u8>) -> Seq<u8> {
    s.take(spec_strlen(s) as int)
}

/// `spec_strlen` is the position of the first NUL, or the length of `s`.
pub proof fn lemma_strlen_from(s: Seq<u8>, i: int)
    requires
        0 <= i <= s.len(),
    ensures
        i + spec_strlen_from(s, i) <= s.len(),
        forall|j: int| i <= j < i + spec_strlen_from(s, i) ==> s[j] != 0,
        i + spec_strlen_from(s, i) < s.len() ==> s[i + spec_strlen_from(s, i)] == 0,
    decreases s.len() - i,
{
    if i < s.len() && s[i] != 0 {
        lemma_strlen_from(s, i + 1);
    }
}

/// Length of the NUL-terminated string at the start of `s`, terminator
/// included; where `s` holds no NUL the terminator is taken to follow it.
pub fn ascii_len(s: &[u8]) -> (r: usize)
    requires
        s@.len() < usize::MAX,
    ensures
        r == spec_strlen(s@) + 1,
{
    let mut i: usize = 0;
    while i < s.len() && s[i] != 0
        invariant
            i <= s@.len(),
            s@.len() < usize::MAX,
            spec_strlen(s@) == i + spec_strlen_from(s@, i as int),
        decreases s@.len() - i,
    {
        i += 1;
    }
    i + 1
}

/// Whether `b` is one of the ASCII digits `0` to `7`.
pub open spec fn is_octal_digit(b: u8) -> bool {
    0x30 <= b <= 0x37
}

/// The number that the octal digits `s` spell, most significant first.
pub open spec fn octal_value(s: Seq<u8>) -> nat
    decreases s.len(),
{
    if s.len() == 0 {
        0
    } else {
        (8 * octal_value(s.drop_last()) + (s.last() - 0x30)) as nat
    }
}

/// Index of the first byte of `s`, at or after `i`, that is no octal digit
/// (the length of `s` when every byte from `i` on is one).
pub open spec fn octal_end_from(s: Seq<u8>, i: int) -> int
    decreases s.len() - i,
{
    if 0 <= i < s.len() && is_octal_digit(s[i]) {
        octal_end_from(s, i + 1)
    } else {
        i
    }
}

/// The number spelled by the octal digits at the start of `s`; any other
/// byte (a NUL or a space in a tar header) ends the number.
pub open spec fn spec_oct2int(s: Seq<u8>) -> nat {
    octal_value(s.take(octal_end_from(s, 0)))
}

/// `8` to the power `n`.
pub open spec fn pow8(n: nat) -> nat
    decreases n,
{
    if n == 0 {
        1
    } else {
        8 * pow8((n - 1) as nat)
    }
}

/// A run of `n` octal digits spells a number below `8^n`.
pub proof fn lemma_octal_value_bound(s: Seq<u8>)
    requires
        forall|j: int| 0 <= j < s.len() ==> is_octal_digit(s[j]),
    ensures
        octal_value(s) < pow8(s.len()),
    decreases s.len(),
{
    if s.len() > 0 {
        lemma_octal_value_bound(s.drop_last());
    }
}

/// `8^21` is `2^63`.
pub proof fn lemma_pow8_21()
    ensures
        pow8(21) == 0x8000_0000_0000_0000,
{
    reveal_with_fuel(pow8, 22);
}

/// Powers of eight grow with the exponent.
pub proof fn lemma_pow8_monotonic(a: nat, b: nat)
    requires
        a <= b,
    ensures
        0 < pow8(a) <= pow8(b),
    decreases b,
{
    if b == 0 {
    } else if a < b {
        lemma_pow8_monotonic(a, (b - 1) as nat);
    } else {
        lemma_pow8_monotonic((a - 1) as nat, (b - 1) as nat);
    }
}

/// Parses the octal number at the start of `s`. The number ends at the first
/// byte that is not an octal digit, or at the end of `s`.
pub fn oct2int(s: &[u8]) -> (r: u64)
    requires
        s@.len() <= 21,
    ensures
        r == spec_oct2int(s@),
{
    let mut acc: u64 = 0;
    let mut i: usize = 0;
    while i < s.len() && 0x30 <= s[i] && s[i] <= 0x37
        invariant
            i <= s@.len() <= 21,
            acc == octal_value(s@.take(i as int)),
            forall|j: int| 0 <= j < i ==> is_octal_digit(s@[j]),
            octal_end_from(s@, 0) == octal_end_from(s@, i as int),
        decreases s@.len() - i,
    {
        proof {
            let t = s@.take(i as int);
            let u = s@.take(i + 1);
            assert(u.drop_last() =~= t);
            assert(u.last() == s@[i as int]);
            lemma_octal_value_bound(t);
            lemma_pow8_monotonic(i as nat, 20);
            lemma_pow8_21();
            reveal_with_fuel(pow8, 2);
        }
        acc = acc * 8 + (s[i] - 0x30) as u64;
        i += 1;
    }
    acc
}

/// The general-purpose registers of a hart as the trap entry saves them on
/// the kernel stack, in the order in which they are stored.
#[derive(Clone, Copy, Debug, PartialEq, Eq, Structural)]
pub struct TrapFrame {
    pub ra: u32,
    pub gp: u32,
    pub tp: u32,
    pub t0: u32,
    pub t1: u32,
    pub t2: u32,
    pub t3: u32,
    pub t4: u32,
    pub t5: u32,
    pub t6: u32,
    pub a0: u32,
    pub a1: u32,
    pub a2: u32,
    pub a3: u32,
    pub a4: u32,
    pub a5: u32,
    pub a6: u32,
    pub a7: u32,
    pub s0: u32,
    pub s1: u32,
    pub s2: u32,
    pub s3: u32,
    pub s4: u32,
    pub s5: u32,
    pub s6: u32,
    pub s7: u32,
    pub s8: u32,
    pub s9: u32,
    pub s10: u32,
    pub s11: u32,
    pub sp: u32,
}

/// The firmware's console as the kernel sees it.
///
/// `out` holds the bytes that the kernel has handed to the firmware for
/// output, oldest first. `input` holds the bytes that the firmware has
/// ready for the kernel, oldest first. Whoever owns the hart moves the one
/// on to the firmware and fills the other from it.
pub struct Console {
    pub out: Vec<u8>,
    pub input: Vec<u8>,
}

impl Console {
    /// A console on which nothing was written and nothing is to be read.
    pub fn new() -> (c: Console)
        ensures
            c.out@ == Seq::<u8>::empty(),
            c.input@ == Seq::<u8>::empty(),
    {
        Console { out: Vec::new(), input: Vec::new() }
    }

    /// Emits `bytes`, in order.
    pub fn write(&mut self, bytes: &[u8])
        ensures
            final(self).out@ == old(self).out@ + bytes@,
            final(self).input@ == old(self).input@,
    {
        let mut i: usize = 0;
        while i < bytes.len()
            invariant
                i <= bytes@.len(),
                self.out@ == old(self).out@ + bytes@.take(i as int),
                self.input@ == old(self).input@,
            decreases bytes@.len() - i,
        {
            self.out.push(bytes[i]);
            assert(bytes@.take(i + 1) =~= bytes@.take(i as int).push(bytes@[i as int]));
            i += 1;
        }
        assert(bytes@.take(i as int) =~= bytes@);
    }

    /// Emits the bytes of `s`, in order.
    pub fn write_str(&mut self, s: &str)
        ensures
            final(self).out@ == old(self).out@ + s.spec_bytes(),
            final(self).input@ == old(self).input@,
    {
        self.write(s.as_bytes());
    }
}

} // verus!
