//! The calls into the firmware: the two console functions of the legacy
//! supervisor binary interface, with the firmware's console as a value.

use vstd::prelude::*;
use crate::common::Console;

verus! {

/// Extension id of `console_putchar`.
pub const SBI_CONSOLE_PUTCHAR: i32 = 1;

/// Extension id of `console_getchar`.
pub const SBI_CONSOLE_GETCHAR: i32 = 2;

/// What an SBI call returns in `a0` and `a1`.
#[derive(Clone, Copy, Debug, PartialEq, Eq, Structural)]
pub struct SbiRet {
    pub error: i32,
    pub value: i32,
}

/// The low byte of `x`.
pub open spec fn low_byte(x: i32) -> u8 {
    (x & 0xff) as u8
}

/// What the call with the arguments `arg0`, function id `fid` and
/// extension id `eid` makes of the console `pre`, and what it returns.
///
/// `console_putchar` appends the low byte of `arg0` to the output and
/// returns zero. `console_getchar` takes the oldest byte of the input and
/// returns it in `error`, which is the register `a0`; where there is no
/// input it returns -1.
pub open spec fn sbi_effect(pre: Console, post: Console, arg0: i32, eid: i32, ret: SbiRet) -> bool {
    if eid == SBI_CONSOLE_PUTCHAR {
        &&& post.out@ == pre.out@.push(low_byte(arg0))
        &&& post.input@ == pre.input@
        &&& ret == (SbiRet { error: 0, value: 0 })
    } else if pre.input@.len() > 0 {
        &&& post.out@ == pre.out@
        &&& post.input@ == pre.input@.skip(1)
        &&& ret == (SbiRet { error: pre.input@[0] as i32, value: 0 })
    } else {
        &&& post.out@ == pre.out@
        &&& post.input@ == pre.input@
        &&& ret == (SbiRet { error: -1i32, value: 0 })
    }
}

/// Calls the firmware: the arguments go in `a0` to `a5`, the function id
/// in `a6` and the extension id in `a7`.
pub fn sbi_call(
    console: &mut Console,
    arg0: i32,
    arg1: i32,
    arg2: i32,
    arg3: i32,
    arg4: i32,
    arg5: i32,
    fid: i32,
    eid: i32,
) -> (ret: SbiRet)
    requires
        fid == 0,
        eid == SBI_CONSOLE_PUTCHAR || eid == SBI_CONSOLE_GETCHAR,
    ensures
        sbi_effect(*old(console), *final(console), arg0, eid, ret),
{
    if eid == SBI_CONSOLE_PUTCHAR {
        assert(arg0 & 0xff < 256 && arg0 & 0xff >= 0) by (bit_vector);
        console.out.push((arg0 & 0xff) as u8);
        SbiRet { error: 0, value: 0 }
    } else if console.input.len() > 0 {
        let ch = console.input.remove(0);
        assert(console.input@ =~= old(console).input@.skip(1));
        SbiRet { error: ch as i32, value: 0 }
    } else {
        SbiRet { error: -1, value: 0 }
    }
}

/// Writes the byte `ch` to the console.
pub fn putchar(console: &mut Console, ch: u8)
    ensures
        final(console).out@ == old(console).out@.push(ch),
        final(console).input@ == old(console).input@,
{
    let x = ch as i32;
    assert(0 <= x < 256 ==> x & 0xff == x) by (bit_vector);
    sbi_call(console, ch as i32, 0, 0, 0, 0, 0, 0, SBI_CONSOLE_PUTCHAR);
}

/// The oldest byte of console input, or -1 where there is none.
pub open spec fn spec_getchar(input: Seq<u8>) -> i32 {
    if input.len() > 0 {
        input[0] as i32
    } else {
        -1i32
    }
}

/// Polls the console for input: returns the oldest byte that is ready, as
/// a value that is not negative, and takes it from the input; returns -1
/// where no input is ready.
pub fn getchar(console: &mut Console) -> (ch: i32)
    ensures
        ch == spec_getchar(old(console).input@),
        final(console).out@ == old(console).out@,
        final(console).input@ == if old(console).input@.len() > 0 {
            old(console).input@.skip(1)
        } else {
            old(console).input@
        },
{
    let ret = sbi_call(console, 0, 0, 0, 0, 0, 0, 0, SBI_CONSOLE_GETCHAR);
    ret.error
}

} // verus!
