//! System calls: which call a request names, what it answers, and the value
//! that programs the segment selectors for `syscall`/`sysret`.
use vstd::prelude::*;
use vstd::utf8::*;
use crate::text::text_of_utf8;

verus! {

/// The number of the call that writes text.
pub const SYS_WRITE: u64 = 1;

/// The number of the call that ends the calling process.
pub const SYS_EXIT: u64 = 60;

/// The answer to a failed or unknown call: -1 as an unsigned word.
pub const SYSCALL_ERROR: u64 = 0xffff_ffff_ffff_ffff;

/// A system call request, by what its number names.
#[derive(Debug, Clone, Copy, PartialEq, Eq)]
pub enum Syscall {
    /// Write the `len` bytes at user address `buf`.
    Write { buf: u64, len: u64 },
    /// End the process with `code`.
    Exit { code: u64 },
    /// Any other number.
    Unknown { number: u64 },
}

/// Which call the registers name: the number, then its arguments.
pub fn decode_syscall(arg0: u64, arg1: u64, arg2: u64, arg3: u64) -> (c: Syscall)
    ensures
        c == (if arg0 == SYS_WRITE {
            Syscall::Write { buf: arg2, len: arg3 }
        } else if arg0 == SYS_EXIT {
            Syscall::Exit { code: arg1 }
        } else {
            Syscall::Unknown { number: arg0 }
        }),
{
    if arg0 == SYS_WRITE {
        Syscall::Write { buf: arg2, len: arg3 }
    } else if arg0 == SYS_EXIT {
        Syscall::Exit { code: arg1 }
    } else {
        Syscall::Unknown { number: arg0 }
    }
}

/// The text to show for a write of `bytes`, and the call's answer: the length
/// written when the bytes are UTF-8, and the error otherwise.
pub fn finish_write(bytes: &[u8]) -> (r: (Option<&str>, u64))
    requires
        bytes@.len() <= u64::MAX,
    ensures
        valid_utf8(bytes@) ==> (r.0 matches Some(t) && t@ == decode_utf8(bytes@) && r.1 == bytes@.len()),
        !valid_utf8(bytes@) ==> r.0 is None && r.1 == SYSCALL_ERROR,
{
    match text_of_utf8(bytes) {
        Some(t) => (Some(t), bytes.len() as u64),
        None => (None, SYSCALL_ERROR),
    }
}

/// The answer to a call that is not a write.
pub fn other_call_result(c: &Syscall) -> (r: u64)
    ensures
        match c {
            Syscall::Exit { .. } => r == 0,
            _ => r == SYSCALL_ERROR,
        },
{
    match c {
        Syscall::Exit { .. } => 0,
        _ => SYSCALL_ERROR,
    }
}

/// The STAR register's value for the kernel code selector `cs`: the kernel
/// selectors from bit 32, and the user selectors, 16 above, from bit 48.
pub open spec fn star_value_spec(cs: u16) -> u64 {
    ((cs as u64) << 32u64) | (((cs as u64) + 16) as u64) << 48u64
}

pub fn star_value(cs: u16) -> (v: u64)
    ensures
        v == star_value_spec(cs),
{
    ((cs as u64) << 32u64) | (((cs as u64) + 16) << 48u64)
}

} // verus!
