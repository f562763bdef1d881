use nexus_os::syscall::{decode_syscall, finish_write, other_call_result, star_value, Syscall, SYSCALL_ERROR};

#[test]
fn decoding() {
    assert_eq!(decode_syscall(1, 9, 0x1000, 5), Syscall::Write { buf: 0x1000, len: 5 });
    assert_eq!(decode_syscall(60, 3, 0, 0), Syscall::Exit { code: 3 });
    assert_eq!(decode_syscall(7, 1, 2, 3), Syscall::Unknown { number: 7 });
}

#[test]
fn write_answers() {
    assert_eq!(finish_write(b"hi"), (Some("hi"), 2));
    assert_eq!(finish_write("héllo".as_bytes()), (Some("héllo"), 6));
    assert_eq!(finish_write(&[0xff, 0xfe]), (None, SYSCALL_ERROR));
    assert_eq!(SYSCALL_ERROR, (0u64).wrapping_sub(1));
}

#[test]
fn other_answers() {
    assert_eq!(other_call_result(&Syscall::Exit { code: 4 }), 0);
    assert_eq!(other_call_result(&Syscall::Unknown { number: 99 }), u64::MAX);
}

#[test]
fn star_register() {
    assert_eq!(star_value(8), (8u64 << 32) | (24u64 << 48));
    assert_eq!(star_value(0x28), 0x0038_0028_0000_0000);
}
