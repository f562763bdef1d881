use nexus_os::shell::{execute_command, system_info_text, ShellOutput, HELP_TEXT};
use nexus_os::vfs::Ramfs;

fn text(s: &str) -> ShellOutput {
    ShellOutput::Text(s.to_string())
}

fn run(fs: &mut Ramfs, line: &str) -> ShellOutput {
    execute_command(fs, line)
}

#[test]
fn blank_lines_do_nothing() {
    let mut fs = Ramfs::new();
    assert_eq!(run(&mut fs, ""), ShellOutput::Nothing);
    assert_eq!(run(&mut fs, "   \t "), ShellOutput::Nothing);
}

#[test]
fn echo_joins_words_with_single_spaces() {
    let mut fs = Ramfs::new();
    assert_eq!(run(&mut fs, "  echo   hello    world "), text("hello world\n"));
    assert_eq!(run(&mut fs, "echo"), text("\n"));
}

#[test]
fn simple_commands() {
    let mut fs = Ramfs::new();
    assert_eq!(run(&mut fs, "clear"), ShellOutput::ClearScreen);
    assert_eq!(run(&mut fs, "pwd"), text("/\n"));
    assert_eq!(run(&mut fs, "uname"), text("NexusOS 0.2.0 x86_64\n"));
    assert_eq!(run(&mut fs, "help"), text(HELP_TEXT));
    assert_eq!(run(&mut fs, "sysinfo"), ShellOutput::SystemInfo);
    assert_eq!(run(&mut fs, "frobnicate x"), text("Unknown command: frobnicate\nType 'help' for available commands.\n"));
}

#[test]
fn help_lists_commands() {
    assert!(HELP_TEXT.starts_with("=== NexusOS Shell Commands ===\n\n  Filesystem:\n"));
    assert!(HELP_TEXT.contains("    write <file> <text>   - Append text to file\n"));
    assert!(HELP_TEXT.ends_with("    help                  - This help message\n"));
}

#[test]
fn directory_commands() {
    let mut fs = Ramfs::new();
    assert_eq!(run(&mut fs, "ls"), text("(empty)\n"));
    assert_eq!(run(&mut fs, "mkdir"), text("Usage: mkdir <dirname>\n"));
    assert_eq!(run(&mut fs, "mkdir docs"), text("Created directory: docs\n"));
    assert_eq!(run(&mut fs, "mkdir docs"), text("mkdir: Directory already exists\n"));
    assert_eq!(run(&mut fs, "touch readme"), text("Created file: readme\n"));
    assert_eq!(run(&mut fs, "ls"), text("docs/ readme \n"));
    assert_eq!(run(&mut fs, "ls /docs"), text("(empty)\n"));
    assert_eq!(run(&mut fs, "ls /nope"), text("ls: Directory not found\n"));
    assert_eq!(run(&mut fs, "cd"), text("Usage: cd <path>\n"));
    assert_eq!(run(&mut fs, "cd nope"), text("cd: Directory not found\n"));
    assert_eq!(run(&mut fs, "cd docs"), ShellOutput::Nothing);
    assert_eq!(run(&mut fs, "pwd"), text("/docs\n"));
    assert_eq!(run(&mut fs, "cd .."), ShellOutput::Nothing);
    assert_eq!(run(&mut fs, "rmdir"), text("Usage: rmdir <dirname>\n"));
    assert_eq!(run(&mut fs, "rmdir docs"), text("Removed directory: docs\n"));
    assert_eq!(run(&mut fs, "rmdir docs"), text("rmdir: Directory not found\n"));
}

#[test]
fn file_commands() {
    let mut fs = Ramfs::new();
    assert_eq!(run(&mut fs, "touch"), text("Usage: touch <filename>\n"));
    assert_eq!(run(&mut fs, "touch /x/y"), text("touch: Parent directory not found\n"));
    assert_eq!(run(&mut fs, "write log"), text("Usage: write <filename> <text>\n"));
    assert_eq!(run(&mut fs, "write"), text("Usage: write <filename> <text>\n"));
    assert_eq!(run(&mut fs, "write log hi there"), text("write: File not found\n"));
    run(&mut fs, "touch log");
    assert_eq!(run(&mut fs, "write log hi   there"), text("Written to log\n"));
    assert_eq!(run(&mut fs, "write log again"), text("Written to log\n"));
    assert_eq!(run(&mut fs, "cat log"), text("hi there\nagain\n"));
    assert_eq!(run(&mut fs, "stat log"), text("File: log\nSize: 15 bytes\n"));
    assert_eq!(run(&mut fs, "stat none"), text("stat: File not found\n"));
    assert_eq!(run(&mut fs, "stat"), text("Usage: stat <filename>\n"));
    assert_eq!(run(&mut fs, "cat"), text("Usage: cat <filename>\n"));
    assert_eq!(run(&mut fs, "cat none"), text("cat: File not found\n"));
    assert_eq!(run(&mut fs, "rm"), text("Usage: rm <filename>\n"));
    assert_eq!(run(&mut fs, "rm log"), text("Deleted: log\n"));
    assert_eq!(run(&mut fs, "rm log"), text("rm: File not found\n"));
}

#[test]
fn cat_of_binary_data() {
    let mut fs = Ramfs::new();
    fs.create_file("/b").unwrap();
    fs.write_file("/b", &[0xc3, 0x28, 0x00]).unwrap();
    assert_eq!(run(&mut fs, "cat /b"), text("<binary data, 3 bytes>\n"));
    fs.create_file("/e").unwrap();
    assert_eq!(run(&mut fs, "cat /e"), text(""));
}

#[test]
fn system_information_sheet() {
    assert_eq!(
        system_info_text(100 * 1024),
        "=== NexusOS System Information ===\nKernel:       NexusOS v0.2.0\nArchitecture: x86_64 (64-bit)\nLanguage:     Rust (no_std)\nHeap Size:    100 KiB\nAllocator:    Bitmap Frame Allocator (O(1))\nVGA Mode:     80x25 text\nInterrupts:   PIC 8259 (Timer + Keyboard)\nScheduler:    Cooperative Async/Await\nFilesystem:   Ramfs (hierarchical, in-memory)\nEditor:       Built-in line editor\n"
    );
}
