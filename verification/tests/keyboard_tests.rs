use nexus_os::console::{Console, ConsoleAction};
use nexus_os::keyboard::KeyDecoder;
use nexus_os::vfs::Ramfs;

#[test]
fn letters_decode_on_press_only() {
    let mut dec = KeyDecoder::new();
    assert_eq!(dec.decode(0x1E), Some('a'));
    assert_eq!(dec.decode(0x9E), None);
    assert_eq!(dec.decode(0x0E), Some('\x08'));
    assert_eq!(dec.decode(0x1C), Some('\n'));
}

#[test]
fn shift_gives_capitals() {
    let mut dec = KeyDecoder::new();
    assert_eq!(dec.decode(0x2A), None);
    assert_eq!(dec.decode(0x1E), Some('A'));
    assert_eq!(dec.decode(0xAA), None);
    assert_eq!(dec.decode(0x1E), Some('a'));
}

#[test]
fn scancodes_drive_the_console() {
    let mut dec = KeyDecoder::new();
    let mut fs = Ramfs::new();
    let mut c = Console::new();
    assert_eq!(c.handle_scancode(&mut dec, &mut fs, 0x1E), vec![ConsoleAction::Echo('a')]);
    assert_eq!(c.handle_scancode(&mut dec, &mut fs, 0x9E), vec![]);
    assert_eq!(c.handle_scancode(&mut dec, &mut fs, 0x0E), vec![ConsoleAction::Backspace]);
    let acts = c.handle_scancode(&mut dec, &mut fs, 0x1C);
    assert_eq!(acts[0], ConsoleAction::NewLine);
    assert_eq!(acts.last(), Some(&ConsoleAction::Prompt("nexus:/ $ ".to_string())));
}
