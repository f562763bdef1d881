use nexus_os::console::{prompt_text, Console, ConsoleAction};
use nexus_os::editor::EditorOutcome;
use nexus_os::shell::ShellOutput;
use nexus_os::vfs::{Ramfs, FILE_NOT_FOUND};

fn type_text(c: &mut Console, fs: &mut Ramfs, s: &str) -> Vec<ConsoleAction> {
    let mut all = Vec::new();
    for ch in s.chars() {
        all.extend(c.handle_char(fs, ch));
    }
    all
}

#[test]
fn characters_are_echoed_and_lines_run() {
    let mut fs = Ramfs::new();
    let mut c = Console::new();
    assert_eq!(type_text(&mut c, &mut fs, "pw"), vec![ConsoleAction::Echo('p'), ConsoleAction::Echo('w')]);
    assert_eq!(
        type_text(&mut c, &mut fs, "d\n"),
        vec![
            ConsoleAction::Echo('d'),
            ConsoleAction::NewLine,
            ConsoleAction::Shell(ShellOutput::Text("/\n".to_string())),
            ConsoleAction::Prompt("nexus:/ $ ".to_string()),
        ]
    );
}

#[test]
fn backspace_erases() {
    let mut fs = Ramfs::new();
    let mut c = Console::new();
    assert_eq!(c.handle_char(&mut fs, '\x08'), vec![]);
    type_text(&mut c, &mut fs, "mkdir x");
    assert_eq!(c.handle_char(&mut fs, '\x08'), vec![ConsoleAction::Backspace]);
    type_text(&mut c, &mut fs, "y\n");
    assert_eq!(fs.list_dir("/").unwrap().0, vec!["y".to_string()]);
}

#[test]
fn prompt_follows_working_directory() {
    let mut fs = Ramfs::new();
    fs.mkdir("home").unwrap();
    let mut c = Console::new();
    let acts = type_text(&mut c, &mut fs, "cd home\n");
    assert_eq!(acts.last(), Some(&ConsoleAction::Prompt("nexus:/home $ ".to_string())));
    assert_eq!(prompt_text(&fs), "nexus:/home $ ");
}

#[test]
fn editing_session() {
    let mut fs = Ramfs::new();
    let mut c = Console::new();
    let acts = type_text(&mut c, &mut fs, "  edit notes \n");
    assert_eq!(acts.last(), Some(&ConsoleAction::OpenEditor));
    assert_eq!(c.editor().unwrap().filename(), "notes");
    let acts = type_text(&mut c, &mut fs, "hello\n");
    assert_eq!(acts.last(), Some(&ConsoleAction::Editor(EditorOutcome::LineAdded)));
    let acts = type_text(&mut c, &mut fs, ":q\n");
    let n = acts.len();
    assert_eq!(acts[n - 3], ConsoleAction::Editor(EditorOutcome::Quit));
    assert_eq!(acts[n - 2], ConsoleAction::CloseEditor);
    assert!(c.editor().is_none());
    assert_eq!(fs.read_file("/notes"), Err(FILE_NOT_FOUND));
    type_text(&mut c, &mut fs, "edit notes\nhello\n");
    let acts = type_text(&mut c, &mut fs, ":w\n");
    let n = acts.len();
    assert_eq!(acts[n - 3], ConsoleAction::Editor(EditorOutcome::SavedAndQuit { bytes: 6 }));
    assert_eq!(acts[n - 2], ConsoleAction::CloseEditor);
    assert_eq!(acts[n - 1], ConsoleAction::Prompt("nexus:/ $ ".to_string()));
    assert!(c.editor().is_none());
    assert_eq!(fs.read_file("/notes"), Ok(&b"hello\n"[..]));
}

#[test]
fn edit_without_space_goes_to_the_shell() {
    let mut fs = Ramfs::new();
    let mut c = Console::new();
    let acts = type_text(&mut c, &mut fs, "edit\n");
    assert_eq!(
        acts[acts.len() - 2],
        ConsoleAction::Shell(ShellOutput::Text("Unknown command: edit\nType 'help' for available commands.\n".to_string()))
    );
}
