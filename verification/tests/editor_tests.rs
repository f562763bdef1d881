use nexus_os::editor::{Editor, EditorOutcome};
use nexus_os::vfs::Ramfs;

fn lines(e: &Editor) -> Vec<&str> {
    e.lines().iter().map(|s| s.as_str()).collect()
}

#[test]
fn opens_existing_text_file() {
    let mut fs = Ramfs::new();
    fs.create_file("/f").unwrap();
    fs.write_file("/f", b"one\ntwo\r\nthree").unwrap();
    let e = Editor::new(&fs, "/f");
    assert_eq!(e.filename(), "/f");
    assert_eq!(lines(&e), vec!["one", "two", "three"]);
    assert!(!e.is_modified());
}

#[test]
fn opens_missing_or_binary_file_empty() {
    let mut fs = Ramfs::new();
    assert!(Editor::new(&fs, "/none").lines().is_empty());
    fs.create_file("/bin").unwrap();
    fs.write_file("/bin", &[0xff, 0x00, 0x41]).unwrap();
    assert!(Editor::new(&fs, "/bin").lines().is_empty());
}

#[test]
fn typing_adds_trimmed_lines() {
    let mut fs = Ramfs::new();
    let mut e = Editor::new(&fs, "doc");
    assert_eq!(e.process_input(&mut fs, "  hello  "), EditorOutcome::LineAdded);
    assert_eq!(e.process_input(&mut fs, "world"), EditorOutcome::LineAdded);
    assert_eq!(lines(&e), vec!["hello", "world"]);
    assert!(e.is_modified());
}

#[test]
fn quit_rules() {
    let mut fs = Ramfs::new();
    let mut e = Editor::new(&fs, "doc");
    assert_eq!(e.process_input(&mut fs, ":q"), EditorOutcome::Quit);
    e.process_input(&mut fs, "x");
    assert_eq!(e.process_input(&mut fs, " :q "), EditorOutcome::Quit);
    assert!(e.is_modified());
    assert_eq!(lines(&e), vec!["x"]);
    assert_eq!(fs.list_dir("/"), Ok((vec![], vec![])));
    assert_eq!(e.process_input(&mut fs, ":q!"), EditorOutcome::Quit);
    assert_eq!(fs.list_dir("/"), Ok((vec![], vec![])));
    assert!(EditorOutcome::Quit.exits());
}

#[test]
fn save_writes_lines_with_newlines() {
    let mut fs = Ramfs::new();
    let mut e = Editor::new(&fs, "/doc.txt");
    e.process_input(&mut fs, "alpha");
    e.process_input(&mut fs, "béta");
    assert_eq!(e.process_input(&mut fs, ":w"), EditorOutcome::SavedAndQuit { bytes: 12 });
    assert!(!e.is_modified());
    assert_eq!(fs.read_file("/doc.txt"), Ok("alpha\nbéta\n".as_bytes()));
    assert_eq!(e.process_input(&mut fs, ":q"), EditorOutcome::Quit);
}

#[test]
fn save_replaces_old_content() {
    let mut fs = Ramfs::new();
    fs.create_file("/f").unwrap();
    fs.write_file("/f", b"old\nlines\n").unwrap();
    let mut e = Editor::new(&fs, "/f");
    assert_eq!(e.process_input(&mut fs, ":d 1"), EditorOutcome::LineDeleted);
    assert_eq!(e.process_input(&mut fs, ":wq"), EditorOutcome::SavedAndQuit { bytes: 6 });
    assert!(EditorOutcome::SavedAndQuit { bytes: 6 }.exits());
    assert_eq!(fs.read_file("/f"), Ok(&b"lines\n"[..]));
}

#[test]
fn save_then_reopen_gives_same_lines() {
    let mut fs = Ramfs::new();
    let mut e = Editor::new(&fs, "notes");
    for l in ["first", "", "third line"] {
        e.process_input(&mut fs, l);
    }
    e.process_input(&mut fs, ":w");
    let again = Editor::new(&fs, "notes");
    assert_eq!(lines(&again), vec!["first", "", "third line"]);
}

#[test]
fn delete_line_rules() {
    let mut fs = Ramfs::new();
    let mut e = Editor::new(&fs, "doc");
    e.process_input(&mut fs, "a");
    e.process_input(&mut fs, "b");
    e.process_input(&mut fs, "c");
    assert_eq!(e.process_input(&mut fs, ":d 0"), EditorOutcome::InvalidLineNumber);
    assert_eq!(e.process_input(&mut fs, ":d 4"), EditorOutcome::InvalidLineNumber);
    assert_eq!(e.process_input(&mut fs, ":d x"), EditorOutcome::DeleteUsage);
    assert_eq!(e.process_input(&mut fs, ":d -1"), EditorOutcome::DeleteUsage);
    assert_eq!(e.process_input(&mut fs, ":d   +2  "), EditorOutcome::LineDeleted);
    assert_eq!(lines(&e), vec!["a", "c"]);
    assert_eq!(e.process_input(&mut fs, ":d 99999999999999999999999"), EditorOutcome::DeleteUsage);
}

#[test]
fn save_into_missing_directory_writes_nothing() {
    let mut fs = Ramfs::new();
    let mut e = Editor::new(&fs, "/nodir/f");
    e.process_input(&mut fs, "x");
    assert_eq!(e.process_input(&mut fs, ":w"), EditorOutcome::SavedAndQuit { bytes: 2 });
    assert_eq!(fs.list_dir("/"), Ok((vec![], vec![])));
}

#[test]
fn status_screen_numbers_lines() {
    let mut fs = Ramfs::new();
    let mut e = Editor::new(&fs, "doc");
    assert_eq!(
        e.status(),
        "--- EDIT: doc (0 lines) ---\n\n\n--- :w save | :q quit | :wq save+quit | :d N delete line ---\n> "
    );
    e.process_input(&mut fs, "one");
    for _ in 0..9 {
        e.process_input(&mut fs, "x");
    }
    e.process_input(&mut fs, "eleven");
    let s = e.status();
    assert!(s.starts_with("--- EDIT: doc (11 lines) ---\n\n   1 | one\n   2 | x\n"));
    assert!(s.contains("\n  10 | x\n  11 | eleven\n\n--- :w save"));
    assert!(s.ends_with("---\n> "));
}
