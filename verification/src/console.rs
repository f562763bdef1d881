//! The keyboard console: characters typed, gathered into lines, and each line
//! handed to the open editor or to the shell.
use vstd::prelude::*;
use vstd::string::*;
use crate::keyboard::KeyDecoder;
use crate::editor::{editor_step, loaded_lines, Editor, EditorOutcome, EditorView};
use crate::shell::{execute_command, shell_spec, Reply, ShellOutput};
use crate::text::{chars_of, has_prefix, is_space, lemma_trim_unchanged, lines, push_char, starts_with, string_of, trim, trimmed};
use crate::vfs::file_at;
use vstd::utf8::*;
use crate::vfs::{Ramfs, RamfsView};

verus! {

/// What the console shows, in order, for a character typed.
#[derive(Debug, PartialEq, Eq)]
pub enum ConsoleAction {
    /// The character itself.
    Echo(char),
    /// A backspace, erasing the last character shown.
    Backspace,
    /// An end of line.
    NewLine,
    /// The shell's answer to the line.
    Shell(ShellOutput),
    /// What the editor did with the line.
    Editor(EditorOutcome),
    /// The editor opened: keys go to it from now on, and its status is shown.
    OpenEditor,
    /// The editor closed: keys go to the shell again, after a blank line.
    CloseEditor,
    /// `edit` without a file name.
    EditUsage,
    /// The shell's prompt.
    Prompt(String),
}

/// The model of an action.
pub enum Act {
    Echo(char),
    Backspace,
    NewLine,
    Shell(Reply),
    Editor(EditorOutcome),
    OpenEditor,
    CloseEditor,
    EditUsage,
    Prompt(Seq<char>),
}

impl View for ConsoleAction {
    type V = Act;

    open spec fn view(&self) -> Act {
        match self {
            ConsoleAction::Echo(c) => Act::Echo(*c),
            ConsoleAction::Backspace => Act::Backspace,
            ConsoleAction::NewLine => Act::NewLine,
            ConsoleAction::Shell(o) => Act::Shell(o@),
            ConsoleAction::Editor(e) => Act::Editor(*e),
            ConsoleAction::OpenEditor => Act::OpenEditor,
            ConsoleAction::CloseEditor => Act::CloseEditor,
            ConsoleAction::EditUsage => Act::EditUsage,
            ConsoleAction::Prompt(s) => Act::Prompt(s@),
        }
    }
}

/// The models of a sequence of actions.
pub open spec fn acts(v: Seq<ConsoleAction>) -> Seq<Act> {
    v.map_values(|a: ConsoleAction| a@)
}

/// What the console holds: the line typed so far, and the editor if one is open.
pub struct ConsoleView {
    pub buffer: Seq<char>,
    pub editor: Option<EditorView>,
}

/// The prompt for the working directory `cwd`.
pub open spec fn prompt(cwd: Seq<char>) -> Seq<char> {
    "nexus:"@ + cwd + " $ "@
}

/// What ending the line `line` does.
pub open spec fn enter_spec(editor: Option<EditorView>, fs: RamfsView, line: Seq<char>) -> (
    Option<EditorView>,
    RamfsView,
    Seq<Act>,
) {
    match editor {
        Some(ed) => {
            let (ed2, fs2, out) = editor_step(ed, fs, line);
            if out.spec_exits() {
                (None, fs2, seq![Act::Editor(out), Act::CloseEditor, Act::Prompt(prompt(fs2.cwd))])
            } else {
                (Some(ed2), fs2, seq![Act::Editor(out)])
            }
        },
        None => {
            let t = trim(line);
            if starts_with(t, "edit "@) {
                let name = t.skip(5);
                if name.len() > 0 {
                    (
                        Some(EditorView { filename: name, lines: loaded_lines(fs, name), modified: false }),
                        fs,
                        seq![Act::OpenEditor],
                    )
                } else {
                    (None, fs, seq![Act::EditUsage, Act::Prompt(prompt(fs.cwd))])
                }
            } else {
                let (fs2, r) = shell_spec(fs, line);
                (None, fs2, seq![Act::Shell(r), Act::Prompt(prompt(fs2.cwd))])
            }
        },
    }
}

/// What typing `c` does: a newline ends the line, a backspace erases the last
/// character, and any other character is added to the line.
pub open spec fn console_step(st: ConsoleView, fs: RamfsView, c: char) -> (ConsoleView, RamfsView, Seq<Act>) {
    if c == '\n' {
        let (ed, fs2, a) = enter_spec(st.editor, fs, st.buffer);
        (ConsoleView { buffer: seq![], editor: ed }, fs2, seq![Act::NewLine] + a)
    } else if c == '\x08' {
        if st.buffer.len() > 0 {
            (ConsoleView { buffer: st.buffer.drop_last(), editor: st.editor }, fs, seq![Act::Backspace])
        } else {
            (st, fs, seq![])
        }
    } else {
        (ConsoleView { buffer: st.buffer.push(c), editor: st.editor }, fs, seq![Act::Echo(c)])
    }
}

/// What a key does: a character is handled as typed; a key without one
/// changes nothing and shows nothing.
pub open spec fn key_step(st: ConsoleView, fs: RamfsView, c: Option<char>) -> (ConsoleView, RamfsView, Seq<Act>) {
    match c {
        Some(ch) => console_step(st, fs, ch),
        None => (st, fs, seq![]),
    }
}

/// The keyboard console.
pub struct Console {
    command_buffer: Vec<char>,
    editor: Option<Editor>,
}

impl View for Console {
    type V = ConsoleView;

    closed spec fn view(&self) -> ConsoleView {
        ConsoleView {
            buffer: self.command_buffer@,
            editor: match self.editor {
                Some(e) => Some(e@),
                None => None,
            },
        }
    }
}

/// The prompt for the filesystem's working directory.
pub fn prompt_text(fs: &Ramfs) -> (s: String)
    ensures
        s@ == prompt(fs@.cwd),
{
    let mut s = "nexus:".to_owned();
    s.append(fs.pwd());
    s.append(" $ ");
    s
}

impl Console {
    pub fn new() -> (c: Self)
        ensures
            c@ == (ConsoleView { buffer: seq![], editor: None }),
    {
        Console { command_buffer: Vec::new(), editor: None }
    }

    /// The open editor.
    pub fn editor(&self) -> (r: Option<&Editor>)
        ensures
            match r {
                Some(e) => self@.editor == Some(e@),
                None => self@.editor is None,
            },
    {
        match &self.editor {
            Some(e) => Some(e),
            None => None,
        }
    }

    /// Ends the current line.
    fn enter(&mut self, fs: &mut Ramfs) -> (r: Vec<ConsoleAction>)
        requires
            old(fs).wf(),
        ensures
            final(fs).wf(),
            ({
                let (ed, fs2, a) = enter_spec(old(self)@.editor, old(fs)@, old(self)@.buffer);
                &&& final(self)@.editor == ed
                &&& final(self)@.buffer == old(self)@.buffer
                &&& final(fs)@ == fs2
                &&& acts(r@) == a
            }),
    {
        let line = string_of(&self.command_buffer);
        let mut out: Vec<ConsoleAction> = Vec::new();
        match &mut self.editor {
            Some(ed) => {
                let outcome = ed.process_input(fs, line.as_str());
                let exits = outcome.exits();
                out.push(ConsoleAction::Editor(outcome));
                if exits {
                    self.editor = None;
                    out.push(ConsoleAction::CloseEditor);
                    out.push(ConsoleAction::Prompt(prompt_text(fs)));
                }
                assert(acts(out@) =~= enter_spec(old(self)@.editor, old(fs)@, old(self)@.buffer).2);
                return out;
            },
            None => {},
        }
        let t = trimmed(&self.command_buffer);
        let edit = chars_of("edit ");
        proof {
            reveal_strlit("edit ");
        }
        if has_prefix(&t, &edit) {
            let mut name: Vec<char> = Vec::new();
            let mut i: usize = 5;
            while i < t.len()
                invariant
                    5 <= i <= t@.len(),
                    name@ == t@.subrange(5, i as int),
                decreases t@.len() - i,
            {
                name.push(t[i]);
                i += 1;
            }
            assert(name@ =~= t@.skip(5));
            if name.len() > 0 {
                let filename = string_of(&name);
                let ed = Editor::new(fs, filename.as_str());
                self.editor = Some(ed);
                out.push(ConsoleAction::OpenEditor);
            } else {
                out.push(ConsoleAction::EditUsage);
                out.push(ConsoleAction::Prompt(prompt_text(fs)));
            }
        } else {
            let reply = execute_command(fs, line.as_str());
            out.push(ConsoleAction::Shell(reply));
            out.push(ConsoleAction::Prompt(prompt_text(fs)));
        }
        assert(acts(out@) =~= enter_spec(old(self)@.editor, old(fs)@, old(self)@.buffer).2);
        out
    }

    /// Handles one scancode from the keyboard: when it completes a key that
    /// stands for a character, that character is handled as typed; otherwise
    /// nothing changes and nothing is shown.
    pub fn handle_scancode(&mut self, dec: &mut KeyDecoder, fs: &mut Ramfs, scancode: u8) -> (r: Vec<ConsoleAction>)
        requires
            old(fs).wf(),
        ensures
            final(fs).wf(),
            exists|c: Option<char>| #[trigger] key_step(old(self)@, old(fs)@, c) == (final(self)@, final(fs)@, acts(r@)),
    {
        match dec.decode(scancode) {
            Some(ch) => {
                let r = self.handle_char(fs, ch);
                assert(key_step(old(self)@, old(fs)@, Some(ch)) == (self@, fs@, acts(r@)));
                r
            },
            None => {
                let r: Vec<ConsoleAction> = Vec::new();
                assert(acts(r@) =~= Seq::<Act>::empty());
                assert(key_step(old(self)@, old(fs)@, None) == (self@, fs@, acts(r@)));
                r
            },
        }
    }

    /// Handles one character typed.
    pub fn handle_char(&mut self, fs: &mut Ramfs, c: char) -> (r: Vec<ConsoleAction>)
        requires
            old(fs).wf(),
        ensures
            final(fs).wf(),
            (final(self)@, final(fs)@, acts(r@)) == console_step(old(self)@, old(fs)@, c),
    {
        if c == '\n' {
            let mut out: Vec<ConsoleAction> = Vec::new();
            out.push(ConsoleAction::NewLine);
            let mut rest = self.enter(fs);
            out.append(&mut rest);
            self.command_buffer.clear();
            assert(acts(out@) =~= seq![Act::NewLine] + enter_spec(old(self)@.editor, old(fs)@, old(self)@.buffer).2);
            assert(self@.buffer =~= Seq::<char>::empty());
            out
        } else if c == '\x08' {
            let mut out: Vec<ConsoleAction> = Vec::new();
            if self.command_buffer.len() > 0 {
                self.command_buffer.pop();
                out.push(ConsoleAction::Backspace);
                assert(acts(out@) =~= seq![Act::Backspace]);
            } else {
                assert(acts(out@) =~= Seq::<Act>::empty());
            }
            out
        } else {
            self.command_buffer.push(c);
            let mut out: Vec<ConsoleAction> = Vec::new();
            out.push(ConsoleAction::Echo(c));
            assert(acts(out@) =~= seq![Act::Echo(c)]);
            out
        }
    }
}


/// Ending the line `edit NAME` at the shell opens the editor on NAME, with
/// the lines of the file's UTF-8 text (none when there is no such file or it
/// is not UTF-8) and nothing modified; the filesystem is not touched.
pub proof fn law_edit_opens_file(st: ConsoleView, fs: RamfsView, name: Seq<char>)
    requires
        st.editor is None,
        st.buffer == seq!['e', 'd', 'i', 't', ' '] + name,
        name.len() > 0,
        !is_space(name.last()),
    ensures
        ({
            let r = console_step(st, fs, '\n');
            let text_lines = match file_at(fs, name) {
                Ok(f) => if valid_utf8(f.content) {
                    lines(decode_utf8(f.content))
                } else {
                    Seq::<Seq<char>>::empty()
                },
                Err(_) => Seq::<Seq<char>>::empty(),
            };
            &&& r.1 == fs
            &&& r.0.buffer.len() == 0
            &&& r.0.editor == Some((EditorView { filename: name, lines: text_lines, modified: false }))
            &&& r.2 == seq![Act::NewLine, Act::OpenEditor]
        }),
{
    let b = st.buffer;
    assert(b[0] == 'e');
    assert(b.last() == name.last());
    lemma_trim_unchanged(b);
    reveal_strlit("edit ");
    assert(b.take(5) =~= "edit "@);
    assert(b.skip(5) =~= name);
}

/// Typing a character and then a backspace leaves the console as it was.
pub proof fn law_type_then_erase(st: ConsoleView, fs: RamfsView, c: char)
    requires
        c != '\n',
        c != '\x08',
    ensures
        console_step(console_step(st, fs, c).0, fs, '\x08').0 == st,
{
    assert(st.buffer.push(c).drop_last() =~= st.buffer);
}

} // verus!
