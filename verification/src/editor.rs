//! A line-based text editor over a file of the filesystem.
//!
//! Typed text adds a line; `:w` and `:wq` save and quit, `:q` and `:q!` quit
//! without saving, `:d N` deletes line N.
use vstd::prelude::*;
use vstd::string::*;
use vstd::utf8::*;
use crate::text::{
    lemma_first_sep, Separator,
    chars_of, decimal, decimal_string, has_prefix, is_digit, lemma_decimal_digits, lemma_parse_decimal,
    lemma_trim_unchanged, lines, parse_usize, parse_usize_spec, push_char, split_lines, starts_with,
    text_of_utf8, trim, trimmed, string_of,
};
use crate::vfs::{
    law_rewrite_then_read, appended, new_file_view, parent_dir, base_name,
    create_file_spec, delete_file_spec, file_at, write_file_spec, Ramfs, RamfsView, string_views,
};

verus! {

/// What the editor holds: the file's name, its lines, and whether they changed since the last save.
pub struct EditorView {
    pub filename: Seq<char>,
    pub lines: Seq<Seq<char>>,
    pub modified: bool,
}

/// A line editor.
pub struct Editor {
    filename: String,
    lines: Vec<String>,
    modified: bool,
}

impl View for Editor {
    type V = EditorView;

    closed spec fn view(&self) -> EditorView {
        EditorView { filename: self.filename@, lines: string_views(self.lines@), modified: self.modified }
    }
}

/// What happened to a line of input, for the console to show.
#[derive(Debug, Clone, Copy, PartialEq, Eq)]
pub enum EditorOutcome {
    /// `:q` or `:q!`: the editor closes without saving.
    Quit,
    /// `:w` or `:wq`: the file was saved with this many bytes, and the editor closes.
    SavedAndQuit { bytes: usize },
    /// `:d N` removed line N.
    LineDeleted,
    /// `:d N` with no line N.
    InvalidLineNumber,
    /// `:d` without a number.
    DeleteUsage,
    /// The text became a new last line.
    LineAdded,
}

impl EditorOutcome {
    /// The editor closes after this.
    pub open spec fn spec_exits(&self) -> bool {
        match self {
            EditorOutcome::Quit | EditorOutcome::SavedAndQuit { .. } => true,
            _ => false,
        }
    }

    #[verifier::when_used_as_spec(spec_exits)]
    pub fn exits(&self) -> (b: bool)
        ensures
            b == self.spec_exits(),
    {
        match self {
            EditorOutcome::Quit | EditorOutcome::SavedAndQuit { .. } => true,
            _ => false,
        }
    }
}

/// The lines that a file holds: those of its text when it is UTF-8, none otherwise or when there is no such file.
pub open spec fn loaded_lines(fs: RamfsView, filename: Seq<char>) -> Seq<Seq<char>> {
    match file_at(fs, filename) {
        Ok(f) => if valid_utf8(f.content) {
            lines(decode_utf8(f.content))
        } else {
            seq![]
        },
        Err(_) => seq![],
    }
}

/// The lines each followed by a newline.
pub open spec fn joined(ls: Seq<Seq<char>>) -> Seq<char>
    decreases ls.len(),
{
    if ls.len() == 0 {
        seq![]
    } else {
        joined(ls.drop_last()) + ls.last() + seq!['\n']
    }
}

/// What saving does to the filesystem: make sure the file exists, remove it,
/// create it afresh and write the text, each step's failure ignored.
pub open spec fn save_effect(fs: RamfsView, name: Seq<char>, text: Seq<char>) -> RamfsView {
    let fs1 = create_file_spec(fs, name).0;
    let fs2 = delete_file_spec(fs1, name).0;
    let fs3 = create_file_spec(fs2, name).0;
    write_file_spec(fs3, name, encode_utf8(text)).0
}

/// What a line of input does to the editor and the filesystem, and its outcome.
pub open spec fn editor_step(ed: EditorView, fs: RamfsView, input: Seq<char>) -> (EditorView, RamfsView, EditorOutcome) {
    let t = trim(input);
    let text = joined(ed.lines);
    let saved = EditorView { filename: ed.filename, lines: ed.lines, modified: false };
    if t == seq![':', 'q'] || t == seq![':', 'q', '!'] {
        (ed, fs, EditorOutcome::Quit)
    } else if t == seq![':', 'w'] || t == seq![':', 'w', 'q'] {
        (saved, save_effect(fs, ed.filename, text), EditorOutcome::SavedAndQuit { bytes: encode_utf8(text).len() as usize })
    } else if starts_with(t, seq![':', 'd', ' ']) {
        match parse_usize_spec(trim(t.skip(3))) {
            Some(n) => if 0 < n <= ed.lines.len() {
                (EditorView { filename: ed.filename, lines: ed.lines.remove(n - 1), modified: true }, fs, EditorOutcome::LineDeleted)
            } else {
                (ed, fs, EditorOutcome::InvalidLineNumber)
            },
            None => (ed, fs, EditorOutcome::DeleteUsage),
        }
    } else {
        (EditorView { filename: ed.filename, lines: ed.lines.push(t), modified: true }, fs, EditorOutcome::LineAdded)
    }
}

/// `s` right-aligned in a field of `w` characters: spaces before it when it is shorter.
pub open spec fn right_aligned(s: Seq<char>, w: nat) -> Seq<char> {
    if s.len() < w {
        Seq::new((w - s.len()) as nat, |i: int| ' ') + s
    } else {
        s
    }
}

/// The rows of the status screen for the lines `ls`: each numbered from 1,
/// the number right-aligned in three columns.
pub open spec fn status_rows(ls: Seq<Seq<char>>) -> Seq<char>
    decreases ls.len(),
{
    if ls.len() == 0 {
        seq![]
    } else {
        status_rows(ls.drop_last()) + " "@ + right_aligned(decimal(ls.len()), 3) + " | "@ + ls.last() + "\n"@
    }
}

pub const STATUS_FOOTER: &'static str = "\n--- :w save | :q quit | :wq save+quit | :d N delete line ---\n> ";

/// The editor's status screen: the file's name and number of lines, a blank
/// line, the numbered lines, a blank line, the commands, and the input prompt.
pub open spec fn status_text(ed: EditorView) -> Seq<char> {
    "--- EDIT: "@ + ed.filename + " ("@ + decimal(ed.lines.len()) + " lines) ---\n\n"@ + status_rows(ed.lines)
        + STATUS_FOOTER@
}

/// `s` is exactly the characters `lit`.
fn is_word(s: &Vec<char>, lit: &Vec<char>) -> (b: bool)
    ensures
        b == (s@ == lit@),
{
    crate::text::chars_equal(s, lit)
}

impl Editor {
    /// Opens `filename`, loading its lines from `fs` when it holds UTF-8 text.
    pub fn new(fs: &Ramfs, filename: &str) -> (e: Self)
        requires
            fs.wf(),
        ensures
            e@ == (EditorView { filename: filename@, lines: loaded_lines(fs@, filename@), modified: false }),
    {
        let mut lines: Vec<String> = Vec::new();
        match fs.read_file(filename) {
            Ok(data) => {
                match text_of_utf8(data) {
                    Some(text) => {
                        lines = split_lines(text);
                    },
                    None => {},
                }
            },
            Err(_) => {},
        }
        assert(string_views(lines@) =~= loaded_lines(fs@, filename@));
        Editor { filename: filename.to_owned(), lines, modified: false }
    }

    /// The name of the file.
    pub fn filename(&self) -> (r: &str)
        ensures
            r@ == self@.filename,
    {
        self.filename.as_str()
    }

    /// The lines, first to last.
    pub fn lines(&self) -> (r: &Vec<String>)
        ensures
            string_views(r@) == self@.lines,
    {
        &self.lines
    }

    /// The lines changed since the last save.
    pub fn is_modified(&self) -> (r: bool)
        ensures
            r == self@.modified,
    {
        self.modified
    }

    /// The status screen shown after the editor opens or its lines change.
    pub fn status(&self) -> (s: String)
        ensures
            s@ == status_text(self@),
    {
        let mut s = "--- EDIT: ".to_owned();
        s.append(self.filename.as_str());
        s.append(" (");
        s.append(decimal_string(self.lines.len() as u64).as_str());
        s.append(" lines) ---\n\n");
        let ghost head = s@;
        let mut i: usize = 0;
        while i < self.lines.len()
            invariant
                i <= self.lines@.len(),
                s@ == head + status_rows(string_views(self.lines@).take(i as int)),
            decreases self.lines@.len() - i,
        {
            let ghost before = s@;
            let num = chars_of(decimal_string((i + 1) as u64).as_str());
            push_char(&mut s, ' ');
            let mut pad: usize = num.len();
            assert(s@ =~= before + seq![' '] + Seq::new((pad - num@.len()) as nat, |k: int| ' '));
            while pad < 3
                invariant
                    num.len() <= pad <= 3 || (pad == num.len() && pad >= 3),
                    s@ == before + seq![' '] + Seq::new((pad - num@.len()) as nat, |k: int| ' '),
                decreases 3 - pad,
            {
                push_char(&mut s, ' ');
                pad += 1;
                assert(s@ =~= before + seq![' '] + Seq::new((pad - num@.len()) as nat, |k: int| ' '));
            }
            s.append(string_of(&num).as_str());
            s.append(" | ");
            s.append(self.lines[i].as_str());
            s.append("\n");
            proof {
                let ls = string_views(self.lines@).take(i + 1);
                assert(ls.drop_last() =~= string_views(self.lines@).take(i as int));
                assert(ls.last() == self.lines@[i as int]@);
                assert(num@ == decimal((i + 1) as nat));
                reveal_strlit(" ");
                assert(" "@ =~= seq![' ']);
                assert(right_aligned(num@, 3) =~= Seq::new((pad - num@.len()) as nat, |k: int| ' ') + num@);
                assert(s@ =~= head + status_rows(ls));
            }
            i += 1;
        }
        assert(string_views(self.lines@).take(self.lines@.len() as int) =~= string_views(self.lines@));
        s.append(STATUS_FOOTER);
        s
    }

    /// The text of the lines, each followed by a newline.
    fn content(&self) -> (s: String)
        ensures
            s@ == joined(self@.lines),
    {
        let mut s = String::new();
        let mut i: usize = 0;
        while i < self.lines.len()
            invariant
                i <= self.lines@.len(),
                s@ == joined(string_views(self.lines@).take(i as int)),
            decreases self.lines@.len() - i,
        {
            let ghost before = s@;
            s.append(self.lines[i].as_str());
            push_char(&mut s, '\n');
            proof {
                let ls = string_views(self.lines@).take(i + 1);
                assert(ls.drop_last() =~= string_views(self.lines@).take(i as int));
                assert(s@ =~= joined(ls));
            }
            i += 1;
        }
        assert(string_views(self.lines@).take(self.lines@.len() as int) =~= string_views(self.lines@));
        s
    }

    /// Writes the lines to the file, replacing what it held; the number of bytes written.
    fn save(&mut self, fs: &mut Ramfs) -> (n: usize)
        requires
            old(fs).wf(),
        ensures
            final(fs).wf(),
            final(fs)@ == save_effect(old(fs)@, old(self)@.filename, joined(old(self)@.lines)),
            final(self)@ == (EditorView { filename: old(self)@.filename, lines: old(self)@.lines, modified: false }),
            n == encode_utf8(joined(old(self)@.lines)).len() as usize,
    {
        let _ = fs.create_file(self.filename.as_str());
        let content = self.content();
        let _ = fs.delete_file(self.filename.as_str());
        let _ = fs.create_file(self.filename.as_str());
        let bytes = content.as_str().as_bytes();
        let _ = fs.write_file(self.filename.as_str(), bytes);
        self.modified = false;
        content.as_str().len()
    }

    /// Handles one line of input.
    pub fn process_input(&mut self, fs: &mut Ramfs, input: &str) -> (r: EditorOutcome)
        requires
            old(fs).wf(),
        ensures
            final(fs).wf(),
            (final(self)@, final(fs)@, r) == editor_step(old(self)@, old(fs)@, input@),
    {
        let t = trimmed(&chars_of(input));
        let mut q: Vec<char> = Vec::new();
        q.push(':');
        q.push('q');
        if is_word(&t, &q) {
            assert(q@ =~= seq![':', 'q']);
            return EditorOutcome::Quit;
        }
        assert(q@ =~= seq![':', 'q']);
        q.push('!');
        if is_word(&t, &q) {
            assert(q@ =~= seq![':', 'q', '!']);
            return EditorOutcome::Quit;
        }
        assert(q@ =~= seq![':', 'q', '!']);
        let mut w: Vec<char> = Vec::new();
        w.push(':');
        w.push('w');
        if is_word(&t, &w) {
            assert(w@ =~= seq![':', 'w']);
            let bytes = self.save(fs);
            return EditorOutcome::SavedAndQuit { bytes };
        }
        assert(w@ =~= seq![':', 'w']);
        w.push('q');
        if is_word(&t, &w) {
            assert(w@ =~= seq![':', 'w', 'q']);
            let bytes = self.save(fs);
            return EditorOutcome::SavedAndQuit { bytes };
        }
        assert(w@ =~= seq![':', 'w', 'q']);
        let mut d: Vec<char> = Vec::new();
        d.push(':');
        d.push('d');
        d.push(' ');
        assert(d@ =~= seq![':', 'd', ' ']);
        if has_prefix(&t, &d) {
            let mut rest: Vec<char> = Vec::new();
            let mut i: usize = 3;
            while i < t.len()
                invariant
                    3 <= i <= t@.len(),
                    rest@ == t@.subrange(3, i as int),
                decreases t@.len() - i,
            {
                rest.push(t[i]);
                i += 1;
            }
            assert(rest@ =~= t@.skip(3));
            let num = trimmed(&rest);
            match parse_usize(&num) {
                Some(n) => {
                    if n > 0 && n <= self.lines.len() {
                        self.lines.remove(n - 1);
                        self.modified = true;
                        proof {
                            assert(string_views(self.lines@) =~= string_views(old(self).lines@).remove(n - 1));
                        }
                        return EditorOutcome::LineDeleted;
                    } else {
                        return EditorOutcome::InvalidLineNumber;
                    }
                },
                None => {
                    return EditorOutcome::DeleteUsage;
                },
            }
        }
        let line = string_of(&t);
        self.lines.push(line);
        self.modified = true;
        proof {
            assert(string_views(self.lines@) =~= string_views(old(self).lines@).push(t@));
        }
        EditorOutcome::LineAdded
    }
}


// ---------------------------------------------------------------------------
// Laws
// ---------------------------------------------------------------------------

/// A line that reads back as itself: no newline in it, and no carriage return at its end.
pub open spec fn plain_line(l: Seq<char>) -> bool {
    &&& !l.contains('\n')
    &&& !(l.len() > 0 && l.last() == '\r')
}

proof fn lemma_joined_front(ls: Seq<Seq<char>>)
    requires
        ls.len() > 0,
    ensures
        joined(ls) == ls[0] + seq!['\n'] + joined(ls.drop_first()),
    decreases ls.len(),
{
    if ls.len() > 1 {
        let a = ls.drop_last();
        let b = ls.drop_first();
        let c = a.drop_first();
        lemma_joined_front(a);
        assert(c =~= b.drop_last());
        assert(b.last() == ls.last());
        assert(a[0] == ls[0]);
        let nl = seq!['\n'];
        assert(joined(a) == a[0] + nl + joined(c));
        assert(joined(b) == joined(b.drop_last()) + b.last() + nl);
        assert(joined(b) == joined(c) + ls.last() + nl);
        assert(joined(ls) == joined(a) + ls.last() + nl);
        assert(joined(ls) =~= ls[0] + nl + joined(b));
    } else {
        assert(joined(ls.drop_first()) == Seq::<char>::empty());
        assert(joined(ls.drop_last()) == Seq::<char>::empty());
        assert(ls.last() == ls[0]);
        assert(joined(ls) =~= ls[0] + seq!['\n'] + joined(ls.drop_first()));
    }
}

proof fn lemma_lines_joined(ls: Seq<Seq<char>>)
    requires
        forall|i: int| 0 <= i < ls.len() ==> plain_line(#[trigger] ls[i]),
    ensures
        lines(joined(ls)) == ls,
    decreases ls.len(),
{
    if ls.len() > 0 {
        lemma_joined_front(ls);
        let l = ls[0];
        let rest = joined(ls.drop_first());
        let s = l + seq!['\n'] + rest;
        assert(plain_line(l));
        assert forall|j: int| 0 <= j < l.len() implies !crate::text::is_sep(Separator::Newline, #[trigger] s[j]) by {
            assert(s[j] == l[j]);
            if s[j] == '\n' {
                assert(l.contains('\n'));
            }
        }
        assert(s[l.len() as int] == '\n');
        lemma_first_sep(s, Separator::Newline, l.len() as int);
        assert(s.take(l.len() as int) =~= l);
        assert(s.skip(l.len() as int + 1) =~= rest);
        assert forall|i: int| 0 <= i < ls.drop_first().len() implies plain_line(#[trigger] ls.drop_first()[i]) by {
            assert(ls.drop_first()[i] == ls[i + 1]);
        }
        lemma_lines_joined(ls.drop_first());
        assert(lines(s) =~= seq![l] + ls.drop_first());
        assert(seq![l] + ls.drop_first() =~= ls);
    } else {
        assert(joined(ls) =~= Seq::<char>::empty());
    }
}

/// `:d n` deletes line `n` when there is one: the lines after it move up one
/// place and the others stay; with no line `n` (`n` is 0 or past the last
/// line) nothing changes. The filesystem is never touched.
pub proof fn law_delete_line(ed: EditorView, fs: RamfsView, n: nat)
    requires
        n <= usize::MAX,
    ensures
        ({
            let r = editor_step(ed, fs, seq![':', 'd', ' '] + decimal(n));
            &&& r.1 == fs
            &&& r.0.filename == ed.filename
            &&& if 1 <= n <= ed.lines.len() {
                &&& r.2 == EditorOutcome::LineDeleted
                &&& r.0.modified
                &&& r.0.lines.len() == ed.lines.len() - 1
                &&& forall|i: int| 0 <= i < n - 1 ==> #[trigger] r.0.lines[i] == ed.lines[i]
                &&& forall|i: int| n - 1 <= i < r.0.lines.len() ==> #[trigger] r.0.lines[i] == ed.lines[i + 1]
            } else {
                &&& r.2 == EditorOutcome::InvalidLineNumber
                &&& r.0 == ed
            }
        }),
{
    let d = decimal(n);
    lemma_decimal_digits(n);
    lemma_parse_decimal(n);
    let s = seq![':', 'd', ' '] + d;
    assert(s[0] == ':');
    assert(s.last() == d.last());
    assert(is_digit(d[d.len() - 1]));
    lemma_trim_unchanged(s);
    assert(s.skip(3) =~= d);
    assert(is_digit(d[0]));
    lemma_trim_unchanged(d);
    assert(s.take(3) =~= seq![':', 'd', ' ']);
    assert(s != seq![':', 'q']) by {
        if s == seq![':', 'q'] {
            assert(s[1] == 'd');
        }
    }
    assert(s != seq![':', 'q', '!']) by {
        if s == seq![':', 'q', '!'] {
            assert(s[1] == 'd');
        }
    }
    assert(s != seq![':', 'w']) by {
        if s == seq![':', 'w'] {
            assert(s[1] == 'd');
        }
    }
    assert(s != seq![':', 'w', 'q']) by {
        if s == seq![':', 'w', 'q'] {
            assert(s[1] == 'd');
        }
    }
}

/// After a save, the file holds exactly the text of the lines, each ended by a newline.
pub proof fn law_save_then_read(ed: Editor, fs: Ramfs)
    requires
        fs.wf(),
        fs@.dirs.contains_key(parent_dir(fs@.cwd, ed@.filename)),
        base_name(fs@.cwd, ed@.filename).len() > 0,
    ensures
        file_at(save_effect(fs@, ed@.filename, joined(ed@.lines)), ed@.filename) == Ok::<
            crate::vfs::FileView,
            &'static str,
        >(appended(new_file_view(), encode_utf8(joined(ed@.lines)))),
{
    law_rewrite_then_read(fs, ed@.filename, encode_utf8(joined(ed@.lines)));
}

/// Opening a file just saved gives back the lines saved, when each reads back as itself.
pub proof fn law_save_then_reopen(ed: Editor, fs: Ramfs)
    requires
        fs.wf(),
        fs@.dirs.contains_key(parent_dir(fs@.cwd, ed@.filename)),
        base_name(fs@.cwd, ed@.filename).len() > 0,
        forall|i: int| 0 <= i < ed@.lines.len() ==> plain_line(#[trigger] ed@.lines[i]),
    ensures
        loaded_lines(save_effect(fs@, ed@.filename, joined(ed@.lines)), ed@.filename) == ed@.lines,
{
    let text = joined(ed@.lines);
    law_rewrite_then_read(fs, ed@.filename, encode_utf8(text));
    encode_utf8_valid_utf8(text);
    encode_utf8_decode_utf8(text);
    assert(appended(new_file_view(), encode_utf8(text)).content =~= encode_utf8(text));
    lemma_lines_joined(ed@.lines);
}

} // verus!
