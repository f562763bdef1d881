//! The command shell: one line of input, run against the filesystem, and the
//! text it answers.
use vstd::prelude::*;
use vstd::string::*;
use vstd::utf8::*;
use crate::text::{
    chars_equal, chars_of, decimal, decimal_string, push_char, split_tokens, text_of_utf8, tokens,
    trim, trimmed, string_of, Separator,
};
use crate::vfs::{
    create_file_spec, delete_file_spec, file_at, list_dir_spec, mkdir_spec, rmdir_spec, cd_spec,
    write_file_spec, Ramfs, RamfsView, string_views,
};

verus! {

/// What the console should do with a command's answer.
pub enum Reply {
    /// Nothing to show.
    Nothing,
    /// Show this text as it is.
    Text(Seq<char>),
    /// Clear the screen.
    ClearScreen,
    /// Show the system information sheet.
    SystemInfo,
}

/// A command's answer.
#[derive(Debug, PartialEq, Eq)]
pub enum ShellOutput {
    Nothing,
    Text(String),
    ClearScreen,
    SystemInfo,
}

impl View for ShellOutput {
    type V = Reply;

    open spec fn view(&self) -> Reply {
        match self {
            ShellOutput::Nothing => Reply::Nothing,
            ShellOutput::Text(s) => Reply::Text(s@),
            ShellOutput::ClearScreen => Reply::ClearScreen,
            ShellOutput::SystemInfo => Reply::SystemInfo,
        }
    }
}

pub const HELP_TEXT: &'static str = "=== NexusOS Shell Commands ===\n\n  Filesystem:\n    ls [path]             - List directory contents\n    cd <path>             - Change directory\n    pwd                   - Print working directory\n    mkdir <dir>           - Create directory\n    rmdir <dir>           - Remove empty directory\n    touch <file>          - Create file\n    rm <file>             - Delete file\n    write <file> <text>   - Append text to file\n    cat <file>            - Read file contents\n    stat <file>           - Show file info\n\n  Editor:\n    edit <file>           - Open text editor\n      :w                  - Save\n      :q                  - Quit (or :q! to force)\n      :wq                 - Save and quit\n      :d N               - Delete line N\n\n  System:\n    echo <text>           - Print text\n    clear                 - Clear screen\n    sysinfo               - System information\n    uname                 - OS version\n    help                  - This help message\n";

pub const UNAME_TEXT: &'static str = "NexusOS 0.2.0 x86_64\n";

/// The words joined with single spaces.
pub open spec fn join_words(ws: Seq<Seq<char>>) -> Seq<char>
    decreases ws.len(),
{
    if ws.len() == 0 {
        seq![]
    } else if ws.len() == 1 {
        ws[0]
    } else {
        join_words(ws.drop_last()) + seq![' '] + ws.last()
    }
}

/// Each name followed by `suffix`.
pub open spec fn listing(names: Seq<Seq<char>>, suffix: Seq<char>) -> Seq<char>
    decreases names.len(),
{
    if names.len() == 0 {
        seq![]
    } else {
        listing(names.drop_last(), suffix) + names.last() + suffix
    }
}

/// A line of text.
pub open spec fn line(s: Seq<char>) -> Reply {
    Reply::Text(s + seq!['\n'])
}

/// The answer to an operation that may fail: `ok` on success, else the
/// command's name, a colon and the error.
pub open spec fn outcome(r: Result<(), &'static str>, ok: Seq<char>, cmd: Seq<char>) -> Reply {
    match r {
        Ok(_) => line(ok),
        Err(e) => line(cmd + ": "@ + e@),
    }
}

/// What `ls [path]` answers.
pub open spec fn ls_reply(fs: RamfsView, parts: Seq<Seq<char>>) -> Reply {
    let path = if parts.len() > 1 { parts[1] } else { "."@ };
    let lookup = if path == "."@ { fs.cwd } else { path };
    match list_dir_spec(fs, lookup) {
        Ok((ds, fs_)) => if ds.len() == 0 && fs_.len() == 0 {
            line("(empty)"@)
        } else {
            line(listing(ds, "/ "@) + listing(fs_, " "@))
        },
        Err(e) => line("ls: "@ + e@),
    }
}

/// What `write <file> <text>` does and answers.
pub open spec fn write_cmd(fs: RamfsView, parts: Seq<Seq<char>>) -> (RamfsView, Reply) {
    if parts.len() < 2 {
        (fs, line("Usage: write <filename> <text>"@))
    } else {
        let name = parts[1];
        let text = join_words(parts.skip(2));
        if text.len() == 0 {
            (fs, line("Usage: write <filename> <text>"@))
        } else {
            let (fs2, r) = write_file_spec(fs, name, encode_utf8(text));
            match r {
                Ok(_) => (write_file_spec(fs2, name, seq![10u8]).0, line("Written to "@ + name)),
                Err(e) => (fs2, line("write: "@ + e@)),
            }
        }
    }
}

/// What `cat <file>` answers.
pub open spec fn cat_reply(fs: RamfsView, parts: Seq<Seq<char>>) -> Reply {
    if parts.len() < 2 {
        line("Usage: cat <filename>"@)
    } else {
        match file_at(fs, parts[1]) {
            Ok(f) => if valid_utf8(f.content) {
                Reply::Text(decode_utf8(f.content))
            } else {
                line("<binary data, "@ + decimal(f.content.len()) + " bytes>"@)
            },
            Err(e) => line("cat: "@ + e@),
        }
    }
}

/// What `stat <file>` answers.
pub open spec fn stat_reply(fs: RamfsView, parts: Seq<Seq<char>>) -> Reply {
    if parts.len() < 2 {
        line("Usage: stat <filename>"@)
    } else {
        match file_at(fs, parts[1]) {
            Ok(f) => Reply::Text("File: "@ + parts[1] + "\nSize: "@ + decimal(f.size as nat) + " bytes\n"@),
            Err(e) => line("stat: "@ + e@),
        }
    }
}

/// What a command with one operand does: `op` on the operand, or a usage line without one.
pub open spec fn one_operand(
    fs: RamfsView,
    parts: Seq<Seq<char>>,
    usage: Seq<char>,
    result: (RamfsView, Result<(), &'static str>),
    ok: Seq<char>,
    cmd: Seq<char>,
) -> (RamfsView, Reply) {
    if parts.len() < 2 {
        (fs, line(usage))
    } else {
        (result.0, outcome(result.1, ok, cmd))
    }
}

/// What a line typed at the shell does to the filesystem, and what it answers.
pub open spec fn shell_spec(fs: RamfsView, input: Seq<char>) -> (RamfsView, Reply) {
    let parts = tokens(trim(input), Separator::Space);
    let arg = if parts.len() > 1 { parts[1] } else { seq![] };
    if parts.len() == 0 {
        (fs, Reply::Nothing)
    } else {
        let cmd = parts[0];
        if cmd == "echo"@ {
            (fs, line(join_words(parts.skip(1))))
        } else if cmd == "clear"@ {
            (fs, Reply::ClearScreen)
        } else if cmd == "ls"@ {
            (fs, ls_reply(fs, parts))
        } else if cmd == "mkdir"@ {
            one_operand(fs, parts, "Usage: mkdir <dirname>"@, mkdir_spec(fs, arg), "Created directory: "@ + arg, "mkdir"@)
        } else if cmd == "rmdir"@ {
            one_operand(fs, parts, "Usage: rmdir <dirname>"@, rmdir_spec(fs, arg), "Removed directory: "@ + arg, "rmdir"@)
        } else if cmd == "cd"@ {
            if parts.len() < 2 {
                (fs, line("Usage: cd <path>"@))
            } else {
                let (fs2, r) = cd_spec(fs, arg);
                match r {
                    Ok(_) => (fs2, Reply::Nothing),
                    Err(e) => (fs2, line("cd: "@ + e@)),
                }
            }
        } else if cmd == "pwd"@ {
            (fs, line(fs.cwd))
        } else if cmd == "touch"@ {
            one_operand(fs, parts, "Usage: touch <filename>"@, create_file_spec(fs, arg), "Created file: "@ + arg, "touch"@)
        } else if cmd == "rm"@ {
            one_operand(fs, parts, "Usage: rm <filename>"@, delete_file_spec(fs, arg), "Deleted: "@ + arg, "rm"@)
        } else if cmd == "write"@ {
            write_cmd(fs, parts)
        } else if cmd == "cat"@ {
            (fs, cat_reply(fs, parts))
        } else if cmd == "stat"@ {
            (fs, stat_reply(fs, parts))
        } else if cmd == "sysinfo"@ {
            (fs, Reply::SystemInfo)
        } else if cmd == "uname"@ {
            (fs, Reply::Text(UNAME_TEXT@))
        } else if cmd == "help"@ {
            (fs, Reply::Text(HELP_TEXT@))
        } else {
            (fs, Reply::Text("Unknown command: "@ + cmd + "\nType 'help' for available commands.\n"@))
        }
    }
}

/// `s` is exactly `lit`.
fn is(s: &String, lit: &str) -> (b: bool)
    ensures
        b == (s@ == lit@),
{
    chars_equal(&chars_of(s.as_str()), &chars_of(lit))
}

/// `s` followed by a newline.
fn text_line(s: String) -> (o: ShellOutput)
    ensures
        o@ == line(s@),
{
    let mut t = s;
    push_char(&mut t, '\n');
    assert(t@ =~= s@ + seq!['\n']);
    ShellOutput::Text(t)
}

/// `a` followed by `b`.
fn concat(a: &str, b: &str) -> (s: String)
    ensures
        s@ == a@ + b@,
{
    let mut s = a.to_owned();
    s.append(b);
    s
}

/// The words joined with single spaces.
fn join(ws: &Vec<String>, from: usize) -> (s: String)
    requires
        from <= ws@.len(),
    ensures
        s@ == join_words(string_views(ws@).skip(from as int)),
{
    let ghost all = string_views(ws@).skip(from as int);
    let mut s = String::new();
    let mut i: usize = from;
    assert(all.take(0) =~= Seq::<Seq<char>>::empty());
    while i < ws.len()
        invariant
            from <= i <= ws@.len(),
            all == string_views(ws@).skip(from as int),
            s@ == join_words(all.take(i - from)),
        decreases ws@.len() - i,
    {
        let ghost before = s@;
        if i > from {
            push_char(&mut s, ' ');
        }
        s.append(ws[i].as_str());
        proof {
            let t = all.take(i - from + 1);
            assert(t.drop_last() =~= all.take(i - from));
            assert(t.last() == ws@[i as int]@);
            if i == from {
                assert(s@ =~= join_words(t));
            } else {
                assert(s@ =~= join_words(t));
            }
        }
        i += 1;
    }
    assert(all.take(ws@.len() - from) =~= all);
    s
}

/// Each name followed by `suffix`, appended to `s`.
fn append_listing(s: &mut String, names: &Vec<String>, suffix: &str)
    ensures
        final(s)@ == old(s)@ + listing(string_views(names@), suffix@),
{
    let mut i: usize = 0;
    assert(string_views(names@).take(0) =~= Seq::<Seq<char>>::empty());
    assert(old(s)@ + listing(Seq::<Seq<char>>::empty(), suffix@) =~= old(s)@);
    while i < names.len()
        invariant
            i <= names@.len(),
            s@ == old(s)@ + listing(string_views(names@).take(i as int), suffix@),
        decreases names@.len() - i,
    {
        s.append(names[i].as_str());
        s.append(suffix);
        proof {
            let t = string_views(names@).take(i + 1);
            assert(t.drop_last() =~= string_views(names@).take(i as int));
            assert(s@ =~= old(s)@ + listing(t, suffix@));
        }
        i += 1;
    }
    assert(string_views(names@).take(names@.len() as int) =~= string_views(names@));
}

/// The answer to an operation that may fail.
fn outcome_of(r: Result<(), &'static str>, ok: String, cmd: &str) -> (o: ShellOutput)
    ensures
        o@ == outcome(r, ok@, cmd@),
{
    match r {
        Ok(_) => text_line(ok),
        Err(e) => {
            let mut s = concat(cmd, ": ");
            s.append(e);
            assert(s@ == cmd@ + ": "@ + e@);
            text_line(s)
        },
    }
}

fn ls(fs: &Ramfs, parts: &Vec<String>) -> (o: ShellOutput)
    requires
        fs.wf(),
        parts@.len() >= 1,
    ensures
        o@ == ls_reply(fs@, string_views(parts@)),
{
    let dot = ".".to_owned();
    let path: &String = if parts.len() > 1 { &parts[1] } else { &dot };
    let lookup: String = if is(path, ".") { fs.pwd().to_owned() } else { path.clone() };
    match fs.list_dir(lookup.as_str()) {
        Ok((dirs, files)) => {
            if dirs.len() == 0 && files.len() == 0 {
                text_line("(empty)".to_owned())
            } else {
                let mut s = String::new();
                append_listing(&mut s, &dirs, "/ ");
                append_listing(&mut s, &files, " ");
                assert(s@ =~= listing(string_views(dirs@), "/ "@) + listing(string_views(files@), " "@));
                text_line(s)
            }
        },
        Err(e) => text_line(concat("ls: ", e)),
    }
}

fn write(fs: &mut Ramfs, parts: &Vec<String>) -> (o: ShellOutput)
    requires
        old(fs).wf(),
        parts@.len() >= 1,
    ensures
        final(fs).wf(),
        (final(fs)@, o@) == write_cmd(old(fs)@, string_views(parts@)),
{
    if parts.len() < 2 {
        return text_line("Usage: write <filename> <text>".to_owned());
    }
    let filename = parts[1].as_str();
    let text = join(parts, 2);
    if text.as_str().is_empty() {
        return text_line("Usage: write <filename> <text>".to_owned());
    }
    match fs.write_file(filename, text.as_str().as_bytes()) {
        Ok(()) => {
            let mut nl: Vec<u8> = Vec::new();
            nl.push(10u8);
            assert(nl@ =~= seq![10u8]);
            let _ = fs.write_file(filename, nl.as_slice());
            text_line(concat("Written to ", filename))
        },
        Err(e) => text_line(concat("write: ", e)),
    }
}

fn cat(fs: &Ramfs, parts: &Vec<String>) -> (o: ShellOutput)
    requires
        fs.wf(),
        parts@.len() >= 1,
    ensures
        o@ == cat_reply(fs@, string_views(parts@)),
{
    if parts.len() < 2 {
        return text_line("Usage: cat <filename>".to_owned());
    }
    match fs.read_file(parts[1].as_str()) {
        Ok(data) => {
            match text_of_utf8(data) {
                Some(text) => ShellOutput::Text(text.to_owned()),
                None => {
                    let mut s = "<binary data, ".to_owned();
                    let n = decimal_string(data.len() as u64);
                    s.append(n.as_str());
                    s.append(" bytes>");
                    text_line(s)
                },
            }
        },
        Err(e) => text_line(concat("cat: ", e)),
    }
}

fn stat(fs: &Ramfs, parts: &Vec<String>) -> (o: ShellOutput)
    requires
        fs.wf(),
        parts@.len() >= 1,
    ensures
        o@ == stat_reply(fs@, string_views(parts@)),
{
    if parts.len() < 2 {
        return text_line("Usage: stat <filename>".to_owned());
    }
    match fs.file_info(parts[1].as_str()) {
        Ok((size,)) => {
            let mut s = concat("File: ", parts[1].as_str());
            s.append("\nSize: ");
            let n = decimal_string(size as u64);
            s.append(n.as_str());
            s.append(" bytes\n");
            ShellOutput::Text(s)
        },
        Err(e) => text_line(concat("stat: ", e)),
    }
}

/// Runs one line typed at the shell.
pub fn execute_command(fs: &mut Ramfs, cmd_line: &str) -> (o: ShellOutput)
    requires
        old(fs).wf(),
    ensures
        final(fs).wf(),
        (final(fs)@, o@) == shell_spec(old(fs)@, cmd_line@),
{
    let line_chars = trimmed(&chars_of(cmd_line));
    let t = string_of(&line_chars);
    let parts = split_tokens(t.as_str(), &Separator::Space);
    if parts.len() == 0 {
        return ShellOutput::Nothing;
    }
    let ghost ps = string_views(parts@);
    let command = &parts[0];
    let ghost arg = if ps.len() > 1 { ps[1] } else { Seq::<char>::empty() };
    if is(command, "echo") {
        text_line(join(&parts, 1))
    } else if is(command, "clear") {
        ShellOutput::ClearScreen
    } else if is(command, "ls") {
        ls(fs, &parts)
    } else if is(command, "mkdir") {
        if parts.len() < 2 {
            return text_line("Usage: mkdir <dirname>".to_owned());
        }
        let r = fs.mkdir(parts[1].as_str());
        outcome_of(r, concat("Created directory: ", parts[1].as_str()), "mkdir")
    } else if is(command, "rmdir") {
        if parts.len() < 2 {
            return text_line("Usage: rmdir <dirname>".to_owned());
        }
        let r = fs.rmdir(parts[1].as_str());
        outcome_of(r, concat("Removed directory: ", parts[1].as_str()), "rmdir")
    } else if is(command, "cd") {
        if parts.len() < 2 {
            return text_line("Usage: cd <path>".to_owned());
        }
        match fs.cd(parts[1].as_str()) {
            Ok(()) => ShellOutput::Nothing,
            Err(e) => text_line(concat("cd: ", e)),
        }
    } else if is(command, "pwd") {
        text_line(fs.pwd().to_owned())
    } else if is(command, "touch") {
        if parts.len() < 2 {
            return text_line("Usage: touch <filename>".to_owned());
        }
        let r = fs.create_file(parts[1].as_str());
        outcome_of(r, concat("Created file: ", parts[1].as_str()), "touch")
    } else if is(command, "rm") {
        if parts.len() < 2 {
            return text_line("Usage: rm <filename>".to_owned());
        }
        let r = fs.delete_file(parts[1].as_str());
        outcome_of(r, concat("Deleted: ", parts[1].as_str()), "rm")
    } else if is(command, "write") {
        write(fs, &parts)
    } else if is(command, "cat") {
        cat(fs, &parts)
    } else if is(command, "stat") {
        stat(fs, &parts)
    } else if is(command, "sysinfo") {
        ShellOutput::SystemInfo
    } else if is(command, "uname") {
        ShellOutput::Text(UNAME_TEXT.to_owned())
    } else if is(command, "help") {
        ShellOutput::Text(HELP_TEXT.to_owned())
    } else {
        let mut s = concat("Unknown command: ", command.as_str());
        s.append("\nType 'help' for available commands.\n");
        ShellOutput::Text(s)
    }
}

pub const SYSINFO_HEAD: &'static str = "=== NexusOS System Information ===\nKernel:       NexusOS v0.2.0\nArchitecture: x86_64 (64-bit)\nLanguage:     Rust (no_std)\nHeap Size:    ";

pub const SYSINFO_TAIL: &'static str = " KiB\nAllocator:    Bitmap Frame Allocator (O(1))\nVGA Mode:     80x25 text\nInterrupts:   PIC 8259 (Timer + Keyboard)\nScheduler:    Cooperative Async/Await\nFilesystem:   Ramfs (hierarchical, in-memory)\nEditor:       Built-in line editor\n";

/// The system information sheet for a heap of `heap_size` bytes, shown in KiB.
pub fn system_info_text(heap_size: usize) -> (s: String)
    ensures
        s@ == SYSINFO_HEAD@ + decimal((heap_size / 1024) as nat) + SYSINFO_TAIL@,
{
    let mut s = SYSINFO_HEAD.to_owned();
    s.append(decimal_string((heap_size / 1024) as u64).as_str());
    s.append(SYSINFO_TAIL);
    s
}

// ---------------------------------------------------------------------------
// Laws
// ---------------------------------------------------------------------------

/// Each name, first to last, followed by `suffix`.
pub open spec fn each_followed_by(names: Seq<Seq<char>>, suffix: Seq<char>) -> Seq<char>
    decreases names.len(),
{
    if names.len() == 0 {
        seq![]
    } else {
        names[0] + suffix + each_followed_by(names.drop_first(), suffix)
    }
}

proof fn lemma_each_followed_by_push(names: Seq<Seq<char>>, x: Seq<char>, suffix: Seq<char>)
    ensures
        each_followed_by(names.push(x), suffix) == each_followed_by(names, suffix) + x + suffix,
    decreases names.len(),
{
    if names.len() == 0 {
        assert(names.push(x).drop_first() =~= Seq::<Seq<char>>::empty());
        assert(names.push(x)[0] == x);
        assert(each_followed_by(Seq::<Seq<char>>::empty(), suffix) == Seq::<char>::empty());
        assert(each_followed_by(names, suffix) == Seq::<char>::empty());
        assert(each_followed_by(names.push(x), suffix) =~= x + suffix);
    } else {
        assert(names.push(x).drop_first() =~= names.drop_first().push(x));
        lemma_each_followed_by_push(names.drop_first(), x, suffix);
        assert(each_followed_by(names.push(x), suffix) =~= each_followed_by(names, suffix) + x + suffix);
    }
}

proof fn lemma_listing_in_order(names: Seq<Seq<char>>, suffix: Seq<char>)
    ensures
        listing(names, suffix) == each_followed_by(names, suffix),
    decreases names.len(),
{
    if names.len() > 0 {
        lemma_listing_in_order(names.drop_last(), suffix);
        lemma_each_followed_by_push(names.drop_last(), names.last(), suffix);
        assert(names.drop_last().push(names.last()) =~= names);
    }
}

/// `ls` lists the working directory without changing anything: every
/// subdirectory name followed by `/ `, then every file name followed by a
/// space, on one line; `(empty)` only when there is neither.
pub proof fn law_ls_lists_everything(fs: RamfsView)
    ensures
        shell_spec(fs, seq!['l', 's']).0 == fs,
        shell_spec(fs, seq!['l', 's']).1 == (match list_dir_spec(fs, fs.cwd) {
            Ok((ds, fls)) => if ds.len() == 0 && fls.len() == 0 {
                Reply::Text("(empty)"@ + seq!['\n'])
            } else {
                Reply::Text(each_followed_by(ds, seq!['/', ' ']) + each_followed_by(fls, seq![' ']) + seq!['\n'])
            },
            Err(e) => Reply::Text("ls: "@ + e@ + seq!['\n']),
        }),
{
    let s = seq!['l', 's'];
    assert(s[0] == 'l' && s.last() == 's');
    crate::text::lemma_trim_unchanged(s);
    crate::text::lemma_first_sep(s, Separator::Space, 2);
    assert(s.take(2) =~= s);
    assert(s.skip(2) =~= Seq::<char>::empty());
    assert(!crate::text::is_sep(Separator::Space, s[0]));
    assert(tokens(Seq::<char>::empty(), Separator::Space) == Seq::<Seq<char>>::empty());
    assert(tokens(s, Separator::Space) == seq![s.take(2)] + tokens(s.skip(2), Separator::Space));
    assert(tokens(s, Separator::Space) =~= seq![s]);
    reveal_strlit("ls");
    reveal_strlit("echo");
    reveal_strlit("clear");
    reveal_strlit("/ ");
    reveal_strlit(" ");
    assert("ls"@ =~= s);
    assert("/ "@ =~= seq!['/', ' ']);
    assert(" "@ =~= seq![' ']);
    assert(s != "echo"@);
    assert(s != "clear"@);
    match list_dir_spec(fs, fs.cwd) {
        Ok((ds, fls)) => {
            lemma_listing_in_order(ds, seq!['/', ' ']);
            lemma_listing_in_order(fls, seq![' ']);
        },
        Err(_) => {},
    }
}

} // verus!
