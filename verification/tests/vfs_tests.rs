use nexus_os::vfs::{
    create_default_layout, DirEntry, Ramfs, DIR_EXISTS, DIR_NOT_EMPTY, DIR_NOT_FOUND, FILE_NOT_FOUND,
    INVALID_DIR_NAME, INVALID_FILE_NAME, PARENT_NOT_FOUND,
};

fn names(v: &[&str]) -> Vec<String> {
    v.iter().map(|s| s.to_string()).collect()
}

#[test]
fn new_filesystem_is_empty_at_root() {
    let fs = Ramfs::new();
    assert_eq!(fs.pwd(), "/");
    assert_eq!(fs.list_dir("/"), Ok((vec![], vec![])));
    assert_eq!(fs.list_dir("."), Err(DIR_NOT_FOUND));
}

#[test]
fn dir_entry_new_is_empty() {
    let d = DirEntry::new();
    assert!(d.files.is_empty());
    assert!(d.subdirs.is_empty());
}

#[test]
fn mkdir_then_list() {
    let mut fs = Ramfs::new();
    assert_eq!(fs.mkdir("home"), Ok(()));
    let (dirs, files) = fs.list_dir("/").unwrap();
    assert_eq!(dirs, names(&["home"]));
    assert!(files.is_empty());
}

#[test]
fn mkdir_errors() {
    let mut fs = Ramfs::new();
    assert_eq!(fs.mkdir("a/"), Err(INVALID_DIR_NAME));
    assert_eq!(fs.mkdir("x/y"), Err(PARENT_NOT_FOUND));
    assert_eq!(fs.mkdir("a"), Ok(()));
    assert_eq!(fs.mkdir("/a"), Err(DIR_EXISTS));
    assert_eq!(fs.mkdir("a/b"), Ok(()));
    assert_eq!(fs.mkdir("/a//c"), Ok(()));
    assert_eq!(fs.list_dir("/a"), Ok((names(&["b", "c"]), vec![])));
}

#[test]
fn listing_is_sorted() {
    let mut fs = Ramfs::new();
    for d in ["banana", "apple", "cherry", "Zebra"] {
        assert_eq!(fs.mkdir(d), Ok(()));
    }
    for f in ["z.txt", "b.txt", "a.txt"] {
        assert_eq!(fs.create_file(f), Ok(()));
    }
    let (dirs, files) = fs.list_dir("/").unwrap();
    assert_eq!(dirs, names(&["Zebra", "apple", "banana", "cherry"]));
    assert_eq!(files, names(&["a.txt", "b.txt", "z.txt"]));
}

#[test]
fn create_file_errors_and_idempotence() {
    let mut fs = Ramfs::new();
    assert_eq!(fs.create_file("dir/"), Err(INVALID_FILE_NAME));
    assert_eq!(fs.create_file("/nope/f"), Err(PARENT_NOT_FOUND));
    assert_eq!(fs.create_file("f"), Ok(()));
    assert_eq!(fs.write_file("f", b"abc"), Ok(()));
    assert_eq!(fs.create_file("f"), Ok(()));
    assert_eq!(fs.read_file("f"), Ok(&b"abc"[..]));
}

#[test]
fn write_appends_and_read_returns_all() {
    let mut fs = Ramfs::new();
    fs.create_file("/notes").unwrap();
    assert_eq!(fs.read_file("/notes"), Ok(&b""[..]));
    assert_eq!(fs.write_file("/notes", b"hello"), Ok(()));
    assert_eq!(fs.write_file("notes", b" world"), Ok(()));
    assert_eq!(fs.read_file("/notes"), Ok(&b"hello world"[..]));
    assert_eq!(fs.file_info("/notes"), Ok((11,)));
}

#[test]
fn file_errors() {
    let mut fs = Ramfs::new();
    assert_eq!(fs.write_file("/missing", b"x"), Err(FILE_NOT_FOUND));
    assert_eq!(fs.write_file("/no/such", b"x"), Err(PARENT_NOT_FOUND));
    assert_eq!(fs.read_file("/missing"), Err(FILE_NOT_FOUND));
    assert_eq!(fs.read_file("/no/such"), Err(PARENT_NOT_FOUND));
    assert_eq!(fs.file_info("/missing"), Err(FILE_NOT_FOUND));
    assert_eq!(fs.delete_file("/missing"), Err(FILE_NOT_FOUND));
    assert_eq!(fs.delete_file("/no/such"), Err(PARENT_NOT_FOUND));
    assert_eq!(fs.write_file("/", b"x"), Err(FILE_NOT_FOUND));
}

#[test]
fn delete_file_removes_it() {
    let mut fs = Ramfs::new();
    fs.create_file("a").unwrap();
    fs.create_file("b").unwrap();
    assert_eq!(fs.delete_file("/a"), Ok(()));
    assert_eq!(fs.read_file("a"), Err(FILE_NOT_FOUND));
    assert_eq!(fs.list_dir("/"), Ok((vec![], names(&["b"]))));
}

#[test]
fn create_then_delete_restores_listing() {
    let mut fs = Ramfs::new();
    fs.create_file("keep").unwrap();
    let before = fs.list_dir("/").unwrap();
    fs.create_file("temp").unwrap();
    fs.delete_file("temp").unwrap();
    assert_eq!(fs.list_dir("/").unwrap(), before);
}

#[test]
fn rmdir_rules() {
    let mut fs = Ramfs::new();
    assert_eq!(fs.rmdir("/a"), Err(DIR_NOT_FOUND));
    assert_eq!(fs.rmdir("/x/a"), Err(PARENT_NOT_FOUND));
    fs.mkdir("a").unwrap();
    fs.mkdir("a/b").unwrap();
    assert_eq!(fs.rmdir("a"), Err(DIR_NOT_EMPTY));
    assert_eq!(fs.rmdir("a/b"), Ok(()));
    fs.create_file("a/f").unwrap();
    assert_eq!(fs.rmdir("a"), Err(DIR_NOT_EMPTY));
    fs.delete_file("a/f").unwrap();
    assert_eq!(fs.rmdir("a"), Ok(()));
    assert_eq!(fs.list_dir("/"), Ok((vec![], vec![])));
}

#[test]
fn mkdir_then_rmdir_restores_listing() {
    let mut fs = Ramfs::new();
    fs.mkdir("x").unwrap();
    fs.mkdir("z").unwrap();
    let before = fs.list_dir("/").unwrap();
    fs.mkdir("y").unwrap();
    assert_eq!(fs.list_dir("/").unwrap().0, names(&["x", "y", "z"]));
    fs.rmdir("y").unwrap();
    assert_eq!(fs.list_dir("/").unwrap(), before);
}

#[test]
fn files_and_dirs_may_share_a_name() {
    let mut fs = Ramfs::new();
    fs.mkdir("same").unwrap();
    assert_eq!(fs.create_file("same"), Ok(()));
    assert_eq!(fs.list_dir("/"), Ok((names(&["same"]), names(&["same"]))));
}

#[test]
fn cd_and_pwd() {
    let mut fs = Ramfs::new();
    fs.mkdir("home").unwrap();
    fs.mkdir("home/user").unwrap();
    assert_eq!(fs.cd("home"), Ok(()));
    assert_eq!(fs.pwd(), "/home");
    assert_eq!(fs.cd("user"), Ok(()));
    assert_eq!(fs.pwd(), "/home/user");
    assert_eq!(fs.cd(".."), Ok(()));
    assert_eq!(fs.pwd(), "/home");
    assert_eq!(fs.cd(".."), Ok(()));
    assert_eq!(fs.pwd(), "/");
    assert_eq!(fs.cd(".."), Ok(()));
    assert_eq!(fs.pwd(), "/");
    assert_eq!(fs.cd("/nowhere"), Err(DIR_NOT_FOUND));
    assert_eq!(fs.pwd(), "/");
    assert_eq!(fs.cd("/home/user"), Ok(()));
    assert_eq!(fs.pwd(), "/home/user");
}

#[test]
fn cd_keeps_the_path_as_written() {
    let mut fs = Ramfs::new();
    fs.mkdir("a").unwrap();
    assert_eq!(fs.cd("a/"), Ok(()));
    assert_eq!(fs.pwd(), "/a/");
    assert_eq!(fs.cd(".."), Ok(()));
    assert_eq!(fs.pwd(), "/a");
    assert_eq!(fs.cd("/"), Ok(()));
    assert_eq!(fs.pwd(), "/");
}

#[test]
fn relative_paths_use_the_working_directory() {
    let mut fs = Ramfs::new();
    fs.mkdir("d").unwrap();
    fs.cd("d").unwrap();
    fs.create_file("f").unwrap();
    fs.write_file("f", b"1").unwrap();
    assert_eq!(fs.read_file("/d/f"), Ok(&b"1"[..]));
    assert_eq!(fs.list_dir("/d"), Ok((vec![], names(&["f"]))));
}

#[test]
fn default_layout() {
    let mut fs = Ramfs::new();
    create_default_layout(&mut fs);
    assert_eq!(fs.list_dir("/"), Ok((names(&["etc", "home", "tmp"]), vec![])));
    assert_eq!(fs.read_file("/etc/hostname"), Ok(&b"nexus\n"[..]));
    assert_eq!(fs.read_file("/etc/version"), Ok(&b"NexusOS 0.1.0\n"[..]));
    assert_eq!(fs.file_info("/etc/version"), Ok((14,)));
}

#[test]
fn fresh_file_is_empty_and_two_writes_append_in_order() {
    let mut fs = Ramfs::new();
    fs.mkdir("etc").unwrap();
    assert_eq!(fs.create_file("/etc/motd"), Ok(()));
    assert_eq!(fs.read_file("/etc/motd"), Ok(&b""[..]));
    assert_eq!(fs.file_info("/etc/motd"), Ok((0,)));
    assert_eq!(fs.write_file("/etc/motd", b"ab"), Ok(()));
    assert_eq!(fs.read_file("/etc/motd"), Ok(&b"ab"[..]));
    assert_eq!(fs.write_file("/etc/motd", b"cde"), Ok(()));
    assert_eq!(fs.read_file("/etc/motd"), Ok(&b"abcde"[..]));
    assert_eq!(fs.file_info("/etc/motd"), Ok((5,)));
}
