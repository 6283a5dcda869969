use disk::path::{is_sep_byte, is_separator, is_verbatim_sep, parse_prefix};
use disk::path::{Component, Path, PathBuf, Prefix};

fn names(path: &str) -> Vec<String> {
    let mut out = Vec::new();
    let mut it = Path::new(path).components();
    while let Some(c) = it.next() {
        out.push(match c {
            Component::Prefix(_) => "prefix".to_string(),
            Component::RootDir => "/".to_string(),
            Component::CurDir => ".".to_string(),
            Component::ParentDir => "..".to_string(),
            Component::Normal(n) => String::from_utf8(n.to_vec()).unwrap(),
        });
    }
    out
}

fn names_back(path: &str) -> Vec<String> {
    let mut out = Vec::new();
    let mut it = Path::new(path).iter();
    while let Some(c) = it.next_back() {
        out.push(String::from_utf8(c.to_vec()).unwrap());
    }
    out.reverse();
    out
}

fn parent(path: &str) -> Option<Vec<u8>> {
    Path::new(path).parent().map(|p| p.as_os_str().to_vec())
}

fn bytes(s: &str) -> Option<Vec<u8>> {
    Some(s.as_bytes().to_vec())
}

#[test]
fn separators() {
    assert!(is_sep_byte(b'/'));
    assert!(!is_sep_byte(b'\\'));
    assert!(is_verbatim_sep(b'/'));
    assert!(!is_verbatim_sep(b'.'));
    assert!(is_separator('/'));
    assert!(!is_separator('\\'));
    assert!(!is_separator('a'));
    assert!(parse_prefix(b"c:/x").is_none());
    assert!(Path::new("c:/x").prefix().is_none());
}

#[test]
fn prefixes() {
    assert_eq!(Prefix::Disk(b'C').len(), Some(2));
    assert_eq!(Prefix::VerbatimDisk(b'C').len(), Some(6));
    assert_eq!(Prefix::Verbatim(b"pic").len(), Some(7));
    assert_eq!(Prefix::DeviceNS(b"COM42").len(), Some(9));
    assert_eq!(Prefix::UNC(b"server", b"share").len(), Some(14));
    assert_eq!(Prefix::UNC(b"server", b"").len(), Some(8));
    assert_eq!(Prefix::VerbatimUNC(b"server", b"share").len(), Some(20));
    assert!(Prefix::Verbatim(b"x").is_verbatim());
    assert!(Prefix::VerbatimDisk(b'C').is_verbatim());
    assert!(Prefix::VerbatimUNC(b"a", b"b").is_verbatim());
    assert!(!Prefix::Disk(b'C').is_verbatim());
    assert!(!Prefix::UNC(b"a", b"b").is_verbatim());
    assert!(Prefix::Disk(b'C').is_drive());
    assert!(!Prefix::Disk(b'C').has_implicit_root());
    assert!(Prefix::DeviceNS(b"x").has_implicit_root());
}

#[test]
fn components_from_the_front() {
    assert_eq!(names("/tmp/foo/bar.txt"), ["/", "tmp", "foo", "bar.txt"]);
    assert_eq!(names("tmp//foo/./bar/"), ["tmp", "foo", "bar"]);
    assert_eq!(names("./a/../b"), [".", "a", "..", "b"]);
    assert_eq!(names("."), ["."]);
    assert_eq!(names(".."), [".."]);
    assert_eq!(names("/"), ["/"]);
    assert_eq!(names("///"), ["/"]);
    assert_eq!(names("/./."), ["/"]);
    assert_eq!(names(""), Vec::<String>::new());
    assert_eq!(names(".a/b"), [".a", "b"]);
    assert_eq!(names("a/./."), ["a"]);
    assert_eq!(names("..."), ["..."]);
}

#[test]
fn components_from_the_back() {
    for p in ["/tmp/foo/bar.txt", "tmp//foo/./bar/", "./a/../b", ".", "..", "/", "///", "", ".a/b", "./", "a/./."] {
        assert_eq!(names_back(p), names(p), "{}", p);
    }
}

#[test]
fn components_from_both_ends() {
    let path = Path::new("/a/b/c");
    let mut it = path.components();
    assert!(matches!(it.next_back(), Some(Component::Normal(b"c"))));
    assert!(matches!(it.next(), Some(Component::RootDir)));
    assert!(matches!(it.peek(), Some(Component::Normal(b"a"))));
    assert_eq!(it.as_path().as_os_str(), b"a/b");
    assert!(matches!(it.next(), Some(Component::Normal(b"a"))));
    assert!(matches!(it.next_back(), Some(Component::Normal(b"b"))));
    assert!(it.next().is_none());
    assert!(it.next_back().is_none());
    assert!(it.peek().is_none());
    assert_eq!(it.as_path().as_os_str(), b"");
    let mut it = Path::new("./x").iter();
    assert_eq!(it.next_back(), Some(&b"x"[..]));
    assert_eq!(it.as_path().as_os_str(), b".");
    assert_eq!(it.next_back(), Some(&b"."[..]));
    assert_eq!(it.next_back(), None);
    assert_eq!(it.next(), None);
    let mut it = Path::new("/x").iter();
    assert_eq!(it.next(), Some(&b"/"[..]));
    assert_eq!(it.next(), Some(&b"x"[..]));
    assert_eq!(it.next(), None);
}

#[test]
fn component_texts() {
    assert_eq!(Component::RootDir.as_os_str(), b"/");
    assert_eq!(Component::CurDir.as_os_str(), b".");
    assert_eq!(Component::ParentDir.as_os_str(), b"..");
    assert_eq!(Component::Normal(b"abc").as_os_str(), b"abc");
}

#[test]
fn rest_of_an_iteration() {
    let path = Path::new("/tmp//foo/bar.txt//");
    let mut it = path.components();
    assert_eq!(it.as_path().as_os_str(), b"/tmp//foo/bar.txt");
    it.next();
    assert_eq!(it.as_path().as_os_str(), b"tmp//foo/bar.txt");
    it.next();
    assert_eq!(it.as_path().as_os_str(), b"foo/bar.txt");
    it.next_back();
    assert_eq!(it.as_path().as_os_str(), b"foo");
}

#[test]
fn parents() {
    assert_eq!(parent("/foo/bar"), bytes("/foo"));
    assert_eq!(parent("/foo"), bytes("/"));
    assert_eq!(parent("/"), None);
    assert_eq!(parent(""), None);
    assert_eq!(parent("foo"), bytes(""));
    assert_eq!(parent("foo/bar//"), bytes("foo"));
    assert_eq!(parent("foo//./bar/."), bytes("foo"));
    assert_eq!(parent("./a"), bytes("."));
    assert_eq!(parent("."), bytes(""));
    assert_eq!(parent(".."), bytes(""));
    assert_eq!(parent("a/.."), bytes("a"));
    assert_eq!(parent("/nope/x"), bytes("/nope"));
}

#[test]
fn file_names() {
    let name = |p: &'static str| Path::new(p).file_name().map(|n| n.to_vec());
    assert_eq!(name("foo.txt"), bytes("foo.txt"));
    assert_eq!(name("/a/b/"), bytes("b"));
    assert_eq!(name("/a/b/."), bytes("b"));
    assert_eq!(name("/a/.."), None);
    assert_eq!(name("/"), None);
    assert_eq!(name("."), None);
    assert_eq!(name(""), None);
}

#[test]
fn stems_and_extensions() {
    let stem = |p: &'static str| Path::new(p).file_stem().map(|n| n.to_vec());
    let ext = |p: &'static str| Path::new(p).extension().map(|n| n.to_vec());
    assert_eq!(stem("foo.rs"), bytes("foo"));
    assert_eq!(ext("foo.rs"), bytes("rs"));
    assert_eq!(stem("/x/foo.tar.gz"), bytes("foo.tar"));
    assert_eq!(ext("/x/foo.tar.gz"), bytes("gz"));
    assert_eq!(stem("foo"), bytes("foo"));
    assert_eq!(ext("foo"), None);
    assert_eq!(stem(".profile"), bytes(".profile"));
    assert_eq!(ext(".profile"), None);
    assert_eq!(stem("foo."), bytes("foo"));
    assert_eq!(ext("foo."), bytes(""));
    assert_eq!(stem(".."), None);
    assert_eq!(ext(".."), None);
    assert_eq!(stem("..."), bytes(".."));
    assert_eq!(ext("..."), bytes(""));
    assert_eq!(stem("/"), None);
}

#[test]
fn roots() {
    assert!(Path::new("/etc/passwd").has_root());
    assert!(Path::new("/etc/passwd").is_absolute());
    assert!(!Path::new("/etc/passwd").is_relative());
    assert!(!Path::new("foo.txt").has_root());
    assert!(Path::new("foo.txt").is_relative());
    assert!(!Path::new("").is_absolute());
}

#[test]
fn prefixes_and_suffixes_of_components() {
    let path = Path::new("/etc/passwd");
    assert!(path.starts_with(Path::new("/etc")));
    assert!(path.starts_with(Path::new("/etc/")));
    assert!(path.starts_with(Path::new("/etc/passwd")));
    assert!(path.starts_with(Path::new("/")));
    assert!(path.starts_with(Path::new("")));
    assert!(!path.starts_with(Path::new("/e")));
    assert!(!path.starts_with(Path::new("etc")));
    assert!(!path.starts_with(Path::new("/etc/passwd/x")));
    assert!(path.ends_with(Path::new("passwd")));
    assert!(path.ends_with(Path::new("etc/passwd")));
    assert!(path.ends_with(Path::new("/etc/passwd")));
    assert!(path.ends_with(Path::new("")));
    assert!(!path.ends_with(Path::new("asswd")));
    assert!(!path.ends_with(Path::new("/passwd")));
    assert!(!path.ends_with(Path::new("x/etc/passwd")));
}

#[test]
fn relative_paths() {
    let rel = |p: &'static str, b: &'static str| {
        Path::new(p).relative_from(Path::new(b)).map(|r| r.as_os_str().to_vec())
    };
    assert_eq!(rel("/src/a/b.txt", "/src"), bytes("a/b.txt"));
    assert_eq!(rel("/src/a/b.txt/", "/src/"), bytes("a/b.txt"));
    assert_eq!(rel("/src//a", "/src"), bytes("a"));
    assert_eq!(rel("/src", "/src"), bytes(""));
    assert_eq!(rel("/src/a", "/other"), None);
    assert_eq!(rel("src/a", "/src"), None);
    assert_eq!(rel("a/b", ""), bytes("a/b"));
}

#[test]
fn pushing() {
    let mut buf = PathBuf::new();
    assert_eq!(buf.as_path().as_os_str(), b"");
    buf.push(Path::new("a"));
    assert_eq!(buf.as_path().as_os_str(), b"a");
    buf.push(Path::new("b"));
    assert_eq!(buf.as_path().as_os_str(), b"a/b");
    buf.push(Path::new(""));
    assert_eq!(buf.as_path().as_os_str(), b"a/b/");
    buf.push(Path::new("c"));
    assert_eq!(buf.as_path().as_os_str(), b"a/b/c");
    buf.push(Path::new("/etc"));
    assert_eq!(buf.as_path().as_os_str(), b"/etc");
    assert_eq!(Path::new("/etc").join(Path::new("passwd")), PathBuf::from_str("/etc/passwd"));
    assert_eq!(Path::new("/").join(Path::new("x")).into_os_string(), b"/x".to_vec());
}

#[test]
fn popping() {
    let mut buf = PathBuf::from_str("/a/b//");
    assert!(buf.pop());
    assert_eq!(buf.as_path().as_os_str(), b"/a");
    assert!(buf.pop());
    assert_eq!(buf.as_path().as_os_str(), b"/");
    assert!(!buf.pop());
    assert_eq!(buf.as_path().as_os_str(), b"/");
}

#[test]
fn setting_names() {
    let mut buf = PathBuf::from_str("/");
    assert!(buf.as_path().file_name().is_none());
    buf.set_file_name(b"bar");
    assert_eq!(buf, PathBuf::from_str("/bar"));
    buf.set_file_name(b"baz.txt");
    assert_eq!(buf.clone().into_os_string(), b"/baz.txt".to_vec());
    assert!(buf.set_extension(b"rs"));
    assert_eq!(buf.clone().into_os_string(), b"/baz.rs".to_vec());
    assert!(buf.set_extension(b""));
    assert_eq!(buf.clone().into_os_string(), b"/baz".to_vec());
    assert!(buf.set_extension(b"disk"));
    assert_eq!(buf.clone().into_os_string(), b"/baz.disk".to_vec());
    let mut root = PathBuf::from_str("/");
    assert!(!root.set_extension(b"x"));
    assert_eq!(root.into_os_string(), b"/".to_vec());
    assert_eq!(
        Path::new("/tmp/foo.txt").with_file_name(b"bar.txt").into_os_string(),
        b"/tmp/bar.txt".to_vec()
    );
    assert_eq!(Path::new("foo.rs").with_extension(b"txt").into_os_string(), b"foo.txt".to_vec());
    assert_eq!(Path::new("bin/fs/").with_extension(b"disk").into_os_string(), b"bin/fs.disk".to_vec());
    assert_eq!(Path::new("..").with_extension(b"txt").into_os_string(), b"..".to_vec());
}

#[test]
fn paths_are_equal_by_their_components() {
    assert_eq!(PathBuf::from_str("/a//b/"), PathBuf::from_str("/a/b"));
    assert_eq!(PathBuf::from_str("a/./b"), PathBuf::from_str("a/b"));
    assert_ne!(PathBuf::from_str("/a/b"), PathBuf::from_str("a/b"));
    assert_ne!(PathBuf::from_str("./a"), PathBuf::from_str("a"));
    assert_ne!(PathBuf::from_str("a/b"), PathBuf::from_str("a/b/c"));
    assert_ne!(PathBuf::from_str("a/b/c"), PathBuf::from_str("a/b"));
    assert!(Path::new("x//y") == Path::new("x/y"));
    assert!(Path::new("x//y") != Path::new("x/z"));
    assert_eq!(Path::new("/a/b").to_path_buf(), PathBuf::from_bytes(b"/a/b".to_vec()));
}

#[test]
fn text_of_a_path() {
    assert_eq!(Path::new("foo.txt").to_str(), Some("foo.txt"));
    assert_eq!(Path::from_bytes(b"caf\xc3\xa9").to_str(), Some("caf\u{e9}"));
    assert_eq!(Path::from_bytes(b"a\xffb").to_str(), None);
    assert_eq!(Path::from_bytes(b"\xc3").to_str(), None);
    assert_eq!(Path::new("/tmp/foo.rs").display().to_string_lossy(), "/tmp/foo.rs");
    assert_eq!(Path::new("foo.txt").to_string_lossy(), "foo.txt");
    assert_eq!(Path::from_bytes(b"\xc3(").to_string_lossy(), "\u{fffd}(");
    assert_eq!(Path::from_bytes(b"a\xffb").display().to_string_lossy(), "a\u{fffd}b");
}
