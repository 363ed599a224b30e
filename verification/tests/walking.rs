use globby::{FsWalker, NoIncomingDir, Pattern, PatternOpts, WalkRequest, Walker};
use std::collections::BTreeMap;

/// Directories by path, each with the names of its entries and whether they are
/// directories.
type Tree = BTreeMap<&'static str, Vec<(&'static str, bool)>>;

struct Walk {
    yielded: Vec<String>,
    opened: Vec<String>,
}

fn text(bytes: Vec<u8>) -> String {
    String::from_utf8(bytes).unwrap()
}

/// Drives a walker over a tree, as a traversal of the filesystem would.
fn drive(mut walker: Walker, tree: &Tree) -> Walk {
    let mut walk = Walk {
        yielded: vec![],
        opened: vec![],
    };
    let mut open: Vec<std::vec::IntoIter<(&'static str, bool)>> = vec![];
    loop {
        match walker.request() {
            WalkRequest::Stop => break,
            WalkRequest::OpenDir(path) => {
                let path = text(path);
                match tree.get(path.as_str()) {
                    Some(entries) => {
                        open.push(entries.clone().into_iter());
                        walker.dir_opened();
                    }
                    None => walker.dir_failed(),
                }
                walk.opened.push(path);
            }
            WalkRequest::ReadEntry => match open.last_mut().unwrap().next() {
                Some((name, is_dir)) => {
                    if let Some(path) = walker.entry(name.as_bytes(), is_dir) {
                        walk.yielded.push(text(path));
                    }
                }
                None => {
                    open.pop();
                    walker.dir_exhausted();
                }
            },
        }
    }
    assert!(open.is_empty());
    walk
}

fn walk(pattern: &str, base_dir: &str, walk_from: &str, tree: &Tree) -> Walk {
    let pattern = Pattern::new(pattern).unwrap();
    drive(
        Walker::new(pattern, base_dir.as_bytes(), walk_from.as_bytes()),
        tree,
    )
}

fn sorted(mut names: Vec<String>) -> Vec<String> {
    names.sort();
    names
}

fn sample() -> Tree {
    let mut tree = Tree::new();
    tree.insert("/base", vec![("file.txt", false), ("dir", true)]);
    tree.insert("/base/dir", vec![("nested.txt", false), ("skip.log", false)]);
    tree
}

#[test]
fn text_files_anywhere() {
    let walk = walk("**/*.txt", "/base", "/base", &sample());
    assert_eq!(
        sorted(walk.yielded),
        vec!["dir/nested.txt".to_string(), "file.txt".to_string()]
    );
    assert_eq!(
        walk.opened,
        vec!["/base".to_string(), "/base/dir".to_string()]
    );
}

#[test]
fn entries_of_the_parent_directory() {
    let mut tree = Tree::new();
    tree.insert("/x", vec![("y", true), ("z", false), ("w", true)]);
    tree.insert("/x/y", vec![("inner", false)]);
    tree.insert("/x/w", vec![("deep", false)]);
    let pattern = Pattern::new("../*").unwrap();
    assert_eq!(pattern.common_root_dir(), "..");
    let walk = drive(Walker::new(pattern, b"/x/y", b"/x"), &tree);
    assert_eq!(
        sorted(walk.yielded),
        vec!["../w".to_string(), "../z".to_string()]
    );
    assert_eq!(walk.opened, vec!["/x".to_string()]);
}

#[test]
fn below_the_parent_directory_with_a_wildcard() {
    let mut tree = Tree::new();
    tree.insert("/x", vec![("y", true), ("z", false)]);
    tree.insert("/x/y", vec![("inner", false)]);
    let walk = walk("../**", "/x/y", "/x", &tree);
    // The base directory itself is left out, what is below it is not
    assert_eq!(
        sorted(walk.yielded),
        vec!["../y/inner".to_string(), "../z".to_string()]
    );
    assert_eq!(walk.opened, vec!["/x".to_string(), "/x/y".to_string()]);
}

#[test]
fn matched_directories_are_leaves_without_a_wildcard() {
    let mut tree = Tree::new();
    tree.insert("/b", vec![("a", true), ("c", true)]);
    tree.insert("/b/a", vec![("d", true), ("f", false)]);
    tree.insert("/b/a/d", vec![("deep", false)]);
    tree.insert("/b/c", vec![("f", false)]);
    let pattern = Pattern::new("a/*").unwrap();
    assert!(!pattern.has_wildcard());
    assert_eq!(pattern.common_root_dir(), "a");
    let walk = drive(Walker::new(pattern, b"/b", b"/b/a"), &tree);
    assert_eq!(
        sorted(walk.yielded),
        vec!["a/d".to_string(), "a/f".to_string()]
    );
    assert_eq!(walk.opened, vec!["/b/a".to_string()]);
}

#[test]
fn directories_that_cannot_match_are_not_opened() {
    let mut tree = Tree::new();
    tree.insert("/b", vec![("a", true), ("c", true), ("ab", true)]);
    tree.insert("/b/a", vec![("x.rs", false), ("sub", true)]);
    tree.insert("/b/a/sub", vec![("y.rs", false)]);
    tree.insert("/b/ab", vec![("z.rs", false), ("z.txt", false)]);
    tree.insert("/b/c", vec![("never.rs", false)]);
    let walk = walk("a*/*.rs", "/b", "/b", &tree);
    assert_eq!(
        sorted(walk.yielded),
        vec!["a/x.rs".to_string(), "ab/z.rs".to_string()]
    );
    assert_eq!(
        sorted(walk.opened),
        vec!["/b".to_string(), "/b/a".to_string(), "/b/ab".to_string()]
    );
}

#[test]
fn a_directory_is_yielded_before_its_content() {
    let mut tree = Tree::new();
    tree.insert("/b", vec![("d", true), ("e", true)]);
    tree.insert("/b/d", vec![("f", false), ("g", true)]);
    tree.insert("/b/d/g", vec![("h", false)]);
    tree.insert("/b/e", vec![]);
    let walk = walk("**", "/b", "/b", &tree);
    assert_eq!(
        walk.yielded,
        vec![
            "d".to_string(),
            "d/f".to_string(),
            "d/g".to_string(),
            "d/g/h".to_string(),
            "e".to_string()
        ]
    );
}

#[test]
fn absolute_patterns_yield_absolute_paths() {
    let mut tree = Tree::new();
    tree.insert("/srv", vec![("www", true), ("log", false)]);
    tree.insert("/srv/www", vec![("index.html", false)]);
    let pattern = Pattern::new("/srv/**/*.html").unwrap();
    assert!(pattern.is_absolute());
    assert_eq!(pattern.common_root_dir(), "/srv");
    let walk = drive(Walker::new(pattern, b"/home/me", b"/srv"), &tree);
    assert_eq!(walk.yielded, vec!["/srv/www/index.html".to_string()]);
    assert_eq!(
        walk.opened,
        vec!["/srv".to_string(), "/srv/www".to_string()]
    );
}

#[test]
fn a_directory_that_cannot_be_opened_is_given_up() {
    let mut tree = Tree::new();
    tree.insert("/b", vec![("locked", true), ("open", true)]);
    tree.insert("/b/open", vec![("f", false)]);
    let walk = walk("**/f", "/b", "/b", &tree);
    assert_eq!(walk.yielded, vec!["open/f".to_string()]);
    assert_eq!(
        walk.opened,
        vec![
            "/b".to_string(),
            "/b/locked".to_string(),
            "/b/open".to_string()
        ]
    );
}

#[test]
fn a_walker_without_state_yields_nothing() {
    let unresolved = Walker::unresolved();
    assert!(unresolved.is_invalid());
    assert_eq!(unresolved.request(), WalkRequest::Stop);
    let walk = drive(unresolved, &sample());
    assert!(walk.yielded.is_empty());
    assert!(walk.opened.is_empty());

    let pattern = || Pattern::new("*").unwrap();
    assert!(Walker::new(pattern(), b"relative", b"/base").is_invalid());
    assert!(Walker::new(pattern(), b"/base", b"relative").is_invalid());
    assert!(Walker::new(pattern(), b"/base", b"C:/base").is_invalid());
    assert!(Walker::new(pattern(), b"\\\\server\\share", b"/base").is_invalid());
    assert!(!Walker::new(pattern(), b"/base", b"/base").is_invalid());
    assert!(!Walker::new(pattern(), b"C:/base", b"c:\\").is_invalid());
}

#[test]
fn reports_out_of_turn_change_nothing() {
    let mut walker = Walker::new(Pattern::new("**").unwrap(), b"/b", b"/b");
    assert_eq!(walker.request(), WalkRequest::OpenDir(b"/b".to_vec()));
    // No directory is open yet
    assert_eq!(walker.entry(b"x", true), None);
    walker.dir_exhausted();
    assert_eq!(walker.request(), WalkRequest::OpenDir(b"/b".to_vec()));
    walker.dir_opened();
    assert_eq!(walker.request(), WalkRequest::ReadEntry);
    assert_eq!(walker.entry(b"x", true), Some(b"x".to_vec()));
    assert_eq!(walker.request(), WalkRequest::OpenDir(b"/b/x".to_vec()));
    // A directory waits to be opened
    assert_eq!(walker.entry(b"y", true), None);
    assert_eq!(walker.request(), WalkRequest::OpenDir(b"/b/x".to_vec()));
    walker.dir_failed();
    assert_eq!(walker.request(), WalkRequest::ReadEntry);
    walker.dir_exhausted();
    assert_eq!(walker.request(), WalkRequest::Stop);
}

#[test]
fn case_insensitive_walk() {
    let mut tree = Tree::new();
    tree.insert("/b", vec![("README.md", false), ("Src", true)]);
    tree.insert("/b/Src", vec![("Main.RS", false)]);
    let pattern = Pattern::new_with_opts(
        "src/*.rs",
        PatternOpts {
            case_insensitive: true,
        },
    )
    .unwrap();
    assert_eq!(pattern.common_root_dir(), "");
    let walk = drive(Walker::new(pattern, b"/b", b"/b"), &tree);
    assert_eq!(walk.yielded, vec!["Src/Main.RS".to_string()]);
}

#[test]
fn common_root_directories() {
    let root = |text: &str| Pattern::new(text).unwrap().common_root_dir().to_string();
    assert_eq!(root("/a/b/*.txt"), "/a/b");
    assert_eq!(root("a/b"), "a");
    assert_eq!(root("a"), "");
    assert_eq!(root(""), "");
    assert_eq!(root("/a"), "/");
    assert_eq!(root("/"), "/");
    assert_eq!(root("a/*/b"), "a");
    assert_eq!(root("**/a"), "");
    assert_eq!(root("../a/*"), "../a");
    assert_eq!(root("../../*"), "../..");
    assert_eq!(root("../a"), "..");
    assert_eq!(root("c:/x/y/**"), "C:/x/y");
    assert_eq!(root("c:/**"), "C:/");
    assert_eq!(root("\\\\?\\c:\\x\\*"), "C:/x");
    assert_eq!(root("c:/x"), "C:/");
    assert_eq!(root("x/{a|b}/y"), "x");
}

#[test]
fn wildcards_are_found() {
    assert!(Pattern::new("a/**/b").unwrap().has_wildcard());
    assert!(Pattern::new("**").unwrap().has_wildcard());
    assert!(!Pattern::new("a/*/b").unwrap().has_wildcard());
    assert!(!Pattern::new("").unwrap().has_wildcard());
}

#[test]
fn every_entry_walk() {
    let mut walker = FsWalker::new(b"/top".to_vec());
    assert_eq!(walker.request(), WalkRequest::OpenDir(b"/top".to_vec()));
    walker.dir_opened();
    assert_eq!(walker.request(), WalkRequest::ReadEntry);
    walker.entry(b"/top/file", false);
    assert_eq!(walker.request(), WalkRequest::ReadEntry);
    walker.entry(b"/top/dir", true);
    assert_eq!(walker.request(), WalkRequest::OpenDir(b"/top/dir".to_vec()));
    assert_eq!(walker.skip_incoming_dir(), Ok(b"/top/dir".to_vec()));
    assert_eq!(walker.skip_incoming_dir(), Err(NoIncomingDir));
    assert_eq!(walker.request(), WalkRequest::ReadEntry);
    walker.entry(b"/top/other", true);
    walker.dir_opened();
    walker.dir_exhausted();
    assert_eq!(walker.request(), WalkRequest::ReadEntry);
    walker.entry(b"/top/gone", true);
    walker.dir_failed();
    assert_eq!(walker.request(), WalkRequest::ReadEntry);
    walker.dir_exhausted();
    assert_eq!(walker.request(), WalkRequest::Stop);
    walker.dir_exhausted();
    walker.entry(b"/late", true);
    assert_eq!(walker.request(), WalkRequest::Stop);
}

#[test]
fn the_root_of_a_drive_pattern_is_on_the_drive() {
    let drive_c = globby::PathPrefix::WindowsDrive(globby::WindowsDrive::try_from('c').unwrap());
    let components = vec![
        globby::Component::Literal("a".to_string()),
        globby::Component::Wildcard,
    ];
    let root = globby::build_common_root_dir(Some(drive_c), &components);
    assert_eq!(root, "C:/a");
    let read = globby::normalize_path(root.as_bytes()).unwrap();
    assert_eq!(read.prefix(), Some(drive_c));
    assert_eq!(read.components().to_vec(), vec![b"a".to_vec()]);
}

#[test]
fn names_are_normalized_before_they_are_matched() {
    let mut tree = Tree::new();
    tree.insert("/b", vec![("a\\b", false), ("a", true), ("c:", false)]);
    tree.insert("/b/a", vec![("b", false)]);
    let walk = walk("a/b", "/b", "/b", &tree);
    // A separator inside a name parts components as it does in any path
    assert_eq!(
        Pattern::new("a/b").unwrap().match_against(b"a\\b"),
        globby::PatternMatchResult::Matched
    );
    assert_eq!(
        sorted(walk.yielded),
        vec!["a/b".to_string(), "a\\b".to_string()]
    );
    // A name that reads as a drive makes an absolute path, which matches nothing here
    let mut tree = Tree::new();
    tree.insert("/b", vec![("c:", true), ("d", false)]);
    let walk = walk_all("*", "/b", &tree);
    assert_eq!(walk.yielded, vec!["d".to_string()]);
    assert_eq!(walk.opened, vec!["/b".to_string()]);
}

fn walk_all(pattern: &str, base_dir: &str, tree: &Tree) -> Walk {
    walk(pattern, base_dir, base_dir, tree)
}
