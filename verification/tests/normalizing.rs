use globby::paths::{append_bytes, join_names, path_bytes};
use globby::{
    diff_path, normalize_path, strip_windows_drive, NormalizedPath, OpaqueOsStr, PathPrefix,
    UnsupportedWindowsPrefix, WindowsDrive,
};

fn drive(letter: char) -> PathPrefix {
    PathPrefix::WindowsDrive(WindowsDrive::try_from(letter).unwrap())
}

fn normal(path: &str) -> NormalizedPath {
    normalize_path(path.as_bytes()).unwrap()
}

fn parts(path: &str) -> (Option<PathPrefix>, Vec<String>) {
    let found = normal(path);
    let names = found
        .components()
        .iter()
        .map(|name| String::from_utf8(name.clone()).unwrap())
        .collect();
    (found.prefix(), names)
}

fn text(bytes: Vec<u8>) -> String {
    String::from_utf8(bytes).unwrap()
}

fn units(bytes: &[u8]) -> OpaqueOsStr {
    OpaqueOsStr::new(bytes)
}

#[test]
fn drive_letters_are_upper_case() {
    assert_eq!(WindowsDrive::try_from('c').unwrap().uppercase_letter(), 'C');
    assert_eq!(WindowsDrive::try_from('Z').unwrap().uppercase_letter(), 'Z');
    assert_eq!(
        WindowsDrive::try_from('a').unwrap(),
        WindowsDrive::try_from('A').unwrap()
    );
    for other in ['1', ':', 'é', ' ', '@', '[', '`', '{'] {
        assert!(WindowsDrive::try_from(other).is_err());
    }
}

#[test]
fn normalizing_drops_empty_and_dot_components() {
    assert_eq!(
        parts("/a/./b//c/"),
        (
            Some(PathPrefix::RootDir),
            vec!["a".to_string(), "b".to_string(), "c".to_string()]
        )
    );
    assert_eq!(parts(""), (None, vec![]));
    assert_eq!(parts("."), (None, vec![]));
    assert_eq!(parts("/"), (Some(PathPrefix::RootDir), vec![]));
    assert_eq!(
        parts("a/../b"),
        (
            None,
            vec!["a".to_string(), "..".to_string(), "b".to_string()]
        )
    );
    assert_eq!(
        parts("a\\b/c"),
        (
            None,
            vec!["a".to_string(), "b".to_string(), "c".to_string()]
        )
    );
    assert_eq!(parts("..."), (None, vec!["...".to_string()]));
}

#[test]
fn normalizing_finds_the_prefix() {
    assert_eq!(
        parts("C:\\x\\y"),
        (Some(drive('C')), vec!["x".to_string(), "y".to_string()])
    );
    assert_eq!(parts("c:x"), (Some(drive('C')), vec!["x".to_string()]));
    assert_eq!(parts("c:"), (Some(drive('C')), vec![]));
    assert_eq!(parts("z:/"), (Some(drive('Z')), vec![]));
    assert_eq!(
        parts("\\\\?\\C:\\x"),
        (Some(drive('C')), vec!["x".to_string()])
    );
    assert_eq!(parts("\\\\?\\d:"), (Some(drive('D')), vec![]));
    assert_eq!(parts("\\x"), (Some(PathPrefix::RootDir), vec!["x".to_string()]));
    assert_eq!(parts("1:x"), (None, vec!["1:x".to_string()]));
    assert_eq!(parts("ab:x"), (None, vec!["ab:x".to_string()]));
}

#[test]
fn normalizing_rejects_other_verbatim_prefixes() {
    for path in [
        "\\\\?\\UNC\\server\\share",
        "\\\\.\\device",
        "\\\\server\\share",
        "\\\\",
        "\\\\?",
        "\\\\?\\",
        "\\\\?\\C",
        "\\\\?\\1:",
        "\\\\?/C:",
    ] {
        assert_eq!(
            normalize_path(path.as_bytes()).err(),
            Some(UnsupportedWindowsPrefix),
            "for '{path}'"
        );
    }
}

#[test]
fn normalized_paths_are_written_with_slashes() {
    assert_eq!(text(normal("\\a\\.\\b\\").to_path_buf()), "/a/b");
    assert_eq!(text(normal("c:x\\y").to_path_buf()), "C:/x/y");
    assert_eq!(text(normal("\\\\?\\c:").to_path_buf()), "C:/");
    assert_eq!(text(normal("a//../b").to_path_buf()), "a/../b");
    assert_eq!(text(normal("/").to_path_buf()), "/");
    assert_eq!(text(normal("").to_path_buf()), "");
    assert_eq!(
        text(path_bytes(
            Some(PathPrefix::RootDir),
            &[b"x".to_vec(), b"y".to_vec()]
        )),
        "/x/y"
    );
    assert_eq!(
        text(join_names(&[b"x".to_vec(), b"".to_vec(), b"y".to_vec()])),
        "x//y"
    );
    let mut out = b"ab".to_vec();
    append_bytes(&mut out, b"cd");
    assert_eq!(out, b"abcd".to_vec());
}

#[test]
fn the_way_between_two_paths() {
    let way = |path: &str, base: &str| -> Vec<String> {
        diff_path(&normal(path), &normal(base))
            .into_iter()
            .map(|name| String::from_utf8(name).unwrap())
            .collect()
    };
    assert_eq!(way("/a/b/c", "/a/x"), vec!["..", "b", "c"]);
    assert_eq!(way("/a", "/a/b/c"), vec!["..", ".."]);
    assert_eq!(way("/a/b", "/a"), vec!["b"]);
    assert_eq!(way("/a/b", "/a/b"), Vec::<String>::new());
    assert_eq!(way("/x", "/y/z"), vec!["..", "..", "x"]);
    assert_eq!(way("/", "/"), Vec::<String>::new());
    assert_eq!(way("C:/a/b", "c:/a/c/d"), vec!["..", "..", "b"]);
}

#[test]
fn stripping_a_drive() {
    let (found, rest) = strip_windows_drive(units(b"c:rest")).unwrap();
    assert_eq!(found.uppercase_letter(), 'C');
    assert_eq!(rest, units(b"rest"));
    let (found, rest) = strip_windows_drive(units(b"Q:")).unwrap();
    assert_eq!(found.uppercase_letter(), 'Q');
    assert!(rest.is_empty());
    for other in [&b"1:"[..], b"c", b"", b":c", b"cc:", b"/c:"] {
        assert!(strip_windows_drive(units(other)).is_none());
    }
}

#[test]
fn units_keep_the_bytes() {
    let bytes: Vec<u8> = (0..=255).collect();
    assert_eq!(units(&bytes).to_os_string(), bytes);
    assert_eq!(units(b"").to_os_string(), Vec::<u8>::new());
    assert!(units(b"").is_empty());
    assert!(!units(b"a").is_empty());
    let value = units(b"abc");
    assert_eq!(value.borrow(), value);
    assert_eq!(value.to_static(), value);
    assert_ne!(value.to_static(), units(b"abd"));
}

#[test]
fn stripping_prefixes() {
    let value = units(b"/a/b");
    assert_eq!(value.strip_prefix(b'/'), Some(units(b"a/b")));
    assert_eq!(value.strip_prefix(b'a'), None);
    assert_eq!(value.strip_prefix(&b"/a"[..]), Some(units(b"/b")));
    assert_eq!(value.strip_prefix(&b"/b"[..]), None);
    assert_eq!(value.strip_prefix(&b""[..]), Some(units(b"/a/b")));
    assert_eq!(value.strip_prefix(&b"/a/b/c"[..]), None);
    assert_eq!(value.strip_prefix(b"/a/"), Some(units(b"b")));
    assert_eq!(value.strip_prefix(b"/a/b"), Some(units(b"")));
    assert_eq!(value.strip_prefix(b"a/"), None);
    assert_eq!(units(b"").strip_prefix(b'/'), None);
}

#[test]
fn stripping_the_first_character() {
    assert_eq!(
        units(b"xyz").strip_ascii_char(),
        Some(('x', units(b"yz")))
    );
    assert_eq!(units(b"x").strip_ascii_char(), Some(('x', units(b""))));
    assert_eq!(units(b"").strip_ascii_char(), None);
    assert_eq!(
        units(&[0xe9, 0x41]).strip_ascii_char(),
        Some(('\u{e9}', units(b"A")))
    );
}

#[test]
fn stripping_the_first_prefix_that_applies() {
    assert_eq!(
        units(b"/a").try_strip_prefixes([b'/', b'\\']),
        units(b"a")
    );
    assert_eq!(
        units(b"\\a").try_strip_prefixes([b'/', b'\\']),
        units(b"a")
    );
    assert_eq!(
        units(b"a/").try_strip_prefixes([b'/', b'\\']),
        units(b"a/")
    );
    assert_eq!(
        units(b"//a").try_strip_prefixes([b'/', b'/']),
        units(b"/a")
    );
    assert_eq!(
        units(b"abc").try_strip_prefixes([&b"abc"[..], &b"a"[..]]),
        units(b"")
    );
    assert_eq!(
        units(b"abc").try_strip_prefixes([&b"x"[..], &b"ab"[..], &b"a"[..]]),
        units(b"c")
    );
    assert_eq!(units(b"abc").try_strip_prefixes::<u8, 0>([]), units(b"abc"));
}

#[test]
fn splitting_keeps_empty_pieces() {
    let pieces = |bytes: &[u8]| -> Vec<Vec<u8>> {
        units(bytes)
            .split(|c| c == b'/')
            .iter()
            .map(|piece| piece.to_os_string())
            .collect()
    };
    assert_eq!(
        pieces(b"a//b/"),
        vec![b"a".to_vec(), b"".to_vec(), b"b".to_vec(), b"".to_vec()]
    );
    assert_eq!(pieces(b""), vec![b"".to_vec()]);
    assert_eq!(pieces(b"/"), vec![b"".to_vec(), b"".to_vec()]);
    assert_eq!(pieces(b"abc"), vec![b"abc".to_vec()]);
    assert_eq!(
        units(b"a1b22c").split(|c| c.is_ascii_digit()),
        vec![units(b"a"), units(b"b"), units(b""), units(b"c")]
    );
}

#[test]
fn comparing_bytes_names_and_paths() {
    use_same_bytes();
    assert!(normal("/a/./b").same_as(&normal("\\a\\b\\")));
    assert!(normal("c:/a").same_as(&normal("\\\\?\\C:\\a")));
    assert!(!normal("/a/b").same_as(&normal("a/b")));
    assert!(!normal("/a/b").same_as(&normal("/a/c")));
    assert!(!normal("/a/b").same_as(&normal("/a")));
    assert!(!normal("c:/a").same_as(&normal("d:/a")));
    assert!(!normal("c:/a").same_as(&normal("/a")));
    assert!(normal("").same_as(&normal(".")));
}

fn use_same_bytes() {
    assert!(globby::paths::same_bytes(b"abc", b"abc"));
    assert!(globby::paths::same_bytes(b"", b""));
    assert!(!globby::paths::same_bytes(b"abc", b"abd"));
    assert!(!globby::paths::same_bytes(b"abc", b"ab"));
    assert!(globby::paths::same_names(
        &[b"a".to_vec(), b"b".to_vec()],
        &[b"a".to_vec(), b"b".to_vec()]
    ));
    assert!(!globby::paths::same_names(
        &[b"a".to_vec(), b"b".to_vec()],
        &[b"a".to_vec(), b"c".to_vec()]
    ));
    assert!(!globby::paths::same_names(&[b"a".to_vec()], &[]));
}
