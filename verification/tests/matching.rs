use globby::{match_components, Component, Pattern, PatternMatchResult, PatternOpts};

fn pattern(text: &str) -> Pattern {
    Pattern::new(text).unwrap()
}

fn verdict(text: &str, path: &str) -> PatternMatchResult {
    pattern(text).match_against(path.as_bytes())
}

fn names(path: &[&str]) -> Vec<Vec<u8>> {
    path.iter().map(|name| name.as_bytes().to_vec()).collect()
}

#[test]
fn star_against_simple_paths() {
    assert_eq!(verdict("*", "abc"), PatternMatchResult::Matched);
    // The empty path is too short for the pattern, which a longer path may match
    assert_eq!(verdict("*", ""), PatternMatchResult::Starved);
    assert!(!pattern("*").is_match(b""));
    assert_eq!(verdict("*", "/abc"), PatternMatchResult::PathIsAbsolute);
}

#[test]
fn bracket_matcher_takes_one_character() {
    let pattern = pattern("a[bcd]e");
    for path in ["abe", "ace", "ade"] {
        assert!(pattern.is_match(path.as_bytes()));
    }
    for path in ["ae", "abbe"] {
        assert!(!pattern.is_match(path.as_bytes()));
    }
}

#[test]
fn group_takes_one_alternative() {
    let pattern = pattern("{a|bc}");
    for path in ["a", "bc"] {
        assert!(pattern.is_match(path.as_bytes()));
    }
    for path in ["abc", "b", "c"] {
        assert!(!pattern.is_match(path.as_bytes()));
    }
}

#[test]
fn case_option_decides_on_letters() {
    let folded = Pattern::new_with_opts(
        "hello",
        PatternOpts {
            case_insensitive: true,
        },
    )
    .unwrap();
    assert!(folded.is_match(b"hello"));
    assert!(folded.is_match(b"Hello"));
    assert!(folded.is_match(b"HELLO"));
    // The whole name has to match, not a part of it
    assert!(!folded.is_match(b"hello!"));
    assert!(!folded.is_match(b"xhello"));
    let exact = Pattern::new_with_opts(
        "hello",
        PatternOpts {
            case_insensitive: false,
        },
    )
    .unwrap();
    assert!(exact.is_match(b"hello"));
    assert!(!exact.is_match(b"Hello"));
}

#[test]
fn case_option_leaves_parent_dirs_alone() {
    let folded = Pattern::new_with_opts(
        "../A",
        PatternOpts {
            case_insensitive: true,
        },
    )
    .unwrap();
    assert!(folded.is_match(b"../a"));
    assert!(folded.is_match(b"../A"));
    assert!(!folded.is_match(b"x/a"));
}

#[test]
fn prefixes_are_held_against_each_other() {
    assert_eq!(verdict("/a", "a"), PatternMatchResult::PathNotAbsolute);
    assert_eq!(verdict("C:/a", "a"), PatternMatchResult::PathNotAbsolute);
    assert_eq!(verdict("a", "/a"), PatternMatchResult::PathIsAbsolute);
    assert_eq!(verdict("a", "C:/a"), PatternMatchResult::PathIsAbsolute);
    assert_eq!(verdict("C:/a", "/a"), PatternMatchResult::IncompatiblePrefix);
    assert_eq!(verdict("/a", "C:/a"), PatternMatchResult::IncompatiblePrefix);
    assert_eq!(verdict("C:/a", "D:/a"), PatternMatchResult::NotMatched);
    assert_eq!(verdict("C:/a", "c:\\a"), PatternMatchResult::Matched);
    assert_eq!(verdict("\\\\?\\c:\\a", "C:/a"), PatternMatchResult::Matched);
    assert_eq!(verdict("/a", "\\a"), PatternMatchResult::Matched);
    assert_eq!(
        verdict("/a", "\\\\server\\share"),
        PatternMatchResult::IncompatiblePrefix
    );
    assert_eq!(
        verdict("a", "\\\\?\\UNC\\x"),
        PatternMatchResult::IncompatiblePrefix
    );
}

#[test]
fn verdicts_tell_starved_from_not_matched() {
    assert_eq!(verdict("a/b", "a"), PatternMatchResult::Starved);
    assert_eq!(verdict("a/b", ""), PatternMatchResult::Starved);
    assert_eq!(verdict("a/b", "c"), PatternMatchResult::NotMatched);
    assert_eq!(verdict("a/b", "a/c"), PatternMatchResult::NotMatched);
    assert_eq!(verdict("a/b", "a/b"), PatternMatchResult::Matched);
    assert_eq!(verdict("a/b", "a/b/c"), PatternMatchResult::NotMatched);
    assert_eq!(verdict("a/*", "a"), PatternMatchResult::Starved);
    assert_eq!(verdict("", ""), PatternMatchResult::Matched);
    assert_eq!(verdict("", "a"), PatternMatchResult::NotMatched);
}

#[test]
fn parent_dir_is_never_starved() {
    assert_eq!(verdict("../a", ""), PatternMatchResult::NotMatched);
    assert_eq!(verdict("../a", ".."), PatternMatchResult::Starved);
    assert_eq!(verdict("../a", "../a"), PatternMatchResult::Matched);
    assert_eq!(verdict("../a", "x/a"), PatternMatchResult::NotMatched);
    assert_eq!(verdict("../../a", "../x"), PatternMatchResult::NotMatched);
}

#[test]
fn wildcard_is_matched_or_starved() {
    assert_eq!(verdict("**/a", "x/y"), PatternMatchResult::Starved);
    assert_eq!(verdict("**/a", ""), PatternMatchResult::Starved);
    assert_eq!(verdict("**/a", "a"), PatternMatchResult::Matched);
    assert_eq!(verdict("**/a", "x/y/a"), PatternMatchResult::Matched);
    assert_eq!(verdict("**/a/**/b", "a/x/a/b"), PatternMatchResult::Matched);
    assert_eq!(verdict("**/a/**/b", "a/x/a"), PatternMatchResult::Starved);
    assert_eq!(verdict("x/**/a", "y/a"), PatternMatchResult::NotMatched);
    assert_eq!(verdict("**/**", ""), PatternMatchResult::Matched);
    assert_eq!(verdict("**/*.txt", "dir/skip.log"), PatternMatchResult::Starved);
    assert_eq!(verdict("**/*.txt", "dir/nested.txt"), PatternMatchResult::Matched);
}

#[test]
fn components_are_matched_as_given() {
    let components = vec![
        Component::Literal("a".to_string()),
        Component::Wildcard,
        Component::Regex(regex::bytes::Regex::new("^b.$").unwrap()),
    ];
    assert_eq!(
        match_components(&components, &names(&["a", "x", "y", "b1"])),
        PatternMatchResult::Matched
    );
    assert_eq!(
        match_components(&components, &names(&["a", "b1"])),
        PatternMatchResult::Matched
    );
    assert_eq!(
        match_components(&components, &names(&["a", "x"])),
        PatternMatchResult::Starved
    );
    assert_eq!(
        match_components(&components, &names(&["b", "b1"])),
        PatternMatchResult::NotMatched
    );
    assert_eq!(
        match_components(&[Component::ParentDir], &names(&[".."])),
        PatternMatchResult::Matched
    );
    assert_eq!(
        match_components(&[Component::ParentDir], &names(&["..."])),
        PatternMatchResult::NotMatched
    );
    assert_eq!(
        match_components(&[Component::ParentDir], &names(&[])),
        PatternMatchResult::NotMatched
    );
    assert_eq!(
        match_components(&[], &names(&[])),
        PatternMatchResult::Matched
    );
}

#[test]
fn literals_are_compared_byte_for_byte() {
    let pattern = pattern("é/ß");
    assert!(pattern.is_match("é/ß".as_bytes()));
    assert!(!pattern.is_match("e/ß".as_bytes()));
    assert!(!pattern.is_match(&[0xc3, 0x2f, 0xc3, 0x9f]));
    // Names need not be text
    let any = Pattern::new("**").unwrap();
    assert!(any.is_match(&[0xff, 0xfe, 0x2f, 0x80]));
}

#[test]
fn verdicts_depend_on_text_option_and_path_alone() {
    let texts = ["*", "a/**/b", "/x/[ab]*", "{a|b}/../c", "../*", "C:/**"];
    let paths = ["", "a", "a/b", "a/x/y/b", "/x/ab", "../q", "C:/z", "b/../c"];
    for text in texts {
        for case_insensitive in [false, true] {
            let opts = PatternOpts { case_insensitive };
            let first = match Pattern::new_with_opts(text, opts) {
                Ok(pattern) => pattern,
                Err(_) => continue,
            };
            let second = Pattern::new_with_opts(text, opts).unwrap();
            let copy = first.clone();
            for path in paths.iter().rev() {
                let expected = second.match_against(path.as_bytes());
                assert_eq!(first.match_against(path.as_bytes()), expected);
                assert_eq!(first.match_against(path.as_bytes()), expected);
                assert_eq!(copy.match_against(path.as_bytes()), expected);
            }
        }
    }
}

#[test]
fn absolute_and_relative_never_match_each_other() {
    let absolute = ["/**", "/a", "C:/**", "\\\\?\\C:\\**", "/*/**"];
    let relative = ["**", "a", "*", "../**", "**/*"];
    for text in absolute {
        for path in ["", "a", "a/b", "../a", "x/y/z"] {
            assert!(!pattern(text).is_match(path.as_bytes()));
        }
    }
    for text in relative {
        for path in ["/", "/a", "/a/b", "C:/a", "C:", "\\a"] {
            assert!(!pattern(text).is_match(path.as_bytes()));
        }
    }
}

#[test]
fn a_trailing_wildcard_takes_any_rest() {
    for (text, head) in [("a/**", "a"), ("a/*/**", "a/b"), ("/x/**", "/x"), ("**", ".")] {
        let pattern = pattern(text);
        for tail in ["", "/p", "/p/q", "/p/q/r/s/t"] {
            let path = format!("{head}{tail}");
            assert!(pattern.is_match(path.as_bytes()), "'{text}' on '{path}'");
        }
    }
    assert!(!pattern("a/**").is_match(b"b/c"));
}

#[test]
fn a_starved_path_can_be_extended_to_a_match() {
    for (text, starved, longer) in [
        ("a/*/c", "a", "a/x/c"),
        ("a/*/c", "a/x", "a/x/c"),
        ("**/b", "x", "x/b"),
        ("**/b/**/c", "q/b", "q/b/c"),
        ("*", "", "anything"),
        ("../a", "..", "../a"),
    ] {
        assert_eq!(verdict(text, starved), PatternMatchResult::Starved);
        assert_eq!(verdict(text, longer), PatternMatchResult::Matched);
    }
}

#[test]
fn nothing_below_a_path_that_is_not_matched_matches() {
    for (text, dead) in [("a/b", "c"), ("a/*", "b"), ("a", "a/b"), ("x/**/y", "z")] {
        assert_eq!(verdict(text, dead), PatternMatchResult::NotMatched);
        for tail in ["/a", "/b", "/a/b", "/x/y", "/y"] {
            let path = format!("{dead}{tail}");
            assert!(!pattern(text).is_match(path.as_bytes()));
        }
    }
}

#[test]
fn normalized_paths_and_names_are_matched_directly() {
    let pattern = pattern("/a/*");
    let absolute = globby::normalize_path(b"/a/b").unwrap();
    let relative = globby::normalize_path(b"a/b").unwrap();
    assert_eq!(
        pattern.match_normalized(&absolute),
        PatternMatchResult::Matched
    );
    assert_eq!(
        pattern.match_normalized(&relative),
        PatternMatchResult::PathNotAbsolute
    );
    // Names are held against the components, whatever the prefixes are
    assert_eq!(
        pattern.match_names(&names(&["a", "b"])),
        PatternMatchResult::Matched
    );
    assert_eq!(
        pattern.match_names(&names(&["a"])),
        PatternMatchResult::Starved
    );
}

#[test]
fn any_character_includes_the_new_line() {
    assert!(pattern("?").is_match(b"\n"));
    assert!(pattern("a?b").is_match(b"a\nb"));
    assert!(pattern("*").is_match(b"a\nb\n"));
    assert!(pattern("*.txt").is_match(b"two\nlines.txt"));
    assert!(pattern("{a|?}x").is_match(b"\nx"));
    assert!(pattern("[!a]").is_match(b"\n"));
    assert!(!pattern("?").is_match(b"\n\n"));
    assert!(!pattern("a").is_match(b"a\n"));
    let folded = Pattern::new_with_opts(
        "a?",
        PatternOpts {
            case_insensitive: true,
        },
    )
    .unwrap();
    assert!(folded.is_match(b"A\n"));
    assert!(!folded.is_match(b"A\n\n"));
    let folded = Pattern::new_with_opts(
        "a",
        PatternOpts {
            case_insensitive: true,
        },
    )
    .unwrap();
    assert!(!folded.is_match(b"A\n"));
}

#[test]
fn a_run_without_a_name_is_starved_for_ever() {
    // The run accepts `.` alone, which no normalized path holds
    let pattern = pattern("a/{.|.}");
    assert_eq!(pattern.match_against(b"a"), PatternMatchResult::Starved);
    assert_eq!(pattern.match_against(b"a/."), PatternMatchResult::Starved);
    assert_eq!(pattern.match_against(b"a/./."), PatternMatchResult::Starved);
    assert_eq!(pattern.match_against(b"a/x"), PatternMatchResult::NotMatched);
    // Taken as a component as it is, the name is accepted
    assert_eq!(
        pattern.match_names(&names(&["a", "."])),
        PatternMatchResult::Matched
    );
}

#[test]
fn a_run_that_reads_as_a_drive_cannot_start_a_path() {
    let first = pattern("c[\\:]");
    assert_eq!(first.match_against(b""), PatternMatchResult::Starved);
    assert_eq!(first.match_against(b"c:"), PatternMatchResult::PathIsAbsolute);
    let later = pattern("a/c[\\:]");
    assert_eq!(later.match_against(b"a"), PatternMatchResult::Starved);
    assert_eq!(later.match_against(b"a/c:"), PatternMatchResult::Matched);
}
