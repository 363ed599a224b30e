use globby::compiler::{component_from_engine, component_source};
use globby::{
    compile_component, parse_pattern, CaseSensitivity, CompileError, Component, Pattern,
    PatternError, PatternOpts, RawComponent,
};

fn first_component(pattern: &str) -> RawComponent {
    let mut parsed = parse_pattern(pattern).unwrap();
    assert_eq!(parsed.components.len(), 1, "for '{pattern}'");
    parsed.components.remove(0)
}

fn source(pattern: &str, case: CaseSensitivity) -> Option<String> {
    component_source(&first_component(pattern), case)
}

#[test]
fn suites_become_anchored_expressions() {
    assert_eq!(
        source("*", CaseSensitivity::Sensitive),
        Some("^(?s:.)*$".to_string())
    );
    assert_eq!(
        source("a?c", CaseSensitivity::Sensitive),
        Some("^a(?s:.)c$".to_string())
    );
    assert_eq!(
        source("[ab[:digit:]]", CaseSensitivity::Sensitive),
        Some("^[ab[:digit:]]$".to_string())
    );
    assert_eq!(
        source("{a|b?}", CaseSensitivity::Sensitive),
        Some("^(?:a|b(?s:.))$".to_string())
    );
    assert_eq!(
        source("{a|{b|c}d}*", CaseSensitivity::Sensitive),
        Some("^(?:a|(?:b|c)d)(?s:.)*$".to_string())
    );
}

#[test]
fn literals_are_escaped_in_expressions() {
    assert_eq!(
        source("a.b*", CaseSensitivity::Sensitive),
        Some("^a\\.b(?s:.)*$".to_string())
    );
    assert_eq!(
        source("(x)+$^?", CaseSensitivity::Sensitive),
        Some("^\\(x\\)\\+\\$\\^(?s:.)$".to_string())
    );
    assert_eq!(
        source("[!-^]", CaseSensitivity::Sensitive),
        Some("^[^\\-\\^]$".to_string())
    );
    assert_eq!(
        source("[\\[\\]]", CaseSensitivity::Sensitive),
        Some("^[\\[\\]]$".to_string())
    );
    // The escaping decides what is matched
    let pattern = Pattern::new("a.b*").unwrap();
    assert!(pattern.is_match(b"a.b"));
    assert!(pattern.is_match(b"a.bcd"));
    assert!(!pattern.is_match(b"axb"));
}

#[test]
fn classes_have_the_names_of_the_engine() {
    assert_eq!(
        source(
            "[[:alpha:][:digit:][:alphanumeric:][:uppercase:][:lowercase:][:whitespace:]]",
            CaseSensitivity::Sensitive
        ),
        Some("^[[:alpha:][:digit:][:alnum:][:upper:][:lower:][:space:]]$".to_string())
    );
    let pattern = Pattern::new("[[:alphanumeric:]][[:uppercase:]][[:whitespace:]]").unwrap();
    assert!(pattern.is_match(b"7Q "));
    assert!(pattern.is_match(b"aZ\t"));
    assert!(!pattern.is_match(b"-Q "));
    assert!(!pattern.is_match(b"7q "));
    assert!(!pattern.is_match(b"7Qx"));
}

#[test]
fn case_insensitive_expressions_carry_the_flag() {
    assert_eq!(
        source("Hello", CaseSensitivity::Insensitive),
        Some("(?i)^Hello$".to_string())
    );
    assert_eq!(
        source("a*", CaseSensitivity::Insensitive),
        Some("(?i)^a(?s:.)*$".to_string())
    );
    assert_eq!(
        source("a.b", CaseSensitivity::Insensitive),
        Some("(?i)^a\\.b$".to_string())
    );
}

#[test]
fn plain_components_need_no_expression() {
    assert_eq!(source("Hello", CaseSensitivity::Sensitive), None);
    assert_eq!(source("**", CaseSensitivity::Sensitive), None);
    assert_eq!(source("**", CaseSensitivity::Insensitive), None);
    assert_eq!(source("..", CaseSensitivity::Sensitive), None);
    assert_eq!(source("..", CaseSensitivity::Insensitive), None);
}

#[test]
fn components_compile_to_their_kind() {
    match compile_component(first_component("abc"), CaseSensitivity::Sensitive) {
        Ok(Component::Literal(lit)) => assert_eq!(lit, "abc"),
        other => panic!("unexpected {other:?}"),
    }
    assert!(matches!(
        compile_component(first_component("abc"), CaseSensitivity::Insensitive),
        Ok(Component::Regex(_))
    ));
    assert!(matches!(
        compile_component(first_component(".."), CaseSensitivity::Sensitive),
        Ok(Component::ParentDir)
    ));
    assert!(matches!(
        compile_component(first_component(".."), CaseSensitivity::Insensitive),
        Ok(Component::ParentDir)
    ));
    assert!(matches!(
        compile_component(first_component("**"), CaseSensitivity::Insensitive),
        Ok(Component::Wildcard)
    ));
    match compile_component(first_component("a[bc]"), CaseSensitivity::Sensitive) {
        Ok(Component::Regex(re)) => assert_eq!(re.as_str(), "^a[bc]$"),
        other => panic!("unexpected {other:?}"),
    }
}

#[test]
fn a_refused_expression_is_an_error() {
    assert!(matches!(
        component_from_engine(regex::bytes::Regex::new("(")),
        Err(CompileError::EngineRefused)
    ));
    match component_from_engine(regex::bytes::Regex::new("^a$")) {
        Ok(Component::Regex(re)) => assert!(re.is_match(b"a")),
        other => panic!("unexpected {other:?}"),
    }
}

#[test]
fn a_pattern_nested_too_deep_is_refused_by_the_engine() {
    let mut text = "{a|b}".to_string();
    for _ in 0..300 {
        text = format!("{{{text}|c}}");
    }
    assert!(parse_pattern(&text).is_ok());
    assert_eq!(
        Pattern::new(&text).err(),
        Some(PatternError::Compile(CompileError::EngineRefused))
    );
    assert_eq!(
        Pattern::new_with_opts(
            &text,
            PatternOpts {
                case_insensitive: true
            }
        )
        .err(),
        Some(PatternError::Compile(CompileError::EngineRefused))
    );
}

#[test]
fn a_syntax_error_is_reported_as_such() {
    match Pattern::new("a**") {
        Err(PatternError::Parse(error)) => assert_eq!(error.position, 2),
        other => panic!("unexpected {other:?}"),
    }
}

#[test]
fn default_options_are_case_sensitive() {
    assert!(!PatternOpts::default().case_insensitive);
}

#[test]
fn components_compile_in_order() {
    let parsed = parse_pattern("../a/**/b*").unwrap();
    let compiled =
        globby::pattern::compile_components(parsed.components, CaseSensitivity::Sensitive).unwrap();
    assert_eq!(compiled.len(), 4);
    assert!(matches!(compiled[0], Component::ParentDir));
    assert!(matches!(&compiled[1], Component::Literal(lit) if lit == "a"));
    assert!(matches!(compiled[2], Component::Wildcard));
    assert!(matches!(&compiled[3], Component::Regex(re) if re.as_str() == "^b(?s:.)*$"));
    assert_eq!(
        globby::build_common_root_dir(Some(globby::PathPrefix::RootDir), &compiled),
        "/../a"
    );
    assert_eq!(globby::build_common_root_dir(None, &compiled[1..]), "a");
    assert_eq!(globby::build_common_root_dir(None, &compiled[..2]), "..");
}

#[test]
fn every_pattern_of_the_syntax_compiles() {
    for text in [
        "*",
        "?",
        "a*b?c",
        "[abc]",
        "[!abc]",
        "[[:alpha:][:digit:]]",
        "{a|b}",
        "{a|{b|c}*}[!x]?",
        "**/*.txt",
        "/x/{y|z}/**",
    ] {
        for case_insensitive in [false, true] {
            assert!(
                Pattern::new_with_opts(text, PatternOpts { case_insensitive }).is_ok(),
                "for '{text}'"
            );
        }
    }
    for text in ["hello", "a/b/c", "../x", "C:/Users"] {
        assert!(Pattern::new_with_opts(
            text,
            PatternOpts {
                case_insensitive: true
            }
        )
        .is_ok());
    }
}
