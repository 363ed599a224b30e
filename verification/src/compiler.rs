//! Compiled pattern components.

use crate::engine::{
    engine_accepts, escaped, regex_escape, regex_language, regex_new, source_language,
};
use crate::parser::{
    suite_view, CharacterClass, CharsMatcher, CharsMatcherView, RawComponent, RawComponentView,
    SingleCharMatcher,
};
use crate::text::string_push;
use regex::bytes::Regex;
use vstd::prelude::*;
use vstd::string::StringExecFns;
use vstd::utf8::encode_utf8;

verus! {

/// One compiled component of a pattern.
#[derive(Debug)]
pub enum Component {
    /// A character run, compiled by the engine; it is tested against one path component.
    Regex(Regex),
    /// A name that one path component must equal byte for byte.
    Literal(String),
    /// `**`: any number of whole path components, none included.
    Wildcard,
    /// The path component `..`.
    ParentDir,
}

/// What a compiled component stands for.
pub ghost enum ComponentView {
    /// The names that the character run accepts.
    Regex(Set<Seq<u8>>),
    /// The characters of the literal name.
    Literal(Seq<char>),
    Wildcard,
    ParentDir,
}

impl View for Component {
    type V = ComponentView;

    open spec fn view(&self) -> ComponentView {
        match self {
            Component::Regex(re) => ComponentView::Regex(regex_language(*re)),
            Component::Literal(lit) => ComponentView::Literal(lit@),
            Component::Wildcard => ComponentView::Wildcard,
            Component::ParentDir => ComponentView::ParentDir,
        }
    }
}

impl Clone for Component {
    fn clone(&self) -> (r: Self)
        ensures
            r@ == self@,
    {
        match self {
            Component::Regex(re) => Component::Regex(re.clone()),
            Component::Literal(lit) => Component::Literal(lit.clone()),
            Component::Wildcard => Component::Wildcard,
            Component::ParentDir => Component::ParentDir,
        }
    }
}

/// Whether built expressions tell upper case from lower case.
#[derive(Debug, Clone, Copy, PartialEq, Eq, Structural)]
pub enum CaseSensitivity {
    Sensitive,
    Insensitive,
}

/// The name of the parent directory, `..`, as bytes.
pub open spec fn parent_dir_name() -> Seq<u8> {
    seq![0x2eu8, 0x2eu8]
}

/// Whether the single-component matcher `component` accepts the path component
/// `name`. A wildcard is no single-component matcher and accepts no name by itself.
pub open spec fn component_accepts(component: ComponentView, name: Seq<u8>) -> bool {
    match component {
        ComponentView::Regex(language) => language.contains(name),
        ComponentView::Literal(lit) => name == encode_utf8(lit),
        ComponentView::ParentDir => name == parent_dir_name(),
        ComponentView::Wildcard => false,
    }
}

/// The views of a sequence of compiled components.
pub open spec fn component_views(components: Seq<Component>) -> Seq<ComponentView> {
    components.map_values(|c: Component| c@)
}

/// The engine refused the expression of a character run.
#[derive(Debug, Clone, Copy, PartialEq, Eq, Structural)]
pub enum CompileError {
    /// The expression is more deeply nested or larger than the engine allows.
    EngineRefused,
}

/// The text of the parent directory's name, `..`.
pub open spec fn parent_dir_text() -> Seq<char> {
    seq!['.', '.']
}

/// The engine's name for a character class.
pub open spec fn class_source(class: CharacterClass) -> Seq<char> {
    match class {
        CharacterClass::Alpha => "[:alpha:]"@,
        CharacterClass::Digit => "[:digit:]"@,
        CharacterClass::Alphanumeric => "[:alnum:]"@,
        CharacterClass::Uppercase => "[:upper:]"@,
        CharacterClass::Lowercase => "[:lower:]"@,
        CharacterClass::Whitespace => "[:space:]"@,
    }
}

/// One item of a bracket expression: the escaped character, or the class's name.
pub open spec fn single_char_source(matcher: SingleCharMatcher) -> Seq<char> {
    match matcher {
        SingleCharMatcher::Literal(c) => escaped(seq![c]),
        SingleCharMatcher::Class(class) => class_source(class),
    }
}

/// The items of a bracket expression, one after the other.
pub open spec fn single_chars_source(matchers: Seq<SingleCharMatcher>) -> Seq<char>
    decreases matchers.len(),
{
    if matchers.len() == 0 {
        Seq::empty()
    } else {
        single_chars_source(matchers.drop_last()) + single_char_source(matchers.last())
    }
}

/// The expression for one matcher: `?` is any one character and `*` any run of
/// characters, the new line among them; a literal is escaped, a bracket matcher is
/// a bracket expression, and a group is a non-capturing alternation.
pub open spec fn chars_matcher_source(matcher: CharsMatcherView) -> Seq<char>
    decreases matcher,
{
    match matcher {
        CharsMatcherView::AnyChar => "(?s:.)"@,
        CharsMatcherView::AnyChars => "(?s:.)*"@,
        CharsMatcherView::Literal(lit) => escaped(lit),
        CharsMatcherView::OneOfChars(items) => "["@ + single_chars_source(items) + "]"@,
        CharsMatcherView::NoneOfChars(items) => "[^"@ + single_chars_source(items) + "]"@,
        CharsMatcherView::OneOfGroups(groups) => "(?:"@ + groups_source(groups) + ")"@,
    }
}

/// The expressions of a suite of matchers, one after the other.
pub open spec fn suite_source(suite: Seq<CharsMatcherView>) -> Seq<char>
    decreases suite,
{
    if suite.len() == 0 {
        Seq::empty()
    } else {
        suite_source(suite.drop_last()) + chars_matcher_source(suite.last())
    }
}

/// The expressions of the alternatives of a group, with `|` between them.
pub open spec fn groups_source(groups: Seq<Seq<CharsMatcherView>>) -> Seq<char>
    decreases groups,
{
    if groups.len() == 0 {
        Seq::empty()
    } else if groups.len() == 1 {
        suite_source(groups.last())
    } else {
        groups_source(groups.drop_last()) + "|"@ + suite_source(groups.last())
    }
}

/// The flag that starts an expression: none, or the one that makes it ignore case.
pub open spec fn case_flag(case: CaseSensitivity) -> Seq<char> {
    match case {
        CaseSensitivity::Sensitive => Seq::empty(),
        CaseSensitivity::Insensitive => "(?i)"@,
    }
}

/// Whether a component is compiled by the engine.
pub open spec fn needs_engine(component: RawComponentView, case: CaseSensitivity) -> bool {
    match component {
        RawComponentView::Wildcard => false,
        RawComponentView::Literal(lit) => lit != parent_dir_text() && case is Insensitive,
        RawComponentView::Suite(_) => true,
    }
}

/// The expression handed to the engine for a component that needs it: the literal
/// or the suite, anchored at both ends, behind the case flag.
pub open spec fn run_source(component: RawComponentView, case: CaseSensitivity) -> Seq<char> {
    match component {
        RawComponentView::Literal(lit) => case_flag(case) + "^"@ + escaped(lit) + "$"@,
        RawComponentView::Suite(suite) => case_flag(case) + "^"@ + suite_source(suite) + "$"@,
        RawComponentView::Wildcard => Seq::empty(),
    }
}

/// Whether a component compiles: it needs no engine, or the engine accepts its
/// expression.
pub open spec fn compiles(component: RawComponentView, case: CaseSensitivity) -> bool {
    !needs_engine(component, case) || engine_accepts(run_source(component, case))
}

/// What a component compiles to.
pub open spec fn compiled(component: RawComponentView, case: CaseSensitivity) -> ComponentView {
    match component {
        RawComponentView::Wildcard => ComponentView::Wildcard,
        RawComponentView::Literal(lit) => if lit == parent_dir_text() {
            ComponentView::ParentDir
        } else if case is Sensitive {
            ComponentView::Literal(lit)
        } else {
            ComponentView::Regex(source_language(run_source(component, case)))
        },
        RawComponentView::Suite(_) => ComponentView::Regex(
            source_language(run_source(component, case)),
        ),
    }
}

/// Appends the expression of one bracket item to `out`.
fn compile_single_char_matcher(char_matcher: SingleCharMatcher, out: &mut String)
    ensures
        final(out)@ == old(out)@ + single_char_source(char_matcher),
{
    match char_matcher {
        SingleCharMatcher::Literal(lit) => {
            let mut text = String::new();
            string_push(&mut text, lit);
            assert(text@ =~= seq![lit]);
            let quoted = regex_escape(text.as_str());
            out.append(quoted.as_str());
        },
        SingleCharMatcher::Class(character_class) => out.append(
            match character_class {
                CharacterClass::Alpha => "[:alpha:]",
                CharacterClass::Digit => "[:digit:]",
                CharacterClass::Alphanumeric => "[:alnum:]",
                CharacterClass::Uppercase => "[:upper:]",
                CharacterClass::Lowercase => "[:lower:]",
                CharacterClass::Whitespace => "[:space:]",
            },
        ),
    }
}

/// Appends the expressions of the items of a bracket matcher to `out`.
fn compile_single_char_matchers(matchers: &Vec<SingleCharMatcher>, out: &mut String)
    ensures
        final(out)@ == old(out)@ + single_chars_source(matchers@),
{
    let ghost before = out@;
    let mut i: usize = 0;
    assert(matchers@.take(0) =~= Seq::empty());
    while i < matchers.len()
        invariant
            i <= matchers.len(),
            out@ == before + single_chars_source(matchers@.take(i as int)),
        decreases matchers.len() - i,
    {
        compile_single_char_matcher(matchers[i], out);
        proof {
            let next = matchers@.take(i + 1);
            assert(next.drop_last() =~= matchers@.take(i as int));
            assert(next.last() == matchers@[i as int]);
            assert(out@ =~= before + single_chars_source(next));
        }
        i += 1;
    }
    assert(matchers@.take(i as int) =~= matchers@);
}

/// Appends the expression of a matcher to `out`.
fn compile_chars_matcher(chars_matcher: &CharsMatcher, out: &mut String)
    ensures
        final(out)@ == old(out)@ + chars_matcher_source(chars_matcher@),
    decreases chars_matcher,
{
    let ghost before = out@;
    match chars_matcher {
        CharsMatcher::AnyChar => out.append("(?s:.)"),
        CharsMatcher::AnyChars => out.append("(?s:.)*"),
        CharsMatcher::Literal(lit) => {
            let quoted = regex_escape(lit.as_str());
            out.append(quoted.as_str());
        },
        CharsMatcher::OneOfChars(single_char_matchers) => {
            out.append("[");
            compile_single_char_matchers(single_char_matchers, out);
            out.append("]");
            assert(out@ =~= before + chars_matcher_source(chars_matcher@));
        },
        CharsMatcher::NoneOfChars(single_char_matchers) => {
            out.append("[^");
            compile_single_char_matchers(single_char_matchers, out);
            out.append("]");
            assert(out@ =~= before + chars_matcher_source(chars_matcher@));
        },
        CharsMatcher::OneOfGroups(matchers) => {
            let ghost groups = chars_matcher@->OneOfGroups_0;
            out.append("(?:");
            let mut i: usize = 0;
            assert(groups.take(0) =~= Seq::empty());
            while i < matchers.len()
                invariant
                    i <= matchers.len(),
                    chars_matcher == CharsMatcher::OneOfGroups(*matchers),
                    groups == chars_matcher@->OneOfGroups_0,
                    groups.len() == matchers.len(),
                    out@ == before + "(?:"@ + groups_source(groups.take(i as int)),
                decreases matchers.len() - i,
            {
                if i > 0 {
                    out.append("|");
                }
                let ghost start = out@;
                let ghost suite = groups[i as int];
                let group = &matchers[i];
                let mut k: usize = 0;
                assert(suite.take(0) =~= Seq::empty());
                while k < group.len()
                    invariant
                        k <= group.len(),
                        i < matchers.len(),
                        chars_matcher == CharsMatcher::OneOfGroups(*matchers),
                        groups == chars_matcher@->OneOfGroups_0,
                        group == &matchers@[i as int],
                        suite == groups[i as int],
                        suite.len() == group.len(),
                        out@ == start + suite_source(suite.take(k as int)),
                    decreases group.len() - k,
                {
                    let inner = &group[k];
                    assert(suite[k as int] == inner@);
                    compile_chars_matcher(inner, out);
                    proof {
                        let next = suite.take(k + 1);
                        assert(next.drop_last() =~= suite.take(k as int));
                        assert(next.last() == suite[k as int]);
                        assert(out@ =~= start + suite_source(next));
                    }
                    k += 1;
                }
                proof {
                    assert(suite.take(k as int) =~= suite);
                    let next = groups.take(i + 1);
                    assert(next.drop_last() =~= groups.take(i as int));
                    assert(next.last() == suite);
                    assert(out@ =~= before + "(?:"@ + groups_source(next));
                }
                i += 1;
            }
            assert(groups.take(i as int) =~= groups);
            out.append(")");
            assert(out@ =~= before + chars_matcher_source(chars_matcher@));
        },
    }
}

/// Appends the expressions of a suite of matchers to `out`.
fn compile_suite(suite: &Vec<CharsMatcher>, out: &mut String)
    ensures
        final(out)@ == old(out)@ + suite_source(suite_view(suite@)),
{
    let ghost before = out@;
    let ghost views = suite_view(suite@);
    let mut k: usize = 0;
    assert(views.take(0) =~= Seq::empty());
    while k < suite.len()
        invariant
            k <= suite.len(),
            views == suite_view(suite@),
            out@ == before + suite_source(views.take(k as int)),
        decreases suite.len() - k,
    {
        compile_chars_matcher(&suite[k], out);
        proof {
            let next = views.take(k + 1);
            assert(next.drop_last() =~= views.take(k as int));
            assert(next.last() == suite@[k as int]@);
            assert(out@ =~= before + suite_source(next));
        }
        k += 1;
    }
    assert(views.take(k as int) =~= views);
}

/// Whether `text` is the parent directory's name, `..`.
pub(crate) fn is_parent_dir_text(text: &str) -> (r: bool)
    ensures
        r == (text@ == parent_dir_text()),
{
    let r = text.unicode_len() == 2 && text.get_char(0) == '.' && text.get_char(1) == '.';
    assert(r == (text@ =~= seq!['.', '.']));
    r
}

/// The expression that the engine is given for a component: `Some` exactly for a
/// component that needs the engine.
pub fn component_source(component: &RawComponent, case_sensitivity: CaseSensitivity) -> (r: Option<
    String,
>)
    ensures
        r is Some <==> needs_engine(component@, case_sensitivity),
        r matches Some(source) ==> source@ == run_source(component@, case_sensitivity),
{
    let mut regex = match case_sensitivity {
        CaseSensitivity::Sensitive => String::new(),
        CaseSensitivity::Insensitive => String::from_str("(?i)"),
    };
    match component {
        RawComponent::Wildcard => None,
        RawComponent::Literal(lit) => {
            if is_parent_dir_text(lit.as_str()) {
                return None;
            }
            match case_sensitivity {
                CaseSensitivity::Sensitive => None,
                CaseSensitivity::Insensitive => {
                    regex.append("^");
                    let quoted = regex_escape(lit.as_str());
                    regex.append(quoted.as_str());
                    regex.append("$");
                    assert(regex@ =~= run_source(component@, case_sensitivity));
                    Some(regex)
                },
            }
        },
        RawComponent::Suite(chars_matchers) => {
            regex.append("^");
            compile_suite(chars_matchers, &mut regex);
            regex.append("$");
            assert(regex@ =~= run_source(component@, case_sensitivity));
            Some(regex)
        },
    }
}

/// The component made of what the engine answered for a character run: the compiled
/// expression, or the refusal.
pub fn component_from_engine(answer: Result<Regex, regex::Error>) -> (r: Result<
    Component,
    CompileError,
>)
    ensures
        match answer {
            Ok(re) => r == Ok::<Component, CompileError>(Component::Regex(re)),
            Err(_) => r == Err::<Component, CompileError>(CompileError::EngineRefused),
        },
{
    match answer {
        Ok(re) => Ok(Component::Regex(re)),
        Err(_) => Err(CompileError::EngineRefused),
    }
}

/// Compiles a parsed component to its final form.
///
/// A wildcard stays a wildcard, the literal `..` becomes the parent directory, and
/// any other literal stays a literal while case matters. Everything else is handed
/// to the engine as the expression `run_source`, and fails exactly where the engine
/// refuses that expression.
pub fn compile_component(component: RawComponent, case_sensitivity: CaseSensitivity) -> (r: Result<
    Component,
    CompileError,
>)
    ensures
        r is Ok <==> compiles(component@, case_sensitivity),
        r matches Ok(c) ==> c@ == compiled(component@, case_sensitivity),
        r matches Err(e) ==> e == CompileError::EngineRefused,
{
    match component_source(&component, case_sensitivity) {
        Some(source) => {
            let answer = regex_new(source.as_str());
            component_from_engine(answer)
        },
        None => match component {
            RawComponent::Wildcard => Ok(Component::Wildcard),
            RawComponent::Literal(lit) => {
                if is_parent_dir_text(lit.as_str()) {
                    Ok(Component::ParentDir)
                } else {
                    Ok(Component::Literal(lit))
                }
            },
            // A suite always has an expression
            RawComponent::Suite(_) => Err(CompileError::EngineRefused),
        },
    }
}

} // verus!
