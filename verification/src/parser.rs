//! The pattern grammar.

use crate::grammar::{
    alternatives_at, chars_matcher_at, class_at, class_name, component_at, component_of,
    components_at, drive_end, has_late_parent_dir, has_other, has_parent_dir, is_parent_dir,
    is_separator, is_skipped, is_special, kept_components, lemma_parent_dirs_push,
    lemma_pattern_is_well_formed,
    literal_end, more_alternatives_at, pattern_of, prefix_at, single_char_matcher_at,
    single_char_matchers_at, starts_with, suite_at, with_front, Parsed,
};
use crate::compiler::is_parent_dir_text;
use crate::paths::{is_ascii_letter, PathPrefix, WindowsDrive};
use crate::text::{chars_of, string_of};
use vstd::prelude::*;

verus! {

/// A named class of characters, written `[:name:]` inside a bracket matcher.
#[derive(Debug, Clone, Copy, PartialEq, Eq, Structural)]
pub enum CharacterClass {
    /// Alphabetic characters
    Alpha,
    /// Digits
    Digit,
    /// Alphabetic characters and digits
    Alphanumeric,
    /// Uppercase characters
    Uppercase,
    /// Lowercase characters
    Lowercase,
    /// Whitespace characters
    Whitespace,
}

/// One item of a bracket matcher.
#[derive(Debug, Clone, Copy, PartialEq, Eq, Structural)]
pub enum SingleCharMatcher {
    /// Match a specific character
    Literal(char),
    /// Match a character using a given character class
    Class(CharacterClass),
}

/// A matcher of characters inside one component.
#[derive(Debug, PartialEq, Eq)]
pub enum CharsMatcher {
    /// Match any single character
    AnyChar,
    /// Match any suite of characters, or no character at all
    AnyChars,
    /// Match a specific suite of characters
    Literal(String),
    /// Match a single character using one of the matchers
    OneOfChars(Vec<SingleCharMatcher>),
    /// Match any character that is *not* matched by one of the matchers
    NoneOfChars(Vec<SingleCharMatcher>),
    /// Match one of suites of character matchers
    OneOfGroups(Vec<Vec<CharsMatcher>>),
}

/// One parsed component of a pattern.
#[derive(Debug, PartialEq, Eq)]
pub enum RawComponent {
    /// The component matches a literal string
    Literal(String),
    /// The component matches using a suite of matchers
    Suite(Vec<CharsMatcher>),
    /// The component matches any suite of directories
    Wildcard,
}

/// A parsed pattern, before compilation.
#[derive(Debug, PartialEq, Eq)]
pub struct RawPattern {
    pub prefix: Option<PathPrefix>,
    pub components: Vec<RawComponent>,
}

/// What is wrong with a text that is no pattern.
#[derive(Debug, Clone, Copy, PartialEq, Eq, Structural)]
pub enum ParseErrorKind {
    /// `**` stands beside something else than a separator or an end of the text.
    MisplacedWildcard,
    /// A backslash inside a bracket matcher stands before a character that it
    /// cannot escape.
    ExpectedEscapable,
    /// `[:` stands before something else than the name of a character class.
    UnknownCharacterClass,
    /// The name of a character class is not followed by `:]`.
    UnclosedCharacterClass,
    /// A bracket matcher holds no item.
    EmptyBracket,
    /// A bracket matcher is not closed by `]`.
    UnclosedBracket,
    /// A group holds fewer than two alternatives.
    TooFewAlternatives,
    /// A group is not closed by `}`.
    UnclosedGroup,
    /// `\\` is not followed by `?`.
    ExpectedVerbatimMark,
    /// `\\?` is not followed by `\`.
    ExpectedVerbatimSeparator,
    /// `\\?\` is not followed by a drive letter and a colon.
    ExpectedDriveLetter,
    /// A drive prefix is followed by something else than a separator or the end.
    ExpectedSeparatorAfterPrefix,
    /// A root separator is followed by a backslash.
    InvalidVerbatimPath,
    /// `..` stands in a pattern with a prefix.
    ParentDirInAbsolutePattern,
    /// `..` stands behind a component that is not `..`.
    ParentDirAfterStart,
    /// A character stands where no component can go on: one of `]`, `}`, `|`, `:`
    /// outside the matcher that it belongs to.
    UnexpectedSymbol,
}

impl ParseErrorKind {
    /// The message for each kind of error.
    pub open spec fn text(self) -> Seq<char> {
        match self {
            ParseErrorKind::MisplacedWildcard => "wildcard components '**' must be preceded and followed by path separators"@,
            ParseErrorKind::ExpectedEscapable => "expected a special character to escape"@,
            ParseErrorKind::UnknownCharacterClass => "expected a valid character class"@,
            ParseErrorKind::UnclosedCharacterClass => "expected ':]' after the character class"@,
            ParseErrorKind::EmptyBracket => "expected at least one character to match"@,
            ParseErrorKind::UnclosedBracket => "expected ']'"@,
            ParseErrorKind::TooFewAlternatives => "expected at least 2 alternative matchers"@,
            ParseErrorKind::UnclosedGroup => "expected '}'"@,
            ParseErrorKind::ExpectedVerbatimMark => "expected '?' for a verbatim path after '\\\\'"@,
            ParseErrorKind::ExpectedVerbatimSeparator => "expected '\\' after the verbatim prefix '\\\\?'"@,
            ParseErrorKind::ExpectedDriveLetter => "expected a drive letter and ':' after the verbatim prefix"@,
            ParseErrorKind::ExpectedSeparatorAfterPrefix => "expected a path separator or the end after the path prefix"@,
            ParseErrorKind::InvalidVerbatimPath => "invalid verbatim path"@,
            ParseErrorKind::ParentDirInAbsolutePattern => "cannot use '..' components in absolute path patterns"@,
            ParseErrorKind::ParentDirAfterStart => "cannot use '..' components after the beginning of the pattern"@,
            ParseErrorKind::UnexpectedSymbol => "unexpected symbol"@,
        }
    }

    /// The message for this kind of error, for people to read.
    pub fn message(&self) -> (r: &'static str)
        ensures
            r@ == self.text(),
    {
        match self {
            ParseErrorKind::MisplacedWildcard => "wildcard components '**' must be preceded and followed by path separators",
            ParseErrorKind::ExpectedEscapable => "expected a special character to escape",
            ParseErrorKind::UnknownCharacterClass => "expected a valid character class",
            ParseErrorKind::UnclosedCharacterClass => "expected ':]' after the character class",
            ParseErrorKind::EmptyBracket => "expected at least one character to match",
            ParseErrorKind::UnclosedBracket => "expected ']'",
            ParseErrorKind::TooFewAlternatives => "expected at least 2 alternative matchers",
            ParseErrorKind::UnclosedGroup => "expected '}'",
            ParseErrorKind::ExpectedVerbatimMark => "expected '?' for a verbatim path after '\\\\'",
            ParseErrorKind::ExpectedVerbatimSeparator => "expected '\\' after the verbatim prefix '\\\\?'",
            ParseErrorKind::ExpectedDriveLetter => "expected a drive letter and ':' after the verbatim prefix",
            ParseErrorKind::ExpectedSeparatorAfterPrefix => "expected a path separator or the end after the path prefix",
            ParseErrorKind::InvalidVerbatimPath => "invalid verbatim path",
            ParseErrorKind::ParentDirInAbsolutePattern => "cannot use '..' components in absolute path patterns",
            ParseErrorKind::ParentDirAfterStart => "cannot use '..' components after the beginning of the pattern",
            ParseErrorKind::UnexpectedSymbol => "unexpected symbol",
        }
    }
}

/// A text is no pattern: what is wrong, and at which character of the text,
/// counted from zero.
#[derive(Debug, Clone, Copy, PartialEq, Eq, Structural)]
pub struct ParseError {
    pub kind: ParseErrorKind,
    pub position: usize,
}

/// What a [`CharsMatcher`] stands for.
pub ghost enum CharsMatcherView {
    AnyChar,
    AnyChars,
    Literal(Seq<char>),
    OneOfChars(Seq<SingleCharMatcher>),
    NoneOfChars(Seq<SingleCharMatcher>),
    OneOfGroups(Seq<Seq<CharsMatcherView>>),
}

/// What a [`RawComponent`] stands for.
pub ghost enum RawComponentView {
    Literal(Seq<char>),
    Suite(Seq<CharsMatcherView>),
    Wildcard,
}

/// What a [`RawPattern`] stands for.
pub ghost struct RawPatternView {
    pub prefix: Option<PathPrefix>,
    pub components: Seq<RawComponentView>,
}

impl View for CharsMatcher {
    type V = CharsMatcherView;

    open spec fn view(&self) -> CharsMatcherView
        decreases self,
    {
        match self {
            CharsMatcher::AnyChar => CharsMatcherView::AnyChar,
            CharsMatcher::AnyChars => CharsMatcherView::AnyChars,
            CharsMatcher::Literal(lit) => CharsMatcherView::Literal(lit@),
            CharsMatcher::OneOfChars(items) => CharsMatcherView::OneOfChars(items@),
            CharsMatcher::NoneOfChars(items) => CharsMatcherView::NoneOfChars(items@),
            CharsMatcher::OneOfGroups(groups) => CharsMatcherView::OneOfGroups(
                Seq::new(
                    groups@.len(),
                    |i: int|
                        if 0 <= i < groups@.len() {
                            Seq::new(
                                groups@[i]@.len(),
                                |k: int|
                                    if 0 <= k < groups@[i]@.len() {
                                        groups@[i]@[k]@
                                    } else {
                                        CharsMatcherView::AnyChar
                                    },
                            )
                        } else {
                            Seq::empty()
                        },
                ),
            ),
        }
    }
}

/// The views of a suite of matchers.
pub open spec fn suite_view(suite: Seq<CharsMatcher>) -> Seq<CharsMatcherView> {
    Seq::new(suite.len(), |k: int| suite[k]@)
}

impl View for RawComponent {
    type V = RawComponentView;

    open spec fn view(&self) -> RawComponentView {
        match self {
            RawComponent::Literal(lit) => RawComponentView::Literal(lit@),
            RawComponent::Suite(suite) => RawComponentView::Suite(suite_view(suite@)),
            RawComponent::Wildcard => RawComponentView::Wildcard,
        }
    }
}

impl View for RawPattern {
    type V = RawPatternView;

    open spec fn view(&self) -> RawPatternView {
        RawPatternView { prefix: self.prefix, components: components_view(self.components@) }
    }
}

/// The views of the alternatives of a group.
pub open spec fn groups_view(groups: Seq<Vec<CharsMatcher>>) -> Seq<Seq<CharsMatcherView>> {
    Seq::new(groups.len(), |g: int| suite_view(groups[g]@))
}

/// The views of parsed components.
pub open spec fn components_view(components: Seq<RawComponent>) -> Seq<RawComponentView> {
    Seq::new(components.len(), |i: int| components[i]@)
}

/// The view of a group is made of the views of its alternatives.
pub proof fn lemma_group_view(groups: Vec<Vec<CharsMatcher>>)
    ensures
        CharsMatcher::OneOfGroups(groups)@ == CharsMatcherView::OneOfGroups(groups_view(groups@)),
{
    let direct = CharsMatcher::OneOfGroups(groups)@->OneOfGroups_0;
    let stated = groups_view(groups@);
    assert(direct.len() == stated.len());
    assert forall|g: int| 0 <= g < direct.len() implies direct[g] =~= stated[g] by {}
    assert(direct =~= stated);
}

fn is_special_char(c: char) -> (r: bool)
    ensures
        r == is_special(c),
{
    c == '[' || c == ']' || c == '{' || c == '}' || c == '*' || c == '?' || c == '\\' || c == '/'
        || c == '|' || c == ':'
}

fn is_separator_char(c: char) -> (r: bool)
    ensures
        r == is_separator(c),
{
    c == '/' || c == '\\'
}

/// The position behind `word` where it stands in `chars` at position `i`.
fn word_end(chars: &[char], i: usize, word: &str) -> (r: Option<usize>)
    requires
        i <= chars.len(),
    ensures
        r is Some <==> starts_with(chars@, i as int, word@),
        r matches Some(end) ==> end == i + word@.len(),
{
    let n = word.unicode_len();
    if n > chars.len() - i {
        return None;
    }
    let mut k: usize = 0;
    while k < n
        invariant
            k <= n,
            i + n <= chars.len(),
            n == word@.len(),
            forall|j: int| 0 <= j < k ==> chars@[i + j] == word@[j],
        decreases n - k,
    {
        if chars[i + k] != word.get_char(k) {
            assert(chars@.subrange(i as int, i + n)[k as int] != word@[k as int]);
            return None;
        }
        k += 1;
    }
    assert(chars@.subrange(i as int, i + n) =~= word@);
    Some(i + n)
}

/// The class whose name stands in `chars` at position `i`, and the position behind
/// the name.
fn read_class(chars: &[char], i: usize) -> (r: Option<(CharacterClass, usize)>)
    requires
        i <= chars.len(),
    ensures
        match r {
            Some((class, end)) => class_at(chars@, i as int) == Some(class) && end == i
                + class_name(class).len() && end <= chars.len(),
            None => class_at(chars@, i as int) is None,
        },
{
    if let Some(end) = word_end(chars, i, "alphanumeric") {
        Some((CharacterClass::Alphanumeric, end))
    } else if let Some(end) = word_end(chars, i, "alpha") {
        Some((CharacterClass::Alpha, end))
    } else if let Some(end) = word_end(chars, i, "digit") {
        Some((CharacterClass::Digit, end))
    } else if let Some(end) = word_end(chars, i, "uppercase") {
        Some((CharacterClass::Uppercase, end))
    } else if let Some(end) = word_end(chars, i, "lowercase") {
        Some((CharacterClass::Lowercase, end))
    } else if let Some(end) = word_end(chars, i, "whitespace") {
        Some((CharacterClass::Whitespace, end))
    } else {
        None
    }
}

/// Reads one item of a bracket matcher at position `i`.
fn read_single_char_matcher(chars: &[char], i: usize) -> (r: Result<
    Option<(SingleCharMatcher, usize)>,
    ParseError,
>)
    requires
        i <= chars.len(),
    ensures
        match r {
            Ok(Some((value, next))) => single_char_matcher_at(chars@, i as int) == (Parsed::Done {
                value,
                next: next as int,
            }) && i < next <= chars.len(),
            Ok(None) => single_char_matcher_at(chars@, i as int) == Parsed::<
                SingleCharMatcher,
            >::Miss,
            Err(error) => single_char_matcher_at(chars@, i as int) == (Parsed::<
                SingleCharMatcher,
            >::Fail { error }),
        },
{
    if i >= chars.len() {
        return Ok(None);
    }
    let c = chars[i];
    if !is_special_char(c) {
        Ok(Some((SingleCharMatcher::Literal(c), i + 1)))
    } else if c == '\\' {
        if i + 1 < chars.len() && is_special_char(chars[i + 1]) && !is_separator_char(chars[i + 1]) {
            Ok(Some((SingleCharMatcher::Literal(chars[i + 1]), i + 2)))
        } else {
            Err(ParseError { kind: ParseErrorKind::ExpectedEscapable, position: i + 1 })
        }
    } else if c == '[' && i + 1 < chars.len() && chars[i + 1] == ':' {
        match read_class(chars, i + 2) {
            Some((class, end)) => match word_end(chars, end, ":]") {
                Some(next) => {
                    proof {
                        reveal_strlit(":]");
                    }
                    Ok(Some((SingleCharMatcher::Class(class), next)))
                },
                None => Err(ParseError { kind: ParseErrorKind::UnclosedCharacterClass, position: end }),
            },
            None => Err(ParseError { kind: ParseErrorKind::UnknownCharacterClass, position: i + 2 }),
        }
    } else {
        Ok(None)
    }
}

/// Reads the items of a bracket matcher from position `i` on.
fn read_single_char_matchers(chars: &[char], i: usize) -> (r: Result<
    (Vec<SingleCharMatcher>, usize),
    ParseError,
>)
    requires
        i <= chars.len(),
    ensures
        match r {
            Ok((items, next)) => single_char_matchers_at(chars@, i as int) == (Parsed::Done {
                value: items@,
                next: next as int,
            }) && i <= next <= chars.len(),
            Err(error) => single_char_matchers_at(chars@, i as int) == (Parsed::<
                Seq<SingleCharMatcher>,
            >::Fail { error }),
        },
{
    let ghost whole = single_char_matchers_at(chars@, i as int);
    let mut items: Vec<SingleCharMatcher> = Vec::new();
    let mut at: usize = i;
    assert(Seq::<SingleCharMatcher>::empty() + seq![] =~= seq![]);
    loop
        invariant
            i <= at <= chars.len(),
            whole == single_char_matchers_at(chars@, i as int),
            whole == with_front(items@, single_char_matchers_at(chars@, at as int)),
        decreases chars.len() - at,
    {
        match read_single_char_matcher(chars, at) {
            Ok(Some((value, next))) => {
                proof {
                    let rest = single_char_matchers_at(chars@, next as int);
                    if let Parsed::Done { value: more, next: end } = rest {
                        assert(items@ + (seq![value] + more) =~= items@.push(value) + more);
                    }
                }
                items.push(value);
                at = next;
            },
            Ok(None) => {
                assert(items@ + Seq::<SingleCharMatcher>::empty() =~= items@);
                return Ok((items, at));
            },
            Err(error) => {
                return Err(error);
            },
        }
    }
}

/// The position behind the run of characters without a special meaning that
/// starts at `i`.
fn read_literal_end(chars: &[char], i: usize) -> (end: usize)
    requires
        i <= chars.len(),
    ensures
        end == literal_end(chars@, i as int),
        i <= end <= chars.len(),
        i < chars.len() && !is_special(chars@[i as int]) ==> i < end,
{
    let mut end: usize = i;
    while end < chars.len() && !is_special_char(chars[end])
        invariant
            i <= end <= chars.len(),
            literal_end(chars@, i as int) == literal_end(chars@, end as int),
        decreases chars.len() - end,
    {
        end += 1;
    }
    end
}

/// Reads one matcher at position `i`.
fn read_chars_matcher(chars: &[char], i: usize) -> (r: Result<
    Option<(CharsMatcher, usize)>,
    ParseError,
>)
    requires
        i <= chars.len(),
    ensures
        match r {
            Ok(Some((matcher, next))) => chars_matcher_at(chars@, i as int) == (Parsed::Done {
                value: matcher@,
                next: next as int,
            }) && i < next <= chars.len(),
            Ok(None) => chars_matcher_at(chars@, i as int) == Parsed::<CharsMatcherView>::Miss,
            Err(error) => chars_matcher_at(chars@, i as int) == (Parsed::<
                CharsMatcherView,
            >::Fail { error }),
        },
    decreases chars.len() - i, 0int,
{
    if i >= chars.len() {
        return Ok(None);
    }
    let c = chars[i];
    if !is_special_char(c) {
        let end = read_literal_end(chars, i);
        let lit = string_of(chars, i, end);
        Ok(Some((CharsMatcher::Literal(lit), end)))
    } else if c == '?' {
        Ok(Some((CharsMatcher::AnyChar, i + 1)))
    } else if c == '*' {
        if i + 1 < chars.len() && chars[i + 1] == '*' {
            Err(ParseError { kind: ParseErrorKind::MisplacedWildcard, position: i + 1 })
        } else {
            Ok(Some((CharsMatcher::AnyChars, i + 1)))
        }
    } else if c == '[' {
        let negated = i + 1 < chars.len() && chars[i + 1] == '!';
        let start = if negated {
            i + 2
        } else {
            i + 1
        };
        match read_single_char_matchers(chars, start) {
            Ok((items, next)) => {
                if items.len() == 0 {
                    Err(ParseError { kind: ParseErrorKind::EmptyBracket, position: start })
                } else if next < chars.len() && chars[next] == ']' {
                    if negated {
                        Ok(Some((CharsMatcher::NoneOfChars(items), next + 1)))
                    } else {
                        Ok(Some((CharsMatcher::OneOfChars(items), next + 1)))
                    }
                } else {
                    Err(ParseError { kind: ParseErrorKind::UnclosedBracket, position: next })
                }
            },
            Err(error) => Err(error),
        }
    } else if c == '{' {
        match read_alternatives(chars, i + 1) {
            Ok((groups, next)) => {
                if groups.len() < 2 {
                    Err(ParseError { kind: ParseErrorKind::TooFewAlternatives, position: i + 1 })
                } else if next < chars.len() && chars[next] == '}' {
                    proof {
                        lemma_group_view(groups);
                    }
                    Ok(Some((CharsMatcher::OneOfGroups(groups), next + 1)))
                } else {
                    Err(ParseError { kind: ParseErrorKind::UnclosedGroup, position: next })
                }
            },
            Err(error) => Err(error),
        }
    } else {
        Ok(None)
    }
}

/// Reads the matchers from position `i` on.
fn read_suite(chars: &[char], i: usize) -> (r: Result<(Vec<CharsMatcher>, usize), ParseError>)
    requires
        i <= chars.len(),
    ensures
        match r {
            Ok((suite, next)) => suite_at(chars@, i as int) == (Parsed::Done {
                value: suite_view(suite@),
                next: next as int,
            }) && i <= next <= chars.len() && (suite.len() > 0 ==> i < next),
            Err(error) => suite_at(chars@, i as int) == (Parsed::<Seq<CharsMatcherView>>::Fail {
                error,
            }),
        },
    decreases chars.len() - i, 1int,
{
    let ghost whole = suite_at(chars@, i as int);
    let mut suite: Vec<CharsMatcher> = Vec::new();
    let mut at: usize = i;
    assert(suite_view(suite@) =~= Seq::empty());
    loop
        invariant
            i <= at <= chars.len(),
            suite.len() > 0 ==> i < at,
            whole == suite_at(chars@, i as int),
            whole == with_front(suite_view(suite@), suite_at(chars@, at as int)),
        decreases chars.len() - at,
    {
        match read_chars_matcher(chars, at) {
            Ok(Some((matcher, next))) => {
                let ghost before = suite_view(suite@);
                let ghost value = matcher@;
                suite.push(matcher);
                proof {
                    assert(suite_view(suite@) =~= before.push(value));
                    let rest = suite_at(chars@, next as int);
                    if let Parsed::Done { value: more, next: end } = rest {
                        assert(before + (seq![value] + more) =~= before.push(value) + more);
                    }
                }
                at = next;
            },
            Ok(None) => {
                assert(suite_view(suite@) + Seq::<CharsMatcherView>::empty() =~= suite_view(
                    suite@,
                ));
                return Ok((suite, at));
            },
            Err(error) => {
                return Err(error);
            },
        }
    }
}

/// Reads the alternatives of a group from position `i` on.
fn read_alternatives(chars: &[char], i: usize) -> (r: Result<
    (Vec<Vec<CharsMatcher>>, usize),
    ParseError,
>)
    requires
        i <= chars.len(),
    ensures
        match r {
            Ok((groups, next)) => alternatives_at(chars@, i as int) == (Parsed::Done {
                value: groups_view(groups@),
                next: next as int,
            }) && i <= next <= chars.len(),
            Err(error) => alternatives_at(chars@, i as int) == (Parsed::<
                Seq<Seq<CharsMatcherView>>,
            >::Fail { error }),
        },
    decreases chars.len() - i, 2int,
{
    let ghost whole = alternatives_at(chars@, i as int);
    let mut groups: Vec<Vec<CharsMatcher>> = Vec::new();
    let mut at: usize = i;
    match read_suite(chars, i) {
        Ok((suite, next)) => {
            if suite.len() == 0 {
                assert(groups_view(groups@) =~= Seq::empty());
                return Ok((groups, i));
            }
            let ghost first = suite_view(suite@);
            groups.push(suite);
            assert(groups_view(groups@) =~= seq![first]);
            at = next;
        },
        Err(error) => {
            return Err(error);
        },
    }
    loop
        invariant
            i < at <= chars.len(),
            whole == alternatives_at(chars@, i as int),
            whole == with_front(groups_view(groups@), more_alternatives_at(chars@, at as int)),
        decreases chars.len() - at,
    {
        if !(at < chars.len() && chars[at] == '|') {
            assert(groups_view(groups@) + Seq::<Seq<CharsMatcherView>>::empty() =~= groups_view(
                groups@,
            ));
            return Ok((groups, at));
        }
        match read_suite(chars, at + 1) {
            Ok((suite, next)) => {
                if suite.len() == 0 {
                    assert(groups_view(groups@) + Seq::<Seq<CharsMatcherView>>::empty()
                        =~= groups_view(groups@));
                    return Ok((groups, at));
                }
                let ghost before = groups_view(groups@);
                let ghost value = suite_view(suite@);
                groups.push(suite);
                proof {
                    assert(groups_view(groups@) =~= before.push(value));
                    let rest = more_alternatives_at(chars@, next as int);
                    if let Parsed::Done { value: more, next: end } = rest {
                        assert(before + (seq![value] + more) =~= before.push(value) + more);
                    }
                }
                at = next;
            },
            Err(error) => {
                return Err(error);
            },
        }
    }
}

/// The component that a suite of matchers makes.
fn component_from_suite(suite: Vec<CharsMatcher>) -> (component: RawComponent)
    ensures
        component@ == component_of(suite_view(suite@)),
{
    let mut suite = suite;
    let ghost views = suite_view(suite@);
    if suite.len() == 0 {
        RawComponent::Literal(String::new())
    } else if suite.len() == 1 {
        match suite.pop() {
            Some(CharsMatcher::Literal(lit)) => {
                assert(views[0] == CharsMatcherView::Literal(lit@));
                RawComponent::Literal(lit)
            },
            Some(other) => {
                assert(views[0] == other@);
                let mut single: Vec<CharsMatcher> = Vec::new();
                single.push(other);
                assert(suite_view(single@) =~= views);
                RawComponent::Suite(single)
            },
            None => RawComponent::Suite(suite),
        }
    } else {
        RawComponent::Suite(suite)
    }
}

/// Reads one component at position `i`.
fn read_component(chars: &[char], i: usize) -> (r: Result<(RawComponent, usize), ParseError>)
    requires
        i <= chars.len(),
    ensures
        match r {
            Ok((component, next)) => component_at(chars@, i as int) == (Parsed::Done {
                value: component@,
                next: next as int,
            }) && i <= next <= chars.len(),
            Err(error) => component_at(chars@, i as int) == (Parsed::<RawComponentView>::Fail {
                error,
            }),
        },
{
    match word_end(chars, i, "**") {
        Some(end) => {
            proof {
                reveal_strlit("**");
            }
            if end == chars.len() || is_separator_char(chars[end]) {
                Ok((RawComponent::Wildcard, end))
            } else {
                Err(ParseError { kind: ParseErrorKind::MisplacedWildcard, position: end })
            }
        },
        None => match read_suite(chars, i) {
            Ok((suite, next)) => Ok((component_from_suite(suite), next)),
            Err(error) => Err(error),
        },
    }
}

fn is_letter(c: char) -> (r: bool)
    ensures
        r == is_ascii_letter(c),
{
    ('a' <= c && c <= 'z') || ('A' <= c && c <= 'Z')
}

/// Reads the end of a drive prefix whose colon stands before position `i`.
fn read_drive_end(chars: &[char], letter: char, i: usize) -> (r: Result<
    (Option<PathPrefix>, usize),
    ParseError,
>)
    requires
        i <= chars.len(),
        is_ascii_letter(letter),
    ensures
        match r {
            Ok((prefix, next)) => drive_end(chars@, letter, i as int) == (Parsed::Done {
                value: prefix,
                next: next as int,
            }) && next <= chars.len(),
            Err(error) => drive_end(chars@, letter, i as int) == (Parsed::<
                Option<PathPrefix>,
            >::Fail { error }),
        },
{
    let found = match WindowsDrive::try_from(letter) {
        Ok(found) => found,
        Err(_) => {
            return Err(ParseError { kind: ParseErrorKind::ExpectedDriveLetter, position: i });
        },
    };
    let prefix = Some(PathPrefix::WindowsDrive(found));
    if i == chars.len() {
        Ok((prefix, i))
    } else if is_separator_char(chars[i]) {
        Ok((prefix, i + 1))
    } else {
        Err(ParseError { kind: ParseErrorKind::ExpectedSeparatorAfterPrefix, position: i })
    }
}

/// Reads the prefix at the start of the text.
fn read_prefix(chars: &[char]) -> (r: Result<(Option<PathPrefix>, usize), ParseError>)
    ensures
        match r {
            Ok((prefix, next)) => prefix_at(chars@) == (Parsed::Done {
                value: prefix,
                next: next as int,
            }) && next <= chars.len(),
            Err(error) => prefix_at(chars@) == (Parsed::<Option<PathPrefix>>::Fail { error }),
        },
{
    let n = chars.len();
    if n >= 2 && is_letter(chars[0]) && chars[1] == ':' {
        read_drive_end(chars, chars[0], 2)
    } else if n >= 2 && chars[0] == '\\' && chars[1] == '\\' {
        if !(n > 2 && chars[2] == '?') {
            Err(ParseError { kind: ParseErrorKind::ExpectedVerbatimMark, position: 2 })
        } else if !(n > 3 && chars[3] == '\\') {
            Err(ParseError { kind: ParseErrorKind::ExpectedVerbatimSeparator, position: 3 })
        } else if !(n > 4 && is_letter(chars[4])) {
            Err(ParseError { kind: ParseErrorKind::ExpectedDriveLetter, position: 4 })
        } else if !(n > 5 && chars[5] == ':') {
            Err(ParseError { kind: ParseErrorKind::ExpectedDriveLetter, position: 5 })
        } else {
            read_drive_end(chars, chars[4], 6)
        }
    } else if n >= 1 && is_separator_char(chars[0]) {
        if n >= 2 && chars[1] == '\\' {
            Err(ParseError { kind: ParseErrorKind::InvalidVerbatimPath, position: 1 })
        } else {
            Ok((Some(PathPrefix::RootDir), 1))
        }
    } else {
        Ok((None, 0))
    }
}

/// Whether a component is the literal `..`.
fn is_parent_dir_component(component: &RawComponent) -> (r: bool)
    ensures
        r == is_parent_dir(component@),
{
    match component {
        RawComponent::Literal(lit) => is_parent_dir_text(lit.as_str()),
        _ => false,
    }
}

/// Whether a component is left out of the parsed pattern.
fn is_skipped_component(component: &RawComponent) -> (r: bool)
    ensures
        r == is_skipped(component@),
{
    match component {
        RawComponent::Literal(lit) => {
            let n = lit.as_str().unicode_len();
            let r = n == 0 || (n == 1 && lit.as_str().get_char(0) == '.');
            assert(n == 0 ==> lit@ =~= Seq::empty());
            assert(r == (lit@ =~= Seq::empty() || lit@ =~= seq!['.']));
            r
        },
        _ => false,
    }
}

/// Parses a pattern.
///
/// The result is the pattern that the grammar gives for the text, without its empty
/// and `.` components, or the first thing that is wrong with the text.
pub fn parse_pattern(input: &str) -> (r: Result<RawPattern, ParseError>)
    ensures
        match r {
            Ok(pattern) => pattern_of(input@) == Ok::<RawPatternView, ParseError>(pattern@)
                && pattern@.well_formed(),
            Err(error) => pattern_of(input@) == Err::<RawPatternView, ParseError>(error),
        },
{
    proof {
        lemma_pattern_is_well_formed(input@);
    }
    let text = chars_of(input);
    let chars = text.as_slice();
    let (prefix, start) = match read_prefix(chars) {
        Ok(found) => found,
        Err(error) => {
            return Err(error);
        },
    };
    let ghost whole = components_at(chars@, start as int);
    let ghost mut all: Seq<RawComponentView> = Seq::empty();
    let mut kept: Vec<RawComponent> = Vec::new();
    let mut seen_parent = false;
    let mut seen_other = false;
    let mut seen_late = false;
    let mut at: usize = start;
    let mut end: usize = start;
    assert(components_view(kept@) =~= kept_components(all));
    loop
        invariant_except_break
            start <= at <= chars.len(),
            whole == with_front(all, components_at(chars@, at as int)),
        invariant
            chars@ == input@,
            prefix_at(chars@) == (Parsed::Done { value: prefix, next: start as int }),
            whole == components_at(chars@, start as int),
            components_view(kept@) == kept_components(all),
            seen_parent == has_parent_dir(all),
            seen_other == has_other(all),
            seen_late == has_late_parent_dir(all),
        ensures
            end <= chars.len(),
            whole == (Parsed::Done { value: all, next: end as int }),
        decreases chars.len() - at,
    {
        match read_component(chars, at) {
            Ok((component, next)) => {
                let ghost value = component@;
                let ghost before = all;
                proof {
                    lemma_parent_dirs_push(all, value);
                    all = all.push(value);
                    assert(all.drop_last() =~= before);
                    let rest = components_at(chars@, next + 1);
                    if let Parsed::Done { value: more, next: last } = rest {
                        assert(before + (seq![value] + more) =~= all + more);
                    }
                    assert(before + seq![value] =~= all);
                }
                if is_parent_dir_component(&component) {
                    seen_parent = true;
                    if seen_other {
                        seen_late = true;
                    }
                } else {
                    seen_other = true;
                }
                if !is_skipped_component(&component) {
                    let ghost views = components_view(kept@);
                    kept.push(component);
                    assert(components_view(kept@) =~= views.push(value));
                }
                if next < chars.len() && is_separator_char(chars[next]) {
                    at = next + 1;
                } else {
                    end = next;
                    break ;
                }
            },
            Err(error) => {
                return Err(error);
            },
        }
    }
    if seen_parent && prefix.is_some() {
        Err(ParseError { kind: ParseErrorKind::ParentDirInAbsolutePattern, position: 0 })
    } else if seen_late {
        Err(ParseError { kind: ParseErrorKind::ParentDirAfterStart, position: 0 })
    } else if end != chars.len() {
        Err(ParseError { kind: ParseErrorKind::UnexpectedSymbol, position: end })
    } else {
        Ok(RawPattern { prefix, components: kept })
    }
}

} // verus!
