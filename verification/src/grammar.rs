//! The grammar of patterns, as a mathematical function from text to parsed pattern.
//!
//! A pattern is an optional prefix followed by components, which single separators
//! (`/` or `\`) part. A component is `**`, or a possibly empty suite of matchers:
//! literal runs, `?`, `*`, bracket matchers `[..]` and groups `{..|..}`. Positions are
//! counted in characters from the start of the text.

use crate::compiler::parent_dir_text;
use crate::parser::{
    CharacterClass, CharsMatcherView, ParseError, ParseErrorKind, RawComponentView,
    RawPatternView, SingleCharMatcher,
};
use crate::paths::{ascii_uppercase, drive, is_ascii_letter, PathPrefix};
use vstd::prelude::*;

verus! {

/// What reading one piece of the grammar at a position gives.
pub ghost enum Parsed<T> {
    /// A value was read; `next` is the position behind it.
    Done { value: T, next: int },
    /// No piece of this kind starts at the position.
    Miss,
    /// The text is no pattern.
    Fail { error: ParseError },
}

/// The failure of kind `kind` at position `at`.
pub open spec fn fail<T>(kind: ParseErrorKind, at: int) -> Parsed<T> {
    Parsed::Fail { error: ParseError { kind, position: at as usize } }
}

/// `parsed` with the values `front` put before the values that it read.
pub open spec fn with_front<T>(front: Seq<T>, parsed: Parsed<Seq<T>>) -> Parsed<Seq<T>> {
    match parsed {
        Parsed::Done { value, next } => Parsed::Done { value: front + value, next },
        Parsed::Miss => Parsed::Miss,
        Parsed::Fail { error } => Parsed::Fail { error },
    }
}

/// The characters with a meaning of their own in a pattern.
pub open spec fn is_special(c: char) -> bool {
    c == '[' || c == ']' || c == '{' || c == '}' || c == '*' || c == '?' || c == '\\' || c == '/'
        || c == '|' || c == ':'
}

/// The two path separators.
pub open spec fn is_separator(c: char) -> bool {
    c == '/' || c == '\\'
}

/// The special characters that a backslash can escape inside a bracket matcher:
/// all of them but the separators.
pub open spec fn is_escapable(c: char) -> bool {
    is_special(c) && !is_separator(c)
}

/// Whether `word` stands in `s` at position `i`.
pub open spec fn starts_with(s: Seq<char>, i: int, word: Seq<char>) -> bool {
    0 <= i && i + word.len() <= s.len() && s.subrange(i, i + word.len()) == word
}

/// The name of a character class.
pub open spec fn class_name(class: CharacterClass) -> Seq<char> {
    match class {
        CharacterClass::Alpha => "alpha"@,
        CharacterClass::Digit => "digit"@,
        CharacterClass::Alphanumeric => "alphanumeric"@,
        CharacterClass::Uppercase => "uppercase"@,
        CharacterClass::Lowercase => "lowercase"@,
        CharacterClass::Whitespace => "whitespace"@,
    }
}

/// The class whose name stands in `s` at position `i`, the longer name first where
/// one name starts another.
pub open spec fn class_at(s: Seq<char>, i: int) -> Option<CharacterClass> {
    if starts_with(s, i, class_name(CharacterClass::Alphanumeric)) {
        Some(CharacterClass::Alphanumeric)
    } else if starts_with(s, i, class_name(CharacterClass::Alpha)) {
        Some(CharacterClass::Alpha)
    } else if starts_with(s, i, class_name(CharacterClass::Digit)) {
        Some(CharacterClass::Digit)
    } else if starts_with(s, i, class_name(CharacterClass::Uppercase)) {
        Some(CharacterClass::Uppercase)
    } else if starts_with(s, i, class_name(CharacterClass::Lowercase)) {
        Some(CharacterClass::Lowercase)
    } else if starts_with(s, i, class_name(CharacterClass::Whitespace)) {
        Some(CharacterClass::Whitespace)
    } else {
        None
    }
}

/// The position behind the run of characters without a special meaning that starts
/// at `i`.
pub open spec fn literal_end(s: Seq<char>, i: int) -> int
    decreases s.len() - i,
{
    if 0 <= i < s.len() && !is_special(s[i]) {
        literal_end(s, i + 1)
    } else {
        i
    }
}

/// One item of a bracket matcher: a character without a special meaning, an escaped
/// special character (`\[`), or a character class (`[:alpha:]`).
pub open spec fn single_char_matcher_at(s: Seq<char>, i: int) -> Parsed<SingleCharMatcher> {
    if !(0 <= i < s.len()) {
        Parsed::Miss
    } else if !is_special(s[i]) {
        Parsed::Done { value: SingleCharMatcher::Literal(s[i]), next: i + 1 }
    } else if s[i] == '\\' {
        if i + 1 < s.len() && is_escapable(s[i + 1]) {
            Parsed::Done { value: SingleCharMatcher::Literal(s[i + 1]), next: i + 2 }
        } else {
            fail(ParseErrorKind::ExpectedEscapable, i + 1)
        }
    } else if s[i] == '[' && i + 1 < s.len() && s[i + 1] == ':' {
        match class_at(s, i + 2) {
            Some(class) => {
                let end = i + 2 + class_name(class).len();
                if starts_with(s, end, ":]"@) {
                    Parsed::Done { value: SingleCharMatcher::Class(class), next: end + 2 }
                } else {
                    fail(ParseErrorKind::UnclosedCharacterClass, end)
                }
            },
            None => fail(ParseErrorKind::UnknownCharacterClass, i + 2),
        }
    } else {
        Parsed::Miss
    }
}

/// The items of a bracket matcher from `i` on, as many as there are.
pub open spec fn single_char_matchers_at(s: Seq<char>, i: int) -> Parsed<Seq<SingleCharMatcher>>
    decreases s.len() - i,
{
    match single_char_matcher_at(s, i) {
        Parsed::Done { value, next } => if i < next <= s.len() {
            with_front(seq![value], single_char_matchers_at(s, next))
        } else {
            Parsed::Done { value: Seq::empty(), next: i }
        },
        Parsed::Miss => Parsed::Done { value: Seq::empty(), next: i },
        Parsed::Fail { error } => Parsed::Fail { error },
    }
}

/// One matcher: a literal run, `?`, `*`, a bracket matcher `[..]` or `[!..]` with at
/// least one item, or a group `{..|..}` with at least two alternatives.
pub open spec fn chars_matcher_at(s: Seq<char>, i: int) -> Parsed<CharsMatcherView>
    decreases s.len() - i, 0int,
{
    if !(0 <= i < s.len()) {
        Parsed::Miss
    } else if !is_special(s[i]) {
        Parsed::Done {
            value: CharsMatcherView::Literal(s.subrange(i, literal_end(s, i))),
            next: literal_end(s, i),
        }
    } else if s[i] == '?' {
        Parsed::Done { value: CharsMatcherView::AnyChar, next: i + 1 }
    } else if s[i] == '*' {
        if i + 1 < s.len() && s[i + 1] == '*' {
            fail(ParseErrorKind::MisplacedWildcard, i + 1)
        } else {
            Parsed::Done { value: CharsMatcherView::AnyChars, next: i + 1 }
        }
    } else if s[i] == '[' {
        let negated = i + 1 < s.len() && s[i + 1] == '!';
        let start = if negated {
            i + 2
        } else {
            i + 1
        };
        match single_char_matchers_at(s, start) {
            Parsed::Done { value, next } => if value.len() == 0 {
                fail(ParseErrorKind::EmptyBracket, start)
            } else if 0 <= next < s.len() && s[next] == ']' {
                Parsed::Done {
                    value: if negated {
                        CharsMatcherView::NoneOfChars(value)
                    } else {
                        CharsMatcherView::OneOfChars(value)
                    },
                    next: next + 1,
                }
            } else {
                fail(ParseErrorKind::UnclosedBracket, next)
            },
            Parsed::Miss => Parsed::Miss,
            Parsed::Fail { error } => Parsed::Fail { error },
        }
    } else if s[i] == '{' {
        match alternatives_at(s, i + 1) {
            Parsed::Done { value, next } => if value.len() < 2 {
                fail(ParseErrorKind::TooFewAlternatives, i + 1)
            } else if 0 <= next < s.len() && s[next] == '}' {
                Parsed::Done { value: CharsMatcherView::OneOfGroups(value), next: next + 1 }
            } else {
                fail(ParseErrorKind::UnclosedGroup, next)
            },
            Parsed::Miss => Parsed::Miss,
            Parsed::Fail { error } => Parsed::Fail { error },
        }
    } else {
        Parsed::Miss
    }
}

/// The matchers from `i` on, as many as there are.
pub open spec fn suite_at(s: Seq<char>, i: int) -> Parsed<Seq<CharsMatcherView>>
    decreases s.len() - i, 1int,
{
    match chars_matcher_at(s, i) {
        Parsed::Done { value, next } => if i < next <= s.len() {
            with_front(seq![value], suite_at(s, next))
        } else {
            Parsed::Done { value: Seq::empty(), next: i }
        },
        Parsed::Miss => Parsed::Done { value: Seq::empty(), next: i },
        Parsed::Fail { error } => Parsed::Fail { error },
    }
}

/// The alternatives of a group from `i` on: suites of at least one matcher, with
/// `|` between them. A `|` that no matcher follows is left unread.
pub open spec fn alternatives_at(s: Seq<char>, i: int) -> Parsed<Seq<Seq<CharsMatcherView>>>
    decreases s.len() - i, 2int,
{
    match suite_at(s, i) {
        Parsed::Done { value, next } => if value.len() == 0 || !(i < next <= s.len()) {
            Parsed::Done { value: Seq::empty(), next: i }
        } else {
            with_front(seq![value], more_alternatives_at(s, next))
        },
        Parsed::Miss => Parsed::Miss,
        Parsed::Fail { error } => Parsed::Fail { error },
    }
}

/// The further alternatives of a group from `i` on, each behind a `|`.
pub open spec fn more_alternatives_at(s: Seq<char>, i: int) -> Parsed<Seq<Seq<CharsMatcherView>>>
    decreases s.len() - i, 0int,
{
    if 0 <= i < s.len() && s[i] == '|' {
        match suite_at(s, i + 1) {
            Parsed::Done { value, next } => if value.len() == 0 || !(i < next <= s.len()) {
                Parsed::Done { value: Seq::empty(), next: i }
            } else {
                with_front(seq![value], more_alternatives_at(s, next))
            },
            Parsed::Miss => Parsed::Miss,
            Parsed::Fail { error } => Parsed::Fail { error },
        }
    } else {
        Parsed::Done { value: Seq::empty(), next: i }
    }
}

/// The component that a suite of matchers makes: no matcher is the empty literal,
/// one literal run is that literal, anything else is the suite.
pub open spec fn component_of(suite: Seq<CharsMatcherView>) -> RawComponentView {
    if suite.len() == 0 {
        RawComponentView::Literal(Seq::empty())
    } else if suite.len() == 1 && suite[0] is Literal {
        RawComponentView::Literal(suite[0]->Literal_0)
    } else {
        RawComponentView::Suite(suite)
    }
}

/// One component: `**`, which only a separator or the end may follow, or a suite of
/// matchers.
pub open spec fn component_at(s: Seq<char>, i: int) -> Parsed<RawComponentView> {
    if starts_with(s, i, "**"@) {
        if i + 2 == s.len() || is_separator(s[i + 2]) {
            Parsed::Done { value: RawComponentView::Wildcard, next: i + 2 }
        } else {
            fail(ParseErrorKind::MisplacedWildcard, i + 2)
        }
    } else {
        match suite_at(s, i) {
            Parsed::Done { value, next } => Parsed::Done { value: component_of(value), next },
            Parsed::Miss => Parsed::Miss,
            Parsed::Fail { error } => Parsed::Fail { error },
        }
    }
}

/// The components from `i` on, with one separator between each two.
pub open spec fn components_at(s: Seq<char>, i: int) -> Parsed<Seq<RawComponentView>>
    decreases s.len() - i,
{
    match component_at(s, i) {
        Parsed::Done { value, next } => if i <= next < s.len() && is_separator(s[next]) {
            with_front(seq![value], components_at(s, next + 1))
        } else {
            Parsed::Done { value: seq![value], next }
        },
        Parsed::Miss => Parsed::Miss,
        Parsed::Fail { error } => Parsed::Fail { error },
    }
}

/// The prefix at the start of the text: a drive letter and a colon (`C:`), the same
/// behind the verbatim mark (`\\?\C:`), or a root separator. A separator or the end
/// of the text follows a drive, and is read with it.
pub open spec fn prefix_at(s: Seq<char>) -> Parsed<Option<PathPrefix>> {
    if s.len() >= 2 && is_ascii_letter(s[0]) && s[1] == ':' {
        drive_end(s, s[0], 2)
    } else if s.len() >= 2 && s[0] == '\\' && s[1] == '\\' {
        if !(s.len() > 2 && s[2] == '?') {
            fail(ParseErrorKind::ExpectedVerbatimMark, 2)
        } else if !(s.len() > 3 && s[3] == '\\') {
            fail(ParseErrorKind::ExpectedVerbatimSeparator, 3)
        } else if !(s.len() > 4 && is_ascii_letter(s[4])) {
            fail(ParseErrorKind::ExpectedDriveLetter, 4)
        } else if !(s.len() > 5 && s[5] == ':') {
            fail(ParseErrorKind::ExpectedDriveLetter, 5)
        } else {
            drive_end(s, s[4], 6)
        }
    } else if s.len() >= 1 && is_separator(s[0]) {
        if s.len() >= 2 && s[1] == '\\' {
            fail(ParseErrorKind::InvalidVerbatimPath, 1)
        } else {
            Parsed::Done { value: Some(PathPrefix::RootDir), next: 1 }
        }
    } else {
        Parsed::Done { value: None, next: 0 }
    }
}

/// The end of a drive prefix whose colon stands before position `i`.
pub open spec fn drive_end(s: Seq<char>, letter: char, i: int) -> Parsed<Option<PathPrefix>> {
    let prefix = Some(PathPrefix::WindowsDrive(drive(ascii_uppercase(letter))));
    if i == s.len() {
        Parsed::Done { value: prefix, next: i }
    } else if 0 <= i < s.len() && is_separator(s[i]) {
        Parsed::Done { value: prefix, next: i + 1 }
    } else {
        fail(ParseErrorKind::ExpectedSeparatorAfterPrefix, i)
    }
}

/// Whether a component is the literal `..`.
pub open spec fn is_parent_dir(component: RawComponentView) -> bool {
    component == RawComponentView::Literal(parent_dir_text())
}

/// Whether a component is left out of the parsed pattern: the empty literal, which
/// doubled, leading and trailing separators give, and the literal `.`.
pub open spec fn is_skipped(component: RawComponentView) -> bool {
    component == RawComponentView::Literal(Seq::empty()) || component == RawComponentView::Literal(
        seq!['.'],
    )
}

/// Whether some component is the literal `..`.
pub open spec fn has_parent_dir(components: Seq<RawComponentView>) -> bool {
    exists|k: int| 0 <= k < components.len() && is_parent_dir(#[trigger] components[k])
}

/// Whether some component is not the literal `..`.
pub open spec fn has_other(components: Seq<RawComponentView>) -> bool {
    exists|j: int| 0 <= j < components.len() && !is_parent_dir(#[trigger] components[j])
}

/// Whether some literal `..` stands behind a component that is not one.
pub open spec fn has_late_parent_dir(components: Seq<RawComponentView>) -> bool {
    exists|j: int, k: int|
        0 <= j < k < components.len() && !is_parent_dir(#[trigger] components[j]) && is_parent_dir(
            #[trigger] components[k],
        )
}

/// What is wrong with the places of the `..` components, if anything: none is
/// allowed behind a prefix, and none behind a component that is not `..`.
pub open spec fn parent_dir_error(
    prefix: Option<PathPrefix>,
    components: Seq<RawComponentView>,
) -> Option<ParseErrorKind> {
    if !has_parent_dir(components) {
        None
    } else if prefix is Some {
        Some(ParseErrorKind::ParentDirInAbsolutePattern)
    } else if has_late_parent_dir(components) {
        Some(ParseErrorKind::ParentDirAfterStart)
    } else {
        None
    }
}

/// The components that stay in the parsed pattern, in order.
pub open spec fn kept_components(components: Seq<RawComponentView>) -> Seq<RawComponentView>
    decreases components.len(),
{
    if components.len() == 0 {
        Seq::empty()
    } else if is_skipped(components.last()) {
        kept_components(components.drop_last())
    } else {
        kept_components(components.drop_last()).push(components.last())
    }
}

/// The pattern that the text `s` denotes, or the reason for which it denotes none.
///
/// The prefix and the components are read first. Then the places of the `..`
/// components are checked, and finally that the components end where the text ends.
pub open spec fn pattern_of(s: Seq<char>) -> Result<RawPatternView, ParseError> {
    match prefix_at(s) {
        Parsed::Done { value: prefix, next: start } => match components_at(s, start) {
            Parsed::Done { value: components, next: end } => match parent_dir_error(
                prefix,
                components,
            ) {
                Some(kind) => Err(ParseError { kind, position: 0 }),
                None => if end == s.len() {
                    Ok(RawPatternView { prefix, components: kept_components(components) })
                } else {
                    Err(ParseError { kind: ParseErrorKind::UnexpectedSymbol, position: end as usize })
                },
            },
            Parsed::Miss => Err(ParseError { kind: ParseErrorKind::UnexpectedSymbol, position: start as usize }),
            Parsed::Fail { error } => Err(error),
        },
        Parsed::Miss => Err(ParseError { kind: ParseErrorKind::UnexpectedSymbol, position: 0 }),
        Parsed::Fail { error } => Err(error),
    }
}

/// Whether no separator stands in a matcher, however deep.
pub open spec fn holds_no_separator(matcher: CharsMatcherView) -> bool
    decreases matcher,
{
    match matcher {
        CharsMatcherView::AnyChar => true,
        CharsMatcherView::AnyChars => true,
        CharsMatcherView::Literal(lit) => forall|k: int|
            0 <= k < lit.len() ==> !is_separator(#[trigger] lit[k]),
        CharsMatcherView::OneOfChars(items) => items_hold_no_separator(items),
        CharsMatcherView::NoneOfChars(items) => items_hold_no_separator(items),
        CharsMatcherView::OneOfGroups(groups) => forall|g: int, k: int|
            0 <= g < groups.len() && 0 <= k < groups[g].len() ==> holds_no_separator(
                #[trigger] groups[g][k],
            ),
    }
}

/// Whether no item of a bracket matcher is a separator.
pub open spec fn items_hold_no_separator(items: Seq<SingleCharMatcher>) -> bool {
    forall|k: int|
        0 <= k < items.len() ==> (#[trigger] items[k] matches SingleCharMatcher::Literal(c)
            ==> !is_separator(c))
}

/// Whether no matcher of a suite holds a separator.
pub open spec fn suite_holds_no_separator(suite: Seq<CharsMatcherView>) -> bool {
    forall|k: int| 0 <= k < suite.len() ==> holds_no_separator(#[trigger] suite[k])
}

/// Whether a component is plain: a literal holds no character with a meaning of its
/// own, the separators among them, and no matcher of a suite holds a separator.
pub open spec fn component_is_plain(component: RawComponentView) -> bool {
    match component {
        RawComponentView::Literal(lit) => forall|k: int|
            0 <= k < lit.len() ==> !is_special(#[trigger] lit[k]),
        RawComponentView::Suite(suite) => suite_holds_no_separator(suite),
        RawComponentView::Wildcard => true,
    }
}

impl RawPatternView {
    /// What holds of every parsed pattern: no component is empty or `.`; each is
    /// plain, and so holds no separator; behind a prefix no component is `..`; and
    /// the `..` components stand together at the start.
    pub open spec fn well_formed(self) -> bool {
        &&& forall|i: int|
            0 <= i < self.components.len() ==> !is_skipped(#[trigger] self.components[i])
                && component_is_plain(self.components[i])
        &&& self.prefix is Some ==> !has_parent_dir(self.components)
        &&& !has_late_parent_dir(self.components)
    }
}

/// A literal run holds no special character.
pub proof fn lemma_literal_run(s: Seq<char>, i: int)
    requires
        0 <= i <= s.len(),
    ensures
        i <= literal_end(s, i) <= s.len(),
        forall|k: int| i <= k < literal_end(s, i) ==> !is_special(#[trigger] s[k]),
    decreases s.len() - i,
{
    if i < s.len() && !is_special(s[i]) {
        lemma_literal_run(s, i + 1);
    }
}

/// The items read of a bracket matcher hold no separator.
pub proof fn lemma_items_hold_no_separator(s: Seq<char>, i: int)
    ensures
        single_char_matchers_at(s, i) matches Parsed::Done { value, .. }
            ==> items_hold_no_separator(value),
    decreases s.len() - i,
{
    if let Parsed::Done { value: first, next } = single_char_matcher_at(s, i) {
        if i < next <= s.len() {
            lemma_items_hold_no_separator(s, next);
            if let Parsed::Done { value: more, .. } = single_char_matchers_at(s, next) {
                let all = seq![first] + more;
                assert forall|k: int| 0 <= k < all.len() implies (#[trigger] all[k] matches SingleCharMatcher::Literal(
                    c,
                ) ==> !is_separator(c)) by {
                    if k > 0 {
                        assert(all[k] == more[k - 1]);
                    }
                }
            }
        }
    }
}

/// A matcher that was read holds no separator.
pub proof fn lemma_matcher_holds_no_separator(s: Seq<char>, i: int)
    ensures
        chars_matcher_at(s, i) matches Parsed::Done { value, .. } ==> holds_no_separator(value),
    decreases s.len() - i, 0int,
{
    if 0 <= i < s.len() {
        if !is_special(s[i]) {
            lemma_literal_run(s, i);
            let lit = s.subrange(i, literal_end(s, i));
            assert forall|k: int| 0 <= k < lit.len() implies !is_separator(#[trigger] lit[k]) by {
                assert(lit[k] == s[i + k]);
            }
        } else if s[i] == '[' {
            let start = if i + 1 < s.len() && s[i + 1] == '!' {
                i + 2
            } else {
                i + 1
            };
            lemma_items_hold_no_separator(s, start);
        } else if s[i] == '{' {
            lemma_alternatives_hold_no_separator(s, i + 1);
        }
    }
}

/// The matchers of a suite that was read hold no separator.
pub proof fn lemma_suite_holds_no_separator(s: Seq<char>, i: int)
    ensures
        suite_at(s, i) matches Parsed::Done { value, .. } ==> suite_holds_no_separator(value),
    decreases s.len() - i, 1int,
{
    lemma_matcher_holds_no_separator(s, i);
    if let Parsed::Done { value: first, next } = chars_matcher_at(s, i) {
        if i < next <= s.len() {
            lemma_suite_holds_no_separator(s, next);
            if let Parsed::Done { value: more, .. } = suite_at(s, next) {
                let all = seq![first] + more;
                assert forall|k: int| 0 <= k < all.len() implies holds_no_separator(
                    #[trigger] all[k],
                ) by {
                    if k > 0 {
                        assert(all[k] == more[k - 1]);
                    }
                }
            }
        }
    }
}

/// Whether no matcher of any alternative holds a separator.
pub open spec fn groups_hold_no_separator(groups: Seq<Seq<CharsMatcherView>>) -> bool {
    forall|g: int, k: int|
        0 <= g < groups.len() && 0 <= k < groups[g].len() ==> holds_no_separator(
            #[trigger] groups[g][k],
        )
}

/// One more alternative in front keeps the alternatives free of separators.
proof fn lemma_groups_with_front(first: Seq<CharsMatcherView>, more: Seq<Seq<CharsMatcherView>>)
    requires
        suite_holds_no_separator(first),
        groups_hold_no_separator(more),
    ensures
        groups_hold_no_separator(seq![first] + more),
{
    let all = seq![first] + more;
    assert forall|g: int, k: int| 0 <= g < all.len() && 0 <= k < all[g].len() implies holds_no_separator(
        #[trigger] all[g][k],
    ) by {
        if g > 0 {
            assert(all[g][k] == more[g - 1][k]);
        } else {
            assert(all[g][k] == first[k]);
        }
    }
}

/// The alternatives that were read hold no separator.
pub proof fn lemma_alternatives_hold_no_separator(s: Seq<char>, i: int)
    ensures
        alternatives_at(s, i) matches Parsed::Done { value, .. } ==> groups_hold_no_separator(
            value,
        ),
    decreases s.len() - i, 2int,
{
    lemma_suite_holds_no_separator(s, i);
    if let Parsed::Done { value: first, next } = suite_at(s, i) {
        if !(first.len() == 0 || !(i < next <= s.len())) {
            lemma_more_alternatives_hold_no_separator(s, next);
            if let Parsed::Done { value: more, .. } = more_alternatives_at(s, next) {
                lemma_groups_with_front(first, more);
            }
        }
    }
}

/// The further alternatives that were read hold no separator.
pub proof fn lemma_more_alternatives_hold_no_separator(s: Seq<char>, i: int)
    ensures
        more_alternatives_at(s, i) matches Parsed::Done { value, .. } ==> groups_hold_no_separator(
            value,
        ),
    decreases s.len() - i, 0int,
{
    if 0 <= i < s.len() && s[i] == '|' {
        lemma_suite_holds_no_separator(s, i + 1);
        if let Parsed::Done { value: first, next } = suite_at(s, i + 1) {
            if !(first.len() == 0 || !(i < next <= s.len())) {
                lemma_more_alternatives_hold_no_separator(s, next);
                if let Parsed::Done { value: more, .. } = more_alternatives_at(s, next) {
                    lemma_groups_with_front(first, more);
                }
            }
        }
    }
}

/// The components that were read are plain.
pub proof fn lemma_components_are_plain(s: Seq<char>, i: int)
    ensures
        components_at(s, i) matches Parsed::Done { value, .. } ==> forall|k: int|
            0 <= k < value.len() ==> component_is_plain(#[trigger] value[k]),
    decreases s.len() - i,
{
    lemma_suite_holds_no_separator(s, i);
    if let Parsed::Done { value: first, next } = component_at(s, i) {
        assert(component_is_plain(first)) by {
            if let Parsed::Done { value: suite, .. } = suite_at(s, i) {
                if suite.len() == 1 && suite[0] is Literal {
                    // The one matcher is the literal run that starts here
                    let run = chars_matcher_at(s, i)->Done_value;
                    let rest = suite_at(s, chars_matcher_at(s, i)->Done_next)->Done_value;
                    assert(suite =~= seq![run] + rest);
                    assert(suite[0] == run);
                    lemma_literal_run(s, i);
                    let lit = s.subrange(i, literal_end(s, i));
                    assert forall|k: int| 0 <= k < lit.len() implies !is_special(
                        #[trigger] lit[k],
                    ) by {
                        assert(lit[k] == s[i + k]);
                    }
                }
            }
        }
        if i <= next < s.len() && is_separator(s[next]) {
            lemma_components_are_plain(s, next + 1);
            if let Parsed::Done { value: more, .. } = components_at(s, next + 1) {
                let all = seq![first] + more;
                assert forall|k: int| 0 <= k < all.len() implies component_is_plain(
                    #[trigger] all[k],
                ) by {
                    if k > 0 {
                        assert(all[k] == more[k - 1]);
                    }
                }
            }
        }
    }
}

/// What one more component changes about the places of the `..` components.
pub proof fn lemma_parent_dirs_push(components: Seq<RawComponentView>, last: RawComponentView)
    ensures
        has_parent_dir(components.push(last)) <==> has_parent_dir(components) || is_parent_dir(last),
        has_other(components.push(last)) <==> has_other(components) || !is_parent_dir(last),
        has_late_parent_dir(components.push(last)) <==> has_late_parent_dir(components) || (
        has_other(components) && is_parent_dir(last)),
{
    let longer = components.push(last);
    let n = components.len() as int;
    assert(longer[n] == last);
    if has_parent_dir(components) {
        let k = choose|k: int| 0 <= k < components.len() && is_parent_dir(#[trigger] components[k]);
        assert(longer[k] == components[k]);
    }
    if has_parent_dir(longer) {
        let k = choose|k: int| 0 <= k < longer.len() && is_parent_dir(#[trigger] longer[k]);
        if k < n {
            assert(longer[k] == components[k]);
        }
    }
    if has_other(components) {
        let j = choose|j: int| 0 <= j < components.len() && !is_parent_dir(#[trigger] components[j]);
        assert(longer[j] == components[j]);
        if is_parent_dir(last) {
            assert(0 <= j < n < longer.len() && !is_parent_dir(longer[j]) && is_parent_dir(
                longer[n],
            ));
        }
    }
    if has_other(longer) {
        let j = choose|j: int| 0 <= j < longer.len() && !is_parent_dir(#[trigger] longer[j]);
        if j < n {
            assert(longer[j] == components[j]);
        }
    }
    if has_late_parent_dir(components) {
        let (j, k) = choose|j: int, k: int|
            0 <= j < k < components.len() && !is_parent_dir(#[trigger] components[j])
                && is_parent_dir(#[trigger] components[k]);
        assert(longer[j] == components[j]);
        assert(longer[k] == components[k]);
    }
    if has_late_parent_dir(longer) {
        let (j, k) = choose|j: int, k: int|
            0 <= j < k < longer.len() && !is_parent_dir(#[trigger] longer[j]) && is_parent_dir(
                #[trigger] longer[k],
            );
        assert(longer[j] == components[j]);
        if k < n {
            assert(longer[k] == components[k]);
        }
    }
}

/// What the kept components keep of all components: none of them is skipped, each
/// is plain where all were, and a `..` among them, a component that
/// is not `..`, or a `..` behind such a component stood among all components too.
pub proof fn lemma_kept_components(components: Seq<RawComponentView>)
    ensures
        forall|i: int|
            0 <= i < kept_components(components).len() ==> !is_skipped(
                #[trigger] kept_components(components)[i],
            ),
        (forall|k: int|
            0 <= k < components.len() ==> component_is_plain(#[trigger] components[k]))
            ==> (forall|i: int|
            0 <= i < kept_components(components).len() ==> component_is_plain(
                #[trigger] kept_components(components)[i],
            )),
        has_parent_dir(kept_components(components)) ==> has_parent_dir(components),
        has_other(kept_components(components)) ==> has_other(components),
        has_late_parent_dir(kept_components(components)) ==> has_late_parent_dir(components),
    decreases components.len(),
{
    let kept = kept_components(components);
    if components.len() > 0 {
        let shorter = components.drop_last();
        let last = components.last();
        let before = kept_components(shorter);
        lemma_kept_components(shorter);
        assert(shorter.push(last) =~= components);
        lemma_parent_dirs_push(shorter, last);
        if !is_skipped(last) {
            lemma_parent_dirs_push(before, last);
        }
        assert forall|i: int| 0 <= i < kept.len() implies !is_skipped(#[trigger] kept[i]) by {
            if i < before.len() {
                assert(kept[i] == before[i]);
            }
        }
        if forall|k: int|
            0 <= k < components.len() ==> component_is_plain(#[trigger] components[k]) {
            assert forall|k: int| 0 <= k < shorter.len() implies component_is_plain(
                #[trigger] shorter[k],
            ) by {
                assert(shorter[k] == components[k]);
            }
            assert forall|i: int| 0 <= i < kept.len() implies component_is_plain(
                #[trigger] kept[i],
            ) by {
                if i < before.len() {
                    assert(kept[i] == before[i]);
                } else {
                    assert(kept[i] == components[components.len() - 1]);
                }
            }
        }
    }
}

/// Every pattern that a text denotes is well formed.
pub proof fn lemma_pattern_is_well_formed(s: Seq<char>)
    ensures
        pattern_of(s) matches Ok(pattern) ==> pattern.well_formed(),
{
    if let Ok(pattern) = pattern_of(s) {
        let start = prefix_at(s)->Done_next;
        let components = components_at(s, start)->Done_value;
        lemma_components_are_plain(s, start);
        lemma_kept_components(components);
    }
}

} // verus!
