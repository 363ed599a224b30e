//! Patterns: parsed, compiled, and matched against paths.

use crate::compiler::{
    compile_component, compiled, compiles, component_accepts, component_views, parent_dir_name,
    parent_dir_text, CaseSensitivity, CompileError, Component, ComponentView,
};
use crate::grammar::{
    component_is_plain, is_skipped, is_special, lemma_pattern_is_well_formed, pattern_of,
};
use crate::matcher::{
    accepts, accepts_first_name, accepts_name, leading, leads_off_drive, lemma_parent_dir_is_name,
    lemma_starved_can_match, lemma_trailing_wildcard, match_components, match_result, nameable,
    PatternMatchResult,
};
use crate::opaque_os_str::widened;
use crate::parser::{
    components_view, parse_pattern, ParseError, RawComponent, RawComponentView, RawPattern,
    RawPatternView,
};
use crate::paths::{
    is_name, is_separator_byte, lemma_normalized_is_well_formed, lemma_path_text_normalizes,
    normalize_path, normalized, path_text, reads_as_drive, NormalizedPath, NormalizedPathView,
    PathPrefix, UnsupportedWindowsPrefix,
};
use crate::text::string_push;
use vstd::prelude::*;
use vstd::string::StringExecFns;
use vstd::utf8::{char_u32_cast, encode_scalar, encode_utf8};

verus! {

/// Options for pattern matching.
#[derive(Debug, Clone, Copy)]
pub struct PatternOpts {
    /// Ignore case during matching: `a` then matches both `a` and `A`.
    ///
    /// Disabled by default.
    pub case_insensitive: bool,
}

impl Default for PatternOpts {
    fn default() -> (r: Self)
        ensures
            !r.case_insensitive,
    {
        PatternOpts { case_insensitive: false }
    }
}

/// The reason for which a text gives no pattern.
#[derive(Debug, Clone, Copy, PartialEq, Eq, Structural)]
pub enum PatternError {
    /// The text is no pattern.
    Parse(ParseError),
    /// The engine refused a character run of the pattern.
    Compile(CompileError),
}

/// A pattern that can be matched against filesystem paths.
///
/// # Syntax
///
/// * Normal characters match themselves
/// * `?` matches any character
/// * `*` matches any suite of characters, or no character at all
/// * `[abc]` matches any of `a`, `b` or `c`
/// * `[!abc]` matches any character except `a`, `b` and `c`
/// * `[\[]` matches `[`. The characters that can be escaped are `[`, `]`, `{`, `}`,
///   `*`, `?`, `|` and `:`
/// * `[[:alpha:]]` matches any alphabetic character. The character classes are
///   `:alpha:`, `:digit:`, `:alphanumeric:`, `:uppercase:`, `:lowercase:` and
///   `:whitespace:`
/// * `{a|bc}` matches any of `a` or `bc`, and its alternatives may hold any matcher
/// * `**` as a whole component matches any number of directories
///
/// Matchers apply to one path component and never match a separator. Both `/` and
/// `\` are separators. A pattern with a prefix (`/`, `C:`, `\\?\C:`) only matches
/// absolute paths, a pattern without one only relative paths.
#[derive(Debug)]
pub struct Pattern {
    prefix: Option<PathPrefix>,
    common_root_dir: String,
    components: Vec<Component>,
    has_wildcard: bool,
}

/// What a [`Pattern`] stands for: its prefix and its compiled components.
pub ghost struct PatternView {
    pub prefix: Option<PathPrefix>,
    pub components: Seq<ComponentView>,
}

/// The case sensitivity that the options ask for.
pub open spec fn case_of(case_insensitive: bool) -> CaseSensitivity {
    if case_insensitive {
        CaseSensitivity::Insensitive
    } else {
        CaseSensitivity::Sensitive
    }
}

/// What parsed components compile to, one by one.
pub open spec fn compiled_components(
    components: Seq<RawComponentView>,
    case: CaseSensitivity,
) -> Seq<ComponentView> {
    Seq::new(components.len(), |i: int| compiled(components[i], case))
}

/// Whether each of the components compiles.
pub open spec fn all_compile(components: Seq<RawComponentView>, case: CaseSensitivity) -> bool {
    forall|i: int| 0 <= i < components.len() ==> compiles(#[trigger] components[i], case)
}

/// Whether the text `text`, read with the given case option, gives a pattern: it is
/// one by the grammar, and each of its components compiles.
pub open spec fn gives_pattern(text: Seq<char>, case_insensitive: bool) -> bool {
    pattern_of(text) matches Ok(raw) && all_compile(raw.components, case_of(case_insensitive))
}

/// Whether the text `text`, read with the given case option, denotes `pattern`.
pub open spec fn denotes(text: Seq<char>, case_insensitive: bool, pattern: PatternView) -> bool {
    pattern_of(text) matches Ok(raw) && pattern == (PatternView {
        prefix: raw.prefix,
        components: compiled_components(raw.components, case_of(case_insensitive)),
    })
}

/// Whether a component always matches the same one name: a literal, or `..`.
pub open spec fn is_fixed(component: ComponentView) -> bool {
    component is Literal || component is ParentDir
}

/// The one name that a fixed component matches.
pub open spec fn fixed_name(component: ComponentView) -> Seq<char> {
    match component {
        ComponentView::Literal(lit) => lit,
        _ => parent_dir_text(),
    }
}

/// The number of fixed components that the pattern starts with.
pub open spec fn fixed_run(components: Seq<ComponentView>) -> nat
    decreases components.len(),
{
    if components.len() > 0 && is_fixed(components[0]) {
        1 + fixed_run(components.skip(1))
    } else {
        0
    }
}

/// The number of leading components that make the common root directory: the
/// fixed run, without its last component where the run is the whole pattern, so
/// that the item that this component names is found below the root.
pub open spec fn root_len(components: Seq<ComponentView>) -> nat {
    let run = fixed_run(components);
    if run == components.len() && run > 0 {
        (run - 1) as nat
    } else {
        run
    }
}

/// Names with a `/` between each two.
pub open spec fn joined(names: Seq<Seq<char>>) -> Seq<char>
    decreases names.len(),
{
    if names.len() == 0 {
        Seq::empty()
    } else if names.len() == 1 {
        names[0]
    } else {
        joined(names.drop_last()) + seq!['/'] + names.last()
    }
}

/// The text of a prefix: nothing, `/` for the root directory, or the drive's
/// letter, a colon and `/` for the root of a drive.
pub open spec fn prefix_text(prefix: Option<PathPrefix>) -> Seq<char> {
    match prefix {
        None => Seq::empty(),
        Some(PathPrefix::RootDir) => seq!['/'],
        Some(PathPrefix::WindowsDrive(found)) => seq![found.letter(), ':', '/'],
    }
}

/// The names of the components that make the common root directory.
pub open spec fn root_names(components: Seq<ComponentView>) -> Seq<Seq<char>> {
    Seq::new(root_len(components), |i: int| fixed_name(components[i]))
}

/// The directory that is common to everything that the pattern can match: the
/// prefix, then the names of the leading fixed components.
pub open spec fn root_dir_text(prefix: Option<PathPrefix>, components: Seq<ComponentView>) -> Seq<
    char,
> {
    prefix_text(prefix) + joined(root_names(components))
}

/// Whether some component is a wildcard.
pub open spec fn contains_wildcard(components: Seq<ComponentView>) -> bool {
    exists|i: int| 0 <= i < components.len() && #[trigger] components[i] is Wildcard
}

/// What the prefixes alone decide: nothing where they agree; otherwise the path is
/// relative or absolute where the pattern is not, has a prefix of the other kind,
/// or is on another drive.
pub open spec fn prefix_verdict(pattern: Option<PathPrefix>, path: Option<PathPrefix>) -> Option<
    PatternMatchResult,
> {
    match (pattern, path) {
        (None, None) => None,
        (None, Some(_)) => Some(PatternMatchResult::PathIsAbsolute),
        (Some(_), None) => Some(PatternMatchResult::PathNotAbsolute),
        (Some(PathPrefix::RootDir), Some(PathPrefix::RootDir)) => None,
        (Some(PathPrefix::WindowsDrive(wanted)), Some(PathPrefix::WindowsDrive(found))) => if wanted
            == found {
            None
        } else {
            Some(PatternMatchResult::NotMatched)
        },
        _ => Some(PatternMatchResult::IncompatiblePrefix),
    }
}

/// The verdict of a pattern on a normalized path: what the prefixes decide, or
/// else the verdict of the components.
pub open spec fn normalized_verdict(pattern: PatternView, path: NormalizedPathView) -> PatternMatchResult {
    match prefix_verdict(pattern.prefix, path.prefix) {
        Some(verdict) => verdict,
        None => match_result(pattern.components, path.components),
    }
}

/// The verdict of a pattern on a path: a path that cannot be normalized has an
/// incompatible prefix.
pub open spec fn pattern_verdict(
    pattern: PatternView,
    path: Result<NormalizedPathView, UnsupportedWindowsPrefix>,
) -> PatternMatchResult {
    match path {
        Ok(found) => normalized_verdict(pattern, found),
        Err(_) => PatternMatchResult::IncompatiblePrefix,
    }
}

/// Purity. The verdict on a path depends on the pattern's text, on the case option
/// and on the path, and on nothing else: two patterns that one text denotes under
/// one option are the same pattern, and give every path the same verdict.
pub proof fn lemma_verdict_is_function(
    text: Seq<char>,
    case_insensitive: bool,
    first: PatternView,
    second: PatternView,
    path: Seq<u8>,
)
    requires
        denotes(text, case_insensitive, first),
        denotes(text, case_insensitive, second),
    ensures
        first == second,
        pattern_verdict(first, normalized(path)) == pattern_verdict(second, normalized(path)),
{
}

/// Absoluteness. A pattern with a prefix matches no relative path, and a pattern
/// without a prefix matches no absolute path.
pub proof fn lemma_absoluteness(pattern: PatternView, path: NormalizedPathView)
    ensures
        pattern.prefix is Some && path.prefix is None ==> normalized_verdict(pattern, path)
            is PathNotAbsolute,
        pattern.prefix is None && path.prefix is Some ==> normalized_verdict(pattern, path)
            is PathIsAbsolute,
        (pattern.prefix is Some) != (path.prefix is Some) ==> !(normalized_verdict(pattern, path)
            is Matched),
{
}

/// Wildcard identity. A pattern that ends in `**` matches every path with an
/// agreeing prefix of which the components before that `**` match a leading part,
/// whatever follows that part.
pub proof fn lemma_trailing_wildcard_matches(
    pattern: PatternView,
    prefix: Option<PathPrefix>,
    head: Seq<Seq<u8>>,
    tail: Seq<Seq<u8>>,
)
    requires
        pattern.components.len() > 0,
        pattern.components.last() is Wildcard,
        prefix_verdict(pattern.prefix, prefix) is None,
        accepts(pattern.components.drop_last(), head),
    ensures
        normalized_verdict(pattern, NormalizedPathView { prefix, components: head + tail })
            is Matched,
{
    lemma_trailing_wildcard(pattern.components, head, tail);
}

/// Starvation soundness, over normalized paths. Where the verdict of a pattern on a
/// normalized path is `Starved` and the components of the pattern are nameable,
/// names can be appended to the path, at least one, so that the pattern matches.
pub proof fn lemma_starved_pattern_can_match(pattern: PatternView, path: NormalizedPathView) -> (more:
    Seq<Seq<u8>>)
    requires
        nameable(pattern.components),
        normalized_verdict(pattern, path) is Starved,
    ensures
        more.len() > 0,
        forall|i: int| 0 <= i < more.len() ==> is_name(#[trigger] more[i]),
        path.components.len() == 0 && leads_off_drive(pattern.components) ==> !reads_as_drive(
            more[0],
        ),
        normalized_verdict(
            pattern,
            NormalizedPathView { prefix: path.prefix, components: path.components + more },
        ) is Matched,
{
    lemma_starved_can_match(pattern.components, path.components)
}

/// Whether a path without a prefix is still one when names that the components
/// accept are put behind it and it is written again: it does not start with a name
/// that reads as a drive, and where it has no component at all, the components lead
/// off a drive. A path with a prefix always is.
pub open spec fn stays_relative(components: Seq<ComponentView>, path: NormalizedPathView) -> bool {
    path.prefix is None ==> if path.components.len() > 0 {
        !reads_as_drive(path.components[0])
    } else {
        leads_off_drive(components)
    }
}

/// Starvation soundness, over paths. Where the verdict of a pattern on a path is
/// `Starved` and the components of the pattern are nameable, there is a longer
/// path that the pattern matches: the path's prefix and components, and behind
/// them at least one further name. The longer path is returned.
///
/// A path without a prefix has to stay one when it is written again.
pub proof fn lemma_starved_path_can_match(pattern: PatternView, path: Seq<u8>) -> (longer: Seq<u8>)
    requires
        nameable(pattern.components),
        pattern_verdict(pattern, normalized(path)) is Starved,
        normalized(path) matches Ok(found) ==> stays_relative(pattern.components, found),
    ensures
        pattern_verdict(pattern, normalized(longer)) is Matched,
        exists|more: Seq<Seq<u8>>|
            more.len() > 0 && #[trigger] normalized(longer) == Ok::<
                NormalizedPathView,
                UnsupportedWindowsPrefix,
            >(
                NormalizedPathView {
                    prefix: normalized(path)->Ok_0.prefix,
                    components: normalized(path)->Ok_0.components + more,
                },
            ),
{
    let found = normalized(path)->Ok_0;
    lemma_normalized_is_well_formed(widened(path));
    let more = lemma_starved_pattern_can_match(pattern, found);
    let names = found.components + more;
    let longer = path_text(found.prefix, names);
    assert forall|i: int| 0 <= i < names.len() implies is_name(#[trigger] names[i]) by {
        if i < found.components.len() {
            assert(names[i] == found.components[i]);
        } else {
            assert(names[i] == more[i - found.components.len()]);
        }
    }
    lemma_path_text_normalizes(found.prefix, names);
    assert(normalized(longer) == Ok::<NormalizedPathView, UnsupportedWindowsPrefix>(
        NormalizedPathView { prefix: found.prefix, components: found.components + more },
    ));
    longer
}

/// The bytes of one character: the character itself below 128, and else two to
/// four bytes, none of them below 128.
pub proof fn lemma_scalar_bytes(c: char)
    ensures
        encode_scalar(c as u32).len() >= 1,
        (c as u32) < 0x80 ==> encode_scalar(c as u32) == seq![(c as u32) as u8],
        (c as u32) >= 0x80 ==> forall|k: int|
            0 <= k < encode_scalar(c as u32).len() ==> #[trigger] encode_scalar(c as u32)[k]
                >= 0x80,
{
    let v = c as u32;
    if v < 0x80 {
        assert((v & 0x7F) as u8 == v as u8) by (bit_vector)
            requires
                v < 0x80,
        ;
        assert(encode_scalar(v) =~= seq![v as u8]);
    } else {
        assert(0xC0 | ((v >> 6) & 0x1F) as u8 >= 0x80) by (bit_vector);
        assert(0xE0 | ((v >> 12) & 0xF) as u8 >= 0x80) by (bit_vector);
        assert(0xF0 | ((v >> 18) & 0x7) as u8 >= 0x80) by (bit_vector);
        assert(0x80 | (v & 0x3F) as u8 >= 0x80) by (bit_vector);
        assert(0x80 | ((v >> 6) & 0x3F) as u8 >= 0x80) by (bit_vector);
        assert(0x80 | ((v >> 12) & 0x3F) as u8 >= 0x80) by (bit_vector);
    }
}

/// The bytes of a text: at least one for each character, and each byte is below
/// 128 only where it is a character of the text below 128.
pub proof fn lemma_text_bytes(text: Seq<char>)
    ensures
        encode_utf8(text).len() >= text.len(),
        forall|j: int|
            0 <= j < encode_utf8(text).len() ==> (#[trigger] encode_utf8(text)[j]) >= 0x80
                || exists|k: int|
                0 <= k < text.len() && (#[trigger] text[k]) as u32 == encode_utf8(text)[j],
        text.len() > 0 && (text[0] as u32) < 0x80 ==> encode_utf8(text)[0] == text[0] as u32
            && encode_utf8(text).skip(1) == encode_utf8(text.drop_first()),
        text.len() > 0 && (text[0] as u32) >= 0x80 ==> encode_utf8(text)[0] >= 0x80,
    decreases text.len(),
{
    if text.len() > 0 {
        let first = encode_scalar(text[0] as u32);
        let rest = text.drop_first();
        let tail = encode_utf8(rest);
        lemma_scalar_bytes(text[0]);
        lemma_text_bytes(rest);
        let all = encode_utf8(text);
        assert(all == first + tail);
        if (text[0] as u32) < 0x80 {
            assert(all.skip(1) =~= tail);
        }
        assert forall|j: int| 0 <= j < all.len() && !(#[trigger] all[j] >= 0x80) implies exists|
            k: int,
        |
            0 <= k < text.len() && (#[trigger] text[k]) as u32 == all[j] by {
            if j < first.len() {
                assert(all[j] == first[j]);
                assert(text[0] as u32 == all[j]);
            } else {
                assert(all[j] == tail[j - first.len()]);
                let k = choose|k: int|
                    0 <= k < rest.len() && (#[trigger] rest[k]) as u32 == tail[j - first.len()];
                assert(text[k + 1] == rest[k]);
                assert(text[k + 1] as u32 == all[j]);
            }
        }
    }
}

/// A literal of a pattern is a name. The bytes of a text that is not empty, is not
/// `.`, and holds no character with a meaning of its own in a pattern are a name that
/// a path can hold, and they do not read as a drive.
pub proof fn lemma_literal_is_name(lit: Seq<char>)
    requires
        lit.len() > 0,
        lit != seq!['.'],
        forall|k: int| 0 <= k < lit.len() ==> !is_special(#[trigger] lit[k]),
    ensures
        is_name(encode_utf8(lit)),
        !reads_as_drive(encode_utf8(lit)),
{
    let bytes = encode_utf8(lit);
    lemma_text_bytes(lit);
    assert forall|j: int| 0 <= j < bytes.len() implies !is_separator_byte(#[trigger] bytes[j]) by {
        if bytes[j] < 0x80 {
            let k = choose|k: int| 0 <= k < lit.len() && (#[trigger] lit[k]) as u32 == bytes[j];
            char_u32_cast(lit[k], lit[k] as u32);
            assert(!is_special(lit[k]));
        }
    }
    if bytes == seq![0x2eu8] {
        assert(bytes.len() == 1);
        assert(bytes[0] == 0x2e);
        char_u32_cast(lit[0], lit[0] as u32);
        assert(lit[0] == '.');
        assert(lit =~= seq!['.']);
    }
    if reads_as_drive(bytes) {
        let rest = lit.drop_first();
        lemma_text_bytes(rest);
        assert(bytes[1] == encode_utf8(rest)[0]);
        let k = choose|k: int|
            0 <= k < rest.len() && (#[trigger] rest[k]) as u32 == encode_utf8(rest)[0];
        assert(lit[k + 1] == rest[k]);
        char_u32_cast(rest[k], rest[k] as u32);
        assert(!is_special(lit[k + 1]));
    }
}

/// Whether each character run among the components accepts a name that a path can
/// hold. This is the engine's to say.
pub open spec fn runs_accept_names(components: Seq<ComponentView>) -> bool {
    forall|i: int|
        0 <= i < components.len() && #[trigger] components[i] is Regex ==> accepts_name(
            components[i],
        )
}

/// The first component that is no wildcard is one of the components.
pub proof fn lemma_leading_is_component(components: Seq<ComponentView>)
    ensures
        leading(components) matches Some(first) ==> !(first is Wildcard) && exists|i: int|
            0 <= i < components.len() && #[trigger] components[i] == first,
    decreases components.len(),
{
    if components.len() > 0 && components[0] is Wildcard {
        let rest = components.skip(1);
        lemma_leading_is_component(rest);
        if let Some(first) = leading(rest) {
            let i = choose|i: int| 0 <= i < rest.len() && #[trigger] rest[i] == first;
            assert(components[i + 1] == first);
        }
    }
}

/// The patterns that texts denote are nameable as far as the engine allows. Each
/// literal and each `..` of such a pattern accepts a name with which a path can
/// start. So the pattern is nameable where each of its character runs accepts a name
/// that a path can hold, and it leads off a drive unless it starts with a character
/// run that does not.
pub proof fn lemma_denoted_is_nameable(text: Seq<char>, case_insensitive: bool, pattern: PatternView)
    requires
        denotes(text, case_insensitive, pattern),
    ensures
        forall|i: int|
            0 <= i < pattern.components.len() && (#[trigger] pattern.components[i] is Literal
                || pattern.components[i] is ParentDir) ==> accepts_first_name(
                pattern.components[i],
            ),
        runs_accept_names(pattern.components) ==> nameable(pattern.components),
        leading(pattern.components) matches Some(first) ==> first is Regex || accepts_first_name(
            first,
        ),
{
    let raw = pattern_of(text)->Ok_0;
    let components = pattern.components;
    lemma_pattern_is_well_formed(text);
    lemma_parent_dir_is_name();
    assert forall|i: int|
        0 <= i < components.len() && (#[trigger] components[i] is Literal
            || components[i] is ParentDir) implies accepts_first_name(components[i]) by {
        if let ComponentView::Literal(lit) = components[i] {
            assert(raw.components[i] == RawComponentView::Literal(lit));
            assert(!is_skipped(raw.components[i]));
            assert(component_is_plain(raw.components[i]));
            assert(lit.len() > 0) by {
                if lit.len() == 0 {
                    assert(lit =~= Seq::empty());
                }
            }
            lemma_literal_is_name(lit);
            assert(component_accepts(components[i], encode_utf8(lit)));
        }
    }
    lemma_leading_is_component(components);
}

/// Starvation soundness for the patterns that texts denote. Where each character
/// run of such a pattern accepts a name that a path can hold, every path on which
/// the pattern is starved, and which stays relative if it is, has a longer path that
/// the pattern matches.
pub proof fn lemma_starved_denoted_can_match(
    text: Seq<char>,
    case_insensitive: bool,
    pattern: PatternView,
    path: Seq<u8>,
) -> (longer: Seq<u8>)
    requires
        denotes(text, case_insensitive, pattern),
        runs_accept_names(pattern.components),
        pattern_verdict(pattern, normalized(path)) is Starved,
        normalized(path) matches Ok(found) ==> stays_relative(pattern.components, found),
    ensures
        pattern_verdict(pattern, normalized(longer)) is Matched,
        exists|more: Seq<Seq<u8>>|
            more.len() > 0 && #[trigger] normalized(longer) == Ok::<
                NormalizedPathView,
                UnsupportedWindowsPrefix,
            >(
                NormalizedPathView {
                    prefix: normalized(path)->Ok_0.prefix,
                    components: normalized(path)->Ok_0.components + more,
                },
            ),
{
    lemma_denoted_is_nameable(text, case_insensitive, pattern);
    lemma_starved_path_can_match(pattern, path)
}

/// The bytes of the one name that a fixed component matches.
pub open spec fn fixed_bytes(component: ComponentView) -> Seq<u8> {
    match component {
        ComponentView::Literal(lit) => encode_utf8(lit),
        _ => parent_dir_name(),
    }
}

/// The common root directory is common. Every path that the components match
/// starts with the names of the fixed components that the pattern starts with.
pub proof fn lemma_root_is_common(components: Seq<ComponentView>, path: Seq<Seq<u8>>)
    requires
        accepts(components, path),
    ensures
        fixed_run(components) <= path.len(),
        root_len(components) <= fixed_run(components) <= components.len(),
        forall|i: int|
            0 <= i < fixed_run(components) ==> #[trigger] path[i] == fixed_bytes(components[i]),
    decreases components.len(),
{
    if components.len() > 0 && is_fixed(components[0]) {
        let rest = components.skip(1);
        let tail = path.skip(1);
        lemma_root_is_common(rest, tail);
        assert forall|i: int| 0 <= i < fixed_run(components) implies #[trigger] path[i]
            == fixed_bytes(components[i]) by {
            if i > 0 {
                assert(path[i] == tail[i - 1]);
                assert(components[i] == rest[i - 1]);
            }
        }
    }
}

impl View for Pattern {
    type V = PatternView;

    closed spec fn view(&self) -> PatternView {
        PatternView { prefix: self.prefix, components: component_views(self.components@) }
    }
}

/// Whether a component is fixed.
fn is_fixed_component(component: &Component) -> (r: bool)
    ensures
        r == is_fixed(component@),
{
    match component {
        Component::Literal(_) => true,
        Component::ParentDir => true,
        _ => false,
    }
}

/// Builds the common root directory of a pattern's prefix and components.
pub fn build_common_root_dir(prefix: Option<PathPrefix>, components: &[Component]) -> (root: String)
    ensures
        root@ == root_dir_text(prefix, component_views(components@)),
{
    let ghost views = component_views(components@);
    // The fixed components at the beginning of the pattern
    let mut run: usize = 0;
    assert(views.skip(0) =~= views);
    while run < components.len() && is_fixed_component(&components[run])
        invariant
            run <= components.len(),
            views == component_views(components@),
            fixed_run(views) == run + fixed_run(views.skip(run as int)),
        decreases components.len() - run,
    {
        assert(views.skip(run as int)[0] == views[run as int]);
        assert(views.skip(run as int).skip(1) =~= views.skip(run + 1));
        run += 1;
    }
    proof {
        if run < components.len() {
            assert(views.skip(run as int)[0] == views[run as int]);
        }
    }
    // If the whole pattern is fixed, the root is the parent of what it names
    let count = if run == components.len() && run > 0 {
        run - 1
    } else {
        run
    };
    let mut root = match prefix {
        Some(PathPrefix::RootDir) => {
            let mut text = String::new();
            string_push(&mut text, '/');
            text
        },
        Some(PathPrefix::WindowsDrive(found)) => {
            let mut text = String::new();
            string_push(&mut text, found.uppercase_letter());
            string_push(&mut text, ':');
            string_push(&mut text, '/');
            text
        },
        None => String::new(),
    };
    assert(root@ =~= prefix_text(prefix));
    let ghost names = root_names(views);
    let mut i: usize = 0;
    assert(names.take(0) =~= Seq::empty());
    assert(root@ =~= prefix_text(prefix) + joined(names.take(0)));
    while i < count
        invariant
            i <= count <= components.len(),
            count == root_len(views),
            views == component_views(components@),
            names == root_names(views),
            root@ == prefix_text(prefix) + joined(names.take(i as int)),
        decreases count - i,
    {
        if i > 0 {
            string_push(&mut root, '/');
        }
        match &components[i] {
            Component::Literal(lit) => root.append(lit.as_str()),
            _ => {
                proof {
                    reveal_strlit("..");
                    assert(".."@ =~= parent_dir_text());
                }
                root.append("..");
            },
        }
        proof {
            let next = names.take(i + 1);
            assert(next.drop_last() =~= names.take(i as int));
            assert(next.last() == fixed_name(views[i as int]));
            assert(views[i as int] == components@[i as int]@);
            assert(root@ =~= prefix_text(prefix) + joined(next));
        }
        i += 1;
    }
    assert(names.take(i as int) =~= names);
    root
}

/// Whether some component is a wildcard.
fn any_wildcard(components: &[Component]) -> (r: bool)
    ensures
        r == contains_wildcard(component_views(components@)),
{
    let ghost views = component_views(components@);
    let mut i: usize = 0;
    while i < components.len()
        invariant
            i <= components.len(),
            views == component_views(components@),
            forall|k: int| 0 <= k < i ==> !(#[trigger] views[k] is Wildcard),
        decreases components.len() - i,
    {
        match &components[i] {
            Component::Wildcard => {
                assert(views[i as int] is Wildcard);
                return true;
            },
            _ => {},
        }
        i += 1;
    }
    false
}

/// Compiles the components of a parsed pattern, in order. This succeeds exactly
/// where each component compiles.
pub fn compile_components(components: Vec<RawComponent>, case_sensitivity: CaseSensitivity) -> (r:
    Result<Vec<Component>, CompileError>)
    ensures
        r is Ok <==> all_compile(components_view(components@), case_sensitivity),
        r matches Ok(done) ==> component_views(done@) == compiled_components(
            components_view(components@),
            case_sensitivity,
        ),
        r matches Err(e) ==> e == CompileError::EngineRefused,
{
    let ghost raw = components_view(components@);
    let ghost all = components@;
    let mut done: Vec<Component> = Vec::new();
    assert(component_views(done@) =~= compiled_components(raw.take(0), case_sensitivity));
    for component in it: components.into_iter()
        invariant
            it.seq() == all,
            raw == components_view(all),
            component_views(done@) == compiled_components(
                raw.take(it.index() as int),
                case_sensitivity,
            ),
            all_compile(raw.take(it.index() as int), case_sensitivity),
    {
        let ghost count = it.index() as int;
        let ghost value = component@;
        assert(raw[count] == value);
        match compile_component(component, case_sensitivity) {
            Ok(compiled) => {
                let ghost before = component_views(done@);
                let ghost view = compiled@;
                done.push(compiled);
                proof {
                    assert(component_views(done@) =~= before.push(view));
                    assert(raw.take(count + 1) =~= raw.take(count).push(value));
                    assert forall|i: int| 0 <= i < count + 1 implies compiles(
                        #[trigger] raw.take(count + 1)[i],
                        case_sensitivity,
                    ) by {
                        if i < count {
                            assert(raw.take(count + 1)[i] == raw.take(count)[i]);
                        }
                    }
                    assert(component_views(done@) =~= compiled_components(
                        raw.take(count + 1),
                        case_sensitivity,
                    ));
                }
            },
            Err(error) => {
                return Err(error);
            },
        }
    }
    assert(raw.take(all.len() as int) =~= raw);
    Ok(done)
}

impl Pattern {
    #[verifier::type_invariant]
    spec fn well_formed(self) -> bool {
        &&& self.common_root_dir@ == root_dir_text(self.prefix, component_views(self.components@))
        &&& self.has_wildcard == contains_wildcard(component_views(self.components@))
    }

    /// The common root directory of the pattern, as a mathematical value.
    pub open spec fn root_dir(self) -> Seq<char> {
        root_dir_text(self@.prefix, self@.components)
    }

    /// Parses a pattern with the default options.
    pub fn new(input: &str) -> (r: Result<Pattern, PatternError>)
        ensures
            match r {
                Ok(pattern) => denotes(input@, false, pattern@),
                Err(PatternError::Parse(error)) => pattern_of(input@) == Err::<
                    RawPatternView,
                    ParseError,
                >(error),
                Err(PatternError::Compile(error)) => pattern_of(input@) is Ok && error
                    == CompileError::EngineRefused,
            },
            r is Ok <==> gives_pattern(input@, false),
    {
        Pattern::new_with_opts(input, PatternOpts { case_insensitive: false })
    }

    /// Parses and compiles a pattern.
    ///
    /// A text that is no pattern gives the parse error of the grammar. A pattern is
    /// compiled component by component; this fails exactly where the engine refuses
    /// the expression of a character run, which a pattern made of literals and `**`
    /// and read with case does not have.
    pub fn new_with_opts(input: &str, opts: PatternOpts) -> (r: Result<Pattern, PatternError>)
        ensures
            match r {
                Ok(pattern) => denotes(input@, opts.case_insensitive, pattern@),
                Err(PatternError::Parse(error)) => pattern_of(input@) == Err::<
                    RawPatternView,
                    ParseError,
                >(error),
                Err(PatternError::Compile(error)) => pattern_of(input@) is Ok && error
                    == CompileError::EngineRefused,
            },
            r is Ok <==> gives_pattern(input@, opts.case_insensitive),
    {
        let parsed = match parse_pattern(input) {
            Ok(parsed) => parsed,
            Err(error) => {
                return Err(PatternError::Parse(error));
            },
        };
        let ghost whole = parsed@;
        let RawPattern { components, prefix } = parsed;
        let case_sensitivity = if opts.case_insensitive {
            CaseSensitivity::Insensitive
        } else {
            CaseSensitivity::Sensitive
        };
        let ghost raw = components_view(components@);
        // Compile each individual component
        let components = match compile_components(components, case_sensitivity) {
            Ok(compiled) => compiled,
            Err(error) => {
                assert(whole.components == raw);
                return Err(PatternError::Compile(error));
            },
        };
        let common_root_dir = build_common_root_dir(prefix, components.as_slice());
        let has_wildcard = any_wildcard(components.as_slice());
        Ok(Pattern { common_root_dir, prefix, has_wildcard, components })
    }

    /// Whether the pattern is absolute (only matches absolute paths).
    pub fn is_absolute(&self) -> (r: bool)
        ensures
            r == self@.prefix is Some,
    {
        self.prefix.is_some()
    }

    /// The pattern's prefix.
    pub fn prefix(&self) -> (r: Option<PathPrefix>)
        ensures
            r == self@.prefix,
    {
        self.prefix
    }

    /// Whether the pattern matches a path.
    ///
    /// The path is normalized first; `..` components of the pattern are matched
    /// against literal `..` components of the path.
    pub fn is_match(&self, path: &[u8]) -> (r: bool)
        ensures
            r == pattern_verdict(self@, normalized(path@)) is Matched,
            r ==> (normalized(path@) matches Ok(found) && (found.prefix is Some)
                == (self@.prefix is Some)),
    {
        match self.match_against(path) {
            PatternMatchResult::Matched => true,
            _ => false,
        }
    }

    /// The verdict of the pattern on a path.
    pub fn match_against(&self, path: &[u8]) -> (r: PatternMatchResult)
        ensures
            r == pattern_verdict(self@, normalized(path@)),
    {
        match normalize_path(path) {
            Ok(path) => self.match_normalized(&path),
            Err(_) => PatternMatchResult::IncompatiblePrefix,
        }
    }

    /// The verdict of the pattern on a normalized path.
    pub fn match_normalized(&self, path: &NormalizedPath) -> (r: PatternMatchResult)
        ensures
            r == normalized_verdict(self@, path@),
    {
        match (self.prefix, path.prefix()) {
            (None, None) => {},
            (None, Some(_)) => {
                return PatternMatchResult::PathIsAbsolute;
            },
            (Some(_), None) => {
                return PatternMatchResult::PathNotAbsolute;
            },
            (Some(PathPrefix::RootDir), Some(PathPrefix::RootDir)) => {},
            (Some(PathPrefix::WindowsDrive(wanted)), Some(PathPrefix::WindowsDrive(found))) => {
                if wanted != found {
                    return PatternMatchResult::NotMatched;
                }
            },
            _ => {
                return PatternMatchResult::IncompatiblePrefix;
            },
        }
        match_components(self.components.as_slice(), path.components())
    }

    /// The verdict of the pattern's components on the components of a path,
    /// whatever the prefixes are.
    pub fn match_names(&self, path: &[Vec<u8>]) -> (r: PatternMatchResult)
        ensures
            r == match_result(self@.components, path.deep_view()),
    {
        match_components(self.components.as_slice(), path)
    }

    /// The common root directory of everything that the pattern can match.
    pub fn common_root_dir(&self) -> (r: &str)
        ensures
            r@ == self.root_dir(),
    {
        proof {
            use_type_invariant(self);
        }
        self.common_root_dir.as_str()
    }

    /// Whether the pattern contains a wildcard.
    ///
    /// Without a wildcard nothing below a matched directory can match; with one,
    /// a matched directory has to be traversed.
    pub fn has_wildcard(&self) -> (r: bool)
        ensures
            r == contains_wildcard(self@.components),
    {
        proof {
            use_type_invariant(self);
        }
        self.has_wildcard
    }
}

impl Clone for Pattern {
    fn clone(&self) -> (r: Self)
        ensures
            r@ == self@,
    {
        proof {
            use_type_invariant(self);
        }
        let ghost views = component_views(self.components@);
        let mut components: Vec<Component> = Vec::new();
        let mut i: usize = 0;
        while i < self.components.len()
            invariant
                i <= self.components.len(),
                views == component_views(self.components@),
                component_views(components@) == views.take(i as int),
            decreases self.components.len() - i,
        {
            let ghost before = component_views(components@);
            let copy = self.components[i].clone();
            assert(copy@ == views[i as int]);
            components.push(copy);
            assert(component_views(components@) =~= before.push(views[i as int]));
            assert(component_views(components@) =~= views.take(i + 1));
            i += 1;
        }
        assert(views.take(i as int) =~= views);
        Pattern {
            prefix: self.prefix,
            common_root_dir: self.common_root_dir.clone(),
            components,
            has_wildcard: self.has_wildcard,
        }
    }
}

} // verus!
