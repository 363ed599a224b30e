//! The decisions of a directory traversal that yields what a pattern matches.
//!
//! The traversal is depth first and lazy. Reading directories is the driver's part:
//! it asks the walker what to do next, does it, and reports what came of it. The
//! walker decides which entries are yielded and which directories are entered, so
//! that no directory is read in which nothing can match.

use crate::compiler::{parent_dir_name, ComponentView};
use crate::matcher::{
    accepts, lemma_match_result_matched, lemma_not_matched_is_final, match_result,
    PatternMatchResult,
};
use crate::paths::{
    is_name, is_written_prefix, lemma_path_text_normalizes, normalize_path, normalized,
    path_bytes, path_text, reads_as_drive, same_bytes, NormalizedPath, NormalizedPathView,
    UnsupportedWindowsPrefix,
};
use crate::pattern::{
    contains_wildcard, normalized_verdict, pattern_verdict, Pattern, PatternView,
};
use vstd::prelude::*;
use vstd::slice::{slice_subrange, slice_to_vec};

verus! {

/// What the walker asks of its driver.
#[derive(Debug, Clone, PartialEq, Eq)]
pub enum WalkRequest {
    /// Open the directory with this path and report `dir_opened` or `dir_failed`.
    OpenDir(Vec<u8>),
    /// Read the next entry of the directory that was opened last and is not
    /// exhausted, and report `entry` or `dir_exhausted`.
    ReadEntry,
    /// The traversal is over.
    Stop,
}

/// The state of a traversal.
pub ghost struct WalkerView {
    /// The pattern that entries are held against.
    pub pattern: PatternView,
    /// The directory at which the traversal starts.
    pub walk_from: NormalizedPathView,
    /// The directory to which yielded relative paths are relative.
    pub base_dir: NormalizedPathView,
    /// The directories that are open, the innermost last, each as its names below
    /// `walk_from`.
    pub open_dirs: Seq<Seq<Seq<u8>>>,
    /// The directory to open next, as its names below `walk_from`.
    pub going_into_dir: Option<Seq<Seq<u8>>>,
}

/// The number of leading components that two paths share.
pub open spec fn common_len(path: Seq<Seq<u8>>, base: Seq<Seq<u8>>) -> nat
    decreases path.len(),
{
    if path.len() > 0 && base.len() > 0 && path[0] == base[0] {
        1 + common_len(path.skip(1), base.skip(1))
    } else {
        0
    }
}

/// The way from `base` to `path`: one `..` for each component of `base` that the
/// two do not share, then the components of `path` that they do not share.
pub open spec fn relative(path: Seq<Seq<u8>>, base: Seq<Seq<u8>>) -> Seq<Seq<u8>> {
    let shared = common_len(path, base) as int;
    Seq::new((base.len() - shared) as nat, |i: int| parent_dir_name()) + path.skip(shared)
}

/// The components that stand before an entry's names below `walk_from` when the
/// entry is held against the pattern: the components of `walk_from` for a pattern
/// with a prefix, else the way from the base directory to `walk_from`.
pub open spec fn lead(walker: WalkerView) -> Seq<Seq<u8>> {
    if walker.pattern.prefix is Some {
        walker.walk_from.components
    } else {
        relative(walker.walk_from.components, walker.base_dir.components)
    }
}

/// The path under which the entry with the names `below` under `walk_from` is held
/// against the pattern and yielded: absolute for a pattern with a prefix, else
/// relative to the base directory.
pub open spec fn entry_path(walker: WalkerView, below: Seq<Seq<u8>>) -> Seq<u8> {
    path_text(
        if walker.pattern.prefix is Some {
            walker.walk_from.prefix
        } else {
            None
        },
        lead(walker) + below,
    )
}

/// The entry's own path, by which it is opened.
pub open spec fn entry_place(walker: WalkerView, below: Seq<Seq<u8>>) -> Seq<u8> {
    path_text(walker.walk_from.prefix, walker.walk_from.components + below)
}

/// The verdict of the pattern on the entry: the verdict on the entry's path,
/// normalized as every path is.
pub open spec fn entry_verdict(walker: WalkerView, below: Seq<Seq<u8>>) -> PatternMatchResult {
    pattern_verdict(walker.pattern, normalized(entry_path(walker, below)))
}

/// The verdict of the pattern on the entry's names as they are, taken as the
/// components of a path.
pub open spec fn names_verdict(walker: WalkerView, below: Seq<Seq<u8>>) -> PatternMatchResult {
    if walker.pattern.prefix is Some {
        normalized_verdict(
            walker.pattern,
            NormalizedPathView {
                prefix: walker.walk_from.prefix,
                components: lead(walker) + below,
            },
        )
    } else {
        match_result(walker.pattern.components, lead(walker) + below)
    }
}

/// Whether the entry is the base directory itself.
pub open spec fn is_base_dir(walker: WalkerView, below: Seq<Seq<u8>>) -> bool {
    normalized(entry_place(walker, below)) == Ok::<NormalizedPathView, UnsupportedWindowsPrefix>(
        walker.base_dir,
    )
}

/// Whether an entry's path is made of names, and reads as it is written: its
/// prefix is written as it is read, none of its components is empty, `.`, or
/// holds a separator, and without a prefix it does not start like a drive.
pub open spec fn is_plain_entry(walker: WalkerView, below: Seq<Seq<u8>>) -> bool {
    &&& is_written_prefix(walker.walk_from.prefix)
    &&& forall|i: int|
        0 <= i < (lead(walker) + below).len() ==> is_name(#[trigger] (lead(walker) + below)[i])
    &&& (walker.pattern.prefix is None || walker.walk_from.prefix is None) && (lead(walker)
        + below).len() > 0 ==> !reads_as_drive((lead(walker) + below)[0])
}

/// What is yielded for an entry: its path where the pattern matches that path,
/// except for the base directory itself, which is never yielded.
pub open spec fn yielded(walker: WalkerView, below: Seq<Seq<u8>>) -> Option<Seq<u8>> {
    if entry_verdict(walker, below) is Matched && !is_base_dir(walker, below) {
        Some(entry_path(walker, below))
    } else {
        None
    }
}

/// Whether an entry is entered: a directory that the pattern matches is entered
/// where the pattern has a wildcard, a directory on which the pattern is starved
/// always, anything else never.
pub open spec fn descends(walker: WalkerView, below: Seq<Seq<u8>>, is_dir: bool) -> bool {
    is_dir && match entry_verdict(walker, below) {
        PatternMatchResult::Matched => contains_wildcard(walker.pattern.components),
        PatternMatchResult::Starved => true,
        _ => false,
    }
}

/// The state in which a traversal starts: none where a directory cannot be
/// normalized, has no prefix, or has another prefix than the other one.
pub open spec fn initial(
    pattern: PatternView,
    base_dir: Result<NormalizedPathView, UnsupportedWindowsPrefix>,
    walk_from: Result<NormalizedPathView, UnsupportedWindowsPrefix>,
) -> Option<WalkerView> {
    match (base_dir, walk_from) {
        (Ok(base), Ok(from)) => if base.prefix is Some && base.prefix == from.prefix {
            Some(
                WalkerView {
                    pattern,
                    walk_from: from,
                    base_dir: base,
                    open_dirs: Seq::empty(),
                    going_into_dir: Some(Seq::empty()),
                },
            )
        } else {
            None
        },
        _ => None,
    }
}

/// Pruning. Under a pattern without `**`, an entry that the pattern matches is never
/// entered: it is a leaf of the traversal.
pub proof fn lemma_matched_is_leaf(walker: WalkerView, below: Seq<Seq<u8>>, is_dir: bool)
    requires
        !contains_wildcard(walker.pattern.components),
        entry_verdict(walker, below) is Matched,
    ensures
        !descends(walker, below, is_dir),
{
}

/// A pattern that starts with `**` prunes nothing. Under such a pattern without a
/// prefix, the verdict on an entry whose path is made of names is `Matched` or
/// `Starved`, so that every directory is entered, whatever its name is.
pub proof fn lemma_leading_wildcard_enters(walker: WalkerView, below: Seq<Seq<u8>>)
    requires
        walker.pattern.prefix is None,
        walker.pattern.components.len() > 0,
        walker.pattern.components[0] is Wildcard,
        is_plain_entry(walker, below),
    ensures
        entry_verdict(walker, below) is Matched || entry_verdict(walker, below) is Starved,
        descends(walker, below, true),
{
    lemma_entry_verdict_on_names(walker, below);
    assert(walker.pattern.components[0] is Wildcard);
}

/// Components without a wildcard match only paths of their own length.
pub proof fn lemma_no_wildcard_length(
    components: Seq<ComponentView>,
    path: Seq<Seq<u8>>,
)
    requires
        !contains_wildcard(components),
        accepts(components, path),
    ensures
        components.len() == path.len(),
    decreases components.len(),
{
    if components.len() > 0 {
        assert(!(components[0] is Wildcard));
        let rest = components.skip(1);
        assert forall|i: int| 0 <= i < rest.len() implies !(#[trigger] rest[i] is Wildcard) by {
            assert(rest[i] == components[i + 1]);
        }
        lemma_no_wildcard_length(rest, path.skip(1));
    }
}

/// The walker decides on names as the pattern does on paths. For an entry whose
/// path is made of names, the verdict on the normalized path is the verdict on
/// the names themselves.
pub proof fn lemma_entry_verdict_on_names(walker: WalkerView, below: Seq<Seq<u8>>)
    requires
        is_plain_entry(walker, below),
    ensures
        entry_verdict(walker, below) == names_verdict(walker, below),
{
    let prefix = if walker.pattern.prefix is Some {
        walker.walk_from.prefix
    } else {
        None
    };
    lemma_path_text_normalizes(prefix, lead(walker) + below);
}

/// Nothing is lost by not entering an entry. Where an entry is not entered even if
/// it is a directory, the pattern matches nothing below it; and where the verdict
/// on the entry is `NotMatched`, it is `NotMatched` on everything below. Below are
/// the paths made of the entry's path and of further names other than `..`.
pub proof fn lemma_skipped_subtree_is_dead(
    walker: WalkerView,
    below: Seq<Seq<u8>>,
    deeper: Seq<Seq<u8>>,
)
    requires
        deeper.len() > 0,
        forall|i: int| 0 <= i < deeper.len() ==> deeper[i] != parent_dir_name(),
        is_plain_entry(walker, below + deeper),
        !descends(walker, below, true),
    ensures
        !(entry_verdict(walker, below + deeper) is Matched),
        entry_verdict(walker, below) is NotMatched ==> entry_verdict(walker, below + deeper)
            is NotMatched,
{
    let components = walker.pattern.components;
    let here = lead(walker) + below;
    assert(lead(walker) + (below + deeper) =~= here + deeper);
    assert(is_plain_entry(walker, below)) by {
        assert forall|i: int| 0 <= i < here.len() implies is_name(#[trigger] here[i]) by {
            assert(here[i] == (here + deeper)[i]);
        }
        if here.len() > 0 {
            assert(here[0] == (here + deeper)[0]);
        }
    }
    lemma_entry_verdict_on_names(walker, below);
    lemma_entry_verdict_on_names(walker, below + deeper);
    lemma_match_result_matched(components, here + deeper);
    lemma_match_result_matched(components, here);
    if names_verdict(walker, below) == match_result(components, here) {
        if match_result(components, here) is NotMatched {
            lemma_not_matched_is_final(components, here, deeper);
        } else if names_verdict(walker, below + deeper) is Matched {
            lemma_no_wildcard_length(components, here);
            lemma_no_wildcard_length(components, here + deeper);
        }
    }
}

/// A copy of the names `names`.
fn clone_names(names: &[Vec<u8>]) -> (copy: Vec<Vec<u8>>)
    ensures
        copy.deep_view() == names.deep_view(),
{
    let mut copy: Vec<Vec<u8>> = Vec::new();
    push_names(&mut copy, names);
    assert(copy.deep_view() =~= names.deep_view());
    copy
}

/// Appends copies of the names `names` to `out`.
fn push_names(out: &mut Vec<Vec<u8>>, names: &[Vec<u8>])
    ensures
        final(out).deep_view() == old(out).deep_view() + names.deep_view(),
{
    let ghost before = out.deep_view();
    let ghost all = names.deep_view();
    let mut i: usize = 0;
    assert(out.deep_view() =~= before + all.take(0));
    while i < names.len()
        invariant
            i <= names.len(),
            all == names.deep_view(),
            out.deep_view() == before + all.take(i as int),
        decreases names.len() - i,
    {
        let ghost so_far = out.deep_view();
        let name = slice_to_vec(names[i].as_slice());
        assert(name.deep_view() =~= all[i as int]);
        out.push(name);
        assert(out.deep_view() =~= so_far.push(all[i as int]));
        assert(out.deep_view() =~= before + all.take(i + 1));
        i += 1;
    }
    assert(all.take(i as int) =~= all);
}

/// The way from `base` to `path`, both under one prefix: one `..` for each
/// component of `base` that `path` does not share, then the components of `path`
/// that `base` does not share.
pub fn diff_path(path: &NormalizedPath, base: &NormalizedPath) -> (way: Vec<Vec<u8>>)
    requires
        path@.prefix is Some,
        base@.prefix is Some,
        path@.prefix == base@.prefix,
    ensures
        way.deep_view() == relative(path@.components, base@.components),
{
    let ours = path.components();
    let theirs = base.components();
    let ghost a = ours.deep_view();
    let ghost b = theirs.deep_view();
    let mut shared: usize = 0;
    assert(a.skip(0) =~= a);
    assert(b.skip(0) =~= b);
    while shared < ours.len() && shared < theirs.len() && same_bytes(
        ours[shared].as_slice(),
        theirs[shared].as_slice(),
    )
        invariant
            shared <= ours.len(),
            shared <= theirs.len(),
            a == ours.deep_view(),
            b == theirs.deep_view(),
            common_len(a, b) == shared + common_len(a.skip(shared as int), b.skip(shared as int)),
        decreases ours.len() - shared,
    {
        proof {
            assert(a.skip(shared as int)[0] =~= ours@[shared as int]@);
            assert(b.skip(shared as int)[0] =~= theirs@[shared as int]@);
            assert(a.skip(shared as int).skip(1) =~= a.skip(shared + 1));
            assert(b.skip(shared as int).skip(1) =~= b.skip(shared + 1));
        }
        shared += 1;
    }
    proof {
        if shared < ours.len() && shared < theirs.len() {
            assert(a.skip(shared as int)[0] =~= ours@[shared as int]@);
            assert(b.skip(shared as int)[0] =~= theirs@[shared as int]@);
        }
        assert(common_len(a, b) == shared);
    }
    let mut way: Vec<Vec<u8>> = Vec::new();
    let mut i: usize = shared;
    assert(way.deep_view() =~= Seq::new(0, |k: int| parent_dir_name()));
    while i < theirs.len()
        invariant
            shared <= i <= theirs.len(),
            way.deep_view() == Seq::new((i - shared) as nat, |k: int| parent_dir_name()),
        decreases theirs.len() - i,
    {
        let ghost before = way.deep_view();
        let mut up: Vec<u8> = Vec::new();
        up.push(0x2e);
        up.push(0x2e);
        assert(up.deep_view() =~= parent_dir_name());
        way.push(up);
        assert(way.deep_view() =~= before.push(parent_dir_name()));
        assert(way.deep_view() =~= Seq::new((i + 1 - shared) as nat, |k: int| parent_dir_name()));
        i += 1;
    }
    let rest = slice_subrange(ours, shared, ours.len());
    assert(rest.deep_view() =~= a.skip(shared as int));
    push_names(&mut way, rest);
    way
}

/// The traversal's own state.
#[derive(Debug)]
struct WalkerState {
    /// The pattern to apply to all entries
    pattern: Pattern,
    /// Directory we are walking from
    walk_from: NormalizedPath,
    /// Directory that yielded relative paths are relative to
    base_dir: NormalizedPath,
    /// What is put before an entry's names below `walk_from` when the entry is
    /// held against the pattern
    lead: Vec<Vec<u8>>,
    /// The open directories, the innermost last, as their names below `walk_from`
    open_dirs: Vec<Vec<Vec<u8>>>,
    /// The directory to open next
    going_into_dir: Option<Vec<Vec<u8>>>,
}

/// Decides, entry by entry, what a traversal yields and which directories it
/// enters.
///
/// - Directories are yielded before their content
/// - The base directory is not yielded
/// - Yielded paths are absolute where the pattern has a prefix, and relative to the
///   base directory otherwise; a pattern that starts with `..` yields paths that
///   start with `..`
#[derive(Debug)]
pub struct Walker {
    /// `None` if the walker cannot apply, e.g. if the base directory does not exist
    state: Option<WalkerState>,
}

impl WalkerState {
    spec fn view(&self) -> WalkerView {
        WalkerView {
            pattern: self.pattern@,
            walk_from: self.walk_from@,
            base_dir: self.base_dir@,
            open_dirs: self.open_dirs.deep_view(),
            going_into_dir: match self.going_into_dir {
                Some(dir) => Some(dir.deep_view()),
                None => None,
            },
        }
    }

    spec fn well_formed(&self) -> bool {
        self.lead.deep_view() == lead(self.view())
    }
}

impl View for Walker {
    type V = Option<WalkerView>;

    closed spec fn view(&self) -> Option<WalkerView> {
        match self.state {
            Some(state) => Some(state.view()),
            None => None,
        }
    }
}

impl Walker {
    #[verifier::type_invariant]
    spec fn well_formed(self) -> bool {
        match self.state {
            Some(state) => state.well_formed(),
            None => true,
        }
    }

    /// A walker for `pattern` that starts at `walk_from` and yields relative paths
    /// from `base_dir`. Both directories are given resolved: absolute, and free of
    /// `.` and `..`.
    pub fn new(pattern: Pattern, base_dir: &[u8], walk_from: &[u8]) -> (r: Walker)
        ensures
            r@ == initial(pattern@, normalized(base_dir@), normalized(walk_from@)),
    {
        let base = match normalize_path(base_dir) {
            Ok(found) => found,
            Err(_) => {
                return Walker { state: None };
            },
        };
        let from = match normalize_path(walk_from) {
            Ok(found) => found,
            Err(_) => {
                return Walker { state: None };
            },
        };
        match (base.prefix(), from.prefix()) {
            (Some(ours), Some(theirs)) => {
                if ours != theirs {
                    return Walker { state: None };
                }
            },
            _ => {
                return Walker { state: None };
            },
        }
        let lead = if pattern.is_absolute() {
            clone_names(from.components())
        } else {
            diff_path(&from, &base)
        };
        let start: Vec<Vec<u8>> = Vec::new();
        let open_dirs: Vec<Vec<Vec<u8>>> = Vec::new();
        assert(start.deep_view() =~= Seq::empty());
        assert(open_dirs.deep_view() =~= Seq::empty());
        Walker {
            state: Some(
                WalkerState {
                    pattern,
                    walk_from: from,
                    base_dir: base,
                    lead,
                    open_dirs,
                    going_into_dir: Some(start),
                },
            ),
        }
    }

    /// The walker that yields nothing: the one of a directory that could not be
    /// resolved.
    pub fn unresolved() -> (r: Walker)
        ensures
            r@ is None,
    {
        Walker { state: None }
    }

    /// Whether the walker holds no state, and so yields nothing.
    pub fn is_invalid(&self) -> (r: bool)
        ensures
            r == self@ is None,
    {
        self.state.is_none()
    }

    /// What the driver is to do next: open the directory that waits to be entered,
    /// else read on in the innermost open directory, else stop.
    pub fn request(&self) -> (r: WalkRequest)
        ensures
            match self@ {
                None => r is Stop,
                Some(walker) => match walker.going_into_dir {
                    Some(below) => r matches WalkRequest::OpenDir(path) && path@ == entry_place(
                        walker,
                        below,
                    ),
                    None => if walker.open_dirs.len() == 0 {
                        r is Stop
                    } else {
                        r is ReadEntry
                    },
                },
            },
    {
        match &self.state {
            None => WalkRequest::Stop,
            Some(state) => match &state.going_into_dir {
                Some(below) => {
                    let mut names = clone_names(state.walk_from.components());
                    push_names(&mut names, below.as_slice());
                    WalkRequest::OpenDir(path_bytes(state.walk_from.prefix(), names.as_slice()))
                },
                None => if state.open_dirs.len() == 0 {
                    WalkRequest::Stop
                } else {
                    WalkRequest::ReadEntry
                },
            },
        }
    }

    /// The directory that was to be opened is open: it becomes the innermost open
    /// directory.
    pub fn dir_opened(&mut self)
        ensures
            final(self)@ == match old(self)@ {
                Some(walker) => match walker.going_into_dir {
                    Some(below) => Some(
                        WalkerView {
                            open_dirs: walker.open_dirs.push(below),
                            going_into_dir: None,
                            ..walker
                        },
                    ),
                    None => Some(walker),
                },
                None => None,
            },
    {
        proof {
            use_type_invariant(&*self);
        }
        let mut taken: Option<WalkerState> = None;
        core::mem::swap(&mut self.state, &mut taken);
        let state = match taken {
            Some(state) => state,
            None => {
                return ;
            },
        };
        let WalkerState { pattern, walk_from, base_dir, lead, open_dirs, going_into_dir } = state;
        let mut open_dirs = open_dirs;
        let ghost before = open_dirs.deep_view();
        let going_into_dir = match going_into_dir {
            Some(below) => {
                let ghost names = below.deep_view();
                open_dirs.push(below);
                assert(open_dirs.deep_view() =~= before.push(names));
                None
            },
            None => None,
        };
        self.state = Some(
            WalkerState { pattern, walk_from, base_dir, lead, open_dirs, going_into_dir },
        );
    }

    /// The directory that was to be opened could not be opened: it is given up.
    pub fn dir_failed(&mut self)
        ensures
            final(self)@ == match old(self)@ {
                Some(walker) => Some(WalkerView { going_into_dir: None, ..walker }),
                None => None,
            },
    {
        proof {
            use_type_invariant(&*self);
        }
        let mut taken: Option<WalkerState> = None;
        core::mem::swap(&mut self.state, &mut taken);
        let state = match taken {
            Some(state) => state,
            None => {
                return ;
            },
        };
        let WalkerState { pattern, walk_from, base_dir, lead, open_dirs, going_into_dir } = state;
        self.state = Some(
            WalkerState { pattern, walk_from, base_dir, lead, open_dirs, going_into_dir: None },
        );
    }

    /// The innermost open directory has no further entry: it is closed. Nothing
    /// changes while a directory waits to be opened.
    pub fn dir_exhausted(&mut self)
        ensures
            final(self)@ == match old(self)@ {
                Some(walker) => if walker.going_into_dir is None && walker.open_dirs.len() > 0 {
                    Some(WalkerView { open_dirs: walker.open_dirs.drop_last(), ..walker })
                } else {
                    Some(walker)
                },
                None => None,
            },
    {
        proof {
            use_type_invariant(&*self);
        }
        let mut taken: Option<WalkerState> = None;
        core::mem::swap(&mut self.state, &mut taken);
        let state = match taken {
            Some(state) => state,
            None => {
                return ;
            },
        };
        let WalkerState { pattern, walk_from, base_dir, lead, open_dirs, going_into_dir } = state;
        let mut open_dirs = open_dirs;
        let ghost before = open_dirs.deep_view();
        if going_into_dir.is_none() && open_dirs.len() > 0 {
            open_dirs.pop();
            assert(open_dirs.deep_view() =~= before.drop_last());
        }
        self.state = Some(
            WalkerState { pattern, walk_from, base_dir, lead, open_dirs, going_into_dir },
        );
    }

    /// The innermost open directory has the entry `name`, which is a directory or
    /// not. The entry's path is normalized and held against the pattern, as
    /// [`Pattern::match_against`] does with any path. The path is returned where it
    /// is to be yielded, and the entry is the next directory to open where it is to
    /// be entered.
    ///
    /// Nothing changes and nothing is yielded while a directory waits to be opened,
    /// or while no directory is open.
    pub fn entry(&mut self, name: &[u8], is_dir: bool) -> (r: Option<Vec<u8>>)
        ensures
            match old(self)@ {
                Some(walker) => if walker.going_into_dir is None && walker.open_dirs.len() > 0 {
                    let below = walker.open_dirs.last().push(name@);
                    &&& r.deep_view() == yielded(walker, below)
                    &&& final(self)@ == Some(
                        WalkerView {
                            going_into_dir: if descends(walker, below, is_dir) {
                                Some(below)
                            } else {
                                None
                            },
                            ..walker
                        },
                    )
                    &&& r matches Some(path) ==> pattern_verdict(
                        walker.pattern,
                        normalized(path@),
                    ) is Matched
                    &&& (r is Some && !contains_wildcard(walker.pattern.components)) ==> (final(self)@
                        matches Some(after) && after.going_into_dir is None)
                } else {
                    r is None && final(self)@ == old(self)@
                },
                None => r is None && final(self)@ is None,
            },
    {
        proof {
            use_type_invariant(&*self);
        }
        let mut taken: Option<WalkerState> = None;
        core::mem::swap(&mut self.state, &mut taken);
        let state = match taken {
            Some(state) => state,
            None => {
                return None;
            },
        };
        let ghost walker = state.view();
        let WalkerState { pattern, walk_from, base_dir, lead: front, open_dirs, going_into_dir } =
            state;
        if going_into_dir.is_some() || open_dirs.len() == 0 {
            self.state = Some(
                WalkerState { pattern, walk_from, base_dir, lead: front, open_dirs, going_into_dir },
            );
            return None;
        }
        // The entry's names below the directory that the walk started from
        let mut below = clone_names(open_dirs[open_dirs.len() - 1].as_slice());
        let ghost inner = below.deep_view();
        assert(inner =~= walker.open_dirs.last());
        let copy = slice_to_vec(name);
        assert(copy.deep_view() =~= name@);
        below.push(copy);
        assert(below.deep_view() =~= inner.push(name@));
        // The entry's path as it is yielded, which the pattern is held against
        let mut rendered = clone_names(front.as_slice());
        push_names(&mut rendered, below.as_slice());
        assert(rendered.deep_view() =~= lead(walker) + below.deep_view());
        let prefix = if pattern.is_absolute() {
            walk_from.prefix()
        } else {
            None
        };
        let shown = path_bytes(prefix, rendered.as_slice());
        let (found, descend) = match pattern.match_against(shown.as_slice()) {
            PatternMatchResult::Matched => {
                // The base directory itself is never yielded
                let mut absolute = clone_names(walk_from.components());
                push_names(&mut absolute, below.as_slice());
                let place = path_bytes(walk_from.prefix(), absolute.as_slice());
                let is_base = match normalize_path(place.as_slice()) {
                    Ok(seen) => seen.same_as(&base_dir),
                    Err(_) => false,
                };
                assert(shown.deep_view() =~= shown@);
                let found = if is_base {
                    None
                } else {
                    Some(shown)
                };
                // Without a wildcard nothing below a match can match
                (found, is_dir && pattern.has_wildcard())
            },
            // A longer path may match
            PatternMatchResult::Starved => (None, is_dir),
            _ => (None, false),
        };
        let going_into_dir = if descend {
            Some(below)
        } else {
            None
        };
        self.state = Some(
            WalkerState { pattern, walk_from, base_dir, lead: front, open_dirs, going_into_dir },
        );
        found
    }
}

} // verus!
