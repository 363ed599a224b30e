//! Matching compiled components against the components of a path.

use crate::compiler::{
    component_accepts, component_views, parent_dir_name, Component, ComponentView,
};
use crate::engine::regex_is_match;
use crate::paths::{is_name, reads_as_drive, same_bytes};
use vstd::prelude::*;
use vstd::utf8::encode_utf8;

verus! {

/// Result of matching a pattern against a path.
#[derive(Debug, Clone, Copy, PartialEq, Eq, Structural)]
pub enum PatternMatchResult {
    /// The path is relative while the pattern only matches absolute paths.
    PathNotAbsolute,
    /// The path is absolute while the pattern only matches relative paths.
    PathIsAbsolute,
    /// The path's prefix is of another kind than the pattern's, or is not supported.
    IncompatiblePrefix,
    /// The pattern matches the path.
    Matched,
    /// The pattern does not match the path, nor any path below it.
    NotMatched,
    /// The pattern does not match the path, but may match a path below it.
    Starved,
}

/// Whether `components` match the whole of `path`: each single-component matcher
/// accepts one path component, each wildcard stands for any number of them.
pub open spec fn accepts(components: Seq<ComponentView>, path: Seq<Seq<u8>>) -> bool
    decreases components.len(), path.len(),
{
    if components.len() == 0 {
        path.len() == 0
    } else if components[0] is Wildcard {
        accepts(components.skip(1), path) || (path.len() > 0 && accepts(components, path.skip(1)))
    } else {
        path.len() > 0 && component_accepts(components[0], path[0]) && accepts(
            components.skip(1),
            path.skip(1),
        )
    }
}

/// The verdict on `path`. Up to the first wildcard, the components are held against
/// the path one by one: a refused name ends the match, a path that is too short
/// leaves it starved (except before `..`, which no longer path can bring). From the
/// first wildcard on, the path either matches or is starved.
pub open spec fn match_result(components: Seq<ComponentView>, path: Seq<Seq<u8>>) -> PatternMatchResult
    decreases components.len(),
{
    if components.len() == 0 {
        if path.len() == 0 {
            PatternMatchResult::Matched
        } else {
            PatternMatchResult::NotMatched
        }
    } else if components[0] is Wildcard {
        if accepts(components, path) {
            PatternMatchResult::Matched
        } else {
            PatternMatchResult::Starved
        }
    } else if path.len() == 0 {
        if components[0] is ParentDir {
            PatternMatchResult::NotMatched
        } else {
            PatternMatchResult::Starved
        }
    } else if component_accepts(components[0], path[0]) {
        match_result(components.skip(1), path.skip(1))
    } else {
        PatternMatchResult::NotMatched
    }
}

/// Whether every component is a wildcard.
pub open spec fn only_wildcards(components: Seq<ComponentView>) -> bool {
    forall|i: int| 0 <= i < components.len() ==> components[i] is Wildcard
}

/// Components match the empty path exactly when all of them are wildcards.
pub proof fn lemma_accepts_empty_path(components: Seq<ComponentView>)
    ensures
        accepts(components, Seq::empty()) <==> only_wildcards(components),
    decreases components.len(),
{
    if components.len() > 0 {
        let rest = components.skip(1);
        lemma_accepts_empty_path(rest);
        if components[0] is Wildcard && only_wildcards(rest) {
            assert forall|i: int| 0 <= i < components.len() implies components[i] is Wildcard by {
                if i > 0 {
                    assert(rest[i - 1] == components[i]);
                }
            }
        }
        if only_wildcards(components) {
            assert forall|i: int| 0 <= i < rest.len() implies rest[i] is Wildcard by {
                assert(rest[i] == components[i + 1]);
            }
        }
    }
}

/// One or more wildcards, and nothing else, match every path.
pub proof fn lemma_only_wildcards_accept(components: Seq<ComponentView>, path: Seq<Seq<u8>>)
    requires
        components.len() > 0,
        only_wildcards(components),
    ensures
        accepts(components, path),
    decreases path.len(),
{
    if path.len() == 0 {
        assert(path =~= Seq::empty());
        lemma_accepts_empty_path(components);
    } else {
        assert(components[0] is Wildcard);
        lemma_only_wildcards_accept(components, path.skip(1));
    }
}

/// A leading wildcard may stand for the first `k` components of the path.
pub proof fn lemma_wildcard_absorbs(components: Seq<ComponentView>, path: Seq<Seq<u8>>, k: int)
    requires
        components.len() > 0,
        components[0] is Wildcard,
        0 <= k <= path.len(),
        accepts(components.skip(1), path.skip(k)),
    ensures
        accepts(components, path),
    decreases k,
{
    if k == 0 {
        assert(path.skip(0) =~= path);
    } else {
        assert(path.skip(1).skip(k - 1) =~= path.skip(k));
        lemma_wildcard_absorbs(components, path.skip(1), k - 1);
    }
}

/// Where a leading wildcard leads to a match, it stands for some first `k`
/// components of the path, and the rest of the pattern matches what follows them.
pub proof fn lemma_wildcard_split(components: Seq<ComponentView>, path: Seq<Seq<u8>>) -> (k: int)
    requires
        components.len() > 0,
        components[0] is Wildcard,
        accepts(components, path),
    ensures
        0 <= k <= path.len(),
        accepts(components.skip(1), path.skip(k)),
    decreases path.len(),
{
    if accepts(components.skip(1), path) {
        assert(path.skip(0) =~= path);
        0
    } else {
        let k = lemma_wildcard_split(components, path.skip(1));
        assert(path.skip(1).skip(k) =~= path.skip(k + 1));
        k + 1
    }
}

/// The verdict is `Matched` exactly on the paths that the components match, and it
/// is never one of the three verdicts on prefixes.
pub proof fn lemma_match_result_matched(components: Seq<ComponentView>, path: Seq<Seq<u8>>)
    ensures
        match_result(components, path) is Matched <==> accepts(components, path),
        match_result(components, path) is Matched || match_result(components, path) is NotMatched
            || match_result(components, path) is Starved,
    decreases components.len(),
{
    if components.len() > 0 && !(components[0] is Wildcard) && path.len() > 0 {
        lemma_match_result_matched(components.skip(1), path.skip(1));
    }
}

/// Matches compose: where `first` match `head` and `second` match `tail`, the two
/// runs of components one after the other match `head` followed by `tail`.
pub proof fn lemma_accepts_concat(
    first: Seq<ComponentView>,
    head: Seq<Seq<u8>>,
    second: Seq<ComponentView>,
    tail: Seq<Seq<u8>>,
)
    requires
        accepts(first, head),
        accepts(second, tail),
    ensures
        accepts(first + second, head + tail),
    decreases first.len(), head.len(),
{
    if first.len() == 0 {
        assert(first + second =~= second);
        assert(head + tail =~= tail);
    } else {
        assert((first + second)[0] == first[0]);
        assert((first + second).skip(1) =~= first.skip(1) + second);
        if first[0] is Wildcard {
            if accepts(first.skip(1), head) {
                lemma_accepts_concat(first.skip(1), head, second, tail);
            } else {
                assert((head + tail).skip(1) =~= head.skip(1) + tail);
                lemma_accepts_concat(first, head.skip(1), second, tail);
            }
        } else {
            assert((head + tail)[0] == head[0]);
            assert((head + tail).skip(1) =~= head.skip(1) + tail);
            lemma_accepts_concat(first.skip(1), head.skip(1), second, tail);
        }
    }
}

/// Wildcard identity. Components that end in a wildcard match every path of which
/// the components before that wildcard match a leading part, whatever follows that
/// part and however long it is.
pub proof fn lemma_trailing_wildcard(
    components: Seq<ComponentView>,
    head: Seq<Seq<u8>>,
    tail: Seq<Seq<u8>>,
)
    requires
        components.len() > 0,
        components.last() is Wildcard,
        accepts(components.drop_last(), head),
    ensures
        accepts(components, head + tail),
        match_result(components, head + tail) is Matched,
{
    let last = seq![components.last()];
    lemma_only_wildcards_accept(last, tail);
    lemma_accepts_concat(components.drop_last(), head, last, tail);
    assert(components.drop_last() + last =~= components);
    lemma_match_result_matched(components, head + tail);
}

/// Whether the single-component matcher accepts a name that a path can hold: one
/// that is not empty, is not `.`, and holds no separator.
pub open spec fn accepts_name(component: ComponentView) -> bool {
    exists|name: Seq<u8>| #[trigger] component_accepts(component, name) && is_name(name)
}

/// Whether the single-component matcher accepts a name with which a path without a
/// prefix can start: a name that a path can hold and that does not read as a drive.
pub open spec fn accepts_first_name(component: ComponentView) -> bool {
    exists|name: Seq<u8>|
        #[trigger] component_accepts(component, name) && is_name(name) && !reads_as_drive(name)
}

/// Whether each character run and each literal among the components accepts a name
/// that a path can hold.
pub open spec fn nameable(components: Seq<ComponentView>) -> bool {
    forall|i: int|
        0 <= i < components.len() && !(#[trigger] components[i] is Wildcard) ==> accepts_name(
            components[i],
        )
}

/// A name that a path can hold and that the single-component matcher accepts, if
/// there is one; and one with which a path can start, if there is one.
pub open spec fn name_of(component: ComponentView) -> Seq<u8> {
    if accepts_first_name(component) {
        choose|name: Seq<u8>|
            #[trigger] component_accepts(component, name) && is_name(name) && !reads_as_drive(
                name,
            )
    } else {
        choose|name: Seq<u8>| #[trigger] component_accepts(component, name) && is_name(name)
    }
}

/// The first component that is no wildcard.
pub open spec fn leading(components: Seq<ComponentView>) -> Option<ComponentView>
    decreases components.len(),
{
    if components.len() == 0 {
        None
    } else if components[0] is Wildcard {
        leading(components.skip(1))
    } else {
        Some(components[0])
    }
}

/// Whether the first component that is no wildcard, if there is one, accepts a name
/// with which a path without a prefix can start.
pub open spec fn leads_off_drive(components: Seq<ComponentView>) -> bool {
    leading(components) matches Some(first) ==> accepts_first_name(first)
}

/// One name for each component that is no wildcard, in the components' order.
pub open spec fn completion(components: Seq<ComponentView>) -> Seq<Seq<u8>>
    decreases components.len(),
{
    if components.len() == 0 {
        Seq::empty()
    } else if components[0] is Wildcard {
        completion(components.skip(1))
    } else {
        seq![name_of(components[0])] + completion(components.skip(1))
    }
}

/// `..` is a name that a path can hold and start with.
pub proof fn lemma_parent_dir_is_name()
    ensures
        is_name(parent_dir_name()),
        !reads_as_drive(parent_dir_name()),
        accepts_first_name(ComponentView::ParentDir),
{
    let name = parent_dir_name();
    assert(name != seq![0x2eu8]) by {
        assert(name.len() == 2);
    }
    assert(component_accepts(ComponentView::ParentDir, name));
}

/// The name of a component that accepts a name is such a name.
pub proof fn lemma_name_of(component: ComponentView)
    requires
        accepts_name(component),
    ensures
        component_accepts(component, name_of(component)),
        is_name(name_of(component)),
        accepts_first_name(component) ==> !reads_as_drive(name_of(component)),
{
}

/// The rest of nameable components is nameable.
proof fn lemma_nameable_rest(components: Seq<ComponentView>)
    requires
        components.len() > 0,
        nameable(components),
    ensures
        nameable(components.skip(1)),
{
    let rest = components.skip(1);
    assert forall|i: int| 0 <= i < rest.len() && !(#[trigger] rest[i] is Wildcard) implies accepts_name(
        rest[i],
    ) by {
        assert(rest[i] == components[i + 1]);
    }
}

/// Nameable components match their completion, also behind any path that a leading
/// wildcard can stand for. The completion is made of names that a path can hold, and
/// where the components lead off a drive, it does not start like one.
pub proof fn lemma_completion_accepted(components: Seq<ComponentView>, path: Seq<Seq<u8>>)
    requires
        nameable(components),
        path.len() > 0 ==> components.len() > 0 && components[0] is Wildcard,
    ensures
        accepts(components, path + completion(components)),
        forall|i: int|
            0 <= i < completion(components).len() ==> is_name(#[trigger] completion(components)[i]),
        leads_off_drive(components) && completion(components).len() > 0 ==> !reads_as_drive(
            completion(components)[0],
        ),
    decreases components.len(),
{
    let done = completion(components);
    if components.len() == 0 {
        assert(path + done =~= Seq::empty());
    } else {
        let rest = components.skip(1);
        lemma_nameable_rest(components);
        lemma_completion_accepted(rest, Seq::empty());
        assert(Seq::<Seq<u8>>::empty() + completion(rest) =~= completion(rest));
        if components[0] is Wildcard {
            assert((path + done).skip(path.len() as int) =~= done);
            lemma_wildcard_absorbs(components, path + done, path.len() as int);
        } else {
            assert(path + done =~= done);
            let first = components[0];
            lemma_name_of(first);
            assert(done[0] == name_of(first));
            assert(done.skip(1) =~= completion(rest));
            assert forall|i: int| 0 <= i < done.len() implies is_name(#[trigger] done[i]) by {
                if i > 0 {
                    assert(done[i] == completion(rest)[i - 1]);
                }
            }
        }
    }
}

/// Starvation soundness. Where the verdict on a path is `Starved` and the components
/// are nameable, components can be appended to the path, at least one, so that the
/// verdict becomes `Matched`. The components to append are returned: each is a name
/// that a path can hold, and behind the empty path they do not start like a drive
/// where the components lead off a drive.
pub proof fn lemma_starved_can_match(components: Seq<ComponentView>, path: Seq<Seq<u8>>) -> (more:
    Seq<Seq<u8>>)
    requires
        nameable(components),
        match_result(components, path) is Starved,
    ensures
        match_result(components, path + more) is Matched,
        more.len() > 0,
        forall|i: int| 0 <= i < more.len() ==> is_name(#[trigger] more[i]),
        path.len() == 0 && leads_off_drive(components) ==> !reads_as_drive(more[0]),
    decreases components.len(),
{
    let rest = components.skip(1);
    let more = if components[0] is Wildcard || path.len() == 0 {
        lemma_completion_accepted(components, path);
        lemma_match_result_matched(components, path + completion(components));
        completion(components)
    } else {
        lemma_nameable_rest(components);
        let more = lemma_starved_can_match(rest, path.skip(1));
        assert((path + more).skip(1) =~= path.skip(1) + more);
        assert((path + more)[0] == path[0]);
        more
    };
    assert(match_result(components, path + more) is Matched);
    if more.len() == 0 {
        assert(path + more =~= path);
    }
    more
}

/// `NotMatched` is final. Where the verdict on a path is `NotMatched`, it stays
/// `NotMatched` on every path made of that path and of further components other
/// than `..`: nothing below matches, and nothing below is starved.
pub proof fn lemma_not_matched_is_final(
    components: Seq<ComponentView>,
    path: Seq<Seq<u8>>,
    more: Seq<Seq<u8>>,
)
    requires
        match_result(components, path) is NotMatched,
        forall|i: int| 0 <= i < more.len() ==> more[i] != parent_dir_name(),
    ensures
        match_result(components, path + more) is NotMatched,
        !accepts(components, path + more),
    decreases components.len(),
{
    lemma_match_result_matched(components, path + more);
    if components.len() == 0 {
    } else if path.len() == 0 {
        assert(path + more =~= more);
        if more.len() > 0 {
            assert(more[0] != parent_dir_name());
        }
    } else {
        assert((path + more).skip(1) =~= path.skip(1) + more);
        assert((path + more)[0] == path[0]);
        if component_accepts(components[0], path[0]) {
            lemma_not_matched_is_final(components.skip(1), path.skip(1), more);
            lemma_match_result_matched(components.skip(1), path.skip(1) + more);
        }
    }
}

/// Whether the single-component matcher `component` accepts `name`.
fn component_matches(component: &Component, name: &[u8]) -> (r: bool)
    requires
        !(component@ is Wildcard),
    ensures
        r == component_accepts(component@, name@),
{
    match component {
        Component::Regex(re) => regex_is_match(re, name),
        Component::Literal(lit) => same_bytes(name, lit.as_str().as_bytes()),
        Component::ParentDir => {
            let r = name.len() == 2 && name[0] == 0x2e && name[1] == 0x2e;
            assert(r == (name@ =~= seq![0x2eu8, 0x2eu8]));
            r
        },
        Component::Wildcard => false,
    }
}

/// Whether the components from `start` on are all wildcards.
fn rest_is_wildcards(components: &[Component], start: usize) -> (r: bool)
    requires
        start <= components.len(),
    ensures
        r == only_wildcards(component_views(components@).skip(start as int)),
{
    let ghost views = component_views(components@);
    let mut i: usize = start;
    while i < components.len()
        invariant
            start <= i <= components.len(),
            views == component_views(components@),
            forall|k: int| start <= k < i ==> views[k] is Wildcard,
        decreases components.len() - i,
    {
        match &components[i] {
            Component::Wildcard => {},
            _ => {
                assert(!(views.skip(start as int)[i - start] is Wildcard));
                return false;
            },
        }
        i += 1;
    }
    assert forall|k: int| 0 <= k < views.skip(start as int).len() implies views.skip(
        start as int,
    )[k] is Wildcard by {
        assert(views[k + start] is Wildcard);
    }
    true
}

/// The verdict of the components from `start` on over the path from `at` on.
fn match_from(components: &[Component], path: &[Vec<u8>], start: usize, at: usize) -> (r:
    PatternMatchResult)
    requires
        start <= components.len(),
        at <= path.len(),
    ensures
        r == match_result(
            component_views(components@).skip(start as int),
            path.deep_view().skip(at as int),
        ),
    decreases components.len() - start,
{
    let ghost views = component_views(components@);
    let ghost names = path.deep_view();
    let ghost wanted = match_result(views.skip(start as int), names.skip(at as int));
    let mut i: usize = start;
    let mut j: usize = at;
    while i < components.len()
        invariant
            start <= i <= components.len(),
            j <= path.len(),
            views == component_views(components@),
            names == path.deep_view(),
            wanted == match_result(views.skip(start as int), names.skip(at as int)),
            wanted == match_result(views.skip(i as int), names.skip(j as int)),
        decreases components.len() - i,
    {
        let ghost here = views.skip(i as int);
        let ghost left = names.skip(j as int);
        assert(here[0] == components@[i as int]@);
        assert(here.skip(1) =~= views.skip(i + 1));
        match &components[i] {
            Component::Wildcard => {
                if i + 1 == components.len() {
                    proof {
                        assert(only_wildcards(here));
                        lemma_only_wildcards_accept(here, left);
                    }
                    return PatternMatchResult::Matched;
                }
                if j == path.len() {
                    let rest = rest_is_wildcards(components, i + 1);
                    proof {
                        assert(left =~= Seq::empty());
                        lemma_accepts_empty_path(here);
                        lemma_accepts_empty_path(here.skip(1));
                        if rest {
                            assert forall|k: int| 0 <= k < here.len() implies here[k] is Wildcard by {
                                if k > 0 {
                                    assert(here.skip(1)[k - 1] == here[k]);
                                }
                            }
                        } else if only_wildcards(here) {
                            assert forall|k: int| 0 <= k < here.skip(1).len() implies here.skip(
                                1,
                            )[k] is Wildcard by {
                                assert(here.skip(1)[k] == here[k + 1]);
                            }
                        }
                    }
                    return if rest {
                        PatternMatchResult::Matched
                    } else {
                        PatternMatchResult::Starved
                    };
                }
                let mut k: usize = j;
                while k < path.len()
                    invariant
                        j <= k <= path.len(),
                        start <= i,
                        i + 1 < components.len(),
                        views == component_views(components@),
                        names == path.deep_view(),
                        here == views.skip(i as int),
                        left == names.skip(j as int),
                        here.skip(1) == views.skip(i + 1),
                        here.len() > 0,
                        here[0] is Wildcard,
                        wanted == match_result(views.skip(start as int), names.skip(at as int)),
                        wanted == match_result(here, left),
                        forall|m: int| j <= m < k ==> !accepts(here.skip(1), names.skip(m)),
                    decreases path.len() - k,
                {
                    let sub = match_from(components, path, i + 1, k);
                    proof {
                        lemma_match_result_matched(here.skip(1), names.skip(k as int));
                    }
                    match sub {
                        PatternMatchResult::Matched => {
                            proof {
                                assert(left.skip(k - j) =~= names.skip(k as int));
                                lemma_wildcard_absorbs(here, left, k - j);
                            }
                            return PatternMatchResult::Matched;
                        },
                        _ => {},
                    }
                    k += 1;
                }
                // No part of the path is matched by what follows the wildcard, and
                // neither is the empty rest: components that match it match any path
                assert(!accepts(here, left)) by {
                    if accepts(here, left) {
                        let split = lemma_wildcard_split(here, left);
                        assert(left.skip(split) =~= names.skip(j + split));
                        if j + split == path.len() {
                            assert(names.skip(j + split) =~= Seq::empty());
                            lemma_accepts_empty_path(here.skip(1));
                            lemma_only_wildcards_accept(here.skip(1), left);
                            assert(left =~= names.skip(j as int));
                        }
                    }
                }
                return PatternMatchResult::Starved;
            },
            Component::ParentDir => {
                if j == path.len() {
                    return PatternMatchResult::NotMatched;
                }
                assert(left[0] == path@[j as int]@);
                assert(left.skip(1) =~= names.skip(j + 1));
                if !component_matches(&components[i], path[j].as_slice()) {
                    return PatternMatchResult::NotMatched;
                }
                j += 1;
            },
            _ => {
                if j == path.len() {
                    return PatternMatchResult::Starved;
                }
                assert(left[0] == path@[j as int]@);
                assert(left.skip(1) =~= names.skip(j + 1));
                if !component_matches(&components[i], path[j].as_slice()) {
                    return PatternMatchResult::NotMatched;
                }
                j += 1;
            },
        }
        i += 1;
    }
    assert(views.skip(i as int).len() == 0);
    if j == path.len() {
        PatternMatchResult::Matched
    } else {
        PatternMatchResult::NotMatched
    }
}

/// Matches compiled components against the components of a path.
///
/// The verdict is `Matched` where the components match the whole path, `NotMatched`
/// where neither the path nor anything below it can match, and `Starved` where a
/// longer path may still match.
pub fn match_components(components: &[Component], path: &[Vec<u8>]) -> (r: PatternMatchResult)
    ensures
        r == match_result(component_views(components@), path.deep_view()),
        r is Matched <==> accepts(component_views(components@), path.deep_view()),
        r is Matched || r is NotMatched || r is Starved,
{
    proof {
        let views = component_views(components@);
        let names = path.deep_view();
        assert(views.skip(0) =~= views);
        assert(names.skip(0) =~= names);
        lemma_match_result_matched(views, names);
    }
    match_from(components, path, 0, 0)
}

} // verus!
