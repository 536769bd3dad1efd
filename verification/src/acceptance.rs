//! What it means for a compiled pattern to accept a path.

use vstd::prelude::*;

use crate::component::Component;
use crate::pattern::Matcher;

verus! {

/// The components that are left to match. When prefixes are matched a
/// leading `.` is set aside, since every relative path begins with one
/// implicitly; for a full match it stays, as a pattern may ask for `.` itself.
pub open spec fn heading(path: Seq<Component>, match_prefix: bool) -> Seq<Component> {
    if match_prefix && path.len() > 0 && path[0] == Component::Current {
        path.skip(1)
    } else {
        path
    }
}

/// Nothing is left to match but, at most, a closing directory marker.
pub open spec fn at_end(path: Seq<Component>) -> bool {
    path.len() == 0 || (path.len() == 1 && path[0] == Component::DirectoryMarker)
}

/// Whether `path` is accepted by going through all of `labels`, one
/// component for each matcher. The path must be used up when the labels are,
/// except that a lone directory marker may be left over.
pub open spec fn walk(labels: Seq<Matcher>, path: Seq<Component>, match_prefix: bool) -> bool
    decreases path.len(),
{
    let rest = heading(path, match_prefix);
    if labels.len() == 0 {
        at_end(rest)
    } else {
        rest.len() > 0 && labels[0].admits(rest[0]) && walk(
            labels.skip(1),
            rest.skip(1),
            match_prefix,
        )
    }
}

/// How many directory levels a path descends that goes through `labels`.
pub open spec fn depth_of(labels: Seq<Matcher>) -> nat
    decreases labels.len(),
{
    if labels.len() == 0 {
        0
    } else {
        labels[0].depth() + depth_of(labels.skip(1))
    }
}

/// A path descends at most one level for each matcher.
pub proof fn lemma_depth_at_most_len(labels: Seq<Matcher>)
    ensures
        depth_of(labels) <= labels.len(),
    decreases labels.len(),
{
    if labels.len() > 0 {
        lemma_depth_at_most_len(labels.skip(1));
    }
}

/// The depth behind a first matcher adds to that matcher's own.
pub proof fn lemma_depth_behind(first: Matcher, rest: Seq<Matcher>)
    ensures
        depth_of(seq![first] + rest) == first.depth() + depth_of(rest),
{
    assert((seq![first] + rest).skip(1) =~= rest);
}

/// The beginning of a pattern is no deeper than the pattern.
pub proof fn lemma_depth_of_prefix(pattern: Seq<Matcher>, k: int)
    requires
        0 <= k <= pattern.len(),
    ensures
        depth_of(pattern.take(k)) <= depth_of(pattern),
    decreases pattern.len(),
{
    if k > 0 {
        assert(pattern.take(k).skip(1) =~= pattern.skip(1).take(k - 1));
        lemma_depth_of_prefix(pattern.skip(1), k - 1);
    }
}

/// How many directory levels a path with these components descends.
pub open spec fn path_depth(path: Seq<Component>) -> nat
    decreases path.len(),
{
    if path.len() == 0 {
        0
    } else {
        path[0].depth() + path_depth(path.skip(1))
    }
}

/// A path descends as far as the matchers that accept it say.
pub proof fn lemma_walk_depth(labels: Seq<Matcher>, path: Seq<Component>, match_prefix: bool)
    requires
        walk(labels, path, match_prefix),
    ensures
        path_depth(path) == depth_of(labels),
    decreases path.len(),
{
    let rest = heading(path, match_prefix);
    assert(path_depth(path) == path_depth(rest));
    if labels.len() == 0 {
        if rest.len() == 1 {
            assert(path_depth(rest.skip(1)) == 0);
        }
    } else {
        lemma_walk_depth(labels.skip(1), rest.skip(1), match_prefix);
    }
}

/// Each matcher admits the component in its place, and there are as many
/// of the one as of the other.
pub open spec fn covers(labels: Seq<Matcher>, path: Seq<Component>) -> bool {
    &&& labels.len() == path.len()
    &&& forall|i: int| 0 <= i < labels.len() ==> (#[trigger] labels[i]).admits(path[i])
}

/// A full walk, said directly: the matchers cover the path, or they cover
/// all of it but a closing directory marker.
pub proof fn lemma_full_walk_covers(labels: Seq<Matcher>, path: Seq<Component>)
    ensures
        walk(labels, path, false) <==> covers(labels, path) || (path.len() == labels.len() + 1
            && path.last() == Component::DirectoryMarker && covers(labels, path.drop_last())),
    decreases path.len(),
{
    if labels.len() > 0 && path.len() > 0 {
        let tail = labels.skip(1);
        let rest = path.skip(1);
        lemma_full_walk_covers(tail, rest);
        assert(covers(labels, path) <==> labels[0].admits(path[0]) && covers(tail, rest)) by {
            if labels[0].admits(path[0]) && covers(tail, rest) {
                assert forall|i: int| 0 <= i < labels.len() implies (#[trigger] labels[i]).admits(
                    path[i],
                ) by {
                    if i > 0 {
                        assert(tail[i - 1].admits(rest[i - 1]));
                    }
                }
            }
            if covers(labels, path) {
                assert forall|i: int| 0 <= i < tail.len() implies (#[trigger] tail[i]).admits(
                    rest[i],
                ) by {
                    assert(labels[i + 1].admits(path[i + 1]));
                }
            }
        }
        if path.len() == labels.len() + 1 {
            let front = path.drop_last();
            assert(rest.drop_last() =~= front.skip(1));
            assert(rest.last() == path.last());
            assert(covers(labels, front) <==> labels[0].admits(path[0]) && covers(
                tail,
                rest.drop_last(),
            )) by {
                let short = rest.drop_last();
                if labels[0].admits(path[0]) && covers(tail, short) {
                    assert forall|i: int| 0 <= i < labels.len() implies (
                    #[trigger] labels[i]).admits(front[i]) by {
                        if i > 0 {
                            assert(tail[i - 1].admits(short[i - 1]));
                        }
                    }
                }
                if covers(labels, front) {
                    assert(labels[0].admits(front[0]));
                    assert forall|i: int| 0 <= i < tail.len() implies (#[trigger] tail[i]).admits(
                        short[i],
                    ) by {
                        assert(labels[i + 1].admits(front[i + 1]));
                    }
                }
            }
        }
    } else if labels.len() == 0 {
        if path.len() == 1 {
            assert(path.last() == path[0]);
        }
    }
}

} // verus!
