//! What holds of matching in general.

use vstd::prelude::*;

use crate::acceptance::{heading, lemma_depth_of_prefix, lemma_walk_depth, path_depth, walk};
use crate::component::Component;
use crate::matcher::{compiled, pattern_separator, Matching, PathMatch};
use crate::normalize::{normalize, normalize_onto, normalize_step, open_ended};
use crate::pattern::{compile_name, compile_onto, with_marker, Fault, Matcher, WILDCARD_ANY};
use crate::tokenizer::{
    components_of, lemma_marker_only_last, marker_only_last, occurs_at, pieces, pieces_from,
    tokenize,
};

verus! {

/// The literal matchers for the components of a path.
pub open spec fn literals_of(path: Seq<Component>) -> Seq<Matcher> {
    path.map_values(|component: Component| Matcher::Literal(component))
}

/// No name among the components holds a wildcard.
pub open spec fn plain(components: Seq<Component>) -> bool {
    forall|i: int|
        0 <= i < components.len() ==> match #[trigger] components[i] {
            Component::Name(name) => !name.contains(WILDCARD_ANY),
            _ => true,
        }
}

/// Whether the components `prefix` are a beginning of the components
/// `full`: some of its first components, either as they are or closed by a
/// directory marker.
pub open spec fn is_component_prefix(prefix: Seq<Component>, full: Seq<Component>) -> bool {
    ||| prefix.is_prefix_of(full)
    ||| prefix.len() > 0 && prefix.len() <= full.len() && prefix.last()
        == Component::DirectoryMarker && prefix.drop_last().is_prefix_of(full)
}

/// The shape of a normalized path: it is not empty, and a `.` can only be
/// its first component, followed by nothing or by a directory marker.
pub open spec fn canonical(path: Seq<Component>) -> bool {
    &&& path.len() > 0
    &&& {
        ||| path == seq![Component::Current]
        ||| path == seq![Component::Current, Component::DirectoryMarker]
        ||| forall|i: int| 0 <= i < path.len() ==> #[trigger] path[i] != Component::Current
    }
}

/// The pieces of a text hold no character that the text does not hold.
proof fn lemma_pieces_plain(text: Seq<char>, separator: Seq<char>, start: int, at: int, c: char)
    requires
        !text.contains(c),
        0 <= start <= at,
        start <= text.len(),
    ensures
        forall|i: int|
            0 <= i < pieces_from(text, separator, start, at).len() ==> !(#[trigger] pieces_from(
                text,
                separator,
                start,
                at,
            )[i]).contains(c),
    decreases text.len() + 1 - at,
{
    let all = pieces_from(text, separator, start, at);
    if at + separator.len() > text.len() {
        let piece = text.subrange(start, text.len() as int);
        assert forall|j: int| 0 <= j < piece.len() implies piece[j] != c by {
            assert(text[start + j] != c);
        }
        assert(all =~= seq![piece]);
        assert forall|i: int| 0 <= i < all.len() implies !(#[trigger] all[i]).contains(c) by {
            assert(all[i] == piece);
        }
    } else if occurs_at(text, separator, at) {
        let behind = at + separator.len();
        let resume = if separator.len() == 0 {
            at + 1
        } else {
            behind
        };
        lemma_pieces_plain(text, separator, behind, resume, c);
        let piece = text.subrange(start, at);
        assert forall|j: int| 0 <= j < piece.len() implies piece[j] != c by {
            assert(text[start + j] != c);
        }
        let rest = pieces_from(text, separator, behind, resume);
        assert(all =~= seq![piece] + rest);
        assert forall|i: int| 0 <= i < all.len() implies !(#[trigger] all[i]).contains(c) by {
            if i > 0 {
                assert(all[i] == rest[i - 1]);
            } else {
                assert(all[i] == piece);
            }
        }
    } else {
        lemma_pieces_plain(text, separator, start, at + 1, c);
        assert(all == pieces_from(text, separator, start, at + 1));
    }
}

/// Components made of pieces without a wildcard are plain.
proof fn lemma_components_plain(pieces: Seq<Seq<char>>, first: bool, pending: bool)
    requires
        forall|i: int| 0 <= i < pieces.len() ==> !(#[trigger] pieces[i]).contains(WILDCARD_ANY),
    ensures
        plain(components_of(pieces, first, pending)),
    decreases pieces.len(),
{
    if pieces.len() > 0 {
        let piece = pieces[0];
        let rest = pieces.skip(1);
        assert forall|i: int| 0 <= i < rest.len() implies !(#[trigger] rest[i]).contains(
            WILDCARD_ANY,
        ) by {
            assert(rest[i] == pieces[i + 1]);
        }
        let all = components_of(pieces, first, pending);
        if piece.len() == 0 && !first {
            lemma_components_plain(rest, false, true);
        } else {
            lemma_components_plain(rest, false, false);
            let tail = components_of(rest, false, false);
            assert forall|i: int| 0 <= i < all.len() implies match #[trigger] all[i] {
                Component::Name(name) => !name.contains(WILDCARD_ANY),
                _ => true,
            } by {
                if i > 0 {
                    assert(all[i] == tail[i - 1]);
                }
            }
        }
    }
}

/// Plain components without a `..` compile to the literal matchers of their
/// normal form.
proof fn lemma_compile_plain(done: Seq<Component>, components: Seq<Component>)
    requires
        plain(components),
        !components.contains(Component::Parent),
    ensures
        compile_onto(literals_of(done), components) == Ok::<Seq<Matcher>, Fault>(
            literals_of(normalize_onto(done, components)),
        ),
    decreases components.len(),
{
    let before = literals_of(done);
    if components.len() == 0 {
        if done.len() == 0 {
            assert(literals_of(seq![Component::Current]) =~= seq![
                Matcher::Literal(Component::Current),
            ]);
        }
    } else {
        let first = components[0];
        let rest = components.skip(1);
        assert(plain(rest)) by {
            assert forall|i: int| 0 <= i < rest.len() implies match #[trigger] rest[i] {
                Component::Name(name) => !name.contains(WILDCARD_ANY),
                _ => true,
            } by {
                assert(rest[i] == components[i + 1]);
            }
        }
        assert(!rest.contains(Component::Parent)) by {
            if rest.contains(Component::Parent) {
                let i = choose|i: int| 0 <= i < rest.len() && rest[i] == Component::Parent;
                assert(components[i + 1] == Component::Parent);
            }
        }
        assert(first != Component::Parent) by {
            assert(components[0] == first);
        }
        let next = normalize_step(done, first);
        lemma_compile_plain(next, rest);
        match first {
            Component::Name(name) => {
                assert(compile_name(name) == Ok::<Matcher, Fault>(
                    Matcher::Literal(first),
                ));
                assert(literals_of(next) =~= before.push(Matcher::Literal(first)));
            },
            Component::RootName(_) => {
                assert(literals_of(next) =~= before.push(Matcher::Literal(first)));
            },
            Component::DirectoryMarker => {
                assert(literals_of(next) =~= with_marker(before));
            },
            _ => {},
        }
    }
}

/// Literal matchers accept the very components they were made of.
proof fn lemma_literals_accept(path: Seq<Component>)
    ensures
        walk(literals_of(path), path, false),
    decreases path.len(),
{
    if path.len() > 0 {
        lemma_literals_accept(path.skip(1));
        assert(literals_of(path).skip(1) =~= literals_of(path.skip(1)));
    }
}

/// A pattern without wildcards and without `..` matches its own text when
/// paths are split on the forward slash, as patterns are.
pub proof fn lemma_literal_pattern_matches_itself(text: Seq<char>)
    requires
        !text.contains(WILDCARD_ANY),
        !tokenize(text, pattern_separator()).contains(Component::Parent),
    ensures
        compiled(text, pattern_separator()) is Ok,
        compiled(text, pattern_separator())->Ok_0.matches(text),
{
    let separator = pattern_separator();
    let components = tokenize(text, separator);
    lemma_pieces_plain(text, separator, 0, 0, WILDCARD_ANY);
    lemma_components_plain(pieces(text, separator), true, false);
    assert(literals_of(seq![]) =~= Seq::<Matcher>::empty());
    lemma_compile_plain(seq![], components);
    let path = normalize(components);
    lemma_literals_accept(path);
    let matching = compiled(text, separator)->Ok_0;
    assert(matching.patterns.contains(literals_of(path)));
    assert(matching.components(text) == path);
}

/// A matcher without patterns matches no path.
pub proof fn lemma_no_patterns_match_nothing(matching: Matching, path: Seq<char>)
    requires
        matching.patterns == Set::<Seq<Matcher>>::empty(),
    ensures
        !matching.matches(path),
{
}

/// Compiling the same pattern twice gives two matchers that behave alike:
/// what a matcher answers depends only on the separator and the patterns
/// that it was compiled from.
pub proof fn lemma_compiling_twice_matches_alike(
    pattern: Seq<char>,
    separator: Seq<char>,
    first: PathMatch,
    second: PathMatch,
    path: Seq<char>,
)
    requires
        compiled(pattern, separator) == Ok::<Matching, Fault>(first@),
        compiled(pattern, separator) == Ok::<Matching, Fault>(second@),
    ensures
        first@.matches(path) == second@.matches(path),
        first@.matches_prefix(path) == second@.matches_prefix(path),
        forall|bound: nat| first@.is_max_depth(bound) == second@.is_max_depth(bound),
{
}

/// The greatest depth bounds every match: a path that matches, or that
/// matches as a prefix, descends no further than the deepest pattern. A
/// walk over a directory tree need not go deeper to find all that matches.
pub proof fn lemma_match_within_max_depth(matching: Matching, path: Seq<char>, bound: nat)
    requires
        matching.is_max_depth(bound),
        matching.matches(path) || matching.matches_prefix(path),
    ensures
        path_depth(matching.components(path)) <= bound,
{
    let found = matching.components(path);
    if matching.matches(path) {
        let pattern = choose|pattern: Seq<Matcher>|
            matching.patterns.contains(pattern) && #[trigger] walk(pattern, found, false);
        lemma_walk_depth(pattern, found, false);
    } else if walk(seq![], found, true) {
        lemma_walk_depth(seq![], found, true);
    } else {
        let (pattern, k) = choose|pattern: Seq<Matcher>, k: int|
            matching.patterns.contains(pattern) && 0 <= k <= pattern.len() && #[trigger] walk(
                pattern.take(k),
                found,
                true,
            );
        lemma_walk_depth(pattern.take(k), found, true);
        lemma_depth_of_prefix(pattern, k);
    }
}

/// Normalizing what a tokenizer yields gives a canonical path.
pub proof fn lemma_normalize_canonical(done: Seq<Component>, components: Seq<Component>)
    requires
        open_ended(done),
        marker_only_last(components),
    ensures
        canonical(normalize_onto(done, components)),
    decreases components.len(),
{
    if components.len() > 0 {
        let first = components[0];
        let rest = components.skip(1);
        let next = normalize_step(done, first);
        assert(marker_only_last(rest)) by {
            assert forall|i: int| 0 <= i < rest.len() - 1 implies #[trigger] rest[i]
                != Component::DirectoryMarker by {
                assert(rest[i] == components[i + 1]);
            }
        }
        if first == Component::DirectoryMarker {
            assert(rest.len() == 0) by {
                if components.len() > 1 {
                    assert(components[0] != Component::DirectoryMarker);
                }
            }
            let last = normalize_onto(next, rest);
            assert(last == next);
            if done.len() > 0 {
                assert forall|i: int| 0 <= i < last.len() implies #[trigger] last[i]
                    != Component::Current by {
                    if i < done.len() {
                        assert(last[i] == done[i]);
                    }
                }
            }
        } else {
            assert(open_ended(next)) by {
                assert forall|i: int| 0 <= i < next.len() implies #[trigger] next[i]
                    != Component::Current && next[i] != Component::DirectoryMarker by {
                    if i < done.len() {
                        assert(next[i] == done[i]);
                    }
                }
            }
            lemma_normalize_canonical(next, rest);
        }
    } else if done.len() > 0 {
        assert(normalize_onto(done, components) == done);
    }
}

/// Where no `.` is in the way, a prefix walk is a full walk.
proof fn lemma_walk_without_current(labels: Seq<Matcher>, path: Seq<Component>)
    requires
        forall|i: int| 0 <= i < path.len() ==> #[trigger] path[i] != Component::Current,
    ensures
        walk(labels, path, true) == walk(labels, path, false),
    decreases path.len(),
{
    assert(heading(path, true) == path);
    if labels.len() > 0 && path.len() > 0 {
        let rest = path.skip(1);
        assert forall|i: int| 0 <= i < rest.len() implies #[trigger] rest[i]
            != Component::Current by {
            assert(rest[i] == path[i + 1]);
        }
        lemma_walk_without_current(labels.skip(1), rest);
    }
}

/// A walk through a pattern begins with walks through the beginnings of the
/// pattern: the first `k` components of an accepted path are accepted by
/// some beginning of the pattern, and so are they when a directory marker
/// closes them, as long as the path has more than `k` components.
proof fn lemma_walk_prefix(labels: Seq<Matcher>, path: Seq<Component>, k: int) -> (j: int)
    requires
        walk(labels, path, false),
        0 <= k <= path.len(),
    ensures
        0 <= j <= labels.len(),
        walk(labels.take(j), path.take(k), false),
        k < path.len() ==> walk(
            labels.take(j),
            path.take(k).push(Component::DirectoryMarker),
            false,
        ),
    decreases path.len(),
{
    if labels.len() == 0 {
        assert(labels.take(0) =~= labels);
        if k < path.len() {
            assert(path.len() == 1 && k == 0);
            assert(path.take(0).push(Component::DirectoryMarker) =~= seq![
                Component::DirectoryMarker,
            ]);
        }
        0
    } else if k == 0 {
        assert(labels.take(0) =~= Seq::<Matcher>::empty());
        assert(path.take(0).push(Component::DirectoryMarker) =~= seq![Component::DirectoryMarker]);
        0
    } else {
        let tail = lemma_walk_prefix(labels.skip(1), path.skip(1), k - 1);
        let j = tail + 1;
        let head = labels.take(j);
        let seen = path.take(k);
        assert(head.skip(1) =~= labels.skip(1).take(tail));
        assert(seen.skip(1) =~= path.skip(1).take(k - 1));
        assert(head[0] == labels[0] && seen[0] == path[0]);
        if k < path.len() {
            let closed = seen.push(Component::DirectoryMarker);
            assert(closed.skip(1) =~= path.skip(1).take(k - 1).push(Component::DirectoryMarker));
            assert(closed[0] == path[0]);
        }
        j
    }
}

/// Prefix matching is monotonic over truncation: when a path matches, every
/// path whose normalized components are a beginning of the normalized
/// components of that path matches as a prefix.
pub proof fn lemma_prefix_of_match_matches_prefix(
    matching: Matching,
    full: Seq<char>,
    prefix: Seq<char>,
)
    requires
        matching.matches(full),
        is_component_prefix(matching.components(prefix), matching.components(full)),
    ensures
        matching.matches_prefix(prefix),
{
    let whole = matching.components(full);
    let part = matching.components(prefix);
    let pattern = choose|pattern: Seq<Matcher>|
        matching.patterns.contains(pattern) && #[trigger] walk(pattern, whole, false);
    lemma_marker_only_last(pieces(full, matching.separator), true, false);
    lemma_normalize_canonical(seq![], tokenize(full, matching.separator));
    lemma_marker_only_last(pieces(prefix, matching.separator), true, false);
    lemma_normalize_canonical(seq![], tokenize(prefix, matching.separator));
    if part[0] == Component::Current {
        assert(walk(seq![], part, true));
    } else {
        let closed = !part.is_prefix_of(whole);
        let k = if closed {
            part.len() - 1
        } else {
            part.len() as int
        };
        let j = lemma_walk_prefix(pattern, whole, k);
        if closed {
            assert(part.drop_last() =~= whole.take(k));
            assert(part =~= whole.take(k).push(Component::DirectoryMarker));
        } else {
            assert(part =~= whole.take(k));
        }
        lemma_walk_without_current(pattern.take(j), part);
        assert(matching.patterns.contains(pattern) && walk(pattern.take(j), part, true));
    }
}

} // verus!
