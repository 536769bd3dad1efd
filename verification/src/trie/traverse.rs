//! Searching the trie for what accepts a path.

use vstd::prelude::*;

use std::collections::VecDeque;

use crate::acceptance::{at_end, heading, walk};
use crate::component::{Component, PathComponent};
use crate::pattern::Matcher;
use crate::trie::PathMatchNode;

verus! {

/// Whether the component is a `.` segment.
fn is_current(component: &PathComponent) -> (current: bool)
    ensures
        current == (component@ == Component::Current),
{
    match component {
        PathComponent::Current => true,
        _ => false,
    }
}

/// Whether the component is a directory marker.
fn is_marker(component: &PathComponent) -> (marker: bool)
    ensures
        marker == (component@ == Component::DirectoryMarker),
{
    match component {
        PathComponent::DirectoryMarker => true,
        _ => false,
    }
}

/// Where the children of a node begin that itself began at `start`: behind
/// the component it consumed, and behind the `.` that a prefix match skips.
pub open spec fn following(path: Seq<Component>, start: int, match_prefix: bool) -> int {
    if match_prefix && start < path.len() && path[start] == Component::Current {
        start + 2
    } else {
        start + 1
    }
}

/// The list `after` is the list `before` with new items in front of it, all
/// of which have reached the position `next`.
pub open spec fn extended<'a>(
    before: Seq<(&'a PathMatchNode, usize)>,
    after: Seq<(&'a PathMatchNode, usize)>,
    next: int,
) -> bool {
    &&& after.len() >= before.len()
    &&& forall|j: int| 0 <= j < after.len() - before.len() ==> (#[trigger] after[j]).1 == next
    &&& forall|j: int|
        after.len() - before.len() <= j < after.len() ==> (#[trigger] after[j]) == before[j - (
        after.len() - before.len())]
}

/// One of the listed nodes accepts the path from the position it reached.
pub open spec fn pending<'a>(
    items: Seq<(&'a PathMatchNode, usize)>,
    path: Seq<Component>,
    match_prefix: bool,
) -> bool {
    exists|j: int|
        0 <= j < items.len() && (#[trigger] items[j]).0.accepts(
            path.skip(items[j].1 as int),
            match_prefix,
        )
}

/// Taking the last item off a list leaves what the others accept.
proof fn lemma_pending_last<'a>(
    items: Seq<(&'a PathMatchNode, usize)>,
    path: Seq<Component>,
    match_prefix: bool,
)
    requires
        items.len() > 0,
    ensures
        pending(items, path, match_prefix) == (pending(items.drop_last(), path, match_prefix)
            || items.last().0.accepts(path.skip(items.last().1 as int), match_prefix)),
{
    let front = items.drop_last();
    if pending(items, path, match_prefix) {
        let j = choose|j: int|
            0 <= j < items.len() && (#[trigger] items[j]).0.accepts(
                path.skip(items[j].1 as int),
                match_prefix,
            );
        if j < items.len() - 1 {
            assert(front[j] == items[j]);
        }
    }
    if pending(front, path, match_prefix) {
        let j = choose|j: int|
            0 <= j < front.len() && (#[trigger] front[j]).0.accepts(
                path.skip(front[j].1 as int),
                match_prefix,
            );
        assert(items[j] == front[j]);
    }
    if items.last().0.accepts(path.skip(items.last().1 as int), match_prefix) {
        assert(items[items.len() - 1] == items.last());
    }
}

/// Putting an item in front of a list adds what it accepts.
proof fn lemma_pending_first<'a>(
    items: Seq<(&'a PathMatchNode, usize)>,
    path: Seq<Component>,
    match_prefix: bool,
)
    requires
        items.len() > 0,
    ensures
        pending(items, path, match_prefix) == (pending(items.skip(1), path, match_prefix)
            || items[0].0.accepts(path.skip(items[0].1 as int), match_prefix)),
{
    let back = items.skip(1);
    if pending(items, path, match_prefix) {
        let j = choose|j: int|
            0 <= j < items.len() && (#[trigger] items[j]).0.accepts(
                path.skip(items[j].1 as int),
                match_prefix,
            );
        if j > 0 {
            assert(back[j - 1] == items[j]);
        }
    }
    if pending(back, path, match_prefix) {
        let j = choose|j: int|
            0 <= j < back.len() && (#[trigger] back[j]).0.accepts(
                path.skip(back[j].1 as int),
                match_prefix,
            );
        assert(items[j + 1] == back[j]);
    }
}

impl PathMatchNode {
    /// Whether the trie below this node accepts `path`.
    ///
    /// A full match goes along a pattern of the trie. A prefix match goes
    /// along any branch: the way to a node is an ancestor of whatever the
    /// patterns below that node match.
    pub open spec fn accepts(&self, path: Seq<Component>, match_prefix: bool) -> bool {
        exists|labels: Seq<Matcher>|
            self.leads(labels, !match_prefix) && #[trigger] walk(labels, path, match_prefix)
    }

    /// Acceptance one step at a time: either the path ends at this node, or
    /// its next component is admitted by an edge and the child behind that
    /// edge accepts what follows.
    proof fn lemma_accepts_step(&self, path: Seq<Component>, match_prefix: bool)
        ensures
            self.accepts(path, match_prefix) <==> {
                let rest = heading(path, match_prefix);
                ||| (match_prefix || self.can_end) && at_end(rest)
                ||| rest.len() > 0 && exists|key: Matcher, child: PathMatchNode| #[trigger]
                    self.edge(key, child) && key.admits(rest[0]) && child.accepts(
                        rest.skip(1),
                        match_prefix,
                    )
            },
    {
        let rest = heading(path, match_prefix);
        if self.accepts(path, match_prefix) {
            let labels = choose|labels: Seq<Matcher>|
                self.leads(labels, !match_prefix) && #[trigger] walk(labels, path, match_prefix);
            if labels.len() > 0 {
                let child = choose|child: PathMatchNode|
                    #[trigger] self.edge(labels[0], child) && child.leads(
                        labels.skip(1),
                        !match_prefix,
                    );
                assert(child.leads(labels.skip(1), !match_prefix) && walk(
                    labels.skip(1),
                    rest.skip(1),
                    match_prefix,
                ));
                assert(self.edge(labels[0], child) && labels[0].admits(rest[0]) && child.accepts(
                    rest.skip(1),
                    match_prefix,
                ));
            }
        }
        if (match_prefix || self.can_end) && at_end(rest) {
            let labels = Seq::<Matcher>::empty();
            assert(self.leads(labels, !match_prefix) && walk(labels, path, match_prefix));
        }
        if rest.len() > 0 && exists|key: Matcher, child: PathMatchNode| #[trigger]
            self.edge(key, child) && key.admits(rest[0]) && child.accepts(
                rest.skip(1),
                match_prefix,
            ) {
            let (key, child) = choose|key: Matcher, child: PathMatchNode| #[trigger]
                self.edge(key, child) && key.admits(rest[0]) && child.accepts(
                    rest.skip(1),
                    match_prefix,
                );
            let tail = choose|tail: Seq<Matcher>|
                child.leads(tail, !match_prefix) && #[trigger] walk(
                    tail,
                    rest.skip(1),
                    match_prefix,
                );
            let labels = seq![key] + tail;
            self.lemma_through(key, child, tail, !match_prefix);
            assert(labels.skip(1) =~= tail);
            assert(self.leads(labels, !match_prefix) && walk(labels, path, match_prefix));
        }
    }

    /// Some literal edge from position `from` on is labelled with the first
    /// component of `rest` and leads to a child that accepts what follows.
    closed spec fn via_literals(&self, from: int, rest: Seq<Component>, match_prefix: bool) -> bool {
        exists|k: int|
            from <= k < self.literals@.len() && self.literals@[k].0@ == rest[0] && (
            #[trigger] self.literals@[k]).1.accepts(rest.skip(1), match_prefix)
    }

    /// Some wildcard edge from position `from` on admits the first component
    /// of `rest` and leads to a child that accepts what follows.
    closed spec fn via_wildcards(&self, from: int, rest: Seq<Component>, match_prefix: bool) -> bool {
        exists|k: int|
            from <= k < self.starts_ends_with@.len() && Matcher::StartsEndsWith(
                self.starts_ends_with@[k].0@,
            ).admits(rest[0]) && (#[trigger] self.starts_ends_with@[k]).1.accepts(
                rest.skip(1),
                match_prefix,
            )
    }

    /// Acceptance through an edge is acceptance through one of the two lists.
    proof fn lemma_accepts_via(&self, path: Seq<Component>, match_prefix: bool)
        ensures
            self.accepts(path, match_prefix) <==> {
                let rest = heading(path, match_prefix);
                ||| (match_prefix || self.can_end) && at_end(rest)
                ||| rest.len() > 0 && (self.via_literals(0, rest, match_prefix)
                    || self.via_wildcards(0, rest, match_prefix))
            },
    {
        let rest = heading(path, match_prefix);
        self.lemma_accepts_step(path, match_prefix);
        if rest.len() > 0 {
            if exists|key: Matcher, child: PathMatchNode| #[trigger]
                self.edge(key, child) && key.admits(rest[0]) && child.accepts(
                    rest.skip(1),
                    match_prefix,
                ) {
                let (key, child) = choose|key: Matcher, child: PathMatchNode| #[trigger]
                    self.edge(key, child) && key.admits(rest[0]) && child.accepts(
                        rest.skip(1),
                        match_prefix,
                    );
                if exists|i: int|
                    #![trigger self.literals@[i]]
                    0 <= i < self.literals@.len() && self.literal_key(i) == key
                        && self.literals@[i].1 == child {
                    let i = choose|i: int|
                        #![trigger self.literals@[i]]
                        0 <= i < self.literals@.len() && self.literal_key(i) == key
                            && self.literals@[i].1 == child;
                    assert(self.literals@[i].1.accepts(rest.skip(1), match_prefix));
                    assert(self.via_literals(0, rest, match_prefix));
                } else {
                    let i = choose|i: int|
                        #![trigger self.starts_ends_with@[i]]
                        0 <= i < self.starts_ends_with@.len() && self.wildcard_key(i) == key
                            && self.starts_ends_with@[i].1 == child;
                    assert(self.starts_ends_with@[i].1.accepts(rest.skip(1), match_prefix));
                    assert(self.via_wildcards(0, rest, match_prefix));
                }
            }
            if self.via_literals(0, rest, match_prefix) {
                let k = choose|k: int|
                    0 <= k < self.literals@.len() && self.literals@[k].0@ == rest[0] && (
                    #[trigger] self.literals@[k]).1.accepts(rest.skip(1), match_prefix);
                assert(self.edge(self.literal_key(k), self.literals@[k].1));
            }
            if self.via_wildcards(0, rest, match_prefix) {
                let k = choose|k: int|
                    0 <= k < self.starts_ends_with@.len() && Matcher::StartsEndsWith(
                        self.starts_ends_with@[k].0@,
                    ).admits(rest[0]) && (#[trigger] self.starts_ends_with@[k]).1.accepts(
                        rest.skip(1),
                        match_prefix,
                    );
                assert(self.edge(self.wildcard_key(k), self.starts_ends_with@[k].1));
            }
        }
    }

    /// Puts every child on the work list whose edge admits the component at
    /// position `begin` of the path; the children go on from the position
    /// behind it.
    fn offer_children<'a>(
        &'a self,
        candidates: &mut VecDeque<(&'a PathMatchNode, usize)>,
        path: &[PathComponent],
        begin: usize,
        Ghost(match_prefix): Ghost<bool>,
    )
        requires
            begin < path@.len(),
        ensures
            extended(old(candidates)@, final(candidates)@, begin + 1),
            pending(final(candidates)@, path.deep_view(), match_prefix) == (pending(
                old(candidates)@,
                path.deep_view(),
                match_prefix,
            ) || self.via_literals(0, path.deep_view().skip(begin as int), match_prefix)
                || self.via_wildcards(0, path.deep_view().skip(begin as int), match_prefix)),
    {
        let ghost whole = path.deep_view();
        let ghost rest = whole.skip(begin as int);
        let ghost others = candidates@;
        let ghost due = pending(others, whole, match_prefix) || self.via_literals(
            0,
            rest,
            match_prefix,
        ) || self.via_wildcards(0, rest, match_prefix);
        let length = path.len();
        let next = begin + 1;
        let component = &path[begin];
        assert(component@ == rest[0]);
        let mut i: usize = 0;
        while i < self.literals.len()
            invariant
                i <= self.literals@.len(),
                whole == path.deep_view(),
                begin < whole.len(),
                next == begin + 1,
                rest == whole.skip(begin as int),
                component@ == rest[0],
                candidates@.len() >= others.len(),
                forall|j: int|
                    0 <= j < candidates@.len() - others.len() ==> (#[trigger] candidates@[j]).1
                        == begin + 1,
                forall|j: int|
                    candidates@.len() - others.len() <= j < candidates@.len() ==> (
                    #[trigger] candidates@[j]) == others[j - (candidates@.len() - others.len())],
                due == (pending(candidates@, whole, match_prefix) || self.via_literals(
                    i as int,
                    rest,
                    match_prefix,
                ) || self.via_wildcards(0, rest, match_prefix)),
            decreases self.literals@.len() - i,
        {
            let ghost before = candidates@;
            if self.literals[i].0 == *component {
                candidates.push_front((&self.literals[i].1, next));
                proof {
                    lemma_pending_first(candidates@, whole, match_prefix);
                    assert(candidates@.skip(1) =~= before);
                    assert(rest.skip(1) =~= whole.skip(begin + 1));
                }
            }
            assert(self.via_literals(i as int, rest, match_prefix) == ((self.literals@[i as int].0@
                == rest[0] && self.literals@[i as int].1.accepts(rest.skip(1), match_prefix))
                || self.via_literals(i + 1, rest, match_prefix)));
            i = i + 1;
        }
        assert(!self.via_literals(i as int, rest, match_prefix));
        match component {
            PathComponent::Name(name) => {
                let mut k: usize = 0;
                while k < self.starts_ends_with.len()
                    invariant
                        k <= self.starts_ends_with@.len(),
                        whole == path.deep_view(),
                        begin < whole.len(),
                        next == begin + 1,
                next == begin + 1,
                        rest == whole.skip(begin as int),
                        rest[0] == Component::Name(name@),
                        candidates@.len() >= others.len(),
                        forall|j: int|
                            0 <= j < candidates@.len() - others.len() ==> (
                            #[trigger] candidates@[j]).1 == begin + 1,
                        forall|j: int|
                            candidates@.len() - others.len() <= j < candidates@.len() ==> (
                            #[trigger] candidates@[j]) == others[j - (candidates@.len()
                                - others.len())],
                        due == (pending(candidates@, whole, match_prefix) || self.via_wildcards(
                            k as int,
                            rest,
                            match_prefix,
                        )),
                    decreases self.starts_ends_with@.len() - k,
                {
                    let ghost before = candidates@;
                    if self.starts_ends_with[k].0.matches(name.as_str()) {
                        candidates.push_front((&self.starts_ends_with[k].1, next));
                        proof {
                            lemma_pending_first(candidates@, whole, match_prefix);
                            assert(candidates@.skip(1) =~= before);
                            assert(rest.skip(1) =~= whole.skip(begin + 1));
                        }
                    }
                    assert(self.via_wildcards(k as int, rest, match_prefix) == ((
                    Matcher::StartsEndsWith(self.starts_ends_with@[k as int].0@).admits(rest[0])
                        && self.starts_ends_with@[k as int].1.accepts(rest.skip(1), match_prefix))
                        || self.via_wildcards(k + 1, rest, match_prefix)));
                    k = k + 1;
                }
                assert(!self.via_wildcards(k as int, rest, match_prefix));
            },
            _ => {
                assert(!self.via_wildcards(0, rest, match_prefix));
            },
        }
    }

    /// Whether the trie below `node` accepts `path`: completely, or with
    /// `match_prefix` as the beginning of something it could accept.
    ///
    /// The search keeps a work list of nodes, each with the position in the
    /// path that it has reached, and follows every edge that admits the next
    /// component.
    pub fn matches<'a>(node: &'a PathMatchNode, path: &[PathComponent], match_prefix: bool) -> (matched:
        bool)
        ensures
            matched == node.accepts(path.deep_view(), match_prefix),
    {
        let ghost whole = path.deep_view();
        let ghost truth = node.accepts(whole, match_prefix);
        let length = path.len();
        let mut candidates: VecDeque<(&'a PathMatchNode, usize)> = VecDeque::new();
        candidates.push_front((node, 0usize));
        let ghost mut level: int = 0;
        let ghost mut current: int = 1;
        proof {
            assert(whole.skip(0) =~= whole);
            assert(candidates@[0].0.accepts(whole.skip(candidates@[0].1 as int), match_prefix)
                == truth);
        }
        loop
            invariant
                whole == path.deep_view(),
                length == whole.len(),
                truth == node.accepts(whole, match_prefix),
                0 <= level <= length,
                0 <= current <= candidates@.len(),
                candidates@.len() > 0 ==> current > 0,
                forall|j: int|
                    0 <= j < candidates@.len() ==> (#[trigger] candidates@[j]).1 == if j
                        < candidates@.len() - current {
                        following(whole, level, match_prefix)
                    } else {
                        level
                    },
                forall|j: int| 0 <= j < candidates@.len() ==> (#[trigger] candidates@[j]).1 <= length,
                truth == pending(candidates@, whole, match_prefix),
            decreases length - level, current,
        {
            let ghost queued = candidates@;
            let (here, start) = match candidates.pop_back() {
                Some(item) => item,
                None => {
                    return false;
                },
            };
            let ghost others = candidates@;
            assert(queued[queued.len() - 1] == (here, start));
            assert(start == level);
            let skip = match_prefix && start < length && is_current(&path[start]);
            let begin = if skip {
                start + 1
            } else {
                start
            };
            let ghost rest = whole.skip(begin as int);
            let can_match = here.can_end || match_prefix;
            proof {
                assert(heading(whole.skip(start as int), match_prefix) =~= rest);
                here.lemma_accepts_via(whole.skip(start as int), match_prefix);
                lemma_pending_last(queued, whole, match_prefix);
                assert(others =~= queued.drop_last());
            }
            if begin < length {
                if begin + 1 == length && is_marker(&path[begin]) && can_match {
                    return true;
                }
                assert(!((match_prefix || here.can_end) && at_end(rest)));
                here.offer_children(&mut candidates, path, begin, Ghost(match_prefix));
            } else {
                assert(rest.len() == 0);
                if can_match {
                    return true;
                }
            }
            proof {
                let fresh = candidates@.len() - others.len();
                assert forall|j: int| 0 <= j < candidates@.len() implies (
                #[trigger] candidates@[j]).1 <= length && candidates@[j].1 == if j
                    < candidates@.len() - (current - 1) {
                    following(whole, level, match_prefix)
                } else {
                    level
                } by {
                    if j >= fresh {
                        assert(candidates@[j] == others[j - fresh]);
                        assert(others[j - fresh] == queued[j - fresh]);
                    }
                }
                current = current - 1;
                if current == 0 && candidates@.len() > 0 {
                    assert(candidates@[0].1 <= length);
                    level = begin + 1;
                    current = candidates@.len() as int;
                }
            }
        }
    }
}

} // verus!
