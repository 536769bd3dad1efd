//! The depth bounds that the nodes of the trie cache.

use vstd::prelude::*;

use crate::order::{component_before, wildcard_before};
use crate::acceptance::{depth_of, lemma_depth_at_most_len, lemma_depth_behind};
use crate::pattern::Matcher;
use crate::trie::PathMatchNode;

verus! {

impl PathMatchNode {
    /// No branch through one of the first `n` literal edges or the first `m`
    /// wildcard edges descends deeper than `bound`.
    closed spec fn max_covers(&self, n: int, m: int, bound: nat) -> bool {
        &&& forall|j: int, tail: Seq<Matcher>|
            #![trigger self.literals@[j].1.leads(tail, false)]
            0 <= j < n && self.literals@[j].1.leads(tail, false) ==> self.literals@[j].0@.depth()
                + depth_of(tail) <= bound
        &&& forall|j: int, tail: Seq<Matcher>|
            #![trigger self.starts_ends_with@[j].1.leads(tail, false)]
            0 <= j < m && self.starts_ends_with@[j].1.leads(tail, false) ==> 1 + depth_of(tail)
                <= bound
    }

    /// `bound` is zero or the depth of a branch through one of the first `n`
    /// literal edges or the first `m` wildcard edges.
    closed spec fn max_attained(&self, n: int, m: int, bound: nat) -> bool {
        ||| bound == 0
        ||| exists|j: int, tail: Seq<Matcher>|
            #![trigger self.literals@[j].1.leads(tail, false)]
            0 <= j < n && self.literals@[j].1.leads(tail, false) && self.literals@[j].0@.depth()
                + depth_of(tail) == bound
        ||| exists|j: int, tail: Seq<Matcher>|
            #![trigger self.starts_ends_with@[j].1.leads(tail, false)]
            0 <= j < m && self.starts_ends_with@[j].1.leads(tail, false) && 1 + depth_of(tail)
                == bound
    }

    /// No pattern that ends here or goes through one of the first `n`
    /// literal edges or the first `m` wildcard edges is shallower than
    /// `bound`.
    closed spec fn min_covers(&self, n: int, m: int, bound: nat) -> bool {
        &&& self.can_end ==> bound == 0
        &&& forall|j: int, tail: Seq<Matcher>|
            #![trigger self.literals@[j].1.leads(tail, true)]
            0 <= j < n && self.literals@[j].1.leads(tail, true) ==> bound
                <= self.literals@[j].0@.depth() + depth_of(tail)
        &&& forall|j: int, tail: Seq<Matcher>|
            #![trigger self.starts_ends_with@[j].1.leads(tail, true)]
            0 <= j < m && self.starts_ends_with@[j].1.leads(tail, true) ==> bound <= 1 + depth_of(
                tail,
            )
    }

    /// `bound` is where the search for the least depth begins, or the depth
    /// of a pattern through one of the first `n` literal edges or the first
    /// `m` wildcard edges.
    closed spec fn min_attained(&self, n: int, m: int, bound: nat) -> bool {
        ||| bound == if self.can_end {
            0
        } else {
            usize::MAX as nat
        }
        ||| exists|j: int, tail: Seq<Matcher>|
            #![trigger self.literals@[j].1.leads(tail, true)]
            0 <= j < n && self.literals@[j].1.leads(tail, true) && self.literals@[j].0@.depth()
                + depth_of(tail) == bound
        ||| exists|j: int, tail: Seq<Matcher>|
            #![trigger self.starts_ends_with@[j].1.leads(tail, true)]
            0 <= j < m && self.starts_ends_with@[j].1.leads(tail, true) && 1 + depth_of(tail)
                == bound
    }

    /// A bound that covers every edge and is attained is the greatest depth.
    proof fn lemma_max_depth(&self, bound: nat)
        requires
            self.max_covers(
                self.literals@.len() as int,
                self.starts_ends_with@.len() as int,
                bound,
            ),
            self.max_attained(
                self.literals@.len() as int,
                self.starts_ends_with@.len() as int,
                bound,
            ),
        ensures
            self.is_max_depth(bound),
    {
        assert forall|branch: Seq<Matcher>| #[trigger] self.has_branch(branch) implies depth_of(
            branch,
        ) <= bound by {
            if branch.len() > 0 {
                let tail = branch.skip(1);
                let child = choose|child: PathMatchNode| #[trigger]
                    self.edge(branch[0], child) && child.leads(tail, false);
                if exists|i: int|
                    #![trigger self.literals@[i]]
                    0 <= i < self.literals@.len() && self.literal_key(i) == branch[0]
                        && self.literals@[i].1 == child {
                    let i = choose|i: int|
                        #![trigger self.literals@[i]]
                        0 <= i < self.literals@.len() && self.literal_key(i) == branch[0]
                            && self.literals@[i].1 == child;
                    assert(self.literals@[i].1.leads(tail, false));
                } else {
                    let i = choose|i: int|
                        #![trigger self.starts_ends_with@[i]]
                        0 <= i < self.starts_ends_with@.len() && self.wildcard_key(i) == branch[0]
                            && self.starts_ends_with@[i].1 == child;
                    assert(self.starts_ends_with@[i].1.leads(tail, false));
                }
            }
        }
        if bound == 0 {
            assert(self.has_branch(seq![]) && depth_of(seq![]) == bound);
        } else if exists|j: int, tail: Seq<Matcher>|
            #![trigger self.literals@[j].1.leads(tail, false)]
            0 <= j < self.literals@.len() && self.literals@[j].1.leads(tail, false)
                && self.literals@[j].0@.depth() + depth_of(tail) == bound {
            let (j, tail) = choose|j: int, tail: Seq<Matcher>|
                #![trigger self.literals@[j].1.leads(tail, false)]
                0 <= j < self.literals@.len() && self.literals@[j].1.leads(tail, false)
                    && self.literals@[j].0@.depth() + depth_of(tail) == bound;
            let key = self.literal_key(j);
            assert(self.edge(key, self.literals@[j].1));
            self.lemma_through(key, self.literals@[j].1, tail, false);
            lemma_depth_behind(key, tail);
            assert(self.has_branch(seq![key] + tail));
        } else {
            let (j, tail) = choose|j: int, tail: Seq<Matcher>|
                #![trigger self.starts_ends_with@[j].1.leads(tail, false)]
                0 <= j < self.starts_ends_with@.len() && self.starts_ends_with@[j].1.leads(
                    tail,
                    false,
                ) && 1 + depth_of(tail) == bound;
            let key = self.wildcard_key(j);
            assert(self.edge(key, self.starts_ends_with@[j].1));
            self.lemma_through(key, self.starts_ends_with@[j].1, tail, false);
            lemma_depth_behind(key, tail);
            assert(self.has_branch(seq![key] + tail));
        }
    }

    /// A bound that covers every edge and is attained is the least depth.
    proof fn lemma_min_depth(&self, bound: nat)
        requires
            self.bounded(),
            self.min_covers(
                self.literals@.len() as int,
                self.starts_ends_with@.len() as int,
                bound,
            ),
            self.min_attained(
                self.literals@.len() as int,
                self.starts_ends_with@.len() as int,
                bound,
            ),
        ensures
            self.is_min_depth(bound),
    {
        assert forall|pattern: Seq<Matcher>| #[trigger] self.has_pattern(pattern) implies bound
            <= depth_of(pattern) by {
            if pattern.len() > 0 {
                let tail = pattern.skip(1);
                let child = choose|child: PathMatchNode| #[trigger]
                    self.edge(pattern[0], child) && child.leads(tail, true);
                if exists|i: int|
                    #![trigger self.literals@[i]]
                    0 <= i < self.literals@.len() && self.literal_key(i) == pattern[0]
                        && self.literals@[i].1 == child {
                    let i = choose|i: int|
                        #![trigger self.literals@[i]]
                        0 <= i < self.literals@.len() && self.literal_key(i) == pattern[0]
                            && self.literals@[i].1 == child;
                    assert(self.literals@[i].1.leads(tail, true));
                } else {
                    let i = choose|i: int|
                        #![trigger self.starts_ends_with@[i]]
                        0 <= i < self.starts_ends_with@.len() && self.wildcard_key(i) == pattern[0]
                            && self.starts_ends_with@[i].1 == child;
                    assert(self.starts_ends_with@[i].1.leads(tail, true));
                }
            }
        }
        if exists|j: int, tail: Seq<Matcher>|
            #![trigger self.literals@[j].1.leads(tail, true)]
            0 <= j < self.literals@.len() && self.literals@[j].1.leads(tail, true)
                && self.literals@[j].0@.depth() + depth_of(tail) == bound {
            let (j, tail) = choose|j: int, tail: Seq<Matcher>|
                #![trigger self.literals@[j].1.leads(tail, true)]
                0 <= j < self.literals@.len() && self.literals@[j].1.leads(tail, true)
                    && self.literals@[j].0@.depth() + depth_of(tail) == bound;
            let key = self.literal_key(j);
            assert(self.edge(key, self.literals@[j].1));
            self.lemma_through(key, self.literals@[j].1, tail, true);
            lemma_depth_behind(key, tail);
            assert(self.has_pattern(seq![key] + tail));
        } else if exists|j: int, tail: Seq<Matcher>|
            #![trigger self.starts_ends_with@[j].1.leads(tail, true)]
            0 <= j < self.starts_ends_with@.len() && self.starts_ends_with@[j].1.leads(tail, true)
                && 1 + depth_of(tail) == bound {
            let (j, tail) = choose|j: int, tail: Seq<Matcher>|
                #![trigger self.starts_ends_with@[j].1.leads(tail, true)]
                0 <= j < self.starts_ends_with@.len() && self.starts_ends_with@[j].1.leads(
                    tail,
                    true,
                ) && 1 + depth_of(tail) == bound;
            let key = self.wildcard_key(j);
            assert(self.edge(key, self.starts_ends_with@[j].1));
            self.lemma_through(key, self.starts_ends_with@[j].1, tail, true);
            lemma_depth_behind(key, tail);
            assert(self.has_pattern(seq![key] + tail));
        } else if self.can_end {
            assert(self.has_pattern(seq![]) && depth_of(seq![]) == bound);
        } else if self.fertile() {
            let pattern = choose|pattern: Seq<Matcher>| self.has_pattern(pattern);
            self.lemma_pattern_is_branch(pattern);
            lemma_depth_at_most_len(pattern);
            assert(self.has_pattern(pattern) && depth_of(pattern) == bound);
        }
    }

    /// The branches of a child are shorter than those of its node.
    proof fn lemma_bounded_child(&self, key: Matcher, child: PathMatchNode)
        requires
            self.bounded(),
            self.edge(key, child),
        ensures
            child.bounded(),
            forall|tail: Seq<Matcher>| #[trigger] child.has_branch(tail) ==> tail.len() < usize::MAX,
    {
        assert forall|tail: Seq<Matcher>| #[trigger] child.has_branch(tail) implies tail.len()
            < usize::MAX by {
            self.lemma_through(key, child, tail, false);
            assert(self.has_branch(seq![key] + tail));
        }
    }

    /// The bounds after one more literal edge has been taken into account.
    proof fn lemma_literal_step(
        prev: PathMatchNode,
        next: PathMatchNode,
        i: int,
        m: int,
        bounds: (nat, nat),
        reach: (nat, nat),
        better: (nat, nat),
    )
        requires
            0 <= i < prev.literals@.len(),
            next.can_end == prev.can_end,
            next.literals@.len() == prev.literals@.len(),
            next.starts_ends_with@ == prev.starts_ends_with@,
            forall|j: int|
                0 <= j < prev.literals@.len() && j != i ==> (#[trigger] next.literals@[j])
                    == prev.literals@[j],
            next.literals@[i].0 == prev.literals@[i].0,
            prev.max_covers(i, m, bounds.1),
            prev.max_attained(i, m, bounds.1),
            prev.min_covers(i, m, bounds.0),
            prev.min_attained(i, m, bounds.0),
            next.literals@[i].1.fertile(),
            next.literals@[i].1.is_min_depth((reach.0 - next.literals@[i].0@.depth()) as nat),
            next.literals@[i].1.is_max_depth((reach.1 - next.literals@[i].0@.depth()) as nat),
            reach.0 >= next.literals@[i].0@.depth(),
            reach.1 >= next.literals@[i].0@.depth(),
            better.0 == if reach.0 < bounds.0 {
                reach.0
            } else {
                bounds.0
            },
            better.1 == if reach.1 > bounds.1 {
                reach.1
            } else {
                bounds.1
            },
        ensures
            next.max_covers(i + 1, m, better.1),
            next.max_attained(i + 1, m, better.1),
            next.min_covers(i + 1, m, better.0),
            next.min_attained(i + 1, m, better.0),
    {
        let later = next.literals@[i].1;
        let depth = next.literals@[i].0@.depth();
        assert forall|j: int, tail: Seq<Matcher>|
            #![trigger next.literals@[j].1.leads(tail, false)]
            0 <= j < i + 1 && next.literals@[j].1.leads(tail, false) implies next.literals@[j].0@.depth()
            + depth_of(tail) <= better.1 by {
            if j < i {
                assert(next.literals@[j] == prev.literals@[j]);
                assert(prev.literals@[j].1.leads(tail, false));
            } else {
                assert(later.has_branch(tail));
            }
        }
        assert forall|j: int, tail: Seq<Matcher>|
            #![trigger next.literals@[j].1.leads(tail, true)]
            0 <= j < i + 1 && next.literals@[j].1.leads(tail, true) implies better.0
            <= next.literals@[j].0@.depth() + depth_of(tail) by {
            if j < i {
                assert(next.literals@[j] == prev.literals@[j]);
                assert(prev.literals@[j].1.leads(tail, true));
            } else {
                assert(later.has_pattern(tail));
            }
        }
        if better.1 == reach.1 && reach.1 > bounds.1 {
            let tail = choose|tail: Seq<Matcher>| #[trigger]
                later.has_branch(tail) && depth_of(tail) == reach.1 - depth;
            assert(next.literals@[i].1.leads(tail, false));
        } else if bounds.1 != 0 {
            if exists|j: int, tail: Seq<Matcher>|
                #![trigger prev.literals@[j].1.leads(tail, false)]
                0 <= j < i && prev.literals@[j].1.leads(tail, false) && prev.literals@[j].0@.depth()
                    + depth_of(tail) == bounds.1 {
                let (j, tail) = choose|j: int, tail: Seq<Matcher>|
                    #![trigger prev.literals@[j].1.leads(tail, false)]
                    0 <= j < i && prev.literals@[j].1.leads(tail, false)
                        && prev.literals@[j].0@.depth() + depth_of(tail) == bounds.1;
                assert(next.literals@[j] == prev.literals@[j]);
                assert(next.literals@[j].1.leads(tail, false));
            } else {
                let (j, tail) = choose|j: int, tail: Seq<Matcher>|
                    #![trigger prev.starts_ends_with@[j].1.leads(tail, false)]
                    0 <= j < m && prev.starts_ends_with@[j].1.leads(tail, false) && 1 + depth_of(
                        tail,
                    ) == bounds.1;
                assert(next.starts_ends_with@[j].1.leads(tail, false));
            }
        }
        if better.0 == reach.0 && reach.0 < bounds.0 {
            let tail = choose|tail: Seq<Matcher>| #[trigger]
                later.has_pattern(tail) && depth_of(tail) == reach.0 - depth;
            assert(next.literals@[i].1.leads(tail, true));
        } else if bounds.0 != (if prev.can_end {
            0
        } else {
            usize::MAX as nat
        }) {
            if exists|j: int, tail: Seq<Matcher>|
                #![trigger prev.literals@[j].1.leads(tail, true)]
                0 <= j < i && prev.literals@[j].1.leads(tail, true) && prev.literals@[j].0@.depth()
                    + depth_of(tail) == bounds.0 {
                let (j, tail) = choose|j: int, tail: Seq<Matcher>|
                    #![trigger prev.literals@[j].1.leads(tail, true)]
                    0 <= j < i && prev.literals@[j].1.leads(tail, true)
                        && prev.literals@[j].0@.depth() + depth_of(tail) == bounds.0;
                assert(next.literals@[j] == prev.literals@[j]);
                assert(next.literals@[j].1.leads(tail, true));
            } else {
                let (j, tail) = choose|j: int, tail: Seq<Matcher>|
                    #![trigger prev.starts_ends_with@[j].1.leads(tail, true)]
                    0 <= j < m && prev.starts_ends_with@[j].1.leads(tail, true) && 1 + depth_of(
                        tail,
                    ) == bounds.0;
                assert(next.starts_ends_with@[j].1.leads(tail, true));
            }
        }
    }

    /// The bounds after one more wildcard edge has been taken into account.
    proof fn lemma_wildcard_step(
        prev: PathMatchNode,
        next: PathMatchNode,
        n: int,
        k: int,
        bounds: (nat, nat),
        reach: (nat, nat),
        better: (nat, nat),
    )
        requires
            0 <= k < prev.starts_ends_with@.len(),
            next.can_end == prev.can_end,
            next.starts_ends_with@.len() == prev.starts_ends_with@.len(),
            next.literals@ == prev.literals@,
            forall|j: int|
                0 <= j < prev.starts_ends_with@.len() && j != k ==> (
                #[trigger] next.starts_ends_with@[j]) == prev.starts_ends_with@[j],
            prev.max_covers(n, k, bounds.1),
            prev.max_attained(n, k, bounds.1),
            prev.min_covers(n, k, bounds.0),
            prev.min_attained(n, k, bounds.0),
            next.starts_ends_with@[k].1.fertile(),
            next.starts_ends_with@[k].1.is_min_depth((reach.0 - 1) as nat),
            next.starts_ends_with@[k].1.is_max_depth((reach.1 - 1) as nat),
            reach.0 >= 1,
            reach.1 >= 1,
            better.0 == if reach.0 < bounds.0 {
                reach.0
            } else {
                bounds.0
            },
            better.1 == if reach.1 > bounds.1 {
                reach.1
            } else {
                bounds.1
            },
        ensures
            next.max_covers(n, k + 1, better.1),
            next.max_attained(n, k + 1, better.1),
            next.min_covers(n, k + 1, better.0),
            next.min_attained(n, k + 1, better.0),
    {
        let later = next.starts_ends_with@[k].1;
        assert forall|j: int, tail: Seq<Matcher>|
            #![trigger next.starts_ends_with@[j].1.leads(tail, false)]
            0 <= j < k + 1 && next.starts_ends_with@[j].1.leads(tail, false) implies 1 + depth_of(
            tail,
        ) <= better.1 by {
            if j < k {
                assert(next.starts_ends_with@[j] == prev.starts_ends_with@[j]);
                assert(prev.starts_ends_with@[j].1.leads(tail, false));
            } else {
                assert(later.has_branch(tail));
            }
        }
        assert forall|j: int, tail: Seq<Matcher>|
            #![trigger next.starts_ends_with@[j].1.leads(tail, true)]
            0 <= j < k + 1 && next.starts_ends_with@[j].1.leads(tail, true) implies better.0 <= 1
            + depth_of(tail) by {
            if j < k {
                assert(next.starts_ends_with@[j] == prev.starts_ends_with@[j]);
                assert(prev.starts_ends_with@[j].1.leads(tail, true));
            } else {
                assert(later.has_pattern(tail));
            }
        }
        if better.1 == reach.1 && reach.1 > bounds.1 {
            let tail = choose|tail: Seq<Matcher>| #[trigger]
                later.has_branch(tail) && depth_of(tail) == reach.1 - 1;
            assert(next.starts_ends_with@[k].1.leads(tail, false));
        } else if bounds.1 != 0 {
            if exists|j: int, tail: Seq<Matcher>|
                #![trigger prev.literals@[j].1.leads(tail, false)]
                0 <= j < n && prev.literals@[j].1.leads(tail, false) && prev.literals@[j].0@.depth()
                    + depth_of(tail) == bounds.1 {
                let (j, tail) = choose|j: int, tail: Seq<Matcher>|
                    #![trigger prev.literals@[j].1.leads(tail, false)]
                    0 <= j < n && prev.literals@[j].1.leads(tail, false)
                        && prev.literals@[j].0@.depth() + depth_of(tail) == bounds.1;
                assert(next.literals@[j].1.leads(tail, false));
            } else {
                let (j, tail) = choose|j: int, tail: Seq<Matcher>|
                    #![trigger prev.starts_ends_with@[j].1.leads(tail, false)]
                    0 <= j < k && prev.starts_ends_with@[j].1.leads(tail, false) && 1 + depth_of(
                        tail,
                    ) == bounds.1;
                assert(next.starts_ends_with@[j] == prev.starts_ends_with@[j]);
                assert(next.starts_ends_with@[j].1.leads(tail, false));
            }
        }
        if better.0 == reach.0 && reach.0 < bounds.0 {
            let tail = choose|tail: Seq<Matcher>| #[trigger]
                later.has_pattern(tail) && depth_of(tail) == reach.0 - 1;
            assert(next.starts_ends_with@[k].1.leads(tail, true));
        } else if bounds.0 != (if prev.can_end {
            0
        } else {
            usize::MAX as nat
        }) {
            if exists|j: int, tail: Seq<Matcher>|
                #![trigger prev.literals@[j].1.leads(tail, true)]
                0 <= j < n && prev.literals@[j].1.leads(tail, true) && prev.literals@[j].0@.depth()
                    + depth_of(tail) == bounds.0 {
                let (j, tail) = choose|j: int, tail: Seq<Matcher>|
                    #![trigger prev.literals@[j].1.leads(tail, true)]
                    0 <= j < n && prev.literals@[j].1.leads(tail, true)
                        && prev.literals@[j].0@.depth() + depth_of(tail) == bounds.0;
                assert(next.literals@[j].1.leads(tail, true));
            } else {
                let (j, tail) = choose|j: int, tail: Seq<Matcher>|
                    #![trigger prev.starts_ends_with@[j].1.leads(tail, true)]
                    0 <= j < k && prev.starts_ends_with@[j].1.leads(tail, true) && 1 + depth_of(
                        tail,
                    ) == bounds.0;
                assert(next.starts_ends_with@[j] == prev.starts_ends_with@[j]);
                assert(next.starts_ends_with@[j].1.leads(tail, true));
            }
        }
    }

    /// What a recomputed child adds to the depth of its node fits a `usize`.
    proof fn lemma_child_reach(&self, key: Matcher, child: PathMatchNode, later: PathMatchNode, bounds: (
        nat,
        nat,
    ))
        requires
            self.sound(),
            self.bounded(),
            self.edge(key, child),
            later.alike(child),
            later.is_min_depth(bounds.0),
            later.is_max_depth(bounds.1),
        ensures
            later.fertile(),
            bounds.0 < usize::MAX,
            bounds.1 < usize::MAX,
    {
        self.lemma_sound_child(key, child);
        self.lemma_bounded_child(key, child);
        let deepest = choose|tail: Seq<Matcher>| #[trigger]
            later.has_branch(tail) && depth_of(tail) == bounds.1;
        assert(child.has_branch(deepest));
        lemma_depth_at_most_len(deepest);
        let pattern = choose|pattern: Seq<Matcher>| child.has_pattern(pattern);
        assert(later.has_pattern(pattern));
        let shallowest = choose|tail: Seq<Matcher>| #[trigger]
            later.has_pattern(tail) && depth_of(tail) == bounds.0;
        later.lemma_pattern_is_branch(shallowest);
        assert(child.has_branch(shallowest));
        lemma_depth_at_most_len(shallowest);
    }

    /// A node whose children were recomputed one by one is as sound as it
    /// was, and holds what it held.
    proof fn lemma_recomputed(&self, orig: PathMatchNode)
        requires
            orig.sound(),
            orig.bounded(),
            self.can_end == orig.can_end,
            self.literals@.len() == orig.literals@.len(),
            self.starts_ends_with@.len() == orig.starts_ends_with@.len(),
            forall|j: int|
                0 <= j < self.literals@.len() ==> (#[trigger] self.literals@[j]).0
                    == orig.literals@[j].0 && self.literals@[j].1.alike(orig.literals@[j].1)
                    && self.literals@[j].1.sound(),
            forall|j: int|
                0 <= j < self.starts_ends_with@.len() ==> (#[trigger] self.starts_ends_with@[j]).0
                    == orig.starts_ends_with@[j].0 && self.starts_ends_with@[j].1.alike(
                    orig.starts_ends_with@[j].1,
                ) && self.starts_ends_with@[j].1.sound(),
        ensures
            self.alike(orig),
            self.sound(),
            self.bounded(),
    {
        self.lemma_alike(orig);
        assert forall|branch: Seq<Matcher>| #[trigger] self.has_branch(branch) implies branch.len()
            <= usize::MAX by {
            assert(orig.has_branch(branch));
        }
        assert forall|j: int| 0 <= j < self.literals@.len() implies (
        #[trigger] self.literals@[j]).1.sound() && self.literals@[j].1.fertile() by {
            let twin = orig.literals@[j].1;
            assert(twin.fertile());
            let pattern = choose|pattern: Seq<Matcher>| twin.has_pattern(pattern);
            assert(self.literals@[j].1.has_pattern(pattern));
        }
        assert forall|j: int| 0 <= j < self.starts_ends_with@.len() implies (
        #[trigger] self.starts_ends_with@[j]).1.sound() && self.starts_ends_with@[j].1.fertile() by {
            let twin = orig.starts_ends_with@[j].1;
            assert(twin.fertile());
            let pattern = choose|pattern: Seq<Matcher>| twin.has_pattern(pattern);
            assert(self.starts_ends_with@[j].1.has_pattern(pattern));
        }
        assert forall|a: int, b: int| 0 <= a < b < self.literals@.len() implies component_before(
            (#[trigger] self.literals@[a]).0@,
            (#[trigger] self.literals@[b]).0@,
        ) by {
            assert(self.literals@[a].0 == orig.literals@[a].0);
            assert(self.literals@[b].0 == orig.literals@[b].0);
        }
        assert forall|a: int, b: int|
            0 <= a < b < self.starts_ends_with@.len() implies wildcard_before(
            (#[trigger] self.starts_ends_with@[a]).0@,
            (#[trigger] self.starts_ends_with@[b]).0@,
        ) by {
            assert(self.starts_ends_with@[a].0 == orig.starts_ends_with@[a].0);
            assert(self.starts_ends_with@[b].0 == orig.starts_ends_with@[b].0);
        }
    }

    /// Computes the least and the greatest depth of what the trie below this
    /// node accepts, and stores them in every node on the way.
    ///
    /// The greatest depth is that of the deepest branch. The least depth is
    /// that of the shallowest pattern; where no pattern ends at or below a
    /// node it is the greatest `usize`.
    pub fn recompute_depth_bounds(&mut self) -> (bounds: (usize, usize))
        requires
            old(self).wf(),
        ensures
            final(self).alike(*old(self)),
            final(self).wf(),
            final(self).settled(),
            final(self).cached_bounds() == bounds,
            final(self).is_min_depth(bounds.0 as nat),
            final(self).is_max_depth(bounds.1 as nat),
        decreases *old(self),
    {
        let ghost orig = *self;
        let mut min: usize = if self.can_end {
            0
        } else {
            usize::MAX
        };
        let mut max: usize = 0;
        let mut i: usize = 0;
        while i < self.literals.len()
            invariant
                orig == *old(self),
                orig.sound(),
                orig.bounded(),
                i <= self.literals@.len(),
                self.can_end == orig.can_end,
                self.literals@.len() == orig.literals@.len(),
                self.starts_ends_with@ == orig.starts_ends_with@,
                forall|j: int|
                    0 <= j < self.literals@.len() ==> (#[trigger] self.literals@[j]).0
                        == orig.literals@[j].0,
                forall|j: int|
                    i <= j < self.literals@.len() ==> (#[trigger] self.literals@[j])
                        == orig.literals@[j],
                forall|j: int|
                    0 <= j < i ==> (#[trigger] self.literals@[j]).1.alike(orig.literals@[j].1)
                        && self.literals@[j].1.sound() && self.literals@[j].1.settled(),
                self.max_covers(i as int, 0, max as nat),
                self.max_attained(i as int, 0, max as nat),
                self.min_covers(i as int, 0, min as nat),
                self.min_attained(i as int, 0, min as nat),
            decreases self.literals@.len() - i,
        {
            let ghost prev = *self;
            let ghost child = self.literals@[i as int].1;
            let ghost key = orig.literal_key(i as int);
            proof {
                assert(orig.edge(key, child));
                orig.lemma_sound_child(key, child);
                orig.lemma_bounded_child(key, child);
            }
            let component_depth = self.literals[i].0.traversal_depth();
            let (node_min, node_max) = self.literals[i].1.recompute_depth_bounds();
            proof {
                orig.lemma_child_reach(
                    key,
                    child,
                    self.literals@[i as int].1,
                    (node_min as nat, node_max as nat),
                );
            }
            let reach_min = node_min + component_depth;
            let reach_max = node_max + component_depth;
            let ghost bounds = (min as nat, max as nat);
            if reach_min < min {
                min = reach_min;
            }
            if reach_max > max {
                max = reach_max;
            }
            proof {
                Self::lemma_literal_step(
                    prev,
                    *self,
                    i as int,
                    0,
                    bounds,
                    (reach_min as nat, reach_max as nat),
                    (min as nat, max as nat),
                );
            }
            i = i + 1;
        }
        let mut k: usize = 0;
        while k < self.starts_ends_with.len()
            invariant
                orig == *old(self),
                orig.sound(),
                orig.bounded(),
                i == self.literals@.len(),
                k <= self.starts_ends_with@.len(),
                self.can_end == orig.can_end,
                self.literals@.len() == orig.literals@.len(),
                self.starts_ends_with@.len() == orig.starts_ends_with@.len(),
                forall|j: int|
                    0 <= j < self.literals@.len() ==> (#[trigger] self.literals@[j]).0
                        == orig.literals@[j].0 && self.literals@[j].1.alike(orig.literals@[j].1)
                        && self.literals@[j].1.sound() && self.literals@[j].1.settled(),
                forall|j: int|
                    0 <= j < self.starts_ends_with@.len() ==> (
                    #[trigger] self.starts_ends_with@[j]).0 == orig.starts_ends_with@[j].0,
                forall|j: int|
                    k <= j < self.starts_ends_with@.len() ==> (#[trigger] self.starts_ends_with@[j])
                        == orig.starts_ends_with@[j],
                forall|j: int|
                    0 <= j < k ==> (#[trigger] self.starts_ends_with@[j]).1.alike(
                        orig.starts_ends_with@[j].1,
                    ) && self.starts_ends_with@[j].1.sound()
                        && self.starts_ends_with@[j].1.settled(),
                self.max_covers(i as int, k as int, max as nat),
                self.max_attained(i as int, k as int, max as nat),
                self.min_covers(i as int, k as int, min as nat),
                self.min_attained(i as int, k as int, min as nat),
            decreases self.starts_ends_with@.len() - k,
        {
            let ghost prev = *self;
            let ghost child = self.starts_ends_with@[k as int].1;
            let ghost key = orig.wildcard_key(k as int);
            proof {
                assert(orig.edge(key, child));
                orig.lemma_sound_child(key, child);
                orig.lemma_bounded_child(key, child);
            }
            let (node_min, node_max) = self.starts_ends_with[k].1.recompute_depth_bounds();
            proof {
                orig.lemma_child_reach(
                    key,
                    child,
                    self.starts_ends_with@[k as int].1,
                    (node_min as nat, node_max as nat),
                );
            }
            let reach_min = node_min + 1;
            let reach_max = node_max + 1;
            let ghost bounds = (min as nat, max as nat);
            if reach_min < min {
                min = reach_min;
            }
            if reach_max > max {
                max = reach_max;
            }
            proof {
                Self::lemma_wildcard_step(
                    prev,
                    *self,
                    i as int,
                    k as int,
                    bounds,
                    (reach_min as nat, reach_max as nat),
                    (min as nat, max as nat),
                );
            }
            k = k + 1;
        }
        self.min_traversals = min;
        self.max_traversals = max;
        proof {
            self.lemma_recomputed(orig);
            self.lemma_max_depth(max as nat);
            self.lemma_min_depth(min as nat);
        }
        (min, max)
    }

    /// The cached greatest depth.
    pub fn max_depth_bound(&self) -> (bound: usize)
        ensures
            bound == self.cached_bounds().1,
    {
        self.max_traversals
    }
}

} // verus!
