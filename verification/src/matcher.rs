//! The compiled matcher and the builder that merges several patterns.

use vstd::prelude::*;

use crate::acceptance::{depth_of, lemma_depth_of_prefix, walk};
use crate::component::Component;
use crate::normalize::{normalize, normalized};
use crate::pattern::{compile, path_to_pattern, Error, Fault, Matcher, PatternComponent};
use crate::tokenizer::{tokenize, StringComponentIter};
use crate::trie::PathMatchNode;

verus! {

/// The separator that patterns are written with, whatever separator the
/// paths use.
pub open spec fn pattern_separator() -> Seq<char> {
    seq!['/']
}

/// The mathematical value of a matcher: the separator of the paths it is
/// asked about, and the compiled patterns it holds.
pub struct Matching {
    pub separator: Seq<char>,
    pub patterns: Set<Seq<Matcher>>,
}

impl Matching {
    /// The normalized components of a path string.
    pub open spec fn components(self, path: Seq<char>) -> Seq<Component> {
        normalize(tokenize(path, self.separator))
    }

    /// A path matches when one of the patterns accepts its components.
    pub open spec fn matches(self, path: Seq<char>) -> bool {
        exists|pattern: Seq<Matcher>|
            self.patterns.contains(pattern) && #[trigger] walk(
                pattern,
                self.components(path),
                false,
            )
    }

    /// A path matches as a prefix when the beginning of one of the patterns
    /// accepts its components, a leading `.` set aside. The empty beginning
    /// is always there, also when there is no pattern.
    pub open spec fn matches_prefix(self, path: Seq<char>) -> bool {
        ||| walk(seq![], self.components(path), true)
        ||| exists|pattern: Seq<Matcher>, k: int|
            self.patterns.contains(pattern) && 0 <= k <= pattern.len() && #[trigger] walk(
                pattern.take(k),
                self.components(path),
                true,
            )
    }

    /// `bound` is the depth of the deepest pattern, and zero when there is
    /// no pattern.
    pub open spec fn is_max_depth(self, bound: nat) -> bool {
        &&& forall|pattern: Seq<Matcher>| #[trigger]
            self.patterns.contains(pattern) ==> depth_of(pattern) <= bound
        &&& bound == 0 || exists|pattern: Seq<Matcher>| #[trigger]
            self.patterns.contains(pattern) && depth_of(pattern) == bound
    }
}

/// What a pattern string compiles to for paths that use `separator`: the
/// matcher that holds the one compiled pattern, or the error.
pub open spec fn compiled(pattern: Seq<char>, separator: Seq<char>) -> Result<Matching, Fault> {
    match compile(tokenize(pattern, pattern_separator())) {
        Ok(matchers) => Ok(Matching { separator, patterns: set![matchers] }),
        Err(fault) => Err(fault),
    }
}

/// Matches against a path.
#[derive(Debug)]
pub struct PathMatch {
    separator: String,
    match_tree: PathMatchNode,
}

impl View for PathMatch {
    type V = Matching;

    closed spec fn view(&self) -> Matching {
        Matching { separator: self.separator@, patterns: self.match_tree.patterns() }
    }
}

impl Clone for PathMatch {
    /// A matcher that answers as this one does.
    fn clone(&self) -> (copy: PathMatch)
        ensures
            copy@ == self@,
    {
        proof {
            use_type_invariant(self);
        }
        let match_tree = self.match_tree.clone();
        proof {
            assert(match_tree.patterns() =~= self.match_tree.patterns());
            assert(match_tree.bounded()) by {
                assert forall|branch: Seq<Matcher>| #[trigger]
                    match_tree.has_branch(branch) implies branch.len() <= usize::MAX by {
                    assert(self.match_tree.has_branch(branch));
                }
            }
        }
        PathMatch { separator: self.separator.clone(), match_tree }
    }
}

impl PathMatch {
    /// The trie is well-formed and its depth bounds are up to date.
    #[verifier::type_invariant]
    closed spec fn inv(&self) -> bool {
        self.match_tree.wf() && self.match_tree.settled()
    }

    /// Puts a finished trie and the separator of the paths together.
    fn assemble(separator: String, match_tree: PathMatchNode) -> (matcher: PathMatch)
        requires
            match_tree.wf(),
        ensures
            matcher@ == (Matching { separator: separator@, patterns: match_tree.patterns() }),
    {
        let mut match_tree = match_tree;
        let ghost before = match_tree;
        match_tree.recompute_depth_bounds();
        assert(match_tree.patterns() =~= before.patterns());
        PathMatch { separator, match_tree }
    }

    /// Constructs a `PathMatch` for a single pattern.
    ///
    /// The pattern is written with the forward slash as its separator. Each
    /// of its components is a literal name or holds a single asterisk, a
    /// wildcard with an optional literal prefix and suffix. `.` is allowed;
    /// `?` and escaping are not supported.
    ///
    /// Construction fails when the pattern holds a parent traversal (`..`)
    /// or a component with more than one wildcard.
    ///
    /// `separator` is the one that the paths handed to `matches` are split
    /// on, so that patterns can be fixed at compile time and the separator
    /// chosen at run time.
    pub fn from_pattern(pattern: &str, separator: &str) -> (matcher: Result<PathMatch, Error>)
        ensures
            match compiled(pattern@, separator@) {
                Ok(matching) => matcher is Ok && matcher->Ok_0@ == matching,
                Err(fault) => matcher is Err && matcher->Err_0@ == fault,
            },
    {
        let matchers = match compile_pattern(pattern) {
            Ok(matchers) => matchers,
            Err(error) => {
                return Err(error);
            },
        };
        let ghost added = matchers.deep_view();
        let mut match_tree = PathMatchNode::default();
        match_tree.insert(matchers);
        assert(match_tree.patterns() =~= set![added]);
        Ok(PathMatch::assemble(separator.to_owned(), match_tree))
    }

    /// Returns `true` if the path matches one of the patterns.
    ///
    /// Unlike patterns, paths may hold `..`; where it cannot be normalized
    /// away it can only be matched by nothing.
    pub fn matches(&self, path: &str) -> (matched: bool)
        ensures
            matched == self@.matches(path@),
    {
        self.matches_common(path, false)
    }

    /// Returns `true` if the path is the beginning of something that one of
    /// the patterns could match.
    ///
    /// The beginning consists of whole components: `first/second` is a
    /// prefix of `first/second/third`, but `first/sec` is not.
    pub fn matches_prefix(&self, path: &str) -> (matched: bool)
        ensures
            matched == self@.matches_prefix(path@),
    {
        self.matches_common(path, true)
    }

    /// Splits the path on the separator, normalizes its components and
    /// searches the trie for what accepts them.
    fn matches_common(&self, path: &str, match_prefix: bool) -> (matched: bool)
        ensures
            matched == if match_prefix {
                self@.matches_prefix(path@)
            } else {
                self@.matches(path@)
            },
    {
        let components = normalized(StringComponentIter::new(path, self.separator.as_str()));
        let slice = components.as_slice();
        assert(slice.deep_view() =~= components.deep_view());
        let matched = PathMatchNode::matches(&self.match_tree, slice, match_prefix);
        proof {
            use_type_invariant(self);
            let tree = self.match_tree;
            let found = self@.components(path@);
            assert(matched == tree.accepts(found, match_prefix));
            if match_prefix {
                if tree.accepts(found, true) {
                    let branch = choose|branch: Seq<Matcher>|
                        tree.leads(branch, false) && #[trigger] walk(branch, found, true);
                    if branch.len() > 0 {
                        let pattern = tree.lemma_branch_extends(branch);
                        assert(pattern.take(branch.len() as int) =~= branch);
                        assert(self@.patterns.contains(pattern) && walk(
                            pattern.take(branch.len() as int),
                            found,
                            true,
                        ));
                    } else {
                        assert(branch =~= seq![]);
                    }
                }
                if self@.matches_prefix(path@) {
                    if walk(seq![], found, true) {
                        tree.lemma_leads_nowhere();
                    } else {
                        let (pattern, k) = choose|pattern: Seq<Matcher>, k: int|
                            self@.patterns.contains(pattern) && 0 <= k <= pattern.len()
                                && #[trigger] walk(pattern.take(k), found, true);
                        tree.lemma_pattern_is_branch(pattern);
                        tree.lemma_branch_prefix(pattern, k);
                    }
                }
            }
        }
        matched
    }

    /// The text that `to_text` writes: that of the trie of the patterns.
    pub closed spec fn rendering(&self) -> Seq<char> {
        self.match_tree.rendering()
    }

    /// Writes the patterns out in the way of a regular expression: the
    /// alternatives at each level in brackets, set apart by `|` and in the
    /// order of their keys, and a `$` wherever a pattern ends.
    pub fn to_text(&self) -> (text: String)
        ensures
            text@ == self.rendering(),
    {
        self.match_tree.to_text()
    }

    /// Returns the greatest number of components that a matching path can
    /// have once it is normalized; `.` components do not count.
    #[must_use]
    pub fn max_depth(&self) -> (depth: usize)
        ensures
            self@.is_max_depth(depth as nat),
    {
        proof {
            use_type_invariant(self);
            let tree = self.match_tree;
            tree.lemma_settled_bounds();
            let bound = tree.cached_bounds().1 as nat;
            assert forall|pattern: Seq<Matcher>| #[trigger]
                self@.patterns.contains(pattern) implies depth_of(pattern) <= bound by {
                tree.lemma_pattern_is_branch(pattern);
            }
            if bound != 0 {
                let branch = choose|branch: Seq<Matcher>| #[trigger]
                    tree.has_branch(branch) && depth_of(branch) == bound;
                assert(branch.len() > 0);
                let pattern = tree.lemma_branch_extends(branch);
                assert(pattern.take(branch.len() as int) =~= branch);
                lemma_depth_of_prefix(pattern, branch.len() as int);
                tree.lemma_pattern_is_branch(pattern);
                assert(self@.patterns.contains(pattern) && depth_of(pattern) == bound);
            }
        }
        self.match_tree.max_depth_bound()
    }
}

/// Compiles a pattern string, which is always split on the forward slash.
pub fn compile_pattern(pattern: &str) -> (compiled: Result<Vec<PatternComponent>, Error>)
    ensures
        match compile(tokenize(pattern@, pattern_separator())) {
            Ok(matchers) => compiled is Ok && compiled->Ok_0.deep_view() == matchers,
            Err(fault) => compiled is Err && compiled->Err_0@ == fault,
        },
{
    proof {
        reveal_strlit("/");
        assert("/"@ =~= pattern_separator());
    }
    path_to_pattern(StringComponentIter::new(pattern, "/"))
}

/// The mathematical value of a builder: the separator of the paths, and the
/// compiled patterns in the order in which they were added.
pub struct Building {
    pub separator: Seq<char>,
    pub patterns: Seq<Seq<Matcher>>,
}

/// Builds a `PathMatch` which can match against multiple expressions.
#[derive(Debug)]
pub struct PathMatchBuilder {
    processed: Vec<Vec<PatternComponent>>,
    separator: String,
}

impl View for PathMatchBuilder {
    type V = Building;

    closed spec fn view(&self) -> Building {
        Building { separator: self.separator@, patterns: self.processed.deep_view() }
    }
}

impl PathMatchBuilder {
    /// Constructs a `PathMatchBuilder` where paths to be matched will use
    /// the supplied separator.
    #[must_use]
    pub fn new(separator: &str) -> (builder: PathMatchBuilder)
        ensures
            builder@ == (Building { separator: separator@, patterns: seq![] }),
    {
        let builder = PathMatchBuilder { processed: Vec::new(), separator: separator.to_owned() };
        assert(builder.processed.deep_view() =~= Seq::<Seq<Matcher>>::empty());
        builder
    }

    /// Adds the specified pattern to the matcher.
    ///
    /// This fails when the pattern holds a parent traversal or a component
    /// with more than one wildcard, and then leaves the builder as it was.
    /// See also `PathMatch::from_pattern`.
    pub fn add_pattern(&mut self, pattern: &str) -> (added: Result<(), Error>)
        ensures
            final(self)@.separator == old(self)@.separator,
            match compile(tokenize(pattern@, pattern_separator())) {
                Ok(compiled) => added is Ok && final(self)@.patterns == old(self)@.patterns.push(
                    compiled,
                ),
                Err(fault) => added is Err && added->Err_0@ == fault && final(self)@.patterns
                    == old(self)@.patterns,
            },
    {
        match compile_pattern(pattern) {
            Ok(compiled) => {
                let ghost before = self.processed.deep_view();
                let ghost matchers = compiled.deep_view();
                self.processed.push(compiled);
                assert(self.processed.deep_view() =~= before.push(matchers));
                Ok(())
            },
            Err(error) => Err(error),
        }
    }

    /// Constructs the `PathMatch` which can be used to match against paths.
    /// It holds every pattern that was added, and with none it matches
    /// nothing.
    pub fn build(self) -> (matcher: Result<PathMatch, Error>)
        ensures
            matcher is Ok,
            matcher->Ok_0@ == (Matching {
                separator: self@.separator,
                patterns: self@.patterns.to_set(),
            }),
    {
        let ghost all = self.processed.deep_view();
        let mut match_tree = PathMatchNode::default();
        for pattern in it: self.processed
            invariant
                it.seq() == self.processed@,
                all == self.processed.deep_view(),
                match_tree.wf(),
                match_tree.patterns() == all.take(it.index() as int).to_set(),
        {
            let ghost held = match_tree.patterns();
            let ghost count = it.index() as int;
            let ghost added = pattern.deep_view();
            match_tree.insert(pattern);
            proof {
                assert(added == all[count]);
                let wider = all.take(count + 1);
                let narrower = all.take(count);
                assert(match_tree.patterns() =~= wider.to_set()) by {
                    assert forall|p: Seq<Matcher>|
                        held.insert(added).contains(p) <==> wider.to_set().contains(p) by {
                        if wider.contains(p) {
                            let i = choose|i: int| 0 <= i < wider.len() && wider[i] == p;
                            if i < count {
                                assert(narrower[i] == p);
                            }
                        }
                        if narrower.contains(p) {
                            let i = choose|i: int| 0 <= i < narrower.len() && narrower[i] == p;
                            assert(wider[i] == p);
                        }
                        if p == added {
                            assert(wider[count] == p);
                        }
                    }
                }
            }
        }
        assert(all.take(all.len() as int) =~= all);
        Ok(PathMatch::assemble(self.separator, match_tree))
    }
}

} // verus!
