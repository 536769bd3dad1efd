//! Splitting a separator-delimited string into path components.

use vstd::prelude::*;

use crate::component::{Component, PathComponent};
use crate::text::{chars_of, owned_text};

verus! {

/// Whether `separator` stands in `text` at position `at`.
pub open spec fn occurs_at(text: Seq<char>, separator: Seq<char>, at: int) -> bool {
    &&& 0 <= at
    &&& at + separator.len() <= text.len()
    &&& text.subrange(at, at + separator.len()) == separator
}

/// The pieces that are still to come when the piece being read began at
/// `start` and the search for the next separator stands at `at`.
///
/// The search goes left to right and takes the first occurrence it meets;
/// after one it goes on behind it, so occurrences never overlap. An empty
/// separator occurs at every position, and the search then moves on by one
/// character, giving an empty piece, each character by itself, and an empty
/// piece again.
pub open spec fn pieces_from(text: Seq<char>, separator: Seq<char>, start: int, at: int) -> Seq<
    Seq<char>,
>
    decreases text.len() + 1 - at,
{
    if at < 0 || at + separator.len() > text.len() {
        seq![text.subrange(start, text.len() as int)]
    } else if occurs_at(text, separator, at) {
        let behind = at + separator.len();
        let resume = if separator.len() == 0 {
            at + 1
        } else {
            behind
        };
        seq![text.subrange(start, at)] + pieces_from(text, separator, behind, resume)
    } else {
        pieces_from(text, separator, start, at + 1)
    }
}

/// The pieces between the occurrences of `separator` in `text`.
pub open spec fn pieces(text: Seq<char>, separator: Seq<char>) -> Seq<Seq<char>> {
    pieces_from(text, separator, 0, 0)
}

/// The text of a `.` segment.
pub open spec fn current_text() -> Seq<char> {
    seq!['.']
}

/// The text of a `..` segment.
pub open spec fn parent_text() -> Seq<char> {
    seq!['.', '.']
}

/// The components that `pieces` stand for.
///
/// `first` says that the next piece is the first of the whole string, and
/// `pending` that the piece before it was an empty one that has not been
/// accounted for yet. An empty first piece is the root name; any other empty
/// piece yields nothing by itself, but when it is the last piece the path
/// ends in a directory marker.
pub open spec fn components_of(pieces: Seq<Seq<char>>, first: bool, pending: bool) -> Seq<Component>
    decreases pieces.len(),
{
    if pieces.len() == 0 {
        if pending {
            seq![Component::DirectoryMarker]
        } else {
            seq![]
        }
    } else {
        let piece = pieces[0];
        let rest = pieces.skip(1);
        if piece.len() == 0 {
            if first {
                seq![Component::RootName(piece)] + components_of(rest, false, false)
            } else {
                components_of(rest, false, true)
            }
        } else if piece == current_text() {
            seq![Component::Current] + components_of(rest, false, false)
        } else if piece == parent_text() {
            seq![Component::Parent] + components_of(rest, false, false)
        } else {
            seq![Component::Name(piece)] + components_of(rest, false, false)
        }
    }
}

/// The components of `text` when it is split on `separator`.
pub open spec fn tokenize(text: Seq<char>, separator: Seq<char>) -> Seq<Component> {
    components_of(pieces(text, separator), true, false)
}

/// A directory marker can only be the last component.
pub open spec fn marker_only_last(components: Seq<Component>) -> bool {
    forall|i: int|
        0 <= i < components.len() - 1 ==> #[trigger] components[i] != Component::DirectoryMarker
}

/// Skipping positions without an occurrence does not change the pieces.
proof fn lemma_pieces_skip(text: Seq<char>, separator: Seq<char>, start: int, from: int, to: int)
    requires
        0 <= from <= to,
        to + separator.len() <= text.len(),
        forall|b: int| from <= b < to ==> !occurs_at(text, separator, b),
    ensures
        pieces_from(text, separator, start, from) == pieces_from(text, separator, start, to),
    decreases to - from,
{
    if from < to {
        lemma_pieces_skip(text, separator, start, from + 1, to);
    }
}

/// Without a further occurrence the rest of the text is the last piece.
proof fn lemma_pieces_last(text: Seq<char>, separator: Seq<char>, start: int, from: int)
    requires
        0 <= from,
        forall|b: int| from <= b ==> !occurs_at(text, separator, b),
    ensures
        pieces_from(text, separator, start, from) == seq![text.subrange(start, text.len() as int)],
    decreases text.len() + 1 - from,
{
    if from + separator.len() <= text.len() {
        lemma_pieces_last(text, separator, start, from + 1);
    }
}

/// What `components_of` yields never holds a directory marker before its end.
pub proof fn lemma_marker_only_last(pieces: Seq<Seq<char>>, first: bool, pending: bool)
    ensures
        marker_only_last(components_of(pieces, first, pending)),
    decreases pieces.len(),
{
    if pieces.len() > 0 {
        let piece = pieces[0];
        let rest = pieces.skip(1);
        if piece.len() == 0 && !first {
            lemma_marker_only_last(rest, false, true);
        } else {
            lemma_marker_only_last(rest, false, false);
            let tail = components_of(rest, false, false);
            let all = components_of(pieces, first, pending);
            assert(all.len() == tail.len() + 1);
            assert forall|i: int| 0 <= i < all.len() - 1 implies #[trigger] all[i]
                != Component::DirectoryMarker by {
                if i > 0 {
                    assert(all[i] == tail[i - 1]);
                }
            }
        }
    }
}

/// The first position at or after `from` where `separator` occurs in `text`.
fn find(text: &Vec<char>, separator: &Vec<char>, from: usize) -> (hit: Option<usize>)
    ensures
        match hit {
            Some(at) => {
                &&& from <= at
                &&& occurs_at(text@, separator@, at as int)
                &&& forall|b: int| from <= b < at ==> !occurs_at(text@, separator@, b)
            },
            None => forall|b: int| from <= b ==> !occurs_at(text@, separator@, b),
        },
{
    let width = separator.len();
    if width > text.len() {
        return None;
    }
    let last = text.len() - width;
    if from > last {
        return None;
    }
    let mut at: usize = from;
    loop
        invariant
            width == separator.len(),
            last == text.len() - width,
            from <= at <= last,
            forall|b: int| from <= b < at ==> !occurs_at(text@, separator@, b),
        decreases last - at,
    {
        let mut k: usize = 0;
        while k < width && text[at + k] == separator[k]
            invariant
                width == separator.len(),
                last == text.len() - width,
                at <= last,
                k <= width,
                forall|j: int| 0 <= j < k ==> text@[at + j] == separator@[j],
            decreases width - k,
        {
            k = k + 1;
        }
        if k == width {
            assert(text@.subrange(at as int, at + width) =~= separator@);
            return Some(at);
        }
        assert(!occurs_at(text@, separator@, at as int)) by {
            if occurs_at(text@, separator@, at as int) {
                assert(text@.subrange(at as int, at + width)[k as int] == separator@[k as int]);
            }
        }
        if at == last {
            return None;
        }
        at = at + 1;
    }
}

/// Reads the components of a path string one at a time, from left to right.
/// Reading it again takes a new reader over the same string.
pub struct StringComponentIter<'a> {
    path: &'a str,
    text: Vec<char>,
    separator: Vec<char>,
    /// Where the piece being read begins.
    start: usize,
    /// Where the search for the next separator stands.
    at: usize,
    /// No separator is left: the rest of the text is the last piece.
    tail: bool,
    /// Every piece has been read.
    finished: bool,
    /// The next piece is the first one.
    first: bool,
    /// The last piece read was an empty one that may yet become a marker.
    is_dir: bool,
}

impl<'a> StringComponentIter<'a> {
    /// The reader's positions lie within its text.
    #[verifier::type_invariant]
    closed spec fn wf(&self) -> bool {
        &&& self.text@ == self.path@
        &&& self.start <= self.text@.len()
        &&& !self.finished && !self.tail ==> self.start <= self.at <= self.text@.len()
    }

    /// The pieces that have not been read yet.
    closed spec fn pending_pieces(&self) -> Seq<Seq<char>> {
        if self.finished {
            seq![]
        } else if self.tail {
            seq![self.text@.subrange(self.start as int, self.text@.len() as int)]
        } else {
            pieces_from(self.text@, self.separator@, self.start as int, self.at as int)
        }
    }

    /// The components that `next` has yet to hand out, in order.
    pub closed spec fn remaining(&self) -> Seq<Component> {
        components_of(self.pending_pieces(), self.first, self.is_dir)
    }

    /// How many pieces may at most be left; it shrinks with every piece read.
    closed spec fn budget(&self) -> int {
        if self.finished {
            0
        } else if self.tail {
            1
        } else {
            self.text@.len() + 2 - self.at
        }
    }

    /// A reader over the components of `path`, split on `separator`.
    pub fn new(path: &'a str, separator: &'a str) -> (reader: StringComponentIter<'a>)
        ensures
            reader.remaining() == tokenize(path@, separator@),
    {
        StringComponentIter {
            path,
            text: chars_of(path),
            separator: chars_of(separator),
            start: 0,
            at: 0,
            tail: false,
            finished: false,
            first: true,
            is_dir: false,
        }
    }

    /// A directory marker is never followed by another component.
    pub proof fn lemma_remaining_marker_last(&self)
        ensures
            marker_only_last(self.remaining()),
    {
        lemma_marker_only_last(self.pending_pieces(), self.first, self.is_dir);
    }

    /// Hands out the next component, or `None` when there is none left.
    pub fn next(&mut self) -> (component: Option<PathComponent>)
        ensures
            match component {
                Some(c) => {
                    &&& old(self).remaining().len() > 0
                    &&& c@ == old(self).remaining()[0]
                    &&& final(self).remaining() == old(self).remaining().skip(1)
                },
                None => old(self).remaining().len() == 0 && final(self).remaining().len() == 0,
            },
    {
        proof {
            use_type_invariant(&*self);
        }
        while !self.finished
            invariant
                self.wf(),
                self.remaining() == old(self).remaining(),
            decreases self.budget(),
        {
            let ghost before = *self;
            let begin = self.start;
            let length = self.text.len();
            let width = self.separator.len();
            let mut end: usize = length;
            if self.tail {
                self.finished = true;
            } else {
                match find(&self.text, &self.separator, self.at) {
                    Some(hit) => {
                        proof {
                            lemma_pieces_skip(
                                self.text@,
                                self.separator@,
                                begin as int,
                                self.at as int,
                                hit as int,
                            );
                        }
                        end = hit;
                        if width > 0 {
                            self.at = hit + width;
                        } else if hit < length {
                            self.at = hit + 1;
                        } else {
                            self.tail = true;
                        }
                        self.start = hit + width;
                    },
                    None => {
                        proof {
                            lemma_pieces_last(
                                self.text@,
                                self.separator@,
                                begin as int,
                                self.at as int,
                            );
                        }
                        self.finished = true;
                    },
                }
            }
            let was_first = self.first;
            self.first = false;
            self.is_dir = false;
            let ghost piece = self.text@.subrange(begin as int, end as int);
            proof {
                let ahead = before.pending_pieces();
                assert(ahead.len() > 0 && ahead[0] == piece);
                assert(ahead.skip(1) =~= self.pending_pieces()) by {
                    if self.tail && !before.tail {
                        assert(pieces_from(
                            self.text@,
                            self.separator@,
                            length as int,
                            length + 1,
                        ) == seq![self.text@.subrange(length as int, length as int)]);
                    }
                }
            }
            if begin == end {
                assert(piece =~= Seq::<char>::empty());
                if was_first {
                    return Some(PathComponent::RootName(String::new()));
                }
                self.is_dir = true;
            } else if end - begin == 1 && self.text[begin] == '.' {
                assert(piece =~= current_text());
                return Some(PathComponent::Current);
            } else if end - begin == 2 && self.text[begin] == '.' && self.text[begin + 1] == '.' {
                assert(piece =~= parent_text());
                return Some(PathComponent::Parent);
            } else {
                assert(piece != current_text() && piece != parent_text()) by {
                    if piece == current_text() {
                        assert(piece[0] == '.');
                    }
                    if piece == parent_text() {
                        assert(piece[0] == '.' && piece[1] == '.');
                    }
                }
                let name = owned_text(self.path.substring_char(begin, end));
                return Some(PathComponent::Name(name));
            }
        }
        if self.is_dir {
            self.is_dir = false;
            Some(PathComponent::DirectoryMarker)
        } else {
            None
        }
    }
}

} // verus!
