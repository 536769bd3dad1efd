//! Working with the characters of string slices.

use vstd::prelude::*;
use vstd::std_specs::iter::IteratorSpec;

verus! {

/// The characters of `text`, in order.
pub fn chars_of(text: &str) -> (chars: Vec<char>)
    ensures
        chars@ == text@,
{
    let mut chars: Vec<char> = Vec::new();
    for c in it: text.chars()
        invariant
            it.seq() == text@,
            chars@ == text@.take(it.index() as int),
    {
        chars.push(c);
    }
    chars
}

/// Turns a borrowed piece of text into an owned string.
///
/// Trusted: `beef::Cow::borrowed` wraps the slice without touching it and
/// `beef::Cow::into_owned` on a borrowed value copies exactly that slice, so
/// the result has the characters of `piece`.
#[verifier::external_body]
pub(crate) fn owned_text(piece: &str) -> (text: String)
    ensures
        text@ == piece@,
{
    let borrowed: beef::Cow<'_, str> = beef::Cow::borrowed(piece);
    borrowed.into_owned()
}

/// Whether what is left of `text`, which is `first`, and of `other`, which
/// is `second`, is the same.
fn same_rest(
    text: std::str::Chars<'_>,
    other: std::str::Chars<'_>,
    Ghost(first): Ghost<Seq<char>>,
    Ghost(second): Ghost<Seq<char>>,
) -> (same: bool)
    requires
        text.remaining() == first,
        other.remaining() == second,
        first.len() == second.len(),
    ensures
        same == (first == second),
{
    let mut text = text;
    let mut other = other;
    let ghost mut done: int = 0;
    loop
        invariant
            0 <= done <= first.len(),
            first.len() == second.len(),
            text.remaining() == first.skip(done),
            other.remaining() == second.skip(done),
            first.take(done) == second.take(done),
        decreases first.len() - done,
    {
        match text.next() {
            None => {
                assert(first =~= first.take(done));
                assert(second =~= second.take(done));
                return true;
            },
            Some(c) => {
                let d = other.next();
                if d != Some(c) {
                    return false;
                }
                proof {
                    done = done + 1;
                }
            },
        }
    }
}

/// Whether `text` begins with `prefix`.
pub fn starts_with(text: &str, prefix: &str) -> (found: bool)
    ensures
        found == prefix@.is_prefix_of(text@),
{
    let mut rest = text.chars();
    let mut wanted = prefix.chars();
    let ghost mut done: int = 0;
    loop
        invariant
            0 <= done <= prefix@.len(),
            done <= text@.len(),
            rest.remaining() == text@.skip(done),
            wanted.remaining() == prefix@.skip(done),
            text@.take(done) == prefix@.take(done),
        decreases prefix@.len() - done,
    {
        match wanted.next() {
            None => {
                return true;
            },
            Some(c) => {
                match rest.next() {
                    None => {
                        return false;
                    },
                    Some(d) => {
                        if c != d {
                            return false;
                        }
                        proof {
                            done = done + 1;
                        }
                    },
                }
            },
        }
    }
}

/// Whether `text` ends with `suffix`.
pub fn ends_with(text: &str, suffix: &str) -> (found: bool)
    ensures
        found == suffix@.is_suffix_of(text@),
{
    let length = text.unicode_len();
    let wanted = suffix.unicode_len();
    if wanted > length {
        return false;
    }
    let ahead = length - wanted;
    let mut rest = text.chars();
    let mut skipped: usize = 0;
    while skipped < ahead
        invariant
            skipped <= ahead,
            ahead + wanted == length,
            length == text@.len(),
            rest.remaining() == text@.skip(skipped as int),
        decreases ahead - skipped,
    {
        rest.next();
        skipped = skipped + 1;
    }
    let tail = suffix.chars();
    same_rest(rest, tail, Ghost(text@.skip(ahead as int)), Ghost(suffix@))
}

} // verus!
