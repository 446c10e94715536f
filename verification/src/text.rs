//! Small functions on text that the other modules share.

use vstd::prelude::*;
use vstd::string::StringSliceAdditionalSpecFns;
use vstd::string::StrSliceExecFns;
use vstd::utf8::{encode_utf8, encode_utf8_decode_utf8};

verus! {

/// Whether `text` begins with `prefix`.
pub open spec fn has_prefix(text: Seq<char>, prefix: Seq<char>) -> bool {
    prefix.len() <= text.len() && text.take(prefix.len() as int) == prefix
}

/// Whether `text` ends with `suffix`.
pub open spec fn has_suffix(text: Seq<char>, suffix: Seq<char>) -> bool {
    suffix.len() <= text.len() && text.skip(text.len() - suffix.len()) == suffix
}

/// The part of `text` before its first `mark`, all of it where it has none.
pub open spec fn up_to(text: Seq<char>, mark: char) -> Seq<char>
    decreases text.len(),
{
    if text.len() == 0 || text[0] == mark {
        Seq::empty()
    } else {
        seq![text[0]] + up_to(text.skip(1), mark)
    }
}

/// Whether two texts are the same.
pub fn same_text(left: &str, right: &str) -> (same: bool)
    ensures
        same == (left@ == right@),
{
    let first = left.as_bytes();
    let second = right.as_bytes();
    if first.len() != second.len() {
        return false;
    }
    let mut at: usize = 0;
    while at < first.len()
        invariant
            at <= first.len(),
            first.len() == second.len(),
            first@ == encode_utf8(left@),
            second@ == encode_utf8(right@),
            forall|i: int| 0 <= i < at ==> first@[i] == second@[i],
        decreases first.len() - at,
    {
        if first[at] != second[at] {
            return false;
        }
        at += 1;
    }
    proof {
        assert(first@ =~= second@);
        encode_utf8_decode_utf8(left@);
        encode_utf8_decode_utf8(right@);
    }
    true
}

/// Whether `text` begins with `prefix`.
pub fn starts_with(text: &str, prefix: &str) -> (holds: bool)
    ensures
        holds == has_prefix(text@, prefix@),
{
    let width = prefix.unicode_len();
    if width > text.unicode_len() {
        return false;
    }
    let mut at: usize = 0;
    while at < width
        invariant
            at <= width,
            width == prefix@.len(),
            width <= text@.len(),
            forall|i: int| 0 <= i < at ==> text@[i] == prefix@[i],
        decreases width - at,
    {
        if text.get_char(at) != prefix.get_char(at) {
            proof {
                assert(text@.take(width as int)[at as int] != prefix@[at as int]);
            }
            return false;
        }
        at += 1;
    }
    proof {
        assert(text@.take(width as int) =~= prefix@);
    }
    true
}

/// Whether `text` ends with `suffix`.
pub fn ends_with(text: &str, suffix: &str) -> (holds: bool)
    ensures
        holds == has_suffix(text@, suffix@),
{
    let width = suffix.unicode_len();
    let length = text.unicode_len();
    if width > length {
        return false;
    }
    let from = length - width;
    let mut at: usize = 0;
    while at < width
        invariant
            at <= width,
            width == suffix@.len(),
            length == text@.len(),
            from == length - width,
            forall|i: int| 0 <= i < at ==> text@[from + i] == suffix@[i],
        decreases width - at,
    {
        if text.get_char(from + at) != suffix.get_char(at) {
            proof {
                assert(text@.skip(from as int)[at as int] != suffix@[at as int]);
            }
            return false;
        }
        at += 1;
    }
    proof {
        assert(text@.skip(from as int) =~= suffix@);
    }
    true
}

/// The part of `text` from its place `from` up to the first `mark` after it,
/// or to the end where none follows.
pub fn segment_from<'a>(text: &'a str, from: usize, mark: char) -> (part: &'a str)
    requires
        from <= text@.len(),
    ensures
        part@ == up_to(text@.skip(from as int), mark),
{
    let length = text.unicode_len();
    let mut to: usize = from;
    while to < length && text.get_char(to) != mark
        invariant
            from <= to <= length,
            length == text@.len(),
            up_to(text@.skip(from as int), mark) == text@.subrange(from as int, to as int) + up_to(
                text@.skip(to as int),
                mark,
            ),
        decreases length - to,
    {
        proof {
            let rest = text@.skip(to as int);
            assert(rest.skip(1) =~= text@.skip(to + 1));
            assert(text@.subrange(from as int, to as int) + seq![rest[0]] =~= text@.subrange(
                from as int,
                to + 1,
            ));
            assert(text@.subrange(from as int, to as int) + (seq![rest[0]] + up_to(
                rest.skip(1),
                mark,
            )) =~= (text@.subrange(from as int, to as int) + seq![rest[0]]) + up_to(
                rest.skip(1),
                mark,
            ));
        }
        to += 1;
    }
    proof {
        let rest = text@.skip(to as int);
        assert(up_to(rest, mark) =~= Seq::<char>::empty());
        assert(text@.subrange(from as int, to as int) + Seq::<char>::empty() =~= text@.subrange(
            from as int,
            to as int,
        ));
    }
    text.substring_char(from, to)
}

} // verus!
