//! Cutting `&str` values at byte offsets.
//!
//! The reader scans its input byte by byte and hands out atoms as sub-slices of
//! that input. A `&str` may only be cut where a character starts, so this module
//! states when a byte offset is such a place and proves it from the bytes seen.
use vstd::prelude::*;
use vstd::string::StringSliceAdditionalSpecFns;
use vstd::utf8::*;

verus! {

/// An offset at which UTF-8 text may be cut: its end, or a byte that does not
/// continue a character.
pub open spec fn cut_point(bytes: Seq<u8>, i: int) -> bool {
    0 <= i <= bytes.len() && (i < bytes.len() ==> !is_continuation_byte(bytes[i]))
}

/// In valid UTF-8 every cut point is a character boundary.
pub proof fn lemma_cut_point_is_boundary(bytes: Seq<u8>, i: int)
    requires
        valid_utf8(bytes),
        cut_point(bytes, i),
    ensures
        is_char_boundary(bytes, i),
{
    if i < bytes.len() {
        is_char_boundary_iff_not_is_continuation_byte(bytes, i);
    } else {
        is_char_boundary_start_end_of_seq(bytes);
    }
}

/// In valid UTF-8 an ASCII byte is a whole character: the text may be cut
/// before it and after it.
pub proof fn lemma_ascii_is_cut_on_both_sides(bytes: Seq<u8>, i: int)
    requires
        valid_utf8(bytes),
        0 <= i < bytes.len(),
        bytes[i] < 0x80,
    ensures
        cut_point(bytes, i),
        cut_point(bytes, i + 1),
{
    lemma_cut_point_is_boundary(bytes, i);
    if i + 1 < bytes.len() {
        let rest = bytes.subrange(i, bytes.len() as int);
        valid_utf8_split(bytes, i);
        assert(rest[0] == bytes[i]);
        assert(length_of_first_scalar(rest) == 1);
        assert(is_char_boundary(rest, 1)) by {
            reveal_with_fuel(is_char_boundary, 2);
        }
        is_char_boundary_iff_not_is_continuation_byte(rest, 1);
        assert(rest[1] == bytes[i + 1]);
    }
}

/// The bytes of any `&str` are valid UTF-8.
pub proof fn lemma_str_is_valid(s: &str)
    ensures
        valid_utf8(s.spec_bytes()),
{
    encode_utf8_valid_utf8(s@);
}

/// Any `&str` may be cut at its start.
pub proof fn lemma_start_is_cut(s: &str)
    ensures
        cut_point(s.spec_bytes(), 0),
{
    lemma_str_is_valid(s);
    if s.spec_bytes().len() > 0 {
        is_char_boundary_start_end_of_seq(s.spec_bytes());
        is_char_boundary_iff_not_is_continuation_byte(s.spec_bytes(), 0);
    }
}

/// The part of `input` between the byte offsets `from` and `to`.
pub(crate) fn slice<'s>(input: &'s str, from: usize, to: usize) -> (r: &'s str)
    requires
        from <= to,
        cut_point(input.spec_bytes(), from as int),
        cut_point(input.spec_bytes(), to as int),
    ensures
        r.spec_bytes() == input.spec_bytes().subrange(from as int, to as int),
{
    proof {
        lemma_str_is_valid(input);
        lemma_cut_point_is_boundary(input.spec_bytes(), to as int);
    }
    let (head, _) = input.split_at(to);
    proof {
        lemma_str_is_valid(head);
        lemma_cut_point_is_boundary(head.spec_bytes(), from as int);
    }
    let (_, r) = head.split_at(from);
    assert(r.spec_bytes() =~= input.spec_bytes().subrange(from as int, to as int));
    r
}

/// The part of `input` from the byte offset `from` to its end.
pub(crate) fn tail<'s>(input: &'s str, from: usize) -> (r: &'s str)
    requires
        cut_point(input.spec_bytes(), from as int),
    ensures
        r.spec_bytes() == input.spec_bytes().subrange(
            from as int,
            input.spec_bytes().len() as int,
        ),
{
    proof {
        lemma_str_is_valid(input);
        lemma_cut_point_is_boundary(input.spec_bytes(), from as int);
    }
    let (_, r) = input.split_at(from);
    r
}

/// Two texts have the same bytes exactly when they have the same characters.
pub proof fn lemma_same_bytes_same_chars(a: &str, b: &str)
    ensures
        a.spec_bytes() == b.spec_bytes() <==> a@ == b@,
{
    encode_utf8_decode_utf8(a@);
    encode_utf8_decode_utf8(b@);
}

/// Whether two texts are the same, byte for byte.
pub fn same_text(a: &str, b: &str) -> (r: bool)
    ensures
        r == (a.spec_bytes() == b.spec_bytes()),
        r == (a@ == b@),
{
    proof {
        lemma_same_bytes_same_chars(a, b);
    }
    let left = a.as_bytes();
    let right = b.as_bytes();
    if left.len() != right.len() {
        return false;
    }
    let mut i: usize = 0;
    while i < left.len()
        invariant
            left@ == a.spec_bytes(),
            right@ == b.spec_bytes(),
            a.spec_bytes() == b.spec_bytes() <==> a@ == b@,
            left@.len() == right@.len(),
            i <= left@.len(),
            left@.subrange(0, i as int) == right@.subrange(0, i as int),
        decreases left@.len() - i,
    {
        if left[i] != right[i] {
            assert(left@[i as int] != right@[i as int]);
            return false;
        }
        assert(left@.subrange(0, i + 1) =~= left@.subrange(0, i as int).push(left@[i as int]));
        assert(right@.subrange(0, i + 1) =~= right@.subrange(0, i as int).push(right@[i as int]));
        i += 1;
    }
    assert(left@ =~= left@.subrange(0, i as int));
    assert(right@ =~= right@.subrange(0, i as int));
    true
}

} // verus!
