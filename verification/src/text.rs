//! Cutting text at byte positions. A `&str` can only be cut between two
//! characters; the lemmas here show that the positions the lexer finds lie
//! there, because an ASCII byte stands on one side of them.

use vstd::prelude::*;
use vstd::string::StringSliceAdditionalSpecFns;
use vstd::utf8::{
    encode_utf8_valid_utf8, is_char_boundary, is_char_boundary_iff_not_is_continuation_byte,
    is_char_boundary_start_end_of_seq, length_of_first_scalar, pop_first_scalar,
    valid_first_scalar, valid_utf8, valid_utf8_split,
};

verus! {

/// A byte that is a character by itself.
pub open spec fn is_ascii_byte(b: u8) -> bool {
    b < 0x80
}

/// `i` is a place where `s` may be cut: between two characters, or at
/// either end.
pub open spec fn cut_point(s: Seq<u8>, i: int) -> bool {
    0 <= i <= s.len() && is_char_boundary(s, i)
}

/// The bytes of a `&str` are well-formed, and it may be cut at both ends.
pub proof fn lemma_str_bytes(s: &str)
    ensures
        valid_utf8(s.spec_bytes()),
        cut_point(s.spec_bytes(), 0),
        cut_point(s.spec_bytes(), s.spec_bytes().len() as int),
{
    encode_utf8_valid_utf8(s@);
    is_char_boundary_start_end_of_seq(s.spec_bytes());
}

/// Text may be cut in front of an ASCII byte.
pub proof fn lemma_cut_before_ascii(s: Seq<u8>, i: int)
    requires
        valid_utf8(s),
        0 <= i < s.len(),
        is_ascii_byte(s[i]),
    ensures
        cut_point(s, i),
{
    is_char_boundary_iff_not_is_continuation_byte(s, i);
}

/// Text may be cut behind an ASCII byte.
pub proof fn lemma_cut_after_ascii(s: Seq<u8>, i: int)
    requires
        valid_utf8(s),
        0 <= i < s.len(),
        is_ascii_byte(s[i]),
    ensures
        cut_point(s, i + 1),
{
    lemma_cut_before_ascii(s, i);
    if i + 1 == s.len() {
        is_char_boundary_start_end_of_seq(s);
    } else {
        valid_utf8_split(s, i);
        let from_i = s.subrange(i, s.len() as int);
        assert(from_i[0] == s[i]);
        assert(valid_first_scalar(from_i));
        assert(length_of_first_scalar(from_i) == 1);
        let rest = s.subrange(i + 1, s.len() as int);
        assert(pop_first_scalar(from_i) =~= rest);
        assert(valid_utf8(rest));
        assert(valid_first_scalar(rest));
        assert(rest[0] == s[i + 1]);
        is_char_boundary_iff_not_is_continuation_byte(s, i + 1);
    }
}

/// A cut point of a text is one of what is left behind an earlier cut.
pub proof fn lemma_cut_point_of_rest(s: Seq<u8>, from: int, to: int)
    requires
        valid_utf8(s),
        cut_point(s, from),
        cut_point(s, to),
        from <= to,
    ensures
        valid_utf8(s.subrange(from, s.len() as int)),
        cut_point(s.subrange(from, s.len() as int), to - from),
{
    valid_utf8_split(s, from);
    let rest = s.subrange(from, s.len() as int);
    is_char_boundary_start_end_of_seq(rest);
    if from < to && to < s.len() {
        is_char_boundary_iff_not_is_continuation_byte(s, to);
        assert(rest[to - from] == s[to]);
        is_char_boundary_iff_not_is_continuation_byte(rest, to - from);
    }
}

/// The text between two cut points.
pub fn slice<'a>(s: &'a str, from: usize, to: usize) -> (part: &'a str)
    requires
        from <= to,
        cut_point(s.spec_bytes(), from as int),
        cut_point(s.spec_bytes(), to as int),
    ensures
        part.spec_bytes() == s.spec_bytes().subrange(from as int, to as int),
{
    proof {
        lemma_str_bytes(s);
        lemma_cut_point_of_rest(s.spec_bytes(), from as int, to as int);
    }
    let (_, rest) = s.split_at(from);
    let (part, _) = rest.split_at(to - from);
    assert(part.spec_bytes() =~= s.spec_bytes().subrange(from as int, to as int));
    part
}

} // verus!
