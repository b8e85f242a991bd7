//! UTF-8 text: validation, slicing by byte offsets, and facts about encodings.
use vstd::prelude::*;
use vstd::utf8::*;
use vstd::string::*;

verus! {

broadcast use group_utf8_lib;

/// Relies on std::str::from_utf8: the bytes as text when they are valid UTF-8,
/// otherwise an error.
#[verifier::external_body]
pub(crate) fn utf8_text(b: &[u8]) -> (r: Option<&str>)
    ensures
        match r {
            Some(s) => valid_utf8(b@) && s.spec_bytes() == b@,
            None => !valid_utf8(b@),
        },
{
    std::str::from_utf8(b).ok()
}

/// The sub-slice of `s` between two byte offsets, when both lie on character
/// boundaries within the text, otherwise `None`.
pub fn byte_slice(s: &str, from: usize, to: usize) -> (r: Option<&str>)
    ensures
        r.is_some() <==> (from <= to && to <= s.spec_bytes().len() && is_char_boundary(
            s.spec_bytes(),
            from as int,
        ) && is_char_boundary(s.spec_bytes(), to as int)),
        r.is_some() ==> r.unwrap().spec_bytes() == s.spec_bytes().subrange(from as int, to as int),
{
    if from > to || to > s.as_bytes().len() || !s.is_char_boundary(from) || !s.is_char_boundary(
        to,
    ) {
        return None;
    }
    let ghost b = s.spec_bytes();
    let (head, _) = s.split_at(to);
    let ghost hb = head.spec_bytes();
    proof {
        assert(hb =~= b.subrange(0, to as int));
        valid_utf8_split(b, to as int);
        if from == to {
            is_char_boundary_start_end_of_seq(hb);
        } else if from > 0 {
            assert(hb[from as int] == b[from as int]);
            is_char_boundary_iff_not_is_continuation_byte(b, from as int);
            is_char_boundary_iff_not_is_continuation_byte(hb, from as int);
        }
    }
    let (_, mid) = head.split_at(from);
    assert(mid.spec_bytes() =~= b.subrange(from as int, to as int));
    Some(mid)
}

/// Whether two texts hold the same bytes.
pub fn same_text(a: &str, b: &str) -> (r: bool)
    ensures
        r == (a.spec_bytes() == b.spec_bytes()),
{
    let x = a.as_bytes();
    let y = b.as_bytes();
    if x.len() != y.len() {
        return false;
    }
    let mut i: usize = 0;
    while i < x.len()
        invariant
            x@ == a.spec_bytes(),
            y@ == b.spec_bytes(),
            x@.len() == y@.len(),
            i <= x@.len(),
            forall|j: int| 0 <= j < i ==> x@[j] == y@[j],
        decreases x@.len() - i,
    {
        if x[i] != y[i] {
            assert(x@[i as int] != y@[i as int]);
            return false;
        }
        i = i + 1;
    }
    assert(x@ =~= y@);
    true
}

/// Encoding a concatenation encodes each part in turn.
pub proof fn lemma_encode_concat(a: Seq<char>, b: Seq<char>)
    ensures
        encode_utf8(a + b) == encode_utf8(a) + encode_utf8(b),
    decreases a.len(),
{
    if a.len() == 0 {
        assert(a + b =~= b);
        assert(encode_utf8(a) + encode_utf8(b) =~= encode_utf8(b));
    } else {
        assert((a + b).drop_first() =~= a.drop_first() + b);
        lemma_encode_concat(a.drop_first(), b);
        assert((a + b)[0] == a[0]);
        assert(encode_utf8(a + b) =~= encode_utf8(a) + encode_utf8(b));
    }
}

/// A character boundary stays one when valid text is appended.
pub proof fn lemma_boundary_extend(b1: Seq<u8>, b2: Seq<u8>, i: int)
    requires
        valid_utf8(b1),
        valid_utf8(b2),
        is_char_boundary(b1, i),
    ensures
        is_char_boundary(b1 + b2, i),
    decreases b1.len(),
{
    if i == 0 {
    } else if b1.len() == 0 {
    } else {
        let c = b1 + b2;
        assert(c[0] == b1[0]);
        assert(valid_first_scalar(b1));
        let n = length_of_first_scalar(b1);
        assert(forall|j: int| 0 <= j < b1.len() ==> c[j] == b1[j]);
        assert(length_of_first_scalar(c) == n);
        assert(pop_first_scalar(c) =~= pop_first_scalar(b1) + b2);
        lemma_boundary_extend(pop_first_scalar(b1), b2, i - n);
    }
}

} // verus!
