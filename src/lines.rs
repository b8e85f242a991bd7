//! Splitting a byte buffer into delimiter-separated lines without rescanning.
use vstd::prelude::*;
use vstd::slice::slice_subrange;

verus! {

/// Length of the first line of `s`: the index of the first `d`, or `s.len()` when
/// there is none.
pub open spec fn line_len(s: Seq<u8>, d: u8) -> nat
    decreases s.len(),
{
    if s.len() == 0 {
        0
    } else if s[0] == d {
        0
    } else {
        1 + line_len(s.drop_first(), d)
    }
}

/// What is left of `s` after its first line and the delimiter that ends it.
pub open spec fn after_line(s: Seq<u8>, d: u8) -> Seq<u8> {
    let e = line_len(s, d) as int;
    if e < s.len() {
        s.subrange(e + 1, s.len() as int)
    } else {
        s.subrange(s.len() as int, s.len() as int)
    }
}

/// The lines of `s` split on `d`, delimiters removed; a trailing fragment after the
/// last delimiter is a line of its own, but nothing follows a final delimiter.
pub open spec fn split_lines(s: Seq<u8>, d: u8) -> Seq<Seq<u8>>
    decreases s.len(),
{
    if s.len() == 0 {
        seq![]
    } else {
        proof {
            lemma_line_len_bound(s, d);
        }
        seq![s.subrange(0, line_len(s, d) as int)] + split_lines(after_line(s, d), d)
    }
}

pub proof fn lemma_line_len_bound(s: Seq<u8>, d: u8)
    ensures
        line_len(s, d) <= s.len(),
        forall|j: int| 0 <= j < line_len(s, d) ==> s[j] != d,
        line_len(s, d) < s.len() ==> s[line_len(s, d) as int] == d,
    decreases s.len(),
{
    if s.len() > 0 && s[0] != d {
        lemma_line_len_bound(s.drop_first(), d);
        assert forall|j: int| 0 <= j < line_len(s, d) implies s[j] != d by {
            if j > 0 {
                assert(s[j] == s.drop_first()[j - 1]);
            }
        }
    }
}

/// The first line ends at the first delimiter, wherever a search finds it.
proof fn lemma_line_len_found(s: Seq<u8>, d: u8, i: int)
    requires
        0 <= i < s.len(),
        s[i] == d,
        forall|j: int| 0 <= j < i ==> s[j] != d,
    ensures
        line_len(s, d) == i,
    decreases s.len(),
{
    if i > 0 {
        lemma_line_len_found(s.drop_first(), d, i - 1);
    }
}

/// Without any delimiter the first line is the whole of `s`.
proof fn lemma_line_len_absent(s: Seq<u8>, d: u8)
    requires
        forall|j: int| 0 <= j < s.len() ==> s[j] != d,
    ensures
        line_len(s, d) == s.len(),
    decreases s.len(),
{
    if s.len() > 0 {
        lemma_line_len_absent(s.drop_first(), d);
    }
}

/// Relies on memchr::memchr: the index of the first occurrence of `needle` in
/// `haystack`, or `None` when it does not occur.
#[verifier::external_body]
fn find_byte(needle: u8, haystack: &[u8]) -> (r: Option<usize>)
    ensures
        match r {
            Some(i) => i < haystack@.len() && haystack@[i as int] == needle && forall|j: int|
                0 <= j < i ==> haystack@[j] != needle,
            None => forall|j: int| 0 <= j < haystack@.len() ==> haystack@[j] != needle,
        },
{
    memchr::memchr(needle, haystack)
}

/// A lazy producer of the lines of a byte buffer, each a view into the buffer.
pub struct Pitchfork<'a> {
    pos: usize,
    haystack: &'a [u8],
    needle: u8,
}

impl<'a> Pitchfork<'a> {
    /// The bytes not yet handed out.
    pub closed spec fn rest(&self) -> Seq<u8> {
        self.haystack@.subrange(self.pos as int, self.haystack@.len() as int)
    }

    pub closed spec fn delimiter(&self) -> u8 {
        self.needle
    }

    pub closed spec fn wf(&self) -> bool {
        self.pos <= self.haystack@.len()
    }

    /// The lines that are still to come.
    pub open spec fn remaining(&self) -> Seq<Seq<u8>> {
        split_lines(self.rest(), self.delimiter())
    }

    pub fn new(needle: u8, haystack: &'a [u8]) -> (r: Self)
        ensures
            r.wf(),
            r.delimiter() == needle,
            r.rest() == haystack@,
            r.remaining() == split_lines(haystack@, needle),
    {
        let r = Pitchfork { pos: 0, haystack, needle };
        assert(r.rest() =~= haystack@);
        r
    }

    /// Hands out the next line, or `None` once every line has been handed out.
    pub fn next(&mut self) -> (r: Option<&'a [u8]>)
        requires
            old(self).wf(),
        ensures
            final(self).wf(),
            final(self).delimiter() == old(self).delimiter(),
            old(self).remaining().len() == 0 ==> r.is_none() && final(self).remaining().len() == 0,
            old(self).remaining().len() > 0 ==> r.is_some() && r.unwrap()@ == old(
                self,
            ).remaining()[0] && final(self).remaining() == old(self).remaining().drop_first(),
            final(self).rest().len() <= old(self).rest().len(),
            r.is_some() ==> final(self).rest().len() + r.unwrap()@.len() <= old(self).rest().len(),
    {
        let len = self.haystack.len();
        let ghost s = self.rest();
        let ghost d = self.needle;
        if self.pos >= len {
            assert(s.len() == 0);
            return None;
        }
        let tail = slice_subrange(self.haystack, self.pos, len);
        assert(tail@ =~= s);
        let end = match find_byte(self.needle, tail) {
            Some(i) => {
                proof {
                    lemma_line_len_found(s, d, i as int);
                }
                i
            },
            None => {
                proof {
                    lemma_line_len_absent(s, d);
                }
                tail.len()
            },
        };
        let line = slice_subrange(tail, 0, end);
        let start = self.pos;
        if end < tail.len() {
            self.pos = start + end + 1;
        } else {
            self.pos = len;
        }
        proof {
            assert(self.rest() =~= after_line(s, d));
            assert(split_lines(s, d) == seq![line@] + split_lines(after_line(s, d), d));
            assert((seq![line@] + split_lines(after_line(s, d), d)).drop_first() =~= split_lines(
                after_line(s, d),
                d,
            ));
        }
        Some(line)
    }
}

} // verus!
