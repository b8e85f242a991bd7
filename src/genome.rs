//! The condensed genome: one pass over FASTA bytes, and the queries on the result.
use vstd::prelude::*;
use vstd::utf8::*;
use vstd::string::*;
use vstd::slice::slice_subrange;
use crate::lines::{Pitchfork, split_lines};
use crate::text::{utf8_text, byte_slice, same_text, lemma_encode_concat, lemma_boundary_extend};

verus! {

broadcast use group_utf8_lib;

/// The byte that ends each line.
pub const NEWLINE: u8 = 10;

/// The byte that opens a header line (`>`).
pub const MARKER: u8 = 62;

/// Where the fixed-width identifier starts within a header line.
pub const ID_FROM: usize = 1;

/// Where the fixed-width identifier ends within a header line (exclusive).
pub const ID_TO: usize = 16;

/// A half-open byte range `[start, end)` of the condensed sequence.
#[derive(Debug, Clone, Copy, PartialEq, Eq, Structural, PartialOrd)]
pub struct Span {
    pub start: usize,
    pub end: usize,
}

/// Why a FASTA buffer could not be loaded.
#[derive(Debug, Clone, Copy, PartialEq, Eq, Structural)]
pub enum ParseError {
    /// A header line (or a missing first line) too short to hold the identifier.
    HeaderTooShort,
    /// A header or sequence line that is not valid UTF-8.
    InvalidUtf8,
    /// The identifier window cuts a multi-byte character.
    SplitCharacter,
}

/// One record: its identifier and where its sequence lies.
#[derive(Debug, Clone)]
struct Record {
    id: String,
    span: Span,
}

/// A loaded genome: every record's sequence back to back, with the records in
/// file order.
///
/// Both indexes live in `records`. Starts never decrease along it, so the position
/// index is a binary search over it: vstd specifies no range query on `BTreeMap`.
/// The identifier index is a search from the back, where a later record replaces
/// an earlier one of the same name: vstd proves nothing of a map keyed by `String`.
#[derive(Debug, Clone)]
pub struct Genome {
    records: Vec<Record>,
    condensed: String,
}

/// A record found by position: its identifier, its sequence and its span.
#[derive(Debug, Clone, PartialEq, PartialOrd)]
pub struct Entry<'a> {
    pub id: &'a str,
    pub sequence: &'a str,
    pub span: Span,
}

/// A record of the model: identifier bytes, start and end of its span.
pub type RecordModel = (Seq<u8>, int, int);

/// The state of the single pass after some lines.
pub struct Scan {
    /// The records already closed.
    pub done: Seq<RecordModel>,
    /// The condensed bytes so far.
    pub text: Seq<u8>,
    /// The identifier of the header whose record is still open.
    pub held: Seq<u8>,
    /// Where the open record starts.
    pub start: int,
}

pub open spec fn is_header(l: Seq<u8>) -> bool {
    l.len() > 0 && l[0] == MARKER
}

/// The identifier of a header line: a fixed window of it.
pub open spec fn identifier(h: Seq<u8>) -> Seq<u8> {
    h.subrange(ID_FROM as int, ID_TO as int)
}

/// Why a header line cannot give an identifier, if it cannot.
pub open spec fn header_error(h: Seq<u8>) -> Option<ParseError> {
    if h.len() < ID_TO {
        Some(ParseError::HeaderTooShort)
    } else if !valid_utf8(h) {
        Some(ParseError::InvalidUtf8)
    } else if !(is_char_boundary(h, ID_FROM as int) && is_char_boundary(h, ID_TO as int)) {
        Some(ParseError::SplitCharacter)
    } else {
        None
    }
}

/// The pass over the first `ls.len()` lines. The first line always stands for a
/// header; later header lines close the open record and open the next one; every
/// other line is appended to the condensed bytes.
pub open spec fn scan(ls: Seq<Seq<u8>>) -> Result<Scan, ParseError>
    decreases ls.len(),
{
    if ls.len() <= 1 {
        let h = if ls.len() == 0 { seq![] } else { ls[0] };
        match header_error(h) {
            Some(e) => Err(e),
            None => Ok(Scan { done: seq![], text: seq![], held: identifier(h), start: 0 }),
        }
    } else {
        let l = ls.last();
        match scan(ls.drop_last()) {
            Err(e) => Err(e),
            Ok(st) => if is_header(l) {
                match header_error(l) {
                    Some(e) => Err(e),
                    None => Ok(
                        Scan {
                            done: st.done.push((st.held, st.start, st.text.len() as int)),
                            text: st.text,
                            held: identifier(l),
                            start: st.text.len() as int,
                        },
                    ),
                }
            } else if !valid_utf8(l) {
                Err(ParseError::InvalidUtf8)
            } else {
                Ok(Scan { text: st.text + l, ..st })
            },
        }
    }
}

/// What loading `buf` gives: the records in file order and the condensed bytes,
/// the last record closed at the end of the input.
pub open spec fn load(buf: Seq<u8>) -> Result<(Seq<RecordModel>, Seq<u8>), ParseError> {
    match scan(split_lines(buf, NEWLINE)) {
        Err(e) => Err(e),
        Ok(st) => Ok((st.done.push((st.held, st.start, st.text.len() as int)), st.text)),
    }
}

spec fn record_model(r: Record) -> RecordModel {
    (encode_utf8(r.id@), r.span.start as int, r.span.end as int)
}

/// Spans lie within the text, on character boundaries, in order and apart.
pub open spec fn spans_wf(recs: Seq<RecordModel>, text: Seq<u8>) -> bool {
    &&& forall|k: int|
        0 <= k < recs.len() ==> 0 <= #[trigger] recs[k].1 <= recs[k].2 <= text.len()
            && is_char_boundary(text, recs[k].1) && is_char_boundary(text, recs[k].2)
    &&& forall|i: int, j: int| 0 <= i < j < recs.len() ==> #[trigger] recs[i].2 <= #[trigger] recs[j].1
}

impl Genome {
    /// The records, identifiers as bytes.
    pub closed spec fn records(&self) -> Seq<RecordModel> {
        self.records@.map_values(|r: Record| record_model(r))
    }

    /// The condensed sequence as bytes.
    pub closed spec fn text(&self) -> Seq<u8> {
        encode_utf8(self.condensed@)
    }

    pub open spec fn wf(&self) -> bool {
        spans_wf(self.records(), self.text())
    }
}

/// The identifier of a header line, or why there is none.
fn header_id(h: &[u8]) -> (r: Result<String, ParseError>)
    ensures
        match r {
            Ok(s) => header_error(h@).is_none() && encode_utf8(s@) == identifier(h@),
            Err(e) => header_error(h@) == Some(e),
        },
{
    if h.len() < ID_TO {
        return Err(ParseError::HeaderTooShort);
    }
    let t = match utf8_text(h) {
        Some(t) => t,
        None => return Err(ParseError::InvalidUtf8),
    };
    match byte_slice(t, ID_FROM, ID_TO) {
        Some(w) => Ok(w.to_owned()),
        None => Err(ParseError::SplitCharacter),
    }
}

impl Genome {
    /// Loads FASTA bytes in one pass over their lines.
    pub fn parse(buf: &[u8]) -> (r: Result<Genome, ParseError>)
        ensures
            match r {
                Ok(g) => g.wf() && load(buf@) == Ok::<_, ParseError>((g.records(), g.text())),
                Err(e) => load(buf@) == Err::<(Seq<RecordModel>, Seq<u8>), _>(e),
            },
    {
        let ghost ls = split_lines(buf@, NEWLINE);
        let mut it = Pitchfork::new(NEWLINE, buf);
        let first = match it.next() {
            Some(l) => l,
            None => {
                assert(ls.len() == 0);
                return Err(ParseError::HeaderTooShort);
            },
        };
        assert(ls.take(1) =~= seq![first@]);
        let mut held = match header_id(first) {
            Ok(s) => s,
            Err(e) => {
                assert(scan(ls.take(1)) == Err::<Scan, _>(e));
                proof { lemma_scan_err_prefix(ls, 1); }
                return Err(e);
            },
        };
        let mut records: Vec<Record> = Vec::new();
        let mut condensed = String::new();
        let mut start: usize = 0;
        let mut length: usize = 0;
        let ghost mut k: int = 1;
        let total = buf.len();
        proof {
            assert(records@.map_values(|r: Record| record_model(r)) =~= Seq::<RecordModel>::empty());
        }
        loop
            invariant
                it.wf(),
                it.delimiter() == NEWLINE,
                1 <= k <= ls.len(),
                it.remaining() == ls.subrange(k, ls.len() as int),
                scan(ls.take(k)) == Ok::<_, ParseError>(
                    Scan {
                        done: records@.map_values(|r: Record| record_model(r)),
                        text: encode_utf8(condensed@),
                        held: encode_utf8(held@),
                        start: start as int,
                    },
                ),
                length == encode_utf8(condensed@).len(),
                length + it.rest().len() <= buf@.len(),
                start <= length,
                is_char_boundary(encode_utf8(condensed@), start as int),
                spans_wf(records@.map_values(|r: Record| record_model(r)), encode_utf8(condensed@)),
                forall|j: int|
                    0 <= j < records@.len() ==> #[trigger] records@[j].span.end <= start,
                ls == split_lines(buf@, NEWLINE),
                total == buf@.len(),
            ensures
                k == ls.len(),
            decreases it.remaining().len(),
        {
            let ghost text0 = encode_utf8(condensed@);
            let ghost recs0 = records@.map_values(|r: Record| record_model(r));
            let ghost it0 = it;
            let next = it.next();
            let line = match next {
                Some(l) => l,
                None => {
                    assert(it0.remaining().len() == 0);
                    assert(it.remaining() =~= ls.subrange(k, ls.len() as int));
                    break;
                },
            };
            assert(line@ == ls[k]);
            assert(ls.take(k + 1).drop_last() =~= ls.take(k));
            assert(ls.take(k + 1).last() == ls[k]);
            if line.len() > 0 && line[0] == MARKER {
                let id = match header_id(line) {
                    Ok(s) => s,
                    Err(e) => {
                        proof { lemma_scan_err_prefix(ls, k + 1); }
                        return Err(e);
                    },
                };
                let rec = Record { id: held, span: Span { start, end: length } };
                records.push(rec);
                proof {
                    assert(records@.map_values(|r: Record| record_model(r)) =~= recs0.push(
                        record_model(rec),
                    ));
                }
                held = id;
                start = length;
            } else {
                let s = match utf8_text(line) {
                    Some(s) => s,
                    None => {
                        proof { lemma_scan_err_prefix(ls, k + 1); }
                        return Err(ParseError::InvalidUtf8);
                    },
                };
                let ghost before = condensed@;
                condensed.append(s);
                length = length + line.len();
                proof {
                    lemma_encode_concat(before, s@);
                    assert forall|j: int| 0 <= j < recs0.len() implies is_char_boundary(
                        text0 + line@,
                        #[trigger] recs0[j].1,
                    ) && is_char_boundary(text0 + line@, recs0[j].2) by {
                        lemma_boundary_extend(text0, line@, recs0[j].1);
                        lemma_boundary_extend(text0, line@, recs0[j].2);
                    }
                    lemma_boundary_extend(text0, line@, start as int);
                }
            }
            proof { k = k + 1; }
        }
        assert(ls.take(k) =~= ls);
        let ghost recs0 = records@.map_values(|r: Record| record_model(r));
        let rec = Record { id: held, span: Span { start, end: length } };
        records.push(rec);
        proof {
            assert(records@.map_values(|r: Record| record_model(r)) =~= recs0.push(
                record_model(rec),
            ));
        }
        Ok(Genome { records, condensed })
    }
}

/// The last of the first `n` records named `id`, or -1 when there is none.
pub open spec fn last_named(recs: Seq<RecordModel>, id: Seq<u8>, n: int) -> int
    decreases n,
{
    if n <= 0 {
        -1
    } else if recs[n - 1].0 == id {
        n - 1
    } else {
        last_named(recs, id, n - 1)
    }
}

/// The last of the first `n` records that start below `pos`, or -1 when there is
/// none.
pub open spec fn last_before(recs: Seq<RecordModel>, pos: int, n: int) -> int
    decreases n,
{
    if n <= 0 {
        -1
    } else if recs[n - 1].1 < pos {
        n - 1
    } else {
        last_before(recs, pos, n - 1)
    }
}

/// The record that the identifier index gives for `id`: the last one that bears it
/// (a later record replaces an earlier one of the same name), or -1.
pub open spec fn find_id(recs: Seq<RecordModel>, id: Seq<u8>) -> int {
    last_named(recs, id, recs.len() as int)
}

/// The record that the position index gives as nearest before `pos`: of the
/// greatest start below `pos`, the last record that starts there, or -1.
pub open spec fn predecessor(recs: Seq<RecordModel>, pos: int) -> int {
    last_before(recs, pos, recs.len() as int)
}

pub proof fn lemma_last_named(recs: Seq<RecordModel>, id: Seq<u8>, n: int)
    requires
        0 <= n <= recs.len(),
    ensures
        -1 <= last_named(recs, id, n) < n,
        last_named(recs, id, n) >= 0 ==> recs[last_named(recs, id, n)].0 == id,
        forall|j: int| last_named(recs, id, n) < j < n ==> (#[trigger] recs[j]).0 != id,
    decreases n,
{
    if n > 0 && recs[n - 1].0 != id {
        lemma_last_named(recs, id, n - 1);
    }
}

pub proof fn lemma_last_before(recs: Seq<RecordModel>, pos: int, n: int)
    requires
        0 <= n <= recs.len(),
    ensures
        -1 <= last_before(recs, pos, n) < n,
        last_before(recs, pos, n) >= 0 ==> recs[last_before(recs, pos, n)].1 < pos,
        forall|j: int| last_before(recs, pos, n) < j < n ==> (#[trigger] recs[j]).1 >= pos,
    decreases n,
{
    if n > 0 && recs[n - 1].1 >= pos {
        lemma_last_before(recs, pos, n - 1);
    }
}

impl Genome {
    /// The index of the record that the identifier index gives for `id`.
    fn find(&self, id: &str) -> (r: Option<usize>)
        ensures
            match r {
                Some(k) => k as int == find_id(self.records(), id.spec_bytes()) && k
                    < self.records@.len(),
                None => find_id(self.records(), id.spec_bytes()) < 0,
            },
    {
        let ghost recs = self.records();
        let mut i = self.records.len();
        while i > 0
            invariant
                i <= self.records@.len(),
                recs == self.records(),
                forall|j: int| i <= j < recs.len() ==> (#[trigger] recs[j]).0 != id.spec_bytes(),
            decreases i,
        {
            i = i - 1;
            assert(recs[i as int] == record_model(self.records@[i as int]));
            if same_text(self.records[i].id.as_str(), id) {
                proof {
                    lemma_last_named(recs, id.spec_bytes(), recs.len() as int);
                }
                return Some(i);
            }
        }
        proof {
            lemma_last_named(recs, id.spec_bytes(), recs.len() as int);
        }
        None
    }

    /// The whole condensed sequence.
    pub fn condensed(&self) -> (r: &str)
        ensures
            r.spec_bytes() == self.text(),
    {
        self.condensed.as_str()
    }

    /// The sequence of the record named `id`, if there is one.
    pub fn get_by_ensembl(&self, id: &str) -> (r: Option<&str>)
        requires
            self.wf(),
        ensures
            ({
                let recs = self.records();
                let k = find_id(recs, id.spec_bytes());
                &&& k < 0 ==> r.is_none()
                &&& k >= 0 ==> r.is_some() && r.unwrap().spec_bytes() == self.text().subrange(
                    recs[k].1,
                    recs[k].2,
                )
            }),
    {
        let k = match self.find(id) {
            Some(k) => k,
            None => return None,
        };
        let span = self.records[k].span;
        proof {
            lemma_last_named(self.records(), id.spec_bytes(), self.records().len() as int);
            assert(self.records()[k as int] == record_model(self.records@[k as int]));
            assert(0 <= self.records()[k as int].1 <= self.records()[k as int].2);
        }
        let c = self.condensed.as_str();
        assert(c.spec_bytes() == self.text());
        byte_slice(c, span.start, span.end)
    }

    /// The record nearest before byte `pos` of the condensed sequence: the one
    /// with the greatest start below `pos`.
    pub fn range(&self, pos: usize) -> (r: Option<Entry<'_>>)
        requires
            self.wf(),
        ensures
            ({
                let recs = self.records();
                let p = predecessor(recs, pos as int);
                &&& p < 0 ==> r.is_none()
                &&& p >= 0 ==> r.is_some() && {
                    let e = r.unwrap();
                    let k = find_id(recs, recs[p].0);
                    &&& k >= 0
                    &&& e.id.spec_bytes() == recs[p].0
                    &&& e.span.start == recs[k].1
                    &&& e.span.end == recs[k].2
                    &&& e.sequence.spec_bytes() == self.text().subrange(recs[k].1, recs[k].2)
                }
            }),
    {
        let ghost recs = self.records();
        let n = self.records.len();
        let mut lo: usize = 0;
        let mut hi: usize = n;
        while lo < hi
            invariant
                lo <= hi <= n,
                n == recs.len(),
                recs == self.records(),
                self.wf(),
                forall|j: int| 0 <= j < lo ==> (#[trigger] recs[j]).1 < pos,
                forall|j: int| hi <= j < n ==> (#[trigger] recs[j]).1 >= pos,
            decreases hi - lo,
        {
            let mid = lo + (hi - lo) / 2;
            assert(recs[mid as int] == record_model(self.records@[mid as int]));
            if self.records[mid].span.start < pos {
                assert forall|j: int| 0 <= j <= mid implies (#[trigger] recs[j]).1 < pos by {
                    if j < mid {
                        assert(recs[j].2 <= recs[mid as int].1);
                    }
                }
                lo = mid + 1;
            } else {
                assert(recs[mid as int].1 >= pos);
                assert(recs[mid as int].1 <= recs[mid as int].2);
                assert forall|j: int| mid <= j < n implies (#[trigger] recs[j]).1 >= pos by {
                    if j > mid {
                        assert(recs[mid as int].2 <= recs[j].1);
                    }
                }
                hi = mid;
            }
        }
        proof {
            lemma_last_before(recs, pos as int, n as int);
        }
        if lo == 0 {
            return None;
        }
        let p = lo - 1;
        let id = self.records[p].id.as_str();
        assert(recs[p as int] == record_model(self.records@[p as int]));
        let k = match self.find(id) {
            Some(k) => k,
            None => {
                proof {
                    lemma_last_named(recs, recs[p as int].0, n as int);
                }
                return None;
            },
        };
        let span = self.records[k].span;
        proof {
            lemma_last_named(recs, recs[p as int].0, n as int);
            assert(recs[k as int] == record_model(self.records@[k as int]));
        }
        match byte_slice(self.condensed.as_str(), span.start, span.end) {
            Some(sequence) => Some(Entry { id, sequence, span }),
            None => None,
        }
    }
}

/// Whether record `k` is the one that the identifier index holds for its name,
/// that is no later record bears the same identifier.
pub open spec fn indexed(recs: Seq<RecordModel>, k: int) -> bool {
    find_id(recs, recs[k].0) == k
}

/// The names of the identifier index, each once, in the file order of the records
/// that the index holds for them (among the first `n` records).
pub open spec fn names(recs: Seq<RecordModel>, n: int) -> Seq<Seq<u8>>
    decreases n,
{
    if n <= 0 {
        seq![]
    } else if indexed(recs, n - 1) {
        names(recs, n - 1).push(recs[n - 1].0)
    } else {
        names(recs, n - 1)
    }
}

/// The flattened form of the identifier index over the first `n` records: for
/// each entry, its identifier on one line and its whole sequence on the next.
pub open spec fn flat_upto(recs: Seq<RecordModel>, text: Seq<u8>, n: int) -> Seq<u8>
    decreases n,
{
    if n <= 0 {
        seq![]
    } else if indexed(recs, n - 1) {
        let r = recs[n - 1];
        flat_upto(recs, text, n - 1) + r.0 + seq![NEWLINE] + text.subrange(r.1, r.2) + seq![
            NEWLINE,
        ]
    } else {
        flat_upto(recs, text, n - 1)
    }
}

/// The flattened form of the identifier index: one pair of lines per name.
pub open spec fn flat(recs: Seq<RecordModel>, text: Seq<u8>) -> Seq<u8> {
    flat_upto(recs, text, recs.len() as int)
}

/// Appends `b` to `out`, byte by byte.
fn put(out: &mut Vec<u8>, b: &[u8])
    ensures
        final(out)@ == old(out)@ + b@,
{
    let mut i: usize = 0;
    while i < b.len()
        invariant
            i <= b@.len(),
            out@ == old(out)@ + b@.take(i as int),
        decreases b@.len() - i,
    {
        out.push(b[i]);
        i = i + 1;
        assert(b@.take(i as int) =~= b@.take(i - 1) + seq![b@[i - 1]]);
    }
    assert(b@.take(i as int) =~= b@);
}

impl Genome {
    /// Whether record `k` is the identifier index's entry for its name.
    fn is_indexed(&self, k: usize) -> (r: bool)
        requires
            k < self.records@.len(),
        ensures
            r == indexed(self.records(), k as int),
    {
        let ghost recs = self.records();
        let n = self.records.len();
        let id = self.records[k].id.as_str();
        assert(recs[k as int] == record_model(self.records@[k as int]));
        let mut j = k + 1;
        while j < n
            invariant
                k < j <= n,
                n == recs.len(),
                recs == self.records(),
                id.spec_bytes() == recs[k as int].0,
                forall|i: int| k < i < j ==> (#[trigger] recs[i]).0 != recs[k as int].0,
            decreases n - j,
        {
            assert(recs[j as int] == record_model(self.records@[j as int]));
            if same_text(self.records[j].id.as_str(), id) {
                proof {
                    lemma_last_named(recs, recs[k as int].0, n as int);
                    let r = find_id(recs, recs[k as int].0);
                    if r == k {
                        assert(recs[j as int].0 == recs[k as int].0);
                    }
                }
                return false;
            }
            j = j + 1;
        }
        proof {
            lemma_last_named(recs, recs[k as int].0, n as int);
            let r = find_id(recs, recs[k as int].0);
            if r < k {
                assert(recs[k as int].0 == recs[k as int].0);
            }
        }
        true
    }

    /// The names of the identifier index, each once, in file order.
    pub fn identifiers(&self) -> (r: Vec<&str>)
        ensures
            r@.len() == names(self.records(), self.records().len() as int).len(),
            forall|i: int|
                0 <= i < r@.len() ==> (#[trigger] r@[i]).spec_bytes() == names(
                    self.records(),
                    self.records().len() as int,
                )[i],
    {
        let ghost recs = self.records();
        let mut out: Vec<&str> = Vec::new();
        let mut i: usize = 0;
        while i < self.records.len()
            invariant
                i <= self.records@.len(),
                recs == self.records(),
                out@.len() == names(recs, i as int).len(),
                forall|j: int|
                    0 <= j < out@.len() ==> (#[trigger] out@[j]).spec_bytes() == names(
                        recs,
                        i as int,
                    )[j],
            decreases self.records@.len() - i,
        {
            assert(recs[i as int] == record_model(self.records@[i as int]));
            if self.is_indexed(i) {
                out.push(self.records[i].id.as_str());
            }
            i = i + 1;
        }
        out
    }

    /// The bytes of the flattened file: for each name of the identifier index,
    /// in file order, the identifier and its sequence, each on a line of its own.
    pub fn flattened(&self) -> (r: Vec<u8>)
        requires
            self.wf(),
        ensures
            r@ == flat(self.records(), self.text()),
    {
        let ghost recs = self.records();
        let c = self.condensed.as_str().as_bytes();
        let mut out: Vec<u8> = Vec::new();
        let mut i: usize = 0;
        while i < self.records.len()
            invariant
                i <= self.records@.len(),
                recs == self.records(),
                self.wf(),
                c@ == self.text(),
                out@ == flat_upto(recs, self.text(), i as int),
            decreases self.records@.len() - i,
        {
            let rec = &self.records[i];
            assert(recs[i as int] == record_model(self.records@[i as int]));
            assert(0 <= recs[i as int].1 <= recs[i as int].2 <= c@.len());
            if self.is_indexed(i) {
                put(&mut out, rec.id.as_str().as_bytes());
                out.push(NEWLINE);
                put(&mut out, slice_subrange(c, rec.span.start, rec.span.end));
                out.push(NEWLINE);
            }
            i = i + 1;
        }
        out
    }
}

impl Genome {
    /// How many records were loaded.
    pub fn record_count(&self) -> (r: usize)
        ensures
            r == self.records().len(),
    {
        self.records.len()
    }

    /// Record `k` in file order, with its own span and sequence.
    pub fn record(&self, k: usize) -> (r: Option<Entry<'_>>)
        requires
            self.wf(),
        ensures
            k >= self.records().len() ==> r.is_none(),
            k < self.records().len() ==> r.is_some() && {
                let e = r.unwrap();
                let rec = self.records()[k as int];
                &&& e.id.spec_bytes() == rec.0
                &&& e.span.start == rec.1
                &&& e.span.end == rec.2
                &&& e.sequence.spec_bytes() == self.text().subrange(rec.1, rec.2)
            },
    {
        if k >= self.records.len() {
            return None;
        }
        let rec = &self.records[k];
        assert(self.records()[k as int] == record_model(self.records@[k as int]));
        assert(0 <= self.records()[k as int].1 <= self.records()[k as int].2);
        let c = self.condensed.as_str();
        match byte_slice(c, rec.span.start, rec.span.end) {
            Some(sequence) => Some(Entry { id: rec.id.as_str(), sequence, span: rec.span }),
            None => None,
        }
    }
}

/// Once a prefix of the lines fails, the whole pass fails the same way.
pub proof fn lemma_scan_err_prefix(ls: Seq<Seq<u8>>, n: int)
    requires
        1 <= n <= ls.len(),
        scan(ls.take(n)).is_err(),
    ensures
        scan(ls) == scan(ls.take(n)),
    decreases ls.len() - n,
{
    if n < ls.len() {
        assert(ls.take(n + 1).drop_last() =~= ls.take(n));
        lemma_scan_err_prefix(ls, n + 1);
    } else {
        assert(ls.take(n) =~= ls);
    }
}

} // verus!
