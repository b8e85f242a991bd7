//! What holds of every loaded genome and of the queries on it.
use vstd::prelude::*;
use vstd::utf8::valid_utf8;
use crate::lines::{lemma_line_len_bound, line_len, split_lines};
use crate::genome::{
    find_id, header_error, identifier, is_header, lemma_last_before, lemma_last_named,
    lemma_scan_err_prefix, flat, flat_upto, indexed, load, predecessor, scan, ParseError, ID_TO,
    Genome, RecordModel, NEWLINE,
};

verus! {

/// The records as the file lays them out: each header line (the first line
/// standing for one) with its data lines joined.
pub open spec fn groups(ls: Seq<Seq<u8>>) -> Seq<(Seq<u8>, Seq<u8>)>
    decreases ls.len(),
{
    if ls.len() <= 1 {
        seq![(if ls.len() == 0 { seq![] } else { ls[0] }, seq![])]
    } else {
        let g = groups(ls.drop_last());
        let l = ls.last();
        if is_header(l) {
            g.push((l, seq![]))
        } else if g.len() == 0 {
            g
        } else {
            g.update(g.len() - 1, (g.last().0, g.last().1 + l))
        }
    }
}

proof fn lemma_scan_groups(ls: Seq<Seq<u8>>)
    requires
        scan(ls).is_ok(),
    ensures
        ({
            let st = scan(ls).unwrap();
            let gs = groups(ls);
            &&& gs.len() == st.done.len() + 1
            &&& forall|k: int| 0 <= k < gs.len() ==> (#[trigger] gs[k]).0.len() >= ID_TO
            &&& 0 <= st.start <= st.text.len()
            &&& st.held == identifier(gs.last().0)
            &&& st.text.subrange(st.start, st.text.len() as int) == gs.last().1
            &&& forall|k: int|
                0 <= k < st.done.len() ==> (#[trigger] st.done[k]).0 == identifier(gs[k].0) && 0
                    <= st.done[k].1 <= st.done[k].2 <= st.text.len() && st.text.subrange(
                    st.done[k].1,
                    st.done[k].2,
                ) == gs[k].1
        }),
    decreases ls.len(),
{
    if ls.len() <= 1 {
        let st = scan(ls).unwrap();
        assert(st.text.subrange(0, 0) =~= Seq::<u8>::empty());
    } else {
        let prev = ls.drop_last();
        lemma_scan_groups(prev);
        let st0 = scan(prev).unwrap();
        let gs0 = groups(prev);
        let st = scan(ls).unwrap();
        let l = ls.last();
        if is_header(l) {
            assert(st.text.subrange(st.start, st.text.len() as int) =~= Seq::<u8>::empty());
            assert forall|k: int| 0 <= k < st.done.len() implies (#[trigger] st.done[k]).0
                == identifier(groups(ls)[k].0) && 0 <= st.done[k].1 <= st.done[k].2
                <= st.text.len() && st.text.subrange(st.done[k].1, st.done[k].2) == groups(
                ls,
            )[k].1 by {
                if k < st0.done.len() {
                    assert(st.done[k] == st0.done[k]);
                }
            }
        } else {
            let t0 = st0.text;
            assert(st.text == t0 + l);
            assert(st.text.subrange(st.start, st.text.len() as int) =~= t0.subrange(
                st0.start,
                t0.len() as int,
            ) + l);
            assert forall|k: int| 0 <= k < st.done.len() implies (#[trigger] st.done[k]).0
                == identifier(groups(ls)[k].0) && 0 <= st.done[k].1 <= st.done[k].2
                <= st.text.len() && st.text.subrange(st.done[k].1, st.done[k].2) == groups(
                ls,
            )[k].1 by {
                assert(st.done[k] == st0.done[k]);
                assert(st.text.subrange(st.done[k].1, st.done[k].2) =~= t0.subrange(
                    st0.done[k].1,
                    st0.done[k].2,
                ));
            }
        }
    }
}

/// Every header line (the first line standing for one) can give an identifier,
/// and every other line is valid UTF-8.
pub open spec fn well_formed(ls: Seq<Seq<u8>>) -> bool {
    &&& ls.len() > 0
    &&& forall|i: int|
        0 <= i < ls.len() ==> if i == 0 || is_header(#[trigger] ls[i]) {
            header_error(ls[i]).is_none()
        } else {
            valid_utf8(ls[i])
        }
}

proof fn lemma_scan_ok(ls: Seq<Seq<u8>>, n: int)
    requires
        well_formed(ls),
        1 <= n <= ls.len(),
    ensures
        scan(ls.take(n)).is_ok(),
    decreases n,
{
    let pre = ls.take(n);
    assert(pre.last() == ls[n - 1]);
    if n == 1 {
        assert(pre =~= seq![ls[0]]);
    } else {
        assert(pre.drop_last() =~= ls.take(n - 1));
        lemma_scan_ok(ls, n - 1);
    }
}

/// Well-formed input always loads.
pub proof fn law_well_formed_loads(buf: Seq<u8>)
    requires
        well_formed(split_lines(buf, NEWLINE)),
    ensures
        load(buf).is_ok(),
{
    let ls = split_lines(buf, NEWLINE);
    lemma_scan_ok(ls, ls.len() as int);
    assert(ls.take(ls.len() as int) =~= ls);
}

/// Loading loses no record: there is one record for each header line of the
/// file, in file order, each named by its header's identifier and holding
/// exactly its data lines joined without their newlines.
pub proof fn law_records_follow_file(buf: Seq<u8>)
    requires
        load(buf).is_ok(),
    ensures
        ({
            let recs = load(buf).unwrap().0;
            let text = load(buf).unwrap().1;
            let gs = groups(split_lines(buf, NEWLINE));
            &&& recs.len() == gs.len()
            &&& forall|k: int|
                0 <= k < recs.len() ==> (#[trigger] recs[k]).0 == identifier(gs[k].0)
                    && text.subrange(recs[k].1, recs[k].2) == gs[k].1
        }),
{
    let ls = split_lines(buf, NEWLINE);
    lemma_scan_groups(ls);
    let st = scan(ls).unwrap();
    let recs = load(buf).unwrap().0;
    let gs = groups(ls);
    assert forall|k: int| 0 <= k < recs.len() implies (#[trigger] recs[k]).0 == identifier(
        gs[k].0,
    ) && load(buf).unwrap().1.subrange(recs[k].1, recs[k].2) == gs[k].1 by {
        if k < st.done.len() {
            assert(recs[k] == st.done[k]);
        }
    }
}

/// Looking an identifier up after a load gives back exactly the data lines, joined,
/// of the record that the identifier index holds for it, and that record's header
/// carries the identifier.
pub proof fn law_lookup_round_trip(buf: Seq<u8>, id: Seq<u8>)
    requires
        load(buf).is_ok(),
        find_id(load(buf).unwrap().0, id) >= 0,
    ensures
        ({
            let recs = load(buf).unwrap().0;
            let text = load(buf).unwrap().1;
            let gs = groups(split_lines(buf, NEWLINE));
            let k = find_id(recs, id);
            &&& identifier(gs[k].0) == id
            &&& text.subrange(recs[k].1, recs[k].2) == gs[k].1
        }),
{
    let recs = load(buf).unwrap().0;
    law_records_follow_file(buf);
    lemma_scan_groups(split_lines(buf, NEWLINE));
    lemma_last_named(recs, id, recs.len() as int);
    let k = find_id(recs, id);
    assert(recs[k].0 == id);
}

/// No two records share an identifier.
pub open spec fn distinct_ids(recs: Seq<RecordModel>) -> bool {
    forall|i: int, j: int| 0 <= i < j < recs.len() ==> #[trigger] recs[i].0 != #[trigger] recs[j].0
}

proof fn lemma_find_distinct(recs: Seq<RecordModel>)
    ensures
        distinct_ids(recs) ==> forall|k: int|
            0 <= k < recs.len() ==> find_id(recs, (#[trigger] recs[k]).0) == k,
{
    let n = recs.len() as int;
    if distinct_ids(recs) {
        assert forall|k: int| 0 <= k < n implies find_id(recs, (#[trigger] recs[k]).0) == k by {
            lemma_last_named(recs, recs[k].0, n);
            let r = find_id(recs, recs[k].0);
            if r > k {
                assert(recs[k].0 != recs[r].0);
            } else if r < k {
                assert(recs[k].0 != recs[k].0);
            }
        }
    }
}

/// Well-formed input with N header lines of pairwise distinct identifiers loads
/// into N records, and the identifier index holds each of them under its own name:
/// N entries.
pub proof fn law_one_entry_per_header(buf: Seq<u8>)
    requires
        well_formed(split_lines(buf, NEWLINE)),
        forall|i: int, j: int|
            0 <= i < j < groups(split_lines(buf, NEWLINE)).len() ==> identifier(
                #[trigger] groups(split_lines(buf, NEWLINE))[i].0,
            ) != identifier(#[trigger] groups(split_lines(buf, NEWLINE))[j].0),
    ensures
        load(buf).is_ok(),
        load(buf).unwrap().0.len() == groups(split_lines(buf, NEWLINE)).len(),
        forall|k: int|
            0 <= k < load(buf).unwrap().0.len() ==> find_id(
                load(buf).unwrap().0,
                (#[trigger] load(buf).unwrap().0[k]).0,
            ) == k,
{
    law_well_formed_loads(buf);
    law_records_follow_file(buf);
    let recs = load(buf).unwrap().0;
    let gs = groups(split_lines(buf, NEWLINE));
    assert forall|i: int, j: int| 0 <= i < j < recs.len() implies #[trigger] recs[i].0
        != #[trigger] recs[j].0 by {
        assert(recs[i].0 == identifier(gs[i].0));
        assert(recs[j].0 == identifier(gs[j].0));
    }
    lemma_find_distinct(recs);
}

/// With distinct identifiers, the identifier index holds every record under its
/// own name; with non-empty sequences, the position index holds every record at
/// its own start. So both indexes have one entry per record, under matching keys.
pub proof fn law_indexes_complete(g: &Genome)
    requires
        g.wf(),
    ensures
        distinct_ids(g.records()) ==> forall|k: int|
            0 <= k < g.records().len() ==> find_id(g.records(), (#[trigger] g.records()[k]).0)
                == k,
        (forall|k: int| 0 <= k < g.records().len() ==> #[trigger] g.records()[k].1 < g.records()[k].2)
            ==> forall|k: int|
            0 <= k < g.records().len() ==> predecessor(g.records(), (#[trigger] g.records()[k]).1 + 1)
                == k,
{
    let recs = g.records();
    let n = recs.len() as int;
    lemma_find_distinct(recs);
    if forall|k: int| 0 <= k < n ==> #[trigger] recs[k].1 < recs[k].2 {
        assert forall|k: int| 0 <= k < n implies predecessor(recs, (#[trigger] recs[k]).1 + 1) == k by {
            lemma_range_inside(g, k, recs[k].1 + 1);
        }
    }
}

proof fn lemma_range_inside(g: &Genome, k: int, pos: int)
    requires
        g.wf(),
        0 <= k < g.records().len(),
        g.records()[k].1 < pos <= g.records()[k].2,
    ensures
        predecessor(g.records(), pos) == k,
{
    let recs = g.records();
    let n = recs.len() as int;
    lemma_last_before(recs, pos, n);
    let r = predecessor(recs, pos);
    if r > k {
        assert(recs[k].2 <= recs[r].1);
    } else if r < k {
        assert(recs[k].1 >= pos);
    }
}

/// A position strictly inside a record's span leads to that record: the position
/// index gives it, and, identifiers being distinct, the identifier index gives its
/// own span and sequence back.
pub proof fn law_range_inside(g: &Genome, k: int, pos: int)
    requires
        g.wf(),
        0 <= k < g.records().len(),
        g.records()[k].1 < pos < g.records()[k].2,
    ensures
        predecessor(g.records(), pos) == k,
        distinct_ids(g.records()) ==> find_id(g.records(), g.records()[k].0) == k,
{
    lemma_range_inside(g, k, pos);
    law_indexes_complete(g);
}

/// No record precedes a position at or before the first record's start.
pub proof fn law_range_before_first(g: &Genome, pos: int)
    requires
        g.wf(),
        g.records().len() > 0,
        pos <= g.records()[0].1,
    ensures
        predecessor(g.records(), pos) < 0,
{
    let recs = g.records();
    let n = recs.len() as int;
    lemma_last_before(recs, pos, n);
    let r = predecessor(recs, pos);
    if r > 0 {
        assert(recs[0].2 <= recs[r].1);
    }
}

/// A header line too short to hold the identifier makes the whole load fail; it
/// is never truncated.
pub proof fn law_short_header_fails(buf: Seq<u8>, i: int)
    requires
        0 <= i < split_lines(buf, NEWLINE).len(),
        i == 0 || is_header(split_lines(buf, NEWLINE)[i]),
        split_lines(buf, NEWLINE)[i].len() < ID_TO,
    ensures
        load(buf).is_err(),
{
    let ls = split_lines(buf, NEWLINE);
    let pre = ls.take(i + 1);
    assert(pre.last() == ls[i]);
    if i == 0 {
        assert(pre =~= seq![ls[0]]);
    } else {
        assert(pre.drop_last() =~= ls.take(i));
    }
    assert(header_error(ls[i]) == Some(ParseError::HeaderTooShort));
    assert(scan(pre).is_err());
    lemma_scan_err_prefix(ls, i + 1);
}

/// Where the flattened bytes are not empty, their first line is an identifier:
/// a newline stands right after its last byte.
proof fn lemma_flat_first_line(recs: Seq<RecordModel>, text: Seq<u8>, n: int)
    requires
        0 <= n <= recs.len(),
        forall|k: int| 0 <= k < recs.len() ==> (#[trigger] recs[k]).0.len() == ID_TO - 1,
        flat_upto(recs, text, n).len() > 0,
    ensures
        flat_upto(recs, text, n).len() > ID_TO - 1,
        flat_upto(recs, text, n)[ID_TO - 1] == NEWLINE,
    decreases n,
{
    let prev = flat_upto(recs, text, n - 1);
    if prev.len() > 0 {
        lemma_flat_first_line(recs, text, n - 1);
    } else {
        let r = recs[n - 1];
        assert(indexed(recs, n - 1));
        assert(r.0.len() == ID_TO - 1);
        let piece = r.0 + seq![NEWLINE] + text.subrange(r.1, r.2) + seq![NEWLINE];
        assert(flat_upto(recs, text, n) =~= prev + piece);
        assert(piece[ID_TO - 1] == NEWLINE);
    }
}

/// The flattened form of a loaded genome does not load back: its first line is a
/// bare identifier, one byte shorter than a header must be.
pub proof fn law_flattened_does_not_reload(buf: Seq<u8>)
    requires
        load(buf).is_ok(),
    ensures
        load(flat(load(buf).unwrap().0, load(buf).unwrap().1)).is_err(),
{
    let recs = load(buf).unwrap().0;
    let text = load(buf).unwrap().1;
    law_records_follow_file(buf);
    lemma_scan_groups(split_lines(buf, NEWLINE));
    let gs = groups(split_lines(buf, NEWLINE));
    assert forall|k: int| 0 <= k < recs.len() implies (#[trigger] recs[k]).0.len() == ID_TO - 1 by {
        assert(gs[k].0.len() >= ID_TO);
    }
    let n = recs.len() as int;
    assert(indexed(recs, n - 1));
    let out = flat(recs, text);
    let r = recs[n - 1];
    assert(out =~= flat_upto(recs, text, n - 1) + (r.0 + seq![NEWLINE] + text.subrange(r.1, r.2)
        + seq![NEWLINE]));
    lemma_flat_first_line(recs, text, n);
    lemma_line_len_bound(out, NEWLINE);
    assert(line_len(out, NEWLINE) <= ID_TO - 1);
    assert(split_lines(out, NEWLINE)[0] == out.subrange(0, line_len(out, NEWLINE) as int));
    law_short_header_fails(out, 0);
}

} // verus!
