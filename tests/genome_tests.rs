use genome::{Genome, ParseError, Pitchfork, Span};

const TWO: &str = ">ENSXXXXXXXXXXXXX1 desc\nACGT\nACGT\n>ENSXXXXXXXXXXXXX2 desc\nTTTT\n";

const THREE: &str = ">ENST00000000001 first\nAAAA\nCC\n>ENST00000000002 second\nGGG\n>ENST00000000003 third\nTT\nT";

fn lines_of(buf: &[u8]) -> Vec<Vec<u8>> {
    let mut it = Pitchfork::new(b'\n', buf);
    let mut out = Vec::new();
    while let Some(l) = it.next() {
        out.push(l.to_vec());
    }
    out
}

#[test]
fn lines_keep_trailing_fragment() {
    assert_eq!(lines_of(b"ab\ncd"), vec![b"ab".to_vec(), b"cd".to_vec()]);
}

#[test]
fn lines_final_delimiter_adds_nothing() {
    assert_eq!(lines_of(b"ab\ncd\n"), vec![b"ab".to_vec(), b"cd".to_vec()]);
}

#[test]
fn lines_of_empty_buffer() {
    assert!(lines_of(b"").is_empty());
}

#[test]
fn lines_of_delimiters_only() {
    assert_eq!(lines_of(b"\n\n"), vec![Vec::new(), Vec::new()]);
}

#[test]
fn lines_exhausted_stays_exhausted() {
    let mut it = Pitchfork::new(b'\n', b"x");
    assert_eq!(it.next(), Some(&b"x"[..]));
    assert_eq!(it.next(), None);
    assert_eq!(it.next(), None);
}

#[test]
fn scenario_two_records() {
    let g = Genome::parse(TWO.as_bytes()).unwrap();
    assert_eq!(g.record_count(), 2);
    let a = g.record(0).unwrap();
    assert_eq!(a.id, "ENSXXXXXXXXXXXX");
    assert_eq!(a.sequence, "ACGTACGT");
    assert_eq!(a.span, Span { start: 0, end: 8 });
    let b = g.record(1).unwrap();
    assert_eq!(b.sequence, "TTTT");
    assert_eq!(b.span, Span { start: 8, end: 12 });
    assert_eq!(g.condensed(), "ACGTACGTTTTT");
    let e = g.range(9).unwrap();
    assert_eq!(e.sequence, "TTTT");
    assert_eq!(e.span, Span { start: 8, end: 12 });
    assert!(g.record(2).is_none());
}

#[test]
fn every_record_is_indexed() {
    let g = Genome::parse(THREE.as_bytes()).unwrap();
    assert_eq!(g.record_count(), 3);
    let ids = ["ENST00000000001", "ENST00000000002", "ENST00000000003"];
    for (k, id) in ids.iter().enumerate() {
        let r = g.record(k).unwrap();
        assert_eq!(r.id, *id);
        assert_eq!(g.get_by_ensembl(id), Some(r.sequence));
        let e = g.range(r.span.start + 1).unwrap();
        assert_eq!(e.id, *id);
    }
}

#[test]
fn lookup_joins_sequence_lines() {
    let g = Genome::parse(THREE.as_bytes()).unwrap();
    assert_eq!(g.get_by_ensembl("ENST00000000001"), Some("AAAACC"));
    assert_eq!(g.get_by_ensembl("ENST00000000002"), Some("GGG"));
    assert_eq!(g.get_by_ensembl("ENST00000000003"), Some("TTT"));
    assert_eq!(g.get_by_ensembl("ENST00000000009"), None);
    assert_eq!(g.condensed(), "AAAACCGGGTTT");
}

#[test]
fn range_inside_each_record() {
    let g = Genome::parse(THREE.as_bytes()).unwrap();
    let e = g.range(3).unwrap();
    assert_eq!(e.id, "ENST00000000001");
    assert_eq!(e.sequence, "AAAACC");
    assert_eq!(e.span, Span { start: 0, end: 6 });
    let e = g.range(8).unwrap();
    assert_eq!(e.id, "ENST00000000002");
    assert_eq!(e.span, Span { start: 6, end: 9 });
    let e = g.range(11).unwrap();
    assert_eq!(e.id, "ENST00000000003");
    assert_eq!(e.sequence, "TTT");
}

#[test]
fn range_uses_strict_predecessor() {
    let g = Genome::parse(THREE.as_bytes()).unwrap();
    assert_eq!(g.range(6).unwrap().id, "ENST00000000001");
    assert_eq!(g.range(7).unwrap().id, "ENST00000000002");
    assert_eq!(g.range(1000).unwrap().id, "ENST00000000003");
}

#[test]
fn range_before_first_record_is_absent() {
    let g = Genome::parse(THREE.as_bytes()).unwrap();
    assert!(g.range(0).is_none());
}

#[test]
fn short_header_fails() {
    let r = Genome::parse(b">ENST0001\nACGT\n");
    assert_eq!(r.err(), Some(ParseError::HeaderTooShort));
}

#[test]
fn short_later_header_fails() {
    let r = Genome::parse(b">ENST00000000001 a\nACGT\n>short\nGG\n");
    assert_eq!(r.err(), Some(ParseError::HeaderTooShort));
}

#[test]
fn empty_input_fails() {
    assert_eq!(Genome::parse(b"").err(), Some(ParseError::HeaderTooShort));
}

#[test]
fn invalid_utf8_sequence_fails() {
    let r = Genome::parse(b">ENST00000000001 a\nAC\xffGT\n");
    assert_eq!(r.err(), Some(ParseError::InvalidUtf8));
}

#[test]
fn invalid_utf8_header_fails() {
    let r = Genome::parse(b">ENST00000000001 \xff\nACGT\n");
    assert_eq!(r.err(), Some(ParseError::InvalidUtf8));
}

#[test]
fn identifier_cutting_a_character_fails() {
    let r = Genome::parse(">ENST0000000000\u{e9} a\nACGT\n".as_bytes());
    assert_eq!(r.err(), Some(ParseError::SplitCharacter));
}

#[test]
fn empty_lines_add_nothing() {
    let g = Genome::parse(b">ENST00000000001 a\n\nAC\n\nGT\n").unwrap();
    assert_eq!(g.get_by_ensembl("ENST00000000001"), Some("ACGT"));
}

#[test]
fn header_without_sequence() {
    let g = Genome::parse(b">ENST00000000001 a\n>ENST00000000002 b\nGG").unwrap();
    assert_eq!(g.get_by_ensembl("ENST00000000001"), Some(""));
    assert_eq!(g.record(0).unwrap().span, Span { start: 0, end: 0 });
    assert_eq!(g.get_by_ensembl("ENST00000000002"), Some("GG"));
}

#[test]
fn repeated_identifier_keeps_last() {
    let g = Genome::parse(TWO.as_bytes()).unwrap();
    assert_eq!(g.get_by_ensembl("ENSXXXXXXXXXXXX"), Some("TTTT"));
    assert_eq!(g.range(5).unwrap().sequence, "TTTT");
    assert_eq!(g.range(5).unwrap().id, "ENSXXXXXXXXXXXX");
}

#[test]
fn multibyte_sequence_slices_by_bytes() {
    let g = Genome::parse(">ENST00000000001 a\nA\u{e9}\n>ENST00000000002 b\nC".as_bytes()).unwrap();
    assert_eq!(g.get_by_ensembl("ENST00000000001"), Some("A\u{e9}"));
    assert_eq!(g.record(1).unwrap().span, Span { start: 3, end: 4 });
    assert_eq!(g.range(4).unwrap().sequence, "C");
}

#[test]
fn flattened_two_lines_per_record() {
    let g = Genome::parse(THREE.as_bytes()).unwrap();
    let out = String::from_utf8(g.flattened()).unwrap();
    assert_eq!(
        out,
        "ENST00000000001\nAAAACC\nENST00000000002\nGGG\nENST00000000003\nTTT\n"
    );
}

#[test]
fn reloading_flattened_output_fails() {
    let g = Genome::parse(THREE.as_bytes()).unwrap();
    let out = g.flattened();
    assert_eq!(Genome::parse(&out).err(), Some(ParseError::HeaderTooShort));
}

#[test]
fn flattened_writes_each_identifier_once() {
    let g = Genome::parse(TWO.as_bytes()).unwrap();
    let out = String::from_utf8(g.flattened()).unwrap();
    assert_eq!(out, "ENSXXXXXXXXXXXX\nTTTT\n");
}

#[test]
fn flattened_keeps_last_of_repeated_name() {
    let g = Genome::parse(
        b">ENST00000000001 a\nAA\n>ENST00000000002 b\nCC\n>ENST00000000001 c\nGG\n",
    )
    .unwrap();
    let out = String::from_utf8(g.flattened()).unwrap();
    assert_eq!(out, "ENST00000000002\nCC\nENST00000000001\nGG\n");
    assert_eq!(g.get_by_ensembl("ENST00000000001"), Some("GG"));
}

#[test]
fn identifiers_list_each_name_once() {
    let g = Genome::parse(THREE.as_bytes()).unwrap();
    assert_eq!(
        g.identifiers(),
        vec!["ENST00000000001", "ENST00000000002", "ENST00000000003"]
    );
    let g = Genome::parse(TWO.as_bytes()).unwrap();
    assert_eq!(g.identifiers(), vec!["ENSXXXXXXXXXXXX"]);
}
