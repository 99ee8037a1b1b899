use std::io::Write;

use kseq::dispatch::{resolve_source, Resolved};
use kseq::record::{Fastx, ParseError, Reader, Readers};
use kseq::Paths;

fn reader_of(input: &[u8]) -> Reader {
    match resolve_source(input.to_vec()) {
        Ok(Resolved::Records(r)) => r,
        Ok(Resolved::Manifest(_)) => panic!("expected a record stream, got a manifest"),
        Err(e) => panic!("resolution failed: {:?}", e),
    }
}

fn all_records(reader: &mut Reader) -> Vec<Fastx> {
    let mut out = Vec::new();
    while let Some(record) = reader.iter_record().unwrap() {
        out.push(record);
    }
    out
}

fn gzip_bytes(data: &[u8]) -> Vec<u8> {
    let mut enc = flate2::write::GzEncoder::new(Vec::new(), flate2::Compression::default());
    enc.write_all(data).unwrap();
    enc.finish().unwrap()
}

/// Resolve a source recursively against an in-memory set of files, the way
/// a caller with a real filesystem would flatten manifests.
fn resolve_tree(bytes: Vec<u8>, files: &[(&str, &[u8])]) -> Readers {
    let mut out = Readers::new();
    match resolve_source(bytes).unwrap() {
        Resolved::Records(r) => out.push(r),
        Resolved::Manifest(paths) => {
            for p in paths {
                let name = String::from_utf8(p).unwrap();
                let content = files
                    .iter()
                    .find(|(n, _)| *n == name)
                    .unwrap_or_else(|| panic!("no such listed file: {}", name))
                    .1;
                let sub = resolve_tree(content.to_vec(), files);
                out.append(sub);
            }
        }
    }
    out
}

#[test]
fn two_short_records_with_descriptions() {
    let mut r = reader_of(b">1 rec1\nATGC\n>2 rec2\nATGC");
    let recs = all_records(&mut r);
    assert_eq!(recs.len(), 2);
    assert_eq!(recs[0].head(), b"1".to_vec());
    assert_eq!(recs[1].head(), b"2".to_vec());
    assert_eq!(recs[0].des(), b"rec1".to_vec());
    assert_eq!(recs[1].des(), b"rec2".to_vec());
    assert_eq!(recs[0].seq(), b"ATGC".to_vec());
    assert_eq!(recs[1].seq(), b"ATGC".to_vec());
    let total: usize = recs.iter().map(|r| r.len()).sum();
    assert_eq!(total, 8);
    assert!(recs[0].is_fasta());
    assert!(!recs[0].is_fastq());
    assert!(!recs[0].is_empty());
    assert_eq!(recs[0].sep(), Vec::<u8>::new());
    assert_eq!(recs[0].qual(), Vec::<u8>::new());
}

#[test]
fn one_long_record_with_quality() {
    let mut r = reader_of(b"@1 rec1\nATGC\n+\n!!!!\n");
    let recs = all_records(&mut r);
    assert_eq!(recs.len(), 1);
    assert_eq!(recs[0].head(), b"1".to_vec());
    assert_eq!(recs[0].des(), b"rec1".to_vec());
    assert_eq!(recs[0].seq(), b"ATGC".to_vec());
    assert_eq!(recs[0].qual(), b"!!!!".to_vec());
    assert_eq!(recs[0].sep(), b"+".to_vec());
    assert_eq!(recs[0].len(), 4);
    assert!(recs[0].is_fastq());
    assert!(!recs[0].is_fasta());
}

#[test]
fn long_record_quality_always_matches_sequence() {
    let mut r = reader_of(b"@a x\nAT\nGCAA\n+extra\n!!\n#%!\n!\n@b y\nTT\n+\n##\n");
    let recs = all_records(&mut r);
    assert_eq!(recs.len(), 2);
    for rec in &recs {
        assert!(rec.is_fastq());
        assert_eq!(rec.qual().len(), rec.seq().len());
    }
    assert_eq!(recs[0].seq(), b"ATGCAA".to_vec());
    assert_eq!(recs[0].qual(), b"!!#%!!".to_vec());
    assert_eq!(recs[0].sep(), b"+extra".to_vec());
}

#[test]
fn truncated_header_only() {
    let mut r = Reader::new(b"@id".to_vec());
    assert!(matches!(
        r.iter_record(),
        Err(ParseError::TruncateFile(_))
    ));
}

#[test]
fn truncated_missing_separator() {
    let mut r = reader_of(b"@id\nSEQSEQ");
    assert!(matches!(
        r.iter_record(),
        Err(ParseError::TruncateFile(_))
    ));
}

#[test]
fn truncated_missing_quality() {
    let mut r = reader_of(b"@id\nSEQSEQ\n+");
    assert!(matches!(
        r.iter_record(),
        Err(ParseError::TruncateFile(_))
    ));
}

#[test]
fn malformed_leading_byte() {
    let mut r = Reader::new(b"+id\nATGC\n".to_vec());
    match r.iter_record() {
        Err(ParseError::InvalidFastx(line)) => assert_eq!(line, b"+id".to_vec()),
        other => panic!("expected InvalidFastx, got ok={}", other.is_ok()),
    }
}

#[test]
fn malformed_short_form_empty_sequence() {
    let mut r = reader_of(b">id1\n\n>id2\nATGC\n");
    match r.iter_record() {
        Err(ParseError::InvalidFasta(ident)) => assert_eq!(ident, b"id1".to_vec()),
        other => panic!("expected InvalidFasta, got ok={}", other.is_ok()),
    }
}

#[test]
fn malformed_long_form_length_mismatch() {
    let mut r = reader_of(b"@id z\nATGC\n+\n!!!\n");
    match r.iter_record() {
        Err(ParseError::InvalidFastq(ident)) => assert_eq!(ident, b"id".to_vec()),
        other => panic!("expected InvalidFastq, got ok={}", other.is_ok()),
    }
}

#[test]
fn empty_and_blank_sources_end_cleanly() {
    let mut r = Reader::new(Vec::new());
    assert!(matches!(r.iter_record(), Ok(None)));
    let mut r = Reader::new(b"\n\n  \n\t\n".to_vec());
    assert!(matches!(r.iter_record(), Ok(None)));
}

#[test]
fn blank_lines_between_records_are_skipped() {
    let mut r = reader_of(b">1 a\nATGC\n\n\n>2 b\nGGTT\n");
    let recs = all_records(&mut r);
    assert_eq!(recs.len(), 2);
    assert_eq!(recs[1].seq(), b"GGTT".to_vec());
}

#[test]
fn concatenated_records_parse_as_each_alone() {
    let one = b">1 rec1\nAT\nGC\n";
    let two = b">2 rec2\nTTAA\n";
    let mut both = one.to_vec();
    both.extend_from_slice(two);
    let mut r_both = Reader::new(both);
    let recs = all_records(&mut r_both);
    let mut r_one = Reader::new(one.to_vec());
    let mut r_two = Reader::new(two.to_vec());
    let alone1 = all_records(&mut r_one);
    let alone2 = all_records(&mut r_two);
    assert_eq!(recs.len(), 2);
    assert_eq!(alone1.len(), 1);
    assert_eq!(alone2.len(), 1);
    assert_eq!(recs[0].head(), alone1[0].head());
    assert_eq!(recs[0].seq(), alone1[0].seq());
    assert_eq!(recs[0].seq(), b"ATGC".to_vec());
    assert_eq!(recs[1].head(), alone2[0].head());
    assert_eq!(recs[1].seq(), alone2[0].seq());
}

#[test]
fn readers_chain_preserves_order() {
    let mut chain = Readers::new();
    chain.push(Reader::new(b">1 a\nAAAA\n".to_vec()));
    chain.push(Reader::new(b">2 b\nCCCC\n>3 c\nGGGG\n".to_vec()));
    let mut heads = Vec::new();
    while let Some(rec) = chain.iter_record().unwrap() {
        heads.push(rec.head());
    }
    assert_eq!(
        heads,
        vec![b"1".to_vec(), b"2".to_vec(), b"3".to_vec()]
    );
}

#[test]
fn readers_empty_chain_ends() {
    let mut chain = Readers::new();
    assert!(matches!(chain.iter_record(), Ok(None)));
    let mut chain = Readers::default();
    assert!(matches!(chain.iter_record(), Ok(None)));
}

#[test]
fn paths_wraps_both_shapes() {
    let mut one = Paths::Reader(Reader::new(b">1 a\nAAAA\n".to_vec()));
    let rec = one.iter_record().unwrap().unwrap();
    assert_eq!(rec.head(), b"1".to_vec());
    assert!(matches!(one.iter_record(), Ok(None)));
    let mut chain = Readers::new();
    chain.push(Reader::new(b"@2 b\nCC\n+\n!!\n".to_vec()));
    let mut many = Paths::Readers(chain);
    let rec = many.iter_record().unwrap().unwrap();
    assert_eq!(rec.head(), b"2".to_vec());
    assert!(matches!(many.iter_record(), Ok(None)));
}

#[test]
fn manifest_lines_are_trimmed_and_filtered() {
    let src = b"# a comment\n  first.fa  \n\n\t\nsecond.fa\n# another\nthird.fa";
    match resolve_source(src.to_vec()).unwrap() {
        Resolved::Manifest(paths) => {
            assert_eq!(
                paths,
                vec![
                    b"first.fa".to_vec(),
                    b"second.fa".to_vec(),
                    b"third.fa".to_vec()
                ]
            );
        },
        Resolved::Records(_) => panic!("expected a manifest"),
    }
}

#[test]
fn manifest_of_two_files_concatenates_their_records() {
    let file1: &[u8] = b">1 a\nAAAA\n";
    let file2: &[u8] = b">2 b\nCCCC\n";
    let files: Vec<(&str, &[u8])> = vec![("one.fa", file1), ("two.fa", file2)];
    let mut chain = resolve_tree(b"one.fa\ntwo.fa\n".to_vec(), &files);
    let mut heads = Vec::new();
    while let Some(rec) = chain.iter_record().unwrap() {
        heads.push(rec.head());
    }
    assert_eq!(heads, vec![b"1".to_vec(), b"2".to_vec()]);
}

#[test]
fn nested_manifest_flattens_in_listed_order() {
    let file1: &[u8] = b">1 a\nAAAA\n";
    let file2: &[u8] = b">2 b\nCCCC\n";
    let file3: &[u8] = b">3 c\nGGGG\n";
    let inner: &[u8] = b"two.fa\nthree.fa\n";
    let files: Vec<(&str, &[u8])> = vec![
        ("one.fa", file1),
        ("two.fa", file2),
        ("three.fa", file3),
        ("inner.fofn", inner),
    ];
    let mut chain = resolve_tree(b"one.fa\ninner.fofn\n".to_vec(), &files);
    let mut heads = Vec::new();
    while let Some(rec) = chain.iter_record().unwrap() {
        heads.push(rec.head());
    }
    assert_eq!(
        heads,
        vec![b"1".to_vec(), b"2".to_vec(), b"3".to_vec()]
    );
}

#[test]
fn gzip_round_trip_matches_plain_parse() {
    let cases: Vec<&[u8]> = vec![
        b">1 rec1\nATGC\n>2 rec2\nATGC",
        b"@1 rec1\nATGC\n+\n!!!!\n",
        b">1 record1\nATGCATGCATGC\n>2 record2\nATGCATGCATGC",
    ];
    for plain in cases {
        let zipped = gzip_bytes(plain);
        assert_ne!(zipped, plain.to_vec());
        let mut direct = reader_of(plain);
        let mut thawed = match resolve_source(zipped).unwrap() {
            Resolved::Records(r) => r,
            Resolved::Manifest(_) => panic!("expected a record stream"),
        };
        let a = all_records(&mut direct);
        let b = all_records(&mut thawed);
        assert_eq!(a.len(), b.len());
        for (x, y) in a.iter().zip(b.iter()) {
            assert_eq!(x.head(), y.head());
            assert_eq!(x.des(), y.des());
            assert_eq!(x.seq(), y.seq());
            assert_eq!(x.sep(), y.sep());
            assert_eq!(x.qual(), y.qual());
        }
    }
}

#[test]
fn gzip_of_manifest_is_sniffed_after_unwrapping() {
    let zipped = gzip_bytes(b"alpha.fa\nbeta.fa\n");
    match resolve_source(zipped).unwrap() {
        Resolved::Manifest(paths) => {
            assert_eq!(paths, vec![b"alpha.fa".to_vec(), b"beta.fa".to_vec()]);
        },
        Resolved::Records(_) => panic!("expected a manifest"),
    }
}

#[test]
fn corrupt_gzip_reports_io_error() {
    let mut zipped = gzip_bytes(b">1 a\nAAAA\n");
    let n = zipped.len();
    zipped.truncate(n - 4);
    assert!(matches!(
        resolve_source(zipped),
        Err(ParseError::Io(_))
    ));
}

#[test]
fn short_source_is_truncated() {
    assert!(matches!(
        resolve_source(b">a\n".to_vec()),
        Err(ParseError::TruncateFile(_))
    ));
}

#[test]
fn error_messages_name_the_kind() {
    assert_eq!(
        ParseError::TruncateFile(Vec::new()).message(),
        "truncated record"
    );
    assert_eq!(
        ParseError::InvalidFastx(Vec::new()).message(),
        "not a fastx record"
    );
    assert_eq!(
        ParseError::InvalidFasta(Vec::new()).message(),
        "not a valid fasta record"
    );
    assert_eq!(
        ParseError::InvalidFastq(Vec::new()).message(),
        "not a valid fastq record"
    );
    assert_eq!(ParseError::Io(String::new()).message(), "IO error");
}

#[test]
fn header_without_description() {
    let mut r = reader_of(b">x\nAAAA\n");
    let recs = all_records(&mut r);
    assert_eq!(recs.len(), 1);
    assert_eq!(recs[0].head(), b"x".to_vec());
    assert_eq!(recs[0].des(), Vec::<u8>::new());
    assert_eq!(recs[0].seq(), b"AAAA".to_vec());
}

#[test]
fn manifest_with_carriage_returns_is_trimmed() {
    match resolve_source(b"alpha.fa\r\nbeta.fa\r\n".to_vec()).unwrap() {
        Resolved::Manifest(paths) => {
            assert_eq!(paths, vec![b"alpha.fa".to_vec(), b"beta.fa".to_vec()]);
        }
        Resolved::Records(_) => panic!("expected a manifest"),
    }
}
