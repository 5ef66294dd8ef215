use std::io::Write;

use flate2::write::GzEncoder;
use flate2::Compression;
use polypolish::{
    check_load_fasta, first_token_of, is_gzip_magic, load_fasta, parse_records, split_lines,
    FastaError,
};

fn gz(data: &[u8]) -> Vec<u8> {
    let mut e = GzEncoder::new(Vec::new(), Compression::default());
    e.write_all(data).unwrap();
    e.finish().unwrap()
}

fn recs(pairs: &[(&str, &str)]) -> Vec<(String, String)> {
    pairs.iter().map(|(n, s)| (n.to_string(), s.to_string())).collect()
}

#[test]
fn two_records_in_order() {
    let r = load_fasta(b">seq1\nACGT\n>seq2\nGGTT\n").unwrap();
    assert_eq!(r, recs(&[("seq1", "ACGT"), ("seq2", "GGTT")]));
}

#[test]
fn duplicate_name_rejected() {
    assert_eq!(load_fasta(b">a\nAC\n>a\nGT\n"), Err(FastaError::DuplicateName));
}

#[test]
fn sequence_before_header_rejected() {
    assert_eq!(load_fasta(b"AC\n>a\nGT\n"), Err(FastaError::RecordBeforeHeader));
}

#[test]
fn no_sequences_rejected() {
    assert_eq!(load_fasta(b"\n\n\n"), Err(FastaError::NoSequences));
    assert_eq!(check_load_fasta(&Vec::new()), Err(FastaError::NoSequences));
}

#[test]
fn compressed_empty_content_has_no_sequences() {
    assert_eq!(load_fasta(&gz(b"")), Err(FastaError::NoSequences));
}

#[test]
fn header_without_name_rejected() {
    assert_eq!(load_fasta(b">   \nAC\n"), Err(FastaError::MalformedHeader));
    assert_eq!(load_fasta(b">\nAC\n"), Err(FastaError::MalformedHeader));
}

#[test]
fn tiny_files_too_short() {
    assert_eq!(load_fasta(b""), Err(FastaError::TooShort));
    assert_eq!(load_fasta(b">"), Err(FastaError::TooShort));
    assert_eq!(load_fasta(&[0x1f]), Err(FastaError::TooShort));
}

#[test]
fn bare_gzip_magic_unreadable() {
    assert_eq!(load_fasta(&[0x1f, 0x8b]), Err(FastaError::Unreadable));
}

#[test]
fn sniffing() {
    assert_eq!(is_gzip_magic(&[]), None);
    assert_eq!(is_gzip_magic(&[0x1f]), None);
    assert_eq!(is_gzip_magic(&[0x1f, 0x8b]), Some(true));
    assert_eq!(is_gzip_magic(&[0x1f, 0x8c, 0x00]), Some(false));
    assert_eq!(is_gzip_magic(b">a\nAC"), Some(false));
}

#[test]
fn gzip_and_plain_agree() {
    let plain: &[u8] = b">chr1 description here\nACGT\nacgt\n\n>chr2\nNNNN\n";
    let expected = recs(&[("chr1", "ACGTacgt"), ("chr2", "NNNN")]);
    assert_eq!(load_fasta(plain).unwrap(), expected);
    assert_eq!(load_fasta(&gz(plain)).unwrap(), expected);
}

#[test]
fn corrupt_gzip_unreadable() {
    let mut data = gz(b">a\nACGT\n");
    let n = data.len();
    data.truncate(n - 6);
    data[12] ^= 0xff;
    assert_eq!(load_fasta(&data), Err(FastaError::Unreadable));
}

#[test]
fn sequence_is_exact_concatenation() {
    let r = load_fasta(b">x\n  Ac gT \n\nN-n*\r\n>y\nT\n").unwrap();
    assert_eq!(r, recs(&[("x", "  Ac gT N-n*"), ("y", "T")]));
}

#[test]
fn last_line_without_newline() {
    let r = load_fasta(b">x\nAC\nGT").unwrap();
    assert_eq!(r, recs(&[("x", "ACGT")]));
}

#[test]
fn empty_sequence_rejected() {
    assert_eq!(load_fasta(b">a\n>b\nAC\n"), Err(FastaError::EmptySequence));
    assert_eq!(load_fasta(b">a\nAC\n>b\n"), Err(FastaError::EmptySequence));
}

#[test]
fn unnamed_sequence_rejected() {
    let v = recs(&[("a", ""), ("", "AC")]);
    assert_eq!(check_load_fasta(&v), Err(FastaError::UnnamedSequence));
    let v = recs(&[("a", "AC"), ("b", "")]);
    assert_eq!(check_load_fasta(&v), Err(FastaError::EmptySequence));
    let v = recs(&[("a", "AC"), ("b", "G"), ("a", "T")]);
    assert_eq!(check_load_fasta(&v), Err(FastaError::DuplicateName));
    let v = recs(&[("a", "AC"), ("b", "G")]);
    assert_eq!(check_load_fasta(&v), Ok(()));
}

#[test]
fn invalid_utf8_unreadable() {
    assert_eq!(load_fasta(b">a\nA\xffC\n"), Err(FastaError::Unreadable));
    assert_eq!(load_fasta(b">\xc3\nAC\n"), Err(FastaError::Unreadable));
}

#[test]
fn unicode_names_kept() {
    let r = load_fasta(">contig_é\u{a0}len=4\nACGT\n".as_bytes()).unwrap();
    assert_eq!(r, recs(&[("contig_é", "ACGT")]));
}

#[test]
fn token_extraction() {
    assert_eq!(first_token_of("  ab cd"), Some("ab".to_string()));
    assert_eq!(first_token_of("\tx\u{2003}y"), Some("x".to_string()));
    assert_eq!(first_token_of("solo"), Some("solo".to_string()));
    assert_eq!(first_token_of(" \t\u{3000} "), None);
    assert_eq!(first_token_of(""), None);
}

#[test]
fn line_splitting() {
    let v = split_lines(b"a\r\nb\n\nc\r");
    assert_eq!(v, vec![b"a".to_vec(), b"b".to_vec(), b"".to_vec(), b"c\r".to_vec()]);
    assert!(split_lines(b"").is_empty());
    assert_eq!(split_lines(b"x\n"), vec![b"x".to_vec()]);
}

#[test]
fn parser_keeps_header_order() {
    let lines = split_lines(b">z\nA\n>m\nC\n>a\nG\n");
    let r = parse_records(&lines).unwrap();
    assert_eq!(r, recs(&[("z", "A"), ("m", "C"), ("a", "G")]));
}

#[test]
fn parser_does_not_merge_duplicates() {
    let lines = split_lines(b">a\nAC\n>a\nGT\n");
    let r = parse_records(&lines).unwrap();
    assert_eq!(r, recs(&[("a", "AC"), ("a", "GT")]));
}
