//! The record parser and the validator of a loaded FASTA file.
use vstd::prelude::*;
use vstd::string::*;
use vstd::utf8::*;

use crate::gzip::{gunzip, gunzip_of, is_gzip_magic, starts_with_gzip_magic};
use crate::lines::{copy_range, lines_of, lines_view, split_lines};
use crate::text::{decode_utf8_bytes, first_token, first_token_of};

verus! {

/// Why a file cannot be loaded.
#[derive(Clone, Copy, Debug, PartialEq, Eq, Structural)]
pub enum FastaError {
    /// The data is not well-formed gzip, or a line is not UTF-8.
    Unreadable,
    /// Fewer than two bytes: the format cannot be sniffed.
    TooShort,
    /// A header holds no name after the sigil.
    MalformedHeader,
    /// A sequence line comes before the first header.
    RecordBeforeHeader,
    /// The file holds no record.
    NoSequences,
    /// A record has an empty name.
    UnnamedSequence,
    /// A record has an empty sequence.
    EmptySequence,
    /// Two records share a name.
    DuplicateName,
}

/// The byte that opens a header line: `>`.
pub const HEADER_SIGIL: u8 = 0x3e;

/// A record as plain text: its name, then its sequence.
pub type Rec = (Seq<char>, Seq<char>);

pub open spec fn rec_view(p: (String, String)) -> Rec {
    (p.0@, p.1@)
}

pub open spec fn recs_view(v: Seq<(String, String)>) -> Seq<Rec> {
    v.map_values(|p: (String, String)| rec_view(p))
}

pub open spec fn is_header(line: Seq<u8>) -> bool {
    line.len() > 0 && line[0] == HEADER_SIGIL
}

/// The bytes of a line that carry text: all of it, or what follows the sigil.
pub open spec fn text_bytes(line: Seq<u8>) -> Seq<u8> {
    if is_header(line) {
        line.drop_first()
    } else {
        line
    }
}

/// Records closed so far, and the record still open.
pub type ParseState = (Seq<Rec>, Option<Rec>);

pub open spec fn close_open(st: ParseState) -> Seq<Rec> {
    match st.1 {
        Some(r) => st.0.push(r),
        None => st.0,
    }
}

/// One transition of the parser on a line.
pub open spec fn parse_step(st: Result<ParseState, FastaError>, line: Seq<u8>) -> Result<
    ParseState,
    FastaError,
> {
    match st {
        Err(e) => Err(e),
        Ok(s) => {
            if line.len() == 0 {
                Ok(s)
            } else if !valid_utf8(text_bytes(line)) {
                Err(FastaError::Unreadable)
            } else if is_header(line) {
                match first_token(decode_utf8(text_bytes(line))) {
                    None => Err(FastaError::MalformedHeader),
                    Some(name) => Ok((close_open(s), Some((name, Seq::<char>::empty())))),
                }
            } else {
                match s.1 {
                    None => Err(FastaError::RecordBeforeHeader),
                    Some(r) => Ok((s.0, Some((r.0, r.1 + decode_utf8(line))))),
                }
            }
        },
    }
}

/// The parser's state after the first `n` lines.
pub open spec fn parse_prefix(lines: Seq<Seq<u8>>, n: int) -> Result<ParseState, FastaError>
    decreases n,
{
    if n <= 0 {
        Ok((Seq::<Rec>::empty(), None))
    } else {
        parse_step(parse_prefix(lines, n - 1), lines[n - 1])
    }
}

/// The records of the lines, in order, or the first structural error met.
pub open spec fn parse_lines(lines: Seq<Seq<u8>>) -> Result<Seq<Rec>, FastaError> {
    match parse_prefix(lines, lines.len() as int) {
        Ok(s) => Ok(close_open(s)),
        Err(e) => Err(e),
    }
}

/// Once the parser has failed, later lines do not change the error.
pub proof fn lemma_error_persists(lines: Seq<Seq<u8>>, k: int, n: int)
    requires
        0 <= k <= n,
        parse_prefix(lines, k) is Err,
    ensures
        parse_prefix(lines, n) == parse_prefix(lines, k),
    decreases n - k,
{
    if n > k {
        lemma_error_persists(lines, k, n - 1);
    }
}

pub open spec fn parse_view(r: Result<Vec<(String, String)>, FastaError>) -> Result<
    Seq<Rec>,
    FastaError,
> {
    match r {
        Ok(v) => Ok(recs_view(v@)),
        Err(e) => Err(e),
    }
}

/// Runs the record parser over terminator-stripped lines.
pub fn parse_records(lines: &Vec<Vec<u8>>) -> (r: Result<Vec<(String, String)>, FastaError>)
    ensures
        parse_view(r) == parse_lines(lines_view(lines@)),
{
    let ghost ls = lines_view(lines@);
    assert(ls.len() == lines@.len());
    let mut done: Vec<(String, String)> = Vec::new();
    let mut name = String::new();
    let mut sequence = String::new();
    let mut open = false;
    let mut i: usize = 0;
    assert(recs_view(done@) =~= Seq::<Rec>::empty());
    while i < lines.len()
        invariant
            ls == lines_view(lines@),
            i <= lines@.len(),
            parse_prefix(ls, i as int) == Ok::<ParseState, FastaError>(
                (
                    recs_view(done@),
                    if open {
                        Some((name@, sequence@))
                    } else {
                        None
                    },
                ),
            ),
        decreases lines@.len() - i,
    {
        let line: &Vec<u8> = &lines[i];
        assert(ls[i as int] == line@);
        if line.len() > 0 {
            let header = line[0] == HEADER_SIGIL;
            let start: usize = if header {
                1
            } else {
                0
            };
            let bytes = copy_range(line.as_slice(), start, line.len());
            assert(bytes@ =~= text_bytes(line@));
            match decode_utf8_bytes(bytes) {
                None => {
                    proof {
                        lemma_error_persists(ls, i + 1, ls.len() as int);
                    }
                    return Err(FastaError::Unreadable);
                },
                Some(text) => {
                    if header {
                        match first_token_of(text.as_str()) {
                            None => {
                                proof {
                                    lemma_error_persists(ls, i + 1, ls.len() as int);
                                }
                                return Err(FastaError::MalformedHeader);
                            },
                            Some(w) => {
                                if open {
                                    let ghost old_done = done@;
                                    done.push((name, sequence));
                                    assert(recs_view(done@) =~= recs_view(old_done).push(
                                        (name@, sequence@),
                                    ));
                                }
                                name = w;
                                sequence = String::new();
                                open = true;
                            },
                        }
                    } else {
                        if !open {
                            proof {
                                lemma_error_persists(ls, i + 1, ls.len() as int);
                            }
                            return Err(FastaError::RecordBeforeHeader);
                        }
                        sequence.append(text.as_str());
                    }
                },
            }
        }
        i = i + 1;
    }
    if open {
        let ghost old_done = done@;
        done.push((name, sequence));
        assert(recs_view(done@) =~= recs_view(old_done).push((name@, sequence@)));
    }
    assert(ls.len() == lines@.len());
    Ok(done)
}

/// No two records share a name.
pub open spec fn names_distinct(rs: Seq<Rec>) -> bool {
    forall|i: int, j: int| 0 <= i < j < rs.len() ==> rs[i].0 != rs[j].0
}

/// The checks on a parsed file, in order; the first that fails decides.
pub open spec fn check_spec(rs: Seq<Rec>) -> Result<(), FastaError> {
    if rs.len() == 0 {
        Err(FastaError::NoSequences)
    } else if exists|i: int| 0 <= i < rs.len() && rs[i].0.len() == 0 {
        Err(FastaError::UnnamedSequence)
    } else if exists|i: int| 0 <= i < rs.len() && rs[i].1.len() == 0 {
        Err(FastaError::EmptySequence)
    } else if !names_distinct(rs) {
        Err(FastaError::DuplicateName)
    } else {
        Ok(())
    }
}

/// Checks the parsed records: at least one, each with a name and a
/// sequence, and no name twice.
pub fn check_load_fasta(fasta_seqs: &Vec<(String, String)>) -> (r: Result<(), FastaError>)
    ensures
        r == check_spec(recs_view(fasta_seqs@)),
{
    let ghost rs = recs_view(fasta_seqs@);
    let n = fasta_seqs.len();
    if n == 0 {
        return Err(FastaError::NoSequences);
    }
    let mut i: usize = 0;
    while i < n
        invariant
            n == fasta_seqs@.len(),
            rs == recs_view(fasta_seqs@),
            i <= n,
            forall|k: int| 0 <= k < i ==> #[trigger] rs[k].0.len() > 0,
        decreases n - i,
    {
        if fasta_seqs[i].0.as_str().is_empty() {
            assert(rs[i as int].0.len() == 0);
            return Err(FastaError::UnnamedSequence);
        }
        i = i + 1;
    }
    let mut i: usize = 0;
    while i < n
        invariant
            n == fasta_seqs@.len(),
            rs == recs_view(fasta_seqs@),
            i <= n,
            forall|k: int| 0 <= k < n ==> #[trigger] rs[k].0.len() > 0,
            forall|k: int| 0 <= k < i ==> #[trigger] rs[k].1.len() > 0,
        decreases n - i,
    {
        if fasta_seqs[i].1.as_str().is_empty() {
            assert(rs[i as int].1.len() == 0);
            return Err(FastaError::EmptySequence);
        }
        i = i + 1;
    }
    let mut i: usize = 0;
    while i < n
        invariant
            n == fasta_seqs@.len(),
            rs == recs_view(fasta_seqs@),
            i <= n,
            forall|k: int| 0 <= k < n ==> #[trigger] rs[k].0.len() > 0,
            forall|k: int| 0 <= k < n ==> #[trigger] rs[k].1.len() > 0,
            forall|a: int, b: int| 0 <= a < i && a < b < n ==> rs[a].0 != rs[b].0,
        decreases n - i,
    {
        let mut j: usize = i + 1;
        while j < n
            invariant
                n == fasta_seqs@.len(),
                rs == recs_view(fasta_seqs@),
                i < n,
                i + 1 <= j <= n,
                forall|k: int| 0 <= k < n ==> #[trigger] rs[k].0.len() > 0,
                forall|k: int| 0 <= k < n ==> #[trigger] rs[k].1.len() > 0,
                forall|b: int| i < b < j ==> rs[i as int].0 != #[trigger] rs[b].0,
            decreases n - j,
        {
            if fasta_seqs[i].0 == fasta_seqs[j].0 {
                assert(rs[i as int].0 == rs[j as int].0);
                assert(!names_distinct(rs));
                return Err(FastaError::DuplicateName);
            }
            j = j + 1;
        }
        i = i + 1;
    }
    Ok(())
}

/// Parsing, then checking, of uncompressed bytes.
pub open spec fn parse_and_check(raw: Seq<u8>) -> Result<Seq<Rec>, FastaError> {
    match parse_lines(lines_of(raw)) {
        Err(e) => Err(e),
        Ok(rs) => match check_spec(rs) {
            Ok(_) => Ok(rs),
            Err(e) => Err(e),
        },
    }
}

/// What loading the bytes of a file gives: it is sniffed, decompressed when
/// it is gzip, parsed and checked.
pub open spec fn load_spec(data: Seq<u8>) -> Result<Seq<Rec>, FastaError> {
    if data.len() < 2 {
        Err(FastaError::TooShort)
    } else if starts_with_gzip_magic(data) {
        match gunzip_of(data) {
            None => Err(FastaError::Unreadable),
            Some(raw) => parse_and_check(raw),
        }
    } else {
        parse_and_check(data)
    }
}

fn load_uncompressed(raw: &[u8]) -> (r: Result<Vec<(String, String)>, FastaError>)
    ensures
        parse_view(r) == parse_and_check(raw@),
{
    let lines = split_lines(raw);
    let fasta_seqs = parse_records(&lines)?;
    match check_load_fasta(&fasta_seqs) {
        Ok(()) => Ok(fasta_seqs),
        Err(e) => Err(e),
    }
}

/// Loads a FASTA file from its bytes, raw or gzip-compressed (told apart by
/// the magic bytes, never by name): the records in file order, or why the
/// file is rejected.
pub fn load_fasta(data: &[u8]) -> (r: Result<Vec<(String, String)>, FastaError>)
    ensures
        parse_view(r) == load_spec(data@),
{
    match is_gzip_magic(data) {
        None => Err(FastaError::TooShort),
        Some(true) => match gunzip(data) {
            None => Err(FastaError::Unreadable),
            Some(raw) => load_uncompressed(raw.as_slice()),
        },
        Some(false) => load_uncompressed(data),
    }
}

} // verus!
