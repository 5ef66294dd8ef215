//! What every successful load satisfies, stated over the parser's model.
use vstd::prelude::*;
use vstd::utf8::*;

use crate::fasta::{
    check_spec, close_open, is_header, load_spec, names_distinct, parse_and_check, parse_lines,
    parse_prefix, text_bytes, ParseState, Rec,
};
use crate::gzip::{gunzip_of, starts_with_gzip_magic};
use crate::lines::lines_of;
use crate::text::first_token;

verus! {

/// Positions, in order, of the header lines among the first `n` lines.
pub open spec fn header_indices(lines: Seq<Seq<u8>>, n: int) -> Seq<int>
    decreases n,
{
    if n <= 0 {
        Seq::<int>::empty()
    } else if is_header(lines[n - 1]) {
        header_indices(lines, n - 1).push(n - 1)
    } else {
        header_indices(lines, n - 1)
    }
}

/// The name that a header line gives its record.
pub open spec fn header_name(line: Seq<u8>) -> Seq<char> {
    first_token(decode_utf8(text_bytes(line)))->0
}

/// The text of the non-blank lines at positions `from` up to `to`, joined.
pub open spec fn body_text(lines: Seq<Seq<u8>>, from: int, to: int) -> Seq<char>
    decreases to - from,
{
    if to <= from {
        Seq::<char>::empty()
    } else if lines[to - 1].len() == 0 {
        body_text(lines, from, to - 1)
    } else {
        body_text(lines, from, to - 1) + decode_utf8(lines[to - 1])
    }
}

/// Where the body of the `k`-th record ends: at the next header, or at the
/// end of the file.
pub open spec fn body_end(hs: Seq<int>, k: int, n: int) -> int {
    if k + 1 < hs.len() {
        hs[k + 1]
    } else {
        n
    }
}

/// The record that the `k`-th header opens, given the header positions `hs`
/// and `n` lines.
pub open spec fn expected_record(lines: Seq<Seq<u8>>, hs: Seq<int>, k: int, n: int) -> Rec {
    (header_name(lines[hs[k]]), body_text(lines, hs[k] + 1, body_end(hs, k, n)))
}

/// How a successful parser state after `n` lines relates to the lines.
pub open spec fn state_matches(lines: Seq<Seq<u8>>, n: int, s: ParseState) -> bool {
    let hs = header_indices(lines, n);
    &&& (forall|k: int| 0 <= k < hs.len() ==> 0 <= #[trigger] hs[k] < n)
    &&& (s.1 is None <==> hs.len() == 0)
    &&& s.0.len() + (if s.1 is Some {
        1int
    } else {
        0int
    }) == hs.len()
    &&& (forall|k: int| 0 <= k < s.0.len() ==> #[trigger] s.0[k] == expected_record(lines, hs, k, n))
    &&& (s.1 matches Some(r) ==> r == expected_record(lines, hs, hs.len() - 1, n))
}

proof fn lemma_state_matches(lines: Seq<Seq<u8>>, n: int)
    requires
        0 <= n <= lines.len(),
        parse_prefix(lines, n) is Ok,
    ensures
        state_matches(lines, n, parse_prefix(lines, n)->Ok_0),
    decreases n,
{
    if n > 0 {
        let m = n - 1;
        if parse_prefix(lines, m) is Err {
            assert(parse_prefix(lines, n) is Err);
        } else {
            lemma_state_matches(lines, m);
            let s = parse_prefix(lines, m)->Ok_0;
            let t = parse_prefix(lines, n)->Ok_0;
            let hs = header_indices(lines, m);
            let hn = header_indices(lines, n);
            let line = lines[m];
            if line.len() == 0 {
                assert(hn == hs);
                assert forall|k: int| 0 <= k < hs.len() implies body_text(
                    lines,
                    hs[k] + 1,
                    body_end(hs, k, n),
                ) == body_text(lines, hs[k] + 1, body_end(hs, k, m)) by {
                    if k + 1 >= hs.len() {
                        assert(hs[k] < m);
                    }
                }
                assert forall|k: int| 0 <= k < t.0.len() implies #[trigger] t.0[k]
                    == expected_record(lines, hn, k, n) by {
                    assert(t.0[k] == expected_record(lines, hs, k, m));
                }
            } else if is_header(line) {
                assert(hn == hs.push(m));
                let name = first_token(decode_utf8(text_bytes(line)))->0;
                assert(t == (close_open(s), Some((name, Seq::<char>::empty()))));
                assert forall|k: int| 0 <= k < t.0.len() implies #[trigger] t.0[k]
                    == expected_record(lines, hn, k, n) by {
                    assert(hn[k] == hs[k]);
                    if k < s.0.len() {
                        assert(s.0[k] == expected_record(lines, hs, k, m));
                    } else {
                        assert(k == hs.len() - 1);
                    }
                }
                assert(body_text(lines, m + 1, n) == Seq::<char>::empty());
            } else {
                assert(hn == hs);
                assert forall|k: int| 0 <= k < t.0.len() implies #[trigger] t.0[k]
                    == expected_record(lines, hn, k, n) by {
                    assert(t.0[k] == expected_record(lines, hs, k, m));
                }
                assert(hs[hs.len() - 1] < m);
            }
        }
    }
}

/// Records come in the order of the header lines: the `k`-th record is named
/// by the `k`-th header, and its sequence is the exact concatenation of the
/// non-blank lines that follow that header up to the next one or the end,
/// terminators removed and nothing else changed.
pub proof fn lemma_records_follow_headers(lines: Seq<Seq<u8>>)
    requires
        parse_lines(lines) is Ok,
    ensures
        ({
            let rs = parse_lines(lines)->Ok_0;
            let hs = header_indices(lines, lines.len() as int);
            &&& rs.len() == hs.len()
            &&& forall|k: int|
                0 <= k < rs.len() ==> #[trigger] rs[k] == expected_record(
                    lines,
                    hs,
                    k,
                    lines.len() as int,
                )
        }),
{
    let n = lines.len() as int;
    lemma_state_matches(lines, n);
    let s = parse_prefix(lines, n)->Ok_0;
    let rs = parse_lines(lines)->Ok_0;
    assert(rs == close_open(s));
}

/// The same law for what loading gives from uncompressed bytes (the content
/// of a gzip file is loaded through the same definition).
pub proof fn lemma_loaded_records_follow_headers(raw: Seq<u8>)
    requires
        parse_and_check(raw) is Ok,
    ensures
        ({
            let rs = parse_and_check(raw)->Ok_0;
            let lines = lines_of(raw);
            let hs = header_indices(lines, lines.len() as int);
            &&& rs.len() == hs.len()
            &&& forall|k: int|
                0 <= k < rs.len() ==> #[trigger] rs[k] == expected_record(
                    lines,
                    hs,
                    k,
                    lines.len() as int,
                )
        }),
{
    lemma_records_follow_headers(lines_of(raw));
}

/// A file that loads has as many distinct names as records.
pub proof fn lemma_loaded_names_distinct(data: Seq<u8>)
    requires
        load_spec(data) is Ok,
    ensures
        ({
            let rs = load_spec(data)->Ok_0;
            rs.map_values(|r: Rec| r.0).to_set().len() == rs.len()
        }),
{
    let rs = load_spec(data)->Ok_0;
    assert(check_spec(rs) is Ok);
    assert(names_distinct(rs));
    let names = rs.map_values(|r: Rec| r.0);
    assert(names.no_duplicates()) by {
        assert forall|i: int, j: int|
            0 <= i < names.len() && 0 <= j < names.len() && i != j implies names[i]
            != names[j] by {
            if i < j {
                assert(rs[i].0 != rs[j].0);
            } else {
                assert(rs[j].0 != rs[i].0);
            }
        }
    }
    names.unique_seq_to_set();
}

/// Compressing a file does not change what it loads as: gzip data whose
/// content is `raw` loads exactly as `raw` does, where `raw` is itself long
/// enough to sniff and does not open with the gzip magic.
pub proof fn lemma_gzip_transparent(gz: Seq<u8>, raw: Seq<u8>)
    requires
        starts_with_gzip_magic(gz),
        gunzip_of(gz) == Some(raw),
        raw.len() >= 2,
        !starts_with_gzip_magic(raw),
    ensures
        load_spec(gz) == load_spec(raw),
{
}

} // verus!
