//! Splitting a byte stream into lines the way a buffered line reader does: a
//! line ends at `\n`, which is dropped together with a `\r` just before it; a
//! last line without `\n` is kept as it is.
use vstd::prelude::*;

verus! {

pub const NEWLINE: u8 = 0x0a;

pub const CARRIAGE_RETURN: u8 = 0x0d;

/// Index of the first `\n` at or after `i` (the length when there is none).
pub open spec fn next_newline(b: Seq<u8>, i: int) -> int
    decreases b.len() - i,
{
    if 0 <= i < b.len() && b[i] != NEWLINE {
        next_newline(b, i + 1)
    } else {
        i
    }
}

/// The line that starts at `i`, terminator stripped.
pub open spec fn line_at(b: Seq<u8>, i: int) -> Seq<u8> {
    let e = next_newline(b, i);
    let raw = b.subrange(i, e);
    if e < b.len() && raw.len() > 0 && raw.last() == CARRIAGE_RETURN {
        raw.drop_last()
    } else {
        raw
    }
}

/// The lines from position `i` on.
pub open spec fn lines_from(b: Seq<u8>, i: int) -> Seq<Seq<u8>>
    decreases b.len() - i,
{
    if 0 <= i < b.len() {
        proof {
            lemma_next_newline_bounds(b, i);
        }
        if next_newline(b, i) < b.len() {
            seq![line_at(b, i)] + lines_from(b, next_newline(b, i) + 1)
        } else {
            seq![line_at(b, i)]
        }
    } else {
        seq![]
    }
}

/// The lines of a byte stream.
pub open spec fn lines_of(b: Seq<u8>) -> Seq<Seq<u8>> {
    lines_from(b, 0)
}

pub proof fn lemma_next_newline_bounds(b: Seq<u8>, i: int)
    requires
        0 <= i <= b.len(),
    ensures
        i <= next_newline(b, i) <= b.len(),
    decreases b.len() - i,
{
    if i < b.len() && b[i] != NEWLINE {
        lemma_next_newline_bounds(b, i + 1);
    }
}

pub open spec fn lines_view(lines: Seq<Vec<u8>>) -> Seq<Seq<u8>> {
    lines.map_values(|l: Vec<u8>| l@)
}

/// Copies `b[from..to]`.
pub(crate) fn copy_range(b: &[u8], from: usize, to: usize) -> (r: Vec<u8>)
    requires
        from <= to <= b@.len(),
    ensures
        r@ == b@.subrange(from as int, to as int),
{
    let mut r: Vec<u8> = Vec::with_capacity(to - from);
    let mut k: usize = from;
    while k < to
        invariant
            from <= k <= to <= b@.len(),
            r@ == b@.subrange(from as int, k as int),
        decreases to - k,
    {
        r.push(b[k]);
        k = k + 1;
    }
    r
}

/// Splits the bytes into lines, terminators stripped.
pub fn split_lines(b: &[u8]) -> (r: Vec<Vec<u8>>)
    ensures
        lines_view(r@) == lines_of(b@),
{
    let n = b.len();
    let mut r: Vec<Vec<u8>> = Vec::new();
    let mut pos: usize = 0;
    while pos < n
        invariant
            n == b@.len(),
            pos <= n,
            lines_view(r@) + lines_from(b@, pos as int) == lines_of(b@),
        decreases n - pos,
    {
        let mut e: usize = pos;
        while e < n && b[e] != NEWLINE
            invariant
                n == b@.len(),
                pos <= e <= n,
                next_newline(b@, e as int) == next_newline(b@, pos as int),
            decreases n - e,
        {
            e = e + 1;
        }
        let end = if e < n && e > pos && b[e - 1] == CARRIAGE_RETURN {
            e - 1
        } else {
            e
        };
        let line = copy_range(b, pos, end);
        proof {
            let bs = b@;
            assert(line@ == line_at(bs, pos as int));
            assert(lines_from(bs, pos as int) =~= seq![line_at(bs, pos as int)] + lines_from(
                bs,
                e + 1,
            ));
            let old_r = lines_view(r@);
            assert(lines_view(r@.push(line)) == old_r.push(line@));
            assert(old_r + lines_from(bs, pos as int) == old_r.push(line@) + lines_from(
                bs,
                e + 1,
            ));
        }
        r.push(line);
        pos = if e < n {
            e + 1
        } else {
            e
        };
        proof {
            if e >= n {
                assert(lines_from(b@, pos as int) =~= lines_from(b@, (e + 1) as int));
            }
        }
    }
    proof {
        assert(lines_from(b@, pos as int) =~= seq![]);
        assert(lines_view(r@) + seq![] =~= lines_view(r@));
    }
    r
}

} // verus!
