//! The report grammar, as specification functions over the raw bytes.
//!
//! A report is a sequence of per-region blocks. Each block begins with a
//! header line whose first two whitespace-free tokens are a pair of
//! lowercase hexadecimal addresses separated by a hyphen, anchored at the
//! start of a line. A block runs from its header line's start up to (but
//! not including) the start of the next header line, or the end of the
//! text for the last block. Within a block, a statistic line is a line
//! holding a non-empty key before its first colon, then optional
//! whitespace, a decimal value, and the unit suffix ` kB`; all other lines
//! are ignored, and on repeated keys the later line wins.

use vstd::prelude::*;

use crate::scan::{
    dec_run_end, dec_value, hex_run_end, hex_value, lemma_seek_props, seek,
    space_run_end, trimmed,
};

verus! {

/// A line starts at offset zero or right after a line feed.
pub open spec fn is_line_start(t: Seq<u8>, i: int) -> bool {
    i == 0 || t[i - 1] == 10
}

/// A header line starts at `i`: a line start followed by one or more
/// lowercase hexadecimal digits, a hyphen, and one or more such digits.
pub open spec fn is_header_at(t: Seq<u8>, i: int) -> bool {
    let j = hex_run_end(t, i);
    &&& 0 <= i < t.len()
    &&& is_line_start(t, i)
    &&& i < j
    &&& j < t.len()
    &&& t[j] == 45
    &&& j + 1 < hex_run_end(t, j + 1)
}

/// All header positions at or after `i`, in ascending order.
pub open spec fn header_starts_from(t: Seq<u8>, i: int) -> Seq<int>
    recommends
        0 <= i,
    decreases t.len() - i,
{
    if i >= t.len() {
        Seq::empty()
    } else if is_header_at(t, i) {
        seq![i] + header_starts_from(t, i + 1)
    } else {
        header_starts_from(t, i + 1)
    }
}

/// All header positions of the text, in ascending order.
pub open spec fn header_starts(t: Seq<u8>) -> Seq<int> {
    header_starts_from(t, 0)
}

/// Every listed position is a header position in range, and the list is
/// strictly ascending.
pub proof fn lemma_header_starts_from_props(t: Seq<u8>, i: int)
    requires
        0 <= i,
    ensures
        forall|k: int|
            0 <= k < header_starts_from(t, i).len() ==> i <= #[trigger] header_starts_from(t, i)[k]
                < t.len() && is_header_at(t, header_starts_from(t, i)[k]),
        forall|k1: int, k2: int|
            0 <= k1 < k2 < header_starts_from(t, i).len() ==> #[trigger] header_starts_from(
                t,
                i,
            )[k1] < #[trigger] header_starts_from(t, i)[k2],
    decreases t.len() - i,
{
    if i >= t.len() {
    } else {
        lemma_header_starts_from_props(t, i + 1);
        let rest = header_starts_from(t, i + 1);
        if is_header_at(t, i) {
            assert forall|k: int| 0 <= k < header_starts_from(t, i).len() implies i
                <= #[trigger] header_starts_from(t, i)[k] < t.len() && is_header_at(
                t,
                header_starts_from(t, i)[k],
            ) by {
                if k == 0 {
                    assert(header_starts_from(t, i)[k] == i);
                } else {
                    assert(header_starts_from(t, i)[k] == rest[k - 1]);
                }
            }
            assert forall|k1: int, k2: int|
                0 <= k1 < k2 < header_starts_from(t, i).len() implies #[trigger] header_starts_from(
                t,
                i,
            )[k1] < #[trigger] header_starts_from(t, i)[k2] by {
                if k1 == 0 {
                    assert(header_starts_from(t, i)[k1] == i);
                    assert(header_starts_from(t, i)[k2] == rest[k2 - 1]);
                } else {
                    assert(header_starts_from(t, i)[k1] == rest[k1 - 1]);
                    assert(header_starts_from(t, i)[k2] == rest[k2 - 1]);
                }
            }
        } else {
            assert(header_starts_from(t, i) == rest);
        }
    }
}

/// The end of the block whose header is the `k`-th header position: the
/// next header position, or the end of the text for the last block.
pub open spec fn block_end_pos(t: Seq<u8>, k: int) -> int {
    let hs = header_starts(t);
    if k + 1 < hs.len() {
        hs[k + 1]
    } else {
        t.len() as int
    }
}

/// Value of the header's first address, the region's inclusive start.
pub open spec fn region_start_val(t: Seq<u8>, lo: int) -> nat {
    hex_value(t.subrange(lo, hex_run_end(t, lo)))
}

/// Value of the header's second address, the region's exclusive end.
pub open spec fn region_end_val(t: Seq<u8>, lo: int) -> nat {
    let j = hex_run_end(t, lo);
    hex_value(t.subrange(j + 1, hex_run_end(t, j + 1)))
}

/// End of the line starting at `p`, bounded by the block end `hi`: the
/// first line feed, or `hi` when the block's last line has none.
pub open spec fn line_end(t: Seq<u8>, p: int, hi: int) -> int {
    seek(t, p, hi, 10)
}

/// The line starting at `p` is a statistic line: a non-empty key before
/// the line's first colon, optional whitespace, at least one decimal
/// digit, and the suffix ` kB`, all within the line.
pub open spec fn stat_line_matches(t: Seq<u8>, p: int, hi: int) -> bool {
    let e = line_end(t, p, hi);
    let c = seek(t, p, e, 58);
    let w = space_run_end(t, c + 1);
    let d = dec_run_end(t, w);
    &&& p < c
    &&& c < e
    &&& w < d
    &&& d + 3 <= e
    &&& t[d] == 32
    &&& t[d + 1] == 107
    &&& t[d + 2] == 66
}

/// The statistic line's key: the bytes before the colon, trimmed.
pub open spec fn stat_line_key(t: Seq<u8>, p: int, hi: int) -> Seq<u8> {
    let e = line_end(t, p, hi);
    let c = seek(t, p, e, 58);
    trimmed(t.subrange(p, c))
}

/// The statistic line's value in kilobytes, as an unbounded natural.
pub open spec fn stat_line_val(t: Seq<u8>, p: int, hi: int) -> nat {
    let e = line_end(t, p, hi);
    let c = seek(t, p, e, 58);
    let w = space_run_end(t, c + 1);
    let d = dec_run_end(t, w);
    dec_value(t.subrange(w, d))
}

/// The statistics of the lines from `p` to the block end `hi`, with the
/// later of two lines that share a key winning.
pub open spec fn block_stats_from(t: Seq<u8>, p: int, hi: int) -> Map<Seq<u8>, nat>
    recommends
        0 <= p <= hi <= t.len(),
    decreases hi - p,
        via block_stats_from_decreases
{
    if p >= hi || p < 0 {
        Map::empty()
    } else {
        let e = line_end(t, p, hi);
        let next = if e < hi {
            e + 1
        } else {
            hi
        };
        let rest = block_stats_from(t, next, hi);
        if stat_line_matches(t, p, hi) {
            map![stat_line_key(t, p, hi) => stat_line_val(t, p, hi)].union_prefer_right(rest)
        } else {
            rest
        }
    }
}

#[via_fn]
proof fn block_stats_from_decreases(t: Seq<u8>, p: int, hi: int) {
    if p < hi && 0 <= p {
        if hi <= t.len() {
            lemma_seek_props(t, p, hi, 10);
        } else {
            seek_ge(t, p, hi, 10);
        }
    }
}

/// `seek` never answers before its start, whatever the bounds.
proof fn seek_ge(t: Seq<u8>, i: int, hi: int, b: u8)
    ensures
        seek(t, i, hi, b) >= i,
    decreases hi - i,
{
    if i < hi && t[i] != b {
        seek_ge(t, i + 1, hi, b);
    }
}

/// Every statistic value of the lines from `p` to `hi` fits in a `usize`.
pub open spec fn block_vals_fit(t: Seq<u8>, p: int, hi: int) -> bool
    recommends
        0 <= p <= hi <= t.len(),
    decreases hi - p,
        via block_vals_fit_decreases
{
    if p >= hi || p < 0 {
        true
    } else {
        let e = line_end(t, p, hi);
        let next = if e < hi {
            e + 1
        } else {
            hi
        };
        &&& (stat_line_matches(t, p, hi) ==> stat_line_val(t, p, hi) <= usize::MAX)
        &&& block_vals_fit(t, next, hi)
    }
}

#[via_fn]
proof fn block_vals_fit_decreases(t: Seq<u8>, p: int, hi: int) {
    if p < hi && 0 <= p {
        seek_ge(t, p, hi, 10);
    }
}

/// Both header addresses and every statistic value of the block fit in a
/// `usize`.
pub open spec fn block_fits(t: Seq<u8>, lo: int, hi: int) -> bool {
    &&& region_start_val(t, lo) <= usize::MAX
    &&& region_end_val(t, lo) <= usize::MAX
    &&& block_vals_fit(t, lo, hi)
}

/// Every block of the report fits in machine words.
pub open spec fn report_fits(t: Seq<u8>) -> bool {
    forall|k: int|
        0 <= k < header_starts(t).len() ==> block_fits(
            t,
            #[trigger] header_starts(t)[k],
            block_end_pos(t, k),
        )
}

/// Parsing the text succeeds: the text is empty, or it has at least one
/// header block and every numeric field fits in a machine word.
pub open spec fn parse_ok(t: Seq<u8>) -> bool {
    if t.len() == 0 {
        true
    } else {
        header_starts(t).len() > 0 && report_fits(t)
    }
}

/// The mathematical model of one parsed region: its half-open address
/// range and its statistics in kilobytes.
pub ghost struct SpecRegion {
    pub start: nat,
    pub end: nat,
    pub stats: Map<Seq<u8>, nat>,
}

/// The mathematical model of the whole parsed report, block by block in
/// header order.
pub open spec fn spec_report(t: Seq<u8>) -> Seq<SpecRegion> {
    Seq::new(
        header_starts(t).len(),
        |k: int|
            SpecRegion {
                start: region_start_val(t, header_starts(t)[k]),
                end: region_end_val(t, header_starts(t)[k]),
                stats: block_stats_from(t, header_starts(t)[k], block_end_pos(t, k)),
            },
    )
}

} // verus!
