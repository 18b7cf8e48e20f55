//! The parsed memory-map report and its parser.
//!
//! `Smaps::parse` turns the raw bytes of a per-process memory-map report
//! into an ordered sequence of region records, one per header line, in the
//! order the headers appear in the text. A non-empty text without a single
//! header line is malformed, and so is a report whose addresses or
//! statistic values do not fit in a machine word: the parser never coerces
//! bad numbers to zero.

use vstd::prelude::*;

use crate::grammar::{
    block_end_pos, block_fits, block_stats_from, block_vals_fit, header_starts,
    header_starts_from, is_header_at, lemma_header_starts_from_props, parse_ok,
    region_end_val, region_start_val, spec_report, stat_line_key, stat_line_matches,
    stat_line_val, SpecRegion,
};
use crate::scan::{
    lemma_dec_run_end_props, lemma_hex_run_end_props, lemma_seek_props, lemma_space_run_end_props,
    parse_dec_value, parse_hex_value, scan_dec_run, scan_hex_run, scan_space_run, seek_byte,
    trimmed_copy,
};
use crate::stats::StatMap;

verus! {

/// Why a measurement failed.
#[derive(Clone, Copy, PartialEq, Eq, Structural, Debug)]
pub enum SmapsError {
    /// The report could not be obtained from the operating system.
    SourceUnavailable,
    /// The report text does not conform to the expected grammar, or holds
    /// a number too large for a machine word.
    MalformedReport,
    /// The queried address falls in no parsed region.
    AddressNotMapped,
    /// The containing region lacks the requested statistic line.
    StatisticAbsent,
}

/// One memory region: a half-open address interval `[start, end)` and its
/// named kilobyte statistics.
#[derive(Debug)]
pub struct RegionRecord {
    pub start: usize,
    pub end: usize,
    pub stats: StatMap,
}

impl View for RegionRecord {
    type V = SpecRegion;

    open spec fn view(&self) -> SpecRegion {
        SpecRegion { start: self.start as nat, end: self.end as nat, stats: self.stats@ }
    }
}

/// An in-memory representation of a per-process memory-map report: the
/// region records in the order their header lines appear in the text.
#[derive(Debug)]
pub struct Smaps {
    pub regions: Vec<RegionRecord>,
}

impl View for Smaps {
    type V = Seq<SpecRegion>;

    open spec fn view(&self) -> Seq<SpecRegion> {
        self.regions@.map_values(|rg: RegionRecord| rg@)
    }
}

/// Whether a header line starts at `i`.
fn is_header_at_exec(text: &[u8], i: usize) -> (r: bool)
    requires
        i < text@.len(),
    ensures
        r == is_header_at(text@, i as int),
{
    proof {
        lemma_hex_run_end_props(text@, i as int);
    }
    if !(i == 0 || text[i - 1] == 10) {
        return false;
    }
    let j = scan_hex_run(text, i);
    if !(i < j && j < text.len() && text[j] == 45) {
        return false;
    }
    proof {
        lemma_hex_run_end_props(text@, j + 1);
    }
    let j2 = scan_hex_run(text, j + 1);
    j + 1 < j2
}

/// All header positions of the text, ascending.
fn find_headers(text: &[u8]) -> (r: Vec<usize>)
    ensures
        r@.map_values(|x: usize| x as int) == header_starts(text@),
{
    let mut r: Vec<usize> = Vec::new();
    let mut i: usize = 0;
    while i < text.len()
        invariant
            i <= text@.len(),
            header_starts(text@) =~= r@.map_values(|x: usize| x as int) + header_starts_from(
                text@,
                i as int,
            ),
        decreases text@.len() - i,
    {
        let ghost before = r@;
        if is_header_at_exec(text, i) {
            r.push(i);
            proof {
                assert(r@.map_values(|x: usize| x as int) =~= before.map_values(
                    |x: usize| x as int,
                ).push(i as int));
                assert(before.map_values(|x: usize| x as int).push(i as int)
                    + header_starts_from(text@, i + 1) =~= before.map_values(|x: usize| x as int)
                    + (seq![i as int] + header_starts_from(text@, i + 1)));
            }
        }
        i = i + 1;
    }
    proof {
        assert(header_starts_from(text@, i as int) =~= Seq::<int>::empty());
        assert(r@.map_values(|x: usize| x as int) + Seq::<int>::empty() =~= r@.map_values(
            |x: usize| x as int,
        ));
    }
    r
}

/// The statistics of the block `text[lo..hi]`, or `MalformedReport` when a
/// statistic value does not fit in a machine word.
fn parse_block_stats(text: &[u8], lo: usize, hi: usize) -> (r: Result<StatMap, SmapsError>)
    requires
        lo <= hi <= text@.len(),
    ensures
        block_vals_fit(text@, lo as int, hi as int) ==> (r matches Ok(m) && m@ == block_stats_from(
            text@,
            lo as int,
            hi as int,
        )),
        !block_vals_fit(text@, lo as int, hi as int) ==> r == Err::<
            StatMap,
            SmapsError,
        >(SmapsError::MalformedReport),
{
    let ghost t = text@;
    let mut m = StatMap::new();
    let mut p: usize = lo;
    proof {
        assert(block_stats_from(t, lo as int, hi as int) =~= m@.union_prefer_right(
            block_stats_from(t, lo as int, hi as int),
        ));
    }
    while p < hi
        invariant
            lo <= p <= hi <= t.len(),
            t == text@,
            block_stats_from(t, lo as int, hi as int) == m@.union_prefer_right(
                block_stats_from(t, p as int, hi as int),
            ),
            block_vals_fit(t, lo as int, hi as int) == block_vals_fit(t, p as int, hi as int),
        decreases hi - p,
    {
        let ghost m_before = m@;
        let e = seek_byte(text, p, hi, 10);
        proof {
            lemma_seek_props(t, p as int, hi as int, 10);
        }
        let c = seek_byte(text, p, e, 58);
        proof {
            lemma_seek_props(t, p as int, e as int, 58);
        }
        if p < c && c < e {
            let w = scan_space_run(text, c + 1);
            proof {
                lemma_space_run_end_props(t, c + 1);
            }
            let d = scan_dec_run(text, w);
            proof {
                lemma_dec_run_end_props(t, w as int);
            }
            if w < d && e >= 3 && d <= e - 3 && text[d] == 32 && text[d + 1] == 107 && text[d
                + 2] == 66 {
                assert(stat_line_matches(t, p as int, hi as int));
                match parse_dec_value(text, w, d) {
                    Some(v) => {
                        let key = trimmed_copy(text, p, c);
                        assert(key@ == stat_line_key(t, p as int, hi as int));
                        assert(v as nat == stat_line_val(t, p as int, hi as int));
                        m.insert(key, v);
                    },
                    None => {
                        assert(stat_line_val(t, p as int, hi as int) > usize::MAX);
                        assert(!block_vals_fit(t, p as int, hi as int));
                        return Err(SmapsError::MalformedReport);
                    },
                }
            } else {
                assert(!stat_line_matches(t, p as int, hi as int));
            }
        } else {
            assert(!stat_line_matches(t, p as int, hi as int));
        }
        let ghost p_old = p as int;
        if e < hi {
            p = e + 1;
        } else {
            p = hi;
        }
        proof {
            let single = map![stat_line_key(t, p_old, hi as int) => stat_line_val(
                t,
                p_old,
                hi as int,
            )];
            let rest = block_stats_from(t, p as int, hi as int);
            if stat_line_matches(t, p_old, hi as int) {
                assert(block_stats_from(t, p_old, hi as int) == single.union_prefer_right(rest));
                assert(m_before.union_prefer_right(single.union_prefer_right(rest))
                    =~= m@.union_prefer_right(rest));
            } else {
                assert(block_stats_from(t, p_old, hi as int) == rest);
            }
        }
    }
    proof {
        assert(block_stats_from(t, hi as int, hi as int) =~= Map::<Seq<u8>, nat>::empty());
        assert(m@.union_prefer_right(Map::<Seq<u8>, nat>::empty()) =~= m@);
    }
    Ok(m)
}

/// One region record from the block `text[lo..hi]`, whose first line is a
/// header, or `MalformedReport` when one of its numbers does not fit in a
/// machine word.
fn parse_block(text: &[u8], lo: usize, hi: usize) -> (r: Result<RegionRecord, SmapsError>)
    requires
        lo <= hi <= text@.len(),
        is_header_at(text@, lo as int),
    ensures
        block_fits(text@, lo as int, hi as int) ==> (r matches Ok(rg) && rg.start as nat
            == region_start_val(text@, lo as int) && rg.end as nat == region_end_val(
            text@,
            lo as int,
        ) && rg.stats@ == block_stats_from(text@, lo as int, hi as int)),
        !block_fits(text@, lo as int, hi as int) ==> r == Err::<
            RegionRecord,
            SmapsError,
        >(SmapsError::MalformedReport),
{
    let ghost t = text@;
    proof {
        lemma_hex_run_end_props(t, lo as int);
    }
    let n = text.len();
    let j = scan_hex_run(text, lo);
    assert(j < n && t[j as int] == 45);
    proof {
        lemma_hex_run_end_props(t, j + 1);
    }
    let j2 = scan_hex_run(text, j + 1);
    let start = match parse_hex_value(text, lo, j) {
        Some(v) => v,
        None => {
            return Err(SmapsError::MalformedReport);
        },
    };
    let end = match parse_hex_value(text, j + 1, j2) {
        Some(v) => v,
        None => {
            return Err(SmapsError::MalformedReport);
        },
    };
    let stats = match parse_block_stats(text, lo, hi) {
        Ok(m) => m,
        Err(e) => {
            return Err(e);
        },
    };
    Ok(RegionRecord { start, end, stats })
}

impl Smaps {
    /// Parse the full text of a memory-map report.
    ///
    /// An empty text is a report with no regions. A non-empty text without
    /// a single header line is malformed, and so is a report in which a
    /// header address or a statistic value does not fit in a machine word.
    pub fn parse(text: &[u8]) -> (r: Result<Smaps, SmapsError>)
        ensures
            parse_ok(text@) ==> (r matches Ok(s) && s@ == spec_report(text@)),
            !parse_ok(text@) ==> r == Err::<Smaps, SmapsError>(SmapsError::MalformedReport),
    {
        let ghost t = text@;
        let hs = find_headers(text);
        let ghost hsi = header_starts(t);
        proof {
            lemma_header_starts_from_props(t, 0);
        }
        if hs.len() == 0 {
            if text.len() > 0 {
                return Err(SmapsError::MalformedReport);
            } else {
                let s = Smaps { regions: Vec::new() };
                proof {
                    assert(s@ =~= spec_report(t));
                }
                return Ok(s);
            }
        }
        let mut regions: Vec<RegionRecord> = Vec::new();
        let mut k: usize = 0;
        while k < hs.len()
            invariant
                k <= hs@.len(),
                t == text@,
                hs@.map_values(|x: usize| x as int) == hsi,
                hsi == header_starts(t),
                hsi.len() > 0,
                forall|q1: int, q2: int| 0 <= q1 < q2 < hsi.len() ==> hsi[q1] < hsi[q2],
                forall|q: int| 0 <= q < hsi.len() ==> 0 <= #[trigger] hsi[q] < t.len()
                    && is_header_at(t, hsi[q]),
                regions@.len() == k,
                forall|q: int| 0 <= q < k ==> block_fits(t, hsi[q], block_end_pos(t, q)),
                forall|q: int| 0 <= q < k ==> (#[trigger] regions@[q]).start as nat
                    == region_start_val(t, hsi[q]) && regions@[q].end as nat == region_end_val(
                    t,
                    hsi[q],
                ) && regions@[q].stats@ == block_stats_from(t, hsi[q], block_end_pos(t, q)),
            decreases hs@.len() - k,
        {
            let lo = hs[k];
            let hi = if k + 1 < hs.len() {
                hs[k + 1]
            } else {
                text.len()
            };
            assert(lo as int == hsi[k as int]);
            assert(hi as int == block_end_pos(t, k as int));
            assert(lo < hi <= t.len());
            match parse_block(text, lo, hi) {
                Ok(rg) => {
                    regions.push(rg);
                },
                Err(_) => {
                    assert(!block_fits(t, hsi[k as int], block_end_pos(t, k as int)));
                    assert(!parse_ok(t));
                    return Err(SmapsError::MalformedReport);
                },
            }
            k = k + 1;
        }
        let s = Smaps { regions };
        proof {
            assert(parse_ok(t));
            assert(s@ =~= spec_report(t));
        }
        Ok(s)
    }
}

/// Parsing is deterministic: any two successfully parsed reports of the
/// same text are structurally identical region sequences, in the same
/// order.
pub proof fn lemma_parse_idempotent(t: Seq<u8>, s1: Smaps, s2: Smaps)
    requires
        s1@ == spec_report(t),
        s2@ == spec_report(t),
    ensures
        s1@ == s2@,
{
}

} // verus!
