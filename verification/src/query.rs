//! Range lookup over a parsed report, and the resident-bytes facade.
//!
//! A query address belongs to the first region record, in sequence order,
//! whose half-open interval `[start, end)` contains it. In a well-formed
//! report the intervals are pairwise disjoint, so at most one record can
//! contain the address; on an ill-formed report with overlapping intervals
//! the first match wins.

use vstd::prelude::*;

use crate::grammar::{parse_ok, spec_report, SpecRegion};
use crate::report::{Smaps, SmapsError};
use crate::stats::StatMap;

verus! {

/// Whether the region's half-open interval `[start, end)` contains the
/// address.
pub open spec fn region_contains(rg: SpecRegion, addr: usize) -> bool {
    rg.start <= addr as nat && (addr as nat) < rg.end
}

/// Index of the first region containing the address, or the sequence's
/// length when none does.
pub open spec fn find_index(s: Seq<SpecRegion>, addr: usize) -> int
    decreases s.len(),
{
    if s.len() == 0 {
        0
    } else if region_contains(s[0], addr) {
        0
    } else {
        1 + find_index(s.drop_first(), addr)
    }
}

/// `find_index` answers within bounds, its answer contains the address
/// whenever one is found, and no earlier region contains it.
pub proof fn lemma_find_index_props(s: Seq<SpecRegion>, addr: usize)
    ensures
        0 <= find_index(s, addr) <= s.len(),
        find_index(s, addr) < s.len() ==> region_contains(s[find_index(s, addr)], addr),
        forall|j: int| 0 <= j < find_index(s, addr) ==> !region_contains(s[j], addr),
    decreases s.len(),
{
    if s.len() > 0 && !region_contains(s[0], addr) {
        lemma_find_index_props(s.drop_first(), addr);
        let rest = s.drop_first();
        assert forall|j: int| 0 <= j < find_index(s, addr) implies !region_contains(
            s[j],
            addr,
        ) by {
            if j > 0 {
                assert(s[j] == rest[j - 1]);
            }
        }
    }
}

/// Half-open interval law: an address equal to a region's `end` is never
/// attributed to that region, and an address equal to a region's `start`
/// is attributed to that region whenever the region's interval is
/// non-degenerate there (`addr < end`) and no earlier region also claims
/// the address.
pub proof fn lemma_half_open_boundary(s: Seq<SpecRegion>, addr: usize, i: int)
    requires
        0 <= i < s.len(),
    ensures
        addr as nat >= s[i].end ==> find_index(s, addr) != i,
        (s[i].start <= addr as nat && (addr as nat) < s[i].end && (forall|j: int|
            0 <= j < i ==> !region_contains(s[j], addr))) ==> find_index(s, addr) == i,
{
    lemma_find_index_props(s, addr);
}

/// The key of the resident-set-size statistic: the bytes of `Rss`.
pub open spec fn rss_key() -> Seq<u8> {
    seq![82u8, 115u8, 115u8]
}

impl Smaps {
    /// The statistics of the first region whose interval contains the
    /// address, or `AddressNotMapped` when no region does.
    pub fn get_map(&self, addr: usize) -> (r: Result<&StatMap, SmapsError>)
        ensures
            find_index(self@, addr) < self@.len() ==> (r matches Ok(m) && m@ == self@[find_index(
                self@,
                addr,
            )].stats),
            find_index(self@, addr) >= self@.len() ==> r == Err::<
                &StatMap,
                SmapsError,
            >(SmapsError::AddressNotMapped),
    {
        proof {
            lemma_find_index_props(self@, addr);
        }
        let mut i: usize = 0;
        while i < self.regions.len()
            invariant
                i <= self.regions@.len(),
                self@.len() == self.regions@.len(),
                forall|j: int| 0 <= j < i ==> !region_contains(self@[j], addr),
                0 <= find_index(self@, addr) <= self@.len(),
                find_index(self@, addr) < self@.len() ==> region_contains(
                    self@[find_index(self@, addr)],
                    addr,
                ),
                forall|j: int| 0 <= j < find_index(self@, addr) ==> !region_contains(
                    self@[j],
                    addr,
                ),
            decreases self.regions@.len() - i,
        {
            let rg = &self.regions[i];
            if rg.start <= addr && addr < rg.end {
                assert(region_contains(self@[i as int], addr));
                assert(find_index(self@, addr) == i as int);
                return Ok(&rg.stats);
            }
            assert(!region_contains(self@[i as int], addr));
            i = i + 1;
        }
        assert(find_index(self@, addr) >= self@.len());
        Err(SmapsError::AddressNotMapped)
    }

    /// The resident-set-size statistic, in kilobytes, of the region that
    /// contains the address.
    ///
    /// Fails with `AddressNotMapped` when no region contains the address,
    /// and with `StatisticAbsent` when the containing region has no `Rss`
    /// line; a missing statistic is never read as zero.
    pub fn get_rss(&self, addr: usize) -> (r: Result<usize, SmapsError>)
        ensures
            ({
                let fi = find_index(self@, addr);
                &&& fi >= self@.len() ==> r == Err::<usize, SmapsError>(
                    SmapsError::AddressNotMapped,
                )
                &&& fi < self@.len() && !self@[fi].stats.contains_key(rss_key()) ==> r == Err::<
                    usize,
                    SmapsError,
                >(SmapsError::StatisticAbsent)
                &&& fi < self@.len() && self@[fi].stats.contains_key(rss_key()) ==> (r matches Ok(v)
                    && v as nat == self@[fi].stats[rss_key()])
            }),
    {
        let m = match self.get_map(addr) {
            Ok(m) => m,
            Err(e) => {
                return Err(e);
            },
        };
        let mut key: Vec<u8> = Vec::new();
        key.push(82);
        key.push(115);
        key.push(115);
        proof {
            assert(key@ =~= rss_key());
        }
        match m.get(key.as_slice()) {
            Some(v) => Ok(v),
            None => Err(SmapsError::StatisticAbsent),
        }
    }
}

/// Resident bytes of the memory region containing `base_addr`, measured
/// from the given report text: the region's `Rss` statistic converted
/// exactly from kilobytes to bytes.
///
/// Parse failures propagate as `MalformedReport`; an address outside every
/// region fails with `AddressNotMapped`; a region without an `Rss` line
/// fails with `StatisticAbsent`; and a kilobyte count whose byte count
/// does not fit in a machine word is reported as `MalformedReport` rather
/// than approximated.
pub fn instance_resident_bytes(text: &[u8], base_addr: usize) -> (r: Result<usize, SmapsError>)
    ensures
        !parse_ok(text@) ==> r == Err::<usize, SmapsError>(SmapsError::MalformedReport),
        parse_ok(text@) ==> ({
            let rep = spec_report(text@);
            let fi = find_index(rep, base_addr);
            &&& fi >= rep.len() ==> r == Err::<usize, SmapsError>(SmapsError::AddressNotMapped)
            &&& fi < rep.len() && !rep[fi].stats.contains_key(rss_key()) ==> r == Err::<
                usize,
                SmapsError,
            >(SmapsError::StatisticAbsent)
            &&& fi < rep.len() && rep[fi].stats.contains_key(rss_key()) && rep[fi].stats[rss_key()]
                * 1024 <= usize::MAX ==> (r matches Ok(v) && v as nat == rep[fi].stats[rss_key()]
                * 1024)
            &&& fi < rep.len() && rep[fi].stats.contains_key(rss_key()) && rep[fi].stats[rss_key()]
                * 1024 > usize::MAX ==> r == Err::<usize, SmapsError>(SmapsError::MalformedReport)
        }),
{
    let smaps = match Smaps::parse(text) {
        Ok(s) => s,
        Err(e) => {
            return Err(e);
        },
    };
    let kb = match smaps.get_rss(base_addr) {
        Ok(v) => v,
        Err(e) => {
            return Err(e);
        },
    };
    if kb <= usize::MAX / 1024 {
        Ok(kb * 1024)
    } else {
        Err(SmapsError::MalformedReport)
    }
}

} // verus!
