use smaps::query::instance_resident_bytes;
use smaps::report::{Smaps, SmapsError};

fn parse_ok(text: &str) -> Smaps {
    Smaps::parse(text.as_bytes()).expect("report should parse")
}

#[test]
fn empty_text_yields_empty_report() {
    let s = parse_ok("");
    assert_eq!(s.regions.len(), 0);
}

#[test]
fn no_header_line_is_malformed() {
    let r = Smaps::parse(b"this text has no header line\nRss: 4 kB\n");
    assert_eq!(r.unwrap_err(), SmapsError::MalformedReport);
}

#[test]
fn uppercase_hex_is_no_header() {
    // Header addresses are lowercase hexadecimal; an uppercase digit
    // stops the run. With no lowercase digit after the hyphen the line
    // is no header at all...
    let r = Smaps::parse(b"00400000-F0000000 r-xp 00000000 00:00 0\n");
    assert_eq!(r.unwrap_err(), SmapsError::MalformedReport);
    // ...while one later in the second address merely ends it early.
    let s = Smaps::parse(b"00400000-00401FFF r-xp 00000000 00:00 0\n").unwrap();
    assert_eq!(s.regions[0].end, 0x00401);
}

#[test]
fn well_formed_report_yields_one_record_per_header() {
    let text = "00400000-00401000 r-xp 00000000 00:00 0\n\
                Rss:                  4 kB\n\
                Pss:                  4 kB\n\
                00600000-00601000 rw-p 00000000 00:00 0\n\
                Rss:                  8 kB\n\
                7f0000000000-7f0000021000 rw-p 00000000 00:00 0\n\
                Size:               132 kB\n";
    let s = parse_ok(text);
    assert_eq!(s.regions.len(), 3);
    assert_eq!(s.regions[0].start, 0x00400000);
    assert_eq!(s.regions[0].end, 0x00401000);
    assert_eq!(s.regions[1].start, 0x00600000);
    assert_eq!(s.regions[1].end, 0x00601000);
    assert_eq!(s.regions[2].start, 0x7f0000000000);
    assert_eq!(s.regions[2].end, 0x7f0000021000);
    assert_eq!(s.regions[0].stats.get(b"Rss"), Some(4));
    assert_eq!(s.regions[0].stats.get(b"Pss"), Some(4));
    assert_eq!(s.regions[0].stats.get(b"Size"), None);
    assert_eq!(s.regions[1].stats.get(b"Rss"), Some(8));
    assert_eq!(s.regions[1].stats.get(b"Pss"), None);
    assert_eq!(s.regions[2].stats.get(b"Size"), Some(132));
    assert_eq!(s.regions[2].stats.get(b"Rss"), None);
}

#[test]
fn parsing_twice_yields_structurally_identical_reports() {
    let text = "00400000-00401000 r-xp 00000000 00:00 0\n\
                Rss:                  4 kB\n\
                Pss:                  2 kB\n\
                00600000-00601000 rw-p 00000000 00:00 0\n\
                Rss:                  8 kB\n";
    let a = parse_ok(text);
    let b = parse_ok(text);
    assert_eq!(a.regions.len(), b.regions.len());
    for (ra, rb) in a.regions.iter().zip(b.regions.iter()) {
        assert_eq!(ra.start, rb.start);
        assert_eq!(ra.end, rb.end);
        assert_eq!(ra.stats.entries, rb.stats.entries);
    }
}

#[test]
fn block_without_statistic_lines_has_empty_stat_map() {
    let text = "00400000-00401000 r-xp 00000000 00:00 0\n\
                some ignored line\n";
    let s = parse_ok(text);
    assert_eq!(s.regions.len(), 1);
    assert_eq!(s.regions[0].stats.entries.len(), 0);
    assert_eq!(s.regions[0].stats.get(b"Rss"), None);
    assert_eq!(s.get_rss(0x00400000).unwrap_err(), SmapsError::StatisticAbsent);
}

#[test]
fn later_statistic_line_wins_on_equal_keys() {
    let text = "00400000-00401000 r-xp 00000000 00:00 0\n\
                Rss:                  4 kB\n\
                Rss:                  9 kB\n";
    let s = parse_ok(text);
    assert_eq!(s.regions[0].stats.get(b"Rss"), Some(9));
}

#[test]
fn statistic_key_is_trimmed() {
    let text = "00400000-00401000 r-xp 00000000 00:00 0\n\
                \t Rss  :            7 kB\n";
    let s = parse_ok(text);
    assert_eq!(s.regions[0].stats.get(b"Rss"), Some(7));
    assert_eq!(s.regions[0].stats.get(b" Rss  "), None);
}

#[test]
fn lines_without_the_unit_shape_are_ignored() {
    let text = "00400000-00401000 r-xp 00000000 00:00 0\n\
                VmFlags: rd ex mr\n\
                THPeligible:    0\n\
                Rss:4 kB\n\
                Swap: 2 kBytes extra\n";
    let s = parse_ok(text);
    assert_eq!(s.regions[0].stats.get(b"VmFlags"), None);
    assert_eq!(s.regions[0].stats.get(b"THPeligible"), None);
    // No whitespace before the value is fine, and trailing text after
    // the unit does not stop the match.
    assert_eq!(s.regions[0].stats.get(b"Rss"), Some(4));
    assert_eq!(s.regions[0].stats.get(b"Swap"), Some(2));
}

#[test]
fn oversized_statistic_value_is_malformed() {
    let text = "00400000-00401000 r-xp 00000000 00:00 0\n\
                Rss: 99999999999999999999999999 kB\n";
    let r = Smaps::parse(text.as_bytes());
    assert_eq!(r.unwrap_err(), SmapsError::MalformedReport);
}

#[test]
fn oversized_header_address_is_malformed() {
    let text = "ffffffffffffffffffff-fffffffffffffffffffff r-xp 00000000 00:00 0\n";
    let r = Smaps::parse(text.as_bytes());
    assert_eq!(r.unwrap_err(), SmapsError::MalformedReport);
}

#[test]
fn end_to_end_scenario() {
    let text = "00400000-00401000 r-xp 00000000 00:00 0\n\
                Rss:                  4 kB\n\
                Pss:                  4 kB\n\
                00600000-00601000 rw-p 00000000 00:00 0\n\
                Rss:                  8 kB\n";
    let s = parse_ok(text);
    assert_eq!(s.get_rss(0x00400500).unwrap(), 4);
    assert_eq!(s.get_rss(0x00600000).unwrap(), 8);
    assert_eq!(s.get_rss(0x00500000).unwrap_err(), SmapsError::AddressNotMapped);
    assert_eq!(instance_resident_bytes(text.as_bytes(), 0x00400500).unwrap(), 4096);
    assert_eq!(instance_resident_bytes(text.as_bytes(), 0x00600000).unwrap(), 8 * 1024);
    assert_eq!(
        instance_resident_bytes(text.as_bytes(), 0x00500000).unwrap_err(),
        SmapsError::AddressNotMapped
    );
}

#[test]
fn facade_propagates_parse_failures() {
    assert_eq!(
        instance_resident_bytes(b"no header here", 0).unwrap_err(),
        SmapsError::MalformedReport
    );
    assert_eq!(instance_resident_bytes(b"", 0).unwrap_err(), SmapsError::AddressNotMapped);
}
