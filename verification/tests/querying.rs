use smaps::report::{Smaps, SmapsError};
use smaps::stats::StatMap;

fn parse_ok(text: &str) -> Smaps {
    Smaps::parse(text.as_bytes()).expect("report should parse")
}

#[test]
fn rss_is_returned_for_every_address_of_the_interval() {
    let text = "00010000-00010010 rw-p 00000000 00:00 0\n\
                Rss:      128 kB\n";
    let s = parse_ok(text);
    for addr in 0x00010000..0x00010010usize {
        assert_eq!(s.get_rss(addr).unwrap(), 128);
    }
    assert_eq!(s.get_rss(0x00010000).unwrap(), 128);
    assert_eq!(s.get_rss(0x0001000f).unwrap(), 128);
    assert_eq!(s.get_rss(0x00010010).unwrap_err(), SmapsError::AddressNotMapped);
    assert_eq!(s.get_rss(0x0000ffff).unwrap_err(), SmapsError::AddressNotMapped);
}

#[test]
fn region_end_belongs_to_the_adjacent_next_region() {
    let text = "00010000-00010010 rw-p 00000000 00:00 0\n\
                Rss:      1 kB\n\
                00010010-00010020 rw-p 00000000 00:00 0\n\
                Rss:      2 kB\n";
    let s = parse_ok(text);
    // The first region's `end` is exactly the second region's `start`:
    // the half-open law attributes it to the second region only.
    assert_eq!(s.get_rss(0x00010010).unwrap(), 2);
    assert_eq!(s.get_rss(0x0001000f).unwrap(), 1);
    assert_eq!(s.get_rss(0x00010020).unwrap_err(), SmapsError::AddressNotMapped);
}

#[test]
fn first_region_wins_on_overlap() {
    // Overlapping intervals never occur in a well-formed report; on an
    // ill-formed one the first match in sequence order wins.
    let text = "00010000-00010020 rw-p 00000000 00:00 0\n\
                Rss:      1 kB\n\
                00010010-00010030 rw-p 00000000 00:00 0\n\
                Rss:      2 kB\n";
    let s = parse_ok(text);
    assert_eq!(s.get_rss(0x00010018).unwrap(), 1);
    assert_eq!(s.get_rss(0x00010028).unwrap(), 2);
}

#[test]
fn get_map_finds_the_containing_region() {
    let text = "00010000-00010010 rw-p 00000000 00:00 0\n\
                Rss:      1 kB\n\
                Swap:     3 kB\n";
    let s = parse_ok(text);
    let m = s.get_map(0x00010008).unwrap();
    assert_eq!(m.get(b"Rss"), Some(1));
    assert_eq!(m.get(b"Swap"), Some(3));
    assert_eq!(m.get(b"Pss"), None);
    assert_eq!(s.get_map(0x00010010).unwrap_err(), SmapsError::AddressNotMapped);
}

#[test]
fn stat_map_lookup_honours_the_last_write() {
    let mut m = StatMap::new();
    assert_eq!(m.get(b"Rss"), None);
    m.insert(b"Rss".to_vec(), 4);
    m.insert(b"Pss".to_vec(), 2);
    assert_eq!(m.get(b"Rss"), Some(4));
    m.insert(b"Rss".to_vec(), 9);
    assert_eq!(m.get(b"Rss"), Some(9));
    assert_eq!(m.get(b"Pss"), Some(2));
}
