use iana::addr::IpAddress;
use iana::country::Country;
use iana::record::Record;
use iana::table::{build, in_order, lookup, search, Entry, LookupTable};

fn v4(a: u8, b: u8, c: u8, d: u8) -> u32 {
    u32::from_be_bytes([a, b, c, d])
}

fn country(code: &str) -> Country {
    Country::from_str(code).unwrap()
}

fn e4(first: u32, last: u32, code: &str) -> Entry<u32> {
    Entry { first, last, country: country(code) }
}

fn e6(first: u128, last: u128, code: &str) -> Entry<u128> {
    Entry { first, last, country: country(code) }
}

fn small_table() -> LookupTable {
    LookupTable::new(
        vec![
            e4(v4(1, 0, 0, 0), v4(1, 0, 0, 255), "AU"),
            e4(v4(1, 0, 1, 0), v4(1, 0, 1, 255), "CN"),
            e4(v4(8, 8, 8, 0), v4(8, 8, 8, 255), "US"),
            e4(v4(9, 0, 0, 0), v4(9, 0, 0, 0), "US"),
        ],
        vec![
            e6(0x2001_0218u128 << 96, (0x2001_0219u128 << 96) - 1, "JP"),
            e6(0x2620_0000u128 << 96, (0x2620_0001u128 << 96) - 1, "US"),
        ],
    )
    .unwrap()
}

#[test]
fn test_lookup_ipv4() {
    let table = small_table();
    assert_eq!(lookup(&table, &IpAddress::Ipv4(v4(8, 8, 8, 8))).is_some(), true);
}

#[test]
fn test_lookup_ipv6() {
    let table = small_table();
    // 2001:218::
    assert_eq!(lookup(&table, &IpAddress::Ipv6(0x2001_0218u128 << 96)).is_some(), true);
}

#[test]
fn lookup_gives_the_entry() {
    let table = small_table();
    assert_eq!(
        lookup(&table, &IpAddress::Ipv4(v4(8, 8, 8, 8))),
        Some((
            IpAddress::Ipv4(v4(8, 8, 8, 0)),
            IpAddress::Ipv4(v4(8, 8, 8, 255)),
            country("US")
        ))
    );
    assert_eq!(table.lookup_ipv4(v4(1, 0, 1, 0)), Some(e4(v4(1, 0, 1, 0), v4(1, 0, 1, 255), "CN")));
    assert_eq!(table.lookup_ipv4(v4(1, 0, 0, 254)), Some(e4(v4(1, 0, 0, 0), v4(1, 0, 0, 255), "AU")));
    assert_eq!(
        lookup(&table, &IpAddress::Ipv6((0x2001_0218u128 << 96) + 12345)),
        Some((
            IpAddress::Ipv6(0x2001_0218u128 << 96),
            IpAddress::Ipv6((0x2001_0219u128 << 96) - 1),
            country("JP")
        ))
    );
}

#[test]
fn lookup_outside_every_entry() {
    let table = small_table();
    for addr in [0, v4(0, 255, 255, 255), v4(1, 0, 2, 0), v4(8, 8, 7, 255), v4(8, 8, 9, 0), u32::MAX] {
        assert_eq!(lookup(&table, &IpAddress::Ipv4(addr)), None);
    }
    assert_eq!(lookup(&table, &IpAddress::Ipv6(0)), None);
    assert_eq!(lookup(&table, &IpAddress::Ipv6(0x2001_0219u128 << 96)), None);
    assert_eq!(lookup(&table, &IpAddress::Ipv6(u128::MAX)), None);
    // The families are kept apart: the number of an IPv4 entry is no IPv6 address of the table.
    assert_eq!(lookup(&table, &IpAddress::Ipv6(v4(8, 8, 8, 8) as u128)), None);
}

#[test]
fn both_bounds_of_an_entry_lie_in_it() {
    let table = small_table();
    let us = e4(v4(8, 8, 8, 0), v4(8, 8, 8, 255), "US");
    assert_eq!(table.lookup_ipv4(v4(8, 8, 8, 0)), Some(us));
    assert_eq!(table.lookup_ipv4(v4(8, 8, 8, 254)), Some(us));
    assert_eq!(table.lookup_ipv4(v4(8, 8, 8, 255)), Some(us));
    assert_eq!(
        lookup(&table, &IpAddress::Ipv4(v4(8, 8, 8, 255))),
        Some((IpAddress::Ipv4(v4(8, 8, 8, 0)), IpAddress::Ipv4(v4(8, 8, 8, 255)), country("US")))
    );
    // Neighbours that touch: each bound belongs to its own entry.
    assert_eq!(table.lookup_ipv4(v4(1, 0, 0, 255)), Some(e4(v4(1, 0, 0, 0), v4(1, 0, 0, 255), "AU")));
    assert_eq!(table.lookup_ipv4(v4(1, 0, 1, 0)), Some(e4(v4(1, 0, 1, 0), v4(1, 0, 1, 255), "CN")));
    // An entry of one address answers for that address.
    assert_eq!(table.lookup_ipv4(v4(9, 0, 0, 0)), Some(e4(v4(9, 0, 0, 0), v4(9, 0, 0, 0), "US")));
    assert_eq!(table.lookup_ipv4(v4(9, 0, 0, 1)), None);
    assert_eq!(table.lookup_ipv4(v4(8, 255, 255, 255)), None);
    let jp = e6(0x2001_0218u128 << 96, (0x2001_0219u128 << 96) - 1, "JP");
    assert_eq!(table.lookup_ipv6((0x2001_0219u128 << 96) - 1), Some(jp));
    assert_eq!(table.lookup_ipv6(0x2001_0218u128 << 96), Some(jp));
    assert_eq!(table.lookup_ipv6(0x2001_0219u128 << 96), None);
}

#[test]
fn lookup_at_the_ends_of_the_address_space() {
    let table = LookupTable::new(
        vec![e4(0, 0, "AU"), e4(u32::MAX - 1, u32::MAX, "US")],
        vec![e6(0, 5, "AU"), e6(u128::MAX, u128::MAX, "US")],
    )
    .unwrap();
    assert_eq!(table.lookup_ipv4(0), Some(e4(0, 0, "AU")));
    assert_eq!(table.lookup_ipv4(1), None);
    assert_eq!(table.lookup_ipv4(u32::MAX), Some(e4(u32::MAX - 1, u32::MAX, "US")));
    assert_eq!(table.lookup_ipv6(5), Some(e6(0, 5, "AU")));
    assert_eq!(table.lookup_ipv6(6), None);
    assert_eq!(table.lookup_ipv6(u128::MAX), Some(e6(u128::MAX, u128::MAX, "US")));
}

#[test]
fn empty_table() {
    let table = LookupTable::new(Vec::new(), Vec::new()).unwrap();
    assert_eq!(lookup(&table, &IpAddress::Ipv4(1)), None);
    assert_eq!(lookup(&table, &IpAddress::Ipv6(1)), None);
    assert!(table.ipv4().is_empty());
    assert!(table.ipv6().is_empty());
}

#[test]
fn search_finds_every_entry() {
    let mut entries = Vec::new();
    for i in 0..1000u32 {
        entries.push(e4(i * 10, i * 10 + 5, "DE"));
    }
    assert!(in_order(&entries));
    for i in 0..1000u32 {
        assert_eq!(search(&entries, i * 10), Some(i as usize));
        assert_eq!(search(&entries, i * 10 + 4), Some(i as usize));
        assert_eq!(search(&entries, i * 10 + 5), Some(i as usize));
        assert_eq!(search(&entries, i * 10 + 6), None);
        assert_eq!(search(&entries, i * 10 + 9), None);
    }
}

#[test]
fn tables_out_of_order_are_refused() {
    let unsorted = vec![e4(20, 30, "US"), e4(0, 10, "US")];
    assert!(!in_order(&unsorted));
    assert!(LookupTable::new(unsorted, Vec::new()).is_none());
    let overlapping = vec![e4(0, 10, "US"), e4(10, 30, "US")];
    assert!(LookupTable::new(overlapping, Vec::new()).is_none());
    let backwards = vec![e4(10, 0, "US")];
    assert!(LookupTable::new(backwards, Vec::new()).is_none());
    let bad_v6 = vec![e6(5, 9, "US"), e6(9, 12, "US")];
    assert!(LookupTable::new(Vec::new(), bad_v6).is_none());
    let touching = vec![e4(0, 9, "US"), e4(10, 30, "CA")];
    assert!(LookupTable::new(touching, Vec::new()).is_some());
}

fn records(lines: &[&str]) -> Vec<Record> {
    lines.iter().map(|l| Record::from_str(l).unwrap()).collect()
}

#[test]
fn build_sorts_the_entries() {
    let table = build(&records(&[
        "arin|US|ipv4|8.8.8.0|256|20140101|allocated",
        "apnic|JP|ipv6|2001:218::|32|19990827|allocated",
        "apnic|CN|ipv4|1.0.1.0|256|20110414|allocated",
        "arin|US|ipv6|2620::|32|19990827|allocated",
        "apnic|AU|ipv4|1.0.0.0|256|20110811|assigned",
        "ripencc|DE|ipv6|2a00::|20|19990827|allocated",
    ]))
    .unwrap();
    assert_eq!(
        *table.ipv4(),
        vec![
            e4(v4(1, 0, 0, 0), v4(1, 0, 0, 255), "AU"),
            e4(v4(1, 0, 1, 0), v4(1, 0, 1, 255), "CN"),
            e4(v4(8, 8, 8, 0), v4(8, 8, 8, 255), "US"),
        ]
    );
    assert_eq!(
        *table.ipv6(),
        vec![
            e6(0x2001_0218u128 << 96, (0x2001_0219u128 << 96) - 1, "JP"),
            e6(0x2620_0000u128 << 96, (0x2620_0001u128 << 96) - 1, "US"),
            e6(0x2a00u128 << 112, (0x2a00_1000u128 << 96) - 1, "DE"),
        ]
    );
    assert_eq!(
        lookup(&table, &IpAddress::Ipv4(v4(8, 8, 8, 8))),
        Some((
            IpAddress::Ipv4(v4(8, 8, 8, 0)),
            IpAddress::Ipv4(v4(8, 8, 8, 255)),
            country("US")
        ))
    );
}

#[test]
fn build_refuses_overlap_and_repetition() {
    assert!(build(&records(&[
        "apnic|CN|ipv4|1.0.1.0|256|20110414|allocated",
        "apnic|AU|ipv4|1.0.1.128|256|20110811|assigned",
    ]))
    .is_none());
    assert!(build(&records(&[
        "apnic|CN|ipv4|1.0.1.0|256|20110414|allocated",
        "apnic|CN|ipv4|1.0.1.0|256|20110414|allocated",
    ]))
    .is_none());
    assert!(build(&records(&[
        "apnic|JP|ipv6|2001:218::|32|19990827|allocated",
        "apnic|JP|ipv6|2001:218:8000::|33|19990827|allocated",
    ]))
    .is_none());
    assert!(build(&Vec::new()).is_some());
}

#[test]
fn build_leaves_out_iana_records_without_destination() {
    let mut all = records(&[
        "iana|ZZ|ipv4|1.0.0.0|16777216|20100122|apnic",
        "arin|US|ipv4|8.8.8.0|256|20140101|allocated",
    ]);
    all[0].dst_registry = None;
    let table = build(&all).unwrap();
    assert_eq!(*table.ipv4(), vec![e4(v4(8, 8, 8, 0), v4(8, 8, 8, 255), "US")]);
    // With its destination the record of IANA goes in.
    let all = records(&[
        "iana|ZZ|ipv4|1.0.0.0|16777216|20100122|apnic",
        "arin|US|ipv4|8.8.8.0|256|20140101|allocated",
    ]);
    assert_eq!(build(&all).unwrap().ipv4().len(), 2);
}
