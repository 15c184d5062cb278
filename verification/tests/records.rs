use iana::addr::IpAddress;
use iana::cidr::{Ipv4Cidr, Ipv6Cidr};
use iana::country::Country;
use iana::error::Error;
use iana::parse::{parse, parse_content, split_lines, RecordSet};
use iana::range::Ipv4Range;
use iana::record::{IpBlock, ParseOutcome, Record};
use iana::registry::Registry;
use iana::status::Status;

fn v4(a: u8, b: u8, c: u8, d: u8) -> u32 {
    u32::from_be_bytes([a, b, c, d])
}

fn v6(groups: [u16; 8]) -> u128 {
    let mut n = 0u128;
    for g in groups {
        n = (n << 16) | g as u128;
    }
    n
}

fn failed(r: Result<Record, ParseOutcome>) -> Error {
    match r {
        Err(ParseOutcome::Failed(e)) => e,
        other => panic!("expected a failure, got {:?}", other),
    }
}

#[test]
fn ipv4_record_line() {
    let r = Record::from_str("apnic|CN|ipv4|1.0.1.0|256|20110414|allocated").unwrap();
    assert_eq!(r.src_registry(), Registry::Apnic);
    assert_eq!(r.country(), Country::from_str("CN").unwrap());
    assert_eq!(
        r.ip_block(),
        IpBlock::Ipv4Range(Ipv4Range::new(v4(1, 0, 1, 0), v4(1, 0, 1, 255)).unwrap())
    );
    assert_eq!(r.status(), Status::Allocated);
    assert_eq!(r.dst_registry(), None);
    assert!(r.is_ipv4());
    assert!(!r.is_ipv6());
    assert_eq!(r.type_(), "ipv4");
    assert_eq!(r.ip_version(), "ipv4");
    assert_eq!(r.ip_block().first(), IpAddress::Ipv4(v4(1, 0, 1, 0)));
    assert_eq!(r.ip_block().last(), IpAddress::Ipv4(v4(1, 0, 1, 255)));
}

#[test]
fn ipv6_record_line() {
    let r = Record::from_str("apnic|JP|ipv6|2001:218::|32|19990827|allocated|A91A6B43").unwrap();
    assert_eq!(r.src_registry(), Registry::Apnic);
    assert_eq!(r.country().code(), "JP");
    let block = Ipv6Cidr::new(v6([0x2001, 0x218, 0, 0, 0, 0, 0, 0]), 32).unwrap();
    assert_eq!(r.ip_block(), IpBlock::Ipv6Cidr(block));
    assert!(r.is_ipv6());
    assert_eq!(r.type_(), "ipv6");
    assert_eq!(r.ip_block().first(), IpAddress::Ipv6(v6([0x2001, 0x218, 0, 0, 0, 0, 0, 0])));
    assert_eq!(
        r.ip_block().last(),
        IpAddress::Ipv6(v6([0x2001, 0x218, 0xffff, 0xffff, 0xffff, 0xffff, 0xffff, 0xffff]))
    );
}

#[test]
fn iana_record_names_its_destination() {
    let r = Record::from_str("iana|ZZ|ipv4|1.0.0.0|16777216|20100122|apnic").unwrap();
    assert_eq!(r.src_registry(), Registry::Iana);
    assert_eq!(r.status(), Status::Assigned);
    assert_eq!(r.dst_registry(), Some(Registry::Apnic));
    assert!(r.country().is_unknown());
    let bad = failed(Record::from_str("iana|ZZ|ipv4|1.0.0.0|16777216|20100122|allocated"));
    assert!(matches!(bad, Error::ParseRegistryError(_)));
}

#[test]
fn empty_country_is_unknown() {
    let r = Record::from_str("arin||ipv4|7.0.0.0|256|20000101|reserved").unwrap();
    assert_eq!(r.country(), Country::unknown());
    assert_eq!(r.country().code(), "ZZ");
    let r = Record::from_str("arin|  |ipv4|7.0.0.0|256|20000101|available").unwrap();
    assert!(r.country().is_unknown());
    assert_eq!(r.status(), Status::Available);
}

#[test]
fn short_lines_are_no_records() {
    for line in [
        "",
        "apnic",
        "apnic|*|ipv4|*|41615|summary",
        "apnic|CN|ipv4|1.0.1.0|256|20110414",
        "a|b|c|d|e|f",
    ] {
        assert_eq!(Record::from_str(line), Err(ParseOutcome::NotARecord));
    }
}

#[test]
fn other_types_are_no_records() {
    assert_eq!(
        Record::from_str("apnic|JP|asn|173|1|20020801|allocated"),
        Err(ParseOutcome::NotARecord)
    );
    assert_eq!(
        Record::from_str("apnic|JP|IPV4|1.0.0.0|256|20020801|allocated"),
        Err(ParseOutcome::NotARecord)
    );
}

#[test]
fn each_error_has_its_line() {
    let e = failed(Record::from_str("nowhere|CN|ipv4|1.0.1.0|256|20110414|allocated"));
    assert_eq!(e, Error::ParseRegistryError("Unknow Registry Name (nowhere)".to_string()));
    let e = failed(Record::from_str("apnic|cn|ipv4|1.0.1.0|256|20110414|allocated"));
    assert_eq!(e, Error::ParseCountryError("Unknow Country Code (cn)".to_string()));
    let e = failed(Record::from_str("apnic|CN|ipv4|1.0.1.0|256|20110414|taken"));
    assert_eq!(e, Error::ParseStatusError("Unknow Status (taken)".to_string()));
    let e = failed(Record::from_str("apnic|CN|ipv4|1.0.1|256|20110414|allocated"));
    assert!(matches!(e, Error::ParseRecordError(_)));
    let e = failed(Record::from_str("apnic|CN|ipv4|1.0.1.0|0|20110414|allocated"));
    assert!(matches!(e, Error::ParseRecordError(_)));
    let e = failed(Record::from_str("apnic|CN|ipv4|1.0.1.0|x|20110414|allocated"));
    assert!(matches!(e, Error::ParseRecordError(_)));
    let e = failed(Record::from_str("apnic|CN|ipv4|1.0.1.0|4294967296|20110414|allocated"));
    assert!(matches!(e, Error::ParseRecordError(_)));
    let e = failed(Record::from_str("apnic|CN|ipv4|255.255.255.0|257|20110414|allocated"));
    assert!(matches!(e, Error::InvalidRangeError(_)));
    let e = failed(Record::from_str("apnic|CN|ipv6|2001:218::|129|20110414|allocated"));
    assert!(matches!(e, Error::ParseRecordError(_)));
    let e = failed(Record::from_str("apnic|CN|ipv6|2001:218|32|20110414|allocated"));
    assert!(matches!(e, Error::ParseRecordError(_)));
}

#[test]
fn ipv6_prefix_bounds() {
    assert!(Record::from_str("ripencc|DE|ipv6|2a00::|128|20110414|assigned").is_ok());
    assert!(Record::from_str("ripencc|DE|ipv6|::|0|20110414|assigned").is_ok());
    assert!(Ipv6Cidr::new(0, 129).is_none());
    let whole = Ipv6Cidr::new(77, 0).unwrap();
    assert_eq!(whole.first_address(), 0);
    assert_eq!(whole.last_address(), u128::MAX);
    let one = Ipv6Cidr::new(77, 128).unwrap();
    assert_eq!(one.first_address(), 77);
    assert_eq!(one.last_address(), 77);
    assert!(one.contains(77));
    assert!(!one.contains(78));
    let b = Ipv6Cidr::new(v6([0x2001, 0xdb8, 0x1234, 0, 0, 0, 0, 1]), 32).unwrap();
    assert_eq!(b.address(), v6([0x2001, 0xdb8, 0x1234, 0, 0, 0, 0, 1]));
    assert_eq!(b.prefix_len(), 32);
    assert_eq!(b.first_address(), v6([0x2001, 0xdb8, 0, 0, 0, 0, 0, 0]));
    assert_eq!(b.last_address(), v6([0x2001, 0xdb8, 0xffff, 0xffff, 0xffff, 0xffff, 0xffff, 0xffff]));
}

#[test]
fn block_bounds_of_each_kind() {
    let range = IpBlock::Ipv4Range(Ipv4Range::new(10, 20).unwrap());
    assert_eq!(range.first(), IpAddress::Ipv4(10));
    assert_eq!(range.last(), IpAddress::Ipv4(20));
    assert!(range.is_ipv4());
    let cidr = IpBlock::Ipv4Cidr(Ipv4Cidr::new(v4(10, 1, 2, 3), 8).unwrap());
    assert_eq!(cidr.first(), IpAddress::Ipv4(v4(10, 0, 0, 0)));
    assert_eq!(cidr.last(), IpAddress::Ipv4(v4(10, 255, 255, 255)));
    assert!(cidr.is_ipv4());
    assert!(!cidr.is_ipv6());
    let six = IpBlock::Ipv6Cidr(Ipv6Cidr::new(1 << 64, 64).unwrap());
    assert_eq!(six.first(), IpAddress::Ipv6(1 << 64));
    assert_eq!(six.last(), IpAddress::Ipv6((1 << 64) + (u64::MAX as u128)));
    assert!(six.is_ipv6());
}

const FILE: &str = "# a comment before the header\n\
2|apnic|20240101|5|19830613|20231231|+1000\n\
apnic|*|asn|*|1|summary\n\
apnic|*|ipv4|*|2|summary\n\
apnic|*|ipv6|*|1|summary\n\
# a comment among the records\n\
apnic|JP|asn|173|1|20020801|allocated\n\
apnic|CN|ipv4|1.0.1.0|256|20110414|allocated\r\n\
apnic|AU|ipv4|1.0.0.0|256|20110811|assigned\n\
apnic|CN|ipv4|1.0.1.0|256|20110414|allocated\n\
apnic|xx|ipv4|9.9.9.0|256|20110414|allocated\n\
apnic|JP|ipv6|2001:218::|32|19990827|allocated";

#[test]
fn file_lines() {
    let chars: Vec<char> = "a\r\nb\n\nc\r".chars().collect();
    let lines: Vec<String> = split_lines(&chars).iter().map(|l| l.iter().collect()).collect();
    assert_eq!(lines, vec!["a", "b", "", "c\r"]);
    let chars: Vec<char> = "a\n".chars().collect();
    assert_eq!(split_lines(&chars).len(), 1);
    assert_eq!(split_lines(&Vec::new()).len(), 0);
}

#[test]
fn file_records() {
    let mut records = RecordSet::new();
    parse_content(FILE, &mut records);
    assert_eq!(records.len(), 3);
    let lines: Vec<String> = records.into_records().iter().map(|r| r.to_rir()).collect();
    assert_eq!(
        lines,
        vec![
            "apnic CN ipv4 1.0.1.0 256 allocated none",
            "apnic AU ipv4 1.0.0.0 256 assigned none",
            "apnic JP ipv6 2001:218:: 32 allocated none",
        ]
    );
}

#[test]
fn header_is_passed_over_even_if_it_is_a_record() {
    let mut set = RecordSet::new();
    parse_content(
        "apnic|CN|ipv4|1.0.1.0|256|20110414|allocated\napnic|CN|ipv4|1.0.2.0|256|20110414|allocated\n",
        &mut set,
    );
    let records = set.into_records();
    assert_eq!(records.len(), 1);
    assert_eq!(records[0].ip_block().first(), IpAddress::Ipv4(v4(1, 0, 2, 0)));
}

#[test]
fn records_of_several_files_come_once() {
    let other = "2|arin|20240101\narin|US|ipv4|8.8.8.0|256|20140101|allocated\n\
apnic|CN|ipv4|1.0.1.0|256|20110414|allocated\n";
    let records = parse(&vec![FILE.to_string(), other.to_string(), FILE.to_string()]);
    let lines: Vec<String> = records.iter().map(|r| r.to_rir()).collect();
    assert_eq!(
        lines,
        vec![
            "apnic CN ipv4 1.0.1.0 256 allocated none",
            "apnic AU ipv4 1.0.0.0 256 assigned none",
            "apnic JP ipv6 2001:218:: 32 allocated none",
            "arin US ipv4 8.8.8.0 256 allocated none",
        ]
    );
    assert!(parse(&Vec::new()).is_empty());
}

#[test]
fn record_in_rir_layout() {
    let r = Record::from_str("iana|ZZ|ipv4|1.0.0.0|16777216|20100122|apnic").unwrap();
    assert_eq!(r.to_rir(), "iana ZZ ipv4 1.0.0.0 16777216 assigned apnic");
    let r = Record::from_str("ripencc|DE|ipv6|2a00:1::|29|20110414|assigned").unwrap();
    assert_eq!(r.to_rir(), "ripencc DE ipv6 2a00:1:: 29 assigned none");
    let cidr = Record {
        src_registry: Registry::Lacnic,
        country: Country::from_str("BR").unwrap(),
        ip_block: IpBlock::Ipv4Cidr(Ipv4Cidr::new(v4(200, 1, 2, 3), 16).unwrap()),
        status: Status::Reserved,
        dst_registry: None,
    };
    assert_eq!(cidr.to_rir(), "lacnic BR ipv4 200.1.2.3 16 reserved none");
    assert_eq!(cidr.to_cidr(), "lacnic BR ipv4 200.1.2.3/16 reserved none");
    assert_eq!(cidr.ip_block().to_text(), "200.1.2.3/16");
}

#[test]
fn record_in_cidr_notation() {
    let r = Record::from_str("arin|US|ipv4|23.18.22.0|512|20110414|allocated").unwrap();
    assert_eq!(
        r.to_cidr(),
        "arin US ipv4 23.18.22.0/23 allocated none"
    );
    let r = Record::from_str("arin|US|ipv4|23.18.23.0|257|20110414|allocated").unwrap();
    assert_eq!(
        r.to_cidr(),
        "arin US ipv4 23.18.23.0/24 allocated none\narin US ipv4 23.18.24.0/32 allocated none"
    );
    assert_eq!(r.ip_block().to_text(), "23.18.23.0 - 23.18.24.0");
    let r = Record::from_str("apnic|JP|ipv6|2001:218::|32|19990827|allocated").unwrap();
    assert_eq!(r.to_cidr(), "apnic JP ipv6 2001:218::/32 allocated none");
    assert_eq!(r.ip_block().to_text(), "2001:218::/32");
    assert_eq!(r.cidr_line_of("x".to_string()), "apnic JP ipv6 x allocated none");
}

#[test]
fn record_as_table_row() {
    let r = Record::from_str("arin|US|ipv4|8.8.8.0|256|20140101|allocated").unwrap();
    assert_eq!(r.codegen(7), "(134744064, 134744319, 7)");
    let r = Record::from_str("apnic|JP|ipv6|::1:0|112|19990827|allocated").unwrap();
    assert_eq!(r.codegen(255), "(65536, 131071, 255)");
}

#[test]
fn record_set_keeps_each_record_once() {
    let a = Record::from_str("apnic|CN|ipv4|1.0.1.0|256|20110414|allocated").unwrap();
    let same_start = Record::from_str("apnic|CN|ipv4|1.0.1.0|512|20110414|allocated").unwrap();
    let other_status = Record::from_str("apnic|CN|ipv4|1.0.1.0|256|20110414|assigned").unwrap();
    let six = Record::from_str("apnic|JP|ipv6|::100:100|128|19990827|allocated").unwrap();
    let mut set = RecordSet::new();
    assert!(!set.contains(&a));
    assert!(set.insert(a));
    assert!(set.contains(&a));
    assert!(!set.insert(a));
    // Records that begin at the same address and differ elsewhere are different records.
    assert!(!set.contains(&same_start));
    assert!(set.insert(same_start));
    assert!(set.insert(other_status));
    assert!(set.insert(six));
    assert!(!set.insert(six));
    assert!(!set.insert(same_start));
    assert_eq!(set.len(), 4);
    assert_eq!(set.into_records(), vec![a, same_start, other_status, six]);
}

#[test]
fn many_records_are_read_quickly() {
    let mut content = String::from("2|test|header\n");
    for i in 0..60000u32 {
        let start = i * 256;
        content.push_str(&format!(
            "arin|US|ipv4|{}.{}.{}.0|256|20110414|allocated\n",
            start >> 24,
            (start >> 16) & 255,
            (start >> 8) & 255
        ));
    }
    let records = parse(&vec![content.clone(), content]);
    assert_eq!(records.len(), 60000);
    let table = iana::table::build(&records).unwrap();
    assert_eq!(table.ipv4().len(), 60000);
    assert!(table.lookup_ipv4(59999 * 256 + 7).is_some());
}

#[test]
fn selecting_for_reports() {
    let records = parse(&vec![format!(
        "header\n{}\n{}\n{}\n{}\n{}\n",
        "arin|US|ipv4|8.8.8.0|256|20140101|allocated",
        "apnic|JP|ipv6|2001:218::|32|19990827|allocated",
        "iana|ZZ|ipv4|1.0.0.0|16777216|20100122|apnic",
        "apnic|CN|ipv4|1.0.1.0|256|20110414|allocated",
        "iana|ZZ|ipv6|2001:200::|23|19990701|apnic"
    )]);
    assert_eq!(records.len(), 5);
    let lines = |rs: Vec<Record>| -> Vec<String> { rs.iter().map(|r| r.to_rir()).collect() };
    assert_eq!(
        lines(iana::report::select(&records, true, false)),
        vec!["apnic CN ipv4 1.0.1.0 256 allocated none", "arin US ipv4 8.8.8.0 256 allocated none"]
    );
    assert_eq!(
        lines(iana::report::select(&records, false, false)),
        vec!["apnic JP ipv6 2001:218:: 32 allocated none"]
    );
    assert_eq!(
        lines(iana::report::select(&records, true, true)),
        vec!["iana ZZ ipv4 1.0.0.0 16777216 assigned apnic"]
    );
    assert_eq!(
        lines(iana::report::select(&records, false, true)),
        vec!["iana ZZ ipv6 2001:200:: 23 assigned apnic"]
    );
}

#[test]
fn family_records() {
    let cn = Country::from_str("CN").unwrap();
    let four = iana::rir::Ipv4Record {
        src_registry: Registry::Apnic,
        country: cn,
        start: v4(1, 0, 1, 0),
        num: 768,
        status: Status::Allocated,
        dst_registry: None,
    };
    assert_eq!(four.to_rir().unwrap(), "apnic CN ipv4 1.0.1.0 768 allocated none");
    assert_eq!(
        four.to_cidr().unwrap(),
        "apnic CN ipv4 1.0.1.0/24 allocated none\napnic CN ipv4 1.0.2.0/23 allocated none"
    );
    assert_eq!(iana::rir::Record::Ipv4(four).to_rir(), four.to_rir());
    assert_eq!(iana::rir::Record::Ipv4(four).to_cidr(), four.to_cidr());
    let none = iana::rir::Ipv4Record { num: 0, ..four };
    assert!(matches!(none.to_rir(), Err(Error::InvalidRangeError(_))));
    assert!(matches!(none.to_cidr(), Err(Error::InvalidRangeError(_))));
    let beyond = iana::rir::Ipv4Record { start: u32::MAX, num: 2, ..four };
    assert!(matches!(beyond.to_record(), Err(Error::InvalidRangeError(_))));
    let six = iana::rir::Ipv6Record {
        src_registry: Registry::Iana,
        country: Country::unknown(),
        start: 0x2001_0200u128 << 96,
        prefix: 23,
        status: Status::Allocated,
        dst_registry: Some(Registry::Apnic),
    };
    assert_eq!(six.to_rir().unwrap(), "iana ZZ ipv6 2001:200:: 23 allocated apnic");
    assert_eq!(six.to_cidr().unwrap(), "iana ZZ ipv6 2001:200::/23 allocated apnic");
    assert_eq!(iana::rir::Record::Ipv6(six).to_cidr(), six.to_cidr());
    let long = iana::rir::Ipv6Record { prefix: 129, ..six };
    assert!(matches!(long.to_rir(), Err(Error::ParseRecordError(_))));
    assert!(matches!(iana::rir::Record::Ipv6(long).to_cidr(), Err(Error::ParseRecordError(_))));
}

#[test]
fn written_ipv6_record_is_read_back() {
    for line in [
        "apnic|JP|ipv6|::ffff:1.2.3.4|128|19990827|allocated",
        "apnic|JP|ipv6|2001:218::|32|19990827|allocated",
        "arin|US|ipv6|64:ff9b::|96|20110414|reserved",
    ] {
        let r = Record::from_str(line).unwrap();
        // The columns of the written record, put between bars again, give the record back.
        let written = r.to_rir();
        let columns: Vec<&str> = written.split(' ').collect();
        let again = format!(
            "{}|{}|{}|{}|{}|date|{}",
            columns[0], columns[1], columns[2], columns[3], columns[4], columns[5]
        );
        assert_eq!(Record::from_str(&again), Ok(r));
    }
    let mapped = Record::from_str("apnic|JP|ipv6|::ffff:1.2.3.4|128|19990827|allocated").unwrap();
    assert_eq!(mapped.to_rir(), "apnic JP ipv6 ::ffff:1.2.3.4 128 allocated none");
    assert_eq!(mapped.ip_block().first(), IpAddress::Ipv6(0xffff_0102_0304));
}

#[test]
fn ipv6_block_with_host_bits_spans_its_network() {
    let written = v6([0x2001, 0xdb8, 0x1234, 0, 0, 0, 0, 1]);
    let block = IpBlock::Ipv6Cidr(Ipv6Cidr::new(written, 32).unwrap());
    assert_eq!(block.first(), IpAddress::Ipv6(v6([0x2001, 0xdb8, 0, 0, 0, 0, 0, 0])));
    assert_eq!(
        block.last(),
        IpAddress::Ipv6(v6([0x2001, 0xdb8, 0xffff, 0xffff, 0xffff, 0xffff, 0xffff, 0xffff]))
    );
    let r = Record::from_str("apnic|JP|ipv6|2001:db8:1234::1|32|19990827|allocated").unwrap();
    assert_eq!(r.ip_block(), block);
    // The record is written with the address it was read with.
    assert_eq!(r.to_rir(), "apnic JP ipv6 2001:db8:1234::1 32 allocated none");
    let table = iana::table::build(&vec![r]).unwrap();
    let entry = table.ipv6()[0];
    assert_eq!(entry.first, v6([0x2001, 0xdb8, 0, 0, 0, 0, 0, 0]));
    assert_eq!(entry.last, v6([0x2001, 0xdb8, 0xffff, 0xffff, 0xffff, 0xffff, 0xffff, 0xffff]));
    assert_eq!(table.lookup_ipv6(v6([0x2001, 0xdb8, 0, 0, 0, 0, 0, 0])), Some(entry));
    assert_eq!(table.lookup_ipv6(entry.last), Some(entry));
    assert_eq!(table.lookup_ipv6(entry.last + 1), None);
    assert_eq!(r.codegen(3), format!("({}, {}, 3)", entry.first, entry.last));
}

#[test]
fn built_table_answers_for_every_address_of_a_record() {
    let records: Vec<Record> = [
        "arin|US|ipv4|8.8.8.0|256|20140101|allocated",
        "apnic|CN|ipv4|1.0.1.0|1|20110414|allocated",
    ]
    .iter()
    .map(|l| Record::from_str(l).unwrap())
    .collect();
    let table = iana::table::build(&records).unwrap();
    for a in v4(8, 8, 8, 0)..=v4(8, 8, 8, 255) {
        assert_eq!(table.lookup_ipv4(a).unwrap().country.code(), "US");
    }
    assert_eq!(table.lookup_ipv4(v4(8, 8, 7, 255)), None);
    assert_eq!(table.lookup_ipv4(v4(8, 8, 9, 0)), None);
    assert_eq!(table.lookup_ipv4(v4(1, 0, 1, 0)).unwrap().country.code(), "CN");
    assert_eq!(table.lookup_ipv4(v4(1, 0, 1, 1)), None);
}
