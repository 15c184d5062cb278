//! Delegation records: one line of a delegation file, read into its parts.

use vstd::prelude::*;
use vstd::string::StringExecFns;

use crate::addr::{ipv4_text, ipv6_text, parse_ipv4, parse_ipv6, IpAddress};
use crate::cidr::{CidrView, Ipv4Cidr, Ipv6Cidr};
use crate::country::{is_country_code, Country};
use crate::error::Error;
use crate::range::{Ipv4Range, RangeView};
use crate::registry::Registry;
use crate::status::Status;
use crate::text::{blank, copy_range, decimal, field_bounds, is_blank, parse_decimal, split, text_is, to_chars};

verus! {

/// An address of either family as a number.
pub enum AddressView {
    Ipv4(int),
    Ipv6(int),
}

/// The block of addresses of a record, as numbers.
pub enum BlockView {
    Ipv4Range(RangeView),
    Ipv4Cidr(CidrView),
    Ipv6Cidr(CidrView),
}

impl BlockView {
    /// Lowest address of the block: the first address of a range, and of a
    /// CIDR block the address with its host bits cleared.
    pub open spec fn first(self) -> AddressView {
        match self {
            BlockView::Ipv4Range(range) => AddressView::Ipv4(range.first),
            BlockView::Ipv4Cidr(block) => AddressView::Ipv4(block.first()),
            BlockView::Ipv6Cidr(block) => AddressView::Ipv6(block.first()),
        }
    }

    /// Highest address of the block.
    pub open spec fn last(self) -> AddressView {
        match self {
            BlockView::Ipv4Range(range) => AddressView::Ipv4(range.last),
            BlockView::Ipv4Cidr(block) => AddressView::Ipv4(block.last()),
            BlockView::Ipv6Cidr(block) => AddressView::Ipv6(block.last()),
        }
    }

    /// Whether the block holds IPv4 addresses.
    pub open spec fn is_ipv4(self) -> bool {
        !(self is Ipv6Cidr)
    }
}

impl View for IpAddress {
    type V = AddressView;

    open spec fn view(&self) -> AddressView {
        match *self {
            IpAddress::Ipv4(bits) => AddressView::Ipv4(bits as int),
            IpAddress::Ipv6(bits) => AddressView::Ipv6(bits as int),
        }
    }
}

/// The addresses that a record delegates: an IPv4 range, or a single CIDR
/// block of either family.
#[derive(Debug, Copy, Clone, Hash, PartialEq, Eq, Structural)]
pub enum IpBlock {
    Ipv4Range(Ipv4Range),
    Ipv4Cidr(Ipv4Cidr),
    Ipv6Cidr(Ipv6Cidr),
}

impl View for IpBlock {
    type V = BlockView;

    open spec fn view(&self) -> BlockView {
        match *self {
            IpBlock::Ipv4Range(range) => BlockView::Ipv4Range(range@),
            IpBlock::Ipv4Cidr(block) => BlockView::Ipv4Cidr(block@),
            IpBlock::Ipv6Cidr(block) => BlockView::Ipv6Cidr(block@),
        }
    }
}

impl IpBlock {
    /// Lowest address of the block: the first address of a range, and of a
    /// CIDR block the address with its host bits cleared.
    pub fn first(&self) -> (r: IpAddress)
        ensures
            r@ == self@.first(),
    {
        match *self {
            IpBlock::Ipv4Range(range) => IpAddress::Ipv4(range.first()),
            IpBlock::Ipv4Cidr(block) => IpAddress::Ipv4(block.first_address()),
            IpBlock::Ipv6Cidr(block) => IpAddress::Ipv6(block.first_address()),
        }
    }

    /// Highest address of the block.
    pub fn last(&self) -> (r: IpAddress)
        ensures
            r@ == self@.last(),
    {
        match *self {
            IpBlock::Ipv4Range(range) => IpAddress::Ipv4(range.last()),
            IpBlock::Ipv4Cidr(block) => IpAddress::Ipv4(block.last_address()),
            IpBlock::Ipv6Cidr(block) => IpAddress::Ipv6(block.last_address()),
        }
    }

    /// Whether the block holds IPv4 addresses.
    pub fn is_ipv4(&self) -> (r: bool)
        ensures
            r == self@.is_ipv4(),
    {
        match *self {
            IpBlock::Ipv4Range(_) | IpBlock::Ipv4Cidr(_) => true,
            IpBlock::Ipv6Cidr(_) => false,
        }
    }

    /// Whether the block holds IPv6 addresses.
    pub fn is_ipv6(&self) -> (r: bool)
        ensures
            r == !self@.is_ipv4(),
    {
        match *self {
            IpBlock::Ipv4Range(_) | IpBlock::Ipv4Cidr(_) => false,
            IpBlock::Ipv6Cidr(_) => true,
        }
    }
}

/// Two blocks with the same numbers are the same block.
pub proof fn lemma_block_by_view(a: IpBlock, b: IpBlock)
    requires
        a@ == b@,
    ensures
        a == b,
{
    match (a, b) {
        (IpBlock::Ipv4Range(x), IpBlock::Ipv4Range(y)) => {
            crate::range::lemma_range_by_view(x, y);
        },
        (IpBlock::Ipv4Cidr(x), IpBlock::Ipv4Cidr(y)) => {
            crate::cidr::lemma_ipv4_cidr_by_view(x, y);
        },
        (IpBlock::Ipv6Cidr(x), IpBlock::Ipv6Cidr(y)) => {
            crate::cidr::lemma_ipv6_cidr_by_view(x, y);
        },
        _ => {},
    }
}

/// A delegation record as plain values.
pub struct RecordView {
    pub src_registry: Registry,
    pub country: Seq<char>,
    pub ip_block: BlockView,
    pub status: Status,
    pub dst_registry: Option<Registry>,
}

/// One delegation: who published it, for which country, which addresses,
/// in what state, and, for a record of IANA, to which registry.
#[derive(Debug, Copy, Clone, Hash, PartialEq, Eq, Structural)]
pub struct Record {
    pub src_registry: Registry,
    pub country: Country,
    pub ip_block: IpBlock,
    pub status: Status,
    pub dst_registry: Option<Registry>,
}

impl View for Record {
    type V = RecordView;

    open spec fn view(&self) -> RecordView {
        RecordView {
            src_registry: self.src_registry,
            country: self.country@,
            ip_block: self.ip_block@,
            status: self.status,
            dst_registry: self.dst_registry,
        }
    }
}

/// Two records with the same values are the same record.
pub proof fn lemma_record_by_view(a: Record, b: Record)
    requires
        a@ == b@,
    ensures
        a == b,
{
    crate::country::lemma_country_by_code(a.country, b.country);
    lemma_block_by_view(a.ip_block, b.ip_block);
}

/// Why a line gave no record.
#[derive(Debug, Clone, PartialEq, Eq)]
pub enum ParseOutcome {
    /// The line is no record of addresses: it has fewer than seven fields, or
    /// its type is neither `ipv4` nor `ipv6`. Such lines are passed over.
    NotARecord,
    /// The line is a record of addresses, and a field of it cannot be read.
    Failed(Error),
}

/// The kinds of reason for which a line gives no record.
pub enum Refusal {
    NotARecord,
    Registry,
    Country,
    Record,
    Status,
    Range,
}

/// The kind of reason that an outcome stands for.
pub open spec fn refusal_of(outcome: ParseOutcome) -> Refusal {
    match outcome {
        ParseOutcome::NotARecord => Refusal::NotARecord,
        ParseOutcome::Failed(Error::ParseRegistryError(_)) => Refusal::Registry,
        ParseOutcome::Failed(Error::ParseCountryError(_)) => Refusal::Country,
        ParseOutcome::Failed(Error::ParseRecordError(_)) => Refusal::Record,
        ParseOutcome::Failed(Error::ParseStatusError(_)) => Refusal::Status,
        ParseOutcome::Failed(Error::InvalidRangeError(_)) => Refusal::Range,
    }
}

/// What reading a line gave, as plain values.
pub open spec fn outcome_view(r: Result<Record, ParseOutcome>) -> Result<RecordView, Refusal> {
    match r {
        Ok(record) => Ok(record@),
        Err(outcome) => Err(refusal_of(outcome)),
    }
}

/// The country code that a country field stands for: `ZZ` for a field that is
/// empty or blank, the field itself otherwise.
pub open spec fn country_field(field: Seq<char>) -> Seq<char> {
    if is_blank(field) {
        Country::unknown_code()
    } else {
        field
    }
}

/// Status and destination registry of a record, from its seventh field. In a
/// record of IANA the field names the registry that receives the block and
/// the status is `Assigned`; in any other record it names the status.
pub open spec fn authority(src: Registry, field: Seq<char>) -> Result<
    (Status, Option<Registry>),
    Refusal,
> {
    if src == Registry::Iana {
        match Registry::named(field) {
            Some(dst) => Ok((Status::Assigned, Some(dst))),
            None => Err(Refusal::Registry),
        }
    } else {
        match Status::named(field) {
            Some(status) => Ok((status, None)),
            None => Err(Refusal::Status),
        }
    }
}

/// The record that a line of a delegation file writes, or why it writes none.
/// The fields stand between `|`: registry, country, type, first address,
/// count (IPv4) or prefix length (IPv6), date, status or destination registry.
pub open spec fn parse_line(line: Seq<char>) -> Result<RecordView, Refusal> {
    let fields = split(line, '|');
    if fields.len() < 7 {
        Err(Refusal::NotARecord)
    } else {
        match Registry::named(fields[0]) {
            None => Err(Refusal::Registry),
            Some(src) => {
                let code = country_field(fields[1]);
                if !is_country_code(code) {
                    Err(Refusal::Country)
                } else if fields[2] == "ipv4"@ {
                    parse_ipv4_record(src, code, fields[3], fields[4], fields[6])
                } else if fields[2] == "ipv6"@ {
                    parse_ipv6_record(src, code, fields[3], fields[4], fields[6])
                } else {
                    Err(Refusal::NotARecord)
                }
            },
        }
    }
}

/// The IPv4 record of `count` addresses from `start` on. The count is a
/// positive number, and the range does not pass the last IPv4 address.
pub open spec fn parse_ipv4_record(
    src: Registry,
    code: Seq<char>,
    start: Seq<char>,
    count: Seq<char>,
    seventh: Seq<char>,
) -> Result<RecordView, Refusal> {
    match (ipv4_text(start), decimal(count)) {
        (Some(first), Some(nums)) => {
            if nums == 0 || nums > u32::MAX {
                Err(Refusal::Record)
            } else {
                match authority(src, seventh) {
                    Err(refusal) => Err(refusal),
                    Ok((status, dst)) => {
                        if first + nums - 1 > u32::MAX {
                            Err(Refusal::Range)
                        } else {
                            Ok(
                                RecordView {
                                    src_registry: src,
                                    country: code,
                                    ip_block: BlockView::Ipv4Range(
                                        RangeView { first: first as int, last: first + nums - 1 },
                                    ),
                                    status: status,
                                    dst_registry: dst,
                                },
                            )
                        }
                    },
                }
            }
        },
        _ => Err(Refusal::Record),
    }
}

/// The IPv6 record of the block `start/prefix`. The prefix is at most 128.
pub open spec fn parse_ipv6_record(
    src: Registry,
    code: Seq<char>,
    start: Seq<char>,
    prefix: Seq<char>,
    seventh: Seq<char>,
) -> Result<RecordView, Refusal> {
    match (ipv6_text(start), decimal(prefix)) {
        (Some(address), Some(prefix_len)) => {
            if prefix_len > 128 {
                Err(Refusal::Record)
            } else {
                match authority(src, seventh) {
                    Err(refusal) => Err(refusal),
                    Ok((status, dst)) => Ok(
                        RecordView {
                            src_registry: src,
                            country: code,
                            ip_block: BlockView::Ipv6Cidr(
                                CidrView {
                                    address: address as int,
                                    prefix_len: prefix_len as int,
                                    width: 128,
                                },
                            ),
                            status: status,
                            dst_registry: dst,
                        },
                    ),
                }
            }
        },
        _ => Err(Refusal::Record),
    }
}

/// A line with fewer than seven fields is no record and no error: it is
/// passed over.
pub proof fn lemma_short_line_is_no_record(line: Seq<char>)
    requires
        split(line, '|').len() < 7,
    ensures
        parse_line(line) == Err::<RecordView, Refusal>(Refusal::NotARecord),
{
}

/// A record that a line writes names a registry of destination if and only
/// if IANA published it, and a record of IANA has the status `Assigned`.
pub proof fn lemma_parsed_record_authority(line: Seq<char>)
    ensures
        parse_line(line) matches Ok(record) ==> {
            &&& record.dst_registry is Some <==> record.src_registry == Registry::Iana
            &&& record.src_registry == Registry::Iana ==> record.status == Status::Assigned
        },
{
}

/// Reads status and destination registry from the seventh field.
fn read_authority(src: Registry, field: &Vec<char>) -> (r: Result<(Status, Option<Registry>), Error>)
    ensures
        match authority(src, field@) {
            Ok(pair) => r == Ok::<(Status, Option<Registry>), Error>(pair),
            Err(refusal) => r is Err && refusal_of(ParseOutcome::Failed(r->Err_0)) == refusal,
        },
{
    if src == Registry::Iana {
        match Registry::from_chars(field) {
            Ok(dst) => Ok((Status::Assigned, Some(dst))),
            Err(e) => Err(e),
        }
    } else {
        match Status::from_chars(field) {
            Ok(status) => Ok((status, None)),
            Err(e) => Err(e),
        }
    }
}

impl Record {
    /// The registry that published the record.
    pub fn src_registry(&self) -> (r: Registry)
        ensures
            r == self.src_registry,
    {
        self.src_registry
    }

    /// The country of the record.
    pub fn country(&self) -> (r: Country)
        ensures
            r == self.country,
    {
        self.country
    }

    /// The addresses of the record.
    pub fn ip_block(&self) -> (r: IpBlock)
        ensures
            r == self.ip_block,
    {
        self.ip_block
    }

    /// The status of the record.
    pub fn status(&self) -> (r: Status)
        ensures
            r == self.status,
    {
        self.status
    }

    /// The registry that receives the block, in a record of IANA.
    pub fn dst_registry(&self) -> (r: Option<Registry>)
        ensures
            r == self.dst_registry,
    {
        self.dst_registry
    }

    /// Whether the record delegates IPv4 addresses.
    pub fn is_ipv4(&self) -> (r: bool)
        ensures
            r == self.ip_block@.is_ipv4(),
    {
        self.ip_block.is_ipv4()
    }

    /// Whether the record delegates IPv6 addresses.
    pub fn is_ipv6(&self) -> (r: bool)
        ensures
            r == !self.ip_block@.is_ipv4(),
    {
        self.ip_block.is_ipv6()
    }

    /// Reads one line of a delegation file. Gives the record that the line
    /// writes, `NotARecord` for a line that is to be passed over, and the
    /// error of the first field that cannot be read otherwise.
    pub fn from_str(line: &str) -> (r: Result<Record, ParseOutcome>)
        ensures
            outcome_view(r) == parse_line(line@),
    {
        let chars = to_chars(line);
        Record::from_chars(&chars)
    }

    /// Reads one line of a delegation file, given as its characters.
    pub fn from_chars(line: &Vec<char>) -> (r: Result<Record, ParseOutcome>)
        ensures
            outcome_view(r) == parse_line(line@),
    {
        let bounds = field_bounds(line, '|');
        if bounds.len() < 7 {
            return Err(ParseOutcome::NotARecord);
        }
        let ghost fields = split(line@, '|');
        let registry_text = copy_range(line, bounds[0].0, bounds[0].1);
        let country_text = copy_range(line, bounds[1].0, bounds[1].1);
        let kind_text = copy_range(line, bounds[2].0, bounds[2].1);
        let start_text = copy_range(line, bounds[3].0, bounds[3].1);
        let value_text = copy_range(line, bounds[4].0, bounds[4].1);
        let seventh_text = copy_range(line, bounds[6].0, bounds[6].1);
        proof {
            assert(registry_text@ == fields[0]);
            assert(country_text@ == fields[1]);
            assert(kind_text@ == fields[2]);
            assert(start_text@ == fields[3]);
            assert(value_text@ == fields[4]);
            assert(seventh_text@ == fields[6]);
        }
        let src_registry = match Registry::from_chars(&registry_text) {
            Ok(registry) => registry,
            Err(e) => {
                return Err(ParseOutcome::Failed(e));
            },
        };
        let country_result = if blank(&country_text) {
            Ok(Country::unknown())
        } else {
            Country::from_chars(&country_text)
        };
        let country = match country_result {
            Ok(country) => country,
            Err(e) => {
                return Err(ParseOutcome::Failed(e));
            },
        };
        if text_is(&kind_text, "ipv4") {
            let start = parse_ipv4(&start_text);
            let nums = parse_decimal(&value_text, 0xffff_ffff);
            match (start, nums) {
                (Some(start_ip), Some(nums)) => {
                    if nums == 0 {
                        return Err(
                            ParseOutcome::Failed(
                                Error::ParseRecordError(
                                    String::from_str("a record counts at least one address"),
                                ),
                            ),
                        );
                    }
                    let (status, dst_registry) = match read_authority(src_registry, &seventh_text) {
                        Ok(pair) => pair,
                        Err(e) => {
                            return Err(ParseOutcome::Failed(e));
                        },
                    };
                    match Ipv4Range::with_nums(start_ip, nums as u32) {
                        Ok(range) => Ok(
                            Record {
                                src_registry,
                                country,
                                ip_block: IpBlock::Ipv4Range(range),
                                status,
                                dst_registry,
                            },
                        ),
                        Err(e) => Err(ParseOutcome::Failed(e)),
                    }
                },
                _ => Err(
                    ParseOutcome::Failed(
                        Error::ParseRecordError(
                            String::from_str("first address or count cannot be read"),
                        ),
                    ),
                ),
            }
        } else if text_is(&kind_text, "ipv6") {
            let start = parse_ipv6(&start_text);
            let prefix = parse_decimal(&value_text, 128);
            match (start, prefix) {
                (Some(address), Some(prefix_len)) => {
                    let (status, dst_registry) = match read_authority(src_registry, &seventh_text) {
                        Ok(pair) => pair,
                        Err(e) => {
                            return Err(ParseOutcome::Failed(e));
                        },
                    };
                    match Ipv6Cidr::new(address, prefix_len as u8) {
                        Some(block) => Ok(
                            Record {
                                src_registry,
                                country,
                                ip_block: IpBlock::Ipv6Cidr(block),
                                status,
                                dst_registry,
                            },
                        ),
                        None => Err(ParseOutcome::NotARecord),
                    }
                },
                _ => Err(
                    ParseOutcome::Failed(
                        Error::ParseRecordError(
                            String::from_str("first address or prefix length cannot be read"),
                        ),
                    ),
                ),
            }
        } else {
            Err(ParseOutcome::NotARecord)
        }
    }
}

} // verus!
