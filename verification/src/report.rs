//! Records written out as lines of text: in the layout of delegation files,
//! block by block in CIDR notation, and as rows of a generated table.

use vstd::prelude::*;
use vstd::string::StringExecFns;

use crate::cidr::{CidrView, Ipv4Cidr};
use crate::notation::{ipv4_dotted, ipv6_notation, with_prefix};
use crate::range::{block_views, Ipv4Range, RangeView};
use crate::record::{BlockView, IpBlock, Record, RecordView};
use crate::order::{in_key_order, sort_by_key, Keyed};
use crate::registry::Registry;
use crate::text::{decimal_digits, decimal_text, join, join_texts, texts};

verus! {

/// A range in text: its first address, ` - `, and its last address.
pub open spec fn range_notation(range: RangeView) -> Seq<char> {
    ipv4_dotted(range.first as nat) + seq![' ', '-', ' '] + ipv4_dotted(range.last as nat)
}

/// A block in text: a range as `first - last`, a CIDR block as `address/prefix_len`.
pub open spec fn block_notation(block: BlockView) -> Seq<char> {
    match block {
        BlockView::Ipv4Range(range) => range_notation(range),
        BlockView::Ipv4Cidr(cidr) => with_prefix(
            ipv4_dotted(cidr.address as nat),
            cidr.prefix_len as nat,
        ),
        BlockView::Ipv6Cidr(cidr) => with_prefix(
            ipv6_notation(cidr.address as u128),
            cidr.prefix_len as nat,
        ),
    }
}

/// The address family of a block as delegation files name it.
pub open spec fn family_name(block: BlockView) -> Seq<char> {
    if block.is_ipv4() {
        "ipv4"@
    } else {
        "ipv6"@
    }
}

/// The first address of a block as a delegation file writes it.
pub open spec fn start_column(block: BlockView) -> Seq<char> {
    match block {
        BlockView::Ipv4Range(range) => ipv4_dotted(range.first as nat),
        BlockView::Ipv4Cidr(cidr) => ipv4_dotted(cidr.address as nat),
        BlockView::Ipv6Cidr(cidr) => ipv6_notation(cidr.address as u128),
    }
}

/// The extent of a block as a delegation file writes it: the number of
/// addresses of a range, the prefix length of a CIDR block.
pub open spec fn extent_column(block: BlockView) -> Seq<char> {
    match block {
        BlockView::Ipv4Range(range) => decimal_digits(range.size() as nat),
        BlockView::Ipv4Cidr(cidr) => decimal_digits(cidr.prefix_len as nat),
        BlockView::Ipv6Cidr(cidr) => decimal_digits(cidr.prefix_len as nat),
    }
}

/// The registry of destination as text; `none` where there is none.
pub open spec fn destination_name(dst: Option<Registry>) -> Seq<char> {
    match dst {
        Some(registry) => registry.spec_name(),
        None => "none"@,
    }
}

/// A record in the layout of delegation files, with spaces between the
/// columns: registry, country, family, first address, extent, status,
/// registry of destination.
pub open spec fn rir_line(record: RecordView) -> Seq<char> {
    join(
        seq![
            record.src_registry.spec_name(),
            record.country,
            family_name(record.ip_block),
            start_column(record.ip_block),
            extent_column(record.ip_block),
            record.status.spec_name(),
            destination_name(record.dst_registry),
        ],
        ' ',
    )
}

/// One block of a record in CIDR notation: registry, country, family, the
/// block written `block`, status, registry of destination.
pub open spec fn cidr_line(record: RecordView, block: Seq<char>) -> Seq<char> {
    join(
        seq![
            record.src_registry.spec_name(),
            record.country,
            family_name(record.ip_block),
            block,
            record.status.spec_name(),
            destination_name(record.dst_registry),
        ],
        ' ',
    )
}

/// The lines of the blocks `blocks` of a record in CIDR notation.
pub open spec fn cidr_lines(record: RecordView, blocks: Seq<CidrView>) -> Seq<Seq<char>> {
    blocks.map_values(
        |block: CidrView|
            cidr_line(record, with_prefix(ipv4_dotted(block.address as nat), block.prefix_len as nat)),
    )
}

/// A record in CIDR notation: one line for each block of the decomposition of
/// an IPv4 range, with line feeds between the lines; one line for a CIDR block.
pub open spec fn cidr_text(record: RecordView) -> Seq<char> {
    match record.ip_block {
        BlockView::Ipv4Range(range) => join(cidr_lines(record, range.blocks()), '\n'),
        other => cidr_line(record, block_notation(other)),
    }
}

/// The row of a record in a generated table: first address, last address and
/// the index of the country, as decimal numbers in round brackets.
pub open spec fn table_row(first: nat, last: nat, country_index: nat) -> Seq<char> {
    seq!['('] + decimal_digits(first) + seq![',', ' '] + decimal_digits(last) + seq![',', ' ']
        + decimal_digits(country_index) + seq![')']
}

impl Ipv4Range {
    /// The range written as `first - last`.
    pub fn to_text(&self) -> (r: String)
        ensures
            r@ == range_notation(self@),
    {
        let mut out = crate::addr::IpAddress::Ipv4(self.first()).to_text();
        out.push(' ');
        out.push('-');
        out.push(' ');
        let last = crate::addr::IpAddress::Ipv4(self.last()).to_text();
        out.append(last.as_str());
        assert(out@ =~= range_notation(self@));
        out
    }
}

impl IpBlock {
    /// The block written as text: a range as `first - last`, a CIDR block as
    /// `address/prefix_len`.
    pub fn to_text(&self) -> (r: String)
        ensures
            r@ == block_notation(self@),
    {
        match *self {
            IpBlock::Ipv4Range(range) => range.to_text(),
            IpBlock::Ipv4Cidr(cidr) => cidr.to_text(),
            IpBlock::Ipv6Cidr(cidr) => cidr.to_text(),
        }
    }
}

/// A line of columns with spaces between them.
fn columns(
    record: &Record,
    family: &str,
    middle: Vec<String>,
) -> (r: String)
    ensures
        r@ == join(
            seq![record.src_registry.spec_name(), record.country@, family@] + texts(middle@)
                + seq![record.status.spec_name(), destination_name(record.dst_registry)],
            ' ',
        ),
{
    let mut parts: Vec<String> = Vec::new();
    parts.push(String::from_str(record.src_registry.name()));
    parts.push(record.country.code());
    parts.push(String::from_str(family));
    let mut rest = middle;
    parts.append(&mut rest);
    parts.push(String::from_str(record.status.name()));
    let destination = match record.dst_registry {
        Some(registry) => String::from_str(registry.name()),
        None => String::from_str("none"),
    };
    parts.push(destination);
    proof {
        assert(texts(parts@) =~= seq![
            record.src_registry.spec_name(),
            record.country@,
            family@,
        ] + texts(middle@) + seq![
            record.status.spec_name(),
            destination_name(record.dst_registry),
        ]);
    }
    join_texts(&parts, ' ')
}

impl Record {
    /// The address family of the record as delegation files name it.
    pub fn type_(&self) -> (r: String)
        ensures
            r@ == family_name(self.ip_block@),
    {
        if self.is_ipv4() {
            String::from_str("ipv4")
        } else {
            String::from_str("ipv6")
        }
    }

    /// The address family of the record, as `type_` gives it.
    pub fn ip_version(&self) -> (r: String)
        ensures
            r@ == family_name(self.ip_block@),
    {
        self.type_()
    }

    /// The record in the layout of delegation files.
    pub fn to_rir(&self) -> (r: String)
        ensures
            r@ == rir_line(self@),
    {
        let family = self.type_();
        let mut middle: Vec<String> = Vec::new();
        match self.ip_block {
            IpBlock::Ipv4Range(range) => {
                middle.push(crate::addr::IpAddress::Ipv4(range.first()).to_text());
                middle.push(decimal_text(range.total() as u128));
            },
            IpBlock::Ipv4Cidr(cidr) => {
                middle.push(crate::addr::IpAddress::Ipv4(cidr.address()).to_text());
                middle.push(decimal_text(cidr.prefix_len() as u128));
            },
            IpBlock::Ipv6Cidr(cidr) => {
                middle.push(crate::addr::IpAddress::Ipv6(cidr.address()).to_text());
                middle.push(decimal_text(cidr.prefix_len() as u128));
            },
        }
        proof {
            assert(texts(middle@) =~= seq![
                start_column(self.ip_block@),
                extent_column(self.ip_block@),
            ]);
            assert(seq![self.src_registry.spec_name(), self.country@, family@] + seq![
                start_column(self.ip_block@),
                extent_column(self.ip_block@),
            ] + seq![self.status.spec_name(), destination_name(self.dst_registry)] =~= seq![
                self.src_registry.spec_name(),
                self.country@,
                family_name(self.ip_block@),
                start_column(self.ip_block@),
                extent_column(self.ip_block@),
                self.status.spec_name(),
                destination_name(self.dst_registry),
            ]);
        }
        columns(self, family.as_str(), middle)
    }

    /// One block of the record in CIDR notation, the block written `block`.
    pub fn cidr_line_of(&self, block: String) -> (r: String)
        ensures
            r@ == cidr_line(self@, block@),
    {
        let family = self.type_();
        let mut middle: Vec<String> = Vec::new();
        middle.push(block);
        proof {
            assert(texts(middle@) =~= seq![block@]);
            assert(seq![self.src_registry.spec_name(), self.country@, family@] + seq![block@]
                + seq![self.status.spec_name(), destination_name(self.dst_registry)] =~= seq![
                self.src_registry.spec_name(),
                self.country@,
                family_name(self.ip_block@),
                block@,
                self.status.spec_name(),
                destination_name(self.dst_registry),
            ]);
        }
        columns(self, family.as_str(), middle)
    }

    /// The record in CIDR notation: an IPv4 range block by block, one line
    /// each; a CIDR block on one line.
    pub fn to_cidr(&self) -> (r: String)
        ensures
            r@ == cidr_text(self@),
    {
        match self.ip_block {
            IpBlock::Ipv4Range(range) => {
                let blocks: Vec<Ipv4Cidr> = range.cidrs().collect();
                let ghost views = block_views(blocks@);
                let mut lines: Vec<String> = Vec::new();
                let mut i: usize = 0;
                while i < blocks.len()
                    invariant
                        i <= blocks.len(),
                        views == block_views(blocks@),
                        texts(lines@) == cidr_lines(self@, views.take(i as int)),
                    decreases blocks.len() - i,
                {
                    let line = self.cidr_line_of(blocks[i].to_text());
                    let ghost before = texts(lines@);
                    lines.push(line);
                    proof {
                        assert(views[i as int] == blocks@[i as int]@);
                        assert(texts(lines@) =~= before.push(line@));
                        assert(cidr_lines(self@, views.take(i + 1)) =~= cidr_lines(
                            self@,
                            views.take(i as int),
                        ).push(line@));
                    }
                    i += 1;
                }
                proof {
                    assert(views.take(i as int) =~= views);
                }
                join_texts(&lines, '\n')
            },
            IpBlock::Ipv4Cidr(cidr) => self.cidr_line_of(cidr.to_text()),
            IpBlock::Ipv6Cidr(cidr) => self.cidr_line_of(cidr.to_text()),
        }
    }

    /// The row of the record in a generated table, with the index that the
    /// caller's table of countries gives to the record's country.
    pub fn codegen(&self, country_index: u8) -> (r: String)
        ensures
            r@ == table_row(
                crate::table::address_number(self.ip_block@.first()) as nat,
                crate::table::address_number(self.ip_block@.last()) as nat,
                country_index as nat,
            ),
    {
        let first: u128 = match self.ip_block.first() {
            crate::addr::IpAddress::Ipv4(bits) => bits as u128,
            crate::addr::IpAddress::Ipv6(bits) => bits,
        };
        let last: u128 = match self.ip_block.last() {
            crate::addr::IpAddress::Ipv4(bits) => bits as u128,
            crate::addr::IpAddress::Ipv6(bits) => bits,
        };
        let mut out = String::new();
        out.push('(');
        out.append(decimal_text(first).as_str());
        out.push(',');
        out.push(' ');
        out.append(decimal_text(last).as_str());
        out.push(',');
        out.push(' ');
        out.append(decimal_text(country_index as u128).as_str());
        out.push(')');
        assert(out@ =~= table_row(first as nat, last as nat, country_index as nat));
        out
    }
}

impl Keyed for Record {
    /// The place of a record in a report: its family, IPv4 before IPv6, and
    /// the number of its first address.
    open spec fn sort_key(&self) -> (u8, u128) {
        match self.ip_block@.first() {
            crate::record::AddressView::Ipv4(n) => (4u8, n as u128),
            crate::record::AddressView::Ipv6(n) => (6u8, n as u128),
        }
    }

    fn key(&self) -> (r: (u8, u128)) {
        match self.ip_block.first() {
            crate::addr::IpAddress::Ipv4(bits) => (4u8, bits as u128),
            crate::addr::IpAddress::Ipv6(bits) => (6u8, bits),
        }
    }
}

/// Whether a record belongs to a report. A report holds the records of one
/// family, and either those of the regional registries or those by which
/// IANA hands a block to a registry.
pub open spec fn selected(record: Record, ipv4: bool, from_iana: bool) -> bool {
    &&& record.ip_block@.is_ipv4() == ipv4
    &&& if from_iana {
        record.src_registry == Registry::Iana && record.dst_registry is Some
    } else {
        record.src_registry != Registry::Iana
    }
}

/// The records of `records` that belong to the report, in the order of a
/// report.
pub fn select(records: &Vec<Record>, ipv4: bool, from_iana: bool) -> (r: Vec<Record>)
    ensures
        r@.to_multiset() == records@.filter(|x: Record| selected(x, ipv4, from_iana)).to_multiset(),
        in_key_order(r@),
{
    let mut out: Vec<Record> = Vec::new();
    let ghost keep = |x: Record| selected(x, ipv4, from_iana);
    let mut i: usize = 0;
    proof {
        assert(records@.take(0) =~= Seq::<Record>::empty());
        assert(Seq::<Record>::empty().filter(keep) =~= Seq::<Record>::empty()) by {
            reveal(Seq::filter);
        }
    }
    while i < records.len()
        invariant
            i <= records.len(),
            keep == (|x: Record| selected(x, ipv4, from_iana)),
            out@ == records@.take(i as int).filter(keep),
        decreases records.len() - i,
    {
        let record = records[i];
        proof {
            assert(records@.take(i + 1).drop_last() =~= records@.take(i as int));
            assert(records@.take(i + 1).last() == record);
            reveal(Seq::filter);
        }
        let family: bool = record.is_ipv4() == ipv4;
        let source: bool = if from_iana {
            record.src_registry == Registry::Iana && record.dst_registry.is_some()
        } else {
            record.src_registry != Registry::Iana
        };
        if family && source {
            out.push(record);
        }
        i += 1;
    }
    proof {
        assert(records@.take(i as int) =~= records@);
    }
    sort_by_key(&mut out);
    out
}

} // verus!
