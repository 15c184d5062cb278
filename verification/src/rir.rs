//! Records as the columns of a delegation file hold them, one type for each
//! address family: an IPv4 record by its first address and its count, an
//! IPv6 record by its first address and its prefix length.

use vstd::prelude::*;
use vstd::string::StringExecFns;

use crate::cidr::Ipv6Cidr;
use crate::country::Country;
use crate::error::Error;
use crate::range::Ipv4Range;
use crate::cidr::CidrView;
use crate::range::RangeView;
use crate::record::{BlockView, IpBlock, RecordView};
use crate::registry::Registry;
use crate::report::{cidr_text, rir_line};
use crate::status::Status;

verus! {

/// An IPv4 record: `num` addresses from `start` on.
#[derive(Debug, Copy, Clone, Hash, PartialEq, Eq, Structural)]
pub struct Ipv4Record {
    pub src_registry: Registry,
    pub country: Country,
    pub start: u32,
    pub num: u32,
    pub status: Status,
    pub dst_registry: Option<Registry>,
}

/// An IPv6 record: the block `start/prefix`.
#[derive(Debug, Copy, Clone, Hash, PartialEq, Eq, Structural)]
pub struct Ipv6Record {
    pub src_registry: Registry,
    pub country: Country,
    pub start: u128,
    pub prefix: u8,
    pub status: Status,
    pub dst_registry: Option<Registry>,
}

/// A record of either family.
#[derive(Debug, Copy, Clone, Hash, PartialEq, Eq, Structural)]
pub enum Record {
    Ipv4(Ipv4Record),
    Ipv6(Ipv6Record),
}

impl View for Ipv4Record {
    type V = RecordView;

    /// The record with its addresses as a range.
    open spec fn view(&self) -> RecordView {
        RecordView {
            src_registry: self.src_registry,
            country: self.country@,
            ip_block: BlockView::Ipv4Range(
                RangeView { first: self.start as int, last: self.start + self.num - 1 },
            ),
            status: self.status,
            dst_registry: self.dst_registry,
        }
    }
}

impl Ipv4Record {
    /// Whether the record names a range: it counts at least one address and
    /// does not reach beyond the last IPv4 address.
    pub open spec fn wf(&self) -> bool {
        self.num > 0 && self.start + self.num - 1 <= u32::MAX
    }

    /// The record with its addresses as a range. Fails with
    /// `InvalidRangeError` exactly when the record names no range.
    pub fn to_record(&self) -> (r: Result<crate::record::Record, Error>)
        ensures
            self.wf() ==> r is Ok && r->Ok_0@ == self@,
            !self.wf() ==> r is Err && r->Err_0 is InvalidRangeError,
    {
        match Ipv4Range::with_nums(self.start, self.num) {
            Ok(range) => Ok(
                crate::record::Record {
                    src_registry: self.src_registry,
                    country: self.country,
                    ip_block: IpBlock::Ipv4Range(range),
                    status: self.status,
                    dst_registry: self.dst_registry,
                },
            ),
            Err(e) => Err(e),
        }
    }

    /// The record in the layout of delegation files. Fails with
    /// `InvalidRangeError` exactly when the record names no range.
    pub fn to_rir(&self) -> (r: Result<String, Error>)
        ensures
            self.wf() ==> r is Ok && r->Ok_0@ == rir_line(self@),
            !self.wf() ==> r is Err && r->Err_0 is InvalidRangeError,
    {
        match self.to_record() {
            Ok(record) => Ok(record.to_rir()),
            Err(e) => Err(e),
        }
    }

    /// The record in CIDR notation, one line for each block of its range.
    /// Fails with `InvalidRangeError` exactly when the record names no range.
    pub fn to_cidr(&self) -> (r: Result<String, Error>)
        ensures
            self.wf() ==> r is Ok && r->Ok_0@ == cidr_text(self@),
            !self.wf() ==> r is Err && r->Err_0 is InvalidRangeError,
    {
        match self.to_record() {
            Ok(record) => Ok(record.to_cidr()),
            Err(e) => Err(e),
        }
    }
}

impl View for Ipv6Record {
    type V = RecordView;

    /// The record with its addresses as a CIDR block.
    open spec fn view(&self) -> RecordView {
        RecordView {
            src_registry: self.src_registry,
            country: self.country@,
            ip_block: BlockView::Ipv6Cidr(
                CidrView { address: self.start as int, prefix_len: self.prefix as int, width: 128 },
            ),
            status: self.status,
            dst_registry: self.dst_registry,
        }
    }
}

impl Ipv6Record {
    /// Whether the record names a block: its prefix is at most 128 bits long.
    pub open spec fn wf(&self) -> bool {
        self.prefix <= 128
    }

    /// The record with its addresses as a CIDR block. Fails with
    /// `ParseRecordError` exactly when the prefix is longer than 128 bits.
    pub fn to_record(&self) -> (r: Result<crate::record::Record, Error>)
        ensures
            self.wf() ==> r is Ok && r->Ok_0@ == self@,
            !self.wf() ==> r is Err && r->Err_0 is ParseRecordError,
    {
        match Ipv6Cidr::new(self.start, self.prefix) {
            Some(block) => Ok(
                crate::record::Record {
                    src_registry: self.src_registry,
                    country: self.country,
                    ip_block: IpBlock::Ipv6Cidr(block),
                    status: self.status,
                    dst_registry: self.dst_registry,
                },
            ),
            None => Err(
                Error::ParseRecordError(String::from_str("the prefix is longer than 128 bits")),
            ),
        }
    }

    /// The record in the layout of delegation files. Fails with
    /// `ParseRecordError` exactly when the prefix is longer than 128 bits.
    pub fn to_rir(&self) -> (r: Result<String, Error>)
        ensures
            self.wf() ==> r is Ok && r->Ok_0@ == rir_line(self@),
            !self.wf() ==> r is Err && r->Err_0 is ParseRecordError,
    {
        match self.to_record() {
            Ok(record) => Ok(record.to_rir()),
            Err(e) => Err(e),
        }
    }

    /// The record in CIDR notation, on one line. Fails with
    /// `ParseRecordError` exactly when the prefix is longer than 128 bits.
    pub fn to_cidr(&self) -> (r: Result<String, Error>)
        ensures
            self.wf() ==> r is Ok && r->Ok_0@ == cidr_text(self@),
            !self.wf() ==> r is Err && r->Err_0 is ParseRecordError,
    {
        match self.to_record() {
            Ok(record) => Ok(record.to_cidr()),
            Err(e) => Err(e),
        }
    }
}

impl View for Record {
    type V = RecordView;

    open spec fn view(&self) -> RecordView {
        match *self {
            Record::Ipv4(record) => record@,
            Record::Ipv6(record) => record@,
        }
    }
}

impl Record {
    /// Whether the record names a range or a block.
    pub open spec fn wf(&self) -> bool {
        match *self {
            Record::Ipv4(record) => record.wf(),
            Record::Ipv6(record) => record.wf(),
        }
    }

    /// The record in the layout of delegation files, as the record of its
    /// family gives it.
    pub fn to_rir(&self) -> (r: Result<String, Error>)
        ensures
            self.wf() ==> r is Ok && r->Ok_0@ == rir_line(self@),
            !self.wf() ==> r is Err,
            r matches Err(e) ==> (if *self is Ipv4 {
                e is InvalidRangeError
            } else {
                e is ParseRecordError
            }),
    {
        match *self {
            Record::Ipv4(record) => record.to_rir(),
            Record::Ipv6(record) => record.to_rir(),
        }
    }

    /// The record in CIDR notation, as the record of its family gives it.
    pub fn to_cidr(&self) -> (r: Result<String, Error>)
        ensures
            self.wf() ==> r is Ok && r->Ok_0@ == cidr_text(self@),
            !self.wf() ==> r is Err,
            r matches Err(e) ==> (if *self is Ipv4 {
                e is InvalidRangeError
            } else {
                e is ParseRecordError
            }),
    {
        match *self {
            Record::Ipv4(record) => record.to_cidr(),
            Record::Ipv6(record) => record.to_cidr(),
        }
    }
}

} // verus!
