//! Addresses and CIDR blocks written as text.

use vstd::prelude::*;
use vstd::string::StringExecFns;

use crate::addr::{ipv4_text, octet, IpAddress};
use crate::cidr::{Ipv4Cidr, Ipv6Cidr};
use crate::text::{
    decimal_digits, decimal_text, lemma_decimal_digits, lemma_split_extend, lemma_split_separator, split,
};

verus! {

/// An IPv4 address in dotted decimal: its four octets, highest first, each in
/// decimal digits, with a `.` between neighbours.
pub open spec fn ipv4_dotted(addr: nat) -> Seq<char> {
    decimal_digits(addr / 0x100_0000) + seq!['.'] + decimal_digits(addr / 0x1_0000 % 256) + seq![
        '.',
    ] + decimal_digits(addr / 0x100 % 256) + seq!['.'] + decimal_digits(addr % 256)
}

/// A CIDR block in text: the address, a `/`, and the prefix length in decimal digits.
pub open spec fn with_prefix(address: Seq<char>, prefix_len: nat) -> Seq<char> {
    address + seq!['/'] + decimal_digits(prefix_len)
}

/// The dotted decimal text of an IPv4 address is read back as that address.
pub proof fn lemma_ipv4_dotted_is_read_back(addr: nat)
    requires
        addr <= u32::MAX,
    ensures
        ipv4_text(ipv4_dotted(addr)) == Some(addr),
{
    let a = addr / 0x100_0000;
    let b = addr / 0x1_0000 % 256;
    let c = addr / 0x100 % 256;
    let d = addr % 256;
    let ta = decimal_digits(a);
    let tb = decimal_digits(b);
    let tc = decimal_digits(c);
    let td = decimal_digits(d);
    lemma_decimal_digits(a);
    lemma_decimal_digits(b);
    lemma_decimal_digits(c);
    lemma_decimal_digits(d);
    // Digits hold no dot, so the dots are the only places where the text splits.
    let empty = Seq::<char>::empty();
    lemma_split_extend(empty, ta, '.');
    assert(empty + ta =~= ta);
    assert(split(empty, '.') =~= seq![empty]);
    assert(split(ta, '.') =~= seq![ta]);
    let s1 = ta.push('.');
    lemma_split_separator(ta, '.');
    assert(split(s1, '.') =~= seq![ta, empty]);
    let s2 = s1 + tb;
    lemma_split_extend(s1, tb, '.');
    assert(empty + tb =~= tb);
    assert(split(s2, '.') =~= seq![ta, tb]);
    let s3 = s2.push('.');
    lemma_split_separator(s2, '.');
    assert(split(s3, '.') =~= seq![ta, tb, empty]);
    let s4 = s3 + tc;
    lemma_split_extend(s3, tc, '.');
    assert(empty + tc =~= tc);
    assert(split(s4, '.') =~= seq![ta, tb, tc]);
    let s5 = s4.push('.');
    lemma_split_separator(s4, '.');
    assert(split(s5, '.') =~= seq![ta, tb, tc, empty]);
    let s6 = s5 + td;
    lemma_split_extend(s5, td, '.');
    assert(empty + td =~= td);
    assert(split(s6, '.') =~= seq![ta, tb, tc, td]);
    assert(ipv4_dotted(addr) =~= s6);
    assert(octet(ta) == Some(a));
    assert(octet(tb) == Some(b));
    assert(octet(tc) == Some(c));
    assert(octet(td) == Some(d));
    assert(((a * 256 + b) * 256 + c) * 256 + d == addr);
}

/// The text that smoltcp writes for the IPv6 address with the number `addr`.
pub uninterp spec fn ipv6_notation(addr: u128) -> Seq<char>;

/// The text of an IPv4 address, by the `Display` of `smoltcp::wire::Ipv4Address`:
/// the four octets in decimal, highest first, with dots between them.
#[verifier::external_body]
fn ipv4_address_text(addr: u32) -> (r: String)
    ensures
        r@ == ipv4_dotted(addr as nat),
{
    format!("{}", smoltcp::wire::Ipv4Address(addr.to_be_bytes()))
}

/// The text of an IPv4 block, by the `Display` of `smoltcp::wire::Ipv4Cidr`:
/// the address as `Ipv4Address` writes it, a `/`, and the prefix length in
/// decimal.
#[verifier::external_body]
fn ipv4_cidr_text(addr: u32, prefix_len: u8) -> (r: String)
    requires
        prefix_len <= 32,
    ensures
        r@ == with_prefix(ipv4_dotted(addr as nat), prefix_len as nat),
{
    let address = smoltcp::wire::Ipv4Address(addr.to_be_bytes());
    format!("{}", smoltcp::wire::Ipv4Cidr::new(address, prefix_len))
}

/// The text of an IPv6 address, by the `Display` of `smoltcp::wire::Ipv6Address`.
/// The address is handed over as its sixteen octets, highest first.
#[verifier::external_body]
fn ipv6_address_text(addr: u128) -> (r: String)
    ensures
        r@ == ipv6_notation(addr),
{
    format!("{}", smoltcp::wire::Ipv6Address(addr.to_be_bytes()))
}

/// The text `address/prefix_len` of a block whose address is written `address`.
pub fn prefixed(address: &str, prefix_len: u8) -> (r: String)
    ensures
        r@ == with_prefix(address@, prefix_len as nat),
{
    let mut out = String::from_str(address);
    out.push('/');
    let digits = decimal_text(prefix_len as u128);
    out.append(digits.as_str());
    assert(out@ =~= with_prefix(address@, prefix_len as nat));
    out
}

/// The text of an address of either family.
pub open spec fn address_notation(addr: IpAddress) -> Seq<char> {
    match addr {
        IpAddress::Ipv4(bits) => ipv4_dotted(bits as nat),
        IpAddress::Ipv6(bits) => ipv6_notation(bits),
    }
}

impl IpAddress {
    /// The address written as text: dotted decimal for IPv4, groups of
    /// hexadecimal digits for IPv6.
    pub fn to_text(&self) -> (r: String)
        ensures
            r@ == address_notation(*self),
    {
        match *self {
            IpAddress::Ipv4(bits) => ipv4_address_text(bits),
            IpAddress::Ipv6(bits) => ipv6_address_text(bits),
        }
    }
}

impl Ipv4Cidr {
    /// The block written as `address/prefix_len`.
    pub fn to_text(&self) -> (r: String)
        ensures
            r@ == with_prefix(ipv4_dotted(self@.address as nat), self@.prefix_len as nat),
    {
        let address: u32 = self.address();
        let prefix_len: u8 = self.prefix_len();
        ipv4_cidr_text(address, prefix_len)
    }
}

impl Ipv6Cidr {
    /// The block written as `address/prefix_len`.
    pub fn to_text(&self) -> (r: String)
        ensures
            r@ == with_prefix(ipv6_notation(self@.address as u128), self@.prefix_len as nat),
    {
        let address = ipv6_address_text(self.address());
        prefixed(address.as_str(), self.prefix_len())
    }
}

} // verus!
