//! CIDR blocks: an address together with the length of its network prefix.

use vstd::arithmetic::power2::{lemma2_to64, lemma_pow2_adds, lemma_pow2_pos, lemma_pow2_unfold, pow2};
use vstd::bits::{lemma_u32_low_bits_mask_is_mod, lemma_u32_shl_is_mul, low_bits_mask};
use vstd::prelude::*;

use crate::bits::lemma_pow2_le_32;

verus! {

/// A CIDR block as numbers: the address it was written with, the length of
/// its network prefix and the width of its address family in bits.
pub struct CidrView {
    pub address: int,
    pub prefix_len: int,
    pub width: int,
}

impl CidrView {
    /// The prefix is no longer than the address, and the address fits the width.
    pub open spec fn wf(self) -> bool {
        &&& 0 <= self.prefix_len <= self.width
        &&& 0 <= self.address < pow2(self.width as nat)
    }

    /// Number of addresses in the block: two to the power of the host bits.
    pub open spec fn size(self) -> int {
        pow2((self.width - self.prefix_len) as nat) as int
    }

    /// Lowest address of the block: the address with its host bits cleared.
    pub open spec fn first(self) -> int {
        self.address - self.address % self.size()
    }

    /// Highest address of the block.
    pub open spec fn last(self) -> int {
        self.first() + self.size() - 1
    }

    /// Whether `addr` lies in the block.
    pub open spec fn contains(self, addr: int) -> bool {
        self.first() <= addr <= self.last()
    }

    /// Whether the block's address is its lowest address.
    pub open spec fn is_aligned(self) -> bool {
        self.address % self.size() == 0
    }
}

/// The network mask of an IPv4 prefix length: its `prefix_len` highest bits set.
pub open spec fn ipv4_netmask(prefix_len: u8) -> u32 {
    if prefix_len == 0 {
        0u32
    } else {
        0xffff_ffffu32 << ((32 - prefix_len) as u32)
    }
}

/// Masking with the network mask clears the host bits: it rounds the address
/// down to a multiple of the block size.
pub proof fn lemma_netmask_rounds_down(address: u32, prefix_len: u8)
    requires
        prefix_len <= 32,
    ensures
        (address & ipv4_netmask(prefix_len)) as int == address as int - (address as int) % (pow2(
            (32 - prefix_len) as nat,
        ) as int),
{
    lemma2_to64();
    if prefix_len == 0 {
        assert(address & 0u32 == 0u32) by (bit_vector);
        vstd::arithmetic::div_mod::lemma_small_mod(address as nat, pow2(32));
    } else {
        let k: u32 = (32 - prefix_len) as u32;
        lemma_pow2_le_32(k as nat);
        lemma_pow2_le_32((k + 1) as nat);
        lemma_pow2_unfold((k + 1) as nat);
        lemma_u32_shl_is_mul(1u32, k);
        let unit: u32 = 1u32 << k;
        assert(unit == pow2(k as nat));
        let low: u32 = (unit - 1) as u32;
        assert(low == low_bits_mask(k as nat));
        assert(address & (0xffff_ffffu32 << k) == address - (address & low)) by (bit_vector)
            requires
                k < 32,
                unit == 1u32 << k,
                low == unit - 1,
        ;
        lemma_u32_low_bits_mask_is_mod(address, k as nat);
    }
}

/// Network address of an IPv4 block, by `smoltcp::wire::Ipv4Cidr::network`:
/// the address with every bit outside the network mask cleared. The address is
/// handed over and taken back as its four octets, highest first.
#[verifier::external_body]
fn ipv4_network_address(address: u32, prefix_len: u8) -> (r: u32)
    requires
        prefix_len <= 32,
    ensures
        r == address & ipv4_netmask(prefix_len),
{
    let block = smoltcp::wire::Ipv4Cidr::new(
        smoltcp::wire::Ipv4Address(address.to_be_bytes()),
        prefix_len,
    );
    u32::from_be_bytes(block.network().address().0)
}

/// An IPv4 CIDR block. The prefix length is at most 32.
#[derive(Debug, Copy, Clone, Hash, PartialEq, Eq, Structural)]
pub struct Ipv4Cidr {
    address: u32,
    prefix_len: u8,
}

impl View for Ipv4Cidr {
    type V = CidrView;

    closed spec fn view(&self) -> CidrView {
        CidrView { address: self.address as int, prefix_len: self.prefix_len as int, width: 32 }
    }
}

impl Ipv4Cidr {
    #[verifier::type_invariant]
    spec fn inv(self) -> bool {
        self.prefix_len <= 32
    }

    /// The block `address/prefix_len`; `None` exactly when the prefix is longer than 32 bits.
    pub fn new(address: u32, prefix_len: u8) -> (r: Option<Ipv4Cidr>)
        ensures
            prefix_len <= 32 ==> r is Some && r->Some_0@ == (CidrView {
                address: address as int,
                prefix_len: prefix_len as int,
                width: 32,
            }),
            prefix_len > 32 ==> r is None,
    {
        if prefix_len <= 32 {
            Some(Ipv4Cidr { address, prefix_len })
        } else {
            None
        }
    }

    /// The address the block was written with.
    pub fn address(&self) -> (r: u32)
        ensures
            r == self@.address,
            self@.width == 32,
    {
        self.address
    }

    /// Length of the network prefix in bits.
    pub fn prefix_len(&self) -> (r: u8)
        ensures
            r == self@.prefix_len,
            r <= 32,
            self@.width == 32,
    {
        proof {
            use_type_invariant(self);
        }
        self.prefix_len
    }

    /// Number of addresses in the block.
    pub fn size(&self) -> (r: u64)
        ensures
            r == self@.size(),
            1 <= r <= 0x1_0000_0000,
    {
        proof {
            use_type_invariant(self);
            lemma_pow2_le_32((32 - self.prefix_len) as nat);
            crate::bits::lemma_shl_one((32 - self.prefix_len) as u64);
        }
        let host_bits: u64 = (32 - self.prefix_len) as u64;
        1u64 << host_bits
    }

    /// The same block written with its lowest address.
    pub fn network(&self) -> (r: Ipv4Cidr)
        ensures
            r@.address == self@.first(),
            r@.prefix_len == self@.prefix_len,
            r@.width == 32,
            r@.is_aligned(),
            r@.first() == self@.first(),
            r@.last() == self@.last(),
    {
        proof {
            use_type_invariant(self);
            lemma_netmask_rounds_down(self.address, self.prefix_len);
            lemma_pow2_le_32((32 - self.prefix_len) as nat);
        }
        let base: u32 = ipv4_network_address(self.address, self.prefix_len);
        proof {
            let size: int = pow2((32 - self.prefix_len) as nat) as int;
            let q: int = (self.address as int) / size;
            vstd::arithmetic::div_mod::lemma_fundamental_div_mod(self.address as int, size);
            assert(base as int == size * q);
            vstd::arithmetic::div_mod::lemma_mod_multiples_basic(q, size);
            assert(q * size == size * q) by (nonlinear_arith);
        }
        Ipv4Cidr { address: base, prefix_len: self.prefix_len }
    }

    /// Lowest address of the block.
    pub fn first_address(&self) -> (r: u32)
        ensures
            r == self@.first(),
    {
        self.network().address()
    }

    /// Highest address of the block.
    pub fn last_address(&self) -> (r: u32)
        ensures
            r == self@.last(),
    {
        let base: u32 = self.first_address();
        let size: u64 = self.size();
        proof {
            use_type_invariant(self);
            lemma2_to64();
            assert((32 - self.prefix_len) as nat + self.prefix_len as nat == 32);
            lemma_block_within(
                self.address as int,
                (32 - self.prefix_len) as nat,
                self.prefix_len as nat,
            );
        }
        let top: u64 = base as u64 + (size - 1);
        top as u32
    }

    /// Whether `addr` lies in the block.
    pub fn contains(&self, addr: u32) -> (r: bool)
        ensures
            r == self@.contains(addr as int),
    {
        let low: u32 = self.first_address();
        let high: u32 = self.last_address();
        low <= addr && addr <= high
    }
}

/// `2^128` is one more than the highest IPv6 address.
pub proof fn lemma_pow2_128()
    ensures
        pow2(128) == u128::MAX + 1,
{
    lemma2_to64();
    lemma_pow2_adds(64, 64);
    assert(0x1_0000_0000_0000_0000int * 0x1_0000_0000_0000_0000int
        == 0x1_0000_0000_0000_0000_0000_0000_0000_0000int) by (nonlinear_arith);
}

/// `2^exponent` for an exponent below 128.
fn power_of_two(exponent: u8) -> (r: u128)
    requires
        exponent <= 127,
    ensures
        r == pow2(exponent as nat),
        r >= 1,
{
    let mut value: u128 = 1;
    let mut i: u8 = 0;
    proof {
        lemma2_to64();
    }
    while i < exponent
        invariant
            i <= exponent <= 127,
            value == pow2(i as nat),
            value >= 1,
        decreases exponent - i,
    {
        proof {
            lemma_pow2_unfold((i + 1) as nat);
            lemma_pow2_128();
            vstd::arithmetic::power2::lemma_pow2_strictly_increases((i + 1) as nat, 128);
        }
        value = value * 2;
        i += 1;
    }
    value
}

/// An IPv6 CIDR block. The prefix length is at most 128.
#[derive(Debug, Copy, Clone, Hash, PartialEq, Eq, Structural)]
pub struct Ipv6Cidr {
    address: u128,
    prefix_len: u8,
}

impl View for Ipv6Cidr {
    type V = CidrView;

    closed spec fn view(&self) -> CidrView {
        CidrView { address: self.address as int, prefix_len: self.prefix_len as int, width: 128 }
    }
}

impl Ipv6Cidr {
    #[verifier::type_invariant]
    spec fn inv(self) -> bool {
        self.prefix_len <= 128
    }

    /// The block `address/prefix_len`; `None` exactly when the prefix is longer than 128 bits.
    pub fn new(address: u128, prefix_len: u8) -> (r: Option<Ipv6Cidr>)
        ensures
            prefix_len <= 128 ==> r is Some && r->Some_0@ == (CidrView {
                address: address as int,
                prefix_len: prefix_len as int,
                width: 128,
            }),
            prefix_len > 128 ==> r is None,
    {
        if prefix_len <= 128 {
            Some(Ipv6Cidr { address, prefix_len })
        } else {
            None
        }
    }

    /// The address the block was written with.
    pub fn address(&self) -> (r: u128)
        ensures
            r == self@.address,
            self@.width == 128,
    {
        self.address
    }

    /// Length of the network prefix in bits.
    pub fn prefix_len(&self) -> (r: u8)
        ensures
            r == self@.prefix_len,
            r <= 128,
            self@.width == 128,
    {
        proof {
            use_type_invariant(self);
        }
        self.prefix_len
    }

    /// Lowest address of the block.
    pub fn first_address(&self) -> (r: u128)
        ensures
            r == self@.first(),
            r <= self@.address,
    {
        proof {
            use_type_invariant(self);
            lemma_pow2_128();
        }
        if self.prefix_len == 0 {
            proof {
                vstd::arithmetic::div_mod::lemma_small_mod(self.address as nat, pow2(128));
            }
            0
        } else {
            let size: u128 = power_of_two(128 - self.prefix_len);
            proof {
                vstd::arithmetic::div_mod::lemma_mod_decreases(self.address as nat, size as nat);
            }
            self.address - self.address % size
        }
    }

    /// Highest address of the block.
    pub fn last_address(&self) -> (r: u128)
        ensures
            r == self@.last(),
            r >= self@.address,
    {
        proof {
            use_type_invariant(self);
            lemma_pow2_128();
        }
        if self.prefix_len == 0 {
            proof {
                vstd::arithmetic::div_mod::lemma_small_mod(self.address as nat, pow2(128));
            }
            u128::MAX
        } else {
            let size: u128 = power_of_two(128 - self.prefix_len);
            proof {
                assert((128 - self.prefix_len) as nat + self.prefix_len as nat == 128);
                lemma_block_within(
                    self.address as int,
                    (128 - self.prefix_len) as nat,
                    self.prefix_len as nat,
                );
                vstd::arithmetic::div_mod::lemma_mod_bound(self.address as int, size as int);
                vstd::arithmetic::div_mod::lemma_mod_decreases(self.address as nat, size as nat);
            }
            let base: u128 = self.address - self.address % size;
            base + (size - 1)
        }
    }

    /// Whether `addr` lies in the block.
    pub fn contains(&self, addr: u128) -> (r: bool)
        ensures
            r == self@.contains(addr as int),
    {
        let low: u128 = self.first_address();
        let high: u128 = self.last_address();
        low <= addr && addr <= high
    }
}

/// Two IPv4 blocks with the same address and prefix length are the same block.
pub proof fn lemma_ipv4_cidr_by_view(a: Ipv4Cidr, b: Ipv4Cidr)
    requires
        a@ == b@,
    ensures
        a == b,
{
}

/// Two IPv6 blocks with the same address and prefix length are the same block.
pub proof fn lemma_ipv6_cidr_by_view(a: Ipv6Cidr, b: Ipv6Cidr)
    requires
        a@ == b@,
    ensures
        a == b,
{
}

/// A block of `2^host_bits` addresses that holds an address below
/// `2^(host_bits + prefix_bits)` ends below that bound too.
pub proof fn lemma_block_within(address: int, host_bits: nat, prefix_bits: nat)
    requires
        0 <= address < pow2(host_bits + prefix_bits),
    ensures
        0 <= address - address % (pow2(host_bits) as int),
        address - address % (pow2(host_bits) as int) + pow2(host_bits) <= pow2(
            host_bits + prefix_bits,
        ),
{
    let size: int = pow2(host_bits) as int;
    let count: int = pow2(prefix_bits) as int;
    lemma_pow2_pos(host_bits);
    lemma_pow2_pos(prefix_bits);
    lemma_pow2_adds(host_bits, prefix_bits);
    let q: int = address / size;
    vstd::arithmetic::div_mod::lemma_fundamental_div_mod(address, size);
    vstd::arithmetic::div_mod::lemma_mod_bound(address, size);
    assert(q < count) by (nonlinear_arith)
        requires
            size * q <= address,
            address < size * count,
            size > 0,
    ;
    assert(size * q + size <= size * count) by (nonlinear_arith)
        requires
            q + 1 <= count,
            size > 0,
    ;
    assert(0 <= size * q) by (nonlinear_arith)
        requires
            0 <= address,
            address == size * q + address % size,
            0 <= address % size < size,
            size > 0,
    ;
}

} // verus!
