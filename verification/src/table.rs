//! The lookup table: for each address family, a sorted array of address
//! intervals that do not overlap, each with its country, searched by halving.

use vstd::prelude::*;

use crate::addr::IpAddress;
use crate::country::Country;
use crate::order::{in_key_order, key_le, sort_by_key, Keyed};
use crate::record::{AddressView, Record, RecordView};
use crate::registry::Registry;

verus! {

/// An address type of the table: an unsigned integer of the family's width.
pub trait Address: Copy + Sized {
    /// The address as a number.
    spec fn value(self) -> int;

    /// The address as a number, widened to 128 bits.
    fn key(self) -> (r: u128)
        ensures
            r == self.value(),
    ;

    /// The number of an address fits 128 bits.
    proof fn lemma_bounds(self)
        ensures
            0 <= self.value() <= u128::MAX,
    ;
}

/// The number of an address fits 128 bits.
pub proof fn lemma_value_in_bounds<A: Address>(addr: A)
    ensures
        0 <= addr.value() <= u128::MAX,
{
    addr.lemma_bounds();
}

impl Address for u32 {
    open spec fn value(self) -> int {
        self as int
    }

    fn key(self) -> (r: u128) {
        self as u128
    }

    proof fn lemma_bounds(self) {
    }
}

impl Address for u128 {
    open spec fn value(self) -> int {
        self as int
    }

    fn key(self) -> (r: u128) {
        self
    }

    proof fn lemma_bounds(self) {
    }
}

/// One interval of the table: its first address, its last address, and the
/// country it is delegated to.
#[derive(Debug, Copy, Clone, PartialEq, Eq)]
pub struct Entry<A> {
    pub first: A,
    pub last: A,
    pub country: Country,
}

/// `addr` lies among the addresses of the entry, both bounds included.
pub open spec fn covers<A: Address>(entry: Entry<A>, addr: int) -> bool {
    entry.first.value() <= addr <= entry.last.value()
}

/// Two entries share no address.
pub open spec fn apart<A: Address>(a: Entry<A>, b: Entry<A>) -> bool {
    a.last.value() < b.first.value() || b.last.value() < a.first.value()
}

/// The entries stand in ascending order and no two of them overlap: no
/// entry's first address is above its last, and each entry ends below the
/// first address of the next.
pub open spec fn sorted_disjoint<A: Address>(entries: Seq<Entry<A>>) -> bool {
    &&& forall|i: int| 0 <= i < entries.len() ==> (#[trigger] entries[i]).first.value() <= entries[i].last.value()
    &&& forall|i: int, j: int|
        0 <= i < j < entries.len() ==> (#[trigger] entries[i]).last.value() < (#[trigger] entries[j]).first.value()
}

/// The entry that `lookup` gives for `addr`: the entry that covers it, if
/// there is one.
pub open spec fn found<A: Address>(entries: Seq<Entry<A>>, addr: int) -> Option<Entry<A>> {
    if exists|i: int| 0 <= i < entries.len() && covers(#[trigger] entries[i], addr) {
        Some(entries[choose|i: int| 0 <= i < entries.len() && covers(#[trigger] entries[i], addr)])
    } else {
        None
    }
}

/// In a table in order, at most one entry covers an address.
pub proof fn lemma_cover_unique<A: Address>(entries: Seq<Entry<A>>, addr: int, i: int, j: int)
    requires
        sorted_disjoint(entries),
        0 <= i < entries.len(),
        0 <= j < entries.len(),
        covers(entries[i], addr),
        covers(entries[j], addr),
    ensures
        i == j,
{
    if i < j {
        assert(entries[i].last.value() < entries[j].first.value());
    }
    if j < i {
        assert(entries[j].last.value() < entries[i].first.value());
    }
}

/// In a table in order, every address of an entry, from its first address to
/// its last, both included, is answered with exactly that entry.
pub proof fn lemma_found_inside<A: Address>(entries: Seq<Entry<A>>, addr: int, i: int)
    requires
        sorted_disjoint(entries),
        0 <= i < entries.len(),
        entries[i].first.value() <= addr <= entries[i].last.value(),
    ensures
        found(entries, addr) == Some(entries[i]),
{
    assert(covers(entries[i], addr));
    let j = choose|j: int| 0 <= j < entries.len() && covers(#[trigger] entries[j], addr);
    lemma_cover_unique(entries, addr, i, j);
}

/// An address that lies in no entry is answered with nothing.
pub proof fn lemma_found_outside<A: Address>(entries: Seq<Entry<A>>, addr: int)
    requires
        forall|i: int| 0 <= i < entries.len() ==> !covers(#[trigger] entries[i], addr),
    ensures
        found(entries, addr) is None,
{
}

/// Searches a table in order for the entry that covers `addr`, halving the
/// span of candidates at each step: an entry whose last address is below
/// `addr` lies before the answer, one whose first address is above `addr`
/// lies after it, and any other entry covers `addr`.
pub fn search<A: Address>(entries: &Vec<Entry<A>>, addr: A) -> (r: Option<usize>)
    requires
        sorted_disjoint(entries@),
    ensures
        match r {
            Some(i) => i < entries@.len() && covers(entries@[i as int], addr.value()) && found(
                entries@,
                addr.value(),
            ) == Some(entries@[i as int]),
            None => found(entries@, addr.value()) is None,
        },
{
    let target: u128 = addr.key();
    let mut low: usize = 0;
    let mut high: usize = entries.len();
    while low < high
        invariant
            low <= high <= entries@.len(),
            target == addr.value(),
            sorted_disjoint(entries@),
            forall|i: int| 0 <= i < low ==> (#[trigger] entries@[i]).last.value() < target,
            forall|i: int| high <= i < entries@.len() ==> target < (#[trigger] entries@[i]).first.value(),
        decreases high - low,
    {
        let mid: usize = low + (high - low) / 2;
        let entry = &entries[mid];
        let last: u128 = entry.last.key();
        let first: u128 = entry.first.key();
        if target > last {
            proof {
                assert forall|i: int| 0 <= i < mid + 1 implies (#[trigger] entries@[i]).last.value()
                    < target by {
                    if i < mid {
                        assert(entries@[i].last.value() < entries@[mid as int].first.value());
                        assert(entries@[mid as int].first.value() <= entries@[mid as int].last.value());
                    }
                }
            }
            low = mid + 1;
        } else if target >= first {
            proof {
                lemma_found_inside(entries@, addr.value(), mid as int);
            }
            return Some(mid);
        } else {
            proof {
                assert forall|i: int| mid <= i < entries@.len() implies target < (
                #[trigger] entries@[i]).first.value() by {
                    if mid < i {
                        assert(entries@[mid as int].last.value() < entries@[i].first.value());
                        assert(entries@[mid as int].first.value() <= entries@[mid as int].last.value());
                    }
                }
            }
            high = mid;
        }
    }
    proof {
        assert forall|i: int| 0 <= i < entries@.len() implies !covers(
            #[trigger] entries@[i],
            addr.value(),
        ) by {
            if i < low {
                assert(entries@[i].last.value() < target);
            } else {
                assert(target < entries@[i].first.value());
            }
        }
    }
    None
}

/// Whether the entries stand in ascending order without overlap.
pub fn in_order<A: Address>(entries: &Vec<Entry<A>>) -> (r: bool)
    ensures
        r == sorted_disjoint(entries@),
{
    let mut i: usize = 0;
    while i < entries.len()
        invariant
            i <= entries@.len(),
            sorted_disjoint(entries@.take(i as int)),
        decreases entries@.len() - i,
    {
        let entry = &entries[i];
        if entry.first.key() > entry.last.key() {
            return false;
        }
        if i > 0 {
            let before = &entries[i - 1];
            if before.last.key() >= entry.first.key() {
                proof {
                    if sorted_disjoint(entries@) {
                        assert(entries@[i - 1].last.value() < entries@[i as int].first.value());
                    }
                }
                return false;
            }
        }
        proof {
            let upto = entries@.take(i as int);
            let next = entries@.take(i + 1);
            assert forall|a: int, b: int| 0 <= a < b < next.len() implies (#[trigger] next[a]).last.value()
                < (#[trigger] next[b]).first.value() by {
                if b < i {
                    assert(upto[a] == next[a] && upto[b] == next[b]);
                } else if a < i - 1 {
                    assert(upto[a] == next[a] && upto[i - 1] == next[i - 1]);
                    assert(upto[a].last.value() < upto[i - 1].first.value());
                    assert(upto[i - 1].first.value() <= upto[i - 1].last.value());
                }
            }
            assert forall|a: int| 0 <= a < next.len() implies (#[trigger] next[a]).first.value()
                <= next[a].last.value() by {
                if a < i {
                    assert(upto[a] == next[a]);
                }
            }
        }
        i += 1;
    }
    proof {
        assert(entries@.take(i as int) =~= entries@);
    }
    true
}

/// A lookup table: one array of intervals for IPv4 and one for IPv6, each in
/// ascending order without overlap. It is built once and only read after.
pub struct LookupTable {
    v4: Vec<Entry<u32>>,
    v6: Vec<Entry<u128>>,
}

impl LookupTable {
    #[verifier::type_invariant]
    spec fn inv(self) -> bool {
        sorted_disjoint(self.v4@) && sorted_disjoint(self.v6@)
    }

    /// The IPv4 entries of the table, in order.
    pub closed spec fn ipv4_entries(&self) -> Seq<Entry<u32>> {
        self.v4@
    }

    /// The IPv6 entries of the table, in order.
    pub closed spec fn ipv6_entries(&self) -> Seq<Entry<u128>> {
        self.v6@
    }

    /// The table of the given arrays; `None` exactly when one of them is not
    /// in ascending order without overlap.
    pub fn new(v4: Vec<Entry<u32>>, v6: Vec<Entry<u128>>) -> (r: Option<LookupTable>)
        ensures
            sorted_disjoint(v4@) && sorted_disjoint(v6@) ==> r is Some && r->Some_0.ipv4_entries()
                == v4@ && r->Some_0.ipv6_entries() == v6@,
            !(sorted_disjoint(v4@) && sorted_disjoint(v6@)) ==> r is None,
    {
        if in_order(&v4) && in_order(&v6) {
            Some(LookupTable { v4, v6 })
        } else {
            None
        }
    }

    /// The IPv4 entries of the table, in order.
    pub fn ipv4(&self) -> (r: &Vec<Entry<u32>>)
        ensures
            r@ == self.ipv4_entries(),
            sorted_disjoint(r@),
    {
        proof {
            use_type_invariant(self);
        }
        &self.v4
    }

    /// The IPv6 entries of the table, in order.
    pub fn ipv6(&self) -> (r: &Vec<Entry<u128>>)
        ensures
            r@ == self.ipv6_entries(),
            sorted_disjoint(r@),
    {
        proof {
            use_type_invariant(self);
        }
        &self.v6
    }

    /// The entry that covers the IPv4 address `addr`, if there is one.
    pub fn lookup_ipv4(&self, addr: u32) -> (r: Option<Entry<u32>>)
        ensures
            sorted_disjoint(self.ipv4_entries()),
            r == found(self.ipv4_entries(), addr as int),
    {
        proof {
            use_type_invariant(self);
        }
        match search(&self.v4, addr) {
            Some(i) => Some(self.v4[i]),
            None => None,
        }
    }

    /// The entry that covers the IPv6 address `addr`, if there is one.
    pub fn lookup_ipv6(&self, addr: u128) -> (r: Option<Entry<u128>>)
        ensures
            sorted_disjoint(self.ipv6_entries()),
            r == found(self.ipv6_entries(), addr as int),
    {
        proof {
            use_type_invariant(self);
        }
        match search(&self.v6, addr) {
            Some(i) => Some(self.v6[i]),
            None => None,
        }
    }
}

/// The entries can be put into a table: none occurs twice, none has its first
/// address above its last, and no two of them share an address.
pub open spec fn tableable<A: Address>(entries: Seq<Entry<A>>) -> bool {
    &&& entries.no_duplicates()
    &&& forall|x: Entry<A>| entries.contains(x) ==> x.first.value() <= x.last.value()
    &&& forall|x: Entry<A>, y: Entry<A>|
        entries.contains(x) && entries.contains(y) && x != y ==> apart(x, y)
}

/// The entries stand in ascending order of their first addresses.
pub open spec fn ascending<A: Address>(entries: Seq<Entry<A>>) -> bool {
    forall|i: int, j: int|
        0 <= i < j < entries.len() ==> (#[trigger] entries[i]).first.value() <= (
        #[trigger] entries[j]).first.value()
}

/// Whether entries can be put into a table does not depend on their order.
pub proof fn lemma_tableable_any_order<A: Address>(a: Seq<Entry<A>>, b: Seq<Entry<A>>)
    requires
        a.to_multiset() == b.to_multiset(),
        tableable(a),
    ensures
        tableable(b),
{
    broadcast use vstd::seq_lib::group_to_multiset_ensures;

    a.lemma_multiset_has_no_duplicates();
    b.lemma_multiset_has_no_duplicates_conv();
    assert forall|x: Entry<A>| b.contains(x) implies a.contains(x) by {
        assert(b.to_multiset().count(x) > 0);
    }
}

/// Entries that can be put into a table and stand in ascending order of their
/// first addresses are a table in order.
pub proof fn lemma_ascending_tableable_in_order<A: Address>(entries: Seq<Entry<A>>)
    requires
        tableable(entries),
        ascending(entries),
    ensures
        sorted_disjoint(entries),
{
    assert forall|i: int| 0 <= i < entries.len() implies (#[trigger] entries[i]).first.value()
        <= entries[i].last.value() by {
        assert(entries.contains(entries[i]));
    }
    assert forall|i: int, j: int| 0 <= i < j < entries.len() implies (
    #[trigger] entries[i]).last.value() < (#[trigger] entries[j]).first.value() by {
        assert(entries.contains(entries[i]));
        assert(entries.contains(entries[j]));
        assert(entries[i] != entries[j]);
        assert(apart(entries[i], entries[j]));
    }
}

/// A table in order holds entries that can be put into a table.
pub proof fn lemma_in_order_tableable<A: Address>(entries: Seq<Entry<A>>)
    requires
        sorted_disjoint(entries),
    ensures
        tableable(entries),
        ascending(entries),
{
    assert forall|i: int, j: int| 0 <= i < j < entries.len() implies (
    #[trigger] entries[i]).first.value() <= (#[trigger] entries[j]).first.value() by {
        assert(entries[i].last.value() < entries[j].first.value());
        assert(entries[i].first.value() <= entries[i].last.value());
    }
    assert forall|i: int, j: int| 0 <= i < entries.len() && 0 <= j < entries.len() && i
        != j implies entries[i] != entries[j] by {
        if i < j {
            assert(entries[i].last.value() < entries[j].first.value());
            assert(entries[i].first.value() <= entries[i].last.value());
        } else {
            assert(entries[j].last.value() < entries[i].first.value());
            assert(entries[j].first.value() <= entries[j].last.value());
        }
    }
    assert forall|x: Entry<A>, y: Entry<A>|
        entries.contains(x) && entries.contains(y) && x != y implies apart(x, y) by {
        let i = choose|i: int| 0 <= i < entries.len() && entries[i] == x;
        let j = choose|j: int| 0 <= j < entries.len() && entries[j] == y;
        if i < j {
            assert(entries[i].last.value() < entries[j].first.value());
        } else {
            assert(entries[j].last.value() < entries[i].first.value());
        }
    }
}

impl<A: Address> Keyed for Entry<A> {
    /// An entry is ordered by its first address.
    open spec fn sort_key(&self) -> (u8, u128) {
        (0u8, self.first.value() as u128)
    }

    fn key(&self) -> (r: (u8, u128)) {
        (0u8, self.first.key())
    }
}

/// Entries in the order of their keys stand in ascending order of their first
/// addresses.
pub proof fn lemma_key_order_ascending<A: Address>(entries: Seq<Entry<A>>)
    requires
        in_key_order(entries),
        forall|i: int| 0 <= i < entries.len() ==> 0 <= (#[trigger] entries[i]).first.value() <= u128::MAX,
    ensures
        ascending(entries),
{
    assert forall|i: int, j: int| 0 <= i < j < entries.len() implies (
    #[trigger] entries[i]).first.value() <= (#[trigger] entries[j]).first.value() by {
        assert(key_le(entries[i].sort_key(), entries[j].sort_key()));
    }
}

/// A table that holds the same entries as `entries`, in order, answers for
/// every address of an entry, from its first address to its last, both
/// included, with exactly that entry, and with nothing for an address that
/// lies in no entry.
pub proof fn lemma_table_of_entries_answers<A: Address>(
    entries: Seq<Entry<A>>,
    table: Seq<Entry<A>>,
    addr: int,
)
    requires
        table.to_multiset() == entries.to_multiset(),
        sorted_disjoint(table),
    ensures
        forall|entry: Entry<A>|
            entries.contains(entry) && covers(entry, addr) ==> found(table, addr) == Some(entry),
        (forall|entry: Entry<A>| entries.contains(entry) ==> !covers(entry, addr)) ==> found(
            table,
            addr,
        ) is None,
{
    broadcast use vstd::seq_lib::group_to_multiset_ensures;

    assert forall|entry: Entry<A>| entries.contains(entry) && covers(entry, addr) implies found(
        table,
        addr,
    ) == Some(entry) by {
        assert(table.to_multiset().count(entry) > 0);
        assert(table.contains(entry));
        let i = choose|i: int| 0 <= i < table.len() && table[i] == entry;
        lemma_found_inside(table, addr, i);
    }
    if forall|entry: Entry<A>| entries.contains(entry) ==> !covers(entry, addr) {
        assert forall|i: int| 0 <= i < table.len() implies !covers(#[trigger] table[i], addr) by {
            assert(table.contains(table[i]));
            assert(entries.to_multiset().count(table[i]) > 0);
            assert(entries.contains(table[i]));
        }
        lemma_found_outside(table, addr);
    }
}

/// Whether a record goes into the table: every record but one of IANA that
/// names no registry of destination.
pub open spec fn included(record: RecordView) -> bool {
    !(record.src_registry == Registry::Iana && record.dst_registry is None)
}

/// The number of an address.
pub open spec fn address_number(addr: AddressView) -> int {
    match addr {
        AddressView::Ipv4(n) => n,
        AddressView::Ipv6(n) => n,
    }
}

/// The table entry of an IPv4 record: its first address, its last address and
/// its country.
pub open spec fn ipv4_entry(record: Record) -> Entry<u32> {
    Entry {
        first: address_number(record@.ip_block.first()) as u32,
        last: address_number(record@.ip_block.last()) as u32,
        country: record.country,
    }
}

/// The table entry of an IPv6 record.
pub open spec fn ipv6_entry(record: Record) -> Entry<u128> {
    Entry {
        first: address_number(record@.ip_block.first()) as u128,
        last: address_number(record@.ip_block.last()) as u128,
        country: record.country,
    }
}

/// The entries of the IPv4 records among `records` that go into the table,
/// in the order of the records.
pub open spec fn ipv4_entries_of(records: Seq<Record>) -> Seq<Entry<u32>>
    decreases records.len(),
{
    if records.len() == 0 {
        Seq::<Entry<u32>>::empty()
    } else {
        let before = ipv4_entries_of(records.drop_last());
        let record = records.last();
        if included(record@) && record@.ip_block.is_ipv4() {
            before.push(ipv4_entry(record))
        } else {
            before
        }
    }
}

/// The entries of the IPv6 records among `records` that go into the table,
/// in the order of the records.
pub open spec fn ipv6_entries_of(records: Seq<Record>) -> Seq<Entry<u128>>
    decreases records.len(),
{
    if records.len() == 0 {
        Seq::<Entry<u128>>::empty()
    } else {
        let before = ipv6_entries_of(records.drop_last());
        let record = records.last();
        if included(record@) && !record@.ip_block.is_ipv4() {
            before.push(ipv6_entry(record))
        } else {
            before
        }
    }
}

/// Sorts entries and tells whether they make a table.
fn arrange<A: Address>(entries: &mut Vec<Entry<A>>) -> (r: bool)
    ensures
        final(entries)@.to_multiset() == old(entries)@.to_multiset(),
        r == tableable(old(entries)@),
        r ==> sorted_disjoint(final(entries)@),
{
    sort_by_key(entries);
    let ok = in_order(entries);
    proof {
        if tableable(old(entries)@) || ok {
            assert forall|i: int| 0 <= i < entries@.len() implies 0 <= (
            #[trigger] entries@[i]).first.value() <= u128::MAX by {
                lemma_value_in_bounds(entries@[i].first);
            }
            lemma_key_order_ascending(entries@);
        }
        if ok {
            lemma_in_order_tableable(entries@);
            lemma_tableable_any_order(entries@, old(entries)@);
        }
        if tableable(old(entries)@) {
            lemma_tableable_any_order(old(entries)@, entries@);
            lemma_ascending_tableable_in_order(entries@);
        }
    }
    ok
}

/// Builds the table of `records`. Each record that goes into the table gives
/// one entry to the array of its family, and each array is put in ascending
/// order. `None` exactly when the entries of a family cannot make a table:
/// two of them are the same or share an address, or one has its first
/// address above its last.
pub fn build(records: &Vec<Record>) -> (r: Option<LookupTable>)
    ensures
        r is Some <==> tableable(ipv4_entries_of(records@)) && tableable(ipv6_entries_of(records@)),
        r matches Some(table) ==> {
            &&& table.ipv4_entries().to_multiset() == ipv4_entries_of(records@).to_multiset()
            &&& table.ipv6_entries().to_multiset() == ipv6_entries_of(records@).to_multiset()
            &&& sorted_disjoint(table.ipv4_entries())
            &&& sorted_disjoint(table.ipv6_entries())
        },
{
    let mut v4: Vec<Entry<u32>> = Vec::new();
    let mut v6: Vec<Entry<u128>> = Vec::new();
    let mut i: usize = 0;
    proof {
        assert(records@.take(0) =~= Seq::<Record>::empty());
    }
    while i < records.len()
        invariant
            i <= records.len(),
            v4@ == ipv4_entries_of(records@.take(i as int)),
            v6@ == ipv6_entries_of(records@.take(i as int)),
        decreases records.len() - i,
    {
        let record = &records[i];
        proof {
            assert(records@.take(i + 1).drop_last() =~= records@.take(i as int));
            assert(records@.take(i + 1).last() == *record);
        }
        let leaves_out: bool = record.src_registry == Registry::Iana && record.dst_registry.is_none();
        if !leaves_out {
            let first = record.ip_block.first();
            let last = record.ip_block.last();
            match (first, last) {
                (IpAddress::Ipv4(first), IpAddress::Ipv4(last)) => {
                    v4.push(Entry { first, last, country: record.country });
                },
                (IpAddress::Ipv6(first), IpAddress::Ipv6(last)) => {
                    v6.push(Entry { first, last, country: record.country });
                },
                _ => {},
            }
        }
        i += 1;
    }
    proof {
        assert(records@.take(i as int) =~= records@);
    }
    let ok4 = arrange(&mut v4);
    let ok6 = arrange(&mut v6);
    if ok4 && ok6 {
        Some(LookupTable { v4, v6 })
    } else {
        None
    }
}

/// What `lookup` gives for `ip`: the bounds and the country of the entry that
/// covers it in the array of its family.
pub open spec fn lookup_result(table: &LookupTable, ip: IpAddress) -> Option<
    (IpAddress, IpAddress, Country),
> {
    match ip {
        IpAddress::Ipv4(addr) => match found(table.ipv4_entries(), addr as int) {
            Some(entry) => Some(
                (IpAddress::Ipv4(entry.first), IpAddress::Ipv4(entry.last), entry.country),
            ),
            None => None,
        },
        IpAddress::Ipv6(addr) => match found(table.ipv6_entries(), addr as int) {
            Some(entry) => Some(
                (IpAddress::Ipv6(entry.first), IpAddress::Ipv6(entry.last), entry.country),
            ),
            None => None,
        },
    }
}

/// Finds the interval of `table` that holds `ip`, both bounds included: its
/// first address, its last address and its country. `None` when no interval
/// of the table holds `ip`.
pub fn lookup(table: &LookupTable, ip: &IpAddress) -> (r: Option<(IpAddress, IpAddress, Country)>)
    ensures
        r == lookup_result(table, *ip),
{
    match *ip {
        IpAddress::Ipv4(addr) => match table.lookup_ipv4(addr) {
            Some(entry) => Some(
                (IpAddress::Ipv4(entry.first), IpAddress::Ipv4(entry.last), entry.country),
            ),
            None => None,
        },
        IpAddress::Ipv6(addr) => match table.lookup_ipv6(addr) {
            Some(entry) => Some(
                (IpAddress::Ipv6(entry.first), IpAddress::Ipv6(entry.last), entry.country),
            ),
            None => None,
        },
    }
}

} // verus!
