//! Inclusive ranges of IPv4 addresses, their addresses in order, and their
//! decomposition into CIDR blocks.

use vstd::arithmetic::power2::{lemma_pow2_pos, lemma_pow2_unfold, pow2};
use vstd::prelude::*;
use vstd::string::StringExecFns;
use vstd::std_specs::bits::axiom_u64_trailing_zeros;

use crate::bits::{aligned, lemma_aligned_down, lemma_pow2_le_32, lemma_shl_one, lemma_trailing_zeros_aligned};
use crate::cidr::{CidrView, Ipv4Cidr};
use crate::error::Error;

verus! {

/// An inclusive range of addresses as numbers.
pub struct RangeView {
    pub first: int,
    pub last: int,
}

impl RangeView {
    /// The bounds are IPv4 addresses in ascending order.
    pub open spec fn wf(self) -> bool {
        0 <= self.first <= self.last <= u32::MAX
    }

    /// Number of addresses in the range.
    pub open spec fn size(self) -> int {
        self.last - self.first + 1
    }

    /// Whether `addr` lies in the range.
    pub open spec fn contains(self, addr: int) -> bool {
        self.first <= addr <= self.last
    }

    /// Every address of the range, ascending.
    pub open spec fn addresses(self) -> Seq<int> {
        addresses_from(self.first, self.last)
    }

    /// The CIDR blocks that partition the range, ascending.
    pub open spec fn blocks(self) -> Seq<CidrView> {
        blocks_from(self.first, self.last)
    }
}

/// The addresses from `pos` to `last`, ascending; empty when `pos` is above `last`.
pub open spec fn addresses_from(pos: int, last: int) -> Seq<int> {
    Seq::new(
        if pos <= last {
            (last - pos + 1) as nat
        } else {
            0
        },
        |i: int| pos + i,
    )
}

/// A block of `2^shift` addresses may begin at `pos` without passing `last`:
/// `pos` is a multiple of the block size and the block ends at or before `last`.
pub open spec fn block_fits(pos: int, last: int, shift: nat) -> bool {
    &&& shift <= 32
    &&& aligned(pos, shift)
    &&& pos + pow2(shift) - 1 <= last
}

/// The largest `shift` not above `bound` for which a block fits at `pos`,
/// or 0 when there is none.
pub open spec fn largest_fit(pos: int, last: int, bound: nat) -> nat
    decreases bound,
{
    if bound == 0 || block_fits(pos, last, bound) {
        bound
    } else {
        largest_fit(pos, last, (bound - 1) as nat)
    }
}

/// Host bits of the block that the decomposition places at `pos`: the largest
/// aligned block that does not pass `last`.
pub open spec fn block_shift(pos: int, last: int) -> nat {
    largest_fit(pos, last, 32)
}

/// The IPv4 block of `2^shift` addresses at `pos`.
pub open spec fn block_at(pos: int, shift: nat) -> CidrView {
    CidrView { address: pos, prefix_len: 32 - shift, width: 32 }
}

/// The decomposition of `pos..=last`: the largest block that fits at `pos`,
/// then the decomposition of what follows it.
pub open spec fn blocks_from(pos: int, last: int) -> Seq<CidrView>
    decreases last - pos + 1,
{
    if pos > last {
        Seq::empty()
    } else {
        let shift = block_shift(pos, last);
        proof {
            lemma_pow2_pos(shift);
            lemma_block_shift_is_largest(pos, last);
        }
        seq![block_at(pos, shift)] + blocks_from(pos + pow2(shift), last)
    }
}

/// A single address always fits.
pub proof fn lemma_unit_block_fits(pos: int, last: int)
    requires
        pos <= last,
    ensures
        block_fits(pos, last, 0),
{
    vstd::arithmetic::power2::lemma2_to64();
}

/// The block chosen at `pos` fits, and no larger block does.
pub proof fn lemma_block_shift_is_largest(pos: int, last: int)
    requires
        pos <= last,
    ensures
        block_fits(pos, last, block_shift(pos, last)),
        forall|t: nat| block_shift(pos, last) < t <= 32 ==> !block_fits(pos, last, t),
{
    lemma_largest_fit_is_largest(pos, last, 32);
}

proof fn lemma_largest_fit_is_largest(pos: int, last: int, bound: nat)
    requires
        pos <= last,
        bound <= 32,
    ensures
        block_fits(pos, last, largest_fit(pos, last, bound)),
        forall|t: nat| largest_fit(pos, last, bound) < t <= bound ==> !block_fits(pos, last, t),
    decreases bound,
{
    if bound == 0 {
        lemma_unit_block_fits(pos, last);
    } else if !block_fits(pos, last, bound) {
        lemma_largest_fit_is_largest(pos, last, (bound - 1) as nat);
    }
}

/// A shift that fits while no larger one does is the shift of the decomposition.
pub proof fn lemma_block_shift_unique(pos: int, last: int, shift: nat)
    requires
        pos <= last,
        block_fits(pos, last, shift),
        forall|t: nat| shift < t <= 32 ==> !block_fits(pos, last, t),
    ensures
        block_shift(pos, last) == shift,
{
    lemma_block_shift_is_largest(pos, last);
    let chosen = block_shift(pos, last);
    if chosen < shift {
        assert(!block_fits(pos, last, shift));
    }
    if shift < chosen {
        assert(!block_fits(pos, last, chosen));
    }
}

/// An inclusive range of IPv4 addresses, held as numbers. Its first address is
/// never above its last.
#[derive(Debug, Copy, Clone, Hash, PartialEq, Eq, Structural)]
pub struct Ipv4Range {
    start_ip: u32,
    end_ip: u32,
}

impl View for Ipv4Range {
    type V = RangeView;

    closed spec fn view(&self) -> RangeView {
        RangeView { first: self.start_ip as int, last: self.end_ip as int }
    }
}

impl Ipv4Range {
    #[verifier::type_invariant]
    spec fn inv(self) -> bool {
        self.start_ip <= self.end_ip
    }

    /// The range from `start_ip` to `end_ip`, both included. Fails with
    /// `InvalidRangeError` exactly when `start_ip` is above `end_ip`.
    pub fn new(start_ip: u32, end_ip: u32) -> (r: Result<Ipv4Range, Error>)
        ensures
            start_ip <= end_ip ==> r is Ok && r->Ok_0@ == (RangeView {
                first: start_ip as int,
                last: end_ip as int,
            }) && r->Ok_0@.wf(),
            start_ip > end_ip ==> r is Err && r->Err_0 is InvalidRangeError,
    {
        if start_ip <= end_ip {
            Ok(Ipv4Range { start_ip, end_ip })
        } else {
            Err(Error::InvalidRangeError(String::from_str("first address is above the last")))
        }
    }

    /// The range of `nums` addresses that begins at `start_ip`. Fails with
    /// `InvalidRangeError` exactly when `nums` is zero or the range would
    /// reach beyond the last IPv4 address.
    pub fn with_nums(start_ip: u32, nums: u32) -> (r: Result<Ipv4Range, Error>)
        ensures
            nums > 0 && start_ip + nums - 1 <= u32::MAX ==> r is Ok && r->Ok_0@ == (RangeView {
                first: start_ip as int,
                last: start_ip + nums - 1,
            }) && r->Ok_0@.wf(),
            nums == 0 || start_ip + nums - 1 > u32::MAX ==> r is Err && r->Err_0
                is InvalidRangeError,
    {
        if nums == 0 {
            return Err(Error::InvalidRangeError(String::from_str("a range holds at least one address")));
        }
        match start_ip.checked_add(nums - 1) {
            Some(end_ip) => Ok(Ipv4Range { start_ip, end_ip }),
            None => Err(
                Error::InvalidRangeError(String::from_str("the range reaches beyond the address space")),
            ),
        }
    }

    /// First address of the range.
    pub fn first(&self) -> (r: u32)
        ensures
            r == self@.first,
            self@.wf(),
    {
        proof {
            use_type_invariant(self);
        }
        self.start_ip
    }

    /// Last address of the range.
    pub fn last(&self) -> (r: u32)
        ensures
            r == self@.last,
            self@.wf(),
    {
        proof {
            use_type_invariant(self);
        }
        self.end_ip
    }

    /// Number of addresses in the range; up to `2^32` for the whole address space.
    pub fn total(&self) -> (r: u64)
        ensures
            r == self@.size(),
            r == self@.last - self@.first + 1,
            1 <= r <= 0x1_0000_0000,
    {
        proof {
            use_type_invariant(self);
        }
        (self.end_ip - self.start_ip) as u64 + 1
    }

    /// Whether `addr` lies in the range.
    pub fn contains(&self, addr: u32) -> (r: bool)
        ensures
            r == self@.contains(addr as int),
    {
        self.start_ip <= addr && addr <= self.end_ip
    }

    /// A fresh cursor over the addresses of the range, ascending.
    pub fn addrs(&self) -> (r: Ipv4AddrsIter)
        ensures
            r@ == self@.addresses(),
            r@.len() == self@.size(),
    {
        proof {
            use_type_invariant(self);
        }
        Ipv4AddrsIter { offset: self.start_ip as u64, end: self.end_ip as u64 }
    }

    /// A fresh cursor over the CIDR blocks that partition the range, ascending.
    pub fn cidrs(&self) -> (r: Ipv4CidrIter)
        ensures
            r@ == self@.blocks(),
    {
        Ipv4CidrIter { start: self.start_ip as u64, end: self.end_ip as u64 }
    }
}

/// Two ranges with the same bounds are the same range.
pub proof fn lemma_range_by_view(a: Ipv4Range, b: Ipv4Range)
    requires
        a@ == b@,
    ensures
        a == b,
{
}

/// Cursor over the addresses of a range. Its view is what it has yet to yield.
pub struct Ipv4AddrsIter {
    offset: u64,
    end: u64,
}

impl View for Ipv4AddrsIter {
    type V = Seq<int>;

    closed spec fn view(&self) -> Seq<int> {
        addresses_from(self.offset as int, self.end as int)
    }
}

impl Ipv4AddrsIter {
    #[verifier::type_invariant]
    spec fn inv(self) -> bool {
        self.end <= u32::MAX
    }

    /// Yields the next address, or `None` once the range is exhausted.
    pub fn next(&mut self) -> (r: Option<u32>)
        ensures
            old(self)@.len() == 0 ==> r is None && final(self)@ == old(self)@,
            old(self)@.len() > 0 ==> r is Some && r->Some_0 == old(self)@[0] && final(self)@
                == old(self)@.skip(1),
    {
        proof {
            use_type_invariant(&*self);
        }
        if self.end >= self.offset {
            let ip: u32 = self.offset as u32;
            self.offset += 1;
            assert(self@ =~= old(self)@.skip(1));
            Some(ip)
        } else {
            None
        }
    }

    /// Runs the cursor to its end and tells how many addresses it yielded.
    pub fn count(self) -> (r: u64)
        ensures
            r == self@.len(),
    {
        proof {
            use_type_invariant(&self);
        }
        let mut it = self;
        let mut seen: u64 = 0;
        loop
            invariant
                seen + it@.len() == self@.len(),
                self@.len() <= 0x1_0000_0000,
            ensures
                seen == self@.len(),
            decreases it@.len(),
        {
            match it.next() {
                Some(_) => {
                    seen += 1;
                },
                None => {
                    break ;
                },
            }
        }
        seen
    }
}

/// Cursor over the CIDR blocks of a range. Its view is what it has yet to yield.
pub struct Ipv4CidrIter {
    start: u64,
    end: u64,
}

impl View for Ipv4CidrIter {
    type V = Seq<CidrView>;

    closed spec fn view(&self) -> Seq<CidrView> {
        blocks_from(self.start as int, self.end as int)
    }
}

/// The views of a sequence of blocks, in order.
pub open spec fn block_views(blocks: Seq<Ipv4Cidr>) -> Seq<CidrView> {
    blocks.map_values(|b: Ipv4Cidr| b@)
}

impl Ipv4CidrIter {
    #[verifier::type_invariant]
    spec fn inv(self) -> bool {
        self.end <= u32::MAX
    }

    /// Yields the next block of the decomposition, or `None` once the range
    /// is covered: the largest block that is aligned at the cursor and does
    /// not pass the end of the range.
    pub fn next(&mut self) -> (r: Option<Ipv4Cidr>)
        ensures
            old(self)@.len() == 0 ==> r is None && final(self)@ == old(self)@,
            old(self)@.len() > 0 ==> r is Some && r->Some_0@ == old(self)@[0] && final(self)@
                == old(self)@.skip(1),
    {
        proof {
            use_type_invariant(&*self);
        }
        let start: u64 = self.start;
        let end: u64 = self.end;
        if start > end {
            return None;
        }
        let zeros: u32 = start.trailing_zeros();
        let mut shift: u64 = if zeros < 32 {
            zeros as u64
        } else {
            32
        };
        proof {
            axiom_u64_trailing_zeros(start);
            lemma_shl_one(shift);
            lemma_pow2_le_32(shift as nat);
            if start != 0 {
                lemma_trailing_zeros_aligned(start);
                lemma_aligned_down(start as int, zeros as nat, shift as nat);
                assert forall|t: nat| shift < t <= 32 implies !aligned(start as int, t) by {
                    if aligned(start as int, t) {
                        lemma_aligned_down(start as int, t, (zeros + 1) as nat);
                    }
                }
            }
        }
        let mut num: u64 = 1u64 << shift;
        while start + num > end + 1
            invariant
                start <= end <= u32::MAX,
                shift <= 32,
                num == pow2(shift as nat),
                1 <= num <= 0x1_0000_0000,
                aligned(start as int, shift as nat),
                forall|t: nat| shift < t <= 32 ==> !block_fits(start as int, end as int, t),
            decreases shift,
        {
            proof {
                // A single address always fits, so the scan stops before it leaves zero.
                vstd::arithmetic::power2::lemma2_to64();
                assert(shift > 0);
                assert(!block_fits(start as int, end as int, shift as nat));
                lemma_pow2_unfold(shift as nat);
                assert(((shift - 1) as nat + 1) as nat == shift as nat);
                crate::bits::lemma_aligned_step(start as int, (shift - 1) as nat);
                lemma_pow2_le_32((shift - 1) as nat);
            }
            shift -= 1;
            num = num / 2;
        }
        proof {
            lemma_block_shift_unique(start as int, end as int, shift as nat);
            assert(old(self)@ == seq![block_at(start as int, shift as nat)] + blocks_from(
                start + num,
                end as int,
            ));
        }
        let prefix_len: u8 = (32 - shift) as u8;
        let block = Ipv4Cidr::new(start as u32, prefix_len);
        self.start = start + num;
        assert(self@ =~= old(self)@.skip(1));
        block
    }

    /// Runs the cursor to its end and gathers the blocks it yields, in order.
    pub fn collect(self) -> (r: Vec<Ipv4Cidr>)
        ensures
            block_views(r@) == self@,
    {
        let mut it = self;
        let mut blocks: Vec<Ipv4Cidr> = Vec::new();
        loop
            invariant
                block_views(blocks@) + it@ == self@,
            ensures
                block_views(blocks@) == self@,
            decreases it@.len(),
        {
            let ghost before = blocks@;
            let ghost rest = it@;
            match it.next() {
                Some(block) => {
                    blocks.push(block);
                    assert(block_views(blocks@) =~= block_views(before).push(block@));
                    assert(block_views(before).push(rest[0]) + rest.skip(1) =~= block_views(before)
                        + rest);
                },
                None => {
                    assert(block_views(blocks@) + it@ =~= block_views(blocks@));
                    break ;
                },
            }
        }
        blocks
    }
}

/// A block of the decomposition of `pos..=last` is a well-formed, aligned IPv4
/// block that lies inside `pos..=last`.
pub open spec fn block_inside(block: CidrView, pos: int, last: int) -> bool {
    &&& block.wf()
    &&& block.width == 32
    &&& block.is_aligned()
    &&& block.first() == block.address
    &&& pos <= block.address
    &&& block.last() <= last
}

/// Block `i + 1` of `blocks` begins right after block `i` ends.
pub open spec fn adjacent(blocks: Seq<CidrView>, i: int) -> bool {
    blocks[i].last() + 1 == blocks[i + 1].address
}

/// `blocks` tiles `pos..=last`: the first block begins at `pos`, each further
/// block begins right after the one before it, the last block ends at `last`,
/// and every block is aligned to its size.
pub open spec fn tiles(blocks: Seq<CidrView>, pos: int, last: int) -> bool {
    &&& blocks.len() >= 1
    &&& blocks[0].address == pos
    &&& blocks[blocks.len() - 1].last() == last
    &&& forall|i: int| 0 <= i < blocks.len() ==> block_inside(#[trigger] blocks[i], pos, last)
    &&& forall|i: int| 0 <= i < blocks.len() - 1 ==> #[trigger] adjacent(blocks, i)
}

/// The decomposition of a range tiles it: no gap, no overlap, nothing outside,
/// ascending.
pub proof fn lemma_blocks_tile(pos: int, last: int)
    requires
        0 <= pos <= last <= u32::MAX,
    ensures
        tiles(blocks_from(pos, last), pos, last),
    decreases last - pos,
{
    let shift = block_shift(pos, last);
    let head = block_at(pos, shift);
    let next = pos + pow2(shift);
    let rest = blocks_from(next, last);
    let all = blocks_from(pos, last);
    lemma_block_shift_is_largest(pos, last);
    lemma_pow2_pos(shift);
    vstd::arithmetic::power2::lemma2_to64();
    assert(all == seq![head] + rest);
    assert((32 - (32 - shift)) as nat == shift);
    assert(head.size() == pow2(shift));
    assert(block_inside(head, pos, last));
    if next > last {
        assert(rest.len() == 0);
        assert(all.len() == 1);
        assert(all[0] == head);
    } else {
        lemma_blocks_tile(next, last);
        assert(all.len() == rest.len() + 1);
        assert(all[0] == head);
        assert forall|i: int| 0 <= i < all.len() implies block_inside(
            #[trigger] all[i],
            pos,
            last,
        ) by {
            if i > 0 {
                assert(all[i] == rest[i - 1]);
                assert(block_inside(rest[i - 1], next, last));
            }
        }
        assert forall|i: int| 0 <= i < all.len() - 1 implies #[trigger] adjacent(all, i) by {
            assert(all[i + 1] == rest[i]);
            if i > 0 {
                assert(all[i] == rest[i - 1]);
                assert(adjacent(rest, i - 1));
            }
        }
        assert(all[all.len() - 1] == rest[rest.len() - 1]);
    }
}

/// In a tiling, a later block lies wholly above an earlier one.
pub proof fn lemma_tiles_ascend(blocks: Seq<CidrView>, pos: int, last: int, i: int, j: int)
    requires
        tiles(blocks, pos, last),
        0 <= i < j < blocks.len(),
    ensures
        blocks[i].last() < blocks[j].first(),
    decreases j - i,
{
    assert(block_inside(blocks[i], pos, last));
    assert(block_inside(blocks[j], pos, last));
    if j == i + 1 {
        assert(adjacent(blocks, i));
    } else {
        lemma_tiles_ascend(blocks, pos, last, i, j - 1);
        assert(block_inside(blocks[j - 1], pos, last));
        assert(adjacent(blocks, j - 1));
        lemma_pow2_pos((32 - blocks[j - 1].prefix_len) as nat);
    }
}

/// In a tiling of `pos..=last`, every address of `pos..=last` lies in some block.
pub proof fn lemma_tiles_cover(blocks: Seq<CidrView>, pos: int, last: int, addr: int) -> (i: int)
    requires
        tiles(blocks, pos, last),
        pos <= addr <= last,
    ensures
        0 <= i < blocks.len(),
        blocks[i].contains(addr),
{
    lemma_tiles_cover_upto(blocks, pos, last, addr, blocks.len() - 1)
}

proof fn lemma_tiles_cover_upto(blocks: Seq<CidrView>, pos: int, last: int, addr: int, k: int) -> (i: int)
    requires
        tiles(blocks, pos, last),
        0 <= k < blocks.len(),
        pos <= addr <= blocks[k].last(),
    ensures
        0 <= i <= k,
        blocks[i].contains(addr),
    decreases k,
{
    assert(block_inside(blocks[k], pos, last));
    if blocks[k].first() <= addr {
        k
    } else {
        assert(k > 0);
        assert(adjacent(blocks, k - 1));
        lemma_tiles_cover_upto(blocks, pos, last, addr, k - 1)
    }
}

/// What follows a block of a tiling is a tiling of what follows the block.
pub proof fn lemma_tiling_tail(tiling: Seq<CidrView>, pos: int, last: int, k: int)
    requires
        tiles(tiling, pos, last),
        0 <= k < tiling.len(),
    ensures
        tiles(tiling.skip(k), tiling[k].address, last),
{
    let tail = tiling.skip(k);
    let next = tiling[k].address;
    assert(tail[0] == tiling[k]);
    assert(tail[tail.len() - 1] == tiling[tiling.len() - 1]);
    assert forall|i: int| 0 <= i < tail.len() implies block_inside(#[trigger] tail[i], next, last) by {
        assert(tail[i] == tiling[k + i]);
        assert(block_inside(tiling[k + i], pos, last));
        assert(block_inside(tiling[k], pos, last));
        if i > 0 {
            lemma_tiles_ascend(tiling, pos, last, k, k + i);
            lemma_pow2_pos((32 - tiling[k].prefix_len) as nat);
        }
    }
    assert forall|i: int| 0 <= i < tail.len() - 1 implies #[trigger] adjacent(tail, i) by {
        assert(tail[i] == tiling[k + i]);
        assert(tail[i + 1] == tiling[k + i + 1]);
        assert(adjacent(tiling, k + i));
    }
}

/// In a tiling of `pos..=last`, a block that begins inside the block that the
/// decomposition places at `pos` ends inside it, and the tiling has a block
/// that begins right after it, unless it reaches `last`.
proof fn lemma_tiling_meets_block(tiling: Seq<CidrView>, pos: int, last: int, j: int) -> (k: int)
    requires
        0 <= pos <= last <= u32::MAX,
        tiles(tiling, pos, last),
        pos + pow2(block_shift(pos, last)) <= last,
        0 <= j < tiling.len(),
        pos <= tiling[j].address < pos + pow2(block_shift(pos, last)),
    ensures
        j < k < tiling.len(),
        tiling[k].address == pos + pow2(block_shift(pos, last)),
    decreases tiling.len() - j,
{
    let shift = block_shift(pos, last);
    let block = tiling[j];
    let small = (32 - block.prefix_len) as nat;
    lemma_block_shift_is_largest(pos, last);
    assert(block_inside(block, pos, last));
    assert(aligned(block.address, small));
    if small > shift {
        // A larger block that begins in the span begins at `pos`, and then
        // it would be the block of the decomposition.
        lemma_aligned_down(block.address, small, shift);
        crate::bits::lemma_aligned_close(block.address, pos, shift);
        assert(block_fits(pos, last, small));
        assert(false);
    }
    crate::bits::lemma_blocks_nest(block.address, small, pos, shift);
    assert(block.last() + 1 <= pos + pow2(shift));
    assert(block.last() < last);
    assert(j + 1 < tiling.len()) by {
        if j + 1 >= tiling.len() {
            assert(tiling[tiling.len() - 1] == block);
        }
    }
    assert(adjacent(tiling, j));
    if block.last() + 1 == pos + pow2(shift) {
        j + 1
    } else {
        lemma_tiling_meets_block(tiling, pos, last, j + 1)
    }
}

/// No tiling of a range by aligned blocks has fewer blocks than its
/// decomposition.
pub proof fn lemma_decomposition_is_shortest(tiling: Seq<CidrView>, pos: int, last: int)
    requires
        0 <= pos <= last <= u32::MAX,
        tiles(tiling, pos, last),
    ensures
        blocks_from(pos, last).len() <= tiling.len(),
    decreases last - pos,
{
    let shift = block_shift(pos, last);
    let next = pos + pow2(shift);
    let rest = blocks_from(next, last);
    lemma_pow2_pos(shift);
    assert(blocks_from(pos, last) == seq![block_at(pos, shift)] + rest);
    if next > last {
        assert(rest.len() == 0);
    } else {
        let k = lemma_tiling_meets_block(tiling, pos, last, 0);
        let tail = tiling.skip(k);
        lemma_tiling_tail(tiling, pos, last, k);
        lemma_decomposition_is_shortest(tail, next, last);
    }
}

/// A tiling of a range by aligned blocks that has no more blocks than the
/// decomposition is the decomposition: the shortest tiling is unique.
pub proof fn lemma_shortest_tiling_is_decomposition(tiling: Seq<CidrView>, pos: int, last: int)
    requires
        0 <= pos <= last <= u32::MAX,
        tiles(tiling, pos, last),
        tiling.len() <= blocks_from(pos, last).len(),
    ensures
        tiling == blocks_from(pos, last),
    decreases last - pos,
{
    let shift = block_shift(pos, last);
    let next = pos + pow2(shift);
    let rest = blocks_from(next, last);
    let head = block_at(pos, shift);
    lemma_pow2_pos(shift);
    lemma_block_shift_is_largest(pos, last);
    assert(blocks_from(pos, last) == seq![head] + rest);
    assert(block_inside(tiling[0], pos, last));
    let first = tiling[0];
    let small = (32 - first.prefix_len) as nat;
    if next > last {
        assert(rest.len() == 0);
        assert(tiling.len() == 1);
        assert(first.last() == last);
    } else {
        let k = lemma_tiling_meets_block(tiling, pos, last, 0);
        let tail = tiling.skip(k);
        lemma_tiling_tail(tiling, pos, last, k);
        lemma_decomposition_is_shortest(tail, next, last);
        assert(k == 1);
        lemma_shortest_tiling_is_decomposition(tail, next, last);
        assert(adjacent(tiling, 0));
        assert(tiling =~= seq![first] + tail);
    }
    // The first block has the size of the decomposition's, hence its prefix.
    assert(pow2(small) == pow2(shift));
    if small < shift {
        vstd::arithmetic::power2::lemma_pow2_strictly_increases(small, shift);
    }
    if shift < small {
        vstd::arithmetic::power2::lemma_pow2_strictly_increases(shift, small);
    }
    assert(first == head);
    assert(tiling =~= seq![head] + rest);
}

/// The blocks of a range's decomposition hold exactly the addresses of the
/// range: an address lies in the range if and only if it lies in some block.
pub proof fn lemma_blocks_cover_range(range: RangeView, addr: int)
    requires
        range.wf(),
    ensures
        range.contains(addr) <==> exists|i: int|
            0 <= i < range.blocks().len() && (#[trigger] range.blocks()[i]).contains(addr),
{
    let blocks = range.blocks();
    lemma_blocks_tile(range.first, range.last);
    if range.contains(addr) {
        let i = lemma_tiles_cover(blocks, range.first, range.last, addr);
        assert(blocks[i].contains(addr));
    }
    if exists|i: int| 0 <= i < blocks.len() && (#[trigger] blocks[i]).contains(addr) {
        let i = choose|i: int| 0 <= i < blocks.len() && (#[trigger] blocks[i]).contains(addr);
        assert(block_inside(blocks[i], range.first, range.last));
    }
}

/// The blocks of a range's decomposition come in ascending order and no two of
/// them share an address.
pub proof fn lemma_blocks_ascend(range: RangeView, i: int, j: int)
    requires
        range.wf(),
        0 <= i < j < range.blocks().len(),
    ensures
        range.blocks()[i].address < range.blocks()[j].address,
        range.blocks()[i].last() < range.blocks()[j].first(),
        forall|addr: int| !(range.blocks()[i].contains(addr) && range.blocks()[j].contains(addr)),
{
    let blocks = range.blocks();
    lemma_blocks_tile(range.first, range.last);
    lemma_tiles_ascend(blocks, range.first, range.last, i, j);
    assert(block_inside(blocks[i], range.first, range.last));
    assert(block_inside(blocks[j], range.first, range.last));
    lemma_pow2_pos((32 - blocks[i].prefix_len) as nat);
}

/// Every address of every block of a range's decomposition lies in the range.
pub proof fn lemma_block_addresses_in_range(range: RangeView, i: int, addr: int)
    requires
        range.wf(),
        0 <= i < range.blocks().len(),
        range.blocks()[i].contains(addr),
    ensures
        range.contains(addr),
{
    lemma_blocks_tile(range.first, range.last);
    assert(block_inside(range.blocks()[i], range.first, range.last));
}

/// Two ranges with the same bounds decompose into the same blocks.
pub proof fn lemma_blocks_deterministic(a: RangeView, b: RangeView)
    requires
        a.first == b.first,
        a.last == b.last,
    ensures
        a.blocks() == b.blocks(),
{
}

/// The addresses of a range are as many as its size, begin with its first
/// address, end with its last and ascend by one.
pub proof fn lemma_addresses_ascend(range: RangeView)
    requires
        range.wf(),
    ensures
        range.addresses().len() == range.size(),
        range.addresses()[0] == range.first,
        range.addresses()[range.size() - 1] == range.last,
        forall|i: int, j: int|
            0 <= i < j < range.size() ==> #[trigger] range.addresses()[i] < #[trigger] range.addresses()[j],
        forall|i: int| 0 <= i < range.size() ==> range.contains(#[trigger] range.addresses()[i]),
{
}

} // verus!
