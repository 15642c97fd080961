//! IPv4 CIDR blocks and block sets.
//!
//! A block is a raw 32-bit address together with a prefix length; a block
//! set is an ordered vector of blocks with sorting, deduplication, the
//! aggregation pass `optimize`, and capacity-bounded splitting.

use vstd::prelude::*;
use vstd::pervasive::VecAdditionalExecFns;
use vstd::string::StrSliceExecFns;
use vstd::string::StringExecFns;
use crate::meta::Error;
use crate::text::{dec_digits, dec_val, all_digits, is_digit, spec_parse_dec, find_char,
    lemma_dec_digits, lemma_find_char, lemma_find_char_is, lemma_find_char_none, split_lines,
    strip_cr, str_eq, u32_to_dec, push_char, find_char_exec, parse_dec_capped, is_digit_exec};

verus! {

/// The protocol field of a rule, as a raw number.
pub type Protocol = u8;

/// The action field of a rule, as a raw number.
pub type Action = u8;

/// A 16-bit port number.
#[derive(Debug, Clone, Copy, PartialEq, Eq, Structural)]
pub struct Port(pub u16);

/// A raw 32-bit host address without a prefix.
#[derive(Debug, Clone, Copy, PartialEq, Eq, Structural)]
pub struct Addr(pub u32);

/// A prefix length on its own.
#[derive(Debug, Clone, Copy, PartialEq, Eq, Structural)]
pub struct Subnet(pub u8);

/// An IPv4 CIDR block: a raw 32-bit address and a prefix length.
///
/// A well-formed block has a prefix length of at most 32; constructors and
/// parsers clamp larger values to 32, they never reject them.
#[derive(Debug, Clone, Copy, PartialEq, Eq, Structural)]
pub struct Net(pub u32, pub u8);

/// An inclusive address range.
#[derive(Debug, Clone, Copy, PartialEq, Eq, Structural)]
pub struct Range<T>(pub T, pub T);

/// The network mask of a prefix length: the high `p` bits set.
pub open spec fn mask_of(p: u8) -> u32 {
    if p == 0 {
        0u32
    } else {
        (0xFFFF_FFFFu32 << ((32 - p) as u32)) as u32
    }
}

impl Net {
    /// A block is well formed when its prefix length fits the address width.
    pub open spec fn wf(self) -> bool {
        self.1 <= 32
    }

    /// The lowest address of the block (host bits cleared).
    pub open spec fn spec_network(self) -> u32 {
        self.0 & mask_of(self.1)
    }

    /// The highest address of the block (host bits set).
    pub open spec fn spec_broadcast(self) -> u32 {
        self.0 | !mask_of(self.1)
    }

    /// Range inclusion: this block covers every address the other covers.
    pub open spec fn spec_contains(self, other: Net) -> bool {
        self.spec_network() <= other.spec_network()
            && self.spec_broadcast() >= other.spec_broadcast()
    }

    /// A single address lies inside the block.
    pub open spec fn spec_covers(self, x: u32) -> bool {
        self.spec_network() <= x <= self.spec_broadcast()
    }

    /// Strict order on the canonical key `(network, prefix)`.
    pub open spec fn key_lt(self, other: Net) -> bool {
        self.spec_network() < other.spec_network()
            || (self.spec_network() == other.spec_network() && self.1 < other.1)
    }

    /// Equality of the canonical key `(network, prefix)`.
    pub open spec fn key_eq(self, other: Net) -> bool {
        self.spec_network() == other.spec_network() && self.1 == other.1
    }

    /// Non-strict order on the canonical key `(network, prefix)`.
    pub open spec fn key_le(self, other: Net) -> bool {
        self.key_lt(other) || self.key_eq(other)
    }

    /// Strict order on the raw pair `(address, prefix)`.
    pub open spec fn raw_lt(self, other: Net) -> bool {
        self.0 < other.0 || (self.0 == other.0 && self.1 < other.1)
    }

    /// Non-strict order on the raw pair `(address, prefix)`.
    pub open spec fn raw_le(self, other: Net) -> bool {
        self.raw_lt(other) || self == other
    }

    /// Two abutting same-size blocks whose first half starts on a parent
    /// boundary; such a pair collapses into the parent block.
    pub open spec fn spec_mergeable(self, other: Net) -> bool {
        &&& self.1 == other.1
        &&& self.1 > 0
        &&& self.spec_broadcast() < 0xFFFF_FFFFu32
        &&& other.spec_network() == self.spec_broadcast() + 1
        &&& self.spec_network() & mask_of((self.1 - 1) as u8) == self.spec_network()
    }
}

/// The network and broadcast addresses bound the raw address, and taking
/// the network address again changes nothing.
proof fn lemma_block_bounds(a: u32, p: u8)
    requires
        p <= 32,
    ensures
        a & mask_of(p) <= a,
        a <= (a | !mask_of(p)),
        (a & mask_of(p)) & mask_of(p) == a & mask_of(p),
        (a & mask_of(p)) | !mask_of(p) == a | !mask_of(p),
{
    if p == 0 {
        assert(a & 0u32 <= a && a <= (a | !0u32) && (a & 0u32) & 0u32 == a & 0u32 && (a & 0u32)
            | !0u32 == a | !0u32) by (bit_vector);
    } else {
        let s = (32 - p) as u32;
        assert(a & (0xFFFF_FFFFu32 << s) <= a && a <= (a | !(0xFFFF_FFFFu32 << s)) && (a
            & (0xFFFF_FFFFu32 << s)) & (0xFFFF_FFFFu32 << s) == a & (0xFFFF_FFFFu32 << s) && (a
            & (0xFFFF_FFFFu32 << s)) | !(0xFFFF_FFFFu32 << s) == a | !(0xFFFF_FFFFu32 << s))
            by (bit_vector)
            requires
                s < 32,
        ;
    }
}

/// A shorter prefix gives a block that reaches at least as low and as high.
proof fn lemma_prefix_monotone(a: u32, p1: u8, p2: u8)
    requires
        p1 <= p2 <= 32,
    ensures
        a & mask_of(p1) <= a & mask_of(p2),
        (a | !mask_of(p1)) >= (a | !mask_of(p2)),
{
    if p1 == 0 {
        lemma_block_bounds(a, p2);
        assert(a & 0u32 <= a & mask_of(p2)) by (bit_vector);
        assert((a | !0u32) >= (a | !mask_of(p2))) by (bit_vector);
    } else {
        let s1 = (32 - p1) as u32;
        let s2 = (32 - p2) as u32;
        assert(a & (0xFFFF_FFFFu32 << s1) <= a & (0xFFFF_FFFFu32 << s2) && (a & (0xFFFF_FFFFu32
            << s1)) <= a & (0xFFFF_FFFFu32 << s2) && (a | !(0xFFFF_FFFFu32 << s1)) >= (a
            | !(0xFFFF_FFFFu32 << s2))) by (bit_vector)
            requires
                s2 <= s1 < 32,
        ;
    }
}

/// Aligned blocks nest: when a block with the shorter prefix overlaps one
/// with a longer prefix, it contains it whole.
proof fn lemma_nesting(a1: u32, p1: u8, a2: u32, p2: u8)
    requires
        p1 <= p2 <= 32,
        a1 & mask_of(p1) <= (a2 | !mask_of(p2)),
        a2 & mask_of(p2) <= (a1 | !mask_of(p1)),
    ensures
        a1 & mask_of(p1) <= a2 & mask_of(p2),
        (a2 | !mask_of(p2)) <= (a1 | !mask_of(p1)),
{
    if p1 == 0 {
        lemma_block_bounds(a2, p2);
        assert(a1 & 0u32 <= a2 & mask_of(p2)) by (bit_vector);
        assert((a2 | !mask_of(p2)) <= (a1 | !0u32)) by (bit_vector);
    } else {
        let s1 = (32 - p1) as u32;
        let s2 = (32 - p2) as u32;
        assert((a1 & (0xFFFF_FFFFu32 << s1) <= (a2 | !(0xFFFF_FFFFu32 << s2)) && a2
            & (0xFFFF_FFFFu32 << s2) <= (a1 | !(0xFFFF_FFFFu32 << s1))) ==> (a1 & (0xFFFF_FFFFu32
            << s1) <= a2 & (0xFFFF_FFFFu32 << s2) && (a2 | !(0xFFFF_FFFFu32 << s2)) <= (a1
            | !(0xFFFF_FFFFu32 << s1)))) by (bit_vector)
            requires
                s2 <= s1 < 32,
        ;
    }
}

/// Merging two abutting same-size blocks, the first aligned to the parent
/// boundary, yields exactly the parent block.
proof fn lemma_merge(x: u32, y: u32, p: u8)
    requires
        1 <= p <= 32,
        x & mask_of(p) == x,
        x & mask_of((p - 1) as u8) == x,
        (x | !mask_of(p)) < 0xFFFF_FFFFu32,
        y == (x | !mask_of(p)) + 1,
    ensures
        x & mask_of((p - 1) as u8) == x,
        (x | !mask_of((p - 1) as u8)) == (y | !mask_of(p)),
{
    if p == 1 {
        assert((x & (0xFFFF_FFFFu32 << 31u32) == x && x & 0u32 == x && (x | !(0xFFFF_FFFFu32
            << 31u32)) < 0xFFFF_FFFFu32 && y == (x | !(0xFFFF_FFFFu32 << 31u32)) + 1) ==> ((x
            | !0u32) == (y | !(0xFFFF_FFFFu32 << 31u32)))) by (bit_vector);
    } else {
        let s = (32 - p) as u32;
        let sp = (32 - (p - 1)) as u32;
        assert((x & (0xFFFF_FFFFu32 << s) == x && x & (0xFFFF_FFFFu32 << sp) == x && (x
            | !(0xFFFF_FFFFu32 << s)) < 0xFFFF_FFFFu32 && y == (x | !(0xFFFF_FFFFu32 << s)) + 1)
            ==> ((x | !(0xFFFF_FFFFu32 << sp)) == (y | !(0xFFFF_FFFFu32 << s)))) by (bit_vector)
            requires
                s < 32,
                sp == s + 1,
                sp < 32,
        ;
    }
}

/// Blocks in strict canonical order that do not contain one another are
/// disjoint: the first ends strictly before the second begins.
proof fn lemma_sorted_disjoint(a: Net, b: Net)
    requires
        a.wf(),
        b.wf(),
        a.key_lt(b),
        !a.spec_contains(b),
    ensures
        a.spec_broadcast() < b.spec_network(),
{
    lemma_block_bounds(a.0, a.1);
    lemma_block_bounds(b.0, b.1);
    if a.spec_network() == b.spec_network() {
        // Same start and a shorter prefix: the first block would cover the
        // second whole, contradicting the containment assumption.
        lemma_prefix_monotone(a.spec_network(), a.1, b.1);
        lemma_block_bounds(a.0, b.1);
        assert((a.0 & mask_of(a.1)) | !mask_of(b.1) == (b.0 & mask_of(b.1)) | !mask_of(b.1));
        lemma_block_bounds(b.0, b.1);
        assert(false);
    } else {
        if a.spec_broadcast() >= b.spec_network() {
            if a.1 <= b.1 {
                lemma_nesting(a.0, a.1, b.0, b.1);
                assert(false);
            } else {
                lemma_nesting(b.0, b.1, a.0, a.1);
                assert(false);
            }
        }
    }
}

impl Net {
    /// A fresh host route on address zero.
    pub fn new() -> (r: Net)
        ensures
            r == (Net(0u32, 32u8)),
    {
        Net(0, 32)
    }

    /// The display name of the type.
    pub fn name() -> (r: String)
        ensures
            r@ == "Network"@,
    {
        "Network".to_owned()
    }

    /// The raw address.
    pub fn address(&self) -> (r: u32)
        ensures
            r == self.0,
    {
        self.0
    }

    /// The prefix length.
    pub fn subnet(&self) -> (r: u8)
        ensures
            r == self.1,
    {
        self.1
    }

    /// Replace the raw address.
    pub fn set_address(&mut self, addr: u32)
        ensures
            *final(self) == (Net(addr, old(self).1)),
    {
        self.0 = addr;
    }

    /// Replace the prefix length, clamping it to the address width.
    pub fn set_subnet(&mut self, subnet: u8)
        ensures
            *final(self) == (Net(old(self).0, if subnet <= 32 { subnet } else { 32u8 })),
            final(self).wf(),
    {
        self.1 = if subnet <= 32 {
            subnet
        } else {
            32
        };
    }

    /// The network mask: the high `prefix` bits set, all-zero for a
    /// prefix of zero.
    pub fn netmask(&self) -> (r: u32)
        requires
            self.wf(),
        ensures
            r == mask_of(self.1),
    {
        if self.1 == 0 {
            0
        } else {
            0xFFFF_FFFFu32 << ((32 - self.1) as u32)
        }
    }

    /// The complement of the network mask: the block size minus one.
    pub fn wildcard(&self) -> (r: u32)
        requires
            self.wf(),
        ensures
            r == !mask_of(self.1),
    {
        !self.netmask()
    }

    /// The lowest address of the block.
    pub fn network(&self) -> (r: u32)
        requires
            self.wf(),
        ensures
            r == self.spec_network(),
    {
        self.0 & self.netmask()
    }

    /// The highest address of the block.
    pub fn broadcast(&self) -> (r: u32)
        requires
            self.wf(),
        ensures
            r == self.spec_broadcast(),
    {
        self.0 | self.wildcard()
    }

    /// Whether this block covers every address of the other.
    pub fn contains(&self, other: &Net) -> (r: bool)
        requires
            self.wf(),
            other.wf(),
        ensures
            r == self.spec_contains(*other),
    {
        self.network() <= other.network() && self.broadcast() >= other.broadcast()
    }

    /// Whether every address of this block lies inside the other.
    pub fn contained(&self, other: &Net) -> (r: bool)
        requires
            self.wf(),
            other.wf(),
        ensures
            r == other.spec_contains(*self),
    {
        self.network() >= other.network() && self.broadcast() <= other.broadcast()
    }

    /// The number of bytes in the fixed-width encoding.
    pub fn size_of() -> (r: usize)
        ensures
            r == 5,
    {
        5
    }

    /// Field-wise absolute difference.
    pub fn abs_diff(&self, other: &Self) -> (r: Net)
        ensures
            r.0 == if self.0 >= other.0 {
                self.0 - other.0
            } else {
                other.0 - self.0
            },
            r.1 == if self.1 >= other.1 {
                self.1 - other.1
            } else {
                other.1 - self.1
            },
    {
        let a = if self.0 >= other.0 {
            self.0 - other.0
        } else {
            other.0 - self.0
        };
        let p = if self.1 >= other.1 {
            self.1 - other.1
        } else {
            other.1 - self.1
        };
        Net(a, p)
    }

    /// Compare by the raw pair `(address, prefix)`.
    pub fn cmp(&self, other: &Self) -> (r: core::cmp::Ordering)
        ensures
            r == core::cmp::Ordering::Less <==> self.raw_lt(*other),
            r == core::cmp::Ordering::Equal <==> *self == *other,
            r == core::cmp::Ordering::Greater <==> other.raw_lt(*self),
    {
        if self.0 < other.0 {
            core::cmp::Ordering::Less
        } else if self.0 > other.0 {
            core::cmp::Ordering::Greater
        } else if self.1 < other.1 {
            core::cmp::Ordering::Less
        } else if self.1 > other.1 {
            core::cmp::Ordering::Greater
        } else {
            core::cmp::Ordering::Equal
        }
    }
}

/// An ordered collection of IPv4 blocks.
#[derive(Debug, Clone, PartialEq, Eq)]
pub struct NetSet(pub Vec<Net>);

impl View for NetSet {
    type V = Seq<Net>;

    open spec fn view(&self) -> Seq<Net> {
        self.0@
    }
}

/// Every block of the sequence is well formed.
pub open spec fn all_wf(s: Seq<Net>) -> bool {
    forall|i: int| 0 <= i < s.len() ==> (#[trigger] s[i]).wf()
}

/// Non-strict pairwise order by the canonical key `(network, prefix)`.
pub open spec fn sorted_key_seq(s: Seq<Net>) -> bool {
    forall|a: int, b: int| 0 <= a < b < s.len() ==> #[trigger] s[a].key_le(s[b])
}

/// Non-strict pairwise order by the raw pair `(address, prefix)`.
pub open spec fn sorted_raw_seq(s: Seq<Net>) -> bool {
    forall|a: int, b: int| 0 <= a < b < s.len() ==> #[trigger] s[a].raw_le(s[b])
}

/// A consecutive pair that the aggregation pass leaves alone: strictly
/// ordered, not nested, and not two mergeable sibling halves.
pub open spec fn settled(s: Seq<Net>, j: int) -> bool {
    &&& s[j].key_lt(s[j + 1])
    &&& !s[j].spec_contains(s[j + 1])
    &&& !s[j].spec_mergeable(s[j + 1])
}

/// All consecutive pairs below `bound` are settled.
pub open spec fn settled_upto(s: Seq<Net>, bound: int) -> bool {
    forall|j: int| 0 <= j < bound && j + 1 < s.len() ==> #[trigger] settled(s, j)
}

/// The shape the aggregation pass establishes: strictly sorted by
/// `(network, prefix)`, no block contained in its neighbour, no two
/// adjacent sibling halves left unmerged.
pub open spec fn optimized(s: Seq<Net>) -> bool {
    settled_upto(s, s.len() - 1)
}

/// The block `b` lies within some block of `to`.
pub open spec fn contained_in_some(b: Net, to: Seq<Net>) -> bool {
    exists|j: int| 0 <= j < to.len() && (#[trigger] to[j]).spec_contains(b)
}

/// Every block of `from` lies within some block of `to`.
pub open spec fn covers_all(from: Seq<Net>, to: Seq<Net>) -> bool {
    forall|k: int| 0 <= k < from.len() ==> contained_in_some(#[trigger] from[k], to)
}

/// The address `x` lies inside some block of the sequence.
pub open spec fn covered(s: Seq<Net>, x: u32) -> bool {
    exists|i: int| 0 <= i < s.len() && (#[trigger] s[i]).spec_covers(x)
}

/// Every address covered by `s` is covered by `within`.
pub open spec fn coverage_within(s: Seq<Net>, within: Seq<Net>) -> bool {
    forall|x: u32| covered(s, x) ==> covered(within, x)
}

/// The two sequences cover exactly the same addresses.
pub open spec fn same_coverage(s1: Seq<Net>, s2: Seq<Net>) -> bool {
    forall|x: u32| covered(s1, x) == covered(s2, x)
}

/// Consecutive duplicates removed, keeping the first of each run.
pub open spec fn dedup_seq(s: Seq<Net>) -> Seq<Net>
    decreases s.len(),
{
    if s.len() <= 1 {
        s
    } else if s[s.len() - 1] == s[s.len() - 2] {
        dedup_seq(s.drop_last())
    } else {
        dedup_seq(s.drop_last()).push(s.last())
    }
}

/// Deduplication keeps the last element of a non-empty sequence.
proof fn lemma_dedup_last(s: Seq<Net>)
    requires
        s.len() > 0,
    ensures
        dedup_seq(s).len() > 0,
        dedup_seq(s).last() == s.last(),
    decreases s.len(),
{
    if s.len() > 1 && s[s.len() - 1] == s[s.len() - 2] {
        lemma_dedup_last(s.drop_last());
    }
}

/// The order chosen by the sorting pass: canonical key or raw pair.
spec fn net_lt(by_key: bool, a: Net, b: Net) -> bool {
    if by_key {
        a.key_lt(b)
    } else {
        a.raw_lt(b)
    }
}

/// Non-strict form of the sorting order.
spec fn net_le(by_key: bool, a: Net, b: Net) -> bool {
    if by_key {
        a.key_le(b)
    } else {
        a.raw_le(b)
    }
}

/// Compare two blocks in the chosen order.
fn net_lt_exec(by_key: bool, a: &Net, b: &Net) -> (r: bool)
    requires
        a.wf(),
        b.wf(),
    ensures
        r == net_lt(by_key, *a, *b),
{
    if by_key {
        let na = a.network();
        let nb = b.network();
        na < nb || (na == nb && a.1 < b.1)
    } else {
        a.0 < b.0 || (a.0 == b.0 && a.1 < b.1)
    }
}

/// Swapping two positions of a sequence keeps its multiset of elements.
proof fn lemma_swap_multiset(s: Seq<Net>, i: int, j: int)
    requires
        0 <= i < j < s.len(),
    ensures
        s.update(i, s[j]).update(j, s[i]).to_multiset() == s.to_multiset(),
{
    broadcast use vstd::seq_lib::group_to_multiset_ensures;
    broadcast use vstd::seq_lib::to_multiset_update;
    broadcast use vstd::multiset::group_multiset_axioms;

    let s1 = s.update(i, s[j]);
    let s2 = s1.update(j, s[i]);
    assert(s1[j] == s[j]);
    assert(s1.to_multiset() =~= s.to_multiset().insert(s[j]).remove(s[i]));
    assert(s2.to_multiset() =~= s1.to_multiset().insert(s[i]).remove(s1[j]));
    assert(s.to_multiset().contains(s[i]));
    assert(s2.to_multiset() =~= s.to_multiset());
}

/// Sort a vector of blocks in place by the chosen order.
fn insertion_sort(v: &mut Vec<Net>, by_key: bool)
    requires
        all_wf(old(v)@),
    ensures
        all_wf(final(v)@),
        final(v)@.len() == old(v)@.len(),
        final(v)@.to_multiset() == old(v)@.to_multiset(),
        by_key ==> sorted_key_seq(final(v)@),
        !by_key ==> sorted_raw_seq(final(v)@),
{
    let mut j: usize = 1;
    while j < v.len()
        invariant
            all_wf(v@),
            v@.len() == old(v)@.len(),
            v@.to_multiset() == old(v)@.to_multiset(),
            1 <= j,
            forall|a: int, b: int| 0 <= a < b < j ==> #[trigger] net_le(by_key, v@[a], v@[b]),
        decreases v@.len() - j,
    {
        let mut k: usize = j;
        while k > 0 && net_lt_exec(by_key, &v[k], &v[k - 1])
            invariant
                all_wf(v@),
                v@.len() == old(v)@.len(),
                v@.to_multiset() == old(v)@.to_multiset(),
                0 <= k <= j < v@.len(),
                forall|a: int, b: int|
                    0 <= a < b <= j && a != k && b != k ==> #[trigger] net_le(
                        by_key,
                        v@[a],
                        v@[b],
                    ),
                forall|b: int| k < b <= j ==> #[trigger] net_le(by_key, v@[k as int], v@[b]),
            decreases k,
        {
            let ghost snap = v@;
            let x = v[k - 1];
            let y = v[k];
            v.set(k - 1, y);
            v.set(k, x);
            proof {
                lemma_swap_multiset(snap, k - 1, k as int);
            }
            k = k - 1;
        }
        proof {
            assert forall|a: int, b: int| 0 <= a < b < j + 1 implies #[trigger] net_le(
                by_key,
                v@[a],
                v@[b],
            ) by {
                if b == k {
                    if a < k - 1 {
                        assert(net_le(by_key, v@[a], v@[k - 1]));
                        assert(net_le(by_key, v@[k - 1], v@[k as int]));
                    } else {
                        assert(net_le(by_key, v@[k - 1], v@[k as int]));
                    }
                } else if a == k {
                    assert(net_le(by_key, v@[k as int], v@[b]));
                } else {
                    assert(net_le(by_key, v@[a], v@[b]));
                }
            }
        }
        j = j + 1;
    }
    proof {
        if v@.len() > 1 {
            if by_key {
                assert forall|a: int, b: int| 0 <= a < b < v@.len() implies #[trigger] v@[a].key_le(
                    v@[b],
                ) by {
                    assert(net_le(by_key, v@[a], v@[b]));
                }
            } else {
                assert forall|a: int, b: int| 0 <= a < b < v@.len() implies #[trigger] v@[a].raw_le(
                    v@[b],
                ) by {
                    assert(net_le(by_key, v@[a], v@[b]));
                }
            }
        }
    }
}

impl NetSet {
    /// An empty block set.
    pub fn new() -> (r: NetSet)
        ensures
            r@ == Seq::<Net>::empty(),
    {
        NetSet(Vec::new())
    }

    /// An empty block set with room reserved.
    pub fn with_capacity(capacity: usize) -> (r: NetSet)
        ensures
            r@ == Seq::<Net>::empty(),
    {
        NetSet(Vec::with_capacity(capacity))
    }

    /// The number of blocks held.
    pub fn len(&self) -> (r: usize)
        ensures
            r == self@.len(),
    {
        self.0.len()
    }

    /// Whether the set holds no blocks.
    pub fn is_empty(&self) -> (r: bool)
        ensures
            r == (self@.len() == 0),
    {
        self.0.len() == 0
    }

    /// Append one block at the end.
    pub fn push(&mut self, item: Net)
        ensures
            final(self)@ == old(self)@.push(item),
    {
        self.0.push(item);
    }

    /// Remove and return the last block, if any.
    pub fn pop(&mut self) -> (r: Option<Net>)
        ensures
            old(self)@.len() == 0 ==> r is None && final(self)@ == old(self)@,
            old(self)@.len() > 0 ==> r == Some(old(self)@.last()) && final(self)@ == old(
                self,
            )@.drop_last(),
    {
        self.0.pop()
    }

    /// Remove the block at `index`, shifting the tail left.
    pub fn remove(&mut self, index: usize) -> (r: Net)
        requires
            index < old(self)@.len(),
        ensures
            r == old(self)@[index as int],
            final(self)@ == old(self)@.remove(index as int),
    {
        self.0.remove(index)
    }

    /// Remove the block at `index` by moving the last block into its place.
    pub fn swap_remove(&mut self, index: usize) -> (r: Net)
        requires
            index < old(self)@.len(),
        ensures
            r == old(self)@[index as int],
            final(self)@ == old(self)@.update(index as int, old(self)@.last()).drop_last(),
    {
        self.0.swap_remove(index)
    }

    /// Exchange the blocks at two positions.
    pub fn swap(&mut self, index1: usize, index2: usize)
        requires
            index1 < old(self)@.len(),
            index2 < old(self)@.len(),
        ensures
            final(self)@ == old(self)@.update(index1 as int, old(self)@[index2 as int]).update(
                index2 as int,
                old(self)@[index1 as int],
            ),
    {
        let a = self.0[index1];
        let b = self.0[index2];
        self.0.set(index1, b);
        self.0.set(index2, a);
    }

    /// Drop every block.
    pub fn clear(&mut self)
        ensures
            final(self)@ == Seq::<Net>::empty(),
    {
        self.0.clear();
    }

    /// Whether the set holds this exact block.
    pub fn contains(&self, item: Net) -> (r: bool)
        ensures
            r == self@.contains(item),
    {
        let mut i: usize = 0;
        while i < self.0.len()
            invariant
                i <= self@.len(),
                forall|j: int| 0 <= j < i ==> self@[j] != item,
            decreases self@.len() - i,
        {
            if self.0[i] == item {
                return true;
            }
            i = i + 1;
        }
        false
    }

    /// Move every block of `other` to the end of this set.
    pub fn append(&mut self, other: &mut NetSet)
        ensures
            final(self)@ == old(self)@ + old(other)@,
            final(other)@ == Seq::<Net>::empty(),
    {
        self.0.append(&mut other.0);
    }

    /// Release unused backing storage.
    ///
    /// Relies on `Vec::shrink_to_fit`: it only changes capacity, never the
    /// contents.
    #[verifier::external_body]
    pub fn shrink_to_fit(&mut self)
        ensures
            final(self)@ == old(self)@,
    {
        self.0.shrink_to_fit();
    }

    /// Sort by the raw pair `(address, prefix)`.
    ///
    /// Blocks that compare equal in this order are identical, so the sort
    /// is stable as required.
    pub fn sort(&mut self)
        requires
            all_wf(old(self)@),
        ensures
            all_wf(final(self)@),
            final(self)@.to_multiset() == old(self)@.to_multiset(),
            sorted_raw_seq(final(self)@),
    {
        insertion_sort(&mut self.0, false);
    }

    /// Remove consecutive exact duplicates, keeping the first of each run.
    pub fn dedup(&mut self)
        ensures
            final(self)@ == dedup_seq(old(self)@),
    {
        let mut out: Vec<Net> = Vec::new();
        let mut i: usize = 0;
        while i < self.0.len()
            invariant
                i <= self.0@.len(),
                out@ == dedup_seq(self.0@.take(i as int)),
                self.0@ == old(self)@,
            decreases self.0@.len() - i,
        {
            proof {
                assert(self.0@.take(i + 1).drop_last() =~= self.0@.take(i as int));
                if i > 0 {
                    lemma_dedup_last(self.0@.take(i as int));
                }
            }
            let x = self.0[i];
            if out.len() == 0 {
                out.push(x);
            } else {
                let last = out[out.len() - 1];
                if last != x {
                    out.push(x);
                }
            }
            i = i + 1;
        }
        proof {
            assert(self.0@.take(self.0@.len() as int) =~= self.0@);
        }
        self.0 = out;
    }

    /// Copy the blocks `[0, index)` and `[index, len)` into two new sets.
    pub fn split_at(&self, index: usize) -> (r: (NetSet, NetSet))
        requires
            index <= self@.len(),
        ensures
            r.0@ == self@.subrange(0, index as int),
            r.1@ == self@.subrange(index as int, self@.len() as int),
    {
        let mut head: Vec<Net> = Vec::new();
        let mut tail: Vec<Net> = Vec::new();
        let mut i: usize = 0;
        while i < index
            invariant
                i <= index <= self@.len(),
                head@ == self@.subrange(0, i as int),
                tail@.len() == 0,
            decreases index - i,
        {
            head.push(self.0[i]);
            proof {
                assert(head@ =~= self@.subrange(0, i + 1));
            }
            i = i + 1;
        }
        while i < self.0.len()
            invariant
                index <= i <= self@.len(),
                head@ == self@.subrange(0, index as int),
                tail@ == self@.subrange(index as int, i as int),
            decreases self@.len() - i,
        {
            tail.push(self.0[i]);
            proof {
                assert(tail@ =~= self@.subrange(index as int, i + 1));
            }
            i = i + 1;
        }
        (NetSet(head), NetSet(tail))
    }

    /// As `split_at`, reachable through a mutable handle.
    pub fn split_at_mut(&mut self, index: usize) -> (r: (NetSet, NetSet))
        requires
            index <= old(self)@.len(),
        ensures
            final(self)@ == old(self)@,
            r.0@ == old(self)@.subrange(0, index as int),
            r.1@ == old(self)@.subrange(index as int, old(self)@.len() as int),
    {
        let r = self.split_at(index);
        r
    }
}

/// Blocks with the same canonical key cover the same address range.
proof fn lemma_key_eq_same_range(a: Net, b: Net)
    requires
        a.wf(),
        b.wf(),
        a.key_eq(b),
    ensures
        a.spec_network() == b.spec_network(),
        a.spec_broadcast() == b.spec_broadcast(),
{
    lemma_block_bounds(a.0, a.1);
    lemma_block_bounds(b.0, b.1);
    assert((a.0 & mask_of(a.1)) | !mask_of(a.1) == (b.0 & mask_of(b.1)) | !mask_of(b.1));
}

/// A settled prefix is strictly sorted pairwise, not just consecutively.
proof fn lemma_strict_prefix(s: Seq<Net>, bound: int)
    requires
        settled_upto(s, bound),
    ensures
        forall|a: int, b: int|
            0 <= a < b <= bound && b < s.len() ==> #[trigger] s[a].key_lt(s[b]),
    decreases bound,
{
    if bound > 0 {
        lemma_strict_prefix(s, bound - 1);
        assert forall|a: int, b: int|
            0 <= a < b <= bound && b < s.len() implies #[trigger] s[a].key_lt(s[b]) by {
            if b == bound {
                assert(settled(s, b - 1));
                if a < b - 1 {
                    assert(s[a].key_lt(s[b - 1]));
                }
            }
        }
    }
}

/// Every block of `s` is accounted for: either one of the blocks of
/// `from`, kept with its raw bits, or a freshly built parent, whose raw
/// address equals its network address.
pub open spec fn entries_traceable(from: Seq<Net>, s: Seq<Net>) -> bool {
    forall|j: int|
        0 <= j < s.len() ==> from.contains(#[trigger] s[j]) || s[j].0 == s[j].spec_network()
}

/// The invariant carried by the aggregation scan: all blocks well formed,
/// the vector sorted by canonical key, the prefix below `bound` settled,
/// every original block inside some current block, no address covered
/// that the original did not cover, and every current block traceable to
/// the original ones.
pub open spec fn scan_inv(orig: Seq<Net>, s: Seq<Net>, bound: int) -> bool {
    &&& all_wf(s)
    &&& sorted_key_seq(s)
    &&& settled_upto(s, bound)
    &&& covers_all(orig, s)
    &&& coverage_within(s, orig)
    &&& entries_traceable(orig, s)
}

/// Removing a block that its left neighbour contains keeps the scan
/// invariant, with the settled bound stepped back by one.
proof fn lemma_remove_step(orig: Seq<Net>, s: Seq<Net>, i: int)
    requires
        scan_inv(orig, s, i),
        0 <= i,
        i + 1 < s.len(),
        s[i].spec_contains(s[i + 1]),
    ensures
        scan_inv(orig, s.remove(i + 1), if i > 0 {
            i - 1
        } else {
            0
        }),
{
    let s2 = s.remove(i + 1);
    assert forall|j: int| 0 <= j < s2.len() implies #[trigger] s2[j] == (if j <= i {
        s[j]
    } else {
        s[j + 1]
    }) by {}
    assert forall|a: int, b: int| 0 <= a < b < s2.len() implies #[trigger] s2[a].key_le(
        s2[b],
    ) by {
        let a0 = if a <= i { a } else { a + 1 };
        let b0 = if b <= i { b } else { b + 1 };
        assert(s[a0].key_le(s[b0]));
    }
    assert forall|j: int| 0 <= j < (if i > 0 { i - 1 } else { 0 }) && j + 1 < s2.len()
        implies #[trigger] settled(s2, j) by {
        assert(settled(s, j));
    }
    assert forall|k: int| 0 <= k < orig.len() implies contained_in_some(
        #[trigger] orig[k],
        s2,
    ) by {
        assert(contained_in_some(orig[k], s));
        let j = choose|j: int| 0 <= j < s.len() && (#[trigger] s[j]).spec_contains(orig[k]);
        if j == i + 1 {
            assert((s2[i]).spec_contains(orig[k]));
        } else if j < i + 1 {
            assert((s2[j]).spec_contains(orig[k]));
        } else {
            assert((s2[j - 1]).spec_contains(orig[k]));
        }
    }
    assert forall|x: u32| covered(s2, x) implies covered(orig, x) by {
        let j = choose|j: int| 0 <= j < s2.len() && s2[j].spec_covers(x);
        if j <= i {
            assert(s[j].spec_covers(x));
        } else {
            assert(s[j + 1].spec_covers(x));
        }
        assert(covered(s, x));
    }
    assert forall|j: int| 0 <= j < s2.len() implies (#[trigger] s2[j]).wf() by {}
    assert forall|j: int|
        0 <= j < s2.len() implies orig.contains(#[trigger] s2[j]) || s2[j].0
        == s2[j].spec_network() by {
        if j <= i {
            assert(orig.contains(s[j]) || s[j].0 == s[j].spec_network());
        } else {
            assert(orig.contains(s[j + 1]) || s[j + 1].0 == s[j + 1].spec_network());
        }
    }
    assert(all_wf(s2));
    assert(sorted_key_seq(s2));
    assert(settled_upto(s2, if i > 0 { i - 1 } else { 0 }));
    assert(covers_all(orig, s2));
    assert(coverage_within(s2, orig));
    assert(entries_traceable(orig, s2));
}

/// Merging two abutting sibling halves into their parent keeps the scan
/// invariant, with the settled bound stepped back by one.
proof fn lemma_merge_step(orig: Seq<Net>, s: Seq<Net>, i: int)
    requires
        scan_inv(orig, s, i),
        0 <= i,
        i + 1 < s.len(),
        !s[i].spec_contains(s[i + 1]),
        s[i].spec_mergeable(s[i + 1]),
    ensures
        scan_inv(
            orig,
            s.update(i, Net(s[i].spec_network(), (s[i].1 - 1) as u8)).remove(i + 1),
            if i > 0 {
                i - 1
            } else {
                0
            },
        ),
{
    let p = s[i].1;
    let lo1 = s[i].spec_network();
    let hi1 = s[i].spec_broadcast();
    let lo2 = s[i + 1].spec_network();
    let hi2 = s[i + 1].spec_broadcast();
    let parent = Net(lo1, (p - 1) as u8);
    let s2 = s.update(i, parent).remove(i + 1);
    lemma_block_bounds(s[i].0, p);
    lemma_block_bounds(s[i + 1].0, s[i + 1].1);
    lemma_merge(lo1, lo2, p);
    assert(parent.spec_network() == lo1);
    assert(parent.spec_broadcast() == hi2);
    assert forall|j: int| 0 <= j < s2.len() implies #[trigger] s2[j] == (if j == i {
        parent
    } else if j < i {
        s[j]
    } else {
        s[j + 1]
    }) by {}
    lemma_strict_prefix(s, i);
    assert forall|a: int, b: int| 0 <= a < b < s2.len() implies #[trigger] s2[a].key_le(
        s2[b],
    ) by {
        if a == i {
            // the parent keeps the same network address, every later block
            // starts beyond the absorbed sibling
            assert(s[i + 1].key_le(s[b + 1]));
            assert(hi1 < lo2);
        } else if b == i {
            // blocks before the parent start strictly below its network
            assert(s[a].key_lt(s[i]));
        } else {
            let a0 = if a < i { a } else { a + 1 };
            let b0 = if b < i { b } else { b + 1 };
            assert(s[a0].key_le(s[b0]));
        }
    }
    assert forall|j: int| 0 <= j < (if i > 0 { i - 1 } else { 0 }) && j + 1 < s2.len()
        implies #[trigger] settled(s2, j) by {
        assert(settled(s, j));
    }
    assert(parent.spec_contains(s[i]) && parent.spec_contains(s[i + 1]));
    assert forall|k: int| 0 <= k < orig.len() implies contained_in_some(
        #[trigger] orig[k],
        s2,
    ) by {
        assert(contained_in_some(orig[k], s));
        let j = choose|j: int| 0 <= j < s.len() && (#[trigger] s[j]).spec_contains(orig[k]);
        if j == i || j == i + 1 {
            assert((s2[i]).spec_contains(orig[k]));
        } else if j < i {
            assert((s2[j]).spec_contains(orig[k]));
        } else {
            assert((s2[j - 1]).spec_contains(orig[k]));
        }
    }
    assert forall|x: u32| covered(s2, x) implies covered(orig, x) by {
        let j = choose|j: int| 0 <= j < s2.len() && s2[j].spec_covers(x);
        if j == i {
            // an address of the parent lies in one of the two halves
            if x <= hi1 {
                assert(s[i].spec_covers(x));
            } else {
                assert(s[i + 1].spec_covers(x));
            }
        } else if j < i {
            assert(s[j].spec_covers(x));
        } else {
            assert(s[j + 1].spec_covers(x));
        }
        assert(covered(s, x));
    }
    assert forall|j: int| 0 <= j < s2.len() implies (#[trigger] s2[j]).wf() by {}
    assert forall|j: int|
        0 <= j < s2.len() implies orig.contains(#[trigger] s2[j]) || s2[j].0
        == s2[j].spec_network() by {
        if j == i {
            // the parent carries its own network address
            assert(s2[j].0 == s2[j].spec_network());
        } else if j < i {
            assert(orig.contains(s[j]) || s[j].0 == s[j].spec_network());
        } else {
            assert(orig.contains(s[j + 1]) || s[j + 1].0 == s[j + 1].spec_network());
        }
    }
    assert(all_wf(s2));
    assert(sorted_key_seq(s2));
    assert(settled_upto(s2, if i > 0 { i - 1 } else { 0 }));
    assert(covers_all(orig, s2));
    assert(coverage_within(s2, orig));
    assert(entries_traceable(orig, s2));
}

/// Mutual coverage: if every original block sits inside a result block and
/// the result covers nothing new, the two cover the same addresses.
proof fn lemma_same_coverage(orig: Seq<Net>, s: Seq<Net>)
    requires
        covers_all(orig, s),
        coverage_within(s, orig),
    ensures
        same_coverage(s, orig),
{
    assert forall|x: u32| covered(orig, x) implies covered(s, x) by {
        let k = choose|k: int| 0 <= k < orig.len() && (#[trigger] orig[k]).spec_covers(x);
        assert(contained_in_some(orig[k], s));
        let j = choose|j: int| 0 <= j < s.len() && (#[trigger] s[j]).spec_contains(orig[k]);
        assert((s[j]).spec_covers(x));
    }
}

/// A sequence in strict canonical order equals any canonically sorted
/// rearrangement of itself.
proof fn lemma_sorted_strict_unique(x: Seq<Net>, y: Seq<Net>)
    requires
        forall|a: int, b: int| 0 <= a < b < x.len() ==> #[trigger] x[a].key_lt(x[b]),
        sorted_key_seq(y),
        x.to_multiset() == y.to_multiset(),
    ensures
        x =~= y,
    decreases x.len(),
{
    broadcast use vstd::seq_lib::group_to_multiset_ensures;

    x.to_multiset_ensures();
    y.to_multiset_ensures();
    if x.len() == 0 {
        assert(y.to_multiset().len() == 0);
        assert(y.len() == 0);
    } else {
        assert(x.to_multiset().len() == y.to_multiset().len());
        assert(y.len() == x.len());
        assert(x.contains(x[0]));
        assert(y.to_multiset().count(x[0]) > 0);
        assert(y.contains(x[0]));
        let n = choose|n: int| 0 <= n < y.len() && y[n] == x[0];
        assert(y.contains(y[0]));
        assert(x.to_multiset().count(y[0]) > 0);
        assert(x.contains(y[0]));
        let m = choose|m: int| 0 <= m < x.len() && x[m] == y[0];
        if n > 0 {
            assert(y[0].key_le(y[n]));
        }
        if m > 0 {
            assert(x[0].key_lt(x[m]));
        }
        assert(x[0] == y[0]);
        let xd = x.drop_first();
        let yd = y.drop_first();
        assert(x.remove(0) =~= xd);
        assert(y.remove(0) =~= yd);
        assert(xd.to_multiset() =~= x.to_multiset().remove(x[0]));
        assert(yd.to_multiset() =~= y.to_multiset().remove(y[0]));
        assert forall|a: int, b: int| 0 <= a < b < xd.len() implies #[trigger] xd[a].key_lt(
            xd[b],
        ) by {
            assert(x[a + 1].key_lt(x[b + 1]));
        }
        assert forall|a: int, b: int| 0 <= a < b < yd.len() implies #[trigger] yd[a].key_le(
            yd[b],
        ) by {
            assert(y[a + 1].key_le(y[b + 1]));
        }
        lemma_sorted_strict_unique(xd, yd);
        assert forall|j: int| 0 <= j < x.len() implies x[j] == y[j] by {
            if j > 0 {
                assert(xd[j - 1] == yd[j - 1]);
            }
        }
    }
}

/// Check whether two blocks are abutting sibling halves of one parent.
fn mergeable_exec(a: &Net, b: &Net) -> (r: bool)
    requires
        a.wf(),
        b.wf(),
    ensures
        r == a.spec_mergeable(*b),
{
    if a.1 != b.1 || a.1 == 0 {
        return false;
    }
    let hi1 = a.broadcast();
    let lo2 = b.network();
    if !(hi1 < 0xFFFF_FFFFu32 && lo2 == hi1 + 1) {
        return false;
    }
    let lo1 = a.network();
    let parent = Net(lo1, a.1 - 1);
    parent.network() == lo1
}

/// Copy a vector of blocks.
fn copy_nets(v: &Vec<Net>) -> (r: Vec<Net>)
    ensures
        r@ == v@,
{
    let mut out: Vec<Net> = Vec::new();
    let mut i: usize = 0;
    while i < v.len()
        invariant
            i <= v@.len(),
            out@ == v@.take(i as int),
        decreases v@.len() - i,
    {
        out.push(v[i]);
        proof {
            assert(out@ =~= v@.take(i + 1));
        }
        i = i + 1;
    }
    proof {
        assert(v@.take(v@.len() as int) =~= v@);
    }
    out
}

/// One step of the aggregation scan: examine the neighbouring blocks at
/// `i` and `i + 1` by their canonical form, remove a duplicate or a
/// contained block, merge two sibling halves, or advance the cursor.
/// After a mutation the cursor steps back so a freshly formed parent can
/// merge again with its left neighbour.
#[verifier::rlimit(60)]
fn scan_step(v: &mut Vec<Net>, i: usize, Ghost(orig): Ghost<Seq<Net>>) -> (r: usize)
    requires
        scan_inv(orig, old(v)@, i as int),
        i + 1 < old(v)@.len(),
        optimized(orig) ==> old(v)@ == orig,
    ensures
        scan_inv(orig, final(v)@, r as int),
        r < final(v)@.len(),
        optimized(orig) ==> final(v)@ == old(v)@ && r == i + 1,
        final(v)@.len() < old(v)@.len() || (final(v)@.len() == old(v)@.len() && r == i + 1),
{
    proof {
        assert(v.len() == v@.len());
    }
    let a = v[i];
    let b = v[i + 1];
    proof {
        lemma_block_bounds(a.0, a.1);
        lemma_block_bounds(b.0, b.1);
    }
    let n1 = Net(a.network(), a.subnet());
    let n2 = Net(b.network(), b.subnet());
    let mut next = i;
    let mut acted = false;
    if n1 == n2 {
        // exact duplicate: the later block adds nothing
        let ghost s0 = v@;
        proof {
            lemma_key_eq_same_range(a, b);
            if optimized(orig) {
                assert(settled(orig, i as int));
                assert(false);
            }
            lemma_remove_step(orig, s0, i as int);
        }
        let _ = v.remove(i + 1);
        acted = true;
    } else if net_lt_exec(true, &n2, &n1) {
        // out of order cannot happen: the vector was sorted before the
        // scan started and every step keeps it sorted
        proof {
            assert(v@[i as int].key_le(v@[i + 1]));
            assert(false);
        }
        v.set(i, b);
        v.set(i + 1, a);
        acted = true;
    } else if n1.contains(&n2) {
        // the earlier block already covers the later one
        let ghost s0 = v@;
        proof {
            if optimized(orig) {
                assert(settled(orig, i as int));
                assert(false);
            }
            lemma_remove_step(orig, s0, i as int);
        }
        let _ = v.remove(i + 1);
        acted = true;
    } else if mergeable_exec(&n1, &n2) {
        // two abutting sibling halves collapse into their parent
        let ghost s0 = v@;
        let parent = Net(n1.0, n1.1 - 1);
        proof {
            assert(s0[i as int].spec_mergeable(s0[i + 1]));
            if optimized(orig) {
                assert(settled(orig, i as int));
                assert(false);
            }
            lemma_merge_step(orig, s0, i as int);
            assert(parent == Net(s0[i as int].spec_network(), (s0[i as int].1 - 1) as u8));
        }
        v.set(i, parent);
        let _ = v.remove(i + 1);
        acted = true;
    } else {
        proof {
            assert(v@[i as int].key_le(v@[i + 1]));
            assert(!v@[i as int].key_eq(v@[i + 1]));
            assert(!v@[i as int].spec_contains(v@[i + 1]));
            assert(!v@[i as int].spec_mergeable(v@[i + 1]));
            assert(settled(v@, i as int));
            assert(settled_upto(v@, i + 1));
        }
        next = i + 1;
    }
    if acted && next > 0 {
        next = next - 1;
    }
    next
}

impl NetSet {
    /// Aggregate the set in place into the smallest equivalent collection
    /// of disjoint blocks this adjacency-driven pass can reach, and return
    /// a copy of the result.
    ///
    /// The set is sorted by `(network, prefix)`; then a single scan with
    /// local backtracking removes exact duplicates and contained blocks and
    /// merges abutting sibling halves into their parent.  Afterwards the
    /// set is strictly sorted, pairwise disjoint, covers exactly the
    /// addresses it covered before, and every original block lies inside
    /// exactly one result block.  Running the pass on an already aggregated
    /// set changes nothing.
    #[verifier::rlimit(100)]
    pub fn optimize(&mut self) -> (r: NetSet)
        requires
            all_wf(old(self)@),
        ensures
            all_wf(final(self)@),
            optimized(final(self)@),
            covers_all(old(self)@, final(self)@),
            same_coverage(final(self)@, old(self)@),
            entries_traceable(old(self)@, final(self)@),
            optimized(old(self)@) ==> final(self)@ == old(self)@,
            r@ == final(self)@,
    {
        let ghost orig = self@;
        if self.0.len() == 0 {
            proof {
                lemma_same_coverage(orig, self@);
            }
            return NetSet(copy_nets(&self.0));
        }
        insertion_sort(&mut self.0, true);
        proof {
            broadcast use vstd::seq_lib::group_to_multiset_ensures;

            assert forall|k: int| 0 <= k < orig.len() implies contained_in_some(
                #[trigger] orig[k],
                self.0@,
            ) by {
                assert(orig.contains(orig[k]));
                assert(orig.to_multiset().count(orig[k]) > 0);
                assert(self.0@.to_multiset().count(orig[k]) > 0);
                assert(self.0@.contains(orig[k]));
                let j = choose|j: int| 0 <= j < self.0@.len() && self.0@[j] == orig[k];
                assert((self.0@[j]).spec_contains(orig[k]));
            }
            assert forall|x: u32| covered(self.0@, x) implies covered(orig, x) by {
                let j = choose|j: int| 0 <= j < self.0@.len() && self.0@[j].spec_covers(x);
                assert(orig.to_multiset().count(self.0@[j]) > 0);
                assert(orig.contains(self.0@[j]));
                let k = choose|k: int| 0 <= k < orig.len() && orig[k] == self.0@[j];
                assert(orig[k].spec_covers(x));
            }
            if optimized(orig) {
                lemma_strict_prefix(orig, orig.len() - 1);
                lemma_sorted_strict_unique(orig, self.0@);
            }
            assert forall|j: int| 0 <= j < self.0@.len() implies orig.contains(
                #[trigger] self.0@[j],
            ) || self.0@[j].0 == self.0@[j].spec_network() by {
                assert(self.0@.contains(self.0@[j]));
                assert(self.0@.to_multiset().count(self.0@[j]) > 0);
                assert(orig.to_multiset().count(self.0@[j]) > 0);
                assert(orig.contains(self.0@[j]));
            }
            assert(all_wf(self.0@));
            assert(sorted_key_seq(self.0@));
            assert(settled_upto(self.0@, 0));
            assert(covers_all(orig, self.0@));
            assert(coverage_within(self.0@, orig));
            assert(entries_traceable(orig, self.0@));
        }
        let mut i: usize = 0;
        while i + 1 < self.0.len()
            invariant
                self.0.len() == self.0@.len(),
                i < self.0@.len(),
                scan_inv(orig, self.0@, i as int),
                optimized(orig) ==> self.0@ == orig,
            decreases self.0@.len(), self.0@.len() - i,
        {
            i = scan_step(&mut self.0, i, Ghost(orig));
        }
        proof {
            lemma_same_coverage(orig, self.0@);
        }
        let out = NetSet(copy_nets(&self.0));
        self.shrink_to_fit();
        out
    }
}

/// Strict pairwise canonical order.
pub open spec fn strictly_sorted_key(s: Seq<Net>) -> bool {
    forall|a: int, b: int| 0 <= a < b < s.len() ==> #[trigger] s[a].key_lt(s[b])
}

/// An aggregated set is strictly sorted by `(network, prefix)` and its
/// blocks are pairwise disjoint: no two overlap and neither contains the
/// other.
pub proof fn lemma_optimized_pairwise(s: Seq<Net>)
    requires
        all_wf(s),
        optimized(s),
    ensures
        strictly_sorted_key(s),
        forall|a: int, b: int|
            0 <= a < b < s.len() ==> (#[trigger] s[a]).spec_broadcast() < (
            #[trigger] s[b]).spec_network(),
        forall|a: int, b: int|
            0 <= a < b < s.len() ==> !(#[trigger] s[a]).spec_contains(s[b]) && !(
            #[trigger] s[b]).spec_contains(s[a]),
{
    lemma_strict_prefix(s, s.len() - 1);
    assert forall|a: int, b: int| 0 <= a < b < s.len() implies (#[trigger] s[a]).spec_broadcast()
        < (#[trigger] s[b]).spec_network() by {
        lemma_block_bounds(s[a].0, s[a].1);
        lemma_block_bounds(s[b].0, s[b].1);
        if b == a + 1 {
            assert(settled(s, a));
            lemma_sorted_disjoint(s[a], s[b]);
        } else {
            assert(settled(s, b - 1));
            lemma_sorted_disjoint(s[b - 1], s[b]);
            lemma_block_bounds(s[b - 1].0, s[b - 1].1);
            lemma_chain_disjoint(s, a, b - 1);
        }
    }
    assert forall|a: int, b: int| 0 <= a < b < s.len() implies !(#[trigger] s[a]).spec_contains(
        s[b],
    ) && !(#[trigger] s[b]).spec_contains(s[a]) by {
        lemma_block_bounds(s[a].0, s[a].1);
        lemma_block_bounds(s[b].0, s[b].1);
    }
}

/// In a settled sequence an earlier block ends before a later one begins.
proof fn lemma_chain_disjoint(s: Seq<Net>, a: int, b: int)
    requires
        all_wf(s),
        optimized(s),
        0 <= a <= b < s.len(),
    ensures
        s[a].spec_broadcast() <= s[b].spec_broadcast(),
        s[a].spec_broadcast() >= s[a].spec_network(),
    decreases b - a,
{
    lemma_block_bounds(s[a].0, s[a].1);
    lemma_block_bounds(s[b].0, s[b].1);
    if a < b {
        lemma_chain_disjoint(s, a, b - 1);
        assert(settled(s, b - 1));
        lemma_strict_prefix(s, s.len() - 1);
        lemma_sorted_disjoint(s[b - 1], s[b]);
        lemma_block_bounds(s[b - 1].0, s[b - 1].1);
    }
}

/// In an aggregated set at most one block contains any given block: the
/// blocks are disjoint, so two containers would have to overlap.
pub proof fn lemma_unique_container(s: Seq<Net>, x: Net)
    requires
        all_wf(s),
        optimized(s),
        x.wf(),
    ensures
        forall|j: int, k: int|
            0 <= j < s.len() && 0 <= k < s.len() && (#[trigger] s[j]).spec_contains(x) && (
            #[trigger] s[k]).spec_contains(x) ==> j == k,
{
    lemma_optimized_pairwise(s);
    lemma_block_bounds(x.0, x.1);
    assert forall|j: int, k: int|
        0 <= j < s.len() && 0 <= k < s.len() && (#[trigger] s[j]).spec_contains(x) && (
        #[trigger] s[k]).spec_contains(x) implies j == k by {
        lemma_block_bounds(s[j].0, s[j].1);
        lemma_block_bounds(s[k].0, s[k].1);
    }
}

/// The concatenation of the views of a sequence of block sets.
pub open spec fn cat_sets(cs: Seq<NetSet>) -> Seq<Net>
    decreases cs.len(),
{
    if cs.len() == 0 {
        Seq::empty()
    } else {
        cat_sets(cs.drop_last()) + cs.last()@
    }
}

impl NetSet {
    /// Partition the set into chunks of at most `max` blocks each: full
    /// chunks first, then the non-empty remainder.  Concatenating the
    /// chunks in order reproduces the set exactly.
    pub fn chunks(&self, max: usize) -> (r: Vec<NetSet>)
        requires
            max > 0,
        ensures
            cat_sets(r@) == self@,
            forall|j: int| 0 <= j < r@.len() ==> (#[trigger] r@[j])@.len() <= max,
            forall|j: int| 0 <= j < r@.len() ==> (#[trigger] r@[j])@.len() > 0,
            forall|j: int| 0 <= j < r@.len() - 1 ==> (#[trigger] r@[j])@.len() == max,
    {
        let mut out: Vec<NetSet> = Vec::new();
        let mut rest = self.split_at(0).1;
        proof {
            assert(rest@ =~= self@);
            assert(cat_sets(out@) + rest@ =~= self@);
        }
        while rest.len() > max
            invariant
                max > 0,
                cat_sets(out@) + rest@ =~= self@,
                forall|j: int| 0 <= j < out@.len() ==> (#[trigger] out@[j])@.len() == max,
            decreases rest@.len(),
        {
            let (chunk, remainder) = rest.split_at(max);
            let ghost prev_out = out@;
            let ghost prev_rest = rest@;
            out.push(chunk);
            rest = remainder;
            proof {
                assert(out@.drop_last() =~= prev_out);
                assert(cat_sets(out@) == cat_sets(prev_out) + chunk@);
                assert(chunk@ + rest@ =~= prev_rest);
                assert(cat_sets(out@) + rest@ =~= self@);
            }
        }
        if rest.len() > 0 {
            let ghost prev_out = out@;
            out.push(rest);
            proof {
                assert(out@.drop_last() =~= prev_out);
                assert(cat_sets(out@) + Seq::<Net>::empty() =~= self@);
                assert(cat_sets(out@) =~= self@);
            }
        } else {
            proof {
                assert(rest@ =~= Seq::<Net>::empty());
                assert(cat_sets(out@) =~= self@);
            }
        }
        out
    }
}

impl Port {
    /// The zero port.
    pub fn new() -> (r: Port)
        ensures
            r == (Port(0u16)),
    {
        Port(0)
    }

    /// The display name of the type.
    pub fn name() -> (r: String)
        ensures
            r@ == "Port"@,
    {
        "Port".to_owned()
    }

    /// Render as `:port`.
    pub fn to_string(&self) -> (r: String)
        ensures
            r@ == seq![':'] + dec_digits(self.0 as nat),
    {
        let mut out = String::new();
        push_char(&mut out, ':');
        let digits = u32_to_dec(self.0 as u32);
        out.append(digits.as_str());
        proof {
            assert(out@ =~= seq![':'] + dec_digits(self.0 as nat));
        }
        out
    }

    /// Parse a port number, with or without a leading colon.
    pub fn from_str(s: &str) -> (r: Result<Port, Error>)
        ensures
            (r is Ok) == (spec_parse_port(s@) is Some),
            r is Ok ==> r.unwrap() == spec_parse_port(s@).unwrap(),
            r is Err ==> r.unwrap_err().code == 2,
    {
        let n = s.unicode_len();
        let body: &str = if n > 0 && s.get_char(0) == ':' {
            let t = s.substring_char(1, n);
            proof {
                assert(t@ =~= s@.skip(1));
            }
            t
        } else {
            s
        };
        match parse_dec_capped(body, 0x1_0000) {
            Some(v) if v <= 0xFFFF => Ok(Port(v as u16)),
            _ => Err(format_error()),
        }
    }
}

/// The value of a port numeral: digits after an optional leading colon,
/// at most the largest sixteen-bit value.
pub open spec fn spec_parse_port(s: Seq<char>) -> Option<Port> {
    let body = if s.len() > 0 && s[0] == ':' {
        s.skip(1)
    } else {
        s
    };
    match spec_parse_dec(body, 0x1_0000) {
        Option::None => Option::None,
        Option::Some(v) => if v > 0xFFFF {
            Option::None
        } else {
            Option::Some(Port(v as u16))
        },
    }
}

impl Addr {
    /// The zero address.
    pub fn new() -> (r: Addr)
        ensures
            r == (Addr(0u32)),
    {
        Addr(0)
    }

    /// The display name of the type.
    pub fn name() -> (r: String)
        ensures
            r@ == "Address"@,
    {
        "Address".to_owned()
    }

    /// Render as dotted-decimal text without a prefix.
    pub fn to_string(&self) -> (r: String)
        ensures
            r@ == spec_addr_str(self.0),
    {
        let mut out = u32_to_dec(((self.0 >> 24u32) as u8) as u32);
        push_char(&mut out, '.');
        let b1 = u32_to_dec(((self.0 >> 16u32) as u8) as u32);
        out.append(b1.as_str());
        push_char(&mut out, '.');
        let b2 = u32_to_dec(((self.0 >> 8u32) as u8) as u32);
        out.append(b2.as_str());
        push_char(&mut out, '.');
        let b3 = u32_to_dec((self.0 as u8) as u32);
        out.append(b3.as_str());
        proof {
            assert(out@ =~= spec_addr_str(self.0));
        }
        out
    }

    /// Parse dotted-decimal text of at most four octets.
    pub fn from_str(s: &str) -> (r: Result<Addr, Error>)
        ensures
            (r is Ok) == (spec_parse_addr(s@) is Some),
            r is Ok ==> r.unwrap().0 == spec_parse_addr(s@).unwrap(),
            r is Err ==> r.unwrap_err().code == 2,
    {
        match parse_addr_exec(s) {
            Some(a) => Ok(Addr(a)),
            None => Err(format_error()),
        }
    }

    /// The four big-endian bytes of the address.
    pub fn to_be_bytes(&self) -> (r: [u8; 4])
        ensures
            r@ =~= seq![
                be_byte(self.0, 0),
                be_byte(self.0, 1),
                be_byte(self.0, 2),
                be_byte(self.0, 3),
            ],
    {
        [(self.0 >> 24u32) as u8, (self.0 >> 16u32) as u8, (self.0 >> 8u32) as u8, self.0 as u8]
    }

    /// Recombine four big-endian bytes into an address.
    pub fn from_be_bytes(bytes: [u8; 4]) -> (r: Addr)
        ensures
            r.0 == (bytes@[0] as u32) * 0x100_0000 + (bytes@[1] as u32) * 0x1_0000 + (bytes@[2]
                as u32) * 0x100 + (bytes@[3] as u32),
    {
        Addr(
            (bytes[0] as u32) * 0x100_0000 + (bytes[1] as u32) * 0x1_0000 + (bytes[2] as u32)
                * 0x100 + (bytes[3] as u32),
        )
    }

    /// The four big-endian bytes as a growable vector.
    pub fn to_vec(&self) -> (r: Vec<u8>)
        ensures
            r@ =~= seq![
                be_byte(self.0, 0),
                be_byte(self.0, 1),
                be_byte(self.0, 2),
                be_byte(self.0, 3),
            ],
    {
        let mut out: Vec<u8> = Vec::new();
        out.push((self.0 >> 24u32) as u8);
        out.push((self.0 >> 16u32) as u8);
        out.push((self.0 >> 8u32) as u8);
        out.push(self.0 as u8);
        out
    }

    /// Decode a four-byte vector; any other length is a caller error.
    pub fn from_vec(bytes: Vec<u8>) -> (r: Addr)
        requires
            bytes@.len() == 4,
        ensures
            r.0 == (bytes@[0] as u32) * 0x100_0000 + (bytes@[1] as u32) * 0x1_0000 + (bytes@[2]
                as u32) * 0x100 + (bytes@[3] as u32),
    {
        Addr(
            (bytes[0] as u32) * 0x100_0000 + (bytes[1] as u32) * 0x1_0000 + (bytes[2] as u32)
                * 0x100 + (bytes[3] as u32),
        )
    }
}

impl Subnet {
    /// The host-route prefix length.
    pub fn new() -> (r: Subnet)
        ensures
            r == (Subnet(32u8)),
    {
        Subnet(32)
    }

    /// The display name of the type.
    pub fn name() -> (r: String)
        ensures
            r@ == "Subnet"@,
    {
        "Subnet".to_owned()
    }

    /// Render as `/prefix`.
    pub fn to_string(&self) -> (r: String)
        ensures
            r@ == seq!['/'] + dec_digits(self.0 as nat),
    {
        let mut out = String::new();
        push_char(&mut out, '/');
        let digits = u32_to_dec(self.0 as u32);
        out.append(digits.as_str());
        proof {
            assert(out@ =~= seq!['/'] + dec_digits(self.0 as nat));
        }
        out
    }

    /// Parse a prefix length, with or without a leading slash; with one,
    /// the digits after the last slash count.
    pub fn from_str(s: &str) -> (r: Result<Subnet, Error>)
        ensures
            (r is Ok) == (spec_parse_subnet(s@) is Some),
            r is Ok ==> r.unwrap() == spec_parse_subnet(s@).unwrap(),
            r is Err ==> r.unwrap_err().code == 2,
    {
        let n = s.unicode_len();
        let body: &str = if n > 0 && s.get_char(0) == '/' {
            let mut start: usize = 0;
            let mut i: usize = 0;
            while i < n
                invariant
                    n == s@.len(),
                    i <= n,
                    start <= i,
                    start == last_slash(s@.take(i as int)) + 1,
                decreases n - i,
            {
                proof {
                    assert(s@.take(i + 1).drop_last() =~= s@.take(i as int));
                    assert(s@.take(i + 1).last() == s@[i as int]);
                }
                if s.get_char(i) == '/' {
                    start = i + 1;
                }
                i = i + 1;
            }
            proof {
                assert(s@.take(n as int) =~= s@);
            }
            s.substring_char(start, n)
        } else {
            s
        };
        match parse_dec_capped(body, 256) {
            Some(v) if v <= 255 => Ok(Subnet(v as u8)),
            _ => Err(format_error()),
        }
    }
}

/// The index of the last slash, or a negative value without one.
pub open spec fn last_slash(s: Seq<char>) -> int
    decreases s.len(),
{
    if s.len() == 0 {
        -1
    } else if s.last() == '/' {
        s.len() - 1
    } else {
        last_slash(s.drop_last())
    }
}

/// The value of a prefix-length numeral: for text starting with a slash,
/// the digits after the last slash; plain digits otherwise.
pub open spec fn spec_parse_subnet(s: Seq<char>) -> Option<Subnet> {
    let body = if s.len() > 0 && s[0] == '/' {
        s.skip(last_slash(s) + 1)
    } else {
        s
    };
    match spec_parse_dec(body, 256) {
        Option::None => Option::None,
        Option::Some(v) => if v > 255 {
            Option::None
        } else {
            Option::Some(Subnet(v as u8))
        },
    }
}

/// A packet-matching rule over a block set.
#[derive(Debug, Clone, PartialEq, Eq)]
pub struct Rule {
    pub nets: NetSet,
    pub ports: Vec<Port>,
    pub proto: Protocol,
    pub action: Action,
}

impl Rule {
    /// An empty rule: no blocks, no ports, zero protocol and action.
    pub fn new() -> (r: Rule)
        ensures
            r.nets@ == Seq::<Net>::empty(),
            r.ports@ == Seq::<Port>::empty(),
            r.proto == 0,
            r.action == 0,
    {
        Rule { nets: NetSet::new(), ports: Vec::new(), proto: 0, action: 0 }
    }
}

/// One big-endian byte of an address: byte 0 is the most significant.
pub open spec fn be_byte(a: u32, k: int) -> u8 {
    if k == 0 {
        (a >> 24u32) as u8
    } else if k == 1 {
        (a >> 16u32) as u8
    } else if k == 2 {
        (a >> 8u32) as u8
    } else {
        a as u8
    }
}

/// The dotted-decimal text of an address.
pub open spec fn spec_addr_str(a: u32) -> Seq<char> {
    dec_digits(be_byte(a, 0) as nat) + seq!['.'] + dec_digits(be_byte(a, 1) as nat) + seq!['.']
        + dec_digits(be_byte(a, 2) as nat) + seq!['.'] + dec_digits(be_byte(a, 3) as nat)
}

/// The dotted-decimal text of a block: the address followed by `/prefix`.
pub open spec fn spec_net_str(n: Net) -> Seq<char> {
    spec_addr_str(n.0) + seq!['/'] + dec_digits(n.1 as nat)
}

/// The big-endian bytes of an address recombine to the address.
proof fn lemma_be_bytes_value(a: u32)
    ensures
        (be_byte(a, 0) as u32) * 0x100_0000 + (be_byte(a, 1) as u32) * 0x1_0000 + (be_byte(a, 2)
            as u32) * 0x100 + (be_byte(a, 3) as u32) == a,
{
    assert(((a >> 24u32) as u8 as u32) * 0x100_0000 + ((a >> 16u32) as u8 as u32) * 0x1_0000 + ((a
        >> 8u32) as u8 as u32) * 0x100 + (a as u8 as u32) == a) by (bit_vector);
}

/// The pieces of a text between its dots.
pub open spec fn split_dots(s: Seq<char>) -> Seq<Seq<char>>
    decreases s.len(),
{
    let d = find_char(s, '.');
    if d < 0 || d >= s.len() {
        seq![s]
    } else {
        seq![s.take(d)] + split_dots(s.skip(d + 1))
    }
}

/// The value of one decimal octet: digits only, at most 255.
pub open spec fn spec_parse_octet(s: Seq<char>) -> Option<u32> {
    match spec_parse_dec(s, 256) {
        Option::None => Option::None,
        Option::Some(v) => if v > 255 {
            Option::None
        } else {
            Option::Some(v as u32)
        },
    }
}

/// Octet values combined by position, the first octet most significant.
pub open spec fn spec_octets_val(os: Seq<nat>) -> nat {
    (if os.len() > 0 {
        os[0] * 0x100_0000
    } else {
        0
    }) + (if os.len() > 1 {
        os[1] * 0x1_0000
    } else {
        0
    }) + (if os.len() > 2 {
        os[2] * 0x100
    } else {
        0
    }) + (if os.len() > 3 {
        os[3]
    } else {
        0
    })
}

/// Parse a dotted-decimal address of one to four octets; a missing octet
/// counts as zero.
pub open spec fn spec_parse_addr(s: Seq<char>) -> Option<u32> {
    let parts = split_dots(s);
    if parts.len() > 4 {
        Option::None
    } else if exists|i: int| 0 <= i < parts.len() && spec_parse_octet(#[trigger] parts[i]) is None {
        Option::None
    } else {
        Option::Some(
            spec_octets_val(parts.map_values(|p: Seq<char>| spec_parse_octet(p).unwrap() as nat))
                as u32,
        )
    }
}

/// Parse a block: a dotted-decimal address, then an optional `/prefix`
/// read as an unsigned decimal numeral and clamped to the address width
/// -- a value above the width saturates silently, never an error; a
/// missing prefix means a host route.
pub open spec fn spec_parse_net(s: Seq<char>) -> Option<Net> {
    let sl = find_char(s, '/');
    if sl < 0 || sl >= s.len() {
        match spec_parse_addr(s) {
            Option::None => Option::None,
            Option::Some(a) => Option::Some(Net(a, 32)),
        }
    } else {
        match spec_parse_addr(s.take(sl)) {
            Option::None => Option::None,
            Option::Some(a) => match spec_parse_dec(s.skip(sl + 1), 256) {
                Option::None => Option::None,
                Option::Some(p) => if p > 32 {
                    Option::Some(Net(a, 32))
                } else {
                    Option::Some(Net(a, p as u8))
                },
            },
        }
    }
}

/// The parse failure all text functions report.
fn format_error() -> (r: Error)
    ensures
        r.code == 2,
        r.message@ == "Format error"@,
{
    Error::new("Format error".to_owned(), 2)
}

/// A split has at least one piece.
proof fn lemma_split_dots_nonempty(s: Seq<char>)
    ensures
        split_dots(s).len() >= 1,
{
    let d = find_char(s, '.');
    if d < 0 || d >= s.len() {
        assert(split_dots(s) =~= seq![s]);
    } else {
        assert(split_dots(s) =~= seq![s.take(d)] + split_dots(s.skip(d + 1)));
    }
}

/// Parse a dotted-decimal address of at most four octets.
#[verifier::rlimit(60)]
fn parse_addr_exec(s: &str) -> (r: Option<u32>)
    ensures
        (r is Some) == (spec_parse_addr(s@) is Some),
        r is Some ==> r.unwrap() == spec_parse_addr(s@).unwrap(),
{
    let ghost parts = split_dots(s@);
    let mut rest: &str = s;
    let mut count: usize = 0;
    let mut acc: u32 = 0;
    let ghost mut vals: Seq<nat> = Seq::empty();
    let ghost mut done: Seq<Seq<char>> = Seq::empty();
    proof {
        assert(parts =~= done + split_dots(rest@));
    }
    loop
        invariant
            parts == split_dots(s@),
            count == vals.len(),
            count == done.len(),
            count <= 4,
            parts =~= done + split_dots(rest@),
            forall|i: int|
                0 <= i < count ==> spec_parse_octet(#[trigger] parts[i]) == Option::Some(
                    vals[i] as u32,
                ),
            forall|i: int| 0 <= i < count ==> #[trigger] vals[i] <= 255,
            acc as nat == spec_octets_val(vals),
        decreases rest@.len(),
    {
        let ln = rest.unicode_len();
        match find_char_exec(rest, '.') {
            Some(d) => {
                proof {
                    assert(split_dots(rest@) =~= seq![rest@.take(d as int)] + split_dots(
                        rest@.skip(d + 1),
                    ));
                    lemma_split_dots_nonempty(rest@.skip(d + 1));
                    assert(parts.len() == count + split_dots(rest@).len());
                    assert(parts.len() >= count + 2);
                }
                if count >= 4 {
                    return None;
                }
                let part = rest.substring_char(0, d);
                let next = rest.substring_char(d + 1, ln);
                proof {
                    assert(part@ =~= rest@.take(d as int));
                    assert(next@ =~= rest@.skip(d + 1));
                    assert(split_dots(rest@) =~= seq![part@] + split_dots(next@));
                    assert(parts[count as int] == part@);
                }
                match parse_dec_capped(part, 256) {
                    Some(v) if v <= 255 => {
                        let w: u32 = if count == 0 {
                            (v as u32) * 0x100_0000
                        } else if count == 1 {
                            (v as u32) * 0x1_0000
                        } else if count == 2 {
                            (v as u32) * 0x100
                        } else {
                            v as u32
                        };
                        proof {
                            assert(spec_parse_octet(part@) == Option::Some(v as u32));
                            assert(vals.push(v as nat).drop_last() =~= vals);
                            assert(spec_octets_val(vals.push(v as nat)) == spec_octets_val(vals)
                                + w as nat);
                            assert(parts =~= (done + seq![part@]) + split_dots(next@));
                        }
                        acc = acc + w;
                        proof {
                            vals = vals.push(v as nat);
                            done = done.push(part@);
                            assert(done =~= done.drop_last() + seq![part@]);
                        }
                        count = count + 1;
                        rest = next;
                    },
                    _ => {
                        proof {
                            assert(spec_parse_octet(parts[count as int]) is None);
                        }
                        return None;
                    },
                }
            },
            None => {
                proof {
                    assert(split_dots(rest@) =~= seq![rest@]);
                    assert(parts =~= done + seq![rest@]);
                    assert(parts.len() == count + 1);
                    assert(parts[count as int] == rest@);
                }
                if count >= 4 {
                    return None;
                }
                match parse_dec_capped(rest, 256) {
                    Some(v) if v <= 255 => {
                        let w: u32 = if count == 0 {
                            (v as u32) * 0x100_0000
                        } else if count == 1 {
                            (v as u32) * 0x1_0000
                        } else if count == 2 {
                            (v as u32) * 0x100
                        } else {
                            v as u32
                        };
                        proof {
                            assert(spec_parse_octet(rest@) == Option::Some(v as u32));
                            assert(vals.push(v as nat).drop_last() =~= vals);
                            assert(spec_octets_val(vals.push(v as nat)) == spec_octets_val(vals)
                                + w as nat);
                        }
                        acc = acc + w;
                        proof {
                            vals = vals.push(v as nat);
                            let f = |p: Seq<char>| spec_parse_octet(p).unwrap() as nat;
                            assert forall|i: int| 0 <= i < parts.len() implies parts.map_values(f)[i]
                                == vals[i] by {
                                assert(spec_parse_octet(parts[i]) == Option::Some(vals[i] as u32));
                            }
                            assert(parts.map_values(f) =~= vals);
                            assert forall|i: int|
                                0 <= i < parts.len() implies !(spec_parse_octet(
                                #[trigger] parts[i],
                            ) is None) by {
                                assert(spec_parse_octet(parts[i]) == Option::Some(vals[i] as u32));
                            }
                        }
                        return Some(acc);
                    },
                    _ => {
                        proof {
                            assert(spec_parse_octet(parts[count as int]) is None);
                        }
                        return None;
                    },
                }
            },
        }
    }
}

impl Net {
    /// The five-byte big-endian encoding: four address bytes, then the
    /// prefix length.
    pub fn to_be_bytes(&self) -> (r: [u8; 5])
        ensures
            r@ =~= seq![
                be_byte(self.0, 0),
                be_byte(self.0, 1),
                be_byte(self.0, 2),
                be_byte(self.0, 3),
                self.1,
            ],
    {
        [(self.0 >> 24u32) as u8, (self.0 >> 16u32) as u8, (self.0 >> 8u32) as u8, self.0 as u8, self.1]
    }

    /// Decode five big-endian bytes, clamping the prefix byte.
    pub fn from_be_bytes(bytes: [u8; 5]) -> (r: Net)
        ensures
            r.0 == (bytes@[0] as u32) * 0x100_0000 + (bytes@[1] as u32) * 0x1_0000 + (bytes@[2]
                as u32) * 0x100 + (bytes@[3] as u32),
            r.1 == if bytes@[4] <= 32 {
                bytes@[4]
            } else {
                32u8
            },
            r.wf(),
    {
        let a = (bytes[0] as u32) * 0x100_0000 + (bytes[1] as u32) * 0x1_0000 + (bytes[2] as u32)
            * 0x100 + (bytes[3] as u32);
        let p = if bytes[4] <= 32 {
            bytes[4]
        } else {
            32
        };
        Net(a, p)
    }

    /// The five-byte encoding as a growable vector.
    pub fn to_vec(&self) -> (r: Vec<u8>)
        ensures
            r@ =~= seq![
                be_byte(self.0, 0),
                be_byte(self.0, 1),
                be_byte(self.0, 2),
                be_byte(self.0, 3),
                self.1,
            ],
    {
        let mut out: Vec<u8> = Vec::new();
        out.push((self.0 >> 24u32) as u8);
        out.push((self.0 >> 16u32) as u8);
        out.push((self.0 >> 8u32) as u8);
        out.push(self.0 as u8);
        out.push(self.1);
        out
    }

    /// Decode a five-byte vector; any other length is a caller error.
    pub fn from_vec(bytes: Vec<u8>) -> (r: Net)
        requires
            bytes@.len() == 5,
        ensures
            r.0 == (bytes@[0] as u32) * 0x100_0000 + (bytes@[1] as u32) * 0x1_0000 + (bytes@[2]
                as u32) * 0x100 + (bytes@[3] as u32),
            r.1 == if bytes@[4] <= 32 {
                bytes@[4]
            } else {
                32u8
            },
            r.wf(),
    {
        let a = (bytes[0] as u32) * 0x100_0000 + (bytes[1] as u32) * 0x1_0000 + (bytes[2] as u32)
            * 0x100 + (bytes[3] as u32);
        let p = if bytes[4] <= 32 {
            bytes[4]
        } else {
            32
        };
        Net(a, p)
    }

    /// Decode a byte slice: four bytes give a host route, five give a
    /// block with its prefix byte clamped; any other length is refused.
    pub fn try_from(bytes: &[u8]) -> (r: Result<Net, Error>)
        ensures
            bytes@.len() == 4 ==> (r matches Ok(n) && n.0 == (bytes@[0] as u32) * 0x100_0000 + (
            bytes@[1] as u32) * 0x1_0000 + (bytes@[2] as u32) * 0x100 + (bytes@[3] as u32) && n.1
                == 32),
            bytes@.len() == 5 ==> (r matches Ok(n) && n.0 == (bytes@[0] as u32) * 0x100_0000 + (
            bytes@[1] as u32) * 0x1_0000 + (bytes@[2] as u32) * 0x100 + (bytes@[3] as u32) && n.1
                == (if bytes@[4] <= 32 {
                bytes@[4]
            } else {
                32u8
            })),
            bytes@.len() == 4 || bytes@.len() == 5 ==> r.unwrap().wf(),
            bytes@.len() != 4 && bytes@.len() != 5 ==> (r matches Err(e) && e.code == 2),
    {
        let n = bytes.len();
        if n != 4 && n != 5 {
            return Err(format_error());
        }
        let b0 = *vstd::slice::slice_index_get(bytes, 0);
        let b1 = *vstd::slice::slice_index_get(bytes, 1);
        let b2 = *vstd::slice::slice_index_get(bytes, 2);
        let b3 = *vstd::slice::slice_index_get(bytes, 3);
        let a = (b0 as u32) * 0x100_0000 + (b1 as u32) * 0x1_0000 + (b2 as u32) * 0x100 + (
        b3 as u32);
        if n == 4 {
            Ok(Net(a, 32))
        } else {
            let p = *vstd::slice::slice_index_get(bytes, 4);
            Ok(Net(a, if p <= 32 { p } else { 32 }))
        }
    }

    /// Render as dotted-decimal text with the prefix, `a.b.c.d/p`.
    pub fn to_string(&self) -> (r: String)
        ensures
            r@ == spec_net_str(*self),
    {
        let mut out = u32_to_dec(((self.0 >> 24u32) as u8) as u32);
        push_char(&mut out, '.');
        let b1 = u32_to_dec(((self.0 >> 16u32) as u8) as u32);
        out.append(b1.as_str());
        push_char(&mut out, '.');
        let b2 = u32_to_dec(((self.0 >> 8u32) as u8) as u32);
        out.append(b2.as_str());
        push_char(&mut out, '.');
        let b3 = u32_to_dec((self.0 as u8) as u32);
        out.append(b3.as_str());
        push_char(&mut out, '/');
        let p = u32_to_dec(self.1 as u32);
        out.append(p.as_str());
        proof {
            assert(out@ =~= spec_net_str(*self));
        }
        out
    }

    /// Parse dotted-decimal text with an optional `/prefix`; a prefix
    /// above the address width saturates to it.
    pub fn from_str(s: &str) -> (r: Result<Net, Error>)
        ensures
            (r is Ok) == (spec_parse_net(s@) is Some),
            r is Ok ==> r.unwrap() == spec_parse_net(s@).unwrap() && r.unwrap().wf(),
            r is Err ==> r.unwrap_err().code == 2,
    {
        let n = s.unicode_len();
        match find_char_exec(s, '/') {
            Some(d) => {
                let addr_part = s.substring_char(0, d);
                let pfx_part = s.substring_char(d + 1, n);
                proof {
                    assert(addr_part@ =~= s@.take(d as int));
                    assert(pfx_part@ =~= s@.skip(d + 1));
                }
                match parse_addr_exec(addr_part) {
                    None => Err(format_error()),
                    Some(a) => match parse_dec_capped(pfx_part, 256) {
                        None => Err(format_error()),
                        Some(v) => {
                            if v > 32 {
                                Ok(Net(a, 32))
                            } else {
                                Ok(Net(a, v as u8))
                            }
                        },
                    },
                }
            },
            None => match parse_addr_exec(s) {
                None => Err(format_error()),
                Some(a) => Ok(Net(a, 32)),
            },
        }
    }
}

/// A character that may appear in a candidate block token.
pub open spec fn valid_seg_char(c: char) -> bool {
    is_digit(c) || c == '.' || c == '/'
}

/// The shape check walked over a token: positions, counts and neighbour
/// constraints for dots, at most one slash no earlier than index seven,
/// three dots in all, digits everywhere else and at most fourteen of them.
pub open spec fn token_check(
    s: Seq<char>,
    i: int,
    dots: int,
    slashes: int,
    nums: int,
    prev: char,
) -> bool
    decreases s.len() - i,
{
    if i < 0 || i >= s.len() {
        dots == 3
    } else {
        let c = s[i];
        if (c == '.' && (i == 0 || i == s.len() - 1)) || (c == '/' && (i < 7 || i == s.len()
            - 1)) {
            false
        } else if c == '.' {
            if dots + 1 > 3 || prev == '.' || prev == '/' {
                false
            } else {
                token_check(s, i + 1, dots + 1, slashes, nums, c)
            }
        } else if c == '/' {
            if slashes + 1 > 1 || prev == '.' {
                false
            } else {
                token_check(s, i + 1, dots, slashes + 1, nums, c)
            }
        } else if !is_digit(c) {
            false
        } else {
            if nums + 1 > 14 {
                false
            } else {
                token_check(s, i + 1, dots, slashes, nums + 1, c)
            }
        }
    }
}

/// A token that looks like a block: seven to eighteen characters that pass
/// the shape check.
pub open spec fn spec_is_valid_token(s: Seq<char>) -> bool {
    7 <= s.len() && s.len() <= 18 && token_check(s, 0, 0, 0, 0, ' ')
}

/// The index of the first character a token may not contain, or a negative
/// value when all characters are token characters.
pub open spec fn find_invalid(s: Seq<char>) -> int
    decreases s.len(),
{
    if s.len() == 0 {
        -1
    } else if !valid_seg_char(s[0]) {
        0
    } else {
        let r = find_invalid(s.drop_first());
        if r < 0 {
            -1
        } else {
            r + 1
        }
    }
}

/// A position holding an invalid character with only valid ones before it
/// is exactly what `find_invalid` returns.
proof fn lemma_find_invalid_is(s: Seq<char>, r: int)
    requires
        0 <= r < s.len(),
        !valid_seg_char(s[r]),
        forall|k: int| 0 <= k < r ==> valid_seg_char(#[trigger] s[k]),
    ensures
        find_invalid(s) == r,
    decreases s.len(),
{
    if r > 0 {
        assert forall|k: int| 0 <= k < r - 1 implies valid_seg_char(#[trigger] s.drop_first()[k]) by {
            assert(valid_seg_char(s[k + 1]));
        }
        lemma_find_invalid_is(s.drop_first(), r - 1);
    }
}

/// When every character is a token character, `find_invalid` reports a
/// negative value.
proof fn lemma_find_invalid_none(s: Seq<char>)
    requires
        forall|k: int| 0 <= k < s.len() ==> valid_seg_char(#[trigger] s[k]),
    ensures
        find_invalid(s) < 0,
    decreases s.len(),
{
    if s.len() > 0 {
        assert forall|k: int| 0 <= k < s.len() - 1 implies valid_seg_char(
            #[trigger] s.drop_first()[k],
        ) by {
            assert(valid_seg_char(s[k + 1]));
        }
        lemma_find_invalid_none(s.drop_first());
    }
}

/// The maximal runs of token characters in one line, split at every other
/// character; empty runs are kept.
pub open spec fn segments_of_line(line: Seq<char>) -> Seq<Seq<char>>
    decreases line.len(),
{
    let d = find_invalid(line);
    if d < 0 || d >= line.len() {
        seq![line]
    } else {
        seq![line.take(d)] + segments_of_line(line.skip(d + 1))
    }
}

/// A line has at least one segment.
proof fn lemma_segments_nonempty(line: Seq<char>)
    ensures
        segments_of_line(line).len() >= 1,
{
    let d = find_invalid(line);
    if d < 0 || d >= line.len() {
        assert(segments_of_line(line) =~= seq![line]);
    } else {
        assert(segments_of_line(line) =~= seq![line.take(d)] + segments_of_line(line.skip(d + 1)));
    }
}

/// The scan over one line's segments.  A segment equal to the previous one
/// is skipped; a well-shaped distinct segment that parses is collected,
/// one that does not parse is skipped; the final segment of a line never
/// updates the previous-segment memory.
pub open spec fn scan_segs(segs: Seq<Seq<char>>, prev: Seq<char>, acc: Seq<Net>) -> (
    Seq<char>,
    Seq<Net>,
)
    decreases segs.len(),
{
    if segs.len() == 0 {
        (prev, acc)
    } else if segs.len() == 1 {
        let seg = segs[0];
        if spec_is_valid_token(seg) && seg != prev {
            match spec_parse_net(seg) {
                Option::Some(n) => (prev, acc.push(n)),
                Option::None => (prev, acc),
            }
        } else {
            (prev, acc)
        }
    } else {
        let seg = segs[0];
        if seg == prev {
            scan_segs(segs.drop_first(), prev, acc)
        } else if spec_is_valid_token(seg) {
            match spec_parse_net(seg) {
                Option::Some(n) => scan_segs(segs.drop_first(), seg, acc.push(n)),
                Option::None => scan_segs(segs.drop_first(), seg, acc),
            }
        } else {
            scan_segs(segs.drop_first(), seg, acc)
        }
    }
}

/// The scan over all lines, threading the previous-segment memory.
pub open spec fn scan_lines(lines: Seq<Seq<char>>, prev: Seq<char>, acc: Seq<Net>) -> (
    Seq<char>,
    Seq<Net>,
)
    decreases lines.len(),
{
    if lines.len() == 0 {
        (prev, acc)
    } else {
        let st = scan_segs(segments_of_line(lines[0]), prev, acc);
        scan_lines(lines.drop_first(), st.0, st.1)
    }
}

/// All blocks the tolerant scan collects from a text.
pub open spec fn spec_scan_nets(s: Seq<char>) -> Seq<Net> {
    scan_lines(split_lines(s), Seq::empty(), Seq::empty()).1
}

/// The index of the first character a token may not contain.
fn find_invalid_exec(s: &str) -> (r: Option<usize>)
    ensures
        r is Some ==> find_invalid(s@) == r.unwrap() && r.unwrap() < s@.len(),
        r is None ==> find_invalid(s@) < 0,
{
    let n = s.unicode_len();
    let mut i: usize = 0;
    while i < n
        invariant
            n == s@.len(),
            i <= n,
            forall|k: int| 0 <= k < i ==> valid_seg_char(#[trigger] s@[k]),
        decreases n - i,
    {
        let c = s.get_char(i);
        if !(is_digit_exec(c) || c == '.' || c == '/') {
            proof {
                lemma_find_invalid_is(s@, i as int);
            }
            return Some(i);
        }
        i = i + 1;
    }
    proof {
        lemma_find_invalid_none(s@);
    }
    None
}

impl NetSet {
    /// Whether a character may appear in a candidate block token.
    pub fn is_valid_char(c: char) -> (r: bool)
        ensures
            r == valid_seg_char(c),
    {
        is_digit_exec(c) || c == '.' || c == '/'
    }

    /// Whether a token has the shape of a block in dotted-decimal form.
    pub fn is_valid_str(s: &str) -> (r: bool)
        ensures
            r == spec_is_valid_token(s@),
    {
        let n = s.unicode_len();
        if n < 7 || n > 18 {
            return false;
        }
        let mut dots: u32 = 0;
        let mut slashes: u32 = 0;
        let mut nums: u32 = 0;
        let mut prev: char = ' ';
        let mut i: usize = 0;
        while i < n
            invariant
                n == s@.len(),
                7 <= n <= 18,
                i <= n,
                dots <= 3,
                slashes <= 1,
                nums <= 14,
                token_check(s@, 0, 0, 0, 0, ' ') == token_check(
                    s@,
                    i as int,
                    dots as int,
                    slashes as int,
                    nums as int,
                    prev,
                ),
            decreases n - i,
        {
            let c = s.get_char(i);
            if (c == '.' && (i == 0 || i == n - 1)) || (c == '/' && (i < 7 || i == n - 1)) {
                return false;
            } else if c == '.' {
                if dots + 1 > 3 || prev == '.' || prev == '/' {
                    return false;
                }
                dots = dots + 1;
            } else if c == '/' {
                if slashes + 1 > 1 || prev == '.' {
                    return false;
                }
                slashes = slashes + 1;
            } else if !is_digit_exec(c) {
                return false;
            } else {
                if nums + 1 > 14 {
                    return false;
                }
                nums = nums + 1;
            }
            prev = c;
            i = i + 1;
        }
        dots == 3
    }

    /// Render every block on its own line, each line ended by a line feed.
    pub fn to_string(&self) -> (r: String)
        ensures
            r@ == spec_netset_str(self@),
    {
        let mut out = String::new();
        let mut i: usize = 0;
        proof {
            assert(self@.take(0) =~= Seq::<Net>::empty());
        }
        while i < self.0.len()
            invariant
                i <= self@.len(),
                out@ == spec_netset_str(self@.take(i as int)),
            decreases self@.len() - i,
        {
            let line = self.0[i].to_string();
            out.append(line.as_str());
            push_char(&mut out, '\n');
            proof {
                assert(self@.take(i + 1).drop_last() =~= self@.take(i as int));
                assert(self@.take(i + 1).last() == self@[i as int]);
            }
            i = i + 1;
        }
        proof {
            assert(self@.take(self@.len() as int) =~= self@);
        }
        out
    }

    /// Scan free-form text for block tokens, parse each distinct
    /// well-shaped token, skip everything else, and collect the blocks in
    /// the order found.  No input makes the scan fail as a whole.
    pub fn from_str(s: &str) -> (r: Result<NetSet, Error>)
        ensures
            r is Ok,
            r.unwrap()@ == spec_scan_nets(s@),
            all_wf(r.unwrap()@),
    {
        let mut out: Vec<Net> = Vec::new();
        let empty_str: &str = "";
        proof {
            reveal_strlit("");
            assert(empty_str@ =~= Seq::<char>::empty());
        }
        let mut prev: &str = empty_str;
        let mut srest: &str = s;
        let ghost total = scan_lines(split_lines(s@), Seq::empty(), Seq::empty());
        proof {
            assert(out@ =~= Seq::<Net>::empty());
        }
        loop
            invariant
                all_wf(out@),
                total == scan_lines(split_lines(s@), Seq::empty(), Seq::empty()),
                total == scan_lines(split_lines(srest@), prev@, out@),
            ensures
                srest@.len() == 0,
                all_wf(out@),
                total == scan_lines(split_lines(srest@), prev@, out@),
            decreases srest@.len(),
        {
            let n = srest.unicode_len();
            if n == 0 {
                break ;
            }
            let (line_end, next_start): (usize, usize) = match find_char_exec(srest, '\n') {
                Some(d) => (d, d + 1),
                None => (n, n),
            };
            let raw_line = srest.substring_char(0, line_end);
            let next = srest.substring_char(next_start, n);
            proof {
                if line_end < n {
                    assert(raw_line@ =~= srest@.take(line_end as int));
                    assert(next@ =~= srest@.skip(line_end + 1));
                    assert(split_lines(srest@) =~= seq![strip_cr(srest@.take(line_end as int))]
                        + split_lines(srest@.skip(line_end + 1)));
                } else {
                    assert(raw_line@ =~= srest@);
                    assert(next@ =~= Seq::<char>::empty());
                    assert(split_lines(next@) =~= Seq::<Seq<char>>::empty());
                    assert(split_lines(srest@) =~= seq![strip_cr(srest@)]);
                }
            }
            let ln = raw_line.unicode_len();
            let line = if ln > 0 && raw_line.get_char(ln - 1) == '\r' {
                raw_line.substring_char(0, ln - 1)
            } else {
                raw_line
            };
            proof {
                if ln > 0 && raw_line@.last() == '\r' {
                    assert(line@ =~= raw_line@.drop_last());
                }
                assert(line@ == strip_cr(raw_line@));
                assert(split_lines(srest@) =~= seq![line@] + split_lines(next@));
                assert((seq![line@] + split_lines(next@)).drop_first() =~= split_lines(next@));
                assert((seq![line@] + split_lines(next@))[0] == line@);
            }
            // scan the segments of this line
            let ghost entry_prev = prev@;
            let ghost entry_out = out@;
            let mut lrest: &str = line;
            loop
                invariant_except_break
                    scan_segs(segments_of_line(line@), entry_prev, entry_out) == scan_segs(
                        segments_of_line(lrest@),
                        prev@,
                        out@,
                    ),
                invariant
                    all_wf(out@),
                ensures
                    all_wf(out@),
                    scan_segs(segments_of_line(line@), entry_prev, entry_out) == (prev@, out@),
                decreases lrest@.len(),
            {
                let lm = lrest.unicode_len();
                match find_invalid_exec(lrest) {
                    Some(d) => {
                        let seg = lrest.substring_char(0, d);
                        let lnext = lrest.substring_char(d + 1, lm);
                        proof {
                            assert(seg@ =~= lrest@.take(d as int));
                            assert(lnext@ =~= lrest@.skip(d + 1));
                            assert(segments_of_line(lrest@) =~= seq![seg@] + segments_of_line(
                                lnext@,
                            ));
                            lemma_segments_nonempty(lnext@);
                            assert((seq![seg@] + segments_of_line(lnext@)).drop_first()
                                =~= segments_of_line(lnext@));
                            assert((seq![seg@] + segments_of_line(lnext@))[0] == seg@);
                        }
                        if !str_eq(seg, prev) {
                            if NetSet::is_valid_str(seg) {
                                match Net::from_str(seg) {
                                    Ok(net) => {
                                        out.push(net);
                                    },
                                    Err(_) => {},
                                }
                            }
                            prev = seg;
                        }
                        lrest = lnext;
                    },
                    None => {
                        proof {
                            assert(segments_of_line(lrest@) =~= seq![lrest@]);
                        }
                        if !str_eq(lrest, prev) {
                            if NetSet::is_valid_str(lrest) {
                                match Net::from_str(lrest) {
                                    Ok(net) => {
                                        out.push(net);
                                    },
                                    Err(_) => {},
                                }
                            }
                        }
                        break ;
                    },
                }
            }
            srest = next;
        }
        proof {
            assert(split_lines(srest@) =~= Seq::<Seq<char>>::empty());
        }
        Ok(NetSet(out))
    }
}

/// The text of a block set: one block per line.
pub open spec fn spec_netset_str(s: Seq<Net>) -> Seq<char>
    decreases s.len(),
{
    if s.len() == 0 {
        Seq::empty()
    } else {
        spec_netset_str(s.drop_last()) + spec_net_str(s.last()) + seq!['\n']
    }
}

/// Reading a block's text back yields the block: parsing inverts printing.
pub proof fn lemma_net_round_trip(n: Net)
    requires
        n.wf(),
    ensures
        spec_parse_net(spec_net_str(n)) == Some(n),
{
    let a = dec_digits(be_byte(n.0, 0) as nat);
    let b = dec_digits(be_byte(n.0, 1) as nat);
    let c = dec_digits(be_byte(n.0, 2) as nat);
    let d = dec_digits(be_byte(n.0, 3) as nat);
    let p = dec_digits(n.1 as nat);
    lemma_dec_digits(be_byte(n.0, 0) as nat);
    lemma_dec_digits(be_byte(n.0, 1) as nat);
    lemma_dec_digits(be_byte(n.0, 2) as nat);
    lemma_dec_digits(be_byte(n.0, 3) as nat);
    lemma_dec_digits(n.1 as nat);
    let addr = spec_addr_str(n.0);
    let s = spec_net_str(n);
    let m = addr.len() as int;
    assert(s[m] == '/');
    assert forall|k: int| 0 <= k < m implies s[k] != '/' by {
        lemma_addr_str_chars(n.0, k);
    }
    lemma_find_char_is(s, '/', m);
    assert(s.take(m) =~= addr);
    assert(s.skip(m + 1) =~= p);
    lemma_split_addr_str(n.0);
    let parts = split_dots(addr);
    let f = |q: Seq<char>| spec_parse_octet(q).unwrap() as nat;
    assert(spec_parse_octet(a) == Option::Some(be_byte(n.0, 0) as u32));
    assert(spec_parse_octet(b) == Option::Some(be_byte(n.0, 1) as u32));
    assert(spec_parse_octet(c) == Option::Some(be_byte(n.0, 2) as u32));
    assert(spec_parse_octet(d) == Option::Some(be_byte(n.0, 3) as u32));
    assert forall|i: int| 0 <= i < parts.len() implies !(spec_parse_octet(
        #[trigger] parts[i],
    ) is None) by {
        assert(parts =~= seq![a, b, c, d]);
    }
    assert(parts.map_values(f) =~= seq![
        be_byte(n.0, 0) as nat,
        be_byte(n.0, 1) as nat,
        be_byte(n.0, 2) as nat,
        be_byte(n.0, 3) as nat,
    ]);
    lemma_be_bytes_value(n.0);
    assert(spec_octets_val(parts.map_values(f)) == n.0 as nat);
    assert(spec_parse_addr(addr) == Option::Some(n.0));
    assert(spec_parse_dec(p, 256) == Option::Some(n.1 as nat));
    assert(spec_parse_net(s) == Option::Some(Net(n.0, n.1)));
}

/// No character of a dotted-decimal address is a slash.
proof fn lemma_addr_str_chars(a: u32, k: int)
    requires
        0 <= k < spec_addr_str(a).len(),
    ensures
        spec_addr_str(a)[k] != '/',
        valid_seg_char(spec_addr_str(a)[k]),
{
    let s0 = dec_digits(be_byte(a, 0) as nat);
    let s1 = dec_digits(be_byte(a, 1) as nat);
    let s2 = dec_digits(be_byte(a, 2) as nat);
    let s3 = dec_digits(be_byte(a, 3) as nat);
    lemma_dec_digits(be_byte(a, 0) as nat);
    lemma_dec_digits(be_byte(a, 1) as nat);
    lemma_dec_digits(be_byte(a, 2) as nat);
    lemma_dec_digits(be_byte(a, 3) as nat);
    let s = spec_addr_str(a);
    let l0 = s0.len() as int;
    let l1 = s1.len() as int;
    let l2 = s2.len() as int;
    if k < l0 {
        assert(s[k] == s0[k]);
        assert(is_digit(s0[k]));
    } else if k == l0 {
        assert(s[k] == '.');
    } else if k < l0 + 1 + l1 {
        assert(s[k] == s1[k - l0 - 1]);
        assert(is_digit(s1[k - l0 - 1]));
    } else if k == l0 + 1 + l1 {
        assert(s[k] == '.');
    } else if k < l0 + 1 + l1 + 1 + l2 {
        assert(s[k] == s2[k - l0 - l1 - 2]);
        assert(is_digit(s2[k - l0 - l1 - 2]));
    } else if k == l0 + 1 + l1 + 1 + l2 {
        assert(s[k] == '.');
    } else {
        assert(s[k] == s3[k - l0 - l1 - l2 - 3]);
        assert(is_digit(s3[k - l0 - l1 - l2 - 3]));
    }
}

/// A dotted-decimal address splits at its dots into its four numerals.
proof fn lemma_split_addr_str(a: u32)
    ensures
        split_dots(spec_addr_str(a)) =~= seq![
            dec_digits(be_byte(a, 0) as nat),
            dec_digits(be_byte(a, 1) as nat),
            dec_digits(be_byte(a, 2) as nat),
            dec_digits(be_byte(a, 3) as nat),
        ],
{
    let s0 = dec_digits(be_byte(a, 0) as nat);
    let s1 = dec_digits(be_byte(a, 1) as nat);
    let s2 = dec_digits(be_byte(a, 2) as nat);
    let s3 = dec_digits(be_byte(a, 3) as nat);
    lemma_dec_digits(be_byte(a, 0) as nat);
    lemma_dec_digits(be_byte(a, 1) as nat);
    lemma_dec_digits(be_byte(a, 2) as nat);
    lemma_dec_digits(be_byte(a, 3) as nat);
    let s = spec_addr_str(a);
    let t1 = s1 + seq!['.'] + s2 + seq!['.'] + s3;
    let t2 = s2 + seq!['.'] + s3;
    lemma_split_one_dot(s0, t1);
    assert(s =~= s0 + seq!['.'] + t1);
    lemma_split_one_dot(s1, t2);
    assert(t1 =~= s1 + seq!['.'] + t2);
    lemma_split_one_dot(s2, s3);
    assert(t2 =~= s2 + seq!['.'] + s3);
    lemma_find_char_none(s3, '.');
    assert(split_dots(s3) =~= seq![s3]);
    assert(split_dots(t2) =~= seq![s2] + split_dots(s3));
    assert(split_dots(t1) =~= seq![s1] + split_dots(t2));
    assert(split_dots(s) =~= seq![s0] + split_dots(t1));
}

/// Splitting `digits + '.' + rest` peels off exactly the digits.
proof fn lemma_split_one_dot(head: Seq<char>, rest: Seq<char>)
    requires
        all_digits(head),
    ensures
        split_dots(head + seq!['.'] + rest) =~= seq![head] + split_dots(rest),
{
    let s = head + seq!['.'] + rest;
    let m = head.len() as int;
    assert(s[m] == '.');
    assert forall|k: int| 0 <= k < m implies s[k] != '.' by {
        assert(s[k] == head[k]);
        assert(is_digit(head[k]));
    }
    lemma_find_char_is(s, '.', m);
    assert(s.take(m) =~= head);
    assert(s.skip(m + 1) =~= rest);
}

} // verus!
