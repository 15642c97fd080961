//! Network rule model: address families, directions, addresses, masks,
//! protocols, ports, actions, rules and chains.

pub mod v4;
pub mod v6;

use vstd::prelude::*;
use vstd::string::StrSliceExecFns;
use vstd::string::StringExecFns;
use crate::meta::Error;
use crate::text::{spec_lower, spec_trim, to_lower, trim_exec, str_eq, push_char, u32_to_dec,
    dec_digits, find_char, find_char_exec, split_on, fold_u8_parts, parse_u8_parts,
    upper_hex_pair, spec_parse_dec, parse_dec_capped, is_hex_digit_exec};

verus! {

/// The direction of traffic a rule applies to.
#[derive(Debug, Clone, Copy, PartialEq, Eq, Structural)]
pub enum Direction {
    Unset,
    In,
    Out,
    Fwd,
}

/// The rank of a direction, for ordering.
pub open spec fn dir_idx(d: Direction) -> int {
    match d {
        Direction::Unset => 0,
        Direction::In => 1,
        Direction::Out => 2,
        Direction::Fwd => 3,
    }
}

/// The direction a trimmed, lowered word names; anything else is none.
pub open spec fn spec_dir_from(s: Seq<char>) -> Direction {
    let t = spec_lower(spec_trim(s));
    if t == "in"@ || t == "i"@ || t == "input"@ {
        Direction::In
    } else if t == "out"@ || t == "o"@ || t == "output"@ {
        Direction::Out
    } else if t == "fwd"@ || t == "f"@ || t == "forward"@ {
        Direction::Fwd
    } else {
        Direction::Unset
    }
}

impl Direction {
    /// The direction for the inbound and outbound flags.
    pub fn new(i: bool, o: bool) -> (r: Direction)
        ensures
            r == (if i && o {
                Direction::Fwd
            } else if i {
                Direction::In
            } else if o {
                Direction::Out
            } else {
                Direction::Unset
            }),
    {
        match (i, o) {
            (true, true) => Direction::Fwd,
            (true, false) => Direction::In,
            (false, true) => Direction::Out,
            (false, false) => Direction::Unset,
        }
    }

    /// The direction nothing names.
    pub fn default() -> (r: Direction)
        ensures
            r == Direction::Unset,
    {
        Direction::Unset
    }

    /// A shared borrow of the value itself.
    pub fn as_ref(&self) -> (r: &Direction)
        ensures
            r == self,
    {
        self
    }

    /// The fixed name of the direction.
    pub fn as_str(&self) -> (r: &'static str)
        ensures
            r@ == self.spec_str(),
    {
        match self {
            Direction::Unset => "none",
            Direction::In => "in",
            Direction::Out => "out",
            Direction::Fwd => "fwd",
        }
    }

    /// The name of each direction.
    pub open spec fn spec_str(self) -> Seq<char> {
        match self {
            Direction::Unset => "none"@,
            Direction::In => "in"@,
            Direction::Out => "out"@,
            Direction::Fwd => "fwd"@,
        }
    }

    /// Read a direction from its name, trimmed and case-insensitive;
    /// unknown words mean no direction.
    pub fn from_str(s: &str) -> (r: Direction)
        ensures
            r == spec_dir_from(s@),
    {
        let t = to_lower(trim_exec(s));
        let w = t.as_str();
        if str_eq(w, "in") || str_eq(w, "i") || str_eq(w, "input") {
            Direction::In
        } else if str_eq(w, "out") || str_eq(w, "o") || str_eq(w, "output") {
            Direction::Out
        } else if str_eq(w, "fwd") || str_eq(w, "f") || str_eq(w, "forward") {
            Direction::Fwd
        } else {
            Direction::Unset
        }
    }

    /// The name of the direction as an owned string.
    pub fn to_string(&self) -> (r: String)
        ensures
            r@ == self.spec_str(),
    {
        match self {
            Direction::Unset => "none".to_owned(),
            Direction::In => "in".to_owned(),
            Direction::Out => "out".to_owned(),
            Direction::Fwd => "fwd".to_owned(),
        }
    }

    /// Order directions none, in, out, fwd.
    pub fn cmp(&self, other: &Direction) -> (r: core::cmp::Ordering)
        ensures
            r == core::cmp::Ordering::Less <==> dir_idx(*self) < dir_idx(*other),
            r == core::cmp::Ordering::Equal <==> dir_idx(*self) == dir_idx(*other),
            r == core::cmp::Ordering::Greater <==> dir_idx(*self) > dir_idx(*other),
    {
        let a = self.index();
        let b = other.index();
        if a < b {
            core::cmp::Ordering::Less
        } else if a > b {
            core::cmp::Ordering::Greater
        } else {
            core::cmp::Ordering::Equal
        }
    }

    /// The rank of the direction.
    pub fn index(&self) -> (r: usize)
        ensures
            r == dir_idx(*self),
    {
        match self {
            Direction::Unset => 0,
            Direction::In => 1,
            Direction::Out => 2,
            Direction::Fwd => 3,
        }
    }

    /// Whether the two directions are the same.
    pub fn eq(&self, other: &Direction) -> (r: bool)
        ensures
            r == (*self == *other),
    {
        *self == *other
    }

    /// Whether the two directions differ.
    pub fn ne(&self, other: &Direction) -> (r: bool)
        ensures
            r == (*self != *other),
    {
        !(*self == *other)
    }

    /// Whether this direction ranks no higher.
    pub fn le(&self, other: &Direction) -> (r: bool)
        ensures
            r == (dir_idx(*self) <= dir_idx(*other)),
    {
        self.index() <= other.index()
    }

    /// Whether this direction ranks no lower.
    pub fn ge(&self, other: &Direction) -> (r: bool)
        ensures
            r == (dir_idx(*self) >= dir_idx(*other)),
    {
        self.index() >= other.index()
    }

    /// Whether this direction ranks strictly lower.
    pub fn lt(&self, other: &Direction) -> (r: bool)
        ensures
            r == (dir_idx(*self) < dir_idx(*other)),
    {
        self.index() < other.index()
    }

    /// Whether this direction ranks strictly higher.
    pub fn gt(&self, other: &Direction) -> (r: bool)
        ensures
            r == (dir_idx(*self) > dir_idx(*other)),
    {
        self.index() > other.index()
    }

    /// The inbound and outbound flags of the direction.
    pub fn to_bool(&self) -> (r: (bool, bool))
        ensures
            r.0 == (*self == Direction::In || *self == Direction::Fwd),
            r.1 == (*self == Direction::Out || *self == Direction::Fwd),
    {
        match self {
            Direction::Unset => (false, false),
            Direction::In => (true, false),
            Direction::Out => (false, true),
            Direction::Fwd => (true, true),
        }
    }

    /// Whether no direction is named.
    pub fn is_none(&self) -> (r: bool)
        ensures
            r == (*self == Direction::Unset),
    {
        matches!(self, Direction::Unset)
    }

    /// Whether inbound traffic alone is named.
    pub fn is_in(&self) -> (r: bool)
        ensures
            r == (*self == Direction::In),
    {
        matches!(self, Direction::In)
    }

    /// Whether outbound traffic alone is named.
    pub fn is_out(&self) -> (r: bool)
        ensures
            r == (*self == Direction::Out),
    {
        matches!(self, Direction::Out)
    }

    /// Whether forwarded traffic is named.
    pub fn is_fwd(&self) -> (r: bool)
        ensures
            r == (*self == Direction::Fwd),
    {
        matches!(self, Direction::Fwd)
    }

    /// Whether any direction at all is named.
    pub fn is_any(&self) -> (r: bool)
        ensures
            r == (*self != Direction::Unset),
    {
        matches!(self, Direction::Fwd | Direction::Out | Direction::In)
    }
}

/// The address family a value belongs to.
#[derive(Debug, Clone, Copy, PartialEq, Eq, Structural)]
pub enum Family {
    Unset,
    V4,
    V6,
    Any,
}

/// The rank of a family, for ordering.
pub open spec fn fam_idx(f: Family) -> int {
    match f {
        Family::Unset => 0,
        Family::V4 => 1,
        Family::V6 => 2,
        Family::Any => 3,
    }
}

/// The family a trimmed, lowered word names; anything else is none.
pub open spec fn spec_fam_from(s: Seq<char>) -> Family {
    let t = spec_lower(spec_trim(s));
    if t == "none"@ || t == ""@ {
        Family::Unset
    } else if t == "v4"@ || t == "4"@ || t == "ipv4"@ || t == "ip4"@ {
        Family::V4
    } else if t == "v6"@ || t == "6"@ || t == "ipv6"@ || t == "ip6"@ {
        Family::V6
    } else if t == "any"@ || t == "a"@ || t == "all"@ {
        Family::Any
    } else {
        Family::Unset
    }
}

impl Family {
    /// The family for the two per-version flags.
    pub fn new(v4: bool, v6: bool) -> (r: Family)
        ensures
            r == (if v4 && v6 {
                Family::Any
            } else if v4 {
                Family::V4
            } else if v6 {
                Family::V6
            } else {
                Family::Unset
            }),
    {
        match (v4, v6) {
            (true, true) => Family::Any,
            (true, false) => Family::V4,
            (false, true) => Family::V6,
            (false, false) => Family::Unset,
        }
    }

    /// The family nothing names.
    pub fn default() -> (r: Family)
        ensures
            r == Family::Unset,
    {
        Family::Unset
    }

    /// The fixed name of the family.
    pub fn as_str(&self) -> (r: &'static str)
        ensures
            r@ == self.spec_str(),
    {
        match self {
            Family::Unset => "none",
            Family::V4 => "v4",
            Family::V6 => "v6",
            Family::Any => "any",
        }
    }

    /// The name of each family.
    pub open spec fn spec_str(self) -> Seq<char> {
        match self {
            Family::Unset => "none"@,
            Family::V4 => "v4"@,
            Family::V6 => "v6"@,
            Family::Any => "any"@,
        }
    }

    /// Read a family from its name, trimmed and case-insensitive; unknown
    /// words mean no family.
    pub fn from_str(s: &str) -> (r: Family)
        ensures
            r == spec_fam_from(s@),
    {
        let t = to_lower(trim_exec(s));
        let w = t.as_str();
        if str_eq(w, "none") || str_eq(w, "") {
            Family::Unset
        } else if str_eq(w, "v4") || str_eq(w, "4") || str_eq(w, "ipv4") || str_eq(w, "ip4") {
            Family::V4
        } else if str_eq(w, "v6") || str_eq(w, "6") || str_eq(w, "ipv6") || str_eq(w, "ip6") {
            Family::V6
        } else if str_eq(w, "any") || str_eq(w, "a") || str_eq(w, "all") {
            Family::Any
        } else {
            Family::Unset
        }
    }

    /// The name of the family as an owned string.
    pub fn to_string(&self) -> (r: String)
        ensures
            r@ == self.spec_str(),
    {
        match self {
            Family::Unset => "none".to_owned(),
            Family::V4 => "v4".to_owned(),
            Family::V6 => "v6".to_owned(),
            Family::Any => "any".to_owned(),
        }
    }

    /// The family for the two per-version flags.
    pub fn from_bool(v4: bool, v6: bool) -> (r: Family)
        ensures
            r == (if v4 && v6 {
                Family::Any
            } else if v4 {
                Family::V4
            } else if v6 {
                Family::V6
            } else {
                Family::Unset
            }),
    {
        Family::new(v4, v6)
    }

    /// The two per-version flags of the family.
    pub fn to_bool(&self) -> (r: (bool, bool))
        ensures
            r.0 == (*self == Family::V4 || *self == Family::Any),
            r.1 == (*self == Family::V6 || *self == Family::Any),
    {
        match self {
            Family::Unset => (false, false),
            Family::V4 => (true, false),
            Family::V6 => (false, true),
            Family::Any => (true, true),
        }
    }

    /// The rank of the family.
    pub fn index(&self) -> (r: usize)
        ensures
            r == fam_idx(*self),
    {
        match self {
            Family::Unset => 0,
            Family::V4 => 1,
            Family::V6 => 2,
            Family::Any => 3,
        }
    }

    /// Order families none, v4, v6, any.
    pub fn cmp(&self, other: &Family) -> (r: core::cmp::Ordering)
        ensures
            r == core::cmp::Ordering::Less <==> fam_idx(*self) < fam_idx(*other),
            r == core::cmp::Ordering::Equal <==> fam_idx(*self) == fam_idx(*other),
            r == core::cmp::Ordering::Greater <==> fam_idx(*self) > fam_idx(*other),
    {
        let a = self.index();
        let b = other.index();
        if a < b {
            core::cmp::Ordering::Less
        } else if a > b {
            core::cmp::Ordering::Greater
        } else {
            core::cmp::Ordering::Equal
        }
    }

    /// Whether the two families are the same.
    pub fn eq(&self, other: &Family) -> (r: bool)
        ensures
            r == (*self == *other),
    {
        self.index() == other.index()
    }

    /// Whether the two families differ.
    pub fn ne(&self, other: &Family) -> (r: bool)
        ensures
            r == (*self != *other),
    {
        self.index() != other.index()
    }

    /// Whether this family ranks no higher.
    pub fn le(&self, other: &Family) -> (r: bool)
        ensures
            r == (fam_idx(*self) <= fam_idx(*other)),
    {
        self.index() <= other.index()
    }

    /// Whether this family ranks no lower.
    pub fn ge(&self, other: &Family) -> (r: bool)
        ensures
            r == (fam_idx(*self) >= fam_idx(*other)),
    {
        self.index() >= other.index()
    }

    /// Whether this family ranks strictly lower.
    pub fn lt(&self, other: &Family) -> (r: bool)
        ensures
            r == (fam_idx(*self) < fam_idx(*other)),
    {
        self.index() < other.index()
    }

    /// Whether this family ranks strictly higher.
    pub fn gt(&self, other: &Family) -> (r: bool)
        ensures
            r == (fam_idx(*self) > fam_idx(*other)),
    {
        self.index() > other.index()
    }

    /// Whether the family covers four-byte addresses.
    pub fn is_v4(&self) -> (r: bool)
        ensures
            r == (*self == Family::V4 || *self == Family::Any),
    {
        matches!(self, Family::V4 | Family::Any)
    }

    /// Whether the family covers sixteen-byte addresses.
    pub fn is_v6(&self) -> (r: bool)
        ensures
            r == (*self == Family::V6 || *self == Family::Any),
    {
        matches!(self, Family::V6 | Family::Any)
    }

    /// Whether the family covers both versions.
    pub fn is_any(&self) -> (r: bool)
        ensures
            r == (*self == Family::Any),
    {
        matches!(self, Family::Any)
    }

    /// Whether no family is named.
    pub fn is_none(&self) -> (r: bool)
        ensures
            r == (*self == Family::Unset),
    {
        matches!(self, Family::Unset)
    }
}

/// A network mask held as raw bytes, tagged by family.
#[derive(Debug, Clone, PartialEq, Eq)]
pub enum Mask {
    Any(Vec<u8>),
    V4([u8; 4]),
    V6([u8; 16]),
    Unset,
}

/// The byte a contiguous mask of `p` leading one bits has at index `i`.
pub open spec fn pfx_byte(p: int, i: int) -> u8 {
    let remain = p - 8 * i;
    if remain >= 8 {
        0xFFu8
    } else if remain > 0 {
        !(0xFFu8 >> (remain as u8))
    } else {
        0u8
    }
}

/// Bit `j` of a byte sequence, most significant bit of each byte first.
pub open spec fn mask_bit(b: Seq<u8>, j: int) -> bool {
    (b[j / 8] >> ((7 - (j % 8)) as u8)) & 1 == 1
}

/// The number of leading one bits from position `j` on.
pub open spec fn lead_ones(b: Seq<u8>, j: int) -> int
    decreases 8 * b.len() - j,
{
    if j < 0 || j >= 8 * b.len() {
        j
    } else if mask_bit(b, j) {
        lead_ones(b, j + 1)
    } else {
        j
    }
}

/// Every bit from position `j` on is zero.
pub open spec fn rest_zero(b: Seq<u8>, j: int) -> bool {
    forall|k: int| j <= k < 8 * b.len() ==> !mask_bit(b, k)
}

/// The prefix length of a byte sequence: the count of leading one bits,
/// defined only when no one bit follows the first zero bit.
pub open spec fn spec_pfxlen(b: Seq<u8>) -> Option<u8> {
    let p = lead_ones(b, 0);
    if rest_zero(b, p) {
        Option::Some(p as u8)
    } else {
        Option::None
    }
}

/// Bit `t` of a contiguous-mask byte is set exactly when `t` lies below
/// the byte's remaining prefix bits.
proof fn lemma_pfx_byte_bit(p: int, q: int, t: int)
    requires
        0 <= p,
        0 <= q,
        0 <= t < 8,
    ensures
        ((pfx_byte(p, q) >> ((7 - t) as u8)) & 1 == 1) <==> (8 * q + t < p),
{
    let rem = p - 8 * q;
    if rem >= 8 {
        let tt = t as u8;
        assert((0xFFu8 >> ((7 - tt) as u8)) & 1 == 1) by (bit_vector)
            requires
                tt < 8,
        ;
    } else if rem > 0 {
        let r8 = rem as u8;
        let tt = t as u8;
        assert(((!(0xFFu8 >> r8)) >> ((7 - tt) as u8)) & 1 == 1 <==> tt < r8) by (bit_vector)
            requires
                0 < r8 < 8,
                tt < 8,
        ;
    } else {
        let tt = t as u8;
        assert((0u8 >> ((7 - tt) as u8)) & 1 == 0) by (bit_vector)
            requires
                tt < 8,
        ;
    }
}

/// The leading ones of a contiguous mask stop exactly at the prefix.
proof fn lemma_pfx_lead_ones(b: Seq<u8>, p: int, j: int)
    requires
        0 <= p <= 8 * b.len(),
        0 <= j <= p,
        forall|i: int| 0 <= i < b.len() ==> b[i] == pfx_byte(p, i),
    ensures
        lead_ones(b, j) == p,
    decreases p - j,
{
    if j < 8 * b.len() {
        lemma_pfx_byte_bit(p, j / 8, j % 8);
        assert(b[j / 8] == pfx_byte(p, j / 8));
        assert(mask_bit(b, j) <==> j < p);
    }
    if j == p {
        if j < 8 * b.len() {
            assert(!mask_bit(b, j));
        }
    } else {
        assert(mask_bit(b, j));
        lemma_pfx_lead_ones(b, p, j + 1);
    }
}

/// Reading the prefix length back from a contiguous mask returns exactly
/// the length the mask was built from: the two conversions invert one
/// another, and only contiguous masks have a prefix length at all.
pub proof fn lemma_mask_prefix_round_trip(b: Seq<u8>, p: int)
    requires
        0 <= p <= 8 * b.len(),
        forall|i: int| 0 <= i < b.len() ==> b[i] == pfx_byte(p, i),
    ensures
        spec_pfxlen(b) == Option::Some(p as u8),
{
    lemma_pfx_lead_ones(b, p, 0);
    assert forall|k: int| p <= k < 8 * b.len() implies !mask_bit(b, k) by {
        lemma_pfx_byte_bit(p, k / 8, k % 8);
    }
}

/// Copy a byte vector.
fn copy_bytes(v: &Vec<u8>) -> (r: Vec<u8>)
    ensures
        r@ == v@,
{
    let mut out: Vec<u8> = Vec::new();
    let mut i: usize = 0;
    while i < v.len()
        invariant
            i <= v@.len(),
            out@ == v@.take(i as int),
        decreases v@.len() - i,
    {
        out.push(v[i]);
        proof {
            assert(out@ =~= v@.take(i + 1));
        }
        i = i + 1;
    }
    proof {
        assert(v@.take(v@.len() as int) =~= v@);
    }
    out
}

/// The prefix length of a mask held in a byte vector.
fn pfxlen_of_bytes(v: &Vec<u8>) -> (r: Option<u8>)
    requires
        v@.len() <= 16,
    ensures
        r == spec_pfxlen(v@),
{
    let n = v.len();
    let total = 8 * n;
    let mut j: usize = 0;
    while j < total && (v[j / 8] >> ((7 - (j % 8)) as u8)) & 1 == 1
        invariant
            n == v@.len(),
            total == 8 * n,
            j <= total,
            lead_ones(v@, 0) == lead_ones(v@, j as int),
        decreases total - j,
    {
        j = j + 1;
    }
    proof {
        assert(lead_ones(v@, j as int) == j);
    }
    let p = j;
    let mut k: usize = j;
    while k < total
        invariant
            n == v@.len(),
            total == 8 * n,
            p <= k <= total,
            p == lead_ones(v@, 0),
            forall|t: int| p <= t < k ==> !mask_bit(v@, t),
        decreases total - k,
    {
        if (v[k / 8] >> ((7 - (k % 8)) as u8)) & 1 == 1 {
            proof {
                assert(mask_bit(v@, k as int));
            }
            return None;
        }
        k = k + 1;
    }
    Some(p as u8)
}

/// One byte of a contiguous mask with `prefixlen` leading one bits.
fn pfx_byte_exec(prefixlen: u8, i: usize) -> (r: u8)
    requires
        i < 16,
    ensures
        r == pfx_byte(prefixlen as int, i as int),
{
    let base = 8 * i;
    if prefixlen as usize >= base + 8 {
        0xFF
    } else if prefixlen as usize > base {
        let remain = (prefixlen as usize - base) as u8;
        !(0xFFu8 >> remain)
    } else {
        0
    }
}

/// Build the byte vector of a contiguous mask.
fn pfx_bytes_exec(prefixlen: u8, len: usize) -> (r: Vec<u8>)
    requires
        len <= 16,
    ensures
        r@.len() == len,
        forall|i: int| 0 <= i < len ==> r@[i] == pfx_byte(prefixlen as int, i),
{
    let mut out: Vec<u8> = Vec::new();
    let mut i: usize = 0;
    while i < len
        invariant
            len <= 16,
            i <= len,
            out@.len() == i,
            forall|k: int| 0 <= k < i ==> out@[k] == pfx_byte(prefixlen as int, k),
        decreases len - i,
    {
        out.push(pfx_byte_exec(prefixlen, i));
        i = i + 1;
    }
    out
}

/// Render sixteen bytes as eight colon-separated upper-case hex pairs.
#[verifier::rlimit(100)]
fn hex_pairs_string(a: &[u8; 16]) -> (r: String)
    ensures
        r@ == hex_pairs(a@),
{
    let mut out = String::new();
    crate::text::push_upper_hex_pair(&mut out, a[0]);
    crate::text::push_upper_hex_pair(&mut out, a[1]);
    push_char(&mut out, ':');
    crate::text::push_upper_hex_pair(&mut out, a[2]);
    crate::text::push_upper_hex_pair(&mut out, a[3]);
    push_char(&mut out, ':');
    crate::text::push_upper_hex_pair(&mut out, a[4]);
    crate::text::push_upper_hex_pair(&mut out, a[5]);
    push_char(&mut out, ':');
    crate::text::push_upper_hex_pair(&mut out, a[6]);
    crate::text::push_upper_hex_pair(&mut out, a[7]);
    push_char(&mut out, ':');
    crate::text::push_upper_hex_pair(&mut out, a[8]);
    crate::text::push_upper_hex_pair(&mut out, a[9]);
    push_char(&mut out, ':');
    crate::text::push_upper_hex_pair(&mut out, a[10]);
    crate::text::push_upper_hex_pair(&mut out, a[11]);
    push_char(&mut out, ':');
    crate::text::push_upper_hex_pair(&mut out, a[12]);
    crate::text::push_upper_hex_pair(&mut out, a[13]);
    push_char(&mut out, ':');
    crate::text::push_upper_hex_pair(&mut out, a[14]);
    crate::text::push_upper_hex_pair(&mut out, a[15]);
    proof {
        assert(out@ =~= hex_pairs(a@));
    }
    out
}

impl Mask {
    /// A zero mask of the given family.
    pub fn new(family: Family) -> (r: Mask)
        ensures
            family == Family::Any ==> (r matches Mask::Any(v) && v@ =~= Seq::<u8>::empty()),
            family == Family::V4 ==> (r matches Mask::V4(a) && a@ =~= seq![0u8, 0u8, 0u8, 0u8]),
            family == Family::V6 ==> (r matches Mask::V6(a) && a@.len() == 16 && forall|i: int|
                0 <= i < 16 ==> a@[i] == 0u8),
            family == Family::Unset ==> r == Mask::Unset,
    {
        match family {
            Family::Any => Mask::Any(Vec::new()),
            Family::V4 => Mask::V4([0; 4]),
            Family::V6 => Mask::V6([0; 16]),
            Family::Unset => Mask::Unset,
        }
    }

    /// A fresh copy of the mask.
    pub fn clone(&self) -> (r: Mask)
        ensures
            self matches Mask::Any(_) ==> (r matches Mask::Any(w) && w@ == self.spec_bytes()),
            !(self matches Mask::Any(_)) ==> r == *self,
    {
        match self {
            Mask::Any(v) => Mask::Any(copy_bytes(v)),
            Mask::V4(a) => Mask::V4(*a),
            Mask::V6(a) => Mask::V6(*a),
            Mask::Unset => Mask::Unset,
        }
    }

    /// The number of bytes held.
    pub fn len(&self) -> (r: usize)
        ensures
            r == self.spec_bytes().len(),
    {
        match self {
            Mask::Any(v) => v.len(),
            Mask::V4(_) => 4,
            Mask::V6(_) => 16,
            Mask::Unset => 0,
        }
    }

    /// The raw bytes of the mask.
    pub open spec fn spec_bytes(self) -> Seq<u8> {
        match self {
            Mask::Any(v) => v@,
            Mask::V4(a) => a@,
            Mask::V6(a) => a@,
            Mask::Unset => Seq::empty(),
        }
    }

    /// The family of the mask.
    pub fn family(&self) -> (r: Family)
        ensures
            r == (match *self {
                Mask::Any(_) => Family::Any,
                Mask::V4(_) => Family::V4,
                Mask::V6(_) => Family::V6,
                Mask::Unset => Family::Unset,
            }),
    {
        match self {
            Mask::Any(_) => Family::Any,
            Mask::V4(_) => Family::V4,
            Mask::V6(_) => Family::V6,
            Mask::Unset => Family::Unset,
        }
    }

    /// The raw bytes as a growable vector.
    pub fn to_vec(&self) -> (r: Vec<u8>)
        ensures
            r@ == self.spec_bytes(),
    {
        match self {
            Mask::Any(v) => copy_bytes(v),
            Mask::V4(a) => {
                let mut out: Vec<u8> = Vec::new();
                out.push(a[0]);
                out.push(a[1]);
                out.push(a[2]);
                out.push(a[3]);
                proof {
                    assert(out@ =~= self.spec_bytes());
                }
                out
            },
            Mask::V6(a) => {
                let mut out: Vec<u8> = Vec::new();
                let mut i: usize = 0;
                while i < 16
                    invariant
                        i <= 16,
                        out@ =~= a@.take(i as int),
                        *self == Mask::V6(*a),
                    decreases 16 - i,
                {
                    out.push(a[i]);
                    proof {
                        assert(out@ =~= a@.take(i + 1));
                    }
                    i = i + 1;
                }
                proof {
                    assert(a@.take(16) =~= a@);
                }
                out
            },
            Mask::Unset => Vec::new(),
        }
    }

    /// Pack bytes under a family tag: four bytes for v4, sixteen for v6,
    /// one to sixteen bytes for the mixed family -- a mask is never wider
    /// than an address; wrong lengths give no mask.
    pub fn from_vec(family: Family, v: Vec<u8>) -> (r: Mask)
        ensures
            family == Family::Any && 0 < v@.len() <= 16 ==> (r matches Mask::Any(w) && w@ == v@),
            family == Family::Any && (v@.len() == 0 || v@.len() > 16) ==> r == Mask::Unset,
            family == Family::V4 && v@.len() == 4 ==> (r matches Mask::V4(a) && a@ =~= v@),
            family == Family::V4 && v@.len() != 4 ==> r == Mask::Unset,
            family == Family::V6 && v@.len() == 16 ==> (r matches Mask::V6(a) && a@ =~= v@),
            family == Family::V6 && v@.len() != 16 ==> r == Mask::Unset,
            family == Family::Unset ==> r == Mask::Unset,
    {
        match family {
            Family::Any => {
                if v.len() == 0 || v.len() > 16 {
                    Mask::Unset
                } else {
                    Mask::Any(v)
                }
            },
            Family::V4 => {
                if v.len() == 4 {
                    Mask::V4([v[0], v[1], v[2], v[3]])
                } else {
                    Mask::Unset
                }
            },
            Family::V6 => {
                if v.len() == 16 {
                    let a = [
                        v[0],
                        v[1],
                        v[2],
                        v[3],
                        v[4],
                        v[5],
                        v[6],
                        v[7],
                        v[8],
                        v[9],
                        v[10],
                        v[11],
                        v[12],
                        v[13],
                        v[14],
                        v[15],
                    ];
                    proof {
                        assert(a@ =~= v@);
                    }
                    Mask::V6(a)
                } else {
                    Mask::Unset
                }
            },
            Family::Unset => Mask::Unset,
        }
    }

    /// The prefix length of the mask: the count of leading one bits, or
    /// nothing when the one bits are not one contiguous leading run.
    pub fn to_pfxlen(&self) -> (r: Option<u8>)
        requires
            self.spec_bytes().len() <= 16,
        ensures
            *self == Mask::Unset ==> r is None,
            *self != Mask::Unset ==> r == spec_pfxlen(self.spec_bytes()),
    {
        match self {
            Mask::Unset => None,
            _ => {
                let bytes = self.to_vec();
                pfxlen_of_bytes(&bytes)
            },
        }
    }

    /// The contiguous mask of a prefix length: all-ones down to the prefix
    /// boundary, zeros after it; lengths beyond the family width give no
    /// mask, and the mixed family special-cases the two full widths.
    pub fn from_pfxlen(family: Family, prefixlen: u8) -> (r: Mask)
        ensures
            family == Family::Unset ==> r == Mask::Unset,
            family == Family::V4 && prefixlen > 32 ==> r == Mask::Unset,
            family == Family::V4 && prefixlen <= 32 ==> (r matches Mask::V4(a) && forall|i: int|
                0 <= i < 4 ==> a@[i] == pfx_byte(prefixlen as int, i)),
            family == Family::V6 && prefixlen > 128 ==> r == Mask::Unset,
            family == Family::V6 && prefixlen <= 128 ==> (r matches Mask::V6(a) && forall|i: int|
                0 <= i < 16 ==> a@[i] == pfx_byte(prefixlen as int, i)),
            family == Family::Any && prefixlen == 0 ==> r == Mask::Unset,
            family == Family::Any && prefixlen == 32 ==> (r matches Mask::Any(v) && v@.len() == 4
                && forall|i: int| 0 <= i < 4 ==> v@[i] == 0xFFu8),
            family == Family::Any && prefixlen == 128 ==> (r matches Mask::Any(v) && v@.len() == 16
                && forall|i: int| 0 <= i < 16 ==> v@[i] == 0xFFu8),
            family == Family::Any && prefixlen > 128 ==> r == Mask::Unset,
            family == Family::Any && prefixlen != 0 && prefixlen != 32 && prefixlen != 128
                && prefixlen <= 128 ==> (r matches Mask::Any(v) && v@.len() == 16 && forall|i: int|
                0 <= i < 16 ==> v@[i] == pfx_byte(prefixlen as int, i)),
    {
        match family {
            Family::Any => {
                if prefixlen == 0 {
                    Mask::Unset
                } else if prefixlen == 32 {
                    let mut out: Vec<u8> = Vec::new();
                    let mut i: usize = 0;
                    while i < 4
                        invariant
                            i <= 4,
                            out@.len() == i,
                            forall|k: int| 0 <= k < i ==> out@[k] == 0xFFu8,
                        decreases 4 - i,
                    {
                        out.push(0xFF);
                        i = i + 1;
                    }
                    Mask::Any(out)
                } else if prefixlen == 128 {
                    let mut out: Vec<u8> = Vec::new();
                    let mut i: usize = 0;
                    while i < 16
                        invariant
                            i <= 16,
                            out@.len() == i,
                            forall|k: int| 0 <= k < i ==> out@[k] == 0xFFu8,
                        decreases 16 - i,
                    {
                        out.push(0xFF);
                        i = i + 1;
                    }
                    Mask::Any(out)
                } else if prefixlen > 128 {
                    Mask::Unset
                } else {
                    Mask::Any(pfx_bytes_exec(prefixlen, 16))
                }
            },
            Family::V4 => {
                if prefixlen > 32 {
                    Mask::Unset
                } else {
                    let v = pfx_bytes_exec(prefixlen, 4);
                    Mask::V4([v[0], v[1], v[2], v[3]])
                }
            },
            Family::V6 => {
                if prefixlen > 128 {
                    Mask::Unset
                } else {
                    let v = pfx_bytes_exec(prefixlen, 16);
                    let a = [
                        v[0],
                        v[1],
                        v[2],
                        v[3],
                        v[4],
                        v[5],
                        v[6],
                        v[7],
                        v[8],
                        v[9],
                        v[10],
                        v[11],
                        v[12],
                        v[13],
                        v[14],
                        v[15],
                    ];
                    Mask::V6(a)
                }
            },
            Family::Unset => Mask::Unset,
        }
    }

    /// Read a mask from dotted-decimal bytes (four pieces) or from
    /// colon-separated decimal bytes (eight or sixteen pieces, empty ones
    /// counting as zero); anything else gives no mask.
    pub fn from_str(s: &str) -> (r: Mask)
        ensures
            spec_mask_parse(s@) is None ==> r == Mask::Unset,
            spec_mask_parse(s@) is Some && spec_mask_parse(s@).unwrap().0 ==> (r matches Mask::V4(a)
                && a@ =~= spec_mask_parse(s@).unwrap().1),
            spec_mask_parse(s@) is Some && !spec_mask_parse(s@).unwrap().0 ==> (r matches Mask::V6(
                a,
            ) && a@ =~= spec_mask_parse(s@).unwrap().1),
    {
        let t = trim_exec(s);
        let n = t.unicode_len();
        if n == 0 {
            return Mask::Unset;
        }
        let has_dot = find_char_exec(t, '.').is_some();
        let has_colon = find_char_exec(t, ':').is_some();
        if has_dot && !has_colon {
            match parse_u8_parts(t, '.', false) {
                Some(v) if v.len() == 4 => Mask::V4([v[0], v[1], v[2], v[3]]),
                _ => Mask::Unset,
            }
        } else if has_colon && !has_dot {
            match parse_u8_parts(t, ':', true) {
                Some(v) if v.len() == 8 => {
                    let a = [
                        v[0],
                        v[1],
                        v[2],
                        v[3],
                        v[4],
                        v[5],
                        v[6],
                        v[7],
                        0u8,
                        0u8,
                        0u8,
                        0u8,
                        0u8,
                        0u8,
                        0u8,
                        0u8,
                    ];
                    Mask::V6(a)
                },
                Some(v) if v.len() == 16 => {
                    let a = [
                        v[0],
                        v[1],
                        v[2],
                        v[3],
                        v[4],
                        v[5],
                        v[6],
                        v[7],
                        v[8],
                        v[9],
                        v[10],
                        v[11],
                        v[12],
                        v[13],
                        v[14],
                        v[15],
                    ];
                    Mask::V6(a)
                },
                _ => Mask::Unset,
            }
        } else {
            Mask::Unset
        }
    }

    /// Render v4 masks as dotted decimal, v6 masks as colon-separated
    /// upper-case hex byte pairs, mixed masks as decimal joined by dots or
    /// colons depending on length, and no mask as empty text.
    #[verifier::rlimit(100)]
    pub fn to_string(&self) -> (r: String)
        ensures
            r@ == spec_mask_str(*self),
    {
        match self {
            Mask::Unset => String::new(),
            Mask::V4(a) => {
                let mut out = u32_to_dec(a[0] as u32);
                push_char(&mut out, '.');
                let d1 = u32_to_dec(a[1] as u32);
                out.append(d1.as_str());
                push_char(&mut out, '.');
                let d2 = u32_to_dec(a[2] as u32);
                out.append(d2.as_str());
                push_char(&mut out, '.');
                let d3 = u32_to_dec(a[3] as u32);
                out.append(d3.as_str());
                proof {
                    assert(out@ =~= spec_mask_str(*self));
                }
                out
            },
            Mask::V6(a) => hex_pairs_string(a),
            Mask::Any(v) => {
                if v.len() == 4 {
                    let mut out = u32_to_dec(v[0] as u32);
                    push_char(&mut out, '.');
                    let d1 = u32_to_dec(v[1] as u32);
                    out.append(d1.as_str());
                    push_char(&mut out, '.');
                    let d2 = u32_to_dec(v[2] as u32);
                    out.append(d2.as_str());
                    push_char(&mut out, '.');
                    let d3 = u32_to_dec(v[3] as u32);
                    out.append(d3.as_str());
                    proof {
                        assert(out@ =~= spec_mask_str(*self));
                    }
                    out
                } else if v.len() == 16 {
                    let mut out = String::new();
                    let mut i: usize = 0;
                    while i < 16
                        invariant
                            i <= 16,
                            v@.len() == 16,
                            out@ == dec_joined(v@.take(i as int)),
                        decreases 16 - i,
                    {
                        if i > 0 {
                            push_char(&mut out, ':');
                        }
                        let d = u32_to_dec(v[i] as u32);
                        out.append(d.as_str());
                        proof {
                            assert(v@.take(i + 1).drop_last() =~= v@.take(i as int));
                            assert(v@.take(i + 1).last() == v@[i as int]);
                            assert(v@.take(i + 1)[0] == v@[0]);
                            assert(out@ =~= dec_joined(v@.take(i + 1)));
                        }
                        i = i + 1;
                    }
                    proof {
                        assert(v@.take(16) =~= v@);
                    }
                    out
                } else {
                    String::new()
                }
            },
        }
    }

    /// Whether the text reads as a mask of the given family.
    pub fn is_valid_str(s: &str, family: Family) -> (r: bool)
        ensures
            family == Family::V4 ==> r == spec_valid_mask4(s@),
            family == Family::V6 ==> r == spec_valid_mask6(s@),
            family == Family::Any ==> r == (spec_valid_mask4(s@) || spec_valid_mask6(s@)),
            family == Family::Unset ==> r == false,
    {
        match family {
            Family::Any => Mask::is_valid_ip4_str(s) || Mask::is_valid_ip6_str(s),
            Family::V4 => Mask::is_valid_ip4_str(s),
            Family::V6 => Mask::is_valid_ip6_str(s),
            Family::Unset => false,
        }
    }

    /// Whether the text reads as four dotted decimal bytes.
    fn is_valid_ip4_str(s: &str) -> (r: bool)
        ensures
            r == spec_valid_mask4(s@),
    {
        let t = trim_exec(s);
        match parse_u8_parts(t, '.', false) {
            Some(v) => v.len() == 4,
            None => false,
        }
    }

    /// Whether the text reads as eight or sixteen colon-separated decimal
    /// bytes, empty pieces counting as zero.
    fn is_valid_ip6_str(s: &str) -> (r: bool)
        ensures
            r == spec_valid_mask6(s@),
    {
        let t = trim_exec(s);
        match parse_u8_parts(t, ':', true) {
            Some(v) => v.len() == 8 || v.len() == 16,
            None => false,
        }
    }

    /// Whether the mask carries the mixed family tag.
    pub fn is_any(&self) -> (r: bool)
        ensures
            r == (self matches Mask::Any(_)),
    {
        matches!(self, Mask::Any(_))
    }

    /// Whether the mask is a four-byte mask.
    pub fn is_ip4(&self) -> (r: bool)
        ensures
            r == (self matches Mask::V4(_)),
    {
        matches!(self, Mask::V4(_))
    }

    /// Whether the mask is a sixteen-byte mask.
    pub fn is_ip6(&self) -> (r: bool)
        ensures
            r == (self matches Mask::V6(_)),
    {
        matches!(self, Mask::V6(_))
    }

    /// Whether there is no mask at all.
    pub fn is_none(&self) -> (r: bool)
        ensures
            r == (*self == Mask::Unset),
    {
        matches!(self, Mask::Unset)
    }
}

/// What mask text names: a v4 flag and the bytes, or nothing.
pub open spec fn spec_mask_parse(s: Seq<char>) -> Option<(bool, Seq<u8>)> {
    let t = spec_trim(s);
    if t.len() == 0 {
        Option::None
    } else if find_char(t, '.') >= 0 && find_char(t, ':') < 0 {
        match fold_u8_parts(split_on(t, '.'), false, Seq::empty()) {
            Option::None => Option::None,
            Option::Some(v) => if v.len() == 4 {
                Option::Some((true, v))
            } else {
                Option::None
            },
        }
    } else if find_char(t, ':') >= 0 && find_char(t, '.') < 0 {
        match fold_u8_parts(split_on(t, ':'), true, Seq::empty()) {
            Option::None => Option::None,
            Option::Some(v) => if v.len() == 8 {
                Option::Some((false, v + seq![0u8, 0u8, 0u8, 0u8, 0u8, 0u8, 0u8, 0u8]))
            } else if v.len() == 16 {
                Option::Some((false, v))
            } else {
                Option::None
            },
        }
    } else {
        Option::None
    }
}

/// Four dotted decimal numerals.
pub open spec fn dotted_dec(b: Seq<u8>) -> Seq<char> {
    dec_digits(b[0] as nat) + seq!['.'] + dec_digits(b[1] as nat) + seq!['.'] + dec_digits(
        b[2] as nat,
    ) + seq!['.'] + dec_digits(b[3] as nat)
}

/// Decimal numerals joined by colons.
pub open spec fn dec_joined(b: Seq<u8>) -> Seq<char>
    decreases b.len(),
{
    if b.len() == 0 {
        Seq::empty()
    } else if b.len() == 1 {
        dec_digits(b[0] as nat)
    } else {
        dec_joined(b.drop_last()) + seq![':'] + dec_digits(b.last() as nat)
    }
}

/// Sixteen bytes as eight colon-separated upper-case hex pairs.
pub open spec fn hex_pairs(b: Seq<u8>) -> Seq<char> {
    upper_hex_pair(b[0]) + upper_hex_pair(b[1]) + seq![':'] + upper_hex_pair(b[2]) + upper_hex_pair(
        b[3],
    ) + seq![':'] + upper_hex_pair(b[4]) + upper_hex_pair(b[5]) + seq![':'] + upper_hex_pair(b[6])
        + upper_hex_pair(b[7]) + seq![':'] + upper_hex_pair(b[8]) + upper_hex_pair(b[9]) + seq![':']
        + upper_hex_pair(b[10]) + upper_hex_pair(b[11]) + seq![':'] + upper_hex_pair(b[12])
        + upper_hex_pair(b[13]) + seq![':'] + upper_hex_pair(b[14]) + upper_hex_pair(b[15])
}

/// The text of a mask.
pub open spec fn spec_mask_str(m: Mask) -> Seq<char> {
    match m {
        Mask::Unset => Seq::empty(),
        Mask::V4(a) => dotted_dec(a@),
        Mask::V6(a) => hex_pairs(a@),
        Mask::Any(v) => if v@.len() == 4 {
            dotted_dec(v@)
        } else if v@.len() == 16 {
            dec_joined(v@)
        } else {
            Seq::empty()
        },
    }
}

/// Whether the text reads as four dotted decimal bytes.
pub open spec fn spec_valid_mask4(s: Seq<char>) -> bool {
    let f = fold_u8_parts(split_on(spec_trim(s), '.'), false, Seq::empty());
    f is Some && f.unwrap().len() == 4
}

/// Whether the text reads as eight or sixteen colon-separated decimal
/// bytes, empty pieces counting as zero.
pub open spec fn spec_valid_mask6(s: Seq<char>) -> bool {
    let f = fold_u8_parts(split_on(spec_trim(s), ':'), true, Seq::empty());
    f is Some && (f.unwrap().len() == 8 || f.unwrap().len() == 16)
}

/// An address with its prefix, held as raw bytes: four address bytes and
/// a prefix byte for v4, sixteen and one for v6, either layout under the
/// mixed tag.
#[derive(Debug, Clone, PartialEq, Eq)]
pub enum Ip {
    Any(Vec<u8>),
    V4([u8; 5]),
    V6([u8; 17]),
    Unset,
}

/// The network mask of a v6 prefix length.
pub open spec fn mask128_of(p: u8) -> u128 {
    if p == 0 {
        0u128
    } else {
        (0xFFFF_FFFF_FFFF_FFFF_FFFF_FFFF_FFFF_FFFFu128 << ((128 - p) as u128)) as u128
    }
}

/// The raw bytes of an address value.
pub open spec fn ip_bytes(ip: Ip) -> Seq<u8> {
    match ip {
        Ip::Any(v) => v@,
        Ip::V4(a) => a@,
        Ip::V6(a) => a@,
        Ip::Unset => Seq::empty(),
    }
}

/// The 32-bit value of the first four bytes.
pub open spec fn addr4_of(b: Seq<u8>) -> u32 {
    ((b[0] as nat) * 0x100_0000 + (b[1] as nat) * 0x1_0000 + (b[2] as nat) * 0x100 + (
    b[3] as nat)) as u32
}

/// The 128-bit value of the first sixteen bytes.
pub open spec fn addr16_of(b: Seq<u8>) -> u128 {
    crate::net::v6::Net::spec_addr_of_bytes(b) as u128
}

/// Five block bytes: a 32-bit value big-endian, then the prefix byte.
pub open spec fn block4_bytes(x: u32, p: u8) -> Seq<u8> {
    seq![
        crate::net::v4::be_byte(x, 0),
        crate::net::v4::be_byte(x, 1),
        crate::net::v4::be_byte(x, 2),
        crate::net::v4::be_byte(x, 3),
        p,
    ]
}

/// Seventeen block bytes: a 128-bit value big-endian, then the prefix byte.
pub open spec fn block16_bytes(x: u128, p: u8) -> Seq<u8> {
    seq![
        (x >> 120u128) as u8,
        (x >> 112u128) as u8,
        (x >> 104u128) as u8,
        (x >> 96u128) as u8,
        (x >> 88u128) as u8,
        (x >> 80u128) as u8,
        (x >> 72u128) as u8,
        (x >> 64u128) as u8,
        (x >> 56u128) as u8,
        (x >> 48u128) as u8,
        (x >> 40u128) as u8,
        (x >> 32u128) as u8,
        (x >> 24u128) as u8,
        (x >> 16u128) as u8,
        (x >> 8u128) as u8,
        x as u8,
        p,
    ]
}

/// Whether an address yields no derived value: no value at all, or a
/// mixed-tag byte count that is neither layout.
pub open spec fn ip_op_none(ip: Ip) -> bool {
    match ip {
        Ip::Unset => true,
        Ip::Any(v) => v@.len() != 5 && v@.len() != 17,
        _ => false,
    }
}

/// The clamped prefix of a v4 layout.
pub open spec fn clamp32(p: u8) -> u8 {
    if p <= 32 {
        p
    } else {
        32u8
    }
}

/// The clamped prefix of a v6 layout.
pub open spec fn clamp128(p: u8) -> u8 {
    if p <= 128 {
        p
    } else {
        128u8
    }
}

/// The bytes of the lowest address of a block, prefix byte included.
pub open spec fn spec_ip_network_bytes(ip: Ip) -> Seq<u8> {
    let b = ip_bytes(ip);
    if b.len() == 5 {
        let p = clamp32(b[4]);
        block4_bytes(addr4_of(b) & crate::net::v4::mask_of(p), p)
    } else if b.len() == 17 {
        let p = clamp128(b[16]);
        let out = block16_bytes(addr16_of(b) & mask128_of(p), p);
        if ip matches Ip::Any(_) {
            out.update(16, b[16])
        } else {
            out
        }
    } else {
        Seq::empty()
    }
}

/// The bytes of the highest address of a block, prefix byte included.
pub open spec fn spec_ip_broadcast_bytes(ip: Ip) -> Seq<u8> {
    let b = ip_bytes(ip);
    if b.len() == 5 {
        let p = clamp32(b[4]);
        block4_bytes(addr4_of(b) | !crate::net::v4::mask_of(p), p)
    } else if b.len() == 17 {
        let p = clamp128(b[16]);
        block16_bytes(addr16_of(b) | !mask128_of(p), p)
    } else {
        Seq::empty()
    }
}

/// The bytes of the mask's complement -- the block size minus one, with
/// the prefix byte appended; independent of the stored address.
pub open spec fn spec_ip_wildcard_bytes(ip: Ip) -> Seq<u8> {
    let b = ip_bytes(ip);
    if b.len() == 5 {
        let p = clamp32(b[4]);
        block4_bytes(!crate::net::v4::mask_of(p), p)
    } else if b.len() == 17 {
        let p = clamp128(b[16]);
        block16_bytes(!mask128_of(p), p)
    } else {
        Seq::empty()
    }
}

/// Lexicographic byte order.
pub open spec fn lex_cmp(a: Seq<u8>, b: Seq<u8>) -> core::cmp::Ordering
    decreases a.len(),
{
    if a.len() == 0 && b.len() == 0 {
        core::cmp::Ordering::Equal
    } else if a.len() == 0 {
        core::cmp::Ordering::Less
    } else if b.len() == 0 {
        core::cmp::Ordering::Greater
    } else if a[0] < b[0] {
        core::cmp::Ordering::Less
    } else if a[0] > b[0] {
        core::cmp::Ordering::Greater
    } else {
        lex_cmp(a.drop_first(), b.drop_first())
    }
}

/// The order of two possibly missing byte strings: a missing value sorts
/// below every present one, present values sort lexicographically.
pub open spec fn cmp_opt_bytes(an: bool, a: Seq<u8>, bn: bool, b: Seq<u8>) -> core::cmp::Ordering {
    if an && bn {
        core::cmp::Ordering::Equal
    } else if an {
        core::cmp::Ordering::Less
    } else if bn {
        core::cmp::Ordering::Greater
    } else {
        lex_cmp(a, b)
    }
}

/// The 32-bit value of the first four bytes of a vector.
fn addr4_of_vec(v: &Vec<u8>) -> (r: u32)
    requires
        v@.len() >= 4,
    ensures
        r == addr4_of(v@),
{
    (v[0] as u32) * 0x100_0000 + (v[1] as u32) * 0x1_0000 + (v[2] as u32) * 0x100 + (v[3] as u32)
}

/// The 128-bit value of the first sixteen bytes of a vector.
fn addr16_of_vec(v: &Vec<u8>) -> (r: u128)
    requires
        v@.len() >= 16,
    ensures
        r == addr16_of(v@),
{
    let mut acc: u128 = 0;
    acc = acc * 0x100 + (v[0] as u128);
    acc = acc * 0x100 + (v[1] as u128);
    acc = acc * 0x100 + (v[2] as u128);
    acc = acc * 0x100 + (v[3] as u128);
    acc = acc * 0x100 + (v[4] as u128);
    acc = acc * 0x100 + (v[5] as u128);
    acc = acc * 0x100 + (v[6] as u128);
    acc = acc * 0x100 + (v[7] as u128);
    acc = acc * 0x100 + (v[8] as u128);
    acc = acc * 0x100 + (v[9] as u128);
    acc = acc * 0x100 + (v[10] as u128);
    acc = acc * 0x100 + (v[11] as u128);
    acc = acc * 0x100 + (v[12] as u128);
    acc = acc * 0x100 + (v[13] as u128);
    acc = acc * 0x100 + (v[14] as u128);
    acc = acc * 0x100 + (v[15] as u128);
    acc
}

/// The network mask of a v6 prefix length.
fn mask128_exec(p: u8) -> (r: u128)
    requires
        p <= 128,
    ensures
        r == mask128_of(p),
{
    if p == 0 {
        0
    } else {
        0xFFFF_FFFF_FFFF_FFFF_FFFF_FFFF_FFFF_FFFFu128 << ((128 - p) as u32)
    }
}

/// Push the sixteen big-endian bytes of a value and one prefix byte.
fn push_block16(x: u128, p: u8) -> (r: Vec<u8>)
    ensures
        r@ =~= block16_bytes(x, p),
{
    let mut out: Vec<u8> = Vec::new();
    out.push((x >> 120u128) as u8);
    out.push((x >> 112u128) as u8);
    out.push((x >> 104u128) as u8);
    out.push((x >> 96u128) as u8);
    out.push((x >> 88u128) as u8);
    out.push((x >> 80u128) as u8);
    out.push((x >> 72u128) as u8);
    out.push((x >> 64u128) as u8);
    out.push((x >> 56u128) as u8);
    out.push((x >> 48u128) as u8);
    out.push((x >> 40u128) as u8);
    out.push((x >> 32u128) as u8);
    out.push((x >> 24u128) as u8);
    out.push((x >> 16u128) as u8);
    out.push((x >> 8u128) as u8);
    out.push(x as u8);
    out.push(p);
    proof {
        assert(out@ =~= block16_bytes(x, p));
    }
    out
}

/// Compare two byte vectors lexicographically.
fn lex_cmp_exec(a: &Vec<u8>, b: &Vec<u8>) -> (r: core::cmp::Ordering)
    ensures
        r == lex_cmp(a@, b@),
{
    let mut i: usize = 0;
    proof {
        assert(a@.skip(0) =~= a@);
        assert(b@.skip(0) =~= b@);
    }
    loop
        invariant
            i <= a@.len(),
            i <= b@.len(),
            lex_cmp(a@, b@) == lex_cmp(a@.skip(i as int), b@.skip(i as int)),
        decreases a@.len() - i,
    {
        let a_end = i >= a.len();
        let b_end = i >= b.len();
        if a_end && b_end {
            proof {
                assert(a@.skip(i as int) =~= Seq::<u8>::empty());
                assert(b@.skip(i as int) =~= Seq::<u8>::empty());
            }
            return core::cmp::Ordering::Equal;
        }
        if a_end {
            proof {
                assert(a@.skip(i as int) =~= Seq::<u8>::empty());
                assert(b@.skip(i as int).len() > 0);
            }
            return core::cmp::Ordering::Less;
        }
        if b_end {
            proof {
                assert(b@.skip(i as int) =~= Seq::<u8>::empty());
                assert(a@.skip(i as int).len() > 0);
            }
            return core::cmp::Ordering::Greater;
        }
        let x = a[i];
        let y = b[i];
        proof {
            assert(a@.skip(i as int)[0] == a@[i as int]);
            assert(b@.skip(i as int)[0] == b@[i as int]);
            assert(a@.skip(i as int).drop_first() =~= a@.skip(i + 1));
            assert(b@.skip(i as int).drop_first() =~= b@.skip(i + 1));
        }
        if x < y {
            return core::cmp::Ordering::Less;
        }
        if x > y {
            return core::cmp::Ordering::Greater;
        }
        i = i + 1;
    }
}

impl Ip {
    /// A zero address of the given family.
    pub fn new(family: Family) -> (r: Ip)
        ensures
            family == Family::Any ==> (r matches Ip::Any(v) && v@ =~= Seq::<u8>::empty()),
            family == Family::V4 ==> (r matches Ip::V4(a) && a@ =~= seq![0u8, 0u8, 0u8, 0u8, 0u8]),
            family == Family::V6 ==> (r matches Ip::V6(a) && a@.len() == 17 && forall|i: int|
                0 <= i < 17 ==> a@[i] == 0u8),
            family == Family::Unset ==> r == Ip::Unset,
    {
        match family {
            Family::Any => Ip::Any(Vec::new()),
            Family::V4 => Ip::V4([0; 5]),
            Family::V6 => Ip::V6([0; 17]),
            Family::Unset => Ip::Unset,
        }
    }

    /// The family tag of the value.
    pub fn family(&self) -> (r: Family)
        ensures
            r == (match *self {
                Ip::Any(_) => Family::Any,
                Ip::V4(_) => Family::V4,
                Ip::V6(_) => Family::V6,
                Ip::Unset => Family::Unset,
            }),
    {
        match self {
            Ip::Any(_) => Family::Any,
            Ip::V4(_) => Family::V4,
            Ip::V6(_) => Family::V6,
            Ip::Unset => Family::Unset,
        }
    }

    /// The number of bytes held.
    pub fn len(&self) -> (r: usize)
        ensures
            r == ip_bytes(*self).len(),
    {
        match self {
            Ip::Any(v) => v.len(),
            Ip::V4(_) => 5,
            Ip::V6(_) => 17,
            Ip::Unset => 0,
        }
    }

    /// The address bytes without the prefix byte: four for v4, sixteen
    /// for v6; a mixed value keeps all its bytes.
    pub fn address(&self) -> (r: Vec<u8>)
        ensures
            self matches Ip::Any(_) ==> r@ == ip_bytes(*self),
            self matches Ip::V4(_) ==> r@ =~= ip_bytes(*self).take(4),
            self matches Ip::V6(_) ==> r@ =~= ip_bytes(*self).take(16),
            self matches Ip::Unset ==> r@ =~= Seq::<u8>::empty(),
    {
        match self {
            Ip::Any(v) => copy_bytes(v),
            Ip::V4(a) => {
                let mut out: Vec<u8> = Vec::new();
                out.push(a[0]);
                out.push(a[1]);
                out.push(a[2]);
                out.push(a[3]);
                out
            },
            Ip::V6(a) => {
                let mut out: Vec<u8> = Vec::new();
                let mut i: usize = 0;
                while i < 16
                    invariant
                        i <= 16,
                        out@ =~= a@.take(i as int),
                        *self == Ip::V6(*a),
                    decreases 16 - i,
                {
                    out.push(a[i]);
                    proof {
                        assert(out@ =~= a@.take(i + 1));
                    }
                    i = i + 1;
                }
                out
            },
            Ip::Unset => Vec::new(),
        }
    }

    /// The prefix byte: the last byte of either layout, zero otherwise.
    pub fn subnet(&self) -> (r: u8)
        ensures
            r == (if ip_bytes(*self).len() == 5 {
                ip_bytes(*self)[4]
            } else if ip_bytes(*self).len() == 17 {
                ip_bytes(*self)[16]
            } else {
                0u8
            }),
    {
        match self {
            Ip::Any(v) => {
                if v.len() == 5 {
                    v[4]
                } else if v.len() == 17 {
                    v[16]
                } else {
                    0
                }
            },
            Ip::V4(a) => a[4],
            Ip::V6(a) => a[16],
            Ip::Unset => 0,
        }
    }

    /// All bytes of the value.
    pub fn to_bytes(&self) -> (r: Vec<u8>)
        ensures
            r@ == ip_bytes(*self),
    {
        match self {
            Ip::Any(v) => copy_bytes(v),
            Ip::V4(a) => {
                let mut out: Vec<u8> = Vec::new();
                out.push(a[0]);
                out.push(a[1]);
                out.push(a[2]);
                out.push(a[3]);
                out.push(a[4]);
                proof {
                    assert(out@ =~= a@);
                }
                out
            },
            Ip::V6(a) => {
                let mut out: Vec<u8> = Vec::new();
                let mut i: usize = 0;
                while i < 17
                    invariant
                        i <= 17,
                        out@ =~= a@.take(i as int),
                        *self == Ip::V6(*a),
                    decreases 17 - i,
                {
                    out.push(a[i]);
                    proof {
                        assert(out@ =~= a@.take(i + 1));
                    }
                    i = i + 1;
                }
                proof {
                    assert(a@.take(17) =~= a@);
                }
                out
            },
            Ip::Unset => Vec::new(),
        }
    }

    /// Pack five bytes as a v4 value, seventeen as a v6 value; any other
    /// count holds no address.
    pub fn from_bytes(bytes: Vec<u8>) -> (r: Ip)
        ensures
            bytes@.len() == 5 ==> (r matches Ip::V4(a) && a@ =~= bytes@),
            bytes@.len() == 17 ==> (r matches Ip::V6(a) && a@ =~= bytes@),
            bytes@.len() != 5 && bytes@.len() != 17 ==> r == Ip::Unset,
    {
        if bytes.len() == 5 {
            Ip::V4([bytes[0], bytes[1], bytes[2], bytes[3], bytes[4]])
        } else if bytes.len() == 17 {
            Ip::V6(
                [
                    bytes[0],
                    bytes[1],
                    bytes[2],
                    bytes[3],
                    bytes[4],
                    bytes[5],
                    bytes[6],
                    bytes[7],
                    bytes[8],
                    bytes[9],
                    bytes[10],
                    bytes[11],
                    bytes[12],
                    bytes[13],
                    bytes[14],
                    bytes[15],
                    bytes[16],
                ],
            )
        } else {
            Ip::Unset
        }
    }

    /// The byte at an index; indexing an empty value is a caller error.
    pub fn index(&self, index: usize) -> (r: &u8)
        requires
            index < ip_bytes(*self).len(),
        ensures
            *r == ip_bytes(*self)[index as int],
    {
        match self {
            Ip::Any(v) => &v[index],
            Ip::V4(a) => &a[index],
            Ip::V6(a) => &a[index],
            Ip::Unset => unreached(),
        }
    }

    /// Whether the value carries the mixed tag.
    pub fn is_any(&self) -> (r: bool)
        ensures
            r == (self matches Ip::Any(_)),
    {
        matches!(self, Ip::Any(_))
    }

    /// Whether the value is a v4 layout.
    pub fn is_ip4(&self) -> (r: bool)
        ensures
            r == (self matches Ip::V4(_)),
    {
        matches!(self, Ip::V4(_))
    }

    /// Whether the value is a v6 layout.
    pub fn is_ip6(&self) -> (r: bool)
        ensures
            r == (self matches Ip::V6(_)),
    {
        matches!(self, Ip::V6(_))
    }

    /// Whether there is no address at all.
    pub fn is_none(&self) -> (r: bool)
        ensures
            r == (*self == Ip::Unset),
    {
        matches!(self, Ip::Unset)
    }

    /// The lowest address of the block the value describes.
    pub fn network(&self) -> (r: Ip)
        ensures
            self matches Ip::V4(_) ==> (r matches Ip::V4(out) && out@ == spec_ip_network_bytes(
                *self,
            )),
            self matches Ip::V6(_) ==> (r matches Ip::V6(out) && out@ == spec_ip_network_bytes(
                *self,
            )),
            self matches Ip::Any(_) && !ip_op_none(*self) ==> (r matches Ip::Any(out) && out@
                == spec_ip_network_bytes(*self)),
            ip_op_none(*self) ==> r == Ip::Unset,
    {
        match self {
            Ip::V4(a) => {
                let p = if a[4] <= 32 {
                    a[4]
                } else {
                    32
                };
                let x = (a[0] as u32) * 0x100_0000 + (a[1] as u32) * 0x1_0000 + (a[2] as u32)
                    * 0x100 + (a[3] as u32);
                let m = if p == 0 {
                    0u32
                } else {
                    0xFFFF_FFFFu32 << ((32 - p) as u32)
                };
                let y = x & m;
                let out = [
                    (y >> 24u32) as u8,
                    (y >> 16u32) as u8,
                    (y >> 8u32) as u8,
                    y as u8,
                    p,
                ];
                proof {
                    assert(out@ =~= spec_ip_network_bytes(*self));
                }
                Ip::V4(out)
            },
            Ip::V6(a) => {
                let p = if a[16] <= 128 {
                    a[16]
                } else {
                    128
                };
                let bytes = self.to_bytes();
                let x = addr16_of_vec(&bytes);
                let y = x & mask128_exec(p);
                let out_v = push_block16(y, p);
                let out = [
                    out_v[0],
                    out_v[1],
                    out_v[2],
                    out_v[3],
                    out_v[4],
                    out_v[5],
                    out_v[6],
                    out_v[7],
                    out_v[8],
                    out_v[9],
                    out_v[10],
                    out_v[11],
                    out_v[12],
                    out_v[13],
                    out_v[14],
                    out_v[15],
                    out_v[16],
                ];
                proof {
                    assert(out@ =~= spec_ip_network_bytes(*self));
                }
                Ip::V6(out)
            },
            Ip::Any(v) => {
                if v.len() == 5 {
                    let p = if v[4] <= 32 {
                        v[4]
                    } else {
                        32
                    };
                    let x = addr4_of_vec(v);
                    let m = if p == 0 {
                        0u32
                    } else {
                        0xFFFF_FFFFu32 << ((32 - p) as u32)
                    };
                    let y = x & m;
                    let mut out: Vec<u8> = Vec::new();
                    out.push((y >> 24u32) as u8);
                    out.push((y >> 16u32) as u8);
                    out.push((y >> 8u32) as u8);
                    out.push(y as u8);
                    out.push(p);
                    proof {
                        assert(out@ =~= spec_ip_network_bytes(*self));
                    }
                    Ip::Any(out)
                } else if v.len() == 17 {
                    let p = if v[16] <= 128 {
                        v[16]
                    } else {
                        128
                    };
                    let x = addr16_of_vec(v);
                    let y = x & mask128_exec(p);
                    let out = push_block16(y, v[16]);
                    proof {
                        assert(block16_bytes(y, v@[16]) =~= block16_bytes(y, clamp128(v@[16])).update(
                            16,
                            v@[16],
                        ));
                        assert(out@ =~= spec_ip_network_bytes(*self));
                    }
                    Ip::Any(out)
                } else {
                    Ip::Unset
                }
            },
            Ip::Unset => Ip::Unset,
        }
    }

    /// The highest address of the block the value describes.
    pub fn broadcast(&self) -> (r: Ip)
        ensures
            self matches Ip::V4(_) ==> (r matches Ip::V4(out) && out@ == spec_ip_broadcast_bytes(
                *self,
            )),
            self matches Ip::V6(_) ==> (r matches Ip::V6(out) && out@ == spec_ip_broadcast_bytes(
                *self,
            )),
            self matches Ip::Any(_) && !ip_op_none(*self) ==> (r matches Ip::Any(out) && out@
                == spec_ip_broadcast_bytes(*self)),
            ip_op_none(*self) ==> r == Ip::Unset,
    {
        match self {
            Ip::V4(a) => {
                let p = if a[4] <= 32 {
                    a[4]
                } else {
                    32
                };
                let x = (a[0] as u32) * 0x100_0000 + (a[1] as u32) * 0x1_0000 + (a[2] as u32)
                    * 0x100 + (a[3] as u32);
                let m = if p == 0 {
                    0u32
                } else {
                    0xFFFF_FFFFu32 << ((32 - p) as u32)
                };
                let y = x | !m;
                let out = [
                    (y >> 24u32) as u8,
                    (y >> 16u32) as u8,
                    (y >> 8u32) as u8,
                    y as u8,
                    p,
                ];
                proof {
                    assert(out@ =~= spec_ip_broadcast_bytes(*self));
                }
                Ip::V4(out)
            },
            Ip::V6(a) => {
                let p = if a[16] <= 128 {
                    a[16]
                } else {
                    128
                };
                let bytes = self.to_bytes();
                let x = addr16_of_vec(&bytes);
                let y = x | !mask128_exec(p);
                let out_v = push_block16(y, p);
                let out = [
                    out_v[0],
                    out_v[1],
                    out_v[2],
                    out_v[3],
                    out_v[4],
                    out_v[5],
                    out_v[6],
                    out_v[7],
                    out_v[8],
                    out_v[9],
                    out_v[10],
                    out_v[11],
                    out_v[12],
                    out_v[13],
                    out_v[14],
                    out_v[15],
                    out_v[16],
                ];
                proof {
                    assert(out@ =~= spec_ip_broadcast_bytes(*self));
                }
                Ip::V6(out)
            },
            Ip::Any(v) => {
                if v.len() == 5 {
                    let p = if v[4] <= 32 {
                        v[4]
                    } else {
                        32
                    };
                    let x = addr4_of_vec(v);
                    let m = if p == 0 {
                        0u32
                    } else {
                        0xFFFF_FFFFu32 << ((32 - p) as u32)
                    };
                    let y = x | !m;
                    let mut out: Vec<u8> = Vec::new();
                    out.push((y >> 24u32) as u8);
                    out.push((y >> 16u32) as u8);
                    out.push((y >> 8u32) as u8);
                    out.push(y as u8);
                    out.push(p);
                    proof {
                        assert(out@ =~= spec_ip_broadcast_bytes(*self));
                    }
                    Ip::Any(out)
                } else if v.len() == 17 {
                    let p = if v[16] <= 128 {
                        v[16]
                    } else {
                        128
                    };
                    let x = addr16_of_vec(v);
                    let y = x | !mask128_exec(p);
                    let out = push_block16(y, p);
                    proof {
                        assert(out@ =~= spec_ip_broadcast_bytes(*self));
                    }
                    Ip::Any(out)
                } else {
                    Ip::Unset
                }
            },
            Ip::Unset => Ip::Unset,
        }
    }

    /// The complement of the mask: the block size minus one, independent
    /// of the stored address.
    pub fn wildcard(&self) -> (r: Ip)
        ensures
            self matches Ip::V4(_) ==> (r matches Ip::V4(out) && out@ == spec_ip_wildcard_bytes(
                *self,
            )),
            self matches Ip::V6(_) ==> (r matches Ip::V6(out) && out@ == spec_ip_wildcard_bytes(
                *self,
            )),
            self matches Ip::Any(_) && !ip_op_none(*self) ==> (r matches Ip::Any(out) && out@
                == spec_ip_wildcard_bytes(*self)),
            ip_op_none(*self) ==> r == Ip::Unset,
    {
        match self {
            Ip::V4(a) => {
                let p = if a[4] <= 32 {
                    a[4]
                } else {
                    32
                };
                let m = if p == 0 {
                    0u32
                } else {
                    0xFFFF_FFFFu32 << ((32 - p) as u32)
                };
                let y = !m;
                let out = [
                    (y >> 24u32) as u8,
                    (y >> 16u32) as u8,
                    (y >> 8u32) as u8,
                    y as u8,
                    p,
                ];
                proof {
                    assert(out@ =~= spec_ip_wildcard_bytes(*self));
                }
                Ip::V4(out)
            },
            Ip::V6(a) => {
                let p = if a[16] <= 128 {
                    a[16]
                } else {
                    128
                };
                let y = !mask128_exec(p);
                let out_v = push_block16(y, p);
                let out = [
                    out_v[0],
                    out_v[1],
                    out_v[2],
                    out_v[3],
                    out_v[4],
                    out_v[5],
                    out_v[6],
                    out_v[7],
                    out_v[8],
                    out_v[9],
                    out_v[10],
                    out_v[11],
                    out_v[12],
                    out_v[13],
                    out_v[14],
                    out_v[15],
                    out_v[16],
                ];
                proof {
                    assert(out@ =~= spec_ip_wildcard_bytes(*self));
                }
                Ip::V6(out)
            },
            Ip::Any(v) => {
                if v.len() == 5 {
                    let p = if v[4] <= 32 {
                        v[4]
                    } else {
                        32
                    };
                    let m = if p == 0 {
                        0u32
                    } else {
                        0xFFFF_FFFFu32 << ((32 - p) as u32)
                    };
                    let y = !m;
                    let mut out: Vec<u8> = Vec::new();
                    out.push((y >> 24u32) as u8);
                    out.push((y >> 16u32) as u8);
                    out.push((y >> 8u32) as u8);
                    out.push(y as u8);
                    out.push(p);
                    proof {
                        assert(out@ =~= spec_ip_wildcard_bytes(*self));
                    }
                    Ip::Any(out)
                } else if v.len() == 17 {
                    let p = if v[16] <= 128 {
                        v[16]
                    } else {
                        128
                    };
                    let y = !mask128_exec(p);
                    let out = push_block16(y, p);
                    proof {
                        assert(out@ =~= spec_ip_wildcard_bytes(*self));
                    }
                    Ip::Any(out)
                } else {
                    Ip::Unset
                }
            },
            Ip::Unset => Ip::Unset,
        }
    }

    /// Whether this block covers the other: its network is no higher and
    /// its broadcast no lower, both compared byte-wise with the prefix
    /// byte last, a missing value sorting lowest.
    pub fn contains(&self, other: &Ip) -> (r: bool)
        ensures
            r == ({
                let c1 = cmp_opt_bytes(
                    ip_op_none(*self),
                    spec_ip_network_bytes(*self),
                    ip_op_none(*other),
                    spec_ip_network_bytes(*other),
                );
                let c2 = cmp_opt_bytes(
                    ip_op_none(*self),
                    spec_ip_broadcast_bytes(*self),
                    ip_op_none(*other),
                    spec_ip_broadcast_bytes(*other),
                );
                (c1 == core::cmp::Ordering::Less || c1 == core::cmp::Ordering::Equal) && (c2
                    == core::cmp::Ordering::Greater || c2 == core::cmp::Ordering::Equal)
            }),
    {
        let n1 = self.network();
        let n2 = other.network();
        let b1 = self.broadcast();
        let b2 = other.broadcast();
        let le = match (n1.is_none(), n2.is_none()) {
            (true, _) => true,
            (false, true) => false,
            (false, false) => {
                let v1 = n1.to_bytes();
                let v2 = n2.to_bytes();
                match lex_cmp_exec(&v1, &v2) {
                    core::cmp::Ordering::Greater => false,
                    _ => true,
                }
            },
        };
        let ge = match (b2.is_none(), b1.is_none()) {
            (true, _) => true,
            (false, true) => false,
            (false, false) => {
                let v1 = b1.to_bytes();
                let v2 = b2.to_bytes();
                match lex_cmp_exec(&v1, &v2) {
                    core::cmp::Ordering::Less => false,
                    _ => true,
                }
            },
        };
        le && ge
    }
}

/// The eight sixteen-bit groups held in the first sixteen bytes.
pub open spec fn pairs16(b: Seq<u8>) -> Seq<nat> {
    Seq::new(8, |i: int| (b[2 * i] as nat) * 256 + (b[2 * i + 1] as nat))
}

/// The text of an address value: dotted decimal for v4 and colon-separated
/// hex groups for v6, each followed by `/prefix`; empty text otherwise.
pub open spec fn spec_ip_str(ip: Ip) -> Seq<char> {
    let b = ip_bytes(ip);
    if b.len() == 5 {
        dotted_dec(b) + seq!['/'] + dec_digits(b[4] as nat)
    } else if b.len() == 17 {
        crate::net::v6::join_groups(pairs16(b)) + seq!['/'] + dec_digits(b[16] as nat)
    } else {
        Seq::empty()
    }
}

/// The parsed form of address text: no address, a v4 layout, a v6 layout,
/// or the mixed placeholder.
pub enum IpShape {
    Unset,
    Four(Seq<u8>),
    Six(Seq<u8>),
    Wild(Seq<u8>),
}

/// Whether an address value carries exactly what a parsed shape names.
pub open spec fn ip_matches_shape(ip: Ip, sh: IpShape) -> bool {
    match (ip, sh) {
        (Ip::Unset, IpShape::Unset) => true,
        (Ip::V4(a), IpShape::Four(b)) => a@ == b,
        (Ip::V6(a), IpShape::Six(b)) => a@ == b,
        (Ip::Any(v), IpShape::Wild(b)) => v@ == b,
        _ => false,
    }
}

/// The index of the first adjacent pair of colons, or a negative value.
pub open spec fn find_cc(s: Seq<char>) -> int
    decreases s.len(),
{
    if s.len() < 2 {
        -1
    } else if s[0] == ':' && s[1] == ':' {
        0
    } else {
        let r = find_cc(s.drop_first());
        if r < 0 {
            -1
        } else {
            r + 1
        }
    }
}

/// A position holding two colons with no such pair before it is exactly
/// what `find_cc` returns.
proof fn lemma_find_cc_is(s: Seq<char>, r: int)
    requires
        0 <= r,
        r + 1 < s.len(),
        s[r] == ':' && s[r + 1] == ':',
        forall|k: int| 0 <= k < r ==> !((#[trigger] s[k]) == ':' && s[k + 1] == ':'),
    ensures
        find_cc(s) == r,
    decreases s.len(),
{
    if r > 0 {
        assert forall|k: int| 0 <= k < r - 1 implies !((#[trigger] s.drop_first()[k]) == ':'
            && s.drop_first()[k + 1] == ':') by {
            assert(!(s[k + 1] == ':' && s[k + 2] == ':'));
        }
        lemma_find_cc_is(s.drop_first(), r - 1);
    }
}

/// With no adjacent colons anywhere, `find_cc` reports a negative value.
proof fn lemma_find_cc_none(s: Seq<char>)
    requires
        forall|k: int| 0 <= k && k + 1 < s.len() ==> !((#[trigger] s[k]) == ':' && s[k + 1] == ':'),
    ensures
        find_cc(s) < 0,
    decreases s.len(),
{
    if s.len() >= 2 {
        assert forall|k: int| 0 <= k && k + 1 < s.len() - 1 implies !((#[trigger] s.drop_first()[k]) == ':'
            && s.drop_first()[k + 1] == ':') by {
            assert(!(s[k + 1] == ':' && s[k + 2] == ':'));
        }
        lemma_find_cc_none(s.drop_first());
    }
}

/// The index of the first adjacent pair of colons in the string, if any.
fn find_cc_exec(s: &str) -> (r: Option<usize>)
    ensures
        r is Some ==> find_cc(s@) == r.unwrap() && r.unwrap() + 1 < s@.len(),
        r is None ==> find_cc(s@) < 0,
{
    let n = s.unicode_len();
    if n < 2 {
        proof {
            lemma_find_cc_none(s@);
        }
        return None;
    }
    let mut i: usize = 0;
    while i + 1 < n
        invariant
            n == s@.len(),
            i + 1 <= n,
            forall|k: int| 0 <= k < i ==> !((#[trigger] s@[k]) == ':' && s@[k + 1] == ':'),
        decreases n - i,
    {
        if s.get_char(i) == ':' && s.get_char(i + 1) == ':' {
            proof {
                lemma_find_cc_is(s@, i as int);
            }
            return Some(i);
        }
        i = i + 1;
    }
    proof {
        lemma_find_cc_none(s@);
    }
    None
}

/// The group values of colon-separated pieces: empty pieces are skipped,
/// each other piece must be a hex numeral of at most sixteen bits.
pub open spec fn ip_fold(parts: Seq<Seq<char>>, acc: Seq<nat>) -> Option<Seq<nat>>
    decreases parts.len(),
{
    if parts.len() == 0 {
        Option::Some(acc)
    } else {
        let p = parts[0];
        if p.len() == 0 {
            ip_fold(parts.drop_first(), acc)
        } else {
            match crate::text::spec_parse_hex(p, 0x1_0000) {
                Option::None => Option::None,
                Option::Some(v) => if v > 0xFFFF {
                    Option::None
                } else {
                    ip_fold(parts.drop_first(), acc.push(v))
                },
            }
        }
    }
}

/// Split on colons and read each non-empty piece as a hex group.
fn fold_hex_groups(s: &str) -> (r: Option<Vec<u16>>)
    ensures
        (r is Some) == (ip_fold(split_on(s@, ':'), Seq::empty()) is Some),
        r is Some ==> Some(r.unwrap()@.map_values(|g: u16| g as nat)) == ip_fold(
            split_on(s@, ':'),
            Seq::empty(),
        ),
{
    let mut out: Vec<u16> = Vec::new();
    let mut rest: &str = s;
    let ghost total = ip_fold(split_on(s@, ':'), Seq::empty());
    let ghost f = |g: u16| g as nat;
    proof {
        assert(out@.map_values(f) =~= Seq::<nat>::empty());
    }
    loop
        invariant_except_break
            total == ip_fold(split_on(rest@, ':'), out@.map_values(f)),
        invariant
            total == ip_fold(split_on(s@, ':'), Seq::empty()),
            f == (|g: u16| g as nat),
        ensures
            total == Option::Some(out@.map_values(f)),
        decreases rest@.len(),
    {
        let n = rest.unicode_len();
        let (part, next, last): (&str, &str, bool) = match find_char_exec(rest, ':') {
            Some(d) => (rest.substring_char(0, d), rest.substring_char(d + 1, n), false),
            None => (rest, rest, true),
        };
        proof {
            if !last {
                let d = find_char(rest@, ':');
                assert(part@ =~= rest@.take(d));
                assert(next@ =~= rest@.skip(d + 1));
                assert(split_on(rest@, ':') =~= seq![part@] + split_on(next@, ':'));
                assert((seq![part@] + split_on(next@, ':')).drop_first() =~= split_on(next@, ':'));
            } else {
                assert(split_on(rest@, ':') =~= seq![rest@]);
                assert(seq![rest@].drop_first() =~= Seq::<Seq<char>>::empty());
            }
        }
        let pn = part.unicode_len();
        if pn > 0 {
            match crate::text::parse_hex_capped(part, 0x1_0000) {
                Some(v) if v <= 0xFFFF => {
                    let ghost before = out@;
                    out.push(v as u16);
                    proof {
                        assert(out@.map_values(f) =~= before.map_values(f).push(v as nat));
                    }
                },
                _ => {
                    return None;
                },
            }
        }
        if last {
            proof {
                assert(ip_fold(Seq::<Seq<char>>::empty(), out@.map_values(f)) == Option::Some(
                    out@.map_values(f),
                ));
            }
            break ;
        }
        rest = next;
    }
    Some(out)
}

/// A run of zero groups.
pub open spec fn zero_groups(n: int) -> Seq<nat> {
    Seq::new(n as nat, |i: int| 0nat)
}

/// The groups of v6 address text: the error case, the invalid-shape case,
/// or exactly eight group values with any zero run expanded.
pub open spec fn parse_ip_groups(at: Seq<char>) -> Option<Option<Seq<nat>>> {
    let dc = find_cc(at);
    if dc < 0 {
        match ip_fold(split_on(at, ':'), Seq::empty()) {
            Option::None => Option::None,
            Option::Some(gs) => if gs.len() == 8 {
                Option::Some(Option::Some(gs))
            } else {
                Option::Some(Option::None)
            },
        }
    } else if find_cc(at.skip(dc + 2)) >= 0 {
        Option::Some(Option::None)
    } else {
        match ip_fold(split_on(at.take(dc), ':'), Seq::empty()) {
            Option::None => Option::None,
            Option::Some(l) => match ip_fold(split_on(at.skip(dc + 2), ':'), Seq::empty()) {
                Option::None => Option::None,
                Option::Some(rr) => if l.len() + rr.len() > 8 {
                    Option::Some(Option::None)
                } else {
                    Option::Some(Option::Some(l + zero_groups(8 - l.len() - rr.len()) + rr))
                },
            },
        }
    }
}

/// Combine eight sixteen-bit groups big-endian.
fn combine8(v: &Vec<u16>) -> (r: u128)
    requires
        v@.len() == 8,
        forall|i: int| 0 <= i < 8 ==> v@[i] <= 0xFFFF,
    ensures
        r as nat == crate::net::v6::groups_val(v@.map_values(|g: u16| g as nat)),
{
    let ghost f = |g: u16| g as nat;
    let mut acc: u128 = 0;
    let mut i: usize = 0;
    proof {
        assert(v@.take(0).map_values(f) =~= Seq::<nat>::empty());
    }
    while i < 8
        invariant
            v@.len() == 8,
            forall|k: int| 0 <= k < 8 ==> v@[k] <= 0xFFFF,
            f == (|g: u16| g as nat),
            i <= 8,
            acc as nat == crate::net::v6::groups_val(v@.take(i as int).map_values(f)),
            (acc as nat) < crate::net::v6::group_cap(i as int),
        decreases 8 - i,
    {
        proof {
            assert(v@.take(i + 1).map_values(f).drop_last() =~= v@.take(i as int).map_values(f));
            assert(v@.take(i + 1).map_values(f).last() == v@[i as int] as nat);
        }
        acc = acc * 0x1_0000 + (v[i] as u128);
        i = i + 1;
    }
    proof {
        assert(v@.take(8).map_values(f) =~= v@.map_values(f));
    }
    acc
}

/// What address text names, or nothing on a numeric error.
pub open spec fn spec_parse_ip(s: Seq<char>) -> Option<IpShape> {
    let t = spec_trim(s);
    if t.len() == 0 {
        Option::Some(IpShape::Unset)
    } else if find_char(t, '.') >= 0 && find_char(t, ':') < 0 {
        match crate::net::v4::spec_parse_net(t) {
            Option::None => Option::None,
            Option::Some(n) => Option::Some(IpShape::Four(block4_bytes(n.0, n.1))),
        }
    } else if find_char(t, ':') >= 0 {
        let sl = find_char(t, '/');
        let at = if sl < 0 || sl >= t.len() {
            t
        } else {
            t.take(sl)
        };
        match parse_ip_groups(at) {
            Option::None => Option::None,
            Option::Some(Option::None) => Option::Some(IpShape::Unset),
            Option::Some(Option::Some(gs)) => {
                if sl < 0 || sl >= t.len() {
                    Option::Some(
                        IpShape::Six(
                            block16_bytes(crate::net::v6::groups_val(gs) as u128, 128),
                        ),
                    )
                } else {
                    match spec_parse_dec(t.skip(sl + 1), 256) {
                        Option::None => Option::None,
                        Option::Some(p) => Option::Some(
                            IpShape::Six(
                                block16_bytes(
                                    crate::net::v6::groups_val(gs) as u128,
                                    if p > 128 {
                                        128u8
                                    } else {
                                        p as u8
                                    },
                                ),
                            ),
                        ),
                    }
                }
            },
        }
    } else if spec_lower(t) == "any"@ {
        Option::Some(IpShape::Wild(seq![0u8, 0u8, 0u8, 0u8, 0u8]))
    } else {
        Option::Some(IpShape::Unset)
    }
}

impl Ip {
    /// Render the value as text: dotted decimal or colon-separated hex
    /// groups, each followed by `/prefix`.
    pub fn to_string(&self) -> (r: String)
        ensures
            r@ == spec_ip_str(*self),
    {
        let bytes = self.to_bytes();
        if bytes.len() == 5 {
            let mut out = u32_to_dec(bytes[0] as u32);
            push_char(&mut out, '.');
            let d1 = u32_to_dec(bytes[1] as u32);
            out.append(d1.as_str());
            push_char(&mut out, '.');
            let d2 = u32_to_dec(bytes[2] as u32);
            out.append(d2.as_str());
            push_char(&mut out, '.');
            let d3 = u32_to_dec(bytes[3] as u32);
            out.append(d3.as_str());
            push_char(&mut out, '/');
            let dp = u32_to_dec(bytes[4] as u32);
            out.append(dp.as_str());
            proof {
                assert(out@ =~= spec_ip_str(*self));
            }
            out
        } else if bytes.len() == 17 {
            let g0 = crate::text::u32_to_hex((bytes[0] as u32) * 256 + (bytes[1] as u32));
            let g1 = crate::text::u32_to_hex((bytes[2] as u32) * 256 + (bytes[3] as u32));
            let g2 = crate::text::u32_to_hex((bytes[4] as u32) * 256 + (bytes[5] as u32));
            let g3 = crate::text::u32_to_hex((bytes[6] as u32) * 256 + (bytes[7] as u32));
            let g4 = crate::text::u32_to_hex((bytes[8] as u32) * 256 + (bytes[9] as u32));
            let g5 = crate::text::u32_to_hex((bytes[10] as u32) * 256 + (bytes[11] as u32));
            let g6 = crate::text::u32_to_hex((bytes[12] as u32) * 256 + (bytes[13] as u32));
            let g7 = crate::text::u32_to_hex((bytes[14] as u32) * 256 + (bytes[15] as u32));
            let mut out = g0;
            push_char(&mut out, ':');
            out.append(g1.as_str());
            push_char(&mut out, ':');
            out.append(g2.as_str());
            push_char(&mut out, ':');
            out.append(g3.as_str());
            push_char(&mut out, ':');
            out.append(g4.as_str());
            push_char(&mut out, ':');
            out.append(g5.as_str());
            push_char(&mut out, ':');
            out.append(g6.as_str());
            push_char(&mut out, ':');
            out.append(g7.as_str());
            push_char(&mut out, '/');
            let dp = u32_to_dec(bytes[16] as u32);
            out.append(dp.as_str());
            proof {
                let gs = pairs16(ip_bytes(*self));
                assert(gs.len() == 8);
                crate::net::v6::lemma_join_eight(gs);
                assert(gs[0] == (ip_bytes(*self)[0] as nat) * 256 + (ip_bytes(*self)[1] as nat));
                assert(out@ =~= spec_ip_str(*self));
            }
            out
        } else {
            proof {
                assert(spec_ip_str(*self) =~= Seq::<char>::empty());
            }
            String::new()
        }
    }

    /// Parse address text: dotted decimal v4 with an optional prefix,
    /// colon-separated hex v6 with one optional zero run and an optional
    /// prefix, or the word naming the mixed placeholder.  Shape faults
    /// yield an empty value, numeric faults an error.
    #[verifier::rlimit(100)]
    pub fn from_str(s: &str) -> (r: Result<Ip, Error>)
        ensures
            (r is Ok) == (spec_parse_ip(s@) is Some),
            r is Ok ==> ip_matches_shape(r.unwrap(), spec_parse_ip(s@).unwrap()),
            r is Err ==> r.unwrap_err().code == 2,
    {
        let t = trim_exec(s);
        let n = t.unicode_len();
        if n == 0 {
            return Ok(Ip::Unset);
        }
        let has_dot = find_char_exec(t, '.').is_some();
        let has_colon = find_char_exec(t, ':').is_some();
        if has_dot && !has_colon {
            match crate::net::v4::Net::from_str(t) {
                Err(e) => Err(e),
                Ok(net) => {
                    let x = net.0;
                    let out = [
                        (x >> 24u32) as u8,
                        (x >> 16u32) as u8,
                        (x >> 8u32) as u8,
                        x as u8,
                        net.1,
                    ];
                    proof {
                        assert(out@ =~= block4_bytes(net.0, net.1));
                    }
                    Ok(Ip::V4(out))
                },
            }
        } else if has_colon {
            let (addr_part, pfx_part, has_pfx): (&str, &str, bool) = match find_char_exec(
                t,
                '/',
            ) {
                Some(d) => (t.substring_char(0, d), t.substring_char(d + 1, n), true),
                None => (t, t, false),
            };
            proof {
                if has_pfx {
                    let d = find_char(t@, '/');
                    assert(addr_part@ =~= t@.take(d));
                    assert(pfx_part@ =~= t@.skip(d + 1));
                }
            }
            let groups: Option<Vec<u16>> = match parse_groups_exec(addr_part) {
                Err(e) => {
                    return Err(e);
                },
                Ok(g) => g,
            };
            match groups {
                None => Ok(Ip::Unset),
                Some(gs) => {
                    proof {
                        let spec_gs = parse_ip_groups(addr_part@).unwrap().unwrap();
                        assert(gs@.map_values(|g: u16| g as nat) =~= spec_gs);
                    }
                    let x = combine8(&gs);
                    let p: u8 = if has_pfx {
                        match parse_dec_capped(pfx_part, 256) {
                            Some(v) => {
                                if v > 128 {
                                    128
                                } else {
                                    v as u8
                                }
                            },
                            None => {
                                return Err(format_err());
                            },
                        }
                    } else {
                        128
                    };
                    let out_v = push_block16(x, p);
                    let out = [
                        out_v[0],
                        out_v[1],
                        out_v[2],
                        out_v[3],
                        out_v[4],
                        out_v[5],
                        out_v[6],
                        out_v[7],
                        out_v[8],
                        out_v[9],
                        out_v[10],
                        out_v[11],
                        out_v[12],
                        out_v[13],
                        out_v[14],
                        out_v[15],
                        out_v[16],
                    ];
                    proof {
                        assert(out@ =~= out_v@);
                    }
                    Ok(Ip::V6(out))
                },
            }
        } else {
            let low = to_lower(t);
            if str_eq(low.as_str(), "any") {
                let mut v: Vec<u8> = Vec::new();
                v.push(0);
                v.push(0);
                v.push(0);
                v.push(0);
                v.push(0);
                proof {
                    assert(v@ =~= seq![0u8, 0u8, 0u8, 0u8, 0u8]);
                }
                Ok(Ip::Any(v))
            } else {
                Ok(Ip::Unset)
            }
        }
    }
}

/// Read the groups of v6 address text: an error for numeric faults, no
/// groups for shape faults, or exactly eight group values.
#[verifier::rlimit(100)]
fn parse_groups_exec(addr_part: &str) -> (r: Result<Option<Vec<u16>>, Error>)
    ensures
        (r is Err) == (parse_ip_groups(addr_part@) is None),
        r is Err ==> r.unwrap_err().code == 2,
        r is Ok && r.unwrap() is None ==> parse_ip_groups(addr_part@) == Option::Some(
            Option::<Seq<nat>>::None,
        ),
        r is Ok && r.unwrap() is Some ==> {
            &&& parse_ip_groups(addr_part@) matches Option::Some(Option::Some(gs))
            &&& r.unwrap().unwrap()@.map_values(|g: u16| g as nat) == gs
            &&& r.unwrap().unwrap()@.len() == 8
        },
{
    match find_cc_exec(addr_part) {
        None => {
            match fold_hex_groups(addr_part) {
                None => Err(format_err()),
                Some(gs) => {
                    if gs.len() == 8 {
                        Ok(Some(gs))
                    } else {
                        Ok(None)
                    }
                },
            }
        },
        Some(dc) => {
            let am = addr_part.unicode_len();
            let left = addr_part.substring_char(0, dc);
            let right = addr_part.substring_char(dc + 2, am);
            proof {
                assert(left@ =~= addr_part@.take(dc as int));
                assert(right@ =~= addr_part@.skip(dc + 2));
            }
            if find_cc_exec(right).is_some() {
                Ok(None)
            } else {
                match fold_hex_groups(left) {
                    None => Err(format_err()),
                    Some(lg) => {
                        match fold_hex_groups(right) {
                            None => Err(format_err()),
                            Some(rg) => {
                                if lg.len() > 8 || rg.len() > 8 - lg.len() {
                                    Ok(None)
                                } else {
                                    let mut gs: Vec<u16> = Vec::new();
                                    let mut i: usize = 0;
                                    while i < lg.len()
                                        invariant
                                            i <= lg@.len(),
                                            gs@ =~= lg@.take(i as int),
                                        decreases lg@.len() - i,
                                    {
                                        gs.push(lg[i]);
                                        proof {
                                            assert(gs@ =~= lg@.take(i + 1));
                                        }
                                        i = i + 1;
                                    }
                                    let zeros = 8 - lg.len() - rg.len();
                                    let mut z: usize = 0;
                                    while z < zeros
                                        invariant
                                            z <= zeros,
                                            lg@.len() + rg@.len() + zeros == 8,
                                            gs@ =~= lg@.take(lg@.len() as int) + Seq::new(
                                                z as nat,
                                                |q: int| 0u16,
                                            ),
                                        decreases zeros - z,
                                    {
                                        gs.push(0);
                                        proof {
                                            assert(gs@ =~= lg@.take(lg@.len() as int) + Seq::new(
                                                (z + 1) as nat,
                                                |q: int| 0u16,
                                            ));
                                        }
                                        z = z + 1;
                                    }
                                    let mut j: usize = 0;
                                    while j < rg.len()
                                        invariant
                                            j <= rg@.len(),
                                            lg@.len() + rg@.len() <= 8,
                                            gs@ =~= lg@.take(lg@.len() as int) + Seq::new(
                                                (8 - lg@.len() - rg@.len()) as nat,
                                                |q: int| 0u16,
                                            ) + rg@.take(j as int),
                                        decreases rg@.len() - j,
                                    {
                                        gs.push(rg[j]);
                                        proof {
                                            assert(gs@ =~= lg@.take(lg@.len() as int) + Seq::new(
                                                (8 - lg@.len() - rg@.len()) as nat,
                                                |q: int| 0u16,
                                            ) + rg@.take(j + 1));
                                        }
                                        j = j + 1;
                                    }
                                    proof {
                                        let f = |g: u16| g as nat;
                                        assert(lg@.take(lg@.len() as int) =~= lg@);
                                        assert(rg@.take(rg@.len() as int) =~= rg@);
                                        assert(gs@.map_values(f) =~= lg@.map_values(f)
                                            + zero_groups(8 - lg@.len() - rg@.len())
                                            + rg@.map_values(f));
                                    }
                                    Ok(Some(gs))
                                }
                            },
                        }
                    },
                }
            }
        },
    }
}

/// A protocol: its number and a `name,description` text.
#[derive(Debug, PartialEq, Eq)]
pub struct Proto(pub u8, pub String);

/// The text before the first comma, trimmed; `unknown` when empty.
pub open spec fn spec_proto_name(s: Seq<char>) -> Seq<char> {
    let d = find_char(s, ',');
    let h = if d < 0 {
        s
    } else {
        s.take(d)
    };
    let t = spec_trim(h);
    if t.len() == 0 {
        "unknown"@
    } else {
        t
    }
}

/// The text after the first comma, trimmed; empty without a comma.
pub open spec fn spec_proto_desc(s: Seq<char>) -> Seq<char> {
    let d = find_char(s, ',');
    if d < 0 || d >= s.len() {
        Seq::empty()
    } else {
        spec_trim(s.skip(d + 1))
    }
}

/// A name and description packed as `name,description`.
pub open spec fn spec_name_desc(name: Seq<char>, desc: Seq<char>) -> Seq<char> {
    if desc.len() == 0 {
        name + seq![',']
    } else {
        name + seq![','] + desc
    }
}

/// What protocol text names: the number and the packed name text, split at
/// the first hash into the entry and its description.
pub open spec fn spec_parse_proto(s: Seq<char>) -> Option<(u8, Seq<char>)> {
    let t = spec_trim(s);
    let h = find_char(t, '#');
    let main = spec_trim(
        if h < 0 {
            t
        } else {
            t.take(h)
        },
    );
    let desc = if h < 0 || h >= t.len() {
        Seq::empty()
    } else {
        spec_trim(t.skip(h + 1))
    };
    let toks = crate::text::split_ws(main);
    let name = if toks.len() > 0 {
        toks[0]
    } else {
        Seq::empty()
    };
    let numtxt = if toks.len() > 1 {
        toks[1]
    } else {
        Seq::empty()
    };
    if numtxt.len() > 0 {
        match spec_parse_dec(numtxt, 256) {
            Option::None => Option::None,
            Option::Some(v) => if v > 255 {
                Option::None
            } else {
                Option::Some((v as u8, spec_name_desc(name, desc)))
            },
        }
    } else {
        match spec_parse_dec(name, 256) {
            Option::Some(v) => if v > 255 {
                Option::Some((254u8, spec_name_desc(name, desc)))
            } else {
                Option::Some((v as u8, spec_name_desc(name, desc)))
            },
            Option::None => Option::Some((254u8, spec_name_desc(name, desc))),
        }
    }
}

/// The first index holding a given protocol number, or a negative value.
pub open spec fn find_proto(list: Seq<Proto>, n: u8) -> int
    decreases list.len(),
{
    if list.len() == 0 {
        -1
    } else if list[0].0 == n {
        0
    } else {
        let r = find_proto(list.drop_first(), n);
        if r < 0 {
            -1
        } else {
            r + 1
        }
    }
}

impl Proto {
    /// The zero protocol with no name.
    pub fn new() -> (r: Proto)
        ensures
            r.0 == 0,
            r.1@ == Seq::<char>::empty(),
    {
        Proto(0, String::new())
    }

    /// A fresh copy.
    pub fn clone(&self) -> (r: Proto)
        ensures
            r.0 == self.0,
            r.1@ == self.1@,
    {
        Proto(self.0, self.1.clone())
    }

    /// Order protocols by number alone.
    pub fn cmp(&self, other: &Proto) -> (r: core::cmp::Ordering)
        ensures
            r == core::cmp::Ordering::Less <==> self.0 < other.0,
            r == core::cmp::Ordering::Equal <==> self.0 == other.0,
            r == core::cmp::Ordering::Greater <==> self.0 > other.0,
    {
        if self.0 < other.0 {
            core::cmp::Ordering::Less
        } else if self.0 > other.0 {
            core::cmp::Ordering::Greater
        } else {
            core::cmp::Ordering::Equal
        }
    }

    /// As `cmp`, wrapped as a partial comparison.
    pub fn partial_cmp(&self, other: &Proto) -> (r: Option<core::cmp::Ordering>)
        ensures
            r is Some,
            r.unwrap() == core::cmp::Ordering::Equal <==> self.0 == other.0,
            r.unwrap() == core::cmp::Ordering::Less <==> self.0 < other.0,
            r.unwrap() == core::cmp::Ordering::Greater <==> self.0 > other.0,
    {
        Some(self.cmp(other))
    }

    /// Protocols with the same number count as equal.
    pub fn eq(&self, other: &Proto) -> (r: bool)
        ensures
            r == (self.0 == other.0),
    {
        self.0 == other.0
    }

    /// Protocols with different numbers differ.
    pub fn ne(&self, other: &Proto) -> (r: bool)
        ensures
            r == (self.0 != other.0),
    {
        self.0 != other.0
    }

    /// The protocol number.
    pub fn get_number(&self) -> (r: u8)
        ensures
            r == self.0,
    {
        self.0
    }

    /// The name part of the packed text.
    pub fn get_name(&self) -> (r: String)
        ensures
            r@ == spec_proto_name(self.1@),
    {
        let w = self.1.as_str();
        let head: &str = match find_char_exec(w, ',') {
            Some(d) => {
                let h = w.substring_char(0, d);
                proof {
                    assert(h@ =~= w@.take(find_char(w@, ',')));
                }
                h
            },
            None => w,
        };
        let t = trim_exec(head);
        if t.unicode_len() == 0 {
            "unknown".to_owned()
        } else {
            t.to_owned()
        }
    }

    /// The description part of the packed text.
    pub fn get_description(&self) -> (r: String)
        ensures
            r@ == spec_proto_desc(self.1@),
    {
        let w = self.1.as_str();
        let n = w.unicode_len();
        match find_char_exec(w, ',') {
            Some(d) => {
                let tail = w.substring_char(d + 1, n);
                proof {
                    assert(tail@ =~= w@.skip(find_char(w@, ',') + 1));
                }
                trim_exec(tail).to_owned()
            },
            None => String::new(),
        }
    }

    /// Replace the number and the packed text, returning the new value.
    pub fn set(&mut self, number: u8, name: String) -> (r: Proto)
        ensures
            final(self).0 == number,
            final(self).1@ == name@,
            r.0 == number,
            r.1@ == name@,
    {
        self.0 = number;
        self.1 = name;
        self.clone()
    }

    /// Replace the description, keeping the name.
    pub fn set_description(&mut self, description: &str) -> (r: Proto)
        ensures
            final(self).0 == old(self).0,
            final(self).1@ == spec_proto_name(old(self).1@) + seq![','] + description@,
            r.0 == final(self).0,
            r.1@ == final(self).1@,
    {
        let mut txt = self.get_name();
        push_char(&mut txt, ',');
        txt.append(description);
        self.1 = txt;
        self.clone()
    }

    /// Replace the name, keeping the description.
    pub fn set_name(&mut self, name: &str) -> (r: Proto)
        ensures
            final(self).0 == old(self).0,
            final(self).1@ == spec_name_desc(name@, spec_proto_desc(old(self).1@)),
            r.0 == final(self).0,
            r.1@ == final(self).1@,
    {
        let desc = self.get_description();
        let mut txt = name.to_owned();
        push_char(&mut txt, ',');
        if desc.as_str().unicode_len() > 0 {
            txt.append(desc.as_str());
        }
        proof {
            assert(txt@ =~= spec_name_desc(name@, spec_proto_desc(old(self).1@)));
        }
        self.1 = txt;
        self.clone()
    }

    /// Replace the number alone.
    pub fn set_number(&mut self, number: u8) -> (r: Proto)
        ensures
            final(self).0 == number,
            final(self).1@ == old(self).1@,
            r.0 == number,
            r.1@ == old(self).1@,
    {
        self.0 = number;
        self.clone()
    }

    /// Render as `name (number)`, with ` # description` when one is held.
    pub fn to_string(&self) -> (r: String)
        ensures
            r@ == ({
                let name = spec_proto_name(self.1@);
                let desc = spec_proto_desc(self.1@);
                if desc.len() == 0 {
                    name + seq![' ', '('] + dec_digits(self.0 as nat) + seq![')']
                } else {
                    name + seq![' ', '('] + dec_digits(self.0 as nat) + seq![')', ' ', '#', ' ']
                        + desc
                }
            }),
    {
        let mut out = self.get_name();
        push_char(&mut out, ' ');
        push_char(&mut out, '(');
        let num = u32_to_dec(self.0 as u32);
        out.append(num.as_str());
        push_char(&mut out, ')');
        let desc = self.get_description();
        if desc.as_str().unicode_len() > 0 {
            push_char(&mut out, ' ');
            push_char(&mut out, '#');
            push_char(&mut out, ' ');
            out.append(desc.as_str());
        }
        proof {
            if spec_proto_desc(self.1@).len() == 0 {
                assert(out@ =~= spec_proto_name(self.1@) + seq![' ', '('] + dec_digits(
                    self.0 as nat,
                ) + seq![')']);
            } else {
                assert(out@ =~= spec_proto_name(self.1@) + seq![' ', '('] + dec_digits(
                    self.0 as nat,
                ) + seq![')', ' ', '#', ' '] + spec_proto_desc(self.1@));
            }
        }
        out
    }

    /// Read a protocol entry: a name word, an optional number word, and an
    /// optional description after a hash; a word after the name that is no
    /// decimal number of one byte is a fault.
    pub fn from_str(s: &str) -> (r: Result<Proto, Error>)
        ensures
            (r is Ok) == (spec_parse_proto(s@) is Some),
            r is Ok ==> r.unwrap().0 == spec_parse_proto(s@).unwrap().0 && r.unwrap().1@
                == spec_parse_proto(s@).unwrap().1,
            r is Err ==> r.unwrap_err().code == 2,
    {
        let t = trim_exec(s);
        let n = t.unicode_len();
        let (main_raw, desc): (&str, &str) = match find_char_exec(t, '#') {
            Some(d) => {
                let m = t.substring_char(0, d);
                let rest = t.substring_char(d + 1, n);
                proof {
                    assert(m@ =~= t@.take(find_char(t@, '#')));
                    assert(rest@ =~= t@.skip(find_char(t@, '#') + 1));
                }
                (m, rest)
            },
            None => (t, t.substring_char(n, n)),
        };
        proof {
            if find_char(t@, '#') < 0 {
                assert(desc@ =~= Seq::<char>::empty());
            }
        }
        let main = trim_exec(main_raw);
        let desc = trim_exec(desc);
        let toks = crate::text::split_ws_exec(main);
        let name: &str = if toks.len() > 0 {
            toks[0]
        } else {
            main.substring_char(0, 0)
        };
        let numtxt: &str = if toks.len() > 1 {
            toks[1]
        } else {
            main.substring_char(0, 0)
        };
        proof {
            if crate::text::split_ws(main@).len() == 0 {
                assert(name@ =~= Seq::<char>::empty());
            }
            if crate::text::split_ws(main@).len() <= 1 {
                assert(numtxt@ =~= Seq::<char>::empty());
            }
        }
        let mut packed = name.to_owned();
        push_char(&mut packed, ',');
        if desc.unicode_len() > 0 {
            packed.append(desc);
        }
        proof {
            assert(packed@ =~= spec_name_desc(name@, desc@));
        }
        if numtxt.unicode_len() > 0 {
            match parse_dec_capped(numtxt, 256) {
                Some(v) if v <= 255 => Ok(Proto(v as u8, packed)),
                _ => Err(format_err()),
            }
        } else {
            match parse_dec_capped(name, 256) {
                Some(v) if v <= 255 => Ok(Proto(v as u8, packed)),
                _ => Ok(Proto(254, packed)),
            }
        }
    }

    /// The first listed protocol with the given number; an unnamed entry
    /// with number 254 when the list holds none.
    pub fn from_num(number: u8, list: &Vec<Proto>) -> (r: Proto)
        ensures
            find_proto(list@, number) >= 0 ==> r.0 == list@[find_proto(list@, number)].0 && r.1@
                == list@[find_proto(list@, number)].1@,
            find_proto(list@, number) < 0 ==> r.0 == 254 && r.1@ == Seq::<char>::empty(),
    {
        let mut i: usize = 0;
        while i < list.len()
            invariant
                i <= list@.len(),
                forall|k: int| 0 <= k < i ==> (#[trigger] list@[k]).0 != number,
            decreases list@.len() - i,
        {
            if list[i].0 == number {
                proof {
                    lemma_find_proto_is(list@, number, i as int);
                }
                return list[i].clone();
            }
            i = i + 1;
        }
        proof {
            lemma_find_proto_none(list@, number);
        }
        Proto(254, String::new())
    }
}

/// A position holding the number with none before it is what `find_proto`
/// returns.
proof fn lemma_find_proto_is(list: Seq<Proto>, n: u8, r: int)
    requires
        0 <= r < list.len(),
        list[r].0 == n,
        forall|k: int| 0 <= k < r ==> (#[trigger] list[k]).0 != n,
    ensures
        find_proto(list, n) == r,
    decreases list.len(),
{
    if r > 0 {
        assert forall|k: int| 0 <= k < r - 1 implies (#[trigger] list.drop_first()[k]).0 != n by {
            assert(list[k + 1].0 != n);
        }
        lemma_find_proto_is(list.drop_first(), n, r - 1);
    }
}

/// Without the number anywhere, `find_proto` reports a negative value.
proof fn lemma_find_proto_none(list: Seq<Proto>, n: u8)
    requires
        forall|k: int| 0 <= k < list.len() ==> (#[trigger] list[k]).0 != n,
    ensures
        find_proto(list, n) < 0,
    decreases list.len(),
{
    if list.len() > 0 {
        assert forall|k: int| 0 <= k < list.len() - 1 implies (#[trigger] list.drop_first()[k]).0
            != n by {
            assert(list[k + 1].0 != n);
        }
        lemma_find_proto_none(list.drop_first(), n);
    }
}

/// A service port: the number, the protocol number, and a service name.
#[derive(Debug, PartialEq, Eq)]
pub struct Port(pub u16, pub u8, pub String);

/// The protocol number of a protocol word.
pub open spec fn spec_proto_num(w: Seq<char>) -> u8 {
    if w == "tcp"@ {
        6u8
    } else if w == "udp"@ {
        17u8
    } else if w == "ddp"@ {
        37u8
    } else if w == "sctp"@ {
        132u8
    } else if w == "igmp"@ {
        2u8
    } else if w == "icmp"@ {
        1u8
    } else if w == "icmpv6"@ {
        58u8
    } else {
        254u8
    }
}

/// Whether a word names one of the known protocols.
pub open spec fn spec_is_proto_word(w: Seq<char>) -> bool {
    w == "tcp"@ || w == "udp"@ || w == "ddp"@ || w == "sctp"@ || w == "igmp"@ || w == "icmp"@ || w
        == "icmpv6"@
}

/// The protocol word of a protocol number, for display.
pub open spec fn spec_proto_word(n: u8) -> Seq<char> {
    if n == 6 {
        "tcp"@
    } else if n == 17 {
        "udp"@
    } else if n == 37 {
        "ddp"@
    } else if n == 132 {
        "sctp"@
    } else if n == 2 {
        "igmp"@
    } else if n == 1 {
        "icmp"@
    } else if n == 58 {
        "icmpv6"@
    } else {
        "unknown"@
    }
}

/// Leading and trailing hashes removed.
pub open spec fn strip_hashes(s: Seq<char>) -> Seq<char>
    decreases s.len(),
{
    if s.len() == 0 {
        s
    } else if s[0] == '#' {
        strip_hashes(s.drop_first())
    } else if s.last() == '#' {
        strip_hashes(s.drop_last())
    } else {
        s
    }
}

/// What port text names: the port number, the protocol number, and the
/// service name taken from the comment after a hash.
pub open spec fn spec_parse_port_entry(s: Seq<char>) -> Option<(u16, u8, Seq<char>)> {
    let t = spec_trim(s);
    let h = find_char(t, '#');
    let main = spec_trim(
        if h < 0 {
            t
        } else {
            t.take(h)
        },
    );
    let comment = if h < 0 || h >= t.len() {
        Seq::empty()
    } else {
        spec_trim(t.skip(h + 1))
    };
    let name = if comment.len() == 0 {
        Seq::empty()
    } else {
        strip_hashes(comment)
    };
    let toks = crate::text::split_ws(main);
    let t0 = if toks.len() > 0 {
        toks[0]
    } else {
        Seq::empty()
    };
    let t1 = if toks.len() > 1 {
        toks[1]
    } else {
        Seq::empty()
    };
    let t2 = if toks.len() > 2 {
        toks[2]
    } else {
        Seq::empty()
    };
    let p0 = spec_lower(t0);
    let f = spec_lower(t1);
    if spec_is_proto_word(p0) && (f == "dport"@ || f == "sport"@) {
        match spec_parse_dec(t2, 0x1_0000) {
            Option::None => Option::None,
            Option::Some(v) => if v > 0xFFFF {
                Option::None
            } else {
                Option::Some((v as u16, spec_proto_num(p0), name))
            },
        }
    } else if spec_is_proto_word(p0) && t1.len() > 0 && t2.len() == 0 {
        match spec_parse_dec(t1, 0x1_0000) {
            Option::None => Option::None,
            Option::Some(v) => if v > 0xFFFF {
                Option::None
            } else {
                Option::Some((v as u16, spec_proto_num(p0), name))
            },
        }
    } else if t0.len() > 0 && t1.len() == 0 && t2.len() == 0 {
        match spec_parse_dec(t0, 0x1_0000) {
            Option::None => Option::None,
            Option::Some(v) => if v > 0xFFFF {
                Option::None
            } else {
                Option::Some((v as u16, 254u8, name))
            },
        }
    } else {
        Option::Some((0u16, 254u8, name))
    }
}

/// The first index holding a given port number, or a negative value.
pub open spec fn find_port(list: Seq<Port>, n: u16) -> int
    decreases list.len(),
{
    if list.len() == 0 {
        -1
    } else if list[0].0 == n {
        0
    } else {
        let r = find_port(list.drop_first(), n);
        if r < 0 {
            -1
        } else {
            r + 1
        }
    }
}

impl Port {
    /// The zero port with an unknown protocol.
    pub fn new() -> (r: Port)
        ensures
            r.0 == 0,
            r.1 == 254,
            r.2@ == Seq::<char>::empty(),
    {
        Port(0, 254, String::new())
    }

    /// The value a fresh port takes.
    pub fn default() -> (r: Port)
        ensures
            r.0 == 0,
            r.1 == 254,
            r.2@ == Seq::<char>::empty(),
    {
        Port(0, 254, String::new())
    }

    /// A fresh copy.
    pub fn clone(&self) -> (r: Port)
        ensures
            r.0 == self.0,
            r.1 == self.1,
            r.2@ == self.2@,
    {
        Port(self.0, self.1, self.2.clone())
    }

    /// Order ports by number, then by protocol.
    pub fn cmp(&self, other: &Port) -> (r: core::cmp::Ordering)
        ensures
            r == core::cmp::Ordering::Equal <==> (self.0 == other.0 && self.1 == other.1),
            r == core::cmp::Ordering::Less <==> (self.0 < other.0 || (self.0 == other.0 && self.1
                < other.1)),
            r == core::cmp::Ordering::Greater <==> (self.0 > other.0 || (self.0 == other.0
                && self.1 > other.1)),
    {
        if self.0 < other.0 {
            core::cmp::Ordering::Less
        } else if self.0 > other.0 {
            core::cmp::Ordering::Greater
        } else if self.1 < other.1 {
            core::cmp::Ordering::Less
        } else if self.1 > other.1 {
            core::cmp::Ordering::Greater
        } else {
            core::cmp::Ordering::Equal
        }
    }

    /// As `cmp`, wrapped as a partial comparison.
    pub fn partial_cmp(&self, other: &Port) -> (r: Option<core::cmp::Ordering>)
        ensures
            r is Some,
            r.unwrap() == core::cmp::Ordering::Equal <==> (self.0 == other.0 && self.1 == other.1),
    {
        Some(self.cmp(other))
    }

    /// Ports with the same number and protocol count as equal.
    pub fn eq(&self, other: &Port) -> (r: bool)
        ensures
            r == (self.0 == other.0 && self.1 == other.1),
    {
        self.0 == other.0 && self.1 == other.1
    }

    /// Ports differing in number or protocol differ.
    pub fn ne(&self, other: &Port) -> (r: bool)
        ensures
            r == !(self.0 == other.0 && self.1 == other.1),
    {
        !(self.0 == other.0 && self.1 == other.1)
    }

    /// Render as `proto port`, with ` (port) # name` when a name is held.
    pub fn to_string(&self) -> (r: String)
        ensures
            r@ == ({
                let word = spec_proto_word(self.1);
                let desc = spec_trim(self.2@);
                if desc.len() == 0 {
                    word + seq![' '] + dec_digits(self.0 as nat)
                } else {
                    word + seq![' ', '('] + dec_digits(self.0 as nat) + seq![')', ' ', '#', ' ']
                        + desc
                }
            }),
    {
        let word: &str = if self.1 == 6 {
            "tcp"
        } else if self.1 == 17 {
            "udp"
        } else if self.1 == 37 {
            "ddp"
        } else if self.1 == 132 {
            "sctp"
        } else if self.1 == 2 {
            "igmp"
        } else if self.1 == 1 {
            "icmp"
        } else if self.1 == 58 {
            "icmpv6"
        } else {
            "unknown"
        };
        let desc = trim_exec(self.2.as_str());
        let mut out = word.to_owned();
        if desc.unicode_len() == 0 {
            push_char(&mut out, ' ');
            let num = u32_to_dec(self.0 as u32);
            out.append(num.as_str());
            proof {
                assert(out@ =~= spec_proto_word(self.1) + seq![' '] + dec_digits(self.0 as nat));
            }
        } else {
            push_char(&mut out, ' ');
            push_char(&mut out, '(');
            let num = u32_to_dec(self.0 as u32);
            out.append(num.as_str());
            push_char(&mut out, ')');
            push_char(&mut out, ' ');
            push_char(&mut out, '#');
            push_char(&mut out, ' ');
            out.append(desc);
            proof {
                assert(out@ =~= spec_proto_word(self.1) + seq![' ', '('] + dec_digits(
                    self.0 as nat,
                ) + seq![')', ' ', '#', ' '] + spec_trim(self.2@));
            }
        }
        out
    }

    /// Replace the number and protocol and clear the service name.
    pub fn set(&mut self, number: u16, proto: u8) -> (r: Port)
        ensures
            final(self).0 == number,
            final(self).1 == proto,
            final(self).2@ == Seq::<char>::empty(),
            r.0 == number,
            r.1 == proto,
            r.2@ == Seq::<char>::empty(),
    {
        self.0 = number;
        self.1 = proto;
        self.2 = String::new();
        self.clone()
    }

    /// Read a port entry: `proto dport N`, `proto sport N`, `proto N`, or
    /// a bare number, with an optional `# name` comment.
    #[verifier::rlimit(100)]
    pub fn from_str(s: &str) -> (r: Result<Port, Error>)
        ensures
            (r is Ok) == (spec_parse_port_entry(s@) is Some),
            r is Ok ==> r.unwrap().0 == spec_parse_port_entry(s@).unwrap().0 && r.unwrap().1
                == spec_parse_port_entry(s@).unwrap().1 && r.unwrap().2@ == spec_parse_port_entry(
                s@,
            ).unwrap().2,
            r is Err ==> r.unwrap_err().code == 2,
    {
        let t = trim_exec(s);
        let n = t.unicode_len();
        let (main_raw, comment_raw): (&str, &str) = match find_char_exec(t, '#') {
            Some(d) => {
                let m = t.substring_char(0, d);
                let rest = t.substring_char(d + 1, n);
                proof {
                    assert(m@ =~= t@.take(find_char(t@, '#')));
                    assert(rest@ =~= t@.skip(find_char(t@, '#') + 1));
                }
                (m, rest)
            },
            None => (t, t.substring_char(n, n)),
        };
        proof {
            if find_char(t@, '#') < 0 {
                assert(comment_raw@ =~= Seq::<char>::empty());
            }
        }
        let main = trim_exec(main_raw);
        let comment = trim_exec(comment_raw);
        let name: String = if comment.unicode_len() == 0 {
            String::new()
        } else {
            strip_hashes_exec(comment).to_owned()
        };
        let toks = crate::text::split_ws_exec(main);
        let empty_tok = main.substring_char(0, 0);
        let t0: &str = if toks.len() > 0 {
            toks[0]
        } else {
            empty_tok
        };
        let t1: &str = if toks.len() > 1 {
            toks[1]
        } else {
            empty_tok
        };
        let t2: &str = if toks.len() > 2 {
            toks[2]
        } else {
            empty_tok
        };
        proof {
            assert(empty_tok@ =~= Seq::<char>::empty());
            let stoks = crate::text::split_ws(main@);
            if stoks.len() == 0 {
                assert(t0@ =~= Seq::<char>::empty());
            }
            if stoks.len() <= 1 {
                assert(t1@ =~= Seq::<char>::empty());
            }
            if stoks.len() <= 2 {
                assert(t2@ =~= Seq::<char>::empty());
            }
        }
        let p0 = to_lower(t0);
        let f = to_lower(t1);
        let is_proto = str_eq(p0.as_str(), "tcp") || str_eq(p0.as_str(), "udp") || str_eq(
            p0.as_str(),
            "ddp",
        ) || str_eq(p0.as_str(), "sctp") || str_eq(p0.as_str(), "igmp") || str_eq(
            p0.as_str(),
            "icmp",
        ) || str_eq(p0.as_str(), "icmpv6");
        let proto_num: u8 = if str_eq(p0.as_str(), "tcp") {
            6
        } else if str_eq(p0.as_str(), "udp") {
            17
        } else if str_eq(p0.as_str(), "ddp") {
            37
        } else if str_eq(p0.as_str(), "sctp") {
            132
        } else if str_eq(p0.as_str(), "igmp") {
            2
        } else if str_eq(p0.as_str(), "icmp") {
            1
        } else if str_eq(p0.as_str(), "icmpv6") {
            58
        } else {
            254
        };
        if is_proto && (str_eq(f.as_str(), "dport") || str_eq(f.as_str(), "sport")) {
            match parse_dec_capped(t2, 0x1_0000) {
                Some(v) if v <= 0xFFFF => Ok(Port(v as u16, proto_num, name)),
                _ => Err(format_err()),
            }
        } else if is_proto && t1.unicode_len() > 0 && t2.unicode_len() == 0 {
            match parse_dec_capped(t1, 0x1_0000) {
                Some(v) if v <= 0xFFFF => Ok(Port(v as u16, proto_num, name)),
                _ => Err(format_err()),
            }
        } else if t0.unicode_len() > 0 && t1.unicode_len() == 0 && t2.unicode_len() == 0 {
            match parse_dec_capped(t0, 0x1_0000) {
                Some(v) if v <= 0xFFFF => Ok(Port(v as u16, 254, name)),
                _ => Err(format_err()),
            }
        } else {
            Ok(Port(0, 254, name))
        }
    }

    /// The first listed port with the given number; a bare entry with that
    /// number and an unknown protocol when the list holds none.
    pub fn from_num(number: u16, list: &Vec<Port>) -> (r: Port)
        ensures
            find_port(list@, number) >= 0 ==> r.0 == list@[find_port(list@, number)].0 && r.1
                == list@[find_port(list@, number)].1 && r.2@ == list@[find_port(
                list@,
                number,
            )].2@,
            find_port(list@, number) < 0 ==> r.0 == number && r.1 == 254 && r.2@ == Seq::<
                char,
            >::empty(),
    {
        let mut i: usize = 0;
        while i < list.len()
            invariant
                i <= list@.len(),
                forall|k: int| 0 <= k < i ==> (#[trigger] list@[k]).0 != number,
            decreases list@.len() - i,
        {
            if list[i].0 == number {
                proof {
                    lemma_find_port_is(list@, number, i as int);
                }
                return list[i].clone();
            }
            i = i + 1;
        }
        proof {
            lemma_find_port_none(list@, number);
        }
        Port(number, 254, String::new())
    }
}

/// A position holding the number with none before it is what `find_port`
/// returns.
proof fn lemma_find_port_is(list: Seq<Port>, n: u16, r: int)
    requires
        0 <= r < list.len(),
        list[r].0 == n,
        forall|k: int| 0 <= k < r ==> (#[trigger] list[k]).0 != n,
    ensures
        find_port(list, n) == r,
    decreases list.len(),
{
    if r > 0 {
        assert forall|k: int| 0 <= k < r - 1 implies (#[trigger] list.drop_first()[k]).0 != n by {
            assert(list[k + 1].0 != n);
        }
        lemma_find_port_is(list.drop_first(), n, r - 1);
    }
}

/// Without the number anywhere, `find_port` reports a negative value.
proof fn lemma_find_port_none(list: Seq<Port>, n: u16)
    requires
        forall|k: int| 0 <= k < list.len() ==> (#[trigger] list[k]).0 != n,
    ensures
        find_port(list, n) < 0,
    decreases list.len(),
{
    if list.len() > 0 {
        assert forall|k: int| 0 <= k < list.len() - 1 implies (#[trigger] list.drop_first()[k]).0
            != n by {
            assert(list[k + 1].0 != n);
        }
        lemma_find_port_none(list.drop_first(), n);
    }
}

/// Trim the hashes off both ends of a string slice.
fn strip_hashes_exec(s: &str) -> (r: &str)
    ensures
        r@ == strip_hashes(s@),
    decreases s@.len(),
{
    let n = s.unicode_len();
    if n == 0 {
        return s;
    }
    if s.get_char(0) == '#' {
        let u = s.substring_char(1, n);
        proof {
            assert(u@ =~= s@.drop_first());
        }
        return strip_hashes_exec(u);
    }
    if s.get_char(n - 1) == '#' {
        let u = s.substring_char(0, n - 1);
        proof {
            assert(u@ =~= s@.drop_last());
        }
        return strip_hashes_exec(u);
    }
    s
}

/// The verdict or effect a rule applies.
#[derive(Debug, PartialEq, Eq)]
pub enum Action {
    Unset,
    Accept,
    Drop,
    Reject,
    Skip,
    Limit(u32),
    Return,
    Jump(u32),
    Log(String),
    Mark(u32),
    Meta(String),
    Assign(String, String),
    Masquerade,
    Snat(String),
    Dnat(String),
    Redirect(Option<u16>),
    Ct,
    Queue,
    Quota(u64),
    TProxy(u16, u32),
    Counter,
    Hashlimit(String, Option<u32>),
    FlowOffload,
    Reclassify,
}

/// The mirror of an action over mathematical text, used by the parser's
/// contract.
pub enum ActShape {
    Unset,
    Accept,
    Drop,
    Reject,
    Skip,
    Limit(u32),
    Return,
    Jump(u32),
    Log(Seq<char>),
    Mark(u32),
    Meta(Seq<char>),
    Assign(Seq<char>, Seq<char>),
    Masquerade,
    Snat(Seq<char>),
    Dnat(Seq<char>),
    Redirect(Option<u16>),
    Ct,
    Queue,
    Quota(u64),
    TProxy(u16, u32),
    Counter,
    Hashlimit(Seq<char>, Option<u32>),
    FlowOffload,
    Reclassify,
}

/// Whether an action carries exactly what a parsed shape names.
pub open spec fn act_matches(a: Action, sh: ActShape) -> bool {
    match (a, sh) {
        (Action::Unset, ActShape::Unset) => true,
        (Action::Accept, ActShape::Accept) => true,
        (Action::Drop, ActShape::Drop) => true,
        (Action::Reject, ActShape::Reject) => true,
        (Action::Skip, ActShape::Skip) => true,
        (Action::Limit(a1), ActShape::Limit(b1)) => a1 == b1,
        (Action::Return, ActShape::Return) => true,
        (Action::Jump(a1), ActShape::Jump(b1)) => a1 == b1,
        (Action::Log(a1), ActShape::Log(b1)) => a1@ == b1,
        (Action::Mark(a1), ActShape::Mark(b1)) => a1 == b1,
        (Action::Meta(a1), ActShape::Meta(b1)) => a1@ == b1,
        (Action::Assign(a1, a2), ActShape::Assign(b1, b2)) => a1@ == b1 && a2@ == b2,
        (Action::Masquerade, ActShape::Masquerade) => true,
        (Action::Snat(a1), ActShape::Snat(b1)) => a1@ == b1,
        (Action::Dnat(a1), ActShape::Dnat(b1)) => a1@ == b1,
        (Action::Redirect(a1), ActShape::Redirect(b1)) => a1 == b1,
        (Action::Ct, ActShape::Ct) => true,
        (Action::Queue, ActShape::Queue) => true,
        (Action::Quota(a1), ActShape::Quota(b1)) => a1 == b1,
        (Action::TProxy(a1, a2), ActShape::TProxy(b1, b2)) => a1 == b1 && a2 == b2,
        (Action::Counter, ActShape::Counter) => true,
        (Action::Hashlimit(a1, a2), ActShape::Hashlimit(b1, b2)) => a1@ == b1 && a2 == b2,
        (Action::FlowOffload, ActShape::FlowOffload) => true,
        (Action::Reclassify, ActShape::Reclassify) => true,
        _ => false,
    }
}

/// Leading and trailing double quotes removed.
pub open spec fn strip_quotes(s: Seq<char>) -> Seq<char>
    decreases s.len(),
{
    if s.len() == 0 {
        s
    } else if s[0] == '"' {
        strip_quotes(s.drop_first())
    } else if s.last() == '"' {
        strip_quotes(s.drop_last())
    } else {
        s
    }
}

/// Trim the double quotes off both ends of a string slice.
fn strip_quotes_exec(s: &str) -> (r: &str)
    ensures
        r@ == strip_quotes(s@),
    decreases s@.len(),
{
    let n = s.unicode_len();
    if n == 0 {
        return s;
    }
    if s.get_char(0) == '"' {
        let u = s.substring_char(1, n);
        proof {
            assert(u@ =~= s@.drop_first());
        }
        return strip_quotes_exec(u);
    }
    if s.get_char(n - 1) == '"' {
        let u = s.substring_char(0, n - 1);
        proof {
            assert(u@ =~= s@.drop_last());
        }
        return strip_quotes_exec(u);
    }
    s
}

/// The index of the first word equal to `w` at or past `i`, or a negative
/// value.
pub open spec fn find_word(toks: Seq<Seq<char>>, w: Seq<char>, i: int) -> int
    decreases toks.len() - i,
{
    if i < 0 || i >= toks.len() {
        -1
    } else if toks[i] == w {
        i
    } else {
        find_word(toks, w, i + 1)
    }
}

/// The rate value before a slash in a limit clause.
pub open spec fn spec_rate_text(t: Seq<char>) -> Seq<char> {
    let d = find_char(t, '/');
    if d < 0 {
        t
    } else {
        t.take(d)
    }
}

/// The remaining words of a log message, space separated, quotes stripped.
pub open spec fn log_tail(toks: Seq<Seq<char>>, i: int) -> Seq<char>
    decreases toks.len() - i,
{
    if i < 0 || i >= toks.len() {
        Seq::empty()
    } else {
        seq![' '] + strip_quotes(toks[i]) + log_tail(toks, i + 1)
    }
}

/// A sixteen-bit decimal value, or zero on any fault.
pub open spec fn dec16_or0(t: Seq<char>) -> u16 {
    match spec_parse_dec(t, 0x1_0000) {
        Option::Some(v) => if v <= 0xFFFF {
            v as u16
        } else {
            0u16
        },
        Option::None => 0u16,
    }
}

/// A thirty-two-bit decimal value, or zero on any fault.
pub open spec fn dec32_or0(t: Seq<char>) -> u32 {
    match spec_parse_dec(t, 0x1_0000_0000) {
        Option::Some(v) => if v <= 0xFFFF_FFFF {
            v as u32
        } else {
            0u32
        },
        Option::None => 0u32,
    }
}

/// The walk of a tproxy clause: `to` takes the next word as the port,
/// `with mark` takes the following word as the mark, faults count as zero.
pub open spec fn tproxy_scan(toks: Seq<Seq<char>>, i: int, port: u16, mark: u32) -> (u16, u32)
    decreases toks.len() - i,
{
    if i < 0 || i >= toks.len() {
        (port, mark)
    } else if toks[i] == "to"@ {
        if i + 1 < toks.len() {
            tproxy_scan(toks, i + 2, dec16_or0(toks[i + 1]), mark)
        } else {
            (port, mark)
        }
    } else if toks[i] == "with"@ {
        if i + 1 < toks.len() && toks[i + 1] == "mark"@ {
            if i + 2 < toks.len() {
                tproxy_scan(toks, i + 3, port, dec32_or0(toks[i + 2]))
            } else {
                tproxy_scan(toks, i + 2, port, mark)
            }
        } else {
            tproxy_scan(toks, i + 1, port, mark)
        }
    } else {
        tproxy_scan(toks, i + 1, port, mark)
    }
}

/// What action text names, or nothing on a numeric fault.
pub open spec fn spec_parse_action(s: Seq<char>) -> Option<ActShape> {
    let t = spec_trim(s);
    if t.len() == 0 {
        Option::Some(ActShape::Unset)
    } else {
        let toks = crate::text::split_ws(t);
        let t0 = if toks.len() > 0 {
            spec_lower(toks[0])
        } else {
            Seq::empty()
        };
        let t1 = if toks.len() > 1 {
            toks[1]
        } else {
            Seq::empty()
        };
        let t2 = if toks.len() > 2 {
            toks[2]
        } else {
            Seq::empty()
        };
        if t0 == "accept"@ {
            Option::Some(ActShape::Accept)
        } else if t0 == "drop"@ {
            Option::Some(ActShape::Drop)
        } else if t0 == "reject"@ {
            Option::Some(ActShape::Reject)
        } else if t0 == "skip"@ {
            Option::Some(ActShape::Skip)
        } else if t0 == "limit"@ {
            let j = find_word(toks, "over"@, 1);
            if j < 0 || j + 1 >= toks.len() {
                Option::Some(ActShape::Limit(0))
            } else {
                match spec_parse_dec(spec_rate_text(toks[j + 1]), 0x1_0000_0000) {
                    Option::None => Option::None,
                    Option::Some(v) => if v > 0xFFFF_FFFF {
                        Option::None
                    } else {
                        Option::Some(ActShape::Limit(v as u32))
                    },
                }
            }
        } else if t0 == "return"@ {
            Option::Some(ActShape::Return)
        } else if t0 == "jump"@ {
            if toks.len() <= 1 {
                Option::Some(ActShape::Jump(0))
            } else {
                let c = if t1.len() >= 6 && t1.take(6) == "chain_"@ {
                    t1.skip(6)
                } else {
                    t1
                };
                match spec_parse_dec(c, 0x1_0000_0000) {
                    Option::None => Option::None,
                    Option::Some(v) => if v > 0xFFFF_FFFF {
                        Option::None
                    } else {
                        Option::Some(ActShape::Jump(v as u32))
                    },
                }
            }
        } else if t0 == "log"@ {
            let j = find_word(toks, "prefix"@, 1);
            if j < 0 || j + 1 >= toks.len() {
                Option::Some(ActShape::Log(Seq::empty()))
            } else {
                Option::Some(
                    ActShape::Log(strip_quotes(toks[j + 1]) + log_tail(toks, j + 2)),
                )
            }
        } else if t0 == "mark"@ {
            if toks.len() <= 1 {
                Option::Some(ActShape::Mark(0))
            } else {
                match spec_parse_dec(t1, 0x1_0000_0000) {
                    Option::None => Option::None,
                    Option::Some(v) => if v > 0xFFFF_FFFF {
                        Option::None
                    } else {
                        Option::Some(ActShape::Mark(v as u32))
                    },
                }
            }
        } else if t0 == "meta"@ {
            if toks.len() <= 1 {
                Option::Some(ActShape::Meta(Seq::empty()))
            } else {
                Option::Some(ActShape::Meta(strip_quotes(t1)))
            }
        } else if t0 == "set"@ {
            Option::Some(ActShape::Assign(strip_quotes(t1), strip_quotes(t2)))
        } else if t0 == "masquerade"@ {
            Option::Some(ActShape::Masquerade)
        } else if t0 == "snat"@ {
            let a = if toks.len() > 1 && t1 == "to"@ {
                t2
            } else {
                t1
            };
            Option::Some(ActShape::Snat(strip_quotes(a)))
        } else if t0 == "dnat"@ {
            let a = if toks.len() > 1 && t1 == "to"@ {
                t2
            } else {
                t1
            };
            Option::Some(ActShape::Dnat(strip_quotes(a)))
        } else if t0 == "redirect"@ {
            if toks.len() <= 1 {
                Option::Some(ActShape::Redirect(Option::None))
            } else {
                match spec_parse_dec(t1, 0x1_0000) {
                    Option::Some(v) => if v <= 0xFFFF {
                        Option::Some(ActShape::Redirect(Option::Some(v as u16)))
                    } else {
                        Option::Some(ActShape::Redirect(Option::None))
                    },
                    Option::None => Option::Some(ActShape::Redirect(Option::None)),
                }
            }
        } else if t0 == "ct"@ {
            Option::Some(ActShape::Ct)
        } else if t0 == "queue"@ {
            Option::Some(ActShape::Queue)
        } else if t0 == "quota"@ {
            if toks.len() <= 1 {
                Option::Some(ActShape::Quota(0))
            } else {
                match spec_parse_dec(t1, 0x1000_0000_0000_0000) {
                    Option::None => Option::None,
                    Option::Some(v) => if v >= 0x1000_0000_0000_0000 {
                        Option::None
                    } else {
                        Option::Some(ActShape::Quota(v as u64))
                    },
                }
            }
        } else if t0 == "tproxy"@ {
            let pm = tproxy_scan(toks, 1, 0, 0);
            Option::Some(ActShape::TProxy(pm.0, pm.1))
        } else if t0 == "counter"@ {
            Option::Some(ActShape::Counter)
        } else if t0 == "hashlimit"@ {
            let burst = if toks.len() <= 2 {
                Option::None
            } else {
                match spec_parse_dec(t2, 0x1_0000_0000) {
                    Option::Some(v) => if v <= 0xFFFF_FFFF {
                        Option::Some(v as u32)
                    } else {
                        Option::None
                    },
                    Option::None => Option::None,
                }
            };
            Option::Some(ActShape::Hashlimit(t1, burst))
        } else if t0 == "flow"@ {
            if toks.len() > 1 && t1 == "offload"@ {
                Option::Some(ActShape::FlowOffload)
            } else {
                Option::Some(ActShape::Unset)
            }
        } else if t0 == "reclassify"@ {
            Option::Some(ActShape::Reclassify)
        } else {
            Option::Some(ActShape::Unset)
        }
    }
}

/// The rank of an action's variant, for cross-variant ordering.
pub open spec fn spec_variant_at(a: Action) -> int {
    match a {
        Action::Accept => 0,
        Action::Drop => 1,
        Action::Reject => 2,
        Action::Skip => 3,
        Action::Limit(_) => 4,
        Action::Return => 5,
        Action::Jump(_) => 6,
        Action::Log(_) => 7,
        Action::Mark(_) => 8,
        Action::Meta(_) => 9,
        Action::Assign(_, _) => 10,
        Action::Masquerade => 11,
        Action::Snat(_) => 12,
        Action::Dnat(_) => 13,
        Action::Redirect(_) => 14,
        Action::Ct => 15,
        Action::Queue => 16,
        Action::Quota(_) => 17,
        Action::TProxy(_, _) => 18,
        Action::Counter => 19,
        Action::Hashlimit(_, _) => 20,
        Action::FlowOffload => 21,
        Action::Reclassify => 22,
        Action::Unset => 23,
    }
}

/// The rendered text of an action.
pub open spec fn spec_action_str(a: Action) -> Seq<char> {
    match a {
        Action::Unset => Seq::empty(),
        Action::Accept => "accept"@,
        Action::Drop => "drop"@,
        Action::Reject => "reject"@,
        Action::Skip => "skip"@,
        Action::Limit(v) => "limit rate over "@ + dec_digits(v as nat) + "/second drop"@,
        Action::Return => "return"@,
        Action::Jump(v) => "jump chain_"@ + dec_digits(v as nat),
        Action::Log(m) => if m@.len() == 0 {
            "log"@
        } else {
            "log prefix \""@ + m@ + "\""@
        },
        Action::Mark(v) => "meta mark set "@ + dec_digits(v as nat),
        Action::Meta(m) => "meta "@ + m@,
        Action::Assign(k, v) => "set "@ + k@ + seq![' '] + v@,
        Action::Masquerade => "masquerade"@,
        Action::Snat(a1) => "snat to "@ + a1@,
        Action::Dnat(a1) => "dnat to "@ + a1@,
        Action::Redirect(p) => "redirect "@ + dec_digits(
            (if p is Some {
                p.unwrap() as nat
            } else {
                0
            }),
        ),
        Action::Ct => "ct"@,
        Action::Queue => "queue"@,
        Action::Quota(b) => "quota "@ + dec_digits(b as nat),
        Action::TProxy(p, m) => "tproxy to "@ + dec_digits(p as nat) + " with mark "@ + dec_digits(
            m as nat,
        ),
        Action::Counter => "counter"@,
        Action::Hashlimit(r, b) => "hashlimit "@ + r@ + seq![' '] + dec_digits(
            (if b is Some {
                b.unwrap() as nat
            } else {
                0
            }),
        ),
        Action::FlowOffload => "flow offload"@,
        Action::Reclassify => "reclassify"@,
    }
}

/// A matching word at `r` with no earlier match from `start` on is what
/// `find_word` returns.
proof fn lemma_find_word_is(toks: Seq<Seq<char>>, w: Seq<char>, start: int, r: int)
    requires
        0 <= start <= r < toks.len(),
        toks[r] == w,
        forall|k: int| start <= k < r ==> toks[k] != w,
    ensures
        find_word(toks, w, start) == r,
    decreases r - start,
{
    if start < r {
        lemma_find_word_is(toks, w, start + 1, r);
    }
}

/// Without the word from `start` on, `find_word` reports a negative value.
proof fn lemma_find_word_none(toks: Seq<Seq<char>>, w: Seq<char>, start: int)
    requires
        0 <= start,
        forall|k: int| start <= k < toks.len() ==> toks[k] != w,
    ensures
        find_word(toks, w, start) < 0,
    decreases toks.len() - start,
{
    if start < toks.len() {
        lemma_find_word_none(toks, w, start + 1);
    }
}

impl Action {
    /// The default verdict.
    pub fn new() -> (r: Action)
        ensures
            r == Action::Drop,
    {
        Action::Drop
    }

    /// Render the action in rule syntax.
    #[verifier::rlimit(100)]
    pub fn to_string(&self) -> (r: String)
        ensures
            r@ == spec_action_str(*self),
    {
        match self {
            Action::Unset => String::new(),
            Action::Accept => "accept".to_owned(),
            Action::Drop => "drop".to_owned(),
            Action::Reject => "reject".to_owned(),
            Action::Skip => "skip".to_owned(),
            Action::Limit(v) => {
                let mut out = "limit rate over ".to_owned();
                let d = u32_to_dec(*v);
                out.append(d.as_str());
                out.append("/second drop");
                proof {
                    assert(out@ =~= spec_action_str(*self));
                }
                out
            },
            Action::Return => "return".to_owned(),
            Action::Jump(v) => {
                let mut out = "jump chain_".to_owned();
                let d = u32_to_dec(*v);
                out.append(d.as_str());
                proof {
                    assert(out@ =~= spec_action_str(*self));
                }
                out
            },
            Action::Log(m) => {
                if m.as_str().unicode_len() == 0 {
                    "log".to_owned()
                } else {
                    let mut out = "log prefix \"".to_owned();
                    out.append(m.as_str());
                    out.append("\"");
                    proof {
                        assert(out@ =~= spec_action_str(*self));
                    }
                    out
                }
            },
            Action::Mark(v) => {
                let mut out = "meta mark set ".to_owned();
                let d = u32_to_dec(*v);
                out.append(d.as_str());
                proof {
                    assert(out@ =~= spec_action_str(*self));
                }
                out
            },
            Action::Meta(m) => {
                let mut out = "meta ".to_owned();
                out.append(m.as_str());
                proof {
                    assert(out@ =~= spec_action_str(*self));
                }
                out
            },
            Action::Assign(k, v) => {
                let mut out = "set ".to_owned();
                out.append(k.as_str());
                push_char(&mut out, ' ');
                out.append(v.as_str());
                proof {
                    assert(out@ =~= spec_action_str(*self));
                }
                out
            },
            Action::Masquerade => "masquerade".to_owned(),
            Action::Snat(a1) => {
                let mut out = "snat to ".to_owned();
                out.append(a1.as_str());
                proof {
                    assert(out@ =~= spec_action_str(*self));
                }
                out
            },
            Action::Dnat(a1) => {
                let mut out = "dnat to ".to_owned();
                out.append(a1.as_str());
                proof {
                    assert(out@ =~= spec_action_str(*self));
                }
                out
            },
            Action::Redirect(p) => {
                let mut out = "redirect ".to_owned();
                let v: u16 = match p {
                    Some(x) => *x,
                    None => 0,
                };
                let d = u32_to_dec(v as u32);
                out.append(d.as_str());
                proof {
                    assert(out@ =~= spec_action_str(*self));
                }
                out
            },
            Action::Ct => "ct".to_owned(),
            Action::Queue => "queue".to_owned(),
            Action::Quota(b) => {
                let mut out = "quota ".to_owned();
                let d = u64_to_dec(*b);
                out.append(d.as_str());
                proof {
                    assert(out@ =~= spec_action_str(*self));
                }
                out
            },
            Action::TProxy(p, m) => {
                let mut out = "tproxy to ".to_owned();
                let d = u32_to_dec(*p as u32);
                out.append(d.as_str());
                out.append(" with mark ");
                let d2 = u32_to_dec(*m);
                out.append(d2.as_str());
                proof {
                    assert(out@ =~= spec_action_str(*self));
                }
                out
            },
            Action::Counter => "counter".to_owned(),
            Action::Hashlimit(rate, b) => {
                let mut out = "hashlimit ".to_owned();
                out.append(rate.as_str());
                push_char(&mut out, ' ');
                let v: u32 = match b {
                    Some(x) => *x,
                    None => 0,
                };
                let d = u32_to_dec(v);
                out.append(d.as_str());
                proof {
                    assert(out@ =~= spec_action_str(*self));
                }
                out
            },
            Action::FlowOffload => "flow offload".to_owned(),
            Action::Reclassify => "reclassify".to_owned(),
        }
    }

    /// Read an action from rule syntax; an unknown leading word means no
    /// action, a malformed numeric argument is a fault.
    #[verifier::rlimit(100)]
    pub fn from_str(s: &str) -> (r: Result<Action, Error>)
        ensures
            (r is Ok) == (spec_parse_action(s@) is Some),
            r is Ok ==> act_matches(r.unwrap(), spec_parse_action(s@).unwrap()),
            r is Err ==> r.unwrap_err().code == 2,
    {
        let t = trim_exec(s);
        let n = t.unicode_len();
        if n == 0 {
            return Ok(Action::Unset);
        }
        let toks = crate::text::split_ws_exec(t);
        let empty_tok = t.substring_char(0, 0);
        proof {
            assert(empty_tok@ =~= Seq::<char>::empty());
            crate::text::lemma_trim_first(s@);
            crate::text::lemma_split_ws_nonempty(t@);
        }
        let t0s: &str = if toks.len() > 0 {
            toks[0]
        } else {
            empty_tok
        };
        let low = to_lower(t0s);
        let t0 = low.as_str();
        let t1: &str = if toks.len() > 1 {
            toks[1]
        } else {
            empty_tok
        };
        let t2: &str = if toks.len() > 2 {
            toks[2]
        } else {
            empty_tok
        };
        proof {
            let stoks = crate::text::split_ws(t@);
            if stoks.len() == 0 {
                assert(t0s@ =~= Seq::<char>::empty());
                assert(spec_lower(Seq::<char>::empty()) =~= Seq::<char>::empty());
            }
            if stoks.len() <= 1 {
                assert(t1@ =~= Seq::<char>::empty());
            }
            if stoks.len() <= 2 {
                assert(t2@ =~= Seq::<char>::empty());
            }
        }
        if str_eq(t0, "accept") {
            Ok(Action::Accept)
        } else if str_eq(t0, "drop") {
            Ok(Action::Drop)
        } else if str_eq(t0, "reject") {
            Ok(Action::Reject)
        } else if str_eq(t0, "skip") {
            Ok(Action::Skip)
        } else if str_eq(t0, "limit") {
            let mut j: usize = 1;
            let mut at: usize = 0;
            let mut found = false;
            while j < toks.len() && !found
                invariant
                    toks@.len() == crate::text::split_ws(t@).len(),
                    forall|i: int|
                        0 <= i < toks@.len() ==> (#[trigger] toks@[i])@ == crate::text::split_ws(
                            t@,
                        )[i],
                    1 <= j <= toks@.len(),
                    !found ==> forall|k: int|
                        1 <= k < j ==> crate::text::split_ws(t@)[k] != "over"@,
                    found ==> 1 <= at < toks@.len() && crate::text::split_ws(t@)[at as int]
                        == "over"@ && forall|k: int|
                        1 <= k < at ==> crate::text::split_ws(t@)[k] != "over"@,
                decreases toks@.len() - j + (if found {
                    0int
                } else {
                    1int
                }),
            {
                if str_eq(toks[j], "over") {
                    found = true;
                    at = j;
                } else {
                    j = j + 1;
                }
            }
            proof {
                if found {
                    lemma_find_word_is(crate::text::split_ws(t@), "over"@, 1, at as int);
                } else {
                    lemma_find_word_none(crate::text::split_ws(t@), "over"@, 1);
                }
            }
            if !found || at + 1 >= toks.len() {
                Ok(Action::Limit(0))
            } else {
                let rate_tok = toks[at + 1];
                let rn = rate_tok.unicode_len();
                let num: &str = match find_char_exec(rate_tok, '/') {
                    Some(d) => {
                        let h = rate_tok.substring_char(0, d);
                        proof {
                            assert(h@ =~= rate_tok@.take(find_char(rate_tok@, '/')));
                        }
                        h
                    },
                    None => rate_tok,
                };
                match parse_dec_capped(num, 0x1_0000_0000) {
                    Some(v) if v <= 0xFFFF_FFFF => Ok(Action::Limit(v as u32)),
                    _ => Err(format_err()),
                }
            }
        } else if str_eq(t0, "return") {
            Ok(Action::Return)
        } else if str_eq(t0, "jump") {
            if toks.len() <= 1 {
                Ok(Action::Jump(0))
            } else {
                let ln = t1.unicode_len();
                let c: &str = if ln >= 6 {
                    let head = t1.substring_char(0, 6);
                    if str_eq(head, "chain_") {
                        let tail = t1.substring_char(6, ln);
                        proof {
                            assert(head@ =~= t1@.take(6));
                            assert(tail@ =~= t1@.skip(6));
                        }
                        tail
                    } else {
                        proof {
                            assert(head@ =~= t1@.take(6));
                        }
                        t1
                    }
                } else {
                    t1
                };
                match parse_dec_capped(c, 0x1_0000_0000) {
                    Some(v) if v <= 0xFFFF_FFFF => Ok(Action::Jump(v as u32)),
                    _ => Err(format_err()),
                }
            }
        } else if str_eq(t0, "log") {
            let mut j: usize = 1;
            let mut at: usize = 0;
            let mut found = false;
            while j < toks.len() && !found
                invariant
                    toks@.len() == crate::text::split_ws(t@).len(),
                    forall|i: int|
                        0 <= i < toks@.len() ==> (#[trigger] toks@[i])@ == crate::text::split_ws(
                            t@,
                        )[i],
                    1 <= j <= toks@.len(),
                    !found ==> forall|k: int|
                        1 <= k < j ==> crate::text::split_ws(t@)[k] != "prefix"@,
                    found ==> 1 <= at < toks@.len() && crate::text::split_ws(t@)[at as int]
                        == "prefix"@ && forall|k: int|
                        1 <= k < at ==> crate::text::split_ws(t@)[k] != "prefix"@,
                decreases toks@.len() - j + (if found {
                    0int
                } else {
                    1int
                }),
            {
                if str_eq(toks[j], "prefix") {
                    found = true;
                    at = j;
                } else {
                    j = j + 1;
                }
            }
            proof {
                if found {
                    lemma_find_word_is(crate::text::split_ws(t@), "prefix"@, 1, at as int);
                } else {
                    lemma_find_word_none(crate::text::split_ws(t@), "prefix"@, 1);
                }
            }
            if !found || at + 1 >= toks.len() {
                Ok(Action::Log(String::new()))
            } else {
                let mut msg = strip_quotes_exec(toks[at + 1]).to_owned();
                let mut k: usize = at + 2;
                let ghost full = strip_quotes(crate::text::split_ws(t@)[at + 1]) + log_tail(
                    crate::text::split_ws(t@),
                    at + 2,
                );
                while k < toks.len()
                    invariant
                        toks@.len() == crate::text::split_ws(t@).len(),
                        forall|i: int|
                            0 <= i < toks@.len() ==> (#[trigger] toks@[i])@
                                == crate::text::split_ws(t@)[i],
                        at + 2 <= k <= toks@.len(),
                        full == msg@ + log_tail(crate::text::split_ws(t@), k as int),
                    decreases toks@.len() - k,
                {
                    push_char(&mut msg, ' ');
                    let piece = strip_quotes_exec(toks[k]);
                    msg.append(piece);
                    k = k + 1;
                }
                proof {
                    assert(log_tail(crate::text::split_ws(t@), toks@.len() as int)
                        =~= Seq::<char>::empty());
                    assert(msg@ =~= full);
                }
                Ok(Action::Log(msg))
            }
        } else if str_eq(t0, "mark") {
            if toks.len() <= 1 {
                Ok(Action::Mark(0))
            } else {
                match parse_dec_capped(t1, 0x1_0000_0000) {
                    Some(v) if v <= 0xFFFF_FFFF => Ok(Action::Mark(v as u32)),
                    _ => Err(format_err()),
                }
            }
        } else if str_eq(t0, "meta") {
            if toks.len() <= 1 {
                Ok(Action::Meta(String::new()))
            } else {
                Ok(Action::Meta(strip_quotes_exec(t1).to_owned()))
            }
        } else if str_eq(t0, "set") {
            Ok(
                Action::Assign(
                    strip_quotes_exec(t1).to_owned(),
                    strip_quotes_exec(t2).to_owned(),
                ),
            )
        } else if str_eq(t0, "masquerade") {
            Ok(Action::Masquerade)
        } else if str_eq(t0, "snat") {
            let a: &str = if toks.len() > 1 && str_eq(t1, "to") {
                t2
            } else {
                t1
            };
            Ok(Action::Snat(strip_quotes_exec(a).to_owned()))
        } else if str_eq(t0, "dnat") {
            let a: &str = if toks.len() > 1 && str_eq(t1, "to") {
                t2
            } else {
                t1
            };
            Ok(Action::Dnat(strip_quotes_exec(a).to_owned()))
        } else if str_eq(t0, "redirect") {
            if toks.len() <= 1 {
                Ok(Action::Redirect(None))
            } else {
                match parse_dec_capped(t1, 0x1_0000) {
                    Some(v) if v <= 0xFFFF => Ok(Action::Redirect(Some(v as u16))),
                    _ => Ok(Action::Redirect(None)),
                }
            }
        } else if str_eq(t0, "ct") {
            Ok(Action::Ct)
        } else if str_eq(t0, "queue") {
            Ok(Action::Queue)
        } else if str_eq(t0, "quota") {
            if toks.len() <= 1 {
                Ok(Action::Quota(0))
            } else {
                match parse_dec_capped(t1, 0x1000_0000_0000_0000) {
                    Some(v) if v < 0x1000_0000_0000_0000 => Ok(Action::Quota(v)),
                    _ => Err(format_err()),
                }
            }
        } else if str_eq(t0, "tproxy") {
            let mut i: usize = 1;
            let mut port: u16 = 0;
            let mut mark: u32 = 0;
            let ghost stoks = crate::text::split_ws(t@);
            while i < toks.len()
                invariant
                    toks@.len() == stoks.len(),
                    stoks == crate::text::split_ws(t@),
                    forall|q: int|
                        0 <= q < toks@.len() ==> (#[trigger] toks@[q])@ == stoks[q],
                    1 <= i,
                    tproxy_scan(stoks, 1, 0, 0) == tproxy_scan(
                        stoks,
                        i as int,
                        port,
                        mark,
                    ),
                decreases toks@.len() - i,
            {
                if str_eq(toks[i], "to") {
                    if i + 1 < toks.len() {
                        port = match parse_dec_capped(toks[i + 1], 0x1_0000) {
                            Some(v) if v <= 0xFFFF => v as u16,
                            _ => 0,
                        };
                        i = i + 2;
                    } else {
                        i = i + 1;
                        proof {
                            assert(tproxy_scan(stoks, i as int, port, mark) == (port, mark));
                        }
                    }
                } else if str_eq(toks[i], "with") {
                    if i + 1 < toks.len() && str_eq(toks[i + 1], "mark") {
                        if i + 2 < toks.len() {
                            mark = match parse_dec_capped(toks[i + 2], 0x1_0000_0000) {
                                Some(v) if v <= 0xFFFF_FFFF => v as u32,
                                _ => 0,
                            };
                            i = i + 3;
                        } else {
                            i = i + 2;
                        }
                    } else {
                        i = i + 1;
                    }
                } else {
                    i = i + 1;
                }
            }
            Ok(Action::TProxy(port, mark))
        } else if str_eq(t0, "counter") {
            Ok(Action::Counter)
        } else if str_eq(t0, "hashlimit") {
            let rate = t1.to_owned();
            let burst: Option<u32> = if toks.len() <= 2 {
                None
            } else {
                match parse_dec_capped(t2, 0x1_0000_0000) {
                    Some(v) if v <= 0xFFFF_FFFF => Some(v as u32),
                    _ => None,
                }
            };
            Ok(Action::Hashlimit(rate, burst))
        } else if str_eq(t0, "flow") {
            if toks.len() > 1 && str_eq(t1, "offload") {
                Ok(Action::FlowOffload)
            } else {
                Ok(Action::Unset)
            }
        } else if str_eq(t0, "reclassify") {
            Ok(Action::Reclassify)
        } else {
            Ok(Action::Unset)
        }
    }
}

/// Lexicographic order on character sequences, used for text fields.
pub open spec fn lex_chars(a: Seq<char>, b: Seq<char>) -> core::cmp::Ordering
    decreases a.len(),
{
    if a.len() == 0 && b.len() == 0 {
        core::cmp::Ordering::Equal
    } else if a.len() == 0 {
        core::cmp::Ordering::Less
    } else if b.len() == 0 {
        core::cmp::Ordering::Greater
    } else if a[0] < b[0] {
        core::cmp::Ordering::Less
    } else if a[0] > b[0] {
        core::cmp::Ordering::Greater
    } else {
        lex_chars(a.drop_first(), b.drop_first())
    }
}

/// Compare two strings lexicographically by character.
fn str_cmp(a: &str, b: &str) -> (r: core::cmp::Ordering)
    ensures
        r == lex_chars(a@, b@),
{
    let la = a.unicode_len();
    let lb = b.unicode_len();
    let mut i: usize = 0;
    proof {
        assert(a@.skip(0) =~= a@);
        assert(b@.skip(0) =~= b@);
    }
    loop
        invariant
            la == a@.len(),
            lb == b@.len(),
            i <= la,
            i <= lb,
            lex_chars(a@, b@) == lex_chars(a@.skip(i as int), b@.skip(i as int)),
        decreases la - i,
    {
        let a_end = i >= la;
        let b_end = i >= lb;
        if a_end && b_end {
            proof {
                assert(a@.skip(i as int) =~= Seq::<char>::empty());
                assert(b@.skip(i as int) =~= Seq::<char>::empty());
            }
            return core::cmp::Ordering::Equal;
        }
        if a_end {
            proof {
                assert(a@.skip(i as int) =~= Seq::<char>::empty());
                assert(b@.skip(i as int).len() > 0);
            }
            return core::cmp::Ordering::Less;
        }
        if b_end {
            proof {
                assert(b@.skip(i as int) =~= Seq::<char>::empty());
                assert(a@.skip(i as int).len() > 0);
            }
            return core::cmp::Ordering::Greater;
        }
        let x = a.get_char(i);
        let y = b.get_char(i);
        proof {
            assert(a@.skip(i as int)[0] == a@[i as int]);
            assert(b@.skip(i as int)[0] == b@[i as int]);
            assert(a@.skip(i as int).drop_first() =~= a@.skip(i + 1));
            assert(b@.skip(i as int).drop_first() =~= b@.skip(i + 1));
        }
        if x < y {
            return core::cmp::Ordering::Less;
        }
        if x > y {
            return core::cmp::Ordering::Greater;
        }
        i = i + 1;
    }
}

/// The order `Action::cmp` realizes: like variants compare by their
/// fields, unlike variants by variant rank.
pub open spec fn spec_action_cmp(a: Action, b: Action) -> core::cmp::Ordering {
    match (a, b) {
        (Action::Limit(x), Action::Limit(y)) => spec_cmp_u32(x, y),
        (Action::Jump(x), Action::Jump(y)) => spec_cmp_u32(x, y),
        (Action::Log(x), Action::Log(y)) => lex_chars(x@, y@),
        (Action::Mark(x), Action::Mark(y)) => spec_cmp_u32(x, y),
        (Action::Meta(x), Action::Meta(y)) => lex_chars(x@, y@),
        (Action::Assign(k1, v1), Action::Assign(k2, v2)) => if lex_chars(k1@, k2@)
            != core::cmp::Ordering::Equal {
            lex_chars(k1@, k2@)
        } else {
            lex_chars(v1@, v2@)
        },
        (Action::Snat(x), Action::Snat(y)) => lex_chars(x@, y@),
        (Action::Dnat(x), Action::Dnat(y)) => lex_chars(x@, y@),
        (Action::Redirect(x), Action::Redirect(y)) => spec_cmp_opt_u16(x, y),
        (Action::Quota(x), Action::Quota(y)) => spec_cmp_u64(x, y),
        (Action::TProxy(p1, m1), Action::TProxy(p2, m2)) => if p1 != p2 {
            spec_cmp_u32(p1 as u32, p2 as u32)
        } else {
            spec_cmp_u32(m1, m2)
        },
        (Action::Hashlimit(r1, b1), Action::Hashlimit(r2, b2)) => if lex_chars(r1@, r2@)
            != core::cmp::Ordering::Equal {
            lex_chars(r1@, r2@)
        } else {
            spec_cmp_opt_u32(b1, b2)
        },
        _ => spec_cmp_int(spec_variant_at(a), spec_variant_at(b)),
    }
}

/// Numeric order as an ordering value.
pub open spec fn spec_cmp_int(a: int, b: int) -> core::cmp::Ordering {
    if a < b {
        core::cmp::Ordering::Less
    } else if a > b {
        core::cmp::Ordering::Greater
    } else {
        core::cmp::Ordering::Equal
    }
}

/// Numeric order on thirty-two-bit values.
pub open spec fn spec_cmp_u32(a: u32, b: u32) -> core::cmp::Ordering {
    spec_cmp_int(a as int, b as int)
}

/// Numeric order on sixty-four-bit values.
pub open spec fn spec_cmp_u64(a: u64, b: u64) -> core::cmp::Ordering {
    spec_cmp_int(a as int, b as int)
}

/// Order on optional sixteen-bit values: nothing sorts lowest.
pub open spec fn spec_cmp_opt_u16(a: Option<u16>, b: Option<u16>) -> core::cmp::Ordering {
    match (a, b) {
        (Option::None, Option::None) => core::cmp::Ordering::Equal,
        (Option::None, Option::Some(_)) => core::cmp::Ordering::Less,
        (Option::Some(_), Option::None) => core::cmp::Ordering::Greater,
        (Option::Some(x), Option::Some(y)) => spec_cmp_int(x as int, y as int),
    }
}

/// Order on optional thirty-two-bit values: nothing sorts lowest.
pub open spec fn spec_cmp_opt_u32(a: Option<u32>, b: Option<u32>) -> core::cmp::Ordering {
    match (a, b) {
        (Option::None, Option::None) => core::cmp::Ordering::Equal,
        (Option::None, Option::Some(_)) => core::cmp::Ordering::Less,
        (Option::Some(_), Option::None) => core::cmp::Ordering::Greater,
        (Option::Some(x), Option::Some(y)) => spec_cmp_int(x as int, y as int),
    }
}

/// Compare two thirty-two-bit values.
fn cmp_u32(a: u32, b: u32) -> (r: core::cmp::Ordering)
    ensures
        r == spec_cmp_u32(a, b),
{
    if a < b {
        core::cmp::Ordering::Less
    } else if a > b {
        core::cmp::Ordering::Greater
    } else {
        core::cmp::Ordering::Equal
    }
}

impl Action {
    /// Order actions: like variants by their fields, unlike variants by
    /// variant rank.
    #[verifier::rlimit(100)]
    pub fn cmp(&self, other: &Action) -> (r: core::cmp::Ordering)
        ensures
            r == spec_action_cmp(*self, *other),
    {
        match (self, other) {
            (Action::Limit(x), Action::Limit(y)) => cmp_u32(*x, *y),
            (Action::Jump(x), Action::Jump(y)) => cmp_u32(*x, *y),
            (Action::Log(x), Action::Log(y)) => str_cmp(x.as_str(), y.as_str()),
            (Action::Mark(x), Action::Mark(y)) => cmp_u32(*x, *y),
            (Action::Meta(x), Action::Meta(y)) => str_cmp(x.as_str(), y.as_str()),
            (Action::Assign(k1, v1), Action::Assign(k2, v2)) => {
                let c = str_cmp(k1.as_str(), k2.as_str());
                match c {
                    core::cmp::Ordering::Equal => str_cmp(v1.as_str(), v2.as_str()),
                    _ => c,
                }
            },
            (Action::Snat(x), Action::Snat(y)) => str_cmp(x.as_str(), y.as_str()),
            (Action::Dnat(x), Action::Dnat(y)) => str_cmp(x.as_str(), y.as_str()),
            (Action::Redirect(x), Action::Redirect(y)) => {
                match (x, y) {
                    (None, None) => core::cmp::Ordering::Equal,
                    (None, Some(_)) => core::cmp::Ordering::Less,
                    (Some(_), None) => core::cmp::Ordering::Greater,
                    (Some(a), Some(b)) => cmp_u32(*a as u32, *b as u32),
                }
            },
            (Action::Quota(x), Action::Quota(y)) => {
                if *x < *y {
                    core::cmp::Ordering::Less
                } else if *x > *y {
                    core::cmp::Ordering::Greater
                } else {
                    core::cmp::Ordering::Equal
                }
            },
            (Action::TProxy(p1, m1), Action::TProxy(p2, m2)) => {
                if *p1 != *p2 {
                    cmp_u32(*p1 as u32, *p2 as u32)
                } else {
                    cmp_u32(*m1, *m2)
                }
            },
            (Action::Hashlimit(r1, b1), Action::Hashlimit(r2, b2)) => {
                let c = str_cmp(r1.as_str(), r2.as_str());
                match c {
                    core::cmp::Ordering::Equal => {
                        match (b1, b2) {
                            (None, None) => core::cmp::Ordering::Equal,
                            (None, Some(_)) => core::cmp::Ordering::Less,
                            (Some(_), None) => core::cmp::Ordering::Greater,
                            (Some(a), Some(b)) => cmp_u32(*a, *b),
                        }
                    },
                    _ => c,
                }
            },
            _ => {
                let a = self.variant_at();
                let b = other.variant_at();
                if a < b {
                    core::cmp::Ordering::Less
                } else if a > b {
                    core::cmp::Ordering::Greater
                } else {
                    core::cmp::Ordering::Equal
                }
            },
        }
    }

    /// Whether the action ends rule evaluation.
    pub fn is_terminal(&self) -> (r: bool)
        ensures
            r == (self matches Action::Accept || self matches Action::Drop
                || self matches Action::Reject || self matches Action::Return),
    {
        matches!(self, Action::Accept | Action::Drop | Action::Reject | Action::Return)
    }

    /// Whether the action accepts the packet.
    pub fn is_accept(&self) -> (r: bool)
        ensures
            r == (self matches Action::Accept),
    {
        matches!(self, Action::Accept)
    }

    /// Whether the action drops the packet.
    pub fn is_drop(&self) -> (r: bool)
        ensures
            r == (self matches Action::Drop),
    {
        matches!(self, Action::Drop)
    }

    /// Whether the action rejects the packet.
    pub fn is_reject(&self) -> (r: bool)
        ensures
            r == (self matches Action::Reject),
    {
        matches!(self, Action::Reject)
    }

    /// Whether the action returns from the chain.
    pub fn is_return(&self) -> (r: bool)
        ensures
            r == (self matches Action::Return),
    {
        matches!(self, Action::Return)
    }

    /// Whether the action skips the rule.
    pub fn is_skip(&self) -> (r: bool)
        ensures
            r == (self matches Action::Skip),
    {
        matches!(self, Action::Skip)
    }

    /// Whether the action rate-limits.
    pub fn is_limit(&self) -> (r: bool)
        ensures
            r == (self matches Action::Limit(_)),
    {
        matches!(self, Action::Limit(_))
    }

    /// Whether the action jumps to another chain.
    pub fn is_jump(&self) -> (r: bool)
        ensures
            r == (self matches Action::Jump(_)),
    {
        matches!(self, Action::Jump(_))
    }

    /// Whether the action logs the packet.
    pub fn is_log(&self) -> (r: bool)
        ensures
            r == (self matches Action::Log(_)),
    {
        matches!(self, Action::Log(_))
    }

    /// Whether the action sets a mark.
    pub fn is_mark(&self) -> (r: bool)
        ensures
            r == (self matches Action::Mark(_)),
    {
        matches!(self, Action::Mark(_))
    }

    /// Whether the action touches packet metadata.
    pub fn is_meta(&self) -> (r: bool)
        ensures
            r == (self matches Action::Meta(_)),
    {
        matches!(self, Action::Meta(_))
    }

    /// Whether the action writes a key and value.
    pub fn is_set(&self) -> (r: bool)
        ensures
            r == (self matches Action::Assign(_, _)),
    {
        matches!(self, Action::Assign(_, _))
    }

    /// Whether the action masquerades the source.
    pub fn is_masquerade(&self) -> (r: bool)
        ensures
            r == (self matches Action::Masquerade),
    {
        matches!(self, Action::Masquerade)
    }

    /// Whether the action rewrites the source address.
    pub fn is_snat(&self) -> (r: bool)
        ensures
            r == (self matches Action::Snat(_)),
    {
        matches!(self, Action::Snat(_))
    }

    /// Whether the action rewrites the destination address.
    pub fn is_dnat(&self) -> (r: bool)
        ensures
            r == (self matches Action::Dnat(_)),
    {
        matches!(self, Action::Dnat(_))
    }

    /// Whether the action redirects to a local port.
    pub fn is_redirect(&self) -> (r: bool)
        ensures
            r == (self matches Action::Redirect(_)),
    {
        matches!(self, Action::Redirect(_))
    }

    /// Whether the action tracks connections.
    pub fn is_ct(&self) -> (r: bool)
        ensures
            r == (self matches Action::Ct),
    {
        matches!(self, Action::Ct)
    }

    /// Whether the action queues to user space.
    pub fn is_queue(&self) -> (r: bool)
        ensures
            r == (self matches Action::Queue),
    {
        matches!(self, Action::Queue)
    }

    /// Whether the action enforces a byte quota.
    pub fn is_quota(&self) -> (r: bool)
        ensures
            r == (self matches Action::Quota(_)),
    {
        matches!(self, Action::Quota(_))
    }

    /// Whether the action proxies transparently.
    pub fn is_tproxy(&self) -> (r: bool)
        ensures
            r == (self matches Action::TProxy(_, _)),
    {
        matches!(self, Action::TProxy(_, _))
    }

    /// Whether the action counts packets.
    pub fn is_counter(&self) -> (r: bool)
        ensures
            r == (self matches Action::Counter),
    {
        matches!(self, Action::Counter)
    }

    /// Whether the action applies a hashed rate limit.
    pub fn is_hashlimit(&self) -> (r: bool)
        ensures
            r == (self matches Action::Hashlimit(_, _)),
    {
        matches!(self, Action::Hashlimit(_, _))
    }

    /// Whether the action offloads the flow.
    pub fn is_flow_offload(&self) -> (r: bool)
        ensures
            r == (self matches Action::FlowOffload),
    {
        matches!(self, Action::FlowOffload)
    }

    /// Whether the action reclassifies the packet.
    pub fn is_reclassify(&self) -> (r: bool)
        ensures
            r == (self matches Action::Reclassify),
    {
        matches!(self, Action::Reclassify)
    }

    /// Whether no action is named.
    pub fn is_none(&self) -> (r: bool)
        ensures
            r == (self matches Action::Unset),
    {
        matches!(self, Action::Unset)
    }

    /// The rate of a limit action, if the action is one.
    pub fn limit_value(&self) -> (r: Option<u32>)
        ensures
            self matches Action::Limit(v) ==> r == Some(*v),
            !(self matches Action::Limit(_)) ==> r is None,
    {
        if let Action::Limit(v) = self {
            Some(*v)
        } else {
            None
        }
    }

    /// The rank of the action's variant, for consistent ordering.
    pub fn variant_at(&self) -> (r: usize)
        ensures
            r == spec_variant_at(*self),
    {
        match self {
            Action::Accept => 0,
            Action::Drop => 1,
            Action::Reject => 2,
            Action::Skip => 3,
            Action::Limit(_) => 4,
            Action::Return => 5,
            Action::Jump(_) => 6,
            Action::Log(_) => 7,
            Action::Mark(_) => 8,
            Action::Meta(_) => 9,
            Action::Assign(_, _) => 10,
            Action::Masquerade => 11,
            Action::Snat(_) => 12,
            Action::Dnat(_) => 13,
            Action::Redirect(_) => 14,
            Action::Ct => 15,
            Action::Queue => 16,
            Action::Quota(_) => 17,
            Action::TProxy(_, _) => 18,
            Action::Counter => 19,
            Action::Hashlimit(_, _) => 20,
            Action::FlowOffload => 21,
            Action::Reclassify => 22,
            Action::Unset => 23,
        }
    }

    /// A fresh copy of the action.
    pub fn clone(&self) -> (r: Action)
        ensures
            act_eq(r, *self),
    {
        match self {
            Action::Unset => Action::Unset,
            Action::Accept => Action::Accept,
            Action::Drop => Action::Drop,
            Action::Reject => Action::Reject,
            Action::Skip => Action::Skip,
            Action::Limit(v) => Action::Limit(*v),
            Action::Return => Action::Return,
            Action::Jump(v) => Action::Jump(*v),
            Action::Log(m) => Action::Log(m.clone()),
            Action::Mark(v) => Action::Mark(*v),
            Action::Meta(m) => Action::Meta(m.clone()),
            Action::Assign(k, v) => Action::Assign(k.clone(), v.clone()),
            Action::Masquerade => Action::Masquerade,
            Action::Snat(a) => Action::Snat(a.clone()),
            Action::Dnat(a) => Action::Dnat(a.clone()),
            Action::Redirect(p) => Action::Redirect(*p),
            Action::Ct => Action::Ct,
            Action::Queue => Action::Queue,
            Action::Quota(b) => Action::Quota(*b),
            Action::TProxy(p, m) => Action::TProxy(*p, *m),
            Action::Counter => Action::Counter,
            Action::Hashlimit(r1, b) => Action::Hashlimit(r1.clone(), *b),
            Action::FlowOffload => Action::FlowOffload,
            Action::Reclassify => Action::Reclassify,
        }
    }
}

/// Deep equality of actions: same variant, same fields, text compared by
/// characters.
pub open spec fn act_eq(a: Action, b: Action) -> bool {
    match (a, b) {
        (Action::Unset, Action::Unset) => true,
        (Action::Accept, Action::Accept) => true,
        (Action::Drop, Action::Drop) => true,
        (Action::Reject, Action::Reject) => true,
        (Action::Skip, Action::Skip) => true,
        (Action::Limit(x), Action::Limit(y)) => x == y,
        (Action::Return, Action::Return) => true,
        (Action::Jump(x), Action::Jump(y)) => x == y,
        (Action::Log(x), Action::Log(y)) => x@ == y@,
        (Action::Mark(x), Action::Mark(y)) => x == y,
        (Action::Meta(x), Action::Meta(y)) => x@ == y@,
        (Action::Assign(k1, v1), Action::Assign(k2, v2)) => k1@ == k2@ && v1@ == v2@,
        (Action::Masquerade, Action::Masquerade) => true,
        (Action::Snat(x), Action::Snat(y)) => x@ == y@,
        (Action::Dnat(x), Action::Dnat(y)) => x@ == y@,
        (Action::Redirect(x), Action::Redirect(y)) => x == y,
        (Action::Ct, Action::Ct) => true,
        (Action::Queue, Action::Queue) => true,
        (Action::Quota(x), Action::Quota(y)) => x == y,
        (Action::TProxy(p1, m1), Action::TProxy(p2, m2)) => p1 == p2 && m1 == m2,
        (Action::Counter, Action::Counter) => true,
        (Action::Hashlimit(r1, b1), Action::Hashlimit(r2, b2)) => r1@ == r2@ && b1 == b2,
        (Action::FlowOffload, Action::FlowOffload) => true,
        (Action::Reclassify, Action::Reclassify) => true,
        _ => false,
    }
}

/// Render a sixty-four-bit value as its decimal numeral.
fn u64_to_dec(n: u64) -> (r: String)
    ensures
        r@ == dec_digits(n as nat),
{
    let mut digs: Vec<u8> = Vec::new();
    let mut cur = n;
    digs.push((cur % 10) as u8);
    cur = cur / 10;
    proof {
        assert(crate::text::rev_digit_chars(digs@) =~= seq![
            crate::text::digit_char((n % 10) as int),
        ]);
        if cur == 0 {
            assert(dec_digits(n as nat) =~= crate::text::rev_digit_chars(digs@));
        }
    }
    while cur > 0
        invariant
            digs@.len() >= 1,
            forall|k: int| 0 <= k < digs@.len() ==> digs@[k] < 10,
            cur > 0 ==> dec_digits(n as nat) =~= dec_digits(cur as nat)
                + crate::text::rev_digit_chars(digs@),
            cur == 0 ==> dec_digits(n as nat) =~= crate::text::rev_digit_chars(digs@),
        decreases cur,
    {
        let ghost before = digs@;
        let ghost cur0 = cur;
        digs.push((cur % 10) as u8);
        cur = cur / 10;
        proof {
            assert(crate::text::rev_digit_chars(digs@) =~= seq![
                crate::text::digit_char((cur0 % 10) as int),
            ] + crate::text::rev_digit_chars(before));
            if cur > 0 {
                assert(dec_digits(cur0 as nat) =~= dec_digits(cur0 as nat / 10).push(
                    crate::text::digit_char((cur0 as nat % 10) as int),
                ));
                assert(dec_digits(cur0 as nat / 10).push(
                    crate::text::digit_char((cur0 as nat % 10) as int),
                ) =~= dec_digits(cur0 as nat / 10) + seq![
                    crate::text::digit_char((cur0 as nat % 10) as int),
                ]);
                assert(dec_digits(n as nat) =~= dec_digits(cur as nat)
                    + crate::text::rev_digit_chars(digs@));
            } else {
                assert(dec_digits(cur0 as nat) =~= seq![
                    crate::text::digit_char((cur0 % 10) as int),
                ]);
                assert(dec_digits(n as nat) =~= crate::text::rev_digit_chars(digs@));
            }
        }
    }
    let mut out = String::new();
    let mut i = digs.len();
    while i > 0
        invariant
            i <= digs@.len(),
            forall|k: int| 0 <= k < digs@.len() ==> digs@[k] < 10,
            out@ =~= crate::text::rev_digit_chars(digs@).take((digs@.len() - i) as int),
        decreases i,
    {
        i = i - 1;
        let d = digs[i];
        push_char(&mut out, crate::text::digit_to_char_exec(d));
        proof {
            let m = (digs@.len() - i - 1) as int;
            assert(crate::text::rev_digit_chars(digs@)[m] == crate::text::digit_char(
                digs@[i as int] as int,
            ));
            assert(out@ =~= crate::text::rev_digit_chars(digs@).take(m + 1));
        }
    }
    proof {
        assert(crate::text::rev_digit_chars(digs@).take(digs@.len() as int)
            =~= crate::text::rev_digit_chars(digs@));
        assert(out@ =~= dec_digits(n as nat));
    }
    out
}

/// A packet-matching rule: source and destination addresses, source and
/// destination ports, protocols, family, direction, action, and labels.
#[derive(Debug, PartialEq, Eq)]
pub struct Rule {
    pub ips: (Vec<Ip>, Vec<Ip>),
    pub ports: (Vec<Port>, Vec<Port>),
    pub protocols: Vec<Proto>,
    pub family: Family,
    pub direction: Direction,
    pub action: Action,
    pub name: String,
    pub comment: String,
}

/// Deep equality of address values.
pub open spec fn ip_eq(a: Ip, b: Ip) -> bool {
    match (a, b) {
        (Ip::Unset, Ip::Unset) => true,
        (Ip::V4(x), Ip::V4(y)) => x@ == y@,
        (Ip::V6(x), Ip::V6(y)) => x@ == y@,
        (Ip::Any(x), Ip::Any(y)) => x@ == y@,
        _ => false,
    }
}

/// Element-wise deep equality of address vectors.
pub open spec fn ips_eq(a: Seq<Ip>, b: Seq<Ip>) -> bool {
    a.len() == b.len() && forall|i: int| 0 <= i < a.len() ==> ip_eq(#[trigger] a[i], b[i])
}

/// Element-wise equality of port vectors, by number and protocol.
pub open spec fn ports_eq(a: Seq<Port>, b: Seq<Port>) -> bool {
    a.len() == b.len() && forall|i: int|
        0 <= i < a.len() ==> (#[trigger] a[i]).0 == b[i].0 && a[i].1 == b[i].1
}

/// Element-wise equality of protocol vectors, by number.
pub open spec fn protos_eq(a: Seq<Proto>, b: Seq<Proto>) -> bool {
    a.len() == b.len() && forall|i: int| 0 <= i < a.len() ==> (#[trigger] a[i]).0 == b[i].0
}

/// Whether two address values hold exactly the same bytes and tag.
fn ip_eq_exec(a: &Ip, b: &Ip) -> (r: bool)
    ensures
        r == ip_eq(*a, *b),
{
    let same_tag = match (a, b) {
        (Ip::Unset, Ip::Unset) => true,
        (Ip::V4(_), Ip::V4(_)) => true,
        (Ip::V6(_), Ip::V6(_)) => true,
        (Ip::Any(_), Ip::Any(_)) => true,
        _ => false,
    };
    if !same_tag {
        return false;
    }
    let va = a.to_bytes();
    let vb = b.to_bytes();
    if va.len() != vb.len() {
        return false;
    }
    let mut i: usize = 0;
    while i < va.len()
        invariant
            va@.len() == vb@.len(),
            i <= va@.len(),
            va@ == ip_bytes(*a),
            vb@ == ip_bytes(*b),
            forall|k: int| 0 <= k < i ==> va@[k] == vb@[k],
        decreases va@.len() - i,
    {
        if va[i] != vb[i] {
            return false;
        }
        i = i + 1;
    }
    proof {
        assert(va@ =~= vb@);
    }
    true
}

/// Whether two address vectors hold the same values in the same order.
fn ips_eq_exec(a: &Vec<Ip>, b: &Vec<Ip>) -> (r: bool)
    ensures
        r == ips_eq(a@, b@),
{
    if a.len() != b.len() {
        return false;
    }
    let mut i: usize = 0;
    while i < a.len()
        invariant
            a@.len() == b@.len(),
            i <= a@.len(),
            forall|k: int| 0 <= k < i ==> ip_eq(#[trigger] a@[k], b@[k]),
        decreases a@.len() - i,
    {
        if !ip_eq_exec(&a[i], &b[i]) {
            return false;
        }
        i = i + 1;
    }
    true
}

/// Whether two port vectors hold the same entries in the same order.
fn ports_eq_exec(a: &Vec<Port>, b: &Vec<Port>) -> (r: bool)
    ensures
        r == ports_eq(a@, b@),
{
    if a.len() != b.len() {
        return false;
    }
    let mut i: usize = 0;
    while i < a.len()
        invariant
            a@.len() == b@.len(),
            i <= a@.len(),
            forall|k: int| 0 <= k < i ==> (#[trigger] a@[k]).0 == b@[k].0 && a@[k].1 == b@[k].1,
        decreases a@.len() - i,
    {
        if !(a[i].0 == b[i].0 && a[i].1 == b[i].1) {
            return false;
        }
        i = i + 1;
    }
    true
}

/// Whether two protocol vectors hold the same numbers in the same order.
fn protos_eq_exec(a: &Vec<Proto>, b: &Vec<Proto>) -> (r: bool)
    ensures
        r == protos_eq(a@, b@),
{
    if a.len() != b.len() {
        return false;
    }
    let mut i: usize = 0;
    while i < a.len()
        invariant
            a@.len() == b@.len(),
            i <= a@.len(),
            forall|k: int| 0 <= k < i ==> (#[trigger] a@[k]).0 == b@[k].0,
        decreases a@.len() - i,
    {
        if !(a[i].0 == b[i].0) {
            return false;
        }
        i = i + 1;
    }
    true
}

/// Copy an address vector.
fn copy_ips(v: &Vec<Ip>) -> (r: Vec<Ip>)
    ensures
        ips_eq(r@, v@),
{
    let mut out: Vec<Ip> = Vec::new();
    let mut i: usize = 0;
    while i < v.len()
        invariant
            i <= v@.len(),
            out@.len() == i,
            forall|k: int| 0 <= k < i ==> ip_eq(#[trigger] out@[k], v@[k]),
        decreases v@.len() - i,
    {
        let c: Ip = match &v[i] {
            Ip::Unset => Ip::Unset,
            Ip::V4(a) => Ip::V4(*a),
            Ip::V6(a) => Ip::V6(*a),
            Ip::Any(w) => Ip::Any(copy_bytes(w)),
        };
        out.push(c);
        i = i + 1;
    }
    out
}

/// Copy a port vector.
fn copy_ports(v: &Vec<Port>) -> (r: Vec<Port>)
    ensures
        r@.len() == v@.len(),
        forall|k: int|
            0 <= k < v@.len() ==> (#[trigger] r@[k]).0 == v@[k].0 && r@[k].1 == v@[k].1 && r@[k].2@
                == v@[k].2@,
    {
    let mut out: Vec<Port> = Vec::new();
    let mut i: usize = 0;
    while i < v.len()
        invariant
            i <= v@.len(),
            out@.len() == i,
            forall|k: int|
                0 <= k < i ==> (#[trigger] out@[k]).0 == v@[k].0 && out@[k].1 == v@[k].1
                    && out@[k].2@ == v@[k].2@,
        decreases v@.len() - i,
    {
        out.push(v[i].clone());
        i = i + 1;
    }
    out
}

/// Copy a protocol vector.
fn copy_protos(v: &Vec<Proto>) -> (r: Vec<Proto>)
    ensures
        r@.len() == v@.len(),
        forall|k: int|
            0 <= k < v@.len() ==> (#[trigger] r@[k]).0 == v@[k].0 && r@[k].1@ == v@[k].1@,
{
    let mut out: Vec<Proto> = Vec::new();
    let mut i: usize = 0;
    while i < v.len()
        invariant
            i <= v@.len(),
            out@.len() == i,
            forall|k: int|
                0 <= k < i ==> (#[trigger] out@[k]).0 == v@[k].0 && out@[k].1@ == v@[k].1@,
        decreases v@.len() - i,
    {
        out.push(v[i].clone());
        i = i + 1;
    }
    out
}

impl Rule {
    /// Pack the parts of a rule.
    pub fn new(
        ips: (Vec<Ip>, Vec<Ip>),
        ports: (Vec<Port>, Vec<Port>),
        protocols: Vec<Proto>,
        family: Family,
        direction: Direction,
        action: Action,
        name: String,
        comment: String,
    ) -> (r: Rule)
        ensures
            r.ips.0@ == ips.0@,
            r.ips.1@ == ips.1@,
            r.ports.0@ == ports.0@,
            r.ports.1@ == ports.1@,
            r.protocols@ == protocols@,
            r.family == family,
            r.direction == direction,
            act_eq(r.action, action),
            r.name@ == name@,
            r.comment@ == comment@,
    {
        proof {
            assert(act_eq(action, action)) by {
                match action {
                    _ => {},
                }
            }
        }
        Rule { ips, ports, protocols, family, direction, action, name, comment }
    }

    /// A fresh copy of the rule.
    pub fn clone(&self) -> (r: Rule)
        ensures
            ips_eq(r.ips.0@, self.ips.0@),
            ips_eq(r.ips.1@, self.ips.1@),
            ports_eq(r.ports.0@, self.ports.0@),
            ports_eq(r.ports.1@, self.ports.1@),
            protos_eq(r.protocols@, self.protocols@),
            r.family == self.family,
            r.direction == self.direction,
            act_eq(r.action, self.action),
            r.name@ == self.name@,
            r.comment@ == self.comment@,
    {
        Rule {
            ips: (copy_ips(&self.ips.0), copy_ips(&self.ips.1)),
            ports: (copy_ports(&self.ports.0), copy_ports(&self.ports.1)),
            protocols: copy_protos(&self.protocols),
            family: self.family,
            direction: self.direction,
            action: self.action.clone(),
            name: self.name.clone(),
            comment: self.comment.clone(),
        }
    }

    /// The empty rule with no action and no family.
    pub fn default() -> (r: Rule)
        ensures
            r.ips.0@.len() == 0,
            r.ips.1@.len() == 0,
            r.ports.0@.len() == 0,
            r.ports.1@.len() == 0,
            r.protocols@.len() == 0,
            r.family == Family::Unset,
            r.direction == Direction::Unset,
            r.action == Action::Unset,
            r.name@ == Seq::<char>::empty(),
            r.comment@ == Seq::<char>::empty(),
    {
        Rule {
            ips: (Vec::new(), Vec::new()),
            ports: (Vec::new(), Vec::new()),
            protocols: Vec::new(),
            family: Family::Unset,
            direction: Direction::Unset,
            action: Action::Unset,
            name: String::new(),
            comment: String::new(),
        }
    }

    /// The source addresses.
    pub fn src_ips(&self) -> (r: &Vec<Ip>)
        ensures
            r@ == self.ips.0@,
    {
        &self.ips.0
    }

    /// The destination addresses.
    pub fn dst_ips(&self) -> (r: &Vec<Ip>)
        ensures
            r@ == self.ips.1@,
    {
        &self.ips.1
    }

    /// The source ports.
    pub fn src_ports(&self) -> (r: &Vec<Port>)
        ensures
            r@ == self.ports.0@,
    {
        &self.ports.0
    }

    /// The destination ports.
    pub fn dst_ports(&self) -> (r: &Vec<Port>)
        ensures
            r@ == self.ports.1@,
    {
        &self.ports.1
    }

    /// The protocols.
    pub fn protocols(&self) -> (r: &Vec<Proto>)
        ensures
            r@ == self.protocols@,
    {
        &self.protocols
    }

    /// The family.
    pub fn family(&self) -> (r: &Family)
        ensures
            r == self.family,
    {
        &self.family
    }

    /// The direction.
    pub fn direction(&self) -> (r: &Direction)
        ensures
            r == self.direction,
    {
        &self.direction
    }

    /// The action.
    pub fn action(&self) -> (r: &Action)
        ensures
            r == self.action,
    {
        &self.action
    }

    /// The rule's name.
    pub fn name(&self) -> (r: &str)
        ensures
            r@ == self.name@,
    {
        self.name.as_str()
    }

    /// The rule's comment.
    pub fn comment(&self) -> (r: &str)
        ensures
            r@ == self.comment@,
    {
        self.comment.as_str()
    }

    /// Whether two rules match the same traffic the same way.
    pub fn eq(&self, other: &Rule) -> (r: bool)
        ensures
            r == (ips_eq(self.ips.0@, other.ips.0@) && ips_eq(self.ips.1@, other.ips.1@)
                && ports_eq(self.ports.0@, other.ports.0@) && ports_eq(
                self.ports.1@,
                other.ports.1@,
            ) && protos_eq(self.protocols@, other.protocols@) && self.family == other.family
                && self.direction == other.direction && act_eq(self.action, other.action)
                && self.name@ == other.name@ && self.comment@ == other.comment@),
    {
        ips_eq_exec(&self.ips.0, &other.ips.0) && ips_eq_exec(&self.ips.1, &other.ips.1)
            && ports_eq_exec(&self.ports.0, &other.ports.0) && ports_eq_exec(
            &self.ports.1,
            &other.ports.1,
        ) && protos_eq_exec(&self.protocols, &other.protocols) && self.family.eq(&other.family)
            && self.direction.eq(&other.direction) && act_eq_exec(&self.action, &other.action)
            && str_eq(self.name.as_str(), other.name.as_str()) && str_eq(
            self.comment.as_str(),
            other.comment.as_str(),
        )
    }

    /// Whether two rules differ anywhere.
    pub fn ne(&self, other: &Rule) -> (r: bool)
        ensures
            r == !(ips_eq(self.ips.0@, other.ips.0@) && ips_eq(self.ips.1@, other.ips.1@)
                && ports_eq(self.ports.0@, other.ports.0@) && ports_eq(
                self.ports.1@,
                other.ports.1@,
            ) && protos_eq(self.protocols@, other.protocols@) && self.family == other.family
                && self.direction == other.direction && act_eq(self.action, other.action)
                && self.name@ == other.name@ && self.comment@ == other.comment@),
    {
        !self.eq(other)
    }

    /// Move the other rule's match lists to the end of this rule's lists.
    pub fn append(&mut self, other: &mut Rule)
        ensures
            final(self).ips.0@ == old(self).ips.0@ + old(other).ips.0@,
            final(self).ips.1@ == old(self).ips.1@ + old(other).ips.1@,
            final(self).ports.0@ == old(self).ports.0@ + old(other).ports.0@,
            final(self).ports.1@ == old(self).ports.1@ + old(other).ports.1@,
            final(self).protocols@ == old(self).protocols@ + old(other).protocols@,
            final(self).family == old(self).family,
            final(self).direction == old(self).direction,
            final(self).action == old(self).action,
            final(self).name@ == old(self).name@,
            final(self).comment@ == old(self).comment@,
            final(other).ips.0@.len() == 0,
            final(other).ips.1@.len() == 0,
            final(other).ports.0@.len() == 0,
            final(other).ports.1@.len() == 0,
            final(other).protocols@.len() == 0,
    {
        self.ips.0.append(&mut other.ips.0);
        self.ips.1.append(&mut other.ips.1);
        self.ports.0.append(&mut other.ports.0);
        self.ports.1.append(&mut other.ports.1);
        self.protocols.append(&mut other.protocols);
    }

    /// The accept verdict label.
    pub fn accept() -> (r: String)
        ensures
            r@ == "ACCEPT"@,
    {
        "ACCEPT".to_owned()
    }

    /// The drop verdict label.
    pub fn drop() -> (r: String)
        ensures
            r@ == "DROP"@,
    {
        "DROP".to_owned()
    }

    /// The reject verdict label.
    pub fn reject() -> (r: String)
        ensures
            r@ == "REJECT"@,
    {
        "REJECT".to_owned()
    }

    /// The skip verdict label.
    pub fn skip() -> (r: String)
        ensures
            r@ == "SKIP"@,
    {
        "SKIP".to_owned()
    }

    /// The return verdict label.
    pub fn return_() -> (r: String)
        ensures
            r@ == "RETURN"@,
    {
        "RETURN".to_owned()
    }

    /// A limit clause with its rate.
    pub fn limit(value: u32) -> (r: String)
        ensures
            r@ == "LIMIT "@ + dec_digits(value as nat),
    {
        let mut out = "LIMIT ".to_owned();
        let d = u32_to_dec(value);
        out.append(d.as_str());
        out
    }

    /// A jump clause with its chain number.
    pub fn jump(value: u32) -> (r: String)
        ensures
            r@ == "JUMP "@ + dec_digits(value as nat),
    {
        let mut out = "JUMP ".to_owned();
        let d = u32_to_dec(value);
        out.append(d.as_str());
        out
    }

    /// A log clause with its message.
    pub fn log(msg: &str) -> (r: String)
        ensures
            r@ == "LOG "@ + msg@,
    {
        let mut out = "LOG ".to_owned();
        out.append(msg);
        out
    }

    /// A mark clause with its value.
    pub fn mark(value: u32) -> (r: String)
        ensures
            r@ == "MARK "@ + dec_digits(value as nat),
    {
        let mut out = "MARK ".to_owned();
        let d = u32_to_dec(value);
        out.append(d.as_str());
        out
    }

    /// A metadata clause with its message.
    pub fn meta(msg: &str) -> (r: String)
        ensures
            r@ == "META "@ + msg@,
    {
        let mut out = "META ".to_owned();
        out.append(msg);
        out
    }

    /// A set clause with its key and value.
    pub fn set(key: &str, value: &str) -> (r: String)
        ensures
            r@ == "SET "@ + key@ + seq![' '] + value@,
    {
        let mut out = "SET ".to_owned();
        out.append(key);
        push_char(&mut out, ' ');
        out.append(value);
        out
    }

    /// The masquerade label.
    pub fn masquerade() -> (r: String)
        ensures
            r@ == "MASQUERADE"@,
    {
        "MASQUERADE".to_owned()
    }

    /// A source-rewrite clause with its address.
    pub fn snat(addr: &str) -> (r: String)
        ensures
            r@ == "SNAT "@ + addr@,
    {
        let mut out = "SNAT ".to_owned();
        out.append(addr);
        out
    }

    /// A destination-rewrite clause with its address.
    pub fn dnat(addr: &str) -> (r: String)
        ensures
            r@ == "DNAT "@ + addr@,
    {
        let mut out = "DNAT ".to_owned();
        out.append(addr);
        out
    }

    /// A redirect clause with its port.
    pub fn redirect(port: u16) -> (r: String)
        ensures
            r@ == "REDIRECT "@ + dec_digits(port as nat),
    {
        let mut out = "REDIRECT ".to_owned();
        let d = u32_to_dec(port as u32);
        out.append(d.as_str());
        out
    }

    /// The connection-tracking label.
    pub fn ct() -> (r: String)
        ensures
            r@ == "CT"@,
    {
        "CT".to_owned()
    }

    /// The queue label.
    pub fn queue() -> (r: String)
        ensures
            r@ == "QUEUE"@,
    {
        "QUEUE".to_owned()
    }

    /// A quota clause with its byte count.
    pub fn quota(bytes: u64) -> (r: String)
        ensures
            r@ == "QUOTA "@ + dec_digits(bytes as nat),
    {
        let mut out = "QUOTA ".to_owned();
        let d = u64_to_dec(bytes);
        out.append(d.as_str());
        out
    }

    /// A transparent-proxy clause with its port and mark.
    pub fn tproxy(port: u16, mark: u32) -> (r: String)
        ensures
            r@ == "TPROXY "@ + dec_digits(port as nat) + seq![' '] + dec_digits(mark as nat),
    {
        let mut out = "TPROXY ".to_owned();
        let d = u32_to_dec(port as u32);
        out.append(d.as_str());
        push_char(&mut out, ' ');
        let d2 = u32_to_dec(mark);
        out.append(d2.as_str());
        out
    }

    /// The counter label.
    pub fn counter() -> (r: String)
        ensures
            r@ == "COUNTER"@,
    {
        "COUNTER".to_owned()
    }

    /// A hashed-limit clause with its rate and burst.
    pub fn hashlimit(rate: &str, burst: Option<u32>) -> (r: String)
        ensures
            r@ == "HASHLIMIT "@ + rate@ + seq![' '] + dec_digits(
                (if burst is Some {
                    burst.unwrap() as nat
                } else {
                    0
                }),
            ),
    {
        let mut out = "HASHLIMIT ".to_owned();
        out.append(rate);
        push_char(&mut out, ' ');
        let v: u32 = match burst {
            Some(x) => x,
            None => 0,
        };
        let d = u32_to_dec(v);
        out.append(d.as_str());
        out
    }

    /// The flow-offload label.
    pub fn flow_offload() -> (r: String)
        ensures
            r@ == "FLOW_OFFLOAD"@,
    {
        "FLOW_OFFLOAD".to_owned()
    }

    /// The reclassify label.
    pub fn reclassify() -> (r: String)
        ensures
            r@ == "RECLASSIFY"@,
    {
        "RECLASSIFY".to_owned()
    }

    /// The label of no verdict.
    pub fn none() -> (r: String)
        ensures
            r@ == "NONE"@,
    {
        "NONE".to_owned()
    }
}

/// Whether two actions carry the same variant and fields.
fn act_eq_exec(a: &Action, b: &Action) -> (r: bool)
    ensures
        r == act_eq(*a, *b),
{
    match (a, b) {
        (Action::Unset, Action::Unset) => true,
        (Action::Accept, Action::Accept) => true,
        (Action::Drop, Action::Drop) => true,
        (Action::Reject, Action::Reject) => true,
        (Action::Skip, Action::Skip) => true,
        (Action::Limit(x), Action::Limit(y)) => x == y,
        (Action::Return, Action::Return) => true,
        (Action::Jump(x), Action::Jump(y)) => x == y,
        (Action::Log(x), Action::Log(y)) => str_eq(x.as_str(), y.as_str()),
        (Action::Mark(x), Action::Mark(y)) => x == y,
        (Action::Meta(x), Action::Meta(y)) => str_eq(x.as_str(), y.as_str()),
        (Action::Assign(k1, v1), Action::Assign(k2, v2)) => str_eq(k1.as_str(), k2.as_str())
            && str_eq(v1.as_str(), v2.as_str()),
        (Action::Masquerade, Action::Masquerade) => true,
        (Action::Snat(x), Action::Snat(y)) => str_eq(x.as_str(), y.as_str()),
        (Action::Dnat(x), Action::Dnat(y)) => str_eq(x.as_str(), y.as_str()),
        (Action::Redirect(x), Action::Redirect(y)) => {
            match (x, y) {
                (None, None) => true,
                (Some(p), Some(q)) => p == q,
                _ => false,
            }
        },
        (Action::Ct, Action::Ct) => true,
        (Action::Queue, Action::Queue) => true,
        (Action::Quota(x), Action::Quota(y)) => x == y,
        (Action::TProxy(p1, m1), Action::TProxy(p2, m2)) => p1 == p2 && m1 == m2,
        (Action::Counter, Action::Counter) => true,
        (Action::Hashlimit(r1, b1), Action::Hashlimit(r2, b2)) => str_eq(r1.as_str(), r2.as_str())
            && match (b1, b2) {
            (None, None) => true,
            (Some(p), Some(q)) => p == q,
            _ => false,
        },
        (Action::FlowOffload, Action::FlowOffload) => true,
        (Action::Reclassify, Action::Reclassify) => true,
        _ => false,
    }
}

/// The rendered text of a port entry.
pub open spec fn spec_port_str(p: Port) -> Seq<char> {
    let word = spec_proto_word(p.1);
    let desc = spec_trim(p.2@);
    if desc.len() == 0 {
        word + seq![' '] + dec_digits(p.0 as nat)
    } else {
        word + seq![' ', '('] + dec_digits(p.0 as nat) + seq![')', ' ', '#', ' '] + desc
    }
}

/// The rendered text of a protocol entry.
pub open spec fn spec_proto_str(p: Proto) -> Seq<char> {
    let name = spec_proto_name(p.1@);
    let desc = spec_proto_desc(p.1@);
    if desc.len() == 0 {
        name + seq![' ', '('] + dec_digits(p.0 as nat) + seq![')']
    } else {
        name + seq![' ', '('] + dec_digits(p.0 as nat) + seq![')', ' ', '#', ' '] + desc
    }
}

/// Whether an address value belongs to the family, by tag.
pub open spec fn ip_in_family(ip: Ip, fam: Family) -> bool {
    match (ip, fam) {
        (_, Family::Any) => true,
        (Ip::V4(_), Family::V4) => true,
        (Ip::V6(_), Family::V6) => true,
        _ => false,
    }
}

/// The rendered texts of the addresses that belong to the family.
pub open spec fn ip_strs(ips: Seq<Ip>, fam: Family) -> Seq<Seq<char>>
    decreases ips.len(),
{
    if ips.len() == 0 {
        Seq::empty()
    } else {
        let rest = ip_strs(ips.drop_first(), fam);
        if ip_in_family(ips[0], fam) {
            seq![spec_ip_str(ips[0])] + rest
        } else {
            rest
        }
    }
}

/// The rendered texts of a port list.
pub open spec fn port_strs(ps: Seq<Port>) -> Seq<Seq<char>>
    decreases ps.len(),
{
    if ps.len() == 0 {
        Seq::empty()
    } else {
        seq![spec_port_str(ps[0])] + port_strs(ps.drop_first())
    }
}

/// The rendered texts of a protocol list.
pub open spec fn proto_strs(ps: Seq<Proto>) -> Seq<Seq<char>>
    decreases ps.len(),
{
    if ps.len() == 0 {
        Seq::empty()
    } else {
        seq![spec_proto_str(ps[0])] + proto_strs(ps.drop_first())
    }
}

/// Texts joined by a separator.
pub open spec fn join_sep(ss: Seq<Seq<char>>, sep: Seq<char>) -> Seq<char>
    decreases ss.len(),
{
    if ss.len() == 0 {
        Seq::empty()
    } else if ss.len() == 1 {
        ss[0]
    } else {
        join_sep(ss.drop_last(), sep) + sep + ss.last()
    }
}

/// A keyword clause: one item plain, several in braces.
pub open spec fn spec_clause(word: Seq<char>, ss: Seq<Seq<char>>) -> Seq<char> {
    if ss.len() > 1 {
        word + " { "@ + join_sep(ss, ", "@) + " }"@
    } else {
        word + seq![' '] + ss[0]
    }
}

/// The rendered text of a rule: family and direction, address, protocol
/// and port clauses, the action, and the name and comment labels, joined
/// by single spaces.
pub open spec fn spec_rule_str(r: Rule) -> Seq<char> {
    join_sep(spec_rule_parts(r), seq![' '])
}

/// Join rendered pieces with a separator.
fn join_strings(parts: &Vec<String>, sep: &str) -> (r: String)
    ensures
        r@ == join_sep(parts@.map_values(|x: String| x@), sep@),
{
    let ghost f = |x: String| x@;
    let mut out = String::new();
    let mut i: usize = 0;
    proof {
        assert(parts@.map_values(f).take(0) =~= Seq::<Seq<char>>::empty());
    }
    while i < parts.len()
        invariant
            f == (|x: String| x@),
            i <= parts@.len(),
            out@ == join_sep(parts@.map_values(f).take(i as int), sep@),
        decreases parts@.len() - i,
    {
        if i > 0 {
            out.append(sep);
        }
        out.append(parts[i].as_str());
        proof {
            let ds = parts@.map_values(f);
            assert(ds.take(i + 1).drop_last() =~= ds.take(i as int));
            assert(ds.take(i + 1).last() == ds[i as int]);
            assert(ds.take(i + 1)[0] == ds[0]);
            assert(out@ =~= join_sep(ds.take(i + 1), sep@));
        }
        i = i + 1;
    }
    proof {
        let ds = parts@.map_values(f);
        assert(ds.take(ds.len() as int) =~= ds);
    }
    out
}

/// Render a keyword clause: one item plain, several in braces.
fn clause_string(word: &str, strs: &Vec<String>) -> (r: String)
    requires
        strs@.len() >= 1,
    ensures
        r@ == spec_clause(word@, strs@.map_values(|x: String| x@)),
{
    let ghost f = |x: String| x@;
    if strs.len() > 1 {
        let mut out = word.to_owned();
        out.append(" { ");
        let joined = join_strings(strs, ", ");
        out.append(joined.as_str());
        out.append(" }");
        proof {
            assert(out@ =~= spec_clause(word@, strs@.map_values(f)));
        }
        out
    } else {
        let mut out = word.to_owned();
        push_char(&mut out, ' ');
        out.append(strs[0].as_str());
        proof {
            assert(out@ =~= spec_clause(word@, strs@.map_values(f)));
        }
        out
    }
}

/// The texts of a list render one for one.
proof fn lemma_port_strs_len(ps: Seq<Port>)
    ensures
        port_strs(ps).len() == ps.len(),
    decreases ps.len(),
{
    if ps.len() > 0 {
        lemma_port_strs_len(ps.drop_first());
    }
}

/// The texts of a list render one for one.
proof fn lemma_proto_strs_len(ps: Seq<Proto>)
    ensures
        proto_strs(ps).len() == ps.len(),
    decreases ps.len(),
{
    if ps.len() > 0 {
        lemma_proto_strs_len(ps.drop_first());
    }
}

/// A quoted label clause.
fn label_string(word: &str, value: &str) -> (r: String)
    ensures
        r@ == word@ + value@ + seq!['"'],
{
    let mut out = word.to_owned();
    out.append(value);
    push_char(&mut out, '"');
    proof {
        assert(out@ =~= word@ + value@ + seq!['"']);
    }
    out
}

impl Rule {
    /// The clause texts of the rule, in order.
    #[verifier::rlimit(100)]
    fn parts_strings(&self) -> (r: Vec<String>)
        ensures
            r@.map_values(|x: String| x@) =~= spec_rule_parts(*self),
    {
        let ghost f = |x: String| x@;
        let mut parts: Vec<String> = Vec::new();
        let mut head = self.family.as_str().to_owned();
        head.append(" filter");
        match self.direction {
            Direction::In => head.append(" input"),
            Direction::Out => head.append(" output"),
            Direction::Fwd => head.append(" forward"),
            Direction::Unset => (),
        }
        parts.push(head);
        proof {
            assert(parts@.map_values(f) =~= rule_parts_head(*self));
        }
        let src = render_ips(&self.ips.0, self.family);
        if self.ips.0.len() > 0 && src.len() > 0 {
            parts.push(clause_string("saddr", &src));
        }
        proof {
            assert(parts@.map_values(f) =~= rule_parts_src(*self));
        }
        let dst = render_ips(&self.ips.1, self.family);
        if self.ips.1.len() > 0 && dst.len() > 0 {
            parts.push(clause_string("daddr", &dst));
        }
        proof {
            assert(parts@.map_values(f) =~= rule_parts_dst(*self));
        }
        let pr = render_protos(&self.protocols);
        proof {
            lemma_proto_strs_len(self.protocols@);
        }
        if self.protocols.len() > 0 {
            parts.push(clause_string("protocol", &pr));
        }
        proof {
            assert(parts@.map_values(f) =~= rule_parts_proto(*self));
        }
        let sp = render_ports(&self.ports.0);
        proof {
            lemma_port_strs_len(self.ports.0@);
        }
        if self.ports.0.len() > 0 {
            parts.push(clause_string("sport", &sp));
        }
        proof {
            assert(parts@.map_values(f) =~= rule_parts_sport(*self));
        }
        let dp = render_ports(&self.ports.1);
        proof {
            lemma_port_strs_len(self.ports.1@);
        }
        if self.ports.1.len() > 0 {
            parts.push(clause_string("dport", &dp));
        }
        proof {
            assert(parts@.map_values(f) =~= rule_parts_dport(*self));
        }
        let act = self.action.to_string();
        if act.as_str().unicode_len() > 0 {
            parts.push(act);
        }
        proof {
            assert(parts@.map_values(f) =~= rule_parts_act(*self));
        }
        if self.name.as_str().unicode_len() > 0 {
            parts.push(label_string("name \"", self.name.as_str()));
        }
        proof {
            assert(parts@.map_values(f) =~= rule_parts_name(*self));
        }
        if self.comment.as_str().unicode_len() > 0 {
            parts.push(label_string("comment \"", self.comment.as_str()));
        }
        proof {
            assert(parts@.map_values(f) =~= spec_rule_parts(*self));
        }
        parts
    }

    /// Render the rule in rule syntax: family and direction first, then
    /// each non-empty clause, then the action and labels.
    pub fn to_string(&self) -> (r: String)
        ensures
            r@ == spec_rule_str(*self),
    {
        let parts = self.parts_strings();
        let out = join_strings(&parts, " ");
        proof {
            reveal_strlit(" ");
            assert(" "@ =~= seq![' ']);
            assert(parts@.map_values(|x: String| x@) =~= spec_rule_parts(*self));
        }
        out
    }
}

/// The head part: family, the table word, and the direction.
pub open spec fn rule_parts_head(r: Rule) -> Seq<Seq<char>> {
    seq![
        r.family.spec_str() + " filter"@ + (match r.direction {
            Direction::In => " input"@,
            Direction::Out => " output"@,
            Direction::Fwd => " forward"@,
            Direction::Unset => Seq::<char>::empty(),
        }),
    ]
}

/// The parts up to the source-address clause.
pub open spec fn rule_parts_src(r: Rule) -> Seq<Seq<char>> {
    let src = ip_strs(r.ips.0@, r.family);
    if r.ips.0@.len() > 0 && src.len() > 0 {
        rule_parts_head(r).push(spec_clause("saddr"@, src))
    } else {
        rule_parts_head(r)
    }
}

/// The parts up to the destination-address clause.
pub open spec fn rule_parts_dst(r: Rule) -> Seq<Seq<char>> {
    let dst = ip_strs(r.ips.1@, r.family);
    if r.ips.1@.len() > 0 && dst.len() > 0 {
        rule_parts_src(r).push(spec_clause("daddr"@, dst))
    } else {
        rule_parts_src(r)
    }
}

/// The parts up to the protocol clause.
pub open spec fn rule_parts_proto(r: Rule) -> Seq<Seq<char>> {
    if r.protocols@.len() > 0 {
        rule_parts_dst(r).push(spec_clause("protocol"@, proto_strs(r.protocols@)))
    } else {
        rule_parts_dst(r)
    }
}

/// The parts up to the source-port clause.
pub open spec fn rule_parts_sport(r: Rule) -> Seq<Seq<char>> {
    if r.ports.0@.len() > 0 {
        rule_parts_proto(r).push(spec_clause("sport"@, port_strs(r.ports.0@)))
    } else {
        rule_parts_proto(r)
    }
}

/// The parts up to the destination-port clause.
pub open spec fn rule_parts_dport(r: Rule) -> Seq<Seq<char>> {
    if r.ports.1@.len() > 0 {
        rule_parts_sport(r).push(spec_clause("dport"@, port_strs(r.ports.1@)))
    } else {
        rule_parts_sport(r)
    }
}

/// The parts up to the action.
pub open spec fn rule_parts_act(r: Rule) -> Seq<Seq<char>> {
    if spec_action_str(r.action).len() > 0 {
        rule_parts_dport(r).push(spec_action_str(r.action))
    } else {
        rule_parts_dport(r)
    }
}

/// The parts up to the name label.
pub open spec fn rule_parts_name(r: Rule) -> Seq<Seq<char>> {
    if r.name@.len() > 0 {
        rule_parts_act(r).push("name \""@ + r.name@ + seq!['"'])
    } else {
        rule_parts_act(r)
    }
}

/// The part list the rule text joins.
pub open spec fn spec_rule_parts(r: Rule) -> Seq<Seq<char>> {
    if r.comment@.len() > 0 {
        rule_parts_name(r).push("comment \""@ + r.comment@ + seq!['"'])
    } else {
        rule_parts_name(r)
    }
}

/// Render the addresses that belong to the family./// Render the addresses that belong to the family.
fn render_ips(ips: &Vec<Ip>, fam: Family) -> (r: Vec<String>)
    ensures
        r@.map_values(|x: String| x@) == ip_strs(ips@, fam),
{
    let ghost f = |x: String| x@;
    let mut out: Vec<String> = Vec::new();
    let mut i: usize = 0;
    proof {
        assert(out@.map_values(f) =~= Seq::<Seq<char>>::empty());
        assert(ips@.skip(0) =~= ips@);
    }
    while i < ips.len()
        invariant
            f == (|x: String| x@),
            i <= ips@.len(),
            ip_strs(ips@, fam) =~= out@.map_values(f) + ip_strs(ips@.skip(i as int), fam),
        decreases ips@.len() - i,
    {
        let keep = match (&ips[i], fam) {
            (_, Family::Any) => true,
            (Ip::V4(_), Family::V4) => true,
            (Ip::V6(_), Family::V6) => true,
            _ => false,
        };
        proof {
            assert(ips@.skip(i as int)[0] == ips@[i as int]);
            assert(ips@.skip(i as int).drop_first() =~= ips@.skip(i + 1));
        }
        if keep {
            let ghost before = out@;
            out.push(ips[i].to_string());
            proof {
                assert(out@.map_values(f) =~= before.map_values(f).push(
                    spec_ip_str(ips@[i as int]),
                ));
            }
        }
        i = i + 1;
    }
    proof {
        assert(ips@.skip(ips@.len() as int) =~= Seq::<Ip>::empty());
        assert(ip_strs(Seq::<Ip>::empty(), fam) =~= Seq::<Seq<char>>::empty());
        assert(out@.map_values(f) + Seq::<Seq<char>>::empty() =~= out@.map_values(f));
    }
    out
}

/// Render a port list.
fn render_ports(ps: &Vec<Port>) -> (r: Vec<String>)
    ensures
        r@.map_values(|x: String| x@) == port_strs(ps@),
{
    let ghost f = |x: String| x@;
    let mut out: Vec<String> = Vec::new();
    let mut i: usize = 0;
    proof {
        assert(out@.map_values(f) =~= Seq::<Seq<char>>::empty());
        assert(ps@.skip(0) =~= ps@);
    }
    while i < ps.len()
        invariant
            f == (|x: String| x@),
            i <= ps@.len(),
            port_strs(ps@) =~= out@.map_values(f) + port_strs(ps@.skip(i as int)),
        decreases ps@.len() - i,
    {
        proof {
            assert(ps@.skip(i as int)[0] == ps@[i as int]);
            assert(ps@.skip(i as int).drop_first() =~= ps@.skip(i + 1));
        }
        let ghost before = out@;
        out.push(ps[i].to_string());
        proof {
            assert(out@.map_values(f) =~= before.map_values(f).push(spec_port_str(ps@[i as int])));
        }
        i = i + 1;
    }
    proof {
        assert(ps@.skip(ps@.len() as int) =~= Seq::<Port>::empty());
        assert(port_strs(Seq::<Port>::empty()) =~= Seq::<Seq<char>>::empty());
        assert(out@.map_values(f) + Seq::<Seq<char>>::empty() =~= out@.map_values(f));
    }
    out
}

/// Render a protocol list.
fn render_protos(ps: &Vec<Proto>) -> (r: Vec<String>)
    ensures
        r@.map_values(|x: String| x@) == proto_strs(ps@),
{
    let ghost f = |x: String| x@;
    let mut out: Vec<String> = Vec::new();
    let mut i: usize = 0;
    proof {
        assert(out@.map_values(f) =~= Seq::<Seq<char>>::empty());
        assert(ps@.skip(0) =~= ps@);
    }
    while i < ps.len()
        invariant
            f == (|x: String| x@),
            i <= ps@.len(),
            proto_strs(ps@) =~= out@.map_values(f) + proto_strs(ps@.skip(i as int)),
        decreases ps@.len() - i,
    {
        proof {
            assert(ps@.skip(i as int)[0] == ps@[i as int]);
            assert(ps@.skip(i as int).drop_first() =~= ps@.skip(i + 1));
        }
        let ghost before = out@;
        out.push(ps[i].to_string());
        proof {
            assert(out@.map_values(f) =~= before.map_values(f).push(
                spec_proto_str(ps@[i as int]),
            ));
        }
        i = i + 1;
    }
    proof {
        assert(ps@.skip(ps@.len() as int) =~= Seq::<Proto>::empty());
        assert(proto_strs(Seq::<Proto>::empty()) =~= Seq::<Seq<char>>::empty());
        assert(out@.map_values(f) + Seq::<Seq<char>>::empty() =~= out@.map_values(f));
    }
    out
}

/// An ordered list of rules with a number and a name.
#[derive(Debug, PartialEq, Eq)]
pub struct Chain {
    pub rules: Vec<Rule>,
    pub number: u32,
    pub name: String,
}

impl Chain {
    /// An empty unnamed chain.
    pub fn new() -> (r: Chain)
        ensures
            r.rules@.len() == 0,
            r.number == 0,
            r.name@ == Seq::<char>::empty(),
    {
        Chain { rules: Vec::new(), number: 0, name: String::new() }
    }

    /// Drop every rule, keeping the number and name.
    pub fn clear(&mut self)
        ensures
            final(self).rules@.len() == 0,
            final(self).number == old(self).number,
            final(self).name@ == old(self).name@,
    {
        self.rules.clear();
    }

    /// A fresh copy of the chain.
    pub fn clone(&self) -> (r: Chain)
        ensures
            r.rules@.len() == self.rules@.len(),
            r.number == self.number,
            r.name@ == self.name@,
    {
        let mut rules: Vec<Rule> = Vec::new();
        let mut i: usize = 0;
        while i < self.rules.len()
            invariant
                i <= self.rules@.len(),
                rules@.len() == i,
            decreases self.rules@.len() - i,
        {
            rules.push(self.rules[i].clone());
            i = i + 1;
        }
        Chain { rules, number: self.number, name: self.name.clone() }
    }

    /// The chain's name.
    pub fn get_name(&self) -> (r: &str)
        ensures
            r@ == self.name@,
    {
        self.name.as_str()
    }

    /// The chain's number.
    pub fn get_number(&self) -> (r: u32)
        ensures
            r == self.number,
    {
        self.number
    }

    /// The rules, in order.
    pub fn get_rules(&self) -> (r: &Vec<Rule>)
        ensures
            r@ == self.rules@,
    {
        &self.rules
    }

    /// Insert a rule at a position; past-the-end positions are a caller
    /// error.
    pub fn insert(&mut self, index: usize, rule: Rule)
        requires
            index <= old(self).rules@.len(),
        ensures
            final(self).rules@ == old(self).rules@.insert(index as int, rule),
            final(self).number == old(self).number,
            final(self).name@ == old(self).name@,
    {
        self.rules.insert(index, rule);
    }

    /// Whether the chain holds no rules.
    pub fn is_empty(&self) -> (r: bool)
        ensures
            r == (self.rules@.len() == 0),
    {
        self.rules.len() == 0
    }

    /// The number of rules held.
    pub fn len(&self) -> (r: usize)
        ensures
            r == self.rules@.len(),
    {
        self.rules.len()
    }

    /// Append a rule at the end.
    pub fn push(&mut self, rule: Rule)
        ensures
            final(self).rules@ == old(self).rules@.push(rule),
            final(self).number == old(self).number,
            final(self).name@ == old(self).name@,
    {
        self.rules.push(rule);
    }

    /// Remove and return the rule at a position.
    pub fn remove(&mut self, index: usize) -> (r: Rule)
        requires
            index < old(self).rules@.len(),
        ensures
            r == old(self).rules@[index as int],
            final(self).rules@ == old(self).rules@.remove(index as int),
            final(self).number == old(self).number,
            final(self).name@ == old(self).name@,
    {
        self.rules.remove(index)
    }

    /// Rename the chain.
    pub fn set_name(&mut self, name: &str)
        ensures
            final(self).name@ == name@,
            final(self).rules@ == old(self).rules@,
            final(self).number == old(self).number,
    {
        self.name = name.to_owned();
    }

    /// Renumber the chain.
    pub fn set_number(&mut self, number: u32)
        ensures
            final(self).number == number,
            final(self).rules@ == old(self).rules@,
            final(self).name@ == old(self).name@,
    {
        self.number = number;
    }

    /// Replace the rules wholesale.
    pub fn set_rules(&mut self, rules: Vec<Rule>)
        ensures
            final(self).rules@ == rules@,
            final(self).number == old(self).number,
            final(self).name@ == old(self).name@,
    {
        self.rules = rules;
    }

    /// Exchange the rules at two positions.
    pub fn swap(&mut self, index: usize, other: usize)
        requires
            index < old(self).rules@.len(),
            other < old(self).rules@.len(),
        ensures
            final(self).rules@ == old(self).rules@.update(
                index as int,
                old(self).rules@[other as int],
            ).update(other as int, old(self).rules@[index as int]),
            final(self).number == old(self).number,
            final(self).name@ == old(self).name@,
    {
        let ghost snap = self.rules@;
        if index == other {
            proof {
                assert(snap.update(index as int, snap[other as int]).update(
                    other as int,
                    snap[index as int],
                ) =~= snap);
            }
            return ;
        }
        let (lo, hi): (usize, usize) = if index < other {
            (index, other)
        } else {
            (other, index)
        };
        let b = self.rules.remove(hi);
        let a = self.rules.remove(lo);
        self.rules.insert(lo, b);
        self.rules.insert(hi, a);
        proof {
            assert(self.rules@ =~= snap.update(index as int, snap[other as int]).update(
                other as int,
                snap[index as int],
            ));
        }
    }

    /// Render the chain: a header line with the name and number, then each
    /// rule indented on its own line.
    pub fn to_string(&self) -> (r: String)
        ensures
            r@ == "chain "@ + self.name@ + " ("@ + dec_digits(self.number as nat) + ")\n"@
                + spec_chain_rules_str(self.rules@),
    {
        let mut out = "chain ".to_owned();
        out.append(self.name.as_str());
        out.append(" (");
        let num = u32_to_dec(self.number);
        out.append(num.as_str());
        out.append(")\n");
        let ghost head = "chain "@ + self.name@ + " ("@ + dec_digits(self.number as nat) + ")\n"@;
        proof {
            assert(out@ =~= head + spec_chain_rules_str(self.rules@.take(0)));
        }
        let mut i: usize = 0;
        while i < self.rules.len()
            invariant
                head == "chain "@ + self.name@ + " ("@ + dec_digits(self.number as nat) + ")\n"@,
                i <= self.rules@.len(),
                out@ == head + spec_chain_rules_str(self.rules@.take(i as int)),
            decreases self.rules@.len() - i,
        {
            out.append("  ");
            let line = self.rules[i].to_string();
            out.append(line.as_str());
            push_char(&mut out, '\n');
            proof {
                assert(self.rules@.take(i + 1).drop_last() =~= self.rules@.take(i as int));
                assert(self.rules@.take(i + 1).last() == self.rules@[i as int]);
                assert(out@ =~= head + spec_chain_rules_str(self.rules@.take(i + 1)));
            }
            i = i + 1;
        }
        proof {
            assert(self.rules@.take(self.rules@.len() as int) =~= self.rules@);
        }
        out
    }

    /// Remove the rule at a position by moving the last rule into its
    /// place.
    pub fn swap_remove(&mut self, index: usize) -> (r: Rule)
        requires
            index < old(self).rules@.len(),
        ensures
            r == old(self).rules@[index as int],
            final(self).rules@ == old(self).rules@.update(
                index as int,
                old(self).rules@.last(),
            ).drop_last(),
            final(self).number == old(self).number,
            final(self).name@ == old(self).name@,
    {
        self.rules.swap_remove(index)
    }
}

/// The indented rule lines of a chain's text.
pub open spec fn spec_chain_rules_str(rs: Seq<Rule>) -> Seq<char>
    decreases rs.len(),
{
    if rs.len() == 0 {
        Seq::empty()
    } else {
        spec_chain_rules_str(rs.drop_last()) + "  "@ + spec_rule_str(rs.last()) + seq!['\n']
    }
}

/// The shape check walked over dotted v4 text: dots and the slash may not
/// start or end the text, at most three dots and one slash, no dot or
/// slash straight after a dot, no dot straight after a slash.
pub open spec fn v4_shape_check(s: Seq<char>, i: int, dots: int, slashes: int, prev: char) -> bool
    decreases s.len() - i,
{
    if i < 0 || i >= s.len() {
        dots == 3
    } else {
        let c = s[i];
        if (c == '.' && (i == 0 || i == s.len() - 1)) || (c == '/' && (i < 7 || i == s.len()
            - 1)) {
            false
        } else if c == '.' {
            if dots + 1 > 3 || prev == '.' || prev == '/' {
                false
            } else {
                v4_shape_check(s, i + 1, dots + 1, slashes, c)
            }
        } else if c == '/' {
            if slashes + 1 > 1 || prev == '.' {
                false
            } else {
                v4_shape_check(s, i + 1, dots, slashes + 1, c)
            }
        } else {
            v4_shape_check(s, i + 1, dots, slashes, c)
        }
    }
}

/// Whether text has the shape of dotted v4 address text: non-empty, and
/// either free of dots, or dotted with exactly three well-placed dots.
pub open spec fn spec_valid_v4_text(s: Seq<char>) -> bool {
    if s.len() == 0 {
        false
    } else if find_char(s, '.') >= 0 && find_char(s, ':') < 0 {
        v4_shape_check(s, 0, 0, 0, ' ')
    } else {
        true
    }
}

/// The shape check walked over colon v6 text, after trimming: colons and
/// the slash may not start or end the text, at most seven colons and one
/// slash, neither straight after a slash.
pub open spec fn v6_shape_check(s: Seq<char>, i: int, colons: int, slashes: int, prev: char) -> bool
    decreases s.len() - i,
{
    if i < 0 || i >= s.len() {
        colons >= 2
    } else {
        let c = s[i];
        if (c == ':' && (i == 0 || i == s.len() - 1)) || (c == '/' && (i < 39 || i == s.len()
            - 1)) {
            false
        } else if c == ':' {
            if colons + 1 > 7 || prev == '/' {
                false
            } else {
                v6_shape_check(s, i + 1, colons + 1, slashes, c)
            }
        } else if c == '/' {
            if slashes + 1 > 1 || prev == '/' {
                false
            } else {
                v6_shape_check(s, i + 1, colons, slashes + 1, c)
            }
        } else {
            v6_shape_check(s, i + 1, colons, slashes, c)
        }
    }
}

/// Whether text has the shape of colon v6 address text: non-empty, and
/// either free of colons, or coloned with at least two well-placed colons.
pub open spec fn spec_valid_v6_text(s: Seq<char>) -> bool {
    if s.len() == 0 {
        false
    } else {
        let t = spec_trim(s);
        if find_char(t, ':') >= 0 && find_char(t, '.') < 0 {
            v6_shape_check(t, 0, 0, 0, ' ')
        } else {
            true
        }
    }
}

impl Ip {
    /// Whether a character may appear in text of this value's layout:
    /// digits, dots and slashes for v4, hex digits, colons and slashes for
    /// v6.
    pub fn is_valid_char(&self, c: char) -> (r: bool)
        ensures
            ip_bytes(*self).len() == 5 ==> r == (crate::text::is_digit(c) || c == '.' || c == '/'),
            ip_bytes(*self).len() == 17 ==> r == (crate::text::is_hex_digit(c) || c == ':' || c
                == '/'),
            self matches Ip::Any(_) && ip_op_none(*self) ==> r == false,
            self matches Ip::Unset ==> r == false,
    {
        match self {
            Ip::Any(v) => {
                if v.len() == 5 {
                    crate::text::is_digit_exec(c) || c == '.' || c == '/'
                } else if v.len() == 17 {
                    is_hex_digit_exec(c) || c == ':' || c == '/'
                } else {
                    false
                }
            },
            Ip::V4(_) => crate::text::is_digit_exec(c) || c == '.' || c == '/',
            Ip::V6(_) => is_hex_digit_exec(c) || c == ':' || c == '/',
            Ip::Unset => false,
        }
    }

    /// Whether the text has the shape of address text of the family.
    pub fn is_valid_str(s: &str, family: Family) -> (r: bool)
        ensures
            family == Family::V4 ==> r == spec_valid_v4_text(s@),
            family == Family::V6 ==> r == spec_valid_v6_text(s@),
            family == Family::Any ==> r == (spec_valid_v4_text(s@) || spec_valid_v6_text(s@)),
            family == Family::Unset ==> r == false,
    {
        match family {
            Family::Any => Ip::is_valid_v4_str(s) || Ip::is_valid_v6_str(s),
            Family::V4 => Ip::is_valid_v4_str(s),
            Family::V6 => Ip::is_valid_v6_str(s),
            Family::Unset => false,
        }
    }

    /// Whether the text has the shape of dotted v4 address text.
    fn is_valid_v4_str(s: &str) -> (r: bool)
        ensures
            r == spec_valid_v4_text(s@),
    {
        let n = s.unicode_len();
        if n == 0 {
            return false;
        }
        let has_dot = find_char_exec(s, '.').is_some();
        let has_colon = find_char_exec(s, ':').is_some();
        if !(has_dot && !has_colon) {
            return true;
        }
        let mut dots: u32 = 0;
        let mut slashes: u32 = 0;
        let mut prev: char = ' ';
        let mut i: usize = 0;
        while i < n
            invariant
                n == s@.len(),
                s@.len() > 0,
                find_char(s@, '.') >= 0,
                find_char(s@, ':') < 0,
                i <= n,
                dots <= 3,
                slashes <= 1,
                v4_shape_check(s@, 0, 0, 0, ' ') == v4_shape_check(
                    s@,
                    i as int,
                    dots as int,
                    slashes as int,
                    prev,
                ),
            decreases n - i,
        {
            let c = s.get_char(i);
            if (c == '.' && (i == 0 || i == n - 1)) || (c == '/' && (i < 7 || i == n - 1)) {
                return false;
            } else if c == '.' {
                if dots + 1 > 3 || prev == '.' || prev == '/' {
                    return false;
                }
                dots = dots + 1;
            } else if c == '/' {
                if slashes + 1 > 1 || prev == '.' {
                    return false;
                }
                slashes = slashes + 1;
            }
            prev = c;
            i = i + 1;
        }
        dots == 3
    }

    /// Whether the text has the shape of colon v6 address text.
    fn is_valid_v6_str(s: &str) -> (r: bool)
        ensures
            r == spec_valid_v6_text(s@),
    {
        let n0 = s.unicode_len();
        if n0 == 0 {
            return false;
        }
        let t = trim_exec(s);
        let n = t.unicode_len();
        let has_colon = find_char_exec(t, ':').is_some();
        let has_dot = find_char_exec(t, '.').is_some();
        if !(has_colon && !has_dot) {
            return true;
        }
        let mut colons: u32 = 0;
        let mut slashes: u32 = 0;
        let mut prev: char = ' ';
        let mut i: usize = 0;
        while i < n
            invariant
                n == t@.len(),
                s@.len() > 0,
                t@ == spec_trim(s@),
                find_char(t@, ':') >= 0,
                find_char(t@, '.') < 0,
                i <= n,
                colons <= 7,
                slashes <= 1,
                v6_shape_check(t@, 0, 0, 0, ' ') == v6_shape_check(
                    t@,
                    i as int,
                    colons as int,
                    slashes as int,
                    prev,
                ),
            decreases n - i,
        {
            let c = t.get_char(i);
            if (c == ':' && (i == 0 || i == n - 1)) || (c == '/' && (i < 39 || i == n - 1)) {
                return false;
            } else if c == ':' {
                if colons + 1 > 7 || prev == '/' {
                    return false;
                }
                colons = colons + 1;
            } else if c == '/' {
                if slashes + 1 > 1 || prev == '/' {
                    return false;
                }
                slashes = slashes + 1;
            }
            prev = c;
            i = i + 1;
        }
        colons >= 2
    }
}

/// Every character of a dotted-decimal byte text is a digit or a dot.
proof fn lemma_dotted_chars(b: Seq<u8>, k: int)
    requires
        b.len() >= 4,
        0 <= k < dotted_dec(b).len(),
    ensures
        crate::text::is_digit(dotted_dec(b)[k]) || dotted_dec(b)[k] == '.',
{
    let s0 = dec_digits(b[0] as nat);
    let s1 = dec_digits(b[1] as nat);
    let s2 = dec_digits(b[2] as nat);
    let s3 = dec_digits(b[3] as nat);
    crate::text::lemma_dec_digits(b[0] as nat);
    crate::text::lemma_dec_digits(b[1] as nat);
    crate::text::lemma_dec_digits(b[2] as nat);
    crate::text::lemma_dec_digits(b[3] as nat);
    let s = dotted_dec(b);
    let l0 = s0.len() as int;
    let l1 = s1.len() as int;
    let l2 = s2.len() as int;
    if k < l0 {
        assert(s[k] == s0[k]);
        assert(crate::text::is_digit(s0[k]));
    } else if k == l0 {
        assert(s[k] == '.');
    } else if k < l0 + 1 + l1 {
        assert(s[k] == s1[k - l0 - 1]);
        assert(crate::text::is_digit(s1[k - l0 - 1]));
    } else if k == l0 + 1 + l1 {
        assert(s[k] == '.');
    } else if k < l0 + 1 + l1 + 1 + l2 {
        assert(s[k] == s2[k - l0 - l1 - 2]);
        assert(crate::text::is_digit(s2[k - l0 - l1 - 2]));
    } else if k == l0 + 1 + l1 + 1 + l2 {
        assert(s[k] == '.');
    } else {
        assert(s[k] == s3[k - l0 - l1 - l2 - 3]);
        assert(crate::text::is_digit(s3[k - l0 - l1 - l2 - 3]));
    }
}

/// Four bytes recombined to a word come back out of it.
proof fn lemma_bytes_of_addr4(a: u32, b0: u8, b1: u8, b2: u8, b3: u8)
    by (bit_vector)
    requires
        a == (b0 as u32) * 0x100_0000 + (b1 as u32) * 0x1_0000 + (b2 as u32) * 0x100 + (
        b3 as u32),
    ensures
        (a >> 24u32) as u8 == b0,
        (a >> 16u32) as u8 == b1,
        (a >> 8u32) as u8 == b2,
        a as u8 == b3,
{
}

/// Folding non-empty hex pieces that all parse appends all their values.
proof fn lemma_ip_fold_all(parts: Seq<Seq<char>>, vals: Seq<nat>, acc: Seq<nat>)
    requires
        parts.len() == vals.len(),
        forall|i: int| 0 <= i < parts.len() ==> (#[trigger] parts[i]).len() > 0,
        forall|i: int|
            0 <= i < parts.len() ==> crate::text::spec_parse_hex(#[trigger] parts[i], 0x1_0000)
                == Option::Some(vals[i]),
        forall|i: int| 0 <= i < vals.len() ==> #[trigger] vals[i] <= 0xFFFF,
    ensures
        ip_fold(parts, acc) == Option::Some(acc + vals),
    decreases parts.len(),
{
    if parts.len() == 0 {
        assert(acc + vals =~= acc);
    } else {
        let pt = parts.drop_first();
        let vt = vals.drop_first();
        assert forall|i: int| 0 <= i < pt.len() implies (#[trigger] pt[i]).len() > 0 by {
            assert(parts[i + 1].len() > 0);
        }
        assert forall|i: int|
            0 <= i < pt.len() implies crate::text::spec_parse_hex(#[trigger] pt[i], 0x1_0000)
            == Option::Some(vt[i]) by {
            assert(crate::text::spec_parse_hex(parts[i + 1], 0x1_0000) == Option::Some(
                vals[i + 1],
            ));
        }
        assert forall|i: int| 0 <= i < vt.len() implies #[trigger] vt[i] <= 0xFFFF by {
            assert(vals[i + 1] <= 0xFFFF);
        }
        lemma_ip_fold_all(pt, vt, acc.push(vals[0]));
        assert(acc.push(vals[0]) + vt =~= acc + vals);
    }
}

/// The sixteen-bit groups of sixteen bytes recombine to their value.
proof fn lemma_groups_val_pairs(b: Seq<u8>)
    requires
        b.len() >= 16,
    ensures
        crate::net::v6::groups_val(pairs16(b)) == crate::net::v6::Net::spec_addr_of_bytes(b),
{
    let gs = pairs16(b);
    let s1 = seq![gs[0]];
    let s2 = s1.push(gs[1]);
    let s3 = s2.push(gs[2]);
    let s4 = s3.push(gs[3]);
    let s5 = s4.push(gs[4]);
    let s6 = s5.push(gs[5]);
    let s7 = s6.push(gs[6]);
    let s8 = s7.push(gs[7]);
    assert(gs =~= s8);
    assert(s1.drop_last() =~= Seq::<nat>::empty());
    assert(s2.drop_last() =~= s1);
    assert(s3.drop_last() =~= s2);
    assert(s4.drop_last() =~= s3);
    assert(s5.drop_last() =~= s4);
    assert(s6.drop_last() =~= s5);
    assert(s7.drop_last() =~= s6);
    assert(s8.drop_last() =~= s7);
    assert(crate::net::v6::groups_val(s1) == crate::net::v6::groups_val(Seq::<nat>::empty())
        * 0x1_0000 + gs[0]);
    assert(crate::net::v6::groups_val(s2) == crate::net::v6::groups_val(s1) * 0x1_0000 + gs[1]);
    assert(crate::net::v6::groups_val(s3) == crate::net::v6::groups_val(s2) * 0x1_0000 + gs[2]);
    assert(crate::net::v6::groups_val(s4) == crate::net::v6::groups_val(s3) * 0x1_0000 + gs[3]);
    assert(crate::net::v6::groups_val(s5) == crate::net::v6::groups_val(s4) * 0x1_0000 + gs[4]);
    assert(crate::net::v6::groups_val(s6) == crate::net::v6::groups_val(s5) * 0x1_0000 + gs[5]);
    assert(crate::net::v6::groups_val(s7) == crate::net::v6::groups_val(s6) * 0x1_0000 + gs[6]);
    assert(crate::net::v6::groups_val(s8) == crate::net::v6::groups_val(s7) * 0x1_0000 + gs[7]);
}

/// Sixteen bytes recombined to a wide word come back out of it.
#[verifier::rlimit(100)]
proof fn lemma_bytes_of_addr16(
    a: u128,
    b0: u8,
    b1: u8,
    b2: u8,
    b3: u8,
    b4: u8,
    b5: u8,
    b6: u8,
    b7: u8,
    b8: u8,
    b9: u8,
    b10: u8,
    b11: u8,
    b12: u8,
    b13: u8,
    b14: u8,
    b15: u8,
)
    by (bit_vector)
    requires
        a == (b0 as u128) * 0x100_0000_0000_0000_0000_0000_0000_0000 + (b1 as u128)
            * 0x1_0000_0000_0000_0000_0000_0000_0000 + (b2 as u128)
            * 0x100_0000_0000_0000_0000_0000_0000 + (b3 as u128)
            * 0x1_0000_0000_0000_0000_0000_0000 + (b4 as u128) * 0x100_0000_0000_0000_0000_0000 + (
        b5 as u128) * 0x1_0000_0000_0000_0000_0000 + (b6 as u128) * 0x100_0000_0000_0000_0000 + (
        b7 as u128) * 0x1_0000_0000_0000_0000 + (b8 as u128) * 0x100_0000_0000_0000 + (b9 as u128)
            * 0x1_0000_0000_0000 + (b10 as u128) * 0x100_0000_0000 + (b11 as u128) * 0x1_0000_0000
            + (b12 as u128) * 0x100_0000 + (b13 as u128) * 0x1_0000 + (b14 as u128) * 0x100 + (
        b15 as u128),
    ensures
        (a >> 120u128) as u8 == b0,
        (a >> 112u128) as u8 == b1,
        (a >> 104u128) as u8 == b2,
        (a >> 96u128) as u8 == b3,
        (a >> 88u128) as u8 == b4,
        (a >> 80u128) as u8 == b5,
        (a >> 72u128) as u8 == b6,
        (a >> 64u128) as u8 == b7,
        (a >> 56u128) as u8 == b8,
        (a >> 48u128) as u8 == b9,
        (a >> 40u128) as u8 == b10,
        (a >> 32u128) as u8 == b11,
        (a >> 24u128) as u8 == b12,
        (a >> 16u128) as u8 == b13,
        (a >> 8u128) as u8 == b14,
        a as u8 == b15,
{
}

/// Reading an address value's text back yields the value: parsing inverts
/// printing for well-formed v4 and v6 values.
#[verifier::rlimit(100)]
pub proof fn lemma_ip_round_trip(ip: Ip)
    requires
        (ip matches Ip::V4(_) && ip_bytes(ip)[4] <= 32) || (ip matches Ip::V6(_) && ip_bytes(
            ip,
        )[16] <= 128),
    ensures
        spec_parse_ip(spec_ip_str(ip)) is Some,
        ip_matches_shape(ip, spec_parse_ip(spec_ip_str(ip)).unwrap()),
{
    if ip matches Ip::V4(_) {
        lemma_ip_round_trip_v4(ip);
    } else {
        lemma_ip_round_trip_v6(ip);
    }
}

/// The v4 half of the address round trip.
#[verifier::rlimit(100)]
proof fn lemma_ip_round_trip_v4(ip: Ip)
    requires
        ip matches Ip::V4(_),
        ip_bytes(ip)[4] <= 32,
    ensures
        spec_parse_ip(spec_ip_str(ip)) is Some,
        ip_matches_shape(ip, spec_parse_ip(spec_ip_str(ip)).unwrap()),
{
    let b = ip_bytes(ip);
    let p = b[4];
    let s = spec_ip_str(ip);
    let dotted = dotted_dec(b);
    let ptxt = dec_digits(p as nat);
    crate::text::lemma_dec_digits(p as nat);
    crate::text::lemma_dec_digits(b[0] as nat);
    assert(s =~= dotted + seq!['/'] + ptxt);
    // the text is already trimmed: it starts and ends with digits
    assert(s[0] == dotted[0]) by {
        assert(dotted[0] == dec_digits(b[0] as nat)[0]);
    }
    lemma_dotted_chars(b, 0);
    assert(crate::text::is_digit(s.last()));
    crate::text::lemma_trim_id(s);
    // the dot of the first octet shows the v4 shape, and no colon appears
    let l0 = dec_digits(b[0] as nat).len() as int;
    assert(s[l0] == '.');
    crate::text::lemma_find_char(s, '.');
    assert(find_char(s, '.') >= 0);
    assert forall|k: int| 0 <= k < s.len() implies s[k] != ':' by {
        if k < dotted.len() {
            lemma_dotted_chars(b, k);
        } else if k == dotted.len() {
        } else {
            assert(s[k] == ptxt[k - dotted.len() - 1]);
            assert(crate::text::is_digit(ptxt[k - dotted.len() - 1]));
        }
    }
    crate::text::lemma_find_char_none(s, ':');
    // the text equals the v4 block text of the packed address
    let a4 = addr4_of(b);
    lemma_bytes_of_addr4(a4, b[0], b[1], b[2], b[3]);
    assert(crate::net::v4::be_byte(a4, 0) == b[0]);
    assert(crate::net::v4::be_byte(a4, 1) == b[1]);
    assert(crate::net::v4::be_byte(a4, 2) == b[2]);
    assert(crate::net::v4::be_byte(a4, 3) == b[3]);
    assert(dotted =~= crate::net::v4::spec_addr_str(a4));
    let n = crate::net::v4::Net(a4, p);
    assert(s =~= crate::net::v4::spec_net_str(n));
    crate::net::v4::lemma_net_round_trip(n);
    assert(crate::net::v4::spec_parse_net(s) == Option::Some(n));
    assert(block4_bytes(a4, p) =~= b);
}

/// The v6 half of the address round trip.
#[verifier::rlimit(100)]
proof fn lemma_ip_round_trip_v6(ip: Ip)
    requires
        ip matches Ip::V6(_),
        ip_bytes(ip)[16] <= 128,
    ensures
        spec_parse_ip(spec_ip_str(ip)) is Some,
        ip_matches_shape(ip, spec_parse_ip(spec_ip_str(ip)).unwrap()),
{
    let b = ip_bytes(ip);
    let p = b[16];
    let s = spec_ip_str(ip);
    let gs = pairs16(b);
    assert(gs.len() == 8);
    assert forall|i: int| 0 <= i < 8 implies #[trigger] gs[i] <= 0xFFFF by {}
    let joined = crate::net::v6::join_groups(gs);
    let ptxt = dec_digits(p as nat);
    crate::text::lemma_dec_digits(p as nat);
    assert(s =~= joined + seq!['/'] + ptxt);
    crate::net::v6::lemma_join_no_cc(gs);
    crate::net::v6::lemma_join_groups_chars(gs);
    // the text is already trimmed: a hex digit first, a digit last
    assert(s[0] == joined[0]);
    assert(crate::text::is_hex_digit(s[0]));
    assert(crate::text::is_digit(s.last()));
    crate::text::lemma_trim_id(s);
    // no dot appears, and the first group separator shows the v6 shape
    assert forall|k: int| 0 <= k < s.len() implies s[k] != '.' by {
        if k < joined.len() {
            assert(crate::text::is_hex_digit(joined[k]) || joined[k] == ':');
        } else if k == joined.len() {
        } else {
            assert(s[k] == ptxt[k - joined.len() - 1]);
            assert(crate::text::is_digit(ptxt[k - joined.len() - 1]));
        }
    }
    crate::text::lemma_find_char_none(s, '.');
    crate::text::lemma_hex_digits(gs[0]);
    let h0 = crate::text::hex_digits(gs[0]);
    let m0 = h0.len() as int;
    assert(joined[m0] == ':') by {
        crate::net::v6::lemma_join_eight(gs);
    }
    assert(s[m0] == ':');
    crate::text::lemma_find_char(s, ':');
    assert(find_char(s, ':') >= 0);
    // the slash sits right after the joined groups
    let m = joined.len() as int;
    assert(s[m] == '/');
    assert forall|k: int| 0 <= k < m implies s[k] != '/' by {
        assert(crate::text::is_hex_digit(joined[k]) || joined[k] == ':');
    }
    crate::text::lemma_find_char_is(s, '/', m);
    assert(s.take(m) =~= joined);
    assert(s.skip(m + 1) =~= ptxt);
    // the joined groups hold no adjacent colons and fold back to the groups
    assert forall|k: int|
        0 <= k && k + 1 < joined.len() implies !((#[trigger] joined[k]) == ':' && joined[k + 1]
        == ':') by {}
    lemma_find_cc_none(joined);
    crate::net::v6::lemma_split_colons_is_split_on(joined);
    crate::net::v6::lemma_split_colons_join(gs);
    let parts = split_on(joined, ':');
    assert(parts == gs.map_values(|g: nat| crate::text::hex_digits(g)));
    assert forall|i: int| 0 <= i < parts.len() implies (#[trigger] parts[i]).len() > 0
        && crate::text::spec_parse_hex(parts[i], 0x1_0000) == Option::Some(gs[i]) by {
        assert(parts[i] == crate::text::hex_digits(gs[i]));
        crate::text::lemma_hex_digits(gs[i]);
    }
    lemma_ip_fold_all(parts, gs, Seq::empty());
    assert(Seq::empty() + gs =~= gs);
    assert(parse_ip_groups(joined) == Option::Some(Option::Some(gs)));
    // the groups recombine to the address, whose bytes are the original
    lemma_groups_val_pairs(b);
    let av = crate::net::v6::Net::spec_addr_of_bytes(b);
    let a = addr16_of(b);
    assert(av <= u128::MAX as nat);
    assert(a as nat == av);
    assert(crate::net::v6::groups_val(gs) as u128 == a);
    lemma_bytes_of_addr16(
        a,
        b[0],
        b[1],
        b[2],
        b[3],
        b[4],
        b[5],
        b[6],
        b[7],
        b[8],
        b[9],
        b[10],
        b[11],
        b[12],
        b[13],
        b[14],
        b[15],
    );
    assert(block16_bytes(a, p) =~= b);
}

/// The parse failure the text functions report.
fn format_err() -> (r: Error)
    ensures
        r.code == 2,
        r.message@ == "Format error"@,
{
    Error::new("Format error".to_owned(), 2)
}

} // verus!
