//! IPv6 CIDR blocks and block sets.

use vstd::prelude::*;
use vstd::string::StrSliceExecFns;
use vstd::string::StringExecFns;
use crate::meta::Error;
use crate::text::{dec_digits, hex_digits, all_hex_digits, is_hex_digit, is_digit, spec_parse_dec,
    spec_parse_hex, find_char, lemma_dec_digits, lemma_hex_digits, lemma_find_char_is,
    lemma_find_char_none, u32_to_dec, u32_to_hex, push_char, find_char_exec, parse_dec_capped,
    parse_hex_capped, is_hex_digit_exec, spec_trim, trim_exec};

verus! {

/// A raw 128-bit host address.
pub type Addr = u128;

/// A prefix length.
pub type Subnet = u8;

/// A network mask.
pub type Mask = u128;

/// An IPv6 CIDR block: a raw 128-bit address and a prefix length.
#[derive(Debug, Clone, Copy, PartialEq, Eq, Structural)]
pub struct Net {
    pub address: u128,
    pub subnet: u8,
}

/// An inclusive address range.
pub struct Range {
    pub start: Addr,
    pub end: Addr,
}

impl Range {
    /// The empty range at address zero.
    pub fn new() -> (r: Range)
        ensures
            r.start == 0,
            r.end == 0,
    {
        Range { start: 0, end: 0 }
    }
}

/// The sixteen-bit group `k` of an address, most significant first.
pub open spec fn group_of(a: u128, k: int) -> u16 {
    (a >> ((112 - 16 * k) as u128)) as u16
}

/// Big-endian combination of sixteen-bit groups.
pub open spec fn groups_val(gs: Seq<nat>) -> nat
    decreases gs.len(),
{
    if gs.len() == 0 {
        0
    } else {
        groups_val(gs.drop_last()) * 0x1_0000 + gs.last()
    }
}

/// The colon-separated lower-case hex text of a group sequence.
pub open spec fn join_groups(gs: Seq<nat>) -> Seq<char>
    decreases gs.len(),
{
    if gs.len() == 0 {
        Seq::empty()
    } else if gs.len() == 1 {
        hex_digits(gs[0])
    } else {
        hex_digits(gs[0]) + seq![':'] + join_groups(gs.drop_first())
    }
}

/// The eight groups of an address.
pub open spec fn groups_seq(a: u128) -> Seq<nat> {
    Seq::new(8, |k: int| group_of(a, k) as nat)
}

/// The text of a block: eight colon-separated hex groups, then `/prefix`.
pub open spec fn spec_net6_str(n: Net) -> Seq<char> {
    join_groups(groups_seq(n.address)) + seq!['/'] + dec_digits(n.subnet as nat)
}

impl Net {
    /// A block is well formed when its prefix fits the address width.
    pub open spec fn wf(self) -> bool {
        self.subnet <= 128
    }

    /// Build a block, clamping the prefix length to the address width.
    pub fn new(address: u128, subnet: u8) -> (r: Net)
        ensures
            r.address == address,
            r.subnet == if subnet <= 128 {
                subnet
            } else {
                128u8
            },
            r.wf(),
    {
        Net { address, subnet: if subnet <= 128 { subnet } else { 128 } }
    }

    /// The raw address.
    pub fn address(&self) -> (r: u128)
        ensures
            r == self.address,
    {
        self.address
    }

    /// The prefix length.
    pub fn subnet(&self) -> (r: u8)
        ensures
            r == self.subnet,
    {
        self.subnet
    }

    /// Replace the raw address.
    pub fn set_address(&mut self, address: u128)
        ensures
            final(self).address == address,
            final(self).subnet == old(self).subnet,
    {
        self.address = address;
    }

    /// Replace the prefix length, clamping it to the address width.
    pub fn set_subnet(&mut self, subnet: u8)
        ensures
            final(self).address == old(self).address,
            final(self).subnet == if subnet <= 128 {
                subnet
            } else {
                128u8
            },
    {
        self.subnet = if subnet <= 128 {
            subnet
        } else {
            128
        };
    }

    /// The seventeen-byte big-endian encoding as a growable vector.
    pub fn to_vec(&self) -> (r: Vec<u8>)
        ensures
            r@ =~= self.spec_bytes17(),
    {
        let mut out: Vec<u8> = Vec::new();
        out.push((self.address >> 120u128) as u8);
        out.push((self.address >> 112u128) as u8);
        out.push((self.address >> 104u128) as u8);
        out.push((self.address >> 96u128) as u8);
        out.push((self.address >> 88u128) as u8);
        out.push((self.address >> 80u128) as u8);
        out.push((self.address >> 72u128) as u8);
        out.push((self.address >> 64u128) as u8);
        out.push((self.address >> 56u128) as u8);
        out.push((self.address >> 48u128) as u8);
        out.push((self.address >> 40u128) as u8);
        out.push((self.address >> 32u128) as u8);
        out.push((self.address >> 24u128) as u8);
        out.push((self.address >> 16u128) as u8);
        out.push((self.address >> 8u128) as u8);
        out.push(self.address as u8);
        out.push(self.subnet);
        out
    }

    /// The big-endian bytes: sixteen address bytes then the prefix byte.
    pub open spec fn spec_bytes17(self) -> Seq<u8> {
        seq![
            (self.address >> 120u128) as u8,
            (self.address >> 112u128) as u8,
            (self.address >> 104u128) as u8,
            (self.address >> 96u128) as u8,
            (self.address >> 88u128) as u8,
            (self.address >> 80u128) as u8,
            (self.address >> 72u128) as u8,
            (self.address >> 64u128) as u8,
            (self.address >> 56u128) as u8,
            (self.address >> 48u128) as u8,
            (self.address >> 40u128) as u8,
            (self.address >> 32u128) as u8,
            (self.address >> 24u128) as u8,
            (self.address >> 16u128) as u8,
            (self.address >> 8u128) as u8,
            self.address as u8,
            self.subnet,
        ]
    }

    /// The address value sixteen big-endian bytes describe.
    pub open spec fn spec_addr_of_bytes(bytes: Seq<u8>) -> nat {
        (bytes[0] as nat) * 0x100_0000_0000_0000_0000_0000_0000_0000 + (bytes[1] as nat)
            * 0x1_0000_0000_0000_0000_0000_0000_0000 + (bytes[2] as nat)
            * 0x100_0000_0000_0000_0000_0000_0000 + (bytes[3] as nat)
            * 0x1_0000_0000_0000_0000_0000_0000 + (bytes[4] as nat)
            * 0x100_0000_0000_0000_0000_0000 + (bytes[5] as nat) * 0x1_0000_0000_0000_0000_0000 + (
        bytes[6] as nat) * 0x100_0000_0000_0000_0000 + (bytes[7] as nat) * 0x1_0000_0000_0000_0000
            + (bytes[8] as nat) * 0x100_0000_0000_0000 + (bytes[9] as nat) * 0x1_0000_0000_0000 + (
        bytes[10] as nat) * 0x100_0000_0000 + (bytes[11] as nat) * 0x1_0000_0000 + (bytes[12]
            as nat) * 0x100_0000 + (bytes[13] as nat) * 0x1_0000 + (bytes[14] as nat) * 0x100 + (
        bytes[15] as nat)
    }

    /// Decode a seventeen-byte vector; any other length is a caller error.
    /// The prefix byte is kept as given, as the wire format stores it.
    pub fn from_vec(bytes: Vec<u8>) -> (r: Net)
        requires
            bytes@.len() == 17,
        ensures
            r.address as nat == Net::spec_addr_of_bytes(bytes@),
            r.subnet == bytes@[16],
    {
        Net { address: Net::addr_of_byte_slice(&bytes), subnet: bytes[16] }
    }

    /// The seventeen-byte big-endian encoding as a fixed array.
    pub fn to_bytes(&self) -> (r: [u8; 17])
        ensures
            r@ =~= self.spec_bytes17(),
    {
        [
            (self.address >> 120u128) as u8,
            (self.address >> 112u128) as u8,
            (self.address >> 104u128) as u8,
            (self.address >> 96u128) as u8,
            (self.address >> 88u128) as u8,
            (self.address >> 80u128) as u8,
            (self.address >> 72u128) as u8,
            (self.address >> 64u128) as u8,
            (self.address >> 56u128) as u8,
            (self.address >> 48u128) as u8,
            (self.address >> 40u128) as u8,
            (self.address >> 32u128) as u8,
            (self.address >> 24u128) as u8,
            (self.address >> 16u128) as u8,
            (self.address >> 8u128) as u8,
            self.address as u8,
            self.subnet,
        ]
    }

    /// Decode seventeen big-endian bytes, keeping the prefix byte as given.
    pub fn from_bytes(bytes: [u8; 17]) -> (r: Net)
        ensures
            r.address as nat == Net::spec_addr_of_bytes(bytes@),
            r.subnet == bytes@[16],
    {
        let mut acc: u128 = 0;
        acc = acc * 0x100 + (bytes[0] as u128);
        acc = acc * 0x100 + (bytes[1] as u128);
        acc = acc * 0x100 + (bytes[2] as u128);
        acc = acc * 0x100 + (bytes[3] as u128);
        acc = acc * 0x100 + (bytes[4] as u128);
        acc = acc * 0x100 + (bytes[5] as u128);
        acc = acc * 0x100 + (bytes[6] as u128);
        acc = acc * 0x100 + (bytes[7] as u128);
        acc = acc * 0x100 + (bytes[8] as u128);
        acc = acc * 0x100 + (bytes[9] as u128);
        acc = acc * 0x100 + (bytes[10] as u128);
        acc = acc * 0x100 + (bytes[11] as u128);
        acc = acc * 0x100 + (bytes[12] as u128);
        acc = acc * 0x100 + (bytes[13] as u128);
        acc = acc * 0x100 + (bytes[14] as u128);
        acc = acc * 0x100 + (bytes[15] as u128);
        Net { address: acc, subnet: bytes[16] }
    }

    /// The address held in the first sixteen bytes of a vector.
    fn addr_of_byte_slice(bytes: &Vec<u8>) -> (r: u128)
        requires
            bytes@.len() >= 16,
        ensures
            r as nat == Net::spec_addr_of_bytes(bytes@),
    {
        let mut acc: u128 = 0;
        acc = acc * 0x100 + (bytes[0] as u128);
        acc = acc * 0x100 + (bytes[1] as u128);
        acc = acc * 0x100 + (bytes[2] as u128);
        acc = acc * 0x100 + (bytes[3] as u128);
        acc = acc * 0x100 + (bytes[4] as u128);
        acc = acc * 0x100 + (bytes[5] as u128);
        acc = acc * 0x100 + (bytes[6] as u128);
        acc = acc * 0x100 + (bytes[7] as u128);
        acc = acc * 0x100 + (bytes[8] as u128);
        acc = acc * 0x100 + (bytes[9] as u128);
        acc = acc * 0x100 + (bytes[10] as u128);
        acc = acc * 0x100 + (bytes[11] as u128);
        acc = acc * 0x100 + (bytes[12] as u128);
        acc = acc * 0x100 + (bytes[13] as u128);
        acc = acc * 0x100 + (bytes[14] as u128);
        acc = acc * 0x100 + (bytes[15] as u128);
        acc
    }

    /// Render as eight colon-separated lower-case hex groups and `/prefix`.
    pub fn to_string(&self) -> (r: String)
        ensures
            r@ == spec_net6_str(*self),
    {
        let g0 = u32_to_hex(((self.address >> 112u128) as u16) as u32);
        let g1 = u32_to_hex(((self.address >> 96u128) as u16) as u32);
        let g2 = u32_to_hex(((self.address >> 80u128) as u16) as u32);
        let g3 = u32_to_hex(((self.address >> 64u128) as u16) as u32);
        let g4 = u32_to_hex(((self.address >> 48u128) as u16) as u32);
        let g5 = u32_to_hex(((self.address >> 32u128) as u16) as u32);
        let g6 = u32_to_hex(((self.address >> 16u128) as u16) as u32);
        let g7 = u32_to_hex((self.address as u16) as u32);
        let mut out = g0;
        push_char(&mut out, ':');
        out.append(g1.as_str());
        push_char(&mut out, ':');
        out.append(g2.as_str());
        push_char(&mut out, ':');
        out.append(g3.as_str());
        push_char(&mut out, ':');
        out.append(g4.as_str());
        push_char(&mut out, ':');
        out.append(g5.as_str());
        push_char(&mut out, ':');
        out.append(g6.as_str());
        push_char(&mut out, ':');
        out.append(g7.as_str());
        push_char(&mut out, '/');
        let p = u32_to_dec(self.subnet as u32);
        out.append(p.as_str());
        proof {
            let gs = groups_seq(self.address);
            assert(gs.len() == 8);
            lemma_join_eight(gs);
            assert((112 - 16 * 0) as u128 == 112u128 && (112 - 16 * 1) as u128 == 96u128 && (112
                - 16 * 2) as u128 == 80u128 && (112 - 16 * 3) as u128 == 64u128 && (112 - 16
                * 4) as u128 == 48u128 && (112 - 16 * 5) as u128 == 32u128 && (112 - 16 * 6)
                as u128 == 16u128 && (112 - 16 * 7) as u128 == 0u128);
            let av = self.address;
            assert(group_of(self.address, 7) == (av >> 0u128) as u16);
            assert((av >> 0u128) as u16 == av as u16) by (bit_vector);
            assert(out@ =~= spec_net6_str(*self));
        }
        out
    }
}

/// The pieces of a text between its colons.
pub open spec fn split_colons(s: Seq<char>) -> Seq<Seq<char>>
    decreases s.len(),
{
    let d = find_char(s, ':');
    if d < 0 || d >= s.len() {
        seq![s]
    } else {
        seq![s.take(d)] + split_colons(s.skip(d + 1))
    }
}

/// A split has at least one piece.
proof fn lemma_split_colons_nonempty(s: Seq<char>)
    ensures
        split_colons(s).len() >= 1,
{
    let d = find_char(s, ':');
    if d < 0 || d >= s.len() {
        assert(split_colons(s) =~= seq![s]);
    } else {
        assert(split_colons(s) =~= seq![s.take(d)] + split_colons(s.skip(d + 1)));
    }
}

/// The value of one hex group: hex digits only, at most sixteen bits.
pub open spec fn spec_parse_group(s: Seq<char>) -> Option<nat> {
    match spec_parse_hex(s, 0x1_0000) {
        Option::None => Option::None,
        Option::Some(v) => if v > 0xFFFF {
            Option::None
        } else {
            Option::Some(v)
        },
    }
}

/// Parse a colon-separated address of exactly eight hex groups.
pub open spec fn spec_parse_addr6(s: Seq<char>) -> Option<u128> {
    let parts = split_colons(s);
    if parts.len() != 8 {
        Option::None
    } else if exists|i: int| 0 <= i < parts.len() && spec_parse_group(#[trigger] parts[i]) is None {
        Option::None
    } else {
        Option::Some(groups_val(parts.map_values(|p: Seq<char>| spec_parse_group(p).unwrap()))
            as u128)
    }
}

/// Parse a block: eight hex groups, then an optional `/prefix` read as an
/// unsigned decimal numeral and clamped to the address width -- a value
/// above the width saturates silently, never an error; a missing prefix
/// means a host route.
pub open spec fn spec_parse_net6(s: Seq<char>) -> Option<Net> {
    let sl = find_char(s, '/');
    if sl < 0 || sl >= s.len() {
        match spec_parse_addr6(s) {
            Option::None => Option::None,
            Option::Some(a) => Option::Some(Net { address: a, subnet: 128 }),
        }
    } else {
        match spec_parse_addr6(s.take(sl)) {
            Option::None => Option::None,
            Option::Some(a) => match spec_parse_dec(s.skip(sl + 1), 256) {
                Option::None => Option::None,
                Option::Some(p) => if p > 128 {
                    Option::Some(Net { address: a, subnet: 128 })
                } else {
                    Option::Some(Net { address: a, subnet: p as u8 })
                },
            },
        }
    }
}

/// An upper bound on the value of the first `c` groups.
pub open spec fn group_cap(c: int) -> nat {
    if c <= 0 {
        1
    } else if c == 1 {
        0x1_0000
    } else if c == 2 {
        0x1_0000_0000
    } else if c == 3 {
        0x1_0000_0000_0000
    } else if c == 4 {
        0x1_0000_0000_0000_0000
    } else if c == 5 {
        0x1_0000_0000_0000_0000_0000
    } else if c == 6 {
        0x1_0000_0000_0000_0000_0000_0000
    } else if c == 7 {
        0x1_0000_0000_0000_0000_0000_0000_0000
    } else {
        u128::MAX as nat + 1
    }
}

/// Parse a colon-separated address of exactly eight hex groups.
#[verifier::rlimit(60)]
fn parse_addr6_exec(s: &str) -> (r: Option<u128>)
    ensures
        (r is Some) == (spec_parse_addr6(s@) is Some),
        r is Some ==> r.unwrap() == spec_parse_addr6(s@).unwrap(),
{
    let ghost parts = split_colons(s@);
    let mut rest: &str = s;
    let mut count: usize = 0;
    let mut acc: u128 = 0;
    let ghost mut vals: Seq<nat> = Seq::empty();
    let ghost mut done: Seq<Seq<char>> = Seq::empty();
    proof {
        assert(parts =~= done + split_colons(rest@));
    }
    loop
        invariant
            parts == split_colons(s@),
            count == vals.len(),
            count == done.len(),
            count <= 8,
            parts =~= done + split_colons(rest@),
            forall|i: int|
                0 <= i < count ==> spec_parse_group(#[trigger] parts[i]) == Option::Some(vals[i]),
            forall|i: int| 0 <= i < count ==> #[trigger] vals[i] <= 0xFFFF,
            acc as nat == groups_val(vals),
            (acc as nat) < group_cap(count as int),
        decreases rest@.len(),
    {
        let ln = rest.unicode_len();
        match find_char_exec(rest, ':') {
            Some(d) => {
                proof {
                    assert(split_colons(rest@) =~= seq![rest@.take(d as int)] + split_colons(
                        rest@.skip(d + 1),
                    ));
                    lemma_split_colons_nonempty(rest@.skip(d + 1));
                    assert(parts.len() == count + split_colons(rest@).len());
                    assert(parts.len() >= count + 2);
                }
                if count >= 7 {
                    // an eighth separator would make at least nine groups
                    return None;
                }
                let part = rest.substring_char(0, d);
                let next = rest.substring_char(d + 1, ln);
                proof {
                    assert(part@ =~= rest@.take(d as int));
                    assert(next@ =~= rest@.skip(d + 1));
                    assert(split_colons(rest@) =~= seq![part@] + split_colons(next@));
                    assert(parts[count as int] == part@);
                }
                match parse_hex_capped(part, 0x1_0000) {
                    Some(v) if v <= 0xFFFF => {
                        proof {
                            assert(spec_parse_group(part@) == Option::Some(v as nat));
                            assert(vals.push(v as nat).drop_last() =~= vals);
                            assert(groups_val(vals.push(v as nat)) == groups_val(vals) * 0x1_0000
                                + v as nat);
                            assert(parts =~= (done + seq![part@]) + split_colons(next@));
                        }
                        acc = acc * 0x1_0000 + (v as u128);
                        proof {
                            vals = vals.push(v as nat);
                            done = done.push(part@);
                        }
                        count = count + 1;
                        rest = next;
                    },
                    _ => {
                        proof {
                            assert(spec_parse_group(parts[count as int]) is None);
                        }
                        return None;
                    },
                }
            },
            None => {
                proof {
                    assert(split_colons(rest@) =~= seq![rest@]);
                    assert(parts =~= done + seq![rest@]);
                    assert(parts.len() == count + 1);
                    assert(parts[count as int] == rest@);
                }
                if count != 7 {
                    return None;
                }
                match parse_hex_capped(rest, 0x1_0000) {
                    Some(v) if v <= 0xFFFF => {
                        proof {
                            assert(spec_parse_group(rest@) == Option::Some(v as nat));
                            assert(vals.push(v as nat).drop_last() =~= vals);
                            assert(groups_val(vals.push(v as nat)) == groups_val(vals) * 0x1_0000
                                + v as nat);
                        }
                        acc = acc * 0x1_0000 + (v as u128);
                        proof {
                            vals = vals.push(v as nat);
                            let f = |p: Seq<char>| spec_parse_group(p).unwrap();
                            assert forall|i: int| 0 <= i < parts.len() implies parts.map_values(f)[i]
                                == vals[i] by {
                                assert(spec_parse_group(parts[i]) == Option::Some(vals[i]));
                            }
                            assert(parts.map_values(f) =~= vals);
                            assert forall|i: int|
                                0 <= i < parts.len() implies !(spec_parse_group(
                                #[trigger] parts[i],
                            ) is None) by {
                                assert(spec_parse_group(parts[i]) == Option::Some(vals[i]));
                            }
                        }
                        return Some(acc);
                    },
                    _ => {
                        proof {
                            assert(spec_parse_group(parts[count as int]) is None);
                        }
                        return None;
                    },
                }
            },
        }
    }
}

impl Net {
    /// Parse eight colon-separated hex groups with an optional `/prefix`;
    /// a prefix above the address width saturates to it.
    pub fn from_str(s: &str) -> (r: Result<Net, Error>)
        ensures
            (r is Ok) == (spec_parse_net6(s@) is Some),
            r is Ok ==> r.unwrap() == spec_parse_net6(s@).unwrap() && r.unwrap().wf(),
            r is Err ==> r.unwrap_err().code == 2,
    {
        let n = s.unicode_len();
        match find_char_exec(s, '/') {
            Some(d) => {
                let addr_part = s.substring_char(0, d);
                let pfx_part = s.substring_char(d + 1, n);
                proof {
                    assert(addr_part@ =~= s@.take(d as int));
                    assert(pfx_part@ =~= s@.skip(d + 1));
                }
                match parse_addr6_exec(addr_part) {
                    None => Err(format_error6()),
                    Some(a) => match parse_dec_capped(pfx_part, 256) {
                        None => Err(format_error6()),
                        Some(v) => {
                            if v > 128 {
                                Ok(Net { address: a, subnet: 128 })
                            } else {
                                Ok(Net { address: a, subnet: v as u8 })
                            }
                        },
                    },
                }
            },
            None => match parse_addr6_exec(s) {
                None => Err(format_error6()),
                Some(a) => Ok(Net { address: a, subnet: 128 }),
            },
        }
    }
}

/// The parse failure the text functions report.
fn format_error6() -> (r: Error)
    ensures
        r.code == 2,
        r.message@ == "Format error"@,
{
    Error::new("Format error".to_owned(), 2)
}

/// The text of eight groups, written out as one concatenation.
#[verifier::rlimit(100)]
pub(crate) proof fn lemma_join_eight(gs: Seq<nat>)
    requires
        gs.len() == 8,
    ensures
        join_groups(gs) =~= hex_digits(gs[0]) + seq![':'] + hex_digits(gs[1]) + seq![':']
            + hex_digits(gs[2]) + seq![':'] + hex_digits(gs[3]) + seq![':'] + hex_digits(gs[4])
            + seq![':'] + hex_digits(gs[5]) + seq![':'] + hex_digits(gs[6]) + seq![':']
            + hex_digits(gs[7]),
{
    let t7 = gs.skip(7);
    let t6 = gs.skip(6);
    let t5 = gs.skip(5);
    let t4 = gs.skip(4);
    let t3 = gs.skip(3);
    let t2 = gs.skip(2);
    let t1 = gs.skip(1);
    assert(t7.len() == 1 && t7[0] == gs[7]);
    assert(join_groups(t7) =~= hex_digits(gs[7]));
    assert(t6.drop_first() =~= t7 && t6[0] == gs[6]);
    assert(join_groups(t6) =~= hex_digits(gs[6]) + seq![':'] + join_groups(t7));
    assert(t5.drop_first() =~= t6 && t5[0] == gs[5]);
    assert(join_groups(t5) =~= hex_digits(gs[5]) + seq![':'] + join_groups(t6));
    assert(t4.drop_first() =~= t5 && t4[0] == gs[4]);
    assert(join_groups(t4) =~= hex_digits(gs[4]) + seq![':'] + join_groups(t5));
    assert(t3.drop_first() =~= t4 && t3[0] == gs[3]);
    assert(join_groups(t3) =~= hex_digits(gs[3]) + seq![':'] + join_groups(t4));
    assert(t2.drop_first() =~= t3 && t2[0] == gs[2]);
    assert(join_groups(t2) =~= hex_digits(gs[2]) + seq![':'] + join_groups(t3));
    assert(t1.drop_first() =~= t2 && t1[0] == gs[1]);
    assert(join_groups(t1) =~= hex_digits(gs[1]) + seq![':'] + join_groups(t2));
    assert(gs.drop_first() =~= t1);
    assert(join_groups(gs) =~= hex_digits(gs[0]) + seq![':'] + join_groups(t1));
}

/// An ordered collection of IPv6 blocks.
#[derive(Debug, Clone, PartialEq, Eq)]
pub struct NetSet {
    pub data: Vec<Net>,
}

impl View for NetSet {
    type V = Seq<Net>;

    open spec fn view(&self) -> Seq<Net> {
        self.data@
    }
}

/// Non-strict order by the raw pair `(address, prefix)`.
pub open spec fn raw_le6(a: Net, b: Net) -> bool {
    a.address < b.address || (a.address == b.address && a.subnet <= b.subnet)
}

/// Strict comparison by the raw pair `(address, prefix)`.
fn raw_lt6_exec(a: &Net, b: &Net) -> (r: bool)
    ensures
        r == (!raw_le6(*b, *a)),
{
    a.address < b.address || (a.address == b.address && a.subnet < b.subnet)
}

/// Consecutive duplicates removed, keeping the first of each run.
pub open spec fn dedup6_seq(s: Seq<Net>) -> Seq<Net>
    decreases s.len(),
{
    if s.len() <= 1 {
        s
    } else if s[s.len() - 1] == s[s.len() - 2] {
        dedup6_seq(s.drop_last())
    } else {
        dedup6_seq(s.drop_last()).push(s.last())
    }
}

/// Deduplication keeps the last element of a non-empty sequence.
proof fn lemma_dedup6_last(s: Seq<Net>)
    requires
        s.len() > 0,
    ensures
        dedup6_seq(s).len() > 0,
        dedup6_seq(s).last() == s.last(),
    decreases s.len(),
{
    if s.len() > 1 && s[s.len() - 1] == s[s.len() - 2] {
        lemma_dedup6_last(s.drop_last());
    }
}

/// The sequence with every occurrence of one block removed.
pub open spec fn without(s: Seq<Net>, x: Net) -> Seq<Net>
    decreases s.len(),
{
    if s.len() == 0 {
        Seq::empty()
    } else if s.last() == x {
        without(s.drop_last(), x)
    } else {
        without(s.drop_last(), x).push(s.last())
    }
}

/// The text of a block set: blocks joined by single line feeds.
pub open spec fn spec_netset6_str(s: Seq<Net>) -> Seq<char>
    decreases s.len(),
{
    if s.len() == 0 {
        Seq::empty()
    } else if s.len() == 1 {
        spec_net6_str(s[0])
    } else {
        spec_netset6_str(s.drop_last()) + seq!['\n'] + spec_net6_str(s.last())
    }
}

/// A character that may appear in a block token: hex digits, the group
/// separator and the prefix separator.
pub open spec fn valid6_char(c: char) -> bool {
    is_hex_digit(c) || c == ':' || c == '/'
}

/// A separator the pre-filter folds into line structure.
pub open spec fn filter_sep(c: char) -> bool {
    c == '\n' || c == '\r' || c == '\t' || c == ' ' || c == ';' || c == '='
}

/// The pre-filter walked over the text: token characters are kept, each
/// new run after a separator starting on a fresh line; all else dropped.
pub open spec fn filter_scan(s: Seq<char>, i: int, newline: bool, acc: Seq<char>) -> Seq<char>
    decreases s.len() - i,
{
    if i < 0 || i >= s.len() {
        acc
    } else {
        let c = s[i];
        if valid6_char(c) {
            filter_scan(
                s,
                i + 1,
                false,
                if newline {
                    acc.push('\n').push(c)
                } else {
                    acc.push(c)
                },
            )
        } else if filter_sep(c) {
            filter_scan(s, i + 1, true, acc)
        } else {
            filter_scan(s, i + 1, newline, acc)
        }
    }
}

/// The pieces of a text between its line feeds, kept verbatim.
pub open spec fn split_plain(s: Seq<char>) -> Seq<Seq<char>>
    decreases s.len(),
{
    let d = find_char(s, '\n');
    if d < 0 || d >= s.len() {
        seq![s]
    } else {
        seq![s.take(d)] + split_plain(s.skip(d + 1))
    }
}

/// The blocks collected from the lines of a text: non-empty lines are
/// trimmed and parsed, lines that do not parse are skipped.
pub open spec fn scan6(lines: Seq<Seq<char>>) -> Seq<Net>
    decreases lines.len(),
{
    if lines.len() == 0 {
        Seq::empty()
    } else {
        let hd = lines[0];
        let tail = scan6(lines.drop_first());
        if hd.len() == 0 {
            tail
        } else {
            match spec_parse_net6(spec_trim(hd)) {
                Option::Some(n) => seq![n] + tail,
                Option::None => tail,
            }
        }
    }
}

impl NetSet {
    /// An empty block set.
    pub fn new() -> (r: NetSet)
        ensures
            r@ == Seq::<Net>::empty(),
    {
        NetSet { data: Vec::new() }
    }

    /// Append a copy of one block at the end.
    pub fn push(&mut self, ip: &Net)
        ensures
            final(self)@ == old(self)@.push(*ip),
    {
        self.data.push(*ip);
    }

    /// Remove and return the last block, if any.
    pub fn pop(&mut self) -> (r: Option<Net>)
        ensures
            old(self)@.len() == 0 ==> r is None && final(self)@ == old(self)@,
            old(self)@.len() > 0 ==> r == Some(old(self)@.last()) && final(self)@ == old(
                self,
            )@.drop_last(),
    {
        self.data.pop()
    }

    /// The number of blocks held.
    pub fn len(&self) -> (r: usize)
        ensures
            r == self@.len(),
    {
        self.data.len()
    }

    /// Drop every block.
    pub fn clear(&mut self)
        ensures
            final(self)@ == Seq::<Net>::empty(),
    {
        self.data.clear();
    }

    /// Whether the set holds this exact block.
    pub fn contains(&self, ip: &Net) -> (r: bool)
        ensures
            r == self@.contains(*ip),
    {
        let mut i: usize = 0;
        while i < self.data.len()
            invariant
                i <= self@.len(),
                forall|j: int| 0 <= j < i ==> self@[j] != *ip,
            decreases self@.len() - i,
        {
            if self.data[i] == *ip {
                return true;
            }
            i = i + 1;
        }
        false
    }

    /// A fresh copy of the set.
    pub fn copy(&self) -> (r: NetSet)
        ensures
            r@ == self@,
    {
        let mut out: Vec<Net> = Vec::new();
        let mut i: usize = 0;
        while i < self.data.len()
            invariant
                i <= self@.len(),
                out@ == self@.take(i as int),
            decreases self@.len() - i,
        {
            out.push(self.data[i]);
            proof {
                assert(out@ =~= self@.take(i + 1));
            }
            i = i + 1;
        }
        proof {
            assert(self@.take(self@.len() as int) =~= self@);
        }
        NetSet { data: out }
    }

    /// Move every block of `other` to the end of this set.
    pub fn append(&mut self, other: &mut NetSet)
        ensures
            final(self)@ == old(self)@ + old(other)@,
            final(other)@ == Seq::<Net>::empty(),
    {
        self.data.append(&mut other.data);
    }

    /// Put copies of another set's blocks in front of this set's blocks.
    pub fn prepend(&mut self, other: &NetSet)
        ensures
            final(self)@ == other@ + old(self)@,
    {
        let mut head = other.copy();
        head.data.append(&mut self.data);
        self.data = head.data;
    }

    /// Remove every occurrence of the given block.
    pub fn remove(&mut self, ip: &Net)
        ensures
            final(self)@ == without(old(self)@, *ip),
    {
        let mut out: Vec<Net> = Vec::new();
        let mut i: usize = 0;
        while i < self.data.len()
            invariant
                i <= self.data@.len(),
                self.data@ == old(self)@,
                out@ == without(old(self)@.take(i as int), *ip),
            decreases self.data@.len() - i,
        {
            proof {
                assert(self.data@.take(i + 1).drop_last() =~= self.data@.take(i as int));
                assert(self.data@.take(i + 1).last() == self.data@[i as int]);
            }
            let x = self.data[i];
            if !(x == *ip) {
                out.push(x);
            }
            i = i + 1;
        }
        proof {
            assert(self.data@.take(self.data@.len() as int) =~= self.data@);
        }
        self.data = out;
    }

    /// Insert a block at a position, shifting the tail right.
    pub fn insert(&mut self, ip: Net, index: usize)
        requires
            index <= old(self)@.len(),
        ensures
            final(self)@ == old(self)@.insert(index as int, ip),
    {
        self.data.insert(index, ip);
    }

    /// Remove consecutive exact duplicates, keeping the first of each run.
    pub fn dedup(&mut self)
        ensures
            final(self)@ == dedup6_seq(old(self)@),
    {
        let mut out: Vec<Net> = Vec::new();
        let mut i: usize = 0;
        while i < self.data.len()
            invariant
                i <= self.data@.len(),
                out@ == dedup6_seq(self.data@.take(i as int)),
                self.data@ == old(self)@,
            decreases self.data@.len() - i,
        {
            proof {
                assert(self.data@.take(i + 1).drop_last() =~= self.data@.take(i as int));
                if i > 0 {
                    lemma_dedup6_last(self.data@.take(i as int));
                }
            }
            let x = self.data[i];
            if out.len() == 0 {
                out.push(x);
            } else {
                let last = out[out.len() - 1];
                if last != x {
                    out.push(x);
                }
            }
            i = i + 1;
        }
        proof {
            assert(self.data@.take(self.data@.len() as int) =~= self.data@);
        }
        self.data = out;
    }

    /// Sort by the raw pair `(address, prefix)`.
    pub fn sort(&mut self)
        ensures
            final(self)@.to_multiset() == old(self)@.to_multiset(),
            forall|a: int, b: int|
                0 <= a < b < final(self)@.len() ==> #[trigger] raw_le6(
                    final(self)@[a],
                    final(self)@[b],
                ),
    {
        let v = &mut self.data;
        let mut j: usize = 1;
        while j < v.len()
            invariant
                v@.len() == old(self)@.len(),
                v@.to_multiset() == old(self)@.to_multiset(),
                1 <= j,
                forall|a: int, b: int| 0 <= a < b < j ==> #[trigger] raw_le6(v@[a], v@[b]),
            decreases v@.len() - j,
        {
            let mut k: usize = j;
            while k > 0 && raw_lt6_exec(&v[k], &v[k - 1])
                invariant
                    v@.len() == old(self)@.len(),
                    v@.to_multiset() == old(self)@.to_multiset(),
                    0 <= k <= j < v@.len(),
                    forall|a: int, b: int|
                        0 <= a < b <= j && a != k && b != k ==> #[trigger] raw_le6(v@[a], v@[b]),
                    forall|b: int| k < b <= j ==> #[trigger] raw_le6(v@[k as int], v@[b]),
                decreases k,
            {
                let ghost snap = v@;
                let x = v[k - 1];
                let y = v[k];
                v.set(k - 1, y);
                v.set(k, x);
                proof {
                    lemma_swap6_multiset(snap, k - 1, k as int);
                }
                k = k - 1;
            }
            proof {
                assert forall|a: int, b: int| 0 <= a < b < j + 1 implies #[trigger] raw_le6(
                    v@[a],
                    v@[b],
                ) by {
                    if b == k {
                        if a < k - 1 {
                            assert(raw_le6(v@[a], v@[k - 1]));
                        }
                    } else if a == k {
                        assert(raw_le6(v@[k as int], v@[b]));
                    } else {
                        assert(raw_le6(v@[a], v@[b]));
                    }
                }
            }
            j = j + 1;
        }
    }

    /// Render every block on its own line, lines joined by line feeds.
    pub fn to_string(&self) -> (r: String)
        ensures
            r@ == spec_netset6_str(self@),
    {
        let mut out = String::new();
        let mut i: usize = 0;
        proof {
            assert(self@.take(0) =~= Seq::<Net>::empty());
        }
        while i < self.data.len()
            invariant
                i <= self@.len(),
                out@ == spec_netset6_str(self@.take(i as int)),
            decreases self@.len() - i,
        {
            if i > 0 {
                push_char(&mut out, '\n');
            }
            let line = self.data[i].to_string();
            out.append(line.as_str());
            proof {
                assert(self@.take(i + 1).drop_last() =~= self@.take(i as int));
                assert(self@.take(i + 1).last() == self@[i as int]);
                assert(self@.take(i + 1)[0] == self@[0]);
            }
            i = i + 1;
        }
        proof {
            assert(self@.take(self@.len() as int) =~= self@);
        }
        out
    }

    /// Collect the blocks of a text, one candidate per line; lines that do
    /// not parse are skipped, so the scan never fails as a whole.
    pub fn from_str(s: &str) -> (r: Result<NetSet, Error>)
        ensures
            r is Ok,
            r.unwrap()@ == scan6(split_plain(s@)),
            forall|i: int| 0 <= i < r.unwrap()@.len() ==> (#[trigger] r.unwrap()@[i]).wf(),
    {
        let mut out: Vec<Net> = Vec::new();
        let mut rest: &str = s;
        let ghost total = scan6(split_plain(s@));
        loop
            invariant_except_break
                total == out@ + scan6(split_plain(rest@)),
            invariant
                forall|i: int| 0 <= i < out@.len() ==> (#[trigger] out@[i]).wf(),
            ensures
                total == out@,
            decreases rest@.len(),
        {
            let n = rest.unicode_len();
            let (line, next, last): (&str, &str, bool) = match find_char_exec(rest, '\n') {
                Some(d) => (rest.substring_char(0, d), rest.substring_char(d + 1, n), false),
                None => (rest, rest, true),
            };
            proof {
                if !last {
                    let d = find_char(rest@, '\n');
                    assert(line@ =~= rest@.take(d));
                    assert(next@ =~= rest@.skip(d + 1));
                    assert(split_plain(rest@) =~= seq![line@] + split_plain(next@));
                    assert((seq![line@] + split_plain(next@)).drop_first() =~= split_plain(next@));
                } else {
                    assert(split_plain(rest@) =~= seq![rest@]);
                    assert(seq![rest@].drop_first() =~= Seq::<Seq<char>>::empty());
                }
            }
            let ln = line.unicode_len();
            if ln > 0 {
                let body = trim_exec(line);
                match Net::from_str(body) {
                    Ok(net) => {
                        out.push(net);
                    },
                    Err(_) => {},
                }
            }
            if last {
                proof {
                    assert(scan6(Seq::<Seq<char>>::empty()) =~= Seq::<Net>::empty());
                    assert(out@ + Seq::<Net>::empty() =~= out@);
                }
                break ;
            }
            proof {
                assert(out@ + scan6(split_plain(next@)) =~= total);
            }
            rest = next;
        }
        Ok(NetSet { data: out })
    }

    /// Keep only token characters, starting a fresh line for each run that
    /// follows a separator; the input itself stays as it was.
    pub fn filter_str(s: &mut String) -> (r: String)
        ensures
            final(s)@ == old(s)@,
            r@ == filter_scan(old(s)@, 0, true, Seq::empty()),
    {
        let mut buffer = String::new();
        let mut newline = true;
        let n = s.as_str().unicode_len();
        let mut i: usize = 0;
        while i < n
            invariant
                n == s@.len(),
                s@ == old(s)@,
                i <= n,
                filter_scan(old(s)@, 0, true, Seq::empty()) == filter_scan(
                    s@,
                    i as int,
                    newline,
                    buffer@,
                ),
            decreases n - i,
        {
            let c = s.as_str().get_char(i);
            if NetSet::is_valid_char(c) {
                if newline {
                    push_char(&mut buffer, '\n');
                    newline = false;
                }
                push_char(&mut buffer, c);
            } else if c == '\n' || c == '\r' || c == '\t' || c == ' ' || c == ';' || c == '=' {
                newline = true;
            }
            i = i + 1;
        }
        buffer
    }

    /// Whether a character may appear in a block token.
    pub fn is_valid_char(c: char) -> (r: bool)
        ensures
            r == valid6_char(c),
    {
        is_hex_digit_exec(c) || c == ':' || c == '/'
    }
}

/// Every character of a joined group text is a hex digit or a colon.
pub(crate) proof fn lemma_join_groups_chars(gs: Seq<nat>)
    requires
        gs.len() >= 1,
    ensures
        forall|k: int|
            0 <= k < join_groups(gs).len() ==> is_hex_digit(#[trigger] join_groups(gs)[k])
                || join_groups(gs)[k] == ':',
    decreases gs.len(),
{
    lemma_hex_digits(gs[0]);
    let h = hex_digits(gs[0]);
    if gs.len() == 1 {
        assert(join_groups(gs) =~= h);
    } else {
        lemma_join_groups_chars(gs.drop_first());
        let t = join_groups(gs.drop_first());
        assert(join_groups(gs) =~= h + seq![':'] + t);
        assert forall|k: int|
            0 <= k < join_groups(gs).len() implies is_hex_digit(#[trigger] join_groups(gs)[k])
            || join_groups(gs)[k] == ':' by {
            let s = join_groups(gs);
            let m = h.len() as int;
            if k < m {
                assert(s[k] == h[k]);
                assert(is_hex_digit(h[k]));
            } else if k == m {
                assert(s[k] == ':');
            } else {
                assert(s[k] == t[k - m - 1]);
            }
        }
    }
}

/// A joined group text splits at its colons back into the group numerals.
pub(crate) proof fn lemma_split_colons_join(gs: Seq<nat>)
    requires
        gs.len() >= 1,
    ensures
        split_colons(join_groups(gs)) =~= gs.map_values(|g: nat| hex_digits(g)),
    decreases gs.len(),
{
    lemma_hex_digits(gs[0]);
    let h = hex_digits(gs[0]);
    if gs.len() == 1 {
        assert(join_groups(gs) =~= h);
        assert forall|k: int| 0 <= k < h.len() implies h[k] != ':' by {
            assert(is_hex_digit(h[k]));
        }
        lemma_find_char_none(h, ':');
        assert(split_colons(h) =~= seq![h]);
        assert(gs.map_values(|g: nat| hex_digits(g)) =~= seq![h]);
    } else {
        lemma_split_colons_join(gs.drop_first());
        let t = join_groups(gs.drop_first());
        let s = join_groups(gs);
        assert(s =~= h + seq![':'] + t);
        let m = h.len() as int;
        assert(s[m] == ':');
        assert forall|k: int| 0 <= k < m implies s[k] != ':' by {
            assert(s[k] == h[k]);
            assert(is_hex_digit(h[k]));
        }
        lemma_find_char_is(s, ':', m);
        assert(s.take(m) =~= h);
        assert(s.skip(m + 1) =~= t);
        assert(split_colons(s) =~= seq![h] + split_colons(t));
        assert(gs.map_values(|g: nat| hex_digits(g)) =~= seq![h] + gs.drop_first().map_values(
            |g: nat| hex_digits(g),
        ));
    }
}

/// Splitting at colons is the generic split at the colon separator.
pub(crate) proof fn lemma_split_colons_is_split_on(s: Seq<char>)
    ensures
        split_colons(s) == crate::text::split_on(s, ':'),
    decreases s.len(),
{
    let d = find_char(s, ':');
    if d < 0 || d >= s.len() {
        assert(split_colons(s) =~= seq![s]);
        assert(crate::text::split_on(s, ':') =~= seq![s]);
    } else {
        lemma_split_colons_is_split_on(s.skip(d + 1));
        assert(split_colons(s) =~= seq![s.take(d)] + split_colons(s.skip(d + 1)));
        assert(crate::text::split_on(s, ':') =~= seq![s.take(d)] + crate::text::split_on(
            s.skip(d + 1),
            ':',
        ));
    }
}

/// A joined group text starts with a hex digit and never holds two
/// adjacent colons.
pub(crate) proof fn lemma_join_no_cc(gs: Seq<nat>)
    requires
        gs.len() >= 1,
    ensures
        join_groups(gs).len() >= 1,
        is_hex_digit(join_groups(gs)[0]),
        forall|k: int|
            0 <= k && k + 1 < join_groups(gs).len() ==> !((#[trigger] join_groups(gs)[k]) == ':'
                && join_groups(gs)[k + 1] == ':'),
    decreases gs.len(),
{
    lemma_hex_digits(gs[0]);
    let h = hex_digits(gs[0]);
    let j = join_groups(gs);
    if gs.len() == 1 {
        assert(j =~= h);
        assert forall|k: int| 0 <= k && k + 1 < j.len() implies !((#[trigger] j[k]) == ':' && j[k
            + 1] == ':') by {
            assert(is_hex_digit(h[k]));
        }
    } else {
        lemma_join_no_cc(gs.drop_first());
        let t = join_groups(gs.drop_first());
        assert(j =~= h + seq![':'] + t);
        let m = h.len() as int;
        assert forall|k: int| 0 <= k && k + 1 < j.len() implies !((#[trigger] j[k]) == ':' && j[k
            + 1] == ':') by {
            if k + 1 < m {
                assert(j[k] == h[k]);
                assert(is_hex_digit(h[k]));
            } else if k + 1 == m {
                assert(j[k] == h[k]);
                assert(is_hex_digit(h[k]));
            } else if k == m {
                assert(j[k + 1] == t[0]);
                assert(is_hex_digit(t[0]));
            } else {
                assert(j[k] == t[k - m - 1]);
                assert(j[k + 1] == t[k - m]);
            }
        }
    }
}

/// Reading a block's text back yields the block: parsing inverts printing.
#[verifier::rlimit(100)]
pub proof fn lemma_net6_round_trip(n: Net)
    requires
        n.wf(),
    ensures
        spec_parse_net6(spec_net6_str(n)) == Some(n),
{
    let a = n.address;
    let gs = groups_seq(a);
    assert(gs.len() == 8);
    assert forall|i: int| 0 <= i < 8 implies #[trigger] gs[i] <= 0xFFFF by {}
    let addr = join_groups(gs);
    let p = dec_digits(n.subnet as nat);
    lemma_dec_digits(n.subnet as nat);
    let s = spec_net6_str(n);
    let m = addr.len() as int;
    lemma_join_groups_chars(gs);
    assert(s[m] == '/');
    assert forall|k: int| 0 <= k < m implies s[k] != '/' by {
        assert(s[k] == addr[k]);
        assert(is_hex_digit(addr[k]) || addr[k] == ':');
    }
    lemma_find_char_is(s, '/', m);
    assert(s.take(m) =~= addr);
    assert(s.skip(m + 1) =~= p);
    lemma_split_colons_join(gs);
    let parts = split_colons(addr);
    let f = |q: Seq<char>| spec_parse_group(q).unwrap();
    assert forall|i: int| 0 <= i < 8 implies spec_parse_group(#[trigger] parts[i]) == Option::Some(
        gs[i],
    ) by {
        assert(parts[i] == hex_digits(gs[i]));
        lemma_hex_digits(gs[i]);
    }
    assert forall|i: int| 0 <= i < parts.len() implies !(spec_parse_group(
        #[trigger] parts[i],
    ) is None) by {}
    assert(parts.map_values(f) =~= gs);
    lemma_groups_val(a);
    assert(spec_parse_addr6(addr) == Option::Some(a));
    assert(spec_parse_dec(p, 256) == Option::Some(n.subnet as nat));
    assert(spec_parse_net6(s) == Option::Some(Net { address: a, subnet: n.subnet }));
}

/// The eight groups of an address recombine to the address.
proof fn lemma_groups_val(a: u128)
    ensures
        groups_val(groups_seq(a)) == a as nat,
{
    let gs = groups_seq(a);
    let x0 = (a >> 112u128) as u16;
    let x1 = (a >> 96u128) as u16;
    let x2 = (a >> 80u128) as u16;
    let x3 = (a >> 64u128) as u16;
    let x4 = (a >> 48u128) as u16;
    let x5 = (a >> 32u128) as u16;
    let x6 = (a >> 16u128) as u16;
    let x7 = (a >> 0u128) as u16;
    assert(gs =~= seq![
        x0 as nat,
        x1 as nat,
        x2 as nat,
        x3 as nat,
        x4 as nat,
        x5 as nat,
        x6 as nat,
        x7 as nat,
    ]);
    let s1 = seq![x0 as nat];
    let s2 = s1.push(x1 as nat);
    let s3 = s2.push(x2 as nat);
    let s4 = s3.push(x3 as nat);
    let s5 = s4.push(x4 as nat);
    let s6 = s5.push(x5 as nat);
    let s7 = s6.push(x6 as nat);
    let s8 = s7.push(x7 as nat);
    assert(gs =~= s8);
    assert(s1.drop_last() =~= Seq::<nat>::empty());
    assert(s2.drop_last() =~= s1);
    assert(s3.drop_last() =~= s2);
    assert(s4.drop_last() =~= s3);
    assert(s5.drop_last() =~= s4);
    assert(s6.drop_last() =~= s5);
    assert(s7.drop_last() =~= s6);
    assert(s8.drop_last() =~= s7);
    assert(groups_val(s1) == groups_val(Seq::<nat>::empty()) * 0x1_0000 + x0 as nat);
    assert(groups_val(s1) == x0 as nat);
    assert(groups_val(s2) == groups_val(s1) * 0x1_0000 + x1 as nat);
    assert(groups_val(s3) == groups_val(s2) * 0x1_0000 + x2 as nat);
    assert(groups_val(s4) == groups_val(s3) * 0x1_0000 + x3 as nat);
    assert(groups_val(s5) == groups_val(s4) * 0x1_0000 + x4 as nat);
    assert(groups_val(s6) == groups_val(s5) * 0x1_0000 + x5 as nat);
    assert(groups_val(s7) == groups_val(s6) * 0x1_0000 + x6 as nat);
    assert(groups_val(s8) == groups_val(s7) * 0x1_0000 + x7 as nat);
    assert(groups_val(s8) == ((((((((x0 as nat) * 0x1_0000 + x1 as nat) * 0x1_0000 + x2 as nat)
        * 0x1_0000 + x3 as nat) * 0x1_0000 + x4 as nat) * 0x1_0000 + x5 as nat) * 0x1_0000 + x6
        as nat) * 0x1_0000 + x7 as nat));
    assert(((((((((a >> 112u128) as u16 as u128) * 0x1_0000 + ((a >> 96u128) as u16 as u128))
        * 0x1_0000 + ((a >> 80u128) as u16 as u128)) * 0x1_0000 + ((a >> 64u128) as u16 as u128))
        * 0x1_0000 + ((a >> 48u128) as u16 as u128)) * 0x1_0000 + ((a >> 32u128) as u16 as u128))
        * 0x1_0000 + ((a >> 16u128) as u16 as u128)) * 0x1_0000 + ((a >> 0u128) as u16 as u128)
        == a) by (bit_vector);
}

/// Swapping two positions of a sequence keeps its multiset of elements.
proof fn lemma_swap6_multiset(s: Seq<Net>, i: int, j: int)
    requires
        0 <= i < j < s.len(),
    ensures
        s.update(i, s[j]).update(j, s[i]).to_multiset() == s.to_multiset(),
{
    broadcast use vstd::seq_lib::group_to_multiset_ensures;
    broadcast use vstd::seq_lib::to_multiset_update;
    broadcast use vstd::multiset::group_multiset_axioms;

    let s1 = s.update(i, s[j]);
    let s2 = s1.update(j, s[i]);
    assert(s1[j] == s[j]);
    assert(s1.to_multiset() =~= s.to_multiset().insert(s[j]).remove(s[i]));
    assert(s2.to_multiset() =~= s1.to_multiset().insert(s[i]).remove(s1[j]));
    assert(s.to_multiset().contains(s[i]));
    assert(s2.to_multiset() =~= s.to_multiset());
}

} // verus!
