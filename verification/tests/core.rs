use torcher::net::v4::{Addr, Net, NetSet, Subnet};
use torcher::net::v4::Port as V4Port;

fn set_of(text: &str) -> NetSet {
    NetSet::from_str(text).unwrap()
}

#[test]
fn sibling_halves_merge_into_parent() {
    let mut s = set_of("10.0.0.0/25\n10.0.0.128/25\n");
    let out = s.optimize();
    assert_eq!(out.to_string(), "10.0.0.0/24\n");
}

#[test]
fn contained_block_is_absorbed() {
    let mut s = set_of("10.0.0.0/24\n10.0.0.5/32\n");
    let out = s.optimize();
    assert_eq!(out.to_string(), "10.0.0.0/24\n");
}

#[test]
fn exact_duplicate_is_dropped() {
    let mut s = set_of("10.0.0.0/24\n10.0.0.0/24\n");
    let out = s.optimize();
    assert_eq!(out.to_string(), "10.0.0.0/24\n");
}

#[test]
fn seventy_thousand_host_routes_chunk_into_two_lists() {
    let mut s = NetSet::new();
    let base: u32 = 10 << 24;
    for i in 0..70_000u32 {
        // stride two keeps neighbours apart so nothing merges
        s.push(Net(base + 2 * i, 32));
    }
    let out = s.optimize();
    assert_eq!(out.len(), 70_000);
    let chunks = out.chunks(65_535);
    assert_eq!(chunks.len(), 2);
    assert_eq!(chunks[0].len(), 65_535);
    assert_eq!(chunks[1].len(), 70_000 - 65_535);
}

#[test]
fn malformed_tokens_are_skipped() {
    let mut s = set_of("10.0.0.0/24\nnot.an.ip/abc\n10.1.0.0/16\n");
    assert_eq!(s.len(), 2);
    let out = s.optimize();
    assert_eq!(out.to_string(), "10.0.0.0/24\n10.1.0.0/16\n");
}

#[test]
fn optimize_twice_changes_nothing() {
    let mut s = set_of("192.168.3.0/24\n10.0.0.0/25\n10.0.0.128/25\n10.0.0.7/32\n");
    let first = s.optimize();
    let mut again = first.clone();
    let second = again.optimize();
    assert_eq!(first, second);
    assert_eq!(first.to_string(), second.to_string());
}

#[test]
fn optimize_result_is_sorted_and_disjoint() {
    let mut s = set_of("10.9.0.0/16\n10.0.0.0/24\n10.0.1.0/24\n10.0.0.77/32\n");
    let out = s.optimize();
    // the two abutting aligned blocks merge into their parent as well
    let text = out.to_string();
    assert_eq!(text, "10.0.0.0/23\n10.9.0.0/16\n");
}

#[test]
fn net_text_round_trip() {
    for text in ["10.0.0.0/24", "0.0.0.0/0", "255.255.255.255/32", "172.16.5.4/30"] {
        let n = Net::from_str(text).unwrap();
        assert_eq!(n.to_string(), text);
        assert_eq!(Net::from_str(&n.to_string()).unwrap(), n);
    }
}

#[test]
fn net_prefix_is_clamped_not_rejected() {
    let n = Net::from_str("10.0.0.1/40").unwrap();
    assert_eq!(n.subnet(), 32);
    // saturation holds for any numeric prefix, however large
    let big = Net::from_str("10.0.0.1/999").unwrap();
    assert_eq!(big.subnet(), 32);
    let huge = Net::from_str("1.2.3.4/184467440737095516150").unwrap();
    assert_eq!(huge.subnet(), 32);
    let missing = Net::from_str("10.0.0.1").unwrap();
    assert_eq!(missing.subnet(), 32);
}

#[test]
fn net_rejects_malformed_octets() {
    assert!(Net::from_str("300.0.0.1/8").is_err());
    assert!(Net::from_str("10.0.0.x/8").is_err());
    assert!(Net::from_str("10.0.0.1/abc").is_err());
}

#[test]
fn net_bytes_round_trip() {
    let n = Net::from_str("203.0.113.9/28").unwrap();
    let bytes = n.to_be_bytes();
    assert_eq!(bytes, [203, 0, 113, 9, 28]);
    assert_eq!(Net::from_be_bytes(bytes), n);
    let v = n.to_vec();
    assert_eq!(v, vec![203, 0, 113, 9, 28]);
    assert_eq!(Net::from_vec(v), n);
}

#[test]
fn net_mask_arithmetic() {
    let n = Net::from_str("10.0.0.5/24").unwrap();
    assert_eq!(n.netmask(), 0xFFFF_FF00);
    assert_eq!(n.wildcard(), 0x0000_00FF);
    assert_eq!(n.network(), 0x0A00_0000);
    assert_eq!(n.broadcast(), 0x0A00_00FF);
    let whole = Net::from_str("1.2.3.4/0").unwrap();
    assert_eq!(whole.network(), 0);
    assert_eq!(whole.broadcast(), u32::MAX);
}

#[test]
fn net_containment() {
    let big = Net::from_str("10.0.0.0/24").unwrap();
    let small = Net::from_str("10.0.0.128/25").unwrap();
    assert!(big.contains(&small));
    assert!(!small.contains(&big));
    assert!(small.contained(&big));
}

#[test]
fn netset_container_operations() {
    let mut s = NetSet::new();
    assert!(s.is_empty());
    s.push(Net(5, 32));
    s.push(Net(1, 32));
    s.push(Net(1, 32));
    s.push(Net(3, 16));
    assert_eq!(s.len(), 4);
    assert!(s.contains(Net(3, 16)));
    assert!(!s.contains(Net(4, 16)));
    s.sort();
    assert_eq!(s.0, vec![Net(1, 32), Net(1, 32), Net(3, 16), Net(5, 32)]);
    s.dedup();
    assert_eq!(s.0, vec![Net(1, 32), Net(3, 16), Net(5, 32)]);
    let (head, tail) = s.split_at(1);
    assert_eq!(head.0, vec![Net(1, 32)]);
    assert_eq!(tail.0, vec![Net(3, 16), Net(5, 32)]);
    let popped = s.pop();
    assert_eq!(popped, Some(Net(5, 32)));
    let removed = s.remove(0);
    assert_eq!(removed, Net(1, 32));
    s.clear();
    assert!(s.is_empty());
}

#[test]
fn netset_append_moves_blocks() {
    let mut a = set_of("10.0.0.0/24\n");
    let mut b = set_of("10.0.1.0/24\n");
    a.append(&mut b);
    assert_eq!(a.len(), 2);
    assert_eq!(b.len(), 0);
}

#[test]
fn chunks_cover_everything_in_order() {
    let mut s = NetSet::new();
    for i in 0..10u32 {
        s.push(Net(i << 8, 24));
    }
    let chunks = s.chunks(4);
    assert_eq!(chunks.len(), 3);
    assert_eq!(chunks[0].len(), 4);
    assert_eq!(chunks[1].len(), 4);
    assert_eq!(chunks[2].len(), 2);
    let mut joined = Vec::new();
    for c in &chunks {
        joined.extend_from_slice(&c.0);
    }
    assert_eq!(joined, s.0);
}

#[test]
fn netset_scanner_accepts_tokens_between_noise() {
    let s = set_of("allow 10.0.0.0/24; deny 10.1.0.0/16\r\n## 10.2.0.0/16\n");
    assert_eq!(s.len(), 3);
}

#[test]
fn netset_scanner_skips_repeated_token() {
    let s = set_of("10.0.0.0/24 10.0.0.0/24\n");
    assert_eq!(s.len(), 1);
}

#[test]
fn valid_str_checks_shape() {
    assert!(NetSet::is_valid_str("10.0.0.0/24"));
    assert!(NetSet::is_valid_str("1.2.3.4"));
    assert!(!NetSet::is_valid_str("1.2.3"));
    assert!(!NetSet::is_valid_str("1.2.3.4.5.6.7.8"));
    assert!(!NetSet::is_valid_str(".1.2.3"));
    assert!(!NetSet::is_valid_str("1.2.3.4/"));
    assert!(NetSet::is_valid_char('7'));
    assert!(NetSet::is_valid_char('.'));
    assert!(!NetSet::is_valid_char('x'));
}

#[test]
fn v4_small_types() {
    let a = Addr::from_str("1.2.3.4").unwrap();
    assert_eq!(a.to_string(), "1.2.3.4");
    assert_eq!(a.to_be_bytes(), [1, 2, 3, 4]);
    assert_eq!(Addr::from_be_bytes([1, 2, 3, 4]), a);
    let p = V4Port::from_str(":8080").unwrap();
    assert_eq!(p.to_string(), ":8080");
    assert_eq!(V4Port::from_str("8080").unwrap(), p);
    let sn = Subnet::from_str("/24").unwrap();
    assert_eq!(sn.to_string(), "/24");
    assert_eq!(Subnet::from_str("24").unwrap(), sn);
    assert_eq!(Net::name(), "Network");
    assert_eq!(Addr::name(), "Address");
    assert_eq!(Subnet::name(), "Subnet");
    assert_eq!(V4Port::name(), "Port");
    assert_eq!(Net::size_of(), 5);
}

#[test]
fn optimize_of_empty_set_is_empty() {
    let mut s = NetSet::new();
    let out = s.optimize();
    assert!(out.is_empty());
    assert_eq!(out.to_string(), "");
}

#[test]
fn whole_space_absorbs_everything() {
    let mut s = set_of("10.0.0.0/24\n0.0.0.0/0\n172.16.0.0/12\n");
    let out = s.optimize();
    assert_eq!(out.to_string(), "0.0.0.0/0\n");
}

#[test]
fn merge_cascades_through_backtracking() {
    // four abutting quarters collapse into one parent in a single pass
    let mut s = set_of("10.0.0.0/26\n10.0.0.64/26\n10.0.0.128/26\n10.0.0.192/26\n");
    let out = s.optimize();
    assert_eq!(out.to_string(), "10.0.0.0/24\n");
}

#[test]
fn misaligned_neighbours_stay_separate() {
    // abutting equal-size blocks that span a parent boundary must not merge
    let mut s = set_of("10.0.0.128/25\n10.0.1.0/25\n");
    let out = s.optimize();
    assert_eq!(out.to_string(), "10.0.0.128/25\n10.0.1.0/25\n");
}

#[test]
fn net_try_from_slices() {
    let host = Net::try_from(&[10, 0, 0, 1]).unwrap();
    assert_eq!(host, Net::from_str("10.0.0.1/32").unwrap());
    let block = Net::try_from(&[10, 0, 0, 0, 24]).unwrap();
    assert_eq!(block, Net::from_str("10.0.0.0/24").unwrap());
    let clamped = Net::try_from(&[10, 0, 0, 0, 200]).unwrap();
    assert_eq!(clamped.subnet(), 32);
    assert!(Net::try_from(&[1, 2, 3]).is_err());
    assert!(Net::try_from(&[1, 2, 3, 4, 5, 6]).is_err());
}

#[test]
fn optimize_keeps_raw_blocks_or_builds_canonical_parents() {
    // an untouched block keeps its raw host bits; a merged parent carries
    // its network address
    let mut s = NetSet::new();
    s.push(Net(0x0A00_0107, 24));
    s.push(Net(0x0B00_0000, 25));
    s.push(Net(0x0B00_0080, 25));
    let out = s.optimize();
    assert_eq!(out.0, vec![Net(0x0A00_0107, 24), Net(0x0B00_0000, 24)]);
}

#[test]
fn net_abs_diff_and_cmp() {
    let a = Net(10, 24);
    let b = Net(4, 30);
    let d = a.abs_diff(&b);
    assert_eq!(d, Net(6, 6));
    assert_eq!(a.cmp(&b), std::cmp::Ordering::Greater);
    assert_eq!(b.cmp(&a), std::cmp::Ordering::Less);
    assert_eq!(a.cmp(&a), std::cmp::Ordering::Equal);
}
