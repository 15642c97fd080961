use torcher::meta::{Error, Info};
use torcher::net::v6;
use torcher::net::{Action, Chain, Direction, Family, Ip, Mask, Port, Proto, Rule};
use torcher::util::VecSet;

#[test]
fn v6_net_text_round_trip() {
    let n = v6::Net::new(0x2001_0db8_0000_0000_0000_0000_0000_0001, 64);
    let text = n.to_string();
    assert_eq!(text, "2001:db8:0:0:0:0:0:1/64");
    assert_eq!(v6::Net::from_str(&text).unwrap(), n);
}

#[test]
fn v6_net_prefix_is_clamped() {
    let n = v6::Net::new(1, 200);
    assert_eq!(n.subnet(), 128);
    let p = v6::Net::from_str("0:0:0:0:0:0:0:1/200").unwrap();
    assert_eq!(p.subnet(), 128);
    let q = v6::Net::from_str("0:0:0:0:0:0:0:1/400").unwrap();
    assert_eq!(q.subnet(), 128);
    assert!(v6::Net::from_str("0:0:0:1").is_err());
    assert!(v6::Net::from_str("zz:0:0:0:0:0:0:1").is_err());
}

#[test]
fn v6_net_bytes_round_trip() {
    let n = v6::Net::new(0x00010203_04050607_08090a0b_0c0d0e0f, 48);
    let bytes = n.to_bytes();
    assert_eq!(bytes[0], 0);
    assert_eq!(bytes[15], 0x0f);
    assert_eq!(bytes[16], 48);
    assert_eq!(v6::Net::from_bytes(bytes), n);
    let v = n.to_vec();
    assert_eq!(v.len(), 17);
    assert_eq!(v6::Net::from_vec(v), n);
}

#[test]
fn v6_set_operations() {
    let mut s = v6::NetSet::new();
    let a = v6::Net::new(5, 128);
    let b = v6::Net::new(1, 128);
    s.push(&a);
    s.push(&b);
    s.push(&a);
    assert_eq!(s.len(), 3);
    assert!(s.contains(&a));
    s.sort();
    assert_eq!(s.data, vec![b, a, a]);
    s.dedup();
    assert_eq!(s.data, vec![b, a]);
    s.remove(&a);
    assert_eq!(s.data, vec![b]);
    s.insert(a, 0);
    assert_eq!(s.data, vec![a, b]);
    let copy = s.copy();
    assert_eq!(copy, s);
    let mut other = v6::NetSet::new();
    other.push(&a);
    s.append(&mut other);
    assert_eq!(s.len(), 3);
    assert_eq!(other.len(), 0);
    other.push(&a);
    s.prepend(&other);
    assert_eq!(s.len(), 4);
    assert_eq!(s.data[0], a);
    assert_eq!(other.len(), 1);
    s.clear();
    assert_eq!(s.pop(), None);
}

#[test]
fn v6_set_scans_lines() {
    let s = v6::NetSet::from_str("1:2:3:4:5:6:7:8/32\n\nbad line\n0:0:0:0:0:0:0:1\n").unwrap();
    assert_eq!(s.len(), 2);
    assert_eq!(s.to_string(), "1:2:3:4:5:6:7:8/32\n0:0:0:0:0:0:0:1/128");
}

#[test]
fn v6_filter_str_keeps_tokens() {
    let mut text = String::from("addr = 1:2:3:4:5:6:7:8/32; other junk");
    let filtered = v6::NetSet::filter_str(&mut text);
    // hex letters inside ordinary words survive the filter too
    assert_eq!(filtered, "\nadd\n1:2:3:4:5:6:7:8/32\ne");
    assert_eq!(text, "addr = 1:2:3:4:5:6:7:8/32; other junk");
}

#[test]
fn direction_names_and_order() {
    assert_eq!(Direction::from_str(" Input "), Direction::In);
    assert_eq!(Direction::from_str("o"), Direction::Out);
    assert_eq!(Direction::from_str("forward"), Direction::Fwd);
    assert_eq!(Direction::from_str("sideways"), Direction::Unset);
    assert_eq!(Direction::In.to_string(), "in");
    assert_eq!(Direction::Fwd.as_str(), "fwd");
    assert_eq!(Direction::new(true, true), Direction::Fwd);
    assert_eq!(Direction::new(true, false), Direction::In);
    assert_eq!(Direction::default(), Direction::Unset);
    assert!(Direction::In.lt(&Direction::Out));
    assert!(Direction::Fwd.is_any());
    assert!(Direction::Unset.is_none());
    assert_eq!(Direction::Out.to_bool(), (false, true));
    assert_eq!(Direction::In.cmp(&Direction::In), std::cmp::Ordering::Equal);
}

#[test]
fn family_names_and_order() {
    assert_eq!(Family::from_str("IPv4"), Family::V4);
    assert_eq!(Family::from_str("6"), Family::V6);
    assert_eq!(Family::from_str("all"), Family::Any);
    assert_eq!(Family::from_str(""), Family::Unset);
    assert_eq!(Family::V6.to_string(), "v6");
    assert_eq!(Family::new(true, true), Family::Any);
    assert_eq!(Family::from_bool(false, true), Family::V6);
    assert_eq!(Family::Any.to_bool(), (true, true));
    assert_eq!(Family::V4.index(), 1);
    assert!(Family::V4.is_v4());
    assert!(Family::Any.is_v6());
    assert!(Family::V4.lt(&Family::V6));
}

#[test]
fn mask_prefix_round_trip() {
    let m = Mask::from_pfxlen(Family::V4, 24);
    assert_eq!(m.to_vec(), vec![255, 255, 255, 0]);
    assert_eq!(m.to_pfxlen(), Some(24));
    let m6 = Mask::from_pfxlen(Family::V6, 33);
    assert_eq!(m6.to_pfxlen(), Some(33));
    assert_eq!(Mask::from_pfxlen(Family::V4, 40), Mask::Unset);
}

#[test]
fn mask_from_vec_bounds_the_mixed_arm() {
    let ok = Mask::from_vec(Family::Any, vec![255, 255]);
    assert!(ok.is_any());
    assert_eq!(ok.to_pfxlen(), Some(16));
    let too_long = Mask::from_vec(Family::Any, vec![0; 17]);
    assert_eq!(too_long, Mask::Unset);
    assert_eq!(Mask::from_vec(Family::Any, vec![]), Mask::Unset);
}

#[test]
fn mask_rejects_non_contiguous_bits() {
    let m = Mask::from_vec(Family::V4, vec![255, 0, 255, 0]);
    assert_eq!(m.to_pfxlen(), None);
    let ok = Mask::from_vec(Family::V4, vec![255, 128, 0, 0]);
    assert_eq!(ok.to_pfxlen(), Some(9));
}

#[test]
fn mask_text() {
    let m = Mask::from_str("255.255.0.0");
    assert_eq!(m.to_pfxlen(), Some(16));
    assert_eq!(m.to_string(), "255.255.0.0");
    assert_eq!(Mask::from_str("nonsense"), Mask::Unset);
    let m6 = Mask::from_str("255:255:0:0:0:0:0:0");
    assert!(m6.is_ip6());
    assert_eq!(m6.len(), 16);
    assert_eq!(m6.to_string(), "FFFF:0000:0000:0000:0000:0000:0000:0000");
    assert!(Mask::is_valid_str("255.0.0.0", Family::V4));
    assert!(!Mask::is_valid_str("255.0.0", Family::V4));
    assert!(Mask::is_valid_str("1:2:3:4:5:6:7:8", Family::V6));
}

#[test]
fn ip_parse_and_print_v4() {
    let ip = Ip::from_str("10.0.0.5/24").unwrap();
    assert_eq!(ip.to_string(), "10.0.0.5/24");
    assert!(ip.is_ip4());
    assert_eq!(ip.subnet(), 24);
    let host = Ip::from_str("10.0.0.5").unwrap();
    assert_eq!(host.to_string(), "10.0.0.5/32");
    assert_eq!(host.subnet(), 32);
    let wide = Ip::from_str("10.0.0.5/300").unwrap();
    assert_eq!(wide.subnet(), 32);
}

#[test]
fn ip_parse_and_print_v6() {
    let ip = Ip::from_str("2001:db8::1/64").unwrap();
    assert!(ip.is_ip6());
    assert_eq!(ip.subnet(), 64);
    assert_eq!(ip.to_string(), "2001:db8:0:0:0:0:0:1/64");
    let again = Ip::from_str(&ip.to_string()).unwrap();
    assert_eq!(again, ip);
    let whole = Ip::from_str("::").unwrap();
    assert_eq!(whole.subnet(), 128);
    assert_eq!(whole.to_string(), "0:0:0:0:0:0:0:0/128");
    assert_eq!(Ip::from_str("1:2:3:4:5:6:7:8/999").unwrap().subnet(), 128);
    assert_eq!(Ip::from_str("any").unwrap(), Ip::Any(vec![0, 0, 0, 0, 0]));
    assert_eq!(Ip::from_str("gibberish").unwrap(), Ip::Unset);
    assert!(Ip::from_str("1::zz").is_err());
    assert_eq!(Ip::from_str("1::2::3").unwrap(), Ip::Unset);
}

#[test]
fn ip_mask_operations() {
    let ip = Ip::from_str("10.0.0.5/24").unwrap();
    assert_eq!(ip.network().to_string(), "10.0.0.0/24");
    assert_eq!(ip.broadcast().to_string(), "10.0.0.255/24");
    // the wildcard depends on the prefix alone, not the address
    assert_eq!(ip.wildcard().to_string(), "0.0.0.255/24");
    let big = Ip::from_str("10.0.0.0/16").unwrap();
    assert!(big.contains(&ip));
    assert!(!ip.contains(&big));
}

#[test]
fn ip_bytes_and_flags() {
    let ip = Ip::from_str("1.2.3.4/8").unwrap();
    assert_eq!(ip.to_bytes(), vec![1, 2, 3, 4, 8]);
    assert_eq!(Ip::from_bytes(vec![1, 2, 3, 4, 8]), ip);
    assert_eq!(Ip::from_bytes(vec![1, 2]), Ip::Unset);
    assert_eq!(ip.len(), 5);
    assert_eq!(*ip.index(3), 4);
    assert_eq!(ip.address(), vec![1, 2, 3, 4]);
    assert_eq!(ip.family(), Family::V4);
    assert!(Ip::new(Family::Unset).is_none());
    assert!(Ip::new(Family::V6).is_ip6());
    assert!(Ip::new(Family::Any).is_any());
}

#[test]
fn ip_shape_checks() {
    assert!(Ip::is_valid_str("10.0.0.0/24", Family::V4));
    assert!(!Ip::is_valid_str("10.0.0.0.0", Family::V4));
    assert!(!Ip::is_valid_str(".10.0.0", Family::V4));
    assert!(Ip::is_valid_str("1:2:3:4:5:6:7:8", Family::V6));
    assert!(!Ip::is_valid_str(":1:2", Family::V6));
    assert!(Ip::is_valid_str("1:2:3:4:5:6:7:8", Family::Any));
    assert!(!Ip::is_valid_str("", Family::Any));
    let four = Ip::from_str("1.2.3.4").unwrap();
    assert!(four.is_valid_char('9'));
    assert!(four.is_valid_char('/'));
    assert!(!four.is_valid_char('g'));
    let six = Ip::from_str("::1").unwrap();
    assert!(six.is_valid_char('f'));
    assert!(six.is_valid_char(':'));
    assert!(!six.is_valid_char('.'));
}

#[test]
fn proto_entries() {
    let p = Proto::from_str("tcp 6 # Transmission Control").unwrap();
    assert_eq!(p.get_number(), 6);
    assert_eq!(p.get_name(), "tcp");
    assert_eq!(p.get_description(), "Transmission Control");
    assert_eq!(p.to_string(), "tcp (6) # Transmission Control");
    let bare = Proto::from_str("41").unwrap();
    assert_eq!(bare.get_number(), 41);
    let named = Proto::from_str("hopopt").unwrap();
    assert_eq!(named.get_number(), 254);
    assert!(Proto::from_str("x 999").is_err());
    let mut q = Proto::new();
    q.set(17, String::from("udp,User Datagram"));
    assert_eq!(q.get_name(), "udp");
    q.set_name("UDP");
    assert_eq!(q.get_name(), "UDP");
    q.set_description("datagrams");
    assert_eq!(q.get_description(), "datagrams");
    q.set_number(18);
    assert_eq!(q.get_number(), 18);
    let list = vec![Proto(6, String::from("tcp,")), Proto(17, String::from("udp,"))];
    assert_eq!(Proto::from_num(17, &list).get_name(), "udp");
    assert_eq!(Proto::from_num(99, &list).get_number(), 254);
    assert!(Proto(6, String::new()).eq(&Proto(6, String::from("x"))));
    assert_eq!(Proto(1, String::new()).cmp(&Proto(2, String::new())), std::cmp::Ordering::Less);
}

#[test]
fn port_entries() {
    let p = Port::from_str("tcp dport 80 # web").unwrap();
    assert_eq!((p.0, p.1), (80, 6));
    assert_eq!(p.2, "web");
    assert_eq!(p.to_string(), "tcp (80) # web");
    let plain = Port::from_str("udp 53").unwrap();
    assert_eq!((plain.0, plain.1), (53, 17));
    assert_eq!(plain.to_string(), "udp 53");
    let bare = Port::from_str("8080").unwrap();
    assert_eq!((bare.0, bare.1), (8080, 254));
    assert!(Port::from_str("tcp dport notanumber").is_err());
    let odd = Port::from_str("tcp dport 80 extra").unwrap();
    assert_eq!((odd.0, odd.1), (80, 6));
    let mut q = Port::new();
    q.set(443, 6);
    assert_eq!((q.0, q.1), (443, 6));
    let list = vec![Port(22, 6, String::from("ssh"))];
    assert_eq!(Port::from_num(22, &list).2, "ssh");
    assert_eq!(Port::from_num(23, &list).1, 254);
    assert!(Port(1, 6, String::new()).eq(&Port(1, 6, String::from("x"))));
    assert_eq!(
        Port(1, 6, String::new()).cmp(&Port(1, 17, String::new())),
        std::cmp::Ordering::Less
    );
}

#[test]
fn action_text_round_trips() {
    let cases: Vec<Action> = vec![
        Action::Accept,
        Action::Drop,
        Action::Reject,
        Action::Return,
        Action::Masquerade,
        Action::Ct,
        Action::Queue,
        Action::Counter,
        Action::Reclassify,
        Action::Limit(250),
        Action::Jump(7),
        Action::Quota(1024),
        Action::TProxy(8080, 3),
        Action::Snat("10.0.0.1".to_string()),
        Action::Dnat("10.0.0.2".to_string()),
    ];
    for a in cases {
        let text = a.to_string();
        let back = Action::from_str(&text).unwrap();
        assert_eq!(back, a);
    }
}

#[test]
fn action_parsing_details() {
    assert_eq!(Action::from_str("").unwrap(), Action::Unset);
    assert_eq!(Action::from_str("dance").unwrap(), Action::Unset);
    assert_eq!(Action::from_str("limit").unwrap(), Action::Limit(0));
    assert!(Action::from_str("limit rate over x/second").is_err());
    assert_eq!(Action::from_str("jump chain_5").unwrap(), Action::Jump(5));
    assert_eq!(Action::from_str("mark 99").unwrap(), Action::Mark(99));
    // a rendered mark reads back as metadata: the first word decides
    assert_eq!(
        Action::from_str(&Action::Mark(99).to_string()).unwrap(),
        Action::Meta("mark".to_string())
    );
    assert_eq!(
        Action::from_str("log prefix \"dropped packet\"").unwrap(),
        Action::Log("dropped packet".to_string())
    );
    assert_eq!(Action::from_str("log").unwrap(), Action::Log(String::new()));
    assert_eq!(Action::from_str("redirect 8080").unwrap(), Action::Redirect(Some(8080)));
    assert_eq!(Action::from_str("redirect").unwrap(), Action::Redirect(None));
    assert_eq!(Action::from_str("flow offload").unwrap(), Action::FlowOffload);
    assert_eq!(Action::from_str("flow").unwrap(), Action::Unset);
    assert_eq!(
        Action::from_str("tproxy to 3128 with mark 77").unwrap(),
        Action::TProxy(3128, 77)
    );
    assert_eq!(
        Action::from_str("set key value").unwrap(),
        Action::Assign("key".to_string(), "value".to_string())
    );
    assert_eq!(
        Action::from_str("hashlimit 5/s 10").unwrap(),
        Action::Hashlimit("5/s".to_string(), Some(10))
    );
}

#[test]
fn action_predicates_and_order() {
    assert!(Action::Accept.is_terminal());
    assert!(Action::Drop.is_terminal());
    assert!(!Action::Skip.is_terminal());
    assert!(Action::Limit(1).is_limit());
    assert!(Action::Unset.is_none());
    assert_eq!(Action::Limit(3).limit_value(), Some(3));
    assert_eq!(Action::Drop.limit_value(), None);
    assert_eq!(Action::Accept.variant_at(), 0);
    assert_eq!(Action::Unset.variant_at(), 23);
    assert_eq!(Action::new(), Action::Drop);
    assert_eq!(Action::Accept.cmp(&Action::Drop), std::cmp::Ordering::Less);
    assert_eq!(Action::Limit(1).cmp(&Action::Limit(2)), std::cmp::Ordering::Less);
    assert_eq!(
        Action::Log("a".to_string()).cmp(&Action::Log("b".to_string())),
        std::cmp::Ordering::Less
    );
}

#[test]
fn error_values() {
    let mut e = Error::new(String::from("boom"), 7);
    assert_eq!(e.to_string(), "7: boom");
    assert_eq!(e.display(), "7: boom");
    assert_eq!(e.message(), "boom");
    e.set_message(String::from("bang"));
    e.set_code(9);
    assert_eq!(e.clone().to_string(), "9: bang");
    assert_eq!(
        Error::new(String::new(), 1).cmp(&Error::new(String::new(), 2)),
        std::cmp::Ordering::Less
    );
    let parsed = Error::from_str("something failed\n42\n").unwrap();
    assert_eq!(parsed.code, 42);
    assert_eq!(parsed.message, "something failed");
}

#[test]
fn info_records() {
    let mut i = Info::new();
    i.set(
        String::from("name"),
        String::from("desc"),
        vec![String::from("a"), String::from("b")],
    );
    assert_eq!(i.name(), "name");
    assert_eq!(i.description(), "desc");
    assert_eq!(i.details(), vec![String::from("a"), String::from("b")]);
    assert_eq!(i.len(), 2);
    assert!(!i.is_empty());
    i.push(String::from("c"));
    assert_eq!(i.pop(), Some(String::from("c")));
    i.set_name(String::from("n2"));
    i.set_description(String::from("d2"));
    assert_eq!(i.to_string(), "n2\nd2\na\nb");
    i.set_details(vec![String::from("z")]);
    assert_eq!(i.to_string(), "n2\nd2\nz");
    let parsed = Info::from_str("n\nd\nx\ny\n").unwrap();
    assert_eq!(parsed.name(), "n");
    assert_eq!(parsed.description(), "d");
    assert_eq!(parsed.details(), vec![String::from("x\ny")]);
    assert!(Info::from_str("only one line\n").is_err());
    let mut other = Info::new();
    other.set(String::from("o"), String::from("od"), vec![String::from("extra")]);
    let mut base = Info::new();
    base.set(String::from("n"), String::from("d"), vec![]);
    base.append(&mut other);
    assert_eq!(base.details(), vec![String::from("extra")]);
}

#[test]
fn vecset_basics() {
    let mut s: VecSet<u32> = VecSet::new();
    assert!(s.is_empty());
    s.push(1);
    s.push(2);
    s.push(3);
    assert_eq!(s.len(), 3);
    assert_eq!(s.index(1), Some(&2));
    assert_eq!(s.index(9), None);
    assert_eq!(s.pop_at(1), Some(2));
    assert_eq!(s.remove_at(5), None);
    assert_eq!(s.pop(), Some(3));
    assert_eq!(s.to_vec(), vec![1]);
    let copy = s.copy();
    assert_eq!(copy.as_slice(), &[1]);
    s.extend_as_slice(&[7, 8]);
    assert_eq!(s.as_slice(), &[1, 7, 8]);
    s.truncate(2);
    assert_eq!(s.as_slice(), &[1, 7]);
    s.clear();
    assert_eq!(s.pop(), None);
    let from = VecSet::from_vec(vec![4, 5]);
    assert_eq!(from.as_slice(), &[4, 5]);
    let d: VecSet<u8> = VecSet::default();
    assert!(d.is_empty());
}

#[test]
fn rule_parts() {
    let rule = Rule::new(
        (vec![Ip::from_str("10.0.0.0/24").unwrap()], vec![]),
        (vec![], vec![Port(80, 6, String::new())]),
        vec![Proto(6, String::from("tcp,"))],
        Family::V4,
        Direction::In,
        Action::Accept,
        String::from("web"),
        String::from("allow web"),
    );
    assert_eq!(rule.src_ips().len(), 1);
    assert_eq!(rule.dst_ports().len(), 1);
    assert_eq!(rule.name(), "web");
    assert_eq!(rule.comment(), "allow web");
    assert!(rule.action().is_accept());
    let copy = rule.clone();
    assert!(copy.eq(&rule));
    assert!(!copy.ne(&rule));
    let mut a = rule.clone();
    let mut b = copy.clone();
    a.append(&mut b);
    assert_eq!(a.src_ips().len(), 2);
    assert_eq!(b.src_ips().len(), 0);
    assert_eq!(Rule::accept(), "ACCEPT");
    assert_eq!(Rule::drop(), "DROP");
    assert_eq!(Rule::limit(5), "LIMIT 5");
    assert_eq!(Rule::jump(2), "JUMP 2");
    assert_eq!(Rule::set("k", "v"), "SET k v");
    assert_eq!(Rule::tproxy(1, 2), "TPROXY 1 2");
    assert_eq!(Rule::hashlimit("r", None), "HASHLIMIT r 0");
    assert_eq!(Rule::none(), "NONE");
}

#[test]
fn rule_renders_its_clauses() {
    let rule = Rule::new(
        (
            vec![
                Ip::from_str("10.0.0.0/24").unwrap(),
                Ip::from_str("10.0.1.0/24").unwrap(),
            ],
            vec![Ip::from_str("192.168.0.1").unwrap()],
        ),
        (vec![], vec![Port(80, 6, String::new()), Port(443, 6, String::new())]),
        vec![Proto(6, String::from("tcp,"))],
        Family::V4,
        Direction::In,
        Action::Accept,
        String::from("web"),
        String::from("allow web"),
    );
    assert_eq!(
        rule.to_string(),
        "v4 filter input saddr { 10.0.0.0/24, 10.0.1.0/24 } daddr 192.168.0.1/32 \
         protocol tcp (6) dport { tcp 80, tcp 443 } accept name \"web\" comment \"allow web\""
    );
    // a v6 address is filtered out of a v4 rule's lists
    let mixed = Rule::new(
        (vec![Ip::from_str("2001:db8::1/64").unwrap()], vec![]),
        (vec![], vec![]),
        vec![],
        Family::V4,
        Direction::Unset,
        Action::Unset,
        String::new(),
        String::new(),
    );
    assert_eq!(mixed.to_string(), "v4 filter");
}

#[test]
fn chain_renders_header_and_rules() {
    let mut c = Chain::new();
    c.set_name("input");
    c.set_number(2);
    let mut r = Rule::default();
    r.family = Family::V4;
    r.action = Action::Drop;
    c.push(r);
    assert_eq!(c.to_string(), "chain input (2)\n  v4 filter drop\n");
}

#[test]
fn chain_container() {
    let mut c = Chain::new();
    assert!(c.is_empty());
    c.set_name("input");
    c.set_number(3);
    assert_eq!(c.get_name(), "input");
    assert_eq!(c.get_number(), 3);
    let mut r1 = Rule::default();
    r1.name = String::from("one");
    let mut r2 = Rule::default();
    r2.name = String::from("two");
    c.push(r1.clone());
    c.push(r2.clone());
    assert_eq!(c.len(), 2);
    c.swap(0, 1);
    assert_eq!(c.get_rules()[0].name(), "two");
    let removed = c.remove(0);
    assert_eq!(removed.name(), "two");
    c.insert(0, r2.clone());
    let back = c.swap_remove(0);
    assert_eq!(back.name(), "two");
    let copy = c.clone();
    assert_eq!(copy.get_number(), 3);
    c.set_rules(vec![r1]);
    assert_eq!(c.len(), 1);
    c.clear();
    assert!(c.is_empty());
}
