use dnsconf::config::{ConfError, DnsProxyConf, RawConf};
use dnsconf::upstream::{DnsUpstream, SockAddr};

fn v4(a: u8, b: u8, c: u8, d: u8, port: u16) -> SockAddr {
    SockAddr::V4 { ip: [a, b, c, d], port }
}

fn up(addr: SockAddr) -> DnsUpstream {
    DnsUpstream { addr, socks5: None }
}

fn raw(server: Vec<(&str, DnsUpstream)>, rule: Vec<(&str, &str)>) -> RawConf {
    RawConf {
        listen: v4(127, 0, 0, 1, 53),
        server: server.into_iter().map(|(k, v)| (k.to_string(), v)).collect(),
        rule: rule.into_iter().map(|(k, v)| (k.to_string(), v.to_string())).collect(),
    }
}

#[test]
fn only_default_rule() {
    let r = raw(vec![("a", up(v4(8, 8, 8, 8, 53)))], vec![("else", "a")]);
    let c = DnsProxyConf::new(r).unwrap();
    assert_eq!(c.listen, v4(127, 0, 0, 1, 53));
    assert_eq!(c.default, DnsUpstream { addr: v4(8, 8, 8, 8, 53), socks5: None });
    assert!(c.resolv.is_empty());
}

#[test]
fn default_checked_before_regions() {
    let r = raw(vec![("a", up(v4(8, 8, 8, 8, 53)))], vec![("cn", "a"), ("else", "b")]);
    assert_eq!(DnsProxyConf::new(r).unwrap_err(), ConfError::NoDefault);
}

#[test]
fn socks5_hop_kept() {
    let a = DnsUpstream { addr: v4(1, 2, 3, 4, 53), socks5: Some(v4(10, 0, 0, 1, 1080)) };
    let r = raw(vec![("a", a)], vec![("else", "a")]);
    let c = DnsProxyConf::new(r).unwrap();
    assert_eq!(c.default.addr, v4(1, 2, 3, 4, 53));
    assert_eq!(c.default.socks5, Some(v4(10, 0, 0, 1, 1080)));
}

#[test]
fn undefined_region_server_named() {
    let r = raw(vec![("a", up(v4(8, 8, 8, 8, 53)))], vec![("cn", "missing"), ("else", "a")]);
    assert_eq!(
        DnsProxyConf::new(r).unwrap_err(),
        ConfError::UndefinedServer("missing".to_string())
    );
}

#[test]
fn missing_else_rule() {
    let r = raw(vec![("a", up(v4(8, 8, 8, 8, 53)))], vec![("cn", "a")]);
    assert_eq!(DnsProxyConf::new(r).unwrap_err(), ConfError::NoDefault);
}

#[test]
fn empty_configuration() {
    let r = raw(vec![], vec![]);
    assert_eq!(DnsProxyConf::new(r).unwrap_err(), ConfError::NoDefault);
}

#[test]
fn first_undefined_server_wins() {
    let r = raw(
        vec![("a", up(v4(8, 8, 8, 8, 53)))],
        vec![("cn", "a"), ("hk", "x"), ("jp", "y"), ("else", "a")],
    );
    assert_eq!(DnsProxyConf::new(r).unwrap_err(), ConfError::UndefinedServer("x".to_string()));
}

#[test]
fn regions_resolve_to_their_servers() {
    let a = up(v4(8, 8, 8, 8, 53));
    let b = DnsUpstream { addr: v4(114, 114, 114, 114, 53), socks5: Some(v4(127, 0, 0, 1, 1080)) };
    let r = raw(vec![("a", a), ("b", b)], vec![("cn", "b"), ("else", "a"), ("us", "a")]);
    let c = DnsProxyConf::new(r).unwrap();
    assert_eq!(c.default, a);
    assert_eq!(c.resolv.len(), 2);
    assert_eq!(c.region(&"cn".to_string()), Some(b));
    assert_eq!(c.region(&"us".to_string()), Some(a));
    assert_eq!(c.region(&"else".to_string()), None);
    assert_eq!(c.region(&"jp".to_string()), None);
    assert!(c.resolv.iter().all(|(k, _)| k != "else"));
}

#[test]
fn resolving_twice_gives_equal_results() {
    let make = || {
        raw(
            vec![("a", up(v4(8, 8, 8, 8, 53))), ("b", up(v4(1, 1, 1, 1, 53)))],
            vec![("cn", "b"), ("else", "a")],
        )
    };
    let c1 = DnsProxyConf::new(make()).unwrap();
    let c2 = DnsProxyConf::new(make()).unwrap();
    assert_eq!(c1.listen, c2.listen);
    assert_eq!(c1.default, c2.default);
    assert_eq!(c1.resolv, c2.resolv);
}

#[test]
fn ipv6_upstream_and_port() {
    let v6 = SockAddr::V6 { ip: [0x2001, 0x4860, 0, 0, 0, 0, 0, 0x8888], port: 853, flowinfo: 0, scope_id: 0 };
    let r = raw(vec![("g", up(v6))], vec![("else", "g")]);
    let c = DnsProxyConf::new(r).unwrap();
    assert_eq!(c.default.addr, v6);
    assert_eq!(c.default.addr.port(), 853);
    assert_eq!(c.listen.port(), 53);
}
