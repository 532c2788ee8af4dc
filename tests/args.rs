use portscan::hosts::{
    address_and_netmask_from_str, expand_hosts, expand_hosts_with_netmask, Ipv4Address,
};
use portscan::ports::{expand_port_list, expand_port_range};
use portscan::NetworkParseError;

#[test]
fn test_expand_hosts_with_netmask() {
    let mut hosts = expand_hosts_with_netmask(Ipv4Address::new(192, 168, 1, 1), 32);
    assert_eq!(hosts.next().unwrap(), Ipv4Address::new(192, 168, 1, 1));
    assert!(hosts.next().is_none());

    let mut hosts = expand_hosts_with_netmask(Ipv4Address::new(192, 168, 1, 1), 31);
    assert_eq!(hosts.next().unwrap(), Ipv4Address::new(192, 168, 1, 0));
    assert_eq!(hosts.next().unwrap(), Ipv4Address::new(192, 168, 1, 1));
    assert!(hosts.next().is_none());

    let mut hosts = expand_hosts_with_netmask(Ipv4Address::new(192, 168, 1, 2), 31);
    assert_eq!(hosts.next().unwrap(), Ipv4Address::new(192, 168, 1, 2));
    assert_eq!(hosts.next().unwrap(), Ipv4Address::new(192, 168, 1, 3));
    assert!(hosts.next().is_none());

    let mut hosts = expand_hosts_with_netmask(Ipv4Address::new(192, 168, 1, 1), 30);
    assert_eq!(hosts.next().unwrap(), Ipv4Address::new(192, 168, 1, 0));
    assert_eq!(hosts.next().unwrap(), Ipv4Address::new(192, 168, 1, 1));
    assert_eq!(hosts.next().unwrap(), Ipv4Address::new(192, 168, 1, 2));
    assert_eq!(hosts.next().unwrap(), Ipv4Address::new(192, 168, 1, 3));
    assert!(hosts.next().is_none());

    let hosts = expand_hosts_with_netmask(Ipv4Address::new(192, 168, 1, 1), 24);
    assert_eq!(hosts.count(), 256);

    let hosts = expand_hosts_with_netmask(Ipv4Address::new(192, 168, 1, 1), 8);
    assert_eq!(hosts.count(), 256 * 256 * 256);
}

#[test]
fn test_parse_address_without_netmask_succeeds() {
    assert_eq!(
        address_and_netmask_from_str("192.168.1.1").unwrap(),
        (Ipv4Address::new(192, 168, 1, 1), 32)
    );
}

#[test]
fn test_parse_address_with_netmask_succeeds() {
    assert_eq!(
        address_and_netmask_from_str("192.168.1.1/24").unwrap(),
        (Ipv4Address::new(192, 168, 1, 1), 24)
    );
}

#[test]
#[should_panic(expected = "Intended: MissingAddress")]
fn test_parse_missing_address_fails() {
    address_and_netmask_from_str("").expect("Intended");
}

#[test]
fn test_expand_port_range_succeeds() {
    assert_eq!(expand_port_range("5-9").unwrap(), 5..=9);
}

#[test]
fn test_expand_full_range_succeeds() {
    assert_eq!(expand_port_range("-").unwrap(), 1..=65535);
}

#[test]
fn test_expand_single_port_succeeds() {
    assert_eq!(expand_port_range("23").unwrap(), 23..=23);
}

#[test]
#[should_panic]
fn test_expand_missing_port_fails() {
    expand_port_range("").expect("Intended");
}

#[test]
#[should_panic]
fn test_expand_invalid_port_range_characters_fails() {
    expand_port_range("5..9").expect("Intended");
}

#[test]
#[should_panic]
fn test_expand_half_port_range_fails() {
    expand_port_range("5-").expect("Intended");
}

#[test]
fn test_expand_port_list_with_range_succeeds() {
    assert_eq!(expand_port_list("1-5").unwrap(), [1, 2, 3, 4, 5]);
}

#[test]
fn test_expand_port_list_with_enumeration_succeeds() {
    assert_eq!(expand_port_list("1,2,3,4,5").unwrap(), [1, 2, 3, 4, 5]);
}

#[test]
fn expand_hosts_slash_24_spans_whole_block() {
    let mut hosts = expand_hosts("192.168.1.1/24").unwrap();
    assert_eq!(hosts.count(), 256);
    let mut all = Vec::new();
    while let Some(a) = hosts.next() {
        all.push(a);
    }
    assert_eq!(all.len(), 256);
    assert_eq!(all[0], Ipv4Address::new(192, 168, 1, 0));
    assert_eq!(all[255], Ipv4Address::new(192, 168, 1, 255));
    for i in 1..all.len() {
        assert_eq!(all[i].0, all[i - 1].0 + 1);
    }
}

#[test]
fn expand_hosts_slash_31_is_a_pair() {
    let mut hosts = expand_hosts("192.168.1.2/31").unwrap();
    assert_eq!(hosts.next(), Some(Ipv4Address::new(192, 168, 1, 2)));
    assert_eq!(hosts.next(), Some(Ipv4Address::new(192, 168, 1, 3)));
    assert_eq!(hosts.next(), None);
}

#[test]
fn expand_hosts_without_prefix_is_the_address_itself() {
    let mut hosts = expand_hosts("10.0.0.7").unwrap();
    assert_eq!(hosts.count(), 1);
    assert_eq!(hosts.next(), Some(Ipv4Address::new(10, 0, 0, 7)));
    assert_eq!(hosts.next(), None);
}

#[test]
fn expand_hosts_prefix_zero_covers_every_address() {
    let mut hosts = expand_hosts("1.2.3.4/0").unwrap();
    assert_eq!(hosts.count(), 1u64 << 32);
    assert_eq!(hosts.next(), Some(Ipv4Address::new(0, 0, 0, 0)));
}

#[test]
fn expand_hosts_top_address_ends_walk() {
    let mut hosts = expand_hosts("255.255.255.255").unwrap();
    assert_eq!(hosts.next(), Some(Ipv4Address::new(255, 255, 255, 255)));
    assert_eq!(hosts.next(), None);
    assert_eq!(hosts.count(), 0);
    let hosts = expand_hosts("255.255.255.254/31").unwrap();
    assert_eq!(hosts.count(), 2);
}

#[test]
fn expand_hosts_errors() {
    assert_eq!(expand_hosts("").err(), Some(NetworkParseError::MissingAddress));
    assert_eq!(expand_hosts("1.2.3.4/33").err(), Some(NetworkParseError::BadNetmask));
    assert_eq!(expand_hosts("bad/24").err(), Some(NetworkParseError::BadIpAddress));
    assert_eq!(expand_hosts("1.2.3.4/").err(), Some(NetworkParseError::BadNetmask));
    assert_eq!(expand_hosts("1.2.3.4/2/4").err(), Some(NetworkParseError::BadNetmask));
    assert_eq!(expand_hosts("1.2.3.4/-1").err(), Some(NetworkParseError::BadNetmask));
    assert_eq!(expand_hosts("bad/99").err(), Some(NetworkParseError::BadIpAddress));
}

#[test]
fn dotted_quad_follows_std_rules() {
    assert!(address_and_netmask_from_str("1.2.3").is_err());
    assert!(address_and_netmask_from_str("1.2.3.4.5").is_err());
    assert!(address_and_netmask_from_str("256.1.1.1").is_err());
    assert!(address_and_netmask_from_str("01.1.1.1").is_err());
    assert!(address_and_netmask_from_str("1..1.1").is_err());
    assert!(address_and_netmask_from_str("+1.1.1.1").is_err());
    assert!(address_and_netmask_from_str("1.1.1.1 ").is_err());
    assert_eq!(
        address_and_netmask_from_str("0.0.0.0").unwrap(),
        (Ipv4Address::new(0, 0, 0, 0), 32)
    );
    assert_eq!(
        address_and_netmask_from_str("255.255.255.255/0").unwrap(),
        (Ipv4Address::new(255, 255, 255, 255), 0)
    );
}

#[test]
fn netmask_reads_like_an_unsigned_integer() {
    assert_eq!(address_and_netmask_from_str("1.2.3.4/+24").unwrap().1, 24);
    assert_eq!(address_and_netmask_from_str("1.2.3.4/0024").unwrap().1, 24);
    assert_eq!(
        address_and_netmask_from_str("1.2.3.4/4294967296").err(),
        Some(NetworkParseError::BadNetmask)
    );
}

#[test]
fn address_octets_round_trip() {
    let a = Ipv4Address::new(192, 168, 1, 200);
    assert_eq!(a.0, 0xC0A8_01C8);
    assert_eq!(a.octets(), (192, 168, 1, 200));
}

#[test]
fn port_list_full_range_and_errors() {
    let all = expand_port_list("-").unwrap();
    assert_eq!(all.len(), 65535);
    assert_eq!(all[0], 1);
    assert_eq!(all[65534], 65535);
    assert_eq!(expand_port_list("5..9").err(), Some(NetworkParseError::InvalidPortNumber));
    assert_eq!(expand_port_list("80,x").err(), Some(NetworkParseError::InvalidPortNumber));
    assert_eq!(expand_port_list("").err(), Some(NetworkParseError::InvalidPortNumber));
    assert_eq!(expand_port_list("1-2-3").err(), Some(NetworkParseError::InvalidPortNumber));
    assert_eq!(expand_port_list("65536").err(), Some(NetworkParseError::InvalidPortNumber));
}

#[test]
fn port_list_keeps_order_and_duplicates() {
    assert_eq!(expand_port_list("22,80,20-23,80").unwrap(), [22, 80, 20, 21, 22, 23, 80]);
    assert_eq!(expand_port_list("9-5").unwrap(), Vec::<u16>::new());
    assert_eq!(expand_port_list("9-5,7").unwrap(), [7]);
    assert_eq!(expand_port_list("+8,0,65535").unwrap(), [8, 0, 65535]);
}
