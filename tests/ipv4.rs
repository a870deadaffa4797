use validators::ipv4::{
    IPv4Error, IPv4LocalableAllowPort, IPv4LocalableWithPort, IPv4LocalableWithoutPort,
    IPv4UnlocalableAllowPort, IPv4UnlocalableWithPort, IPv4UnlocalableWithoutPort, IPv4Validator,
};
use validators::ValidatorOption;

const OPTIONS: [ValidatorOption; 3] = [ValidatorOption::Must, ValidatorOption::Allow, ValidatorOption::NotAllow];

fn validator(port: ValidatorOption, local: ValidatorOption, ipv6: ValidatorOption) -> IPv4Validator {
    IPv4Validator { port, local, ipv6 }
}

#[test]
fn test_ipv4_methods() {
    let ip = "168.17.212.1:8080".to_string();

    let iv = IPv4Validator {
        port: ValidatorOption::Allow,
        local: ValidatorOption::NotAllow,
        ipv6: ValidatorOption::NotAllow,
    };

    let ipv4 = iv.parse_string(ip).unwrap();

    assert_eq!("168.17.212.1:8080", ipv4.get_full_ipv4());
    assert_eq!("168.17.212.1", ipv4.get_full_ipv4_without_port());
    assert_eq!(8080, ipv4.get_port().unwrap());
    assert_eq!(false, ipv4.is_local());
}

#[test]
fn test_ipv4_lv1() {
    let ip = "168.17.212.1".to_string();

    let iv = IPv4Validator {
        port: ValidatorOption::NotAllow,
        local: ValidatorOption::NotAllow,
        ipv6: ValidatorOption::NotAllow,
    };

    iv.parse_string(ip).unwrap();
}

#[test]
fn test_ipv4_lv2() {
    let ip = "127.0.0.1".to_string();

    let iv = IPv4Validator {
        port: ValidatorOption::NotAllow,
        local: ValidatorOption::Allow,
        ipv6: ValidatorOption::NotAllow,
    };

    iv.parse_string(ip).unwrap();
}

#[test]
fn test_ipv4_lv3() {
    let ip = "168.17.212.1:8080".to_string();

    let iv = IPv4Validator {
        port: ValidatorOption::Allow,
        local: ValidatorOption::NotAllow,
        ipv6: ValidatorOption::NotAllow,
    };

    iv.parse_string(ip).unwrap();
}

#[test]
fn test_ipv4_lv4() {
    let ip = "0000:0000:0000:0000:0000:0000:370:7348".to_string();

    let iv = IPv4Validator {
        port: ValidatorOption::NotAllow,
        local: ValidatorOption::NotAllow,
        ipv6: ValidatorOption::Allow,
    };

    iv.parse_string(ip).unwrap();
}

#[test]
fn test_ipv4_lv5() {
    let ip = "[0000:0000:0000:0000:0000:0000:370:7348]".to_string();

    let iv = IPv4Validator {
        port: ValidatorOption::NotAllow,
        local: ValidatorOption::NotAllow,
        ipv6: ValidatorOption::Allow,
    };

    iv.parse_string(ip).unwrap();
}

#[test]
fn test_ipv4_lv6() {
    let ip = "[0000:0000:0000:0000:0000:0000:370:7348]:8080".to_string();

    let iv = IPv4Validator {
        port: ValidatorOption::Allow,
        local: ValidatorOption::NotAllow,
        ipv6: ValidatorOption::Allow,
    };

    iv.parse_string(ip).unwrap();
}

#[test]
fn ipv6_compatible_address_gets_dotted_text() {
    let iv = validator(ValidatorOption::Allow, ValidatorOption::Allow, ValidatorOption::Allow);
    let ip = iv.parse_str("[0000:0000:0000:0000:0000:0000:370:7348]:8080").unwrap();
    assert_eq!([3, 112, 115, 72], ip.get_ipv4_address());
    assert_eq!("3.112.115.72:8080", ip.get_full_ipv4());
    assert_eq!("3.112.115.72", ip.get_full_ipv4_without_port());
    assert_eq!(Some(8080), ip.get_port());
    let ip = iv.parse_string("0000:0000:0000:0000:0000:0000:370:7348".to_string()).unwrap();
    assert_eq!("3.112.115.72", ip.get_full_ipv4());
    assert_eq!(None, ip.get_port());
}

#[test]
fn ipv4_mapped_address_in_brackets() {
    let iv = validator(ValidatorOption::Allow, ValidatorOption::Allow, ValidatorOption::Allow);
    let ip = iv.parse_str("[::ffff:192.0.2.1]:80").unwrap();
    assert_eq!([192, 0, 2, 1], ip.get_ipv4_address());
    assert_eq!(Some(80), ip.get_port());
    assert_eq!("192.0.2.1:80", ip.get_full_ipv4());
    assert!(ip.is_local());
    let ip = iv.parse_str("[::FFFF:c000:0201]:0080").unwrap();
    assert_eq!("192.0.2.1:80", ip.into_string());
}

#[test]
fn locality_of_loopback_and_public_addresses() {
    for port in OPTIONS {
        for local in [ValidatorOption::Must, ValidatorOption::Allow] {
            for ipv6 in [ValidatorOption::Allow, ValidatorOption::NotAllow] {
                let iv = validator(port, local, ipv6);
                let s = if port == ValidatorOption::Must { "127.0.0.1:1" } else { "127.0.0.1" };
                assert!(iv.parse_str(s).unwrap().is_local());
            }
        }
        for local in [ValidatorOption::Allow, ValidatorOption::NotAllow] {
            let iv = validator(port, local, ValidatorOption::Allow);
            let s = if port == ValidatorOption::Must { "8.8.8.8:53" } else { "8.8.8.8" };
            assert!(!iv.parse_str(s).unwrap().is_local());
        }
    }
}

#[test]
fn out_of_range_octet_is_refused_under_every_rule() {
    for port in OPTIONS {
        for local in OPTIONS {
            for ipv6 in OPTIONS {
                let iv = validator(port, local, ipv6);
                assert!(iv.parse_str("999.1.1.1").is_err());
                assert!(!iv.is_ipv4("999.1.1.1"));
            }
        }
    }
}

#[test]
fn local_address_classes() {
    let iv = validator(ValidatorOption::Allow, ValidatorOption::Allow, ValidatorOption::Allow);
    let local = [
        "10.1.2.3", "172.16.0.1", "172.31.255.255", "192.168.1.1", "127.255.0.1", "169.254.3.4",
        "255.255.255.255", "192.0.2.7", "198.51.100.1", "203.0.113.9", "0.0.0.0",
    ];
    for s in local {
        assert!(iv.parse_str(s).unwrap().is_local(), "{}", s);
    }
    let public = ["172.15.0.1", "172.32.0.1", "192.169.0.1", "169.255.0.1", "1.1.1.1", "0.0.0.1", "192.0.3.1"];
    for s in public {
        assert!(!iv.parse_str(s).unwrap().is_local(), "{}", s);
    }
}

#[test]
fn ipv4_errors() {
    let iv = validator(ValidatorOption::Allow, ValidatorOption::Allow, ValidatorOption::Allow);
    for s in ["", "1.2.3", "1.2.3.4.5", "01.2.3.4", "256.1.1.1", "1.2.3.4:", "1.2.3.4:123456", "[::1", "[::1]x", "2001:db8::1", "1::2::3", "::ffff:1.2.3"] {
        assert_eq!(Err(IPv4Error::IncorrectFormat), iv.parse_str(s).map(|_| ()), "{}", s);
    }
    assert_eq!(Err(IPv4Error::IncorrectPort), iv.parse_str("1.2.3.4:65536").map(|_| ()));
    assert_eq!(Err(IPv4Error::IncorrectPort), iv.parse_str("[::1.2.3.4]:70000").map(|_| ()));
    let no_port = validator(ValidatorOption::NotAllow, ValidatorOption::Allow, ValidatorOption::Allow);
    assert_eq!(Err(IPv4Error::PortNotAllow), no_port.parse_str("1.2.3.4:80").map(|_| ()));
    let must_port = validator(ValidatorOption::Must, ValidatorOption::Allow, ValidatorOption::Allow);
    assert_eq!(Err(IPv4Error::PortNotFound), must_port.parse_str("1.2.3.4").map(|_| ()));
    assert_eq!(Err(IPv4Error::PortNotFound), must_port.parse_str("::1.2.3.4").map(|_| ()));
    let no_local = validator(ValidatorOption::Allow, ValidatorOption::NotAllow, ValidatorOption::Allow);
    assert_eq!(Err(IPv4Error::LocalNotAllow), no_local.parse_str("192.168.0.1").map(|_| ()));
    let must_local = validator(ValidatorOption::Allow, ValidatorOption::Must, ValidatorOption::Allow);
    assert_eq!(Err(IPv4Error::LocalNotFound), must_local.parse_str("8.8.4.4").map(|_| ()));
    let no_ipv6 = validator(ValidatorOption::Allow, ValidatorOption::Allow, ValidatorOption::NotAllow);
    assert_eq!(Err(IPv4Error::IPv6NotAllow), no_ipv6.parse_str("::ffff:1.2.3.4").map(|_| ()));
    let must_ipv6 = validator(ValidatorOption::Allow, ValidatorOption::Allow, ValidatorOption::Must);
    assert_eq!(Err(IPv4Error::IPv6NotFound), must_ipv6.parse_str("1.2.3.4").map(|_| ()));
    assert_eq!("1.2.3.4", must_ipv6.parse_str("::1.2.3.4").unwrap().get_full_ipv4());
}

#[test]
fn ipv6_text_forms() {
    let iv = validator(ValidatorOption::Allow, ValidatorOption::Allow, ValidatorOption::Allow);
    assert_eq!([0, 0, 0, 1], iv.parse_str("::1").unwrap().get_ipv4_address());
    assert_eq!([0, 0, 0, 0], iv.parse_str("::").unwrap().get_ipv4_address());
    assert_eq!([1, 2, 3, 4], iv.parse_str("0:0:0:0:0:ffff:1.2.3.4").unwrap().get_ipv4_address());
    assert_eq!([1, 2, 3, 4], iv.parse_str("0:0:0::ffff:102:304").unwrap().get_ipv4_address());
    assert_eq!([18, 52, 86, 120], iv.parse_str("::1234:5678").unwrap().get_ipv4_address());
    assert!(!iv.is_ipv4("::12345"));
    assert!(!iv.is_ipv4("1:2:3:4:5:6:7:8:9"));
    assert!(!iv.is_ipv4("0:0:0:0:0:0:0::1"));
}

#[test]
fn ipv4_port_reconstruction() {
    let iv = validator(ValidatorOption::Allow, ValidatorOption::Allow, ValidatorOption::Allow);
    let ip = iv.parse_str("8.8.8.8:53").unwrap();
    assert_eq!(format!("{}:{}", ip.get_full_ipv4_without_port(), ip.get_port().unwrap()), ip.get_full_ipv4());
    let owned = iv.parse_string("8.8.8.8:53".to_string()).unwrap();
    assert_eq!(ip.get_full_ipv4(), owned.get_full_ipv4());
}

#[test]
fn ipv4_rule_types() {
    let ip = IPv4LocalableWithPort::from_str("127.0.0.1:80").unwrap();
    assert_eq!(80, ip.get_port());
    assert!(ip.is_local());
    assert_eq!("127.0.0.1", ip.get_full_ipv4_without_port());
    assert_eq!([127, 0, 0, 1], ip.get_ipv4_address());
    let ip = IPv4LocalableAllowPort::from_string("10.0.0.1".to_string()).unwrap();
    assert_eq!(None, ip.get_port());
    assert!(ip.is_local());
    let ip = IPv4LocalableWithoutPort::from_str("[::ffff:10.0.0.1]").unwrap();
    assert!(ip.is_local());
    assert_eq!("10.0.0.1", ip.get_full_ipv4());
    let ip = IPv4UnlocalableWithPort::from_str("8.8.8.8:53").unwrap();
    assert_eq!(53, ip.get_port());
    assert_eq!(Err(IPv4Error::LocalNotAllow), IPv4UnlocalableWithPort::from_str("10.0.0.1:53").map(|_| ()));
    let ip = IPv4UnlocalableAllowPort::from_str("8.8.8.8").unwrap();
    assert_eq!(None, ip.get_port());
    assert_eq!(Err(IPv4Error::PortNotAllow), IPv4UnlocalableWithoutPort::from_str("8.8.8.8:1").map(|_| ()));
    let ip = IPv4UnlocalableWithoutPort::from_str("8.8.8.8").unwrap();
    assert_eq!("8.8.8.8", ip.into_ipv4().get_full_ipv4());

    let iv = validator(ValidatorOption::Allow, ValidatorOption::Allow, ValidatorOption::Allow);
    let parsed = iv.parse_str("10.0.0.1:8080").unwrap();
    assert_eq!(Err(IPv4Error::LocalNotAllow), IPv4UnlocalableAllowPort::from_ipv4(parsed).map(|_| ()));
    let parsed = iv.parse_str("10.0.0.1:8080").unwrap();
    assert_eq!(Err(IPv4Error::PortNotAllow), IPv4LocalableWithoutPort::from_ipv4(parsed).map(|_| ()));
    let parsed = iv.parse_str("10.0.0.1").unwrap();
    assert_eq!(Err(IPv4Error::PortNotFound), IPv4LocalableWithPort::from_ipv4(parsed).map(|_| ()));
    let parsed = iv.parse_str("10.0.0.1:8080").unwrap();
    let ip = IPv4LocalableWithPort::from_ipv4(parsed).unwrap();
    assert_eq!(8080, ip.get_port());
    assert_eq!("10.0.0.1:8080", ip.as_ipv4().get_full_ipv4());
}
