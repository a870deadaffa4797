use validators::domain::{
    Domain, DomainError, DomainLocalhostableAllowPort, DomainLocalhostableWithPort,
    DomainLocalhostableWithoutPort, DomainUnlocalhostableAllowPort, DomainUnlocalhostableWithPort,
    DomainUnlocalhostableWithoutPort, DomainValidator,
};
use validators::ValidatorOption;

fn validator(port: ValidatorOption, localhost: ValidatorOption) -> DomainValidator {
    DomainValidator { port, localhost }
}

#[test]
fn test_domain_methods_lv1() {
    let domain = "tool.magiclen.org:8080".to_string();

    let dv = DomainValidator {
        port: ValidatorOption::Allow,
        localhost: ValidatorOption::NotAllow,
    };

    let domain = dv.parse_string(domain).unwrap();

    assert_eq!("tool.magiclen.org:8080", domain.get_full_domain());
    assert_eq!("tool.magiclen.org", domain.get_full_domain_without_port());
    assert_eq!("org", domain.get_top_level_domain().unwrap());
    assert_eq!("tool", domain.get_sub_domain().unwrap());
    assert_eq!("magiclen", domain.get_domain());
    assert_eq!(8080, domain.get_port().unwrap());
    assert_eq!(false, domain.is_localhost());
}

#[test]
fn test_domain_methods_lv2() {
    let domain = "www.tool.magiclen.org:8080".to_string();

    let dv = DomainValidator {
        port: ValidatorOption::Allow,
        localhost: ValidatorOption::NotAllow,
    };

    let domain = dv.parse_string(domain).unwrap();

    assert_eq!("www.tool.magiclen.org:8080", domain.get_full_domain());
    assert_eq!("www.tool.magiclen.org", domain.get_full_domain_without_port());
    assert_eq!("org", domain.get_top_level_domain().unwrap());
    assert_eq!("www.tool", domain.get_sub_domain().unwrap());
    assert_eq!("magiclen", domain.get_domain());
    assert_eq!(8080, domain.get_port().unwrap());
    assert_eq!(false, domain.is_localhost());
}

#[test]
fn test_domain_methods_lv3() {
    let domain = "c81223-759.www.tool.magiclen.org:8080".to_string();

    let dv = DomainValidator {
        port: ValidatorOption::Allow,
        localhost: ValidatorOption::NotAllow,
    };

    let domain = dv.parse_string(domain).unwrap();

    assert_eq!("c81223-759.www.tool.magiclen.org:8080", domain.get_full_domain());
    assert_eq!("c81223-759.www.tool.magiclen.org", domain.get_full_domain_without_port());
    assert_eq!("org", domain.get_top_level_domain().unwrap());
    assert_eq!("c81223-759.www.tool", domain.get_sub_domain().unwrap());
    assert_eq!("magiclen", domain.get_domain());
    assert_eq!(8080, domain.get_port().unwrap());
    assert_eq!(false, domain.is_localhost());
}

#[test]
fn test_domain_lv1() {
    let domain = "magiclen.org".to_string();

    let dv = DomainValidator {
        port: ValidatorOption::NotAllow,
        localhost: ValidatorOption::NotAllow,
    };

    dv.parse_string(domain).unwrap();
}

#[test]
fn test_domain_lv2() {
    let domain = "magiclen.org:8080".to_string();

    let dv = DomainValidator {
        port: ValidatorOption::Allow,
        localhost: ValidatorOption::NotAllow,
    };

    dv.parse_string(domain).unwrap();
}

#[test]
fn test_domain_lv3() {
    let domain = "tool.magiclen.org".to_string();

    let dv = DomainValidator {
        port: ValidatorOption::NotAllow,
        localhost: ValidatorOption::NotAllow,
    };

    dv.parse_string(domain).unwrap();
}

#[test]
fn test_domain_lv4() {
    let domain = "tool.magiclen.org:8080".to_string();

    let dv = DomainValidator {
        port: ValidatorOption::Allow,
        localhost: ValidatorOption::NotAllow,
    };

    dv.parse_string(domain).unwrap();
}

#[test]
fn test_local_host_lv1() {
    let domain = "localhost".to_string();

    let dv = DomainValidator {
        port: ValidatorOption::NotAllow,
        localhost: ValidatorOption::Allow,
    };

    dv.parse_string(domain).unwrap();
}

#[test]
fn test_local_host_lv2() {
    let domain = "localhost:8080".to_string();

    let dv = DomainValidator {
        port: ValidatorOption::Allow,
        localhost: ValidatorOption::Allow,
    };

    dv.parse_string(domain).unwrap();
}

fn parts(d: &Domain) -> (String, String, Option<String>, String, Option<String>, Option<u16>, bool) {
    (
        d.get_full_domain().to_string(),
        d.get_full_domain_without_port().to_string(),
        d.get_sub_domain().map(|s| s.to_string()),
        d.get_domain().to_string(),
        d.get_top_level_domain().map(|s| s.to_string()),
        d.get_port(),
        d.is_localhost(),
    )
}

#[test]
fn owned_and_borrowed_parses_agree() {
    let dv = validator(ValidatorOption::Allow, ValidatorOption::Allow);
    for s in ["a.b.c.example.com:443", "magiclen.org", "LocalHost:1", "x.y", "localhost"] {
        let owned = dv.parse_string(s.to_string()).unwrap();
        let borrowed = dv.parse_str(s).unwrap();
        assert_eq!(s, owned.get_full_domain());
        assert_eq!(parts(&owned), parts(&borrowed));
        assert_eq!(s, owned.into_string());
    }
}

#[test]
fn parts_rebuild_the_string() {
    let dv = validator(ValidatorOption::Allow, ValidatorOption::Allow);
    let d = dv.parse_str("a.b.example.com:8080").unwrap();
    let rebuilt = format!(
        "{}.{}.{}:{}",
        d.get_sub_domain().unwrap(),
        d.get_domain(),
        d.get_top_level_domain().unwrap(),
        d.get_port().unwrap()
    );
    assert_eq!(rebuilt, d.get_full_domain());
}

#[test]
fn port_reconstruction() {
    let dv = validator(ValidatorOption::Allow, ValidatorOption::Allow);
    let d = dv.parse_str("magiclen.org:65535").unwrap();
    assert_eq!(
        format!("{}:{}", d.get_full_domain_without_port(), d.get_port().unwrap()),
        d.get_full_domain()
    );
    let d = dv.parse_str("magiclen.org:0080").unwrap();
    assert_eq!(Some(80), d.get_port());
    assert_eq!("magiclen.org", d.get_full_domain_without_port());
}

#[test]
fn port_not_allowed_rejects_port_suffix() {
    let dv = validator(ValidatorOption::NotAllow, ValidatorOption::Allow);
    assert_eq!(Err(DomainError::PortNotAllow), dv.parse_str("magiclen.org:8080").map(|_| ()));
    assert_eq!(Err(DomainError::PortNotAllow), dv.parse_str("localhost:1").map(|_| ()));
    assert_eq!(Err(DomainError::PortNotAllow), dv.parse_str("a.b:99999").map(|_| ()));
    assert!(dv.is_domain("magiclen.org"));
    assert!(!dv.is_domain("magiclen.org:8"));
}

#[test]
fn localhost_required_accepts_only_localhost() {
    let dv = validator(ValidatorOption::Allow, ValidatorOption::Must);
    assert!(dv.parse_str("localhost").unwrap().is_localhost());
    assert!(dv.parse_str("LocalHost").unwrap().is_localhost());
    assert!(dv.parse_str("LOCALHOST:8080").unwrap().is_localhost());
    assert_eq!(Err(DomainError::LocalhostNotFound), dv.parse_str("localhost.example").map(|_| ()));
    assert_eq!(Err(DomainError::LocalhostNotFound), dv.parse_str("magiclen.org").map(|_| ()));
    assert_eq!(Err(DomainError::LocalhostNotFound), dv.parse_str("www.localhost.org").map(|_| ()));
}

#[test]
fn localhost_with_top_level_label_is_not_localhost() {
    let dv = validator(ValidatorOption::Allow, ValidatorOption::Allow);
    let d = dv.parse_str("localhost.example").unwrap();
    assert!(!d.is_localhost());
    assert_eq!("localhost", d.get_domain());
    assert_eq!("example", d.get_top_level_domain().unwrap());
    assert_eq!(None, d.get_sub_domain());
}

#[test]
fn localhost_not_allowed() {
    let dv = validator(ValidatorOption::Allow, ValidatorOption::NotAllow);
    assert_eq!(Err(DomainError::LocalhostNotAllow), dv.parse_str("localhost").map(|_| ()));
    assert!(dv.is_domain("localhost.example"));
}

#[test]
fn tool_magiclen_org_with_port_parts() {
    let dv = validator(ValidatorOption::Allow, ValidatorOption::NotAllow);
    let d = dv.parse_str("tool.magiclen.org:8080").unwrap();
    assert_eq!("tool", d.get_sub_domain().unwrap());
    assert_eq!("magiclen", d.get_domain());
    assert_eq!("org", d.get_top_level_domain().unwrap());
    assert_eq!(Some(8080), d.get_port());
    assert!(!d.is_localhost());
}

#[test]
fn domain_format_errors() {
    let dv = validator(ValidatorOption::Allow, ValidatorOption::Allow);
    for s in ["", "example", ".example.com", "example.com.", "a..b", "a.b:", "a.b:123456", "a/b.c", "a@b.c", "a.b:8a", "a:b.c"] {
        assert_eq!(Err(DomainError::IncorrectFormat), dv.parse_str(s).map(|_| ()), "{}", s);
    }
}

#[test]
fn domain_port_errors() {
    let dv = validator(ValidatorOption::Allow, ValidatorOption::Allow);
    assert_eq!(Err(DomainError::IncorrectPort), dv.parse_str("a.b:65536").map(|_| ()));
    assert_eq!(Some(65535), dv.parse_str("a.b:65535").unwrap().get_port());
    let must = validator(ValidatorOption::Must, ValidatorOption::Allow);
    assert_eq!(Err(DomainError::PortNotFound), must.parse_str("a.b").map(|_| ()));
}

#[test]
fn domain_length_limits() {
    let dv = validator(ValidatorOption::Allow, ValidatorOption::Allow);
    let label63 = "a".repeat(63);
    let label64 = "a".repeat(64);
    assert!(dv.is_domain(&format!("{}.com", label63)));
    assert_eq!(Err(DomainError::IncorrectFormat), dv.parse_str(&format!("{}.com", label64)).map(|_| ()));
    // 63 + 1 + 63 + 1 + 63 + 1 + 63 = 255 bytes
    let host255 = format!("{0}.{0}.{0}.{0}", label63);
    assert_eq!(255, host255.len());
    assert!(dv.is_domain(&host255));
    assert!(dv.is_domain(&format!("{}:80", host255)));
    let host256 = format!("a.{0}.{0}.{0}.{1}", label63, "a".repeat(62));
    assert_eq!(256, host256.len());
    assert_eq!(Err(DomainError::IncorrectFormat), dv.parse_str(&host256).map(|_| ()));
}

#[test]
fn domain_non_ascii_labels() {
    let dv = validator(ValidatorOption::Allow, ValidatorOption::Allow);
    let d = dv.parse_str("bücher.example.de").unwrap();
    assert_eq!("bücher", d.get_sub_domain().unwrap());
    assert_eq!("example", d.get_domain());
    assert_eq!("de", d.get_top_level_domain().unwrap());
}

#[test]
fn domain_format_error_comes_before_policy() {
    let dv = validator(ValidatorOption::NotAllow, ValidatorOption::Must);
    assert_eq!(Err(DomainError::IncorrectFormat), dv.parse_str("a..b:80").map(|_| ()));
    assert_eq!(Err(DomainError::PortNotAllow), dv.parse_str("a.b:80").map(|_| ()));
}

#[test]
fn domain_rule_types() {
    let d = DomainLocalhostableWithPort::from_str("tool.magiclen.org:8080").unwrap();
    assert_eq!("tool.magiclen.org:8080", d.get_full_domain());
    assert_eq!("tool.magiclen.org", d.get_full_domain_without_port());
    assert_eq!("org", d.get_top_level_domain().unwrap());
    assert_eq!("tool", d.get_sub_domain().unwrap());
    assert_eq!("magiclen", d.get_domain());
    assert_eq!(8080, d.get_port());
    assert!(!d.is_localhost());
    assert_eq!(Err(DomainError::PortNotFound), DomainLocalhostableWithPort::from_string("magiclen.org".to_string()).map(|_| ()));

    let d = DomainLocalhostableAllowPort::from_str("localhost").unwrap();
    assert_eq!(None, d.get_port());
    assert!(d.is_localhost());
    assert_eq!("localhost", d.get_full_domain_without_port());

    let d = DomainLocalhostableWithoutPort::from_str("localhost").unwrap();
    assert!(d.is_localhost());
    assert_eq!(Err(DomainError::PortNotAllow), DomainLocalhostableWithoutPort::from_str("localhost:80").map(|_| ()));

    let d = DomainUnlocalhostableWithPort::from_str("magiclen.org:1").unwrap();
    assert_eq!(1, d.get_port());
    assert_eq!("magiclen.org", d.get_full_domain_without_port());
    assert_eq!(Err(DomainError::LocalhostNotAllow), DomainUnlocalhostableWithPort::from_str("localhost:1").map(|_| ()));

    let d = DomainUnlocalhostableAllowPort::from_str("magiclen.org").unwrap();
    assert_eq!(None, d.get_port());
    assert_eq!("magiclen.org", d.get_full_domain_without_port());

    let d = DomainUnlocalhostableWithoutPort::from_str("magiclen.org").unwrap();
    assert_eq!("magiclen.org", d.into_domain().get_full_domain());
}

#[test]
fn domain_rule_types_from_domain() {
    let dv = validator(ValidatorOption::Allow, ValidatorOption::Allow);
    let with_port = dv.parse_str("magiclen.org:80").unwrap();
    let d = DomainUnlocalhostableWithPort::from_domain(with_port).unwrap();
    assert_eq!(80, d.get_port());
    assert_eq!("magiclen.org:80", d.as_domain().get_full_domain());

    let with_port = dv.parse_str("magiclen.org:80").unwrap();
    assert_eq!(Err(DomainError::PortNotAllow), DomainUnlocalhostableWithoutPort::from_domain(with_port).map(|_| ()));
    let without_port = dv.parse_str("magiclen.org").unwrap();
    assert!(DomainUnlocalhostableWithoutPort::from_domain(without_port).is_ok());
    let without_port = dv.parse_str("magiclen.org").unwrap();
    assert_eq!(Err(DomainError::PortNotFound), DomainLocalhostableWithPort::from_domain(without_port).map(|_| ()));
    let local = dv.parse_str("localhost").unwrap();
    assert_eq!(Err(DomainError::LocalhostNotAllow), DomainUnlocalhostableAllowPort::from_domain(local).map(|_| ()));
}

#[test]
fn validator_option_predicates() {
    assert!(ValidatorOption::Must.allow() && ValidatorOption::Must.must() && !ValidatorOption::Must.not_allow());
    assert!(ValidatorOption::Allow.allow() && !ValidatorOption::Allow.must() && !ValidatorOption::Allow.not_allow());
    assert!(!ValidatorOption::NotAllow.allow() && !ValidatorOption::NotAllow.must() && ValidatorOption::NotAllow.not_allow());
}
