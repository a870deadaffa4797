use validators::base32::{Base32, Base32Error, Base32Validator};
use validators::base64::{Base64, Base64Error, Base64Validator};
use validators::domain::{DomainLocalhostableAllowPort, DomainValidator};
use validators::ipv4::{IPv4LocalableAllowPort, IPv4Validator};
use validators::{ValidatedWrapper, ValidatorOption};

#[test]
fn test_base32_methods() {
    let base32 = "EB2GK43UEBWWK43TMFTWKCQK".to_string();

    let bv = Base32Validator {};

    let base32 = bv.parse_string(base32).unwrap();

    assert_eq!("EB2GK43UEBWWK43TMFTWKCQK", base32.get_base32());
}

#[test]
fn test_base32_lv1() {
    let base32 = "EB2GK43UEBWWK43TMFTWKCQK".to_string();

    let bv = Base32Validator {};

    bv.parse_string(base32).unwrap();
}

#[test]
fn test_base64_methods() {
    let base64 = "IHRlc3QgbWVzc2FnZQoK".to_string();

    let bv = Base64Validator {};

    let base64 = bv.parse_string(base64).unwrap();

    assert_eq!("IHRlc3QgbWVzc2FnZQoK", base64.get_base64());
}

#[test]
fn test_base64_lv1() {
    let base64 = "IHRlc3QgbWVzc2FnZQoK".to_string();

    let bv = Base64Validator {};

    bv.parse_string(base64).unwrap();
}

#[test]
fn base32_padding_forms() {
    let bv = Base32Validator {};
    for s in ["MFRGGZDF", "MFRGGZD=", "MFRGG===", "MFRG====", "MF======", "MFRGGZDFMFRGG==="] {
        assert!(bv.is_base32(s), "{}", s);
        assert_eq!(s, Base32::from_str(s).unwrap().into_string());
    }
    for s in ["", "MFRGGZ==", "M=======", "========", "mfrggzdf", "MFRGGZD", "MFRG=ZDF", "MFRGGZD8"] {
        assert!(!bv.is_base32(s), "{}", s);
        assert_eq!(Err(Base32Error::IncorrectFormat), Base32::from_string(s.to_string()).map(|_| ()));
    }
}

#[test]
fn base64_padding_forms() {
    let bv = Base64Validator {};
    for s in ["QUJD", "QUI=", "QQ==", "a+/9QQ==", "AAAA"] {
        assert!(bv.is_base64(s), "{}", s);
        assert_eq!(s, Base64::from_str(s).unwrap().get_base64());
    }
    for s in ["", "Q===", "QUJ", "QU=D", "QUJD=", "QUJ-", "===="] {
        assert!(!bv.is_base64(s), "{}", s);
        assert_eq!(Err(Base64Error::IncorrectFormat), bv.parse_str(s).map(|_| ()));
    }
    assert_eq!("QUJD", Base64::from_string("QUJD".to_string()).unwrap().into_string());
}

#[test]
fn descriptors_compare_and_clone_by_string() {
    let dv = DomainValidator { port: ValidatorOption::Allow, localhost: ValidatorOption::Allow };
    let a = dv.parse_str("magiclen.org:80").unwrap();
    let b = dv.parse_string("magiclen.org:80".to_string()).unwrap();
    let c = dv.parse_str("magiclen.org").unwrap();
    assert_eq!(a, b);
    assert_ne!(a, c);
    assert_eq!(a.clone(), a);

    let iv = IPv4Validator { port: ValidatorOption::Allow, local: ValidatorOption::Allow, ipv6: ValidatorOption::Allow };
    let x = iv.parse_str("[::ffff:1.2.3.4]:80").unwrap();
    let y = iv.parse_str("1.2.3.4:80").unwrap();
    assert_eq!(x, y);
    assert_eq!(x.clone().get_full_ipv4(), "1.2.3.4:80");

    let w = <DomainLocalhostableAllowPort as ValidatedWrapper>::from_str("localhost:1").unwrap();
    assert_eq!(w.clone(), w);
    let v = <IPv4LocalableAllowPort as ValidatedWrapper>::from_string("10.1.1.1".to_string()).unwrap();
    assert_eq!(None, v.get_port());
    let e = <Base32 as ValidatedWrapper>::from_str("MFRGGZDF").unwrap();
    assert_eq!(e.clone(), e);
    assert_eq!(Err(Base64Error::IncorrectFormat), <Base64 as ValidatedWrapper>::from_str("abc").map(|_| ()));
}
