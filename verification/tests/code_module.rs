use breakpad::CodeModule;
use breakpad::CodeModuleId;

#[test]
fn code_module_test_parse() {
    assert_eq!(
        CodeModuleId::parse("DFB8E43AF2423D73A453AEB6A777EF75A").unwrap(),
        CodeModuleId::new(0xDFB8E43AF2423D73A453AEB6A777EF75, 10)
    );
}

#[test]
fn code_module_test_to_string() {
    let id = CodeModuleId::new(0xDFB8E43AF2423D73A453AEB6A777EF75, 10);
    assert_eq!(id.format(), "DFB8E43AF2423D73A453AEB6A777EF75A");
}

#[test]
fn code_module_test_parse_error() {
    assert!(CodeModuleId::parse("DFB8E43AF2423D73A453AEB6A777EF75").is_err());
}

#[test]
fn processor_test_parse() {
    assert_eq!(
        CodeModuleId::parse("DFB8E43AF2423D73A453AEB6A777EF75A").unwrap(),
        CodeModuleId::new(0xDFB8E43AF2423D73A453AEB6A777EF75, 10)
    );
}

#[test]
fn processor_test_to_string() {
    let id = CodeModuleId::new(0xDFB8E43AF2423D73A453AEB6A777EF75, 10);
    assert_eq!(id.format(), "DFB8E43AF2423D73A453AEB6A777EF75A");
}

#[test]
fn processor_test_parse_error() {
    assert!(CodeModuleId::parse("DFB8E43AF2423D73A").is_err());
}

#[test]
fn parse_format_round_trips() {
    let cases = [
        CodeModuleId::new(0, 0),
        CodeModuleId::new(1, 1),
        CodeModuleId::new(0xDFB8E43AF2423D73A453AEB6A777EF75, 10),
        CodeModuleId::new(u128::MAX, u32::MAX),
        CodeModuleId::new(0x0000000000000000FFFFFFFFFFFFFFFF, 0x10),
    ];
    for id in cases {
        let text = id.format();
        assert!(text.len() >= 33);
        assert_eq!(CodeModuleId::parse(&text).unwrap(), id);
    }
}

#[test]
fn format_pads_uuid_and_not_age() {
    let id = CodeModuleId::new(0x5, 0);
    assert_eq!(id.format(), "000000000000000000000000000000050");
    let id2 = CodeModuleId::new(0x5, 0xAB);
    assert_eq!(id2.format(), "00000000000000000000000000000005AB");
}

#[test]
fn parse_accepts_lowercase() {
    let id = CodeModuleId::parse("dfb8e43af2423d73a453aeb6a777ef75a").unwrap();
    assert_eq!(id.uuid(), 0xDFB8E43AF2423D73A453AEB6A777EF75);
    assert_eq!(id.age(), 10);
}

#[test]
fn parse_rejects_short_strings() {
    assert!(CodeModuleId::parse("").is_err());
    assert!(CodeModuleId::parse("ABC").is_err());
    assert!(CodeModuleId::parse("0000000000000000000000000000000").is_err());
    assert!(CodeModuleId::parse("00000000000000000000000000000000").is_err());
}

#[test]
fn parse_rejects_non_hex() {
    assert!(CodeModuleId::parse("ZFB8E43AF2423D73A453AEB6A777EF75A").is_err());
    assert!(CodeModuleId::parse("DFB8E43AF2423D73A453AEB6A777EF75G").is_err());
    assert!(CodeModuleId::parse("DFB8E43AF2423D73A453AEB6A777EF75 ").is_err());
    assert!(CodeModuleId::parse("DFB8E43AF2423D73A453AEB6A777EF75+1").is_err());
}

#[test]
fn parse_rejects_age_overflow() {
    assert!(CodeModuleId::parse("DFB8E43AF2423D73A453AEB6A777EF75100000000").is_err());
    let max = CodeModuleId::parse("DFB8E43AF2423D73A453AEB6A777EF75FFFFFFFF").unwrap();
    assert_eq!(max.age(), u32::MAX);
}

#[test]
fn module_identity_is_by_id() {
    let a = CodeModule::new(
        0x1000,
        0x2000,
        String::from("/bin/app"),
        String::from("code-id-1"),
        String::from("app.pdb"),
        String::from("DFB8E43AF2423D73A453AEB6A777EF750"),
    )
    .unwrap();
    let b = CodeModule::new(
        0x9000,
        0x100,
        String::from("/other/path"),
        String::from("code-id-2"),
        String::from("other.pdb"),
        String::from("DFB8E43AF2423D73A453AEB6A777EF750"),
    )
    .unwrap();
    assert!(a == b);
    assert_eq!(a.partial_cmp(&b), Some(std::cmp::Ordering::Equal));

    let c = CodeModule::new(
        0x1000,
        0x2000,
        String::from("/bin/app"),
        String::from("code-id-1"),
        String::from("app.pdb"),
        String::from("DFB8E43AF2423D73A453AEB6A777EF751"),
    )
    .unwrap();
    assert!(a != c);
    assert_eq!(a.partial_cmp(&c), Some(std::cmp::Ordering::Less));
    assert_eq!(c.partial_cmp(&a), Some(std::cmp::Ordering::Greater));
}

#[test]
fn module_rejects_bad_debug_identifier() {
    assert!(CodeModule::new(
        0,
        1,
        String::from("f"),
        String::from("c"),
        String::from("d"),
        String::from("not a debug id"),
    )
    .is_none());
}

#[test]
fn module_accessors_report_fields() {
    let m = CodeModule::new(
        0x4000,
        0x800,
        String::from("/bin/app"),
        String::from("code-id"),
        String::from("app.pdb"),
        String::from("DFB8E43AF2423D73A453AEB6A777EF75A"),
    )
    .unwrap();
    assert_eq!(m.base_address(), 0x4000);
    assert_eq!(m.size(), 0x800);
    assert_eq!(m.code_file(), "/bin/app");
    assert_eq!(m.code_identifier(), "code-id");
    assert_eq!(m.debug_file(), "app.pdb");
    assert_eq!(m.debug_identifier(), "DFB8E43AF2423D73A453AEB6A777EF75A");
    assert_eq!(m.id().uuid(), 0xDFB8E43AF2423D73A453AEB6A777EF75);
    assert_eq!(m.id().age(), 10);
    assert!(m.contains(0x4000));
    assert!(m.contains(0x47FF));
    assert!(!m.contains(0x4800));
    assert!(!m.contains(0x3FFF));
}

#[test]
fn id_lt_orders_lexicographically() {
    let small = CodeModuleId::new(1, 9);
    let big = CodeModuleId::new(2, 0);
    assert!(small.lt(&big));
    assert!(!big.lt(&small));
    let same_uuid_low_age = CodeModuleId::new(2, 0);
    let same_uuid_high_age = CodeModuleId::new(2, 1);
    assert!(same_uuid_low_age.lt(&same_uuid_high_age));
    assert!(!same_uuid_low_age.lt(&same_uuid_low_age));
}
