use c4::valid::{cidr, date, datetime, inet, macaddr, macaddr8, macaddr8_pairs, macaddr_pairs, time, uuid, uuid_hyphenated};

#[test]
fn datetime_shapes() {
    assert!(datetime("2024-01-02"));
    assert!(datetime("2024-01-02T03:04:05"));
    assert!(datetime("2024-01-02T03:04:05Z"));
    assert!(datetime("2024-01-02 03:04:05.123+08:00"));
    assert!(datetime("2024-01-02T03:04:05-07:00"));

    assert!(!datetime("tomorrow"));
    assert!(!datetime("2024-1-2")); // fields are fixed-width
    assert!(!datetime("2024-01-02X03:04:05")); // separator must be T or space
    assert!(!datetime("2024-01-02T03:04")); // seconds required
    assert!(!datetime("2024-01-02T03:04:05.")); // empty fraction
    assert!(!datetime("2024-01-02T03:04:05+8:00")); // offset is hh:mm
}

#[test]
fn date_shapes() {
    assert!(date("2024-01-02"));

    assert!(!date("2024-1-2"));
    assert!(!date("2024-01-02T03:04:05Z")); // that is a datetime
    assert!(!date("20240102"));
}

#[test]
fn time_shapes() {
    assert!(time("03:04:05"));
    assert!(time("03:04:05.5"));

    assert!(!time("3:04:05")); // fixed-width
    assert!(!time("03:04")); // seconds required
    assert!(!time("03:04:05.")); // empty fraction
    assert!(!time("03:04:05+08:00")); // no offsets on bare times
}

#[test]
fn inet_shapes() {
    assert!(inet("10.0.0.1"));
    assert!(inet("10.0.0.1/24")); // host bits below the mask are fine
    assert!(inet("::1"));
    assert!(inet("fe80::1/64"));
    assert!(inet("10.0.0.1/32"));

    assert!(!inet("10.0.0.1/33")); // mask exceeds the family length
    assert!(!inet("10.0.0/24")); // not a full address
    assert!(!inet("10.0.0.1/")); // empty mask
    assert!(!inet("example.com"));
}

#[test]
fn cidr_shapes() {
    assert!(cidr("10.0.0.0/8"));
    assert!(cidr("10.1.2.3")); // = 10.1.2.3/32, a host network
    assert!(cidr("2001:db8::/32"));
    assert!(cidr("::/0"));

    assert!(!cidr("10.0.0.1/24")); // host bits set below the mask
    assert!(!cidr("2001:db8::1/32")); // same, IPv6
    assert!(!cidr("10.0.0.0/33")); // mask exceeds the family length
    assert!(!cidr("10.0.0.0/")); // empty mask
}

#[test]
fn macaddr_postgres_forms() {
    assert!(macaddr("08:00:2b:01:02:03"));
    assert!(macaddr("08-00-2b-01-02-03"));
    assert!(macaddr("08002b:010203"));
    assert!(macaddr("08002b-010203"));
    assert!(macaddr("0800.2b01.0203"));
    assert!(macaddr("0800-2b01-0203"));
    assert!(macaddr("08002b010203"));

    assert!(!macaddr("08:00:2b:01:02")); // five pairs
    assert!(!macaddr("08:00-2b:01:02:03")); // mixed separators
    assert!(!macaddr("0800:2b01:0203")); // 4-digit groups take . or - only
    assert!(!macaddr("08002b.010203")); // 6-digit halves take : or - only
    assert!(!macaddr("08:002b01:0203")); // grouping not in the list
    assert!(!macaddr("08002b01020g")); // not hex
}

#[test]
fn macaddr8_postgres_forms() {
    assert!(macaddr8("08:00:2b:01:02:03:04:05"));
    assert!(macaddr8("08-00-2b-01-02-03-04-05"));
    assert!(macaddr8("08002b:0102030405")); // 3+5 byte halves
    assert!(macaddr8("08002b01:02030405")); // 4+4 byte halves
    assert!(macaddr8("0800.2b01.0203.0405"));
    assert!(macaddr8("0800-2b01-0203-0405"));
    assert!(macaddr8("08002b0102030405"));

    assert!(!macaddr8("08:00:2b:01:02:03")); // that is 6 bytes
    assert!(!macaddr8("08002b0102030405ff")); // 9 bytes
}

#[test]
fn mac_pair_spellings_only() {
    assert!(macaddr_pairs("08:00:2b:01:02:03"));
    assert!(macaddr_pairs("08-00-2b-01-02-03"));
    assert!(macaddr8_pairs("aa:bb:cc:dd:ee:ff:00:11"));

    assert!(!macaddr_pairs("08002b:010203")); // valid macaddr, not pairs
    assert!(!macaddr_pairs("08002b010203")); // bare
    assert!(!macaddr8_pairs("aa:bb:cc:dd:ee:ff")); // 6 bytes
}

#[test]
fn uuid_shapes() {
    assert!(uuid("550e8400-e29b-41d4-a716-446655440000"));
    assert!(uuid("550E8400-E29B-41D4-A716-446655440000")); // case-insensitive
    assert!(uuid("550e8400e29b41d4a716446655440000")); // bare form, explicit only

    assert!(!uuid("550e8400-e29b-41d4-a716-44665544000")); // too short
    assert!(!uuid("550e8400-e29b-41d4-a716-44665544000g")); // not hex
    assert!(!uuid("550e8400e29b41d4a71644665544000")); // bare but 31 digits

    // the auto guess takes the hyphenated spelling only
    assert!(uuid_hyphenated("550e8400-e29b-41d4-a716-446655440000"));
    assert!(!uuid_hyphenated("550e8400e29b41d4a716446655440000"));
}
