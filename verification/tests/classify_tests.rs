use ipchk::classify::{classify, probed, triage, AddrClass, Decision, Status};
use ipchk::addr::format_ipv4;
use ipchk::addr::ipv4_key;

#[test]
fn invalid_text_classifies_invalid() {
    assert_eq!(classify("not-an-ip"), AddrClass::Bad);
    match triage(String::from("not-an-ip")) {
        Decision::Settled { outcome } => {
            assert_eq!(outcome.status, Status::Invalid);
            assert_eq!(outcome.key, 0);
            assert_eq!(outcome.target, "not-an-ip");
        }
        Decision::Probe { .. } => panic!("invalid text must never be probed"),
    }
}

#[test]
fn ipv6_loopback_is_unsupported_family() {
    assert_eq!(classify("::1"), AddrClass::V6);
    match triage(String::from("::1")) {
        Decision::Settled { outcome } => {
            assert_eq!(outcome.status, Status::UnsupportedFamily);
            assert_eq!(outcome.key, 0);
        }
        Decision::Probe { .. } => panic!("IPv6 must never be probed"),
    }
}

#[test]
fn ipv4_texts_parse_to_their_numeric_value() {
    assert_eq!(classify("10.0.0.1"), AddrClass::V4 { key: ipv4_key(10, 0, 0, 1) });
    assert_eq!(classify("0.0.0.0"), AddrClass::V4 { key: 0 });
    assert_eq!(classify("255.255.255.255"), AddrClass::V4 { key: u32::MAX });
    assert_eq!(classify("192.168.1.2"), AddrClass::V4 { key: 0xC0A80102 });
}

#[test]
fn ipv4_oddities_are_rejected() {
    for bad in [
        "01.2.3.4",
        "1.2.3.04",
        "256.1.1.1",
        "1.2.3",
        "1.2.3.4.5",
        "1..2.3",
        "",
        " 1.2.3.4",
        "1.2.3.4 ",
        "1.2.3.+4",
        "999.999.999.999",
    ] {
        assert_eq!(classify(bad), AddrClass::Bad, "{bad:?} should be invalid");
    }
}

#[test]
fn ipv6_forms_are_recognized() {
    for good in [
        "::",
        "::1",
        "1::",
        "a::b",
        "1:2:3:4:5:6:7:8",
        "::ffff:192.168.0.1",
        "1:2:3:4:5:6:1.2.3.4",
        "::1:2:3:4:5:6:7",
        "ABCD:ef01::",
        "fe80::1:0:0:1",
    ] {
        assert_eq!(classify(good), AddrClass::V6, "{good:?} should be IPv6");
    }
}

#[test]
fn ipv6_malformed_texts_are_invalid() {
    for bad in [
        ":::",
        ":1",
        "1:",
        "1::2::3",
        "1:2:3:4:5:6:7",
        "1:2:3:4:5:6:7:8:9",
        "12345::",
        "g::",
        "1:2:3:4::5:6:7:8",
        "1.2.3.4::",
        "::ffff:1.2.3.4.5",
        "fe80::1%eth0",
    ] {
        assert_eq!(classify(bad), AddrClass::Bad, "{bad:?} should be invalid");
    }
}

#[test]
fn formatting_and_parsing_agree() {
    for (key, text) in [
        (ipv4_key(10, 0, 0, 1), "10.0.0.1"),
        (0u32, "0.0.0.0"),
        (u32::MAX, "255.255.255.255"),
        (ipv4_key(172, 16, 1, 254), "172.16.1.254"),
    ] {
        assert_eq!(format_ipv4(key), text);
        assert_eq!(classify(text), AddrClass::V4 { key });
    }
}

#[test]
fn probed_outcome_reflects_the_answer() {
    let up = probed(String::from("1.1.1.1"), ipv4_key(1, 1, 1, 1), true);
    assert_eq!(up.status, Status::Up);
    assert_eq!(up.key, ipv4_key(1, 1, 1, 1));
    let down = probed(String::from("1.1.1.1"), ipv4_key(1, 1, 1, 1), false);
    assert_eq!(down.status, Status::Down);
}
