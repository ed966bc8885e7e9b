use ifprobe::iface::{classify, classify_code, speed_bps, InterfaceType};
use ifprobe::text::{parse_trimmed_u32, parse_trimmed_u64};

#[test]
fn classify_ethernet_from_type_file() {
    assert_eq!(classify(Some(b"1\n")), InterfaceType::Ethernet);
}

#[test]
fn classify_missing_file_is_unknown() {
    assert_eq!(classify(None), InterfaceType::Unknown);
}

#[test]
fn classify_known_codes() {
    assert_eq!(classify_code(1), InterfaceType::Ethernet);
    assert_eq!(classify_code(32), InterfaceType::Infiniband);
    assert_eq!(classify_code(280), InterfaceType::Can);
    assert_eq!(classify_code(256), InterfaceType::Slip);
    assert_eq!(classify_code(512), InterfaceType::Ppp);
    assert_eq!(classify_code(768), InterfaceType::Tunnel);
    assert_eq!(classify_code(769), InterfaceType::Tunnel6);
    assert_eq!(classify_code(772), InterfaceType::Loopback);
    assert_eq!(classify_code(774), InterfaceType::Fddi);
    assert_eq!(classify_code(776), InterfaceType::Sit);
    assert_eq!(classify_code(778), InterfaceType::IpGre);
    assert_eq!(classify_code(783), InterfaceType::Irda);
    assert_eq!(classify_code(801), InterfaceType::Wireless80211);
    assert_eq!(classify_code(804), InterfaceType::Ieee802154);
}

#[test]
fn classify_code_outside_table_is_unknown() {
    assert_eq!(classify_code(0), InterfaceType::Unknown);
    assert_eq!(classify_code(2), InterfaceType::Unknown);
    assert_eq!(classify_code(65534), InterfaceType::Unknown);
    assert_eq!(classify_code(u32::MAX), InterfaceType::Unknown);
}

#[test]
fn classify_text_variants() {
    assert_eq!(classify(Some(b"772\n")), InterfaceType::Loopback);
    assert_eq!(classify(Some(b"  801  ")), InterfaceType::Wireless80211);
    assert_eq!(classify(Some(b"+1")), InterfaceType::Ethernet);
    assert_eq!(classify(Some(b"abc")), InterfaceType::Unknown);
    assert_eq!(classify(Some(b"")), InterfaceType::Unknown);
    assert_eq!(classify(Some(b"-1\n")), InterfaceType::Unknown);
    assert_eq!(classify(Some(b"4294967296\n")), InterfaceType::Unknown);
}

#[test]
fn speed_normalizes_mbps_to_bps() {
    assert_eq!(speed_bps(Some(b"1000\n")), Some(1_000_000_000));
    assert_eq!(speed_bps(Some(b"10")), Some(10_000_000));
    assert_eq!(speed_bps(Some(b"0\n")), Some(0));
}

#[test]
fn speed_unknown_sentinel_is_absent() {
    assert_eq!(speed_bps(Some(b"-1\n")), None);
}

#[test]
fn speed_missing_or_malformed_is_absent() {
    assert_eq!(speed_bps(None), None);
    assert_eq!(speed_bps(Some(b"")), None);
    assert_eq!(speed_bps(Some(b"fast")), None);
    assert_eq!(speed_bps(Some(b"1000 Mb/s")), None);
    assert_eq!(speed_bps(Some(b"99999999999999999999999")), None);
}

#[test]
fn speed_too_large_to_scale_is_absent() {
    assert_eq!(speed_bps(Some(b"18446744073709551615\n")), None);
    assert_eq!(speed_bps(Some(b"18446744073710\n")), None);
    assert_eq!(speed_bps(Some(b"18446744073709\n")), Some(18_446_744_073_709_000_000));
}

#[test]
fn parse_trims_and_accepts_sign() {
    assert_eq!(parse_trimmed_u64(b" \t42\r\n"), Some(42));
    assert_eq!(parse_trimmed_u64(b"+7"), Some(7));
    assert_eq!(parse_trimmed_u64(b"18446744073709551615"), Some(u64::MAX));
    assert_eq!(parse_trimmed_u64(b"18446744073709551616"), None);
    assert_eq!(parse_trimmed_u64(b"+"), None);
    assert_eq!(parse_trimmed_u64(b""), None);
    assert_eq!(parse_trimmed_u64(b"4 2"), None);
    assert_eq!(parse_trimmed_u32(b"4294967295"), Some(u32::MAX));
    assert_eq!(parse_trimmed_u32(b"4294967296"), None);
}
