use runikraft::netdev::{rxintr_supported, Ipv4Addr, ETH_FRAME_MAXLEN, ETH_HDR_UNTAGGED_LEN, ETH_JFRAME_MAXLEN};

fn bytes(a: &Ipv4Addr) -> [u8; 4] {
    [a.index(0), a.index(1), a.index(2), a.index(3)]
}

#[test]
fn address_reads_four_fields() {
    let a = Ipv4Addr::parse("192.168.1.20").unwrap();
    assert_eq!(bytes(&a), [192, 168, 1, 20]);
}

#[test]
fn address_fields_may_have_a_plus_and_leading_zeros() {
    let a = Ipv4Addr::parse("+1.010.0.255").unwrap();
    assert_eq!(bytes(&a), [1, 10, 0, 255]);
}

#[test]
fn malformed_addresses_are_refused() {
    assert!(Ipv4Addr::parse("1.2.3").is_err());
    assert!(Ipv4Addr::parse("1.2.3.4.5").is_err());
    assert!(Ipv4Addr::parse("1.2.3.256").is_err());
    assert!(Ipv4Addr::parse("1..3.4").is_err());
    assert!(Ipv4Addr::parse("1.2.3.x").is_err());
    assert!(Ipv4Addr::parse("").is_err());
    assert!(Ipv4Addr::parse(" 1.2.3.4").is_err());
    assert!(Ipv4Addr::parse("1.2.3.+").is_err());
    assert!(Ipv4Addr::parse("1.2.3.-4").is_err());
}

#[test]
fn address_is_written_in_decimal() {
    let a = Ipv4Addr::new(10, 0, 200, 7);
    assert_eq!(a.to_string(), "10.0.200.7");
    assert_eq!(Ipv4Addr::new(255, 255, 255, 0).to_string(), "255.255.255.0");
}

#[test]
fn written_address_reads_back() {
    for v in [[0u8, 0, 0, 0], [1, 22, 133, 255], [9, 10, 99, 100]] {
        let a = Ipv4Addr::new(v[0], v[1], v[2], v[3]);
        let b = Ipv4Addr::parse(&a.to_string()).unwrap();
        assert_eq!(bytes(&b), v);
    }
}

#[test]
fn address_bytes_can_be_set() {
    let mut a = Ipv4Addr::new(1, 2, 3, 4);
    a.set(2, 99);
    assert_eq!(bytes(&a), [1, 2, 99, 4]);
}

#[test]
fn receive_interrupts_follow_bit_zero() {
    assert!(rxintr_supported(1));
    assert!(rxintr_supported(3));
    assert!(!rxintr_supported(2));
    assert!(!rxintr_supported(0));
}

#[test]
fn frame_lengths() {
    assert_eq!(ETH_HDR_UNTAGGED_LEN, 14);
    assert_eq!(ETH_FRAME_MAXLEN, 1522);
    assert_eq!(ETH_JFRAME_MAXLEN, 9022);
}
