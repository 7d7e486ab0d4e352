use modbus_registers::network::{IpAddress, Network};

fn v4(a: u8, b: u8, c: u8, d: u8) -> u32 {
    u32::from_be_bytes([a, b, c, d])
}

#[test]
fn v4_networks() {
    let net = Network::V4 { addr: v4(10, 0, 0, 1), prefix: 18 };
    assert!(net.contains(IpAddress::V4(v4(10, 0, 0, 25))));
    assert!(net.contains(IpAddress::V4(v4(10, 0, 63, 255))));
    assert!(!net.contains(IpAddress::V4(v4(10, 0, 64, 0))));
    assert!(!net.contains(IpAddress::V4(v4(11, 0, 0, 25))));
    let all = Network::V4 { addr: v4(1, 2, 3, 4), prefix: 0 };
    assert!(all.contains(IpAddress::V4(0)));
    assert!(all.contains(IpAddress::V4(u32::MAX)));
    let one = Network::V4 { addr: v4(127, 0, 0, 1), prefix: 32 };
    assert!(one.contains(IpAddress::V4(v4(127, 0, 0, 1))));
    assert!(!one.contains(IpAddress::V4(v4(127, 0, 0, 0))));
}

#[test]
fn v6_networks() {
    let base: u128 = 0x2001_0db8_0000_0000_0000_0000_0000_0000;
    let net = Network::V6 { addr: base | 5, prefix: 32 };
    assert!(net.contains(IpAddress::V6(base | 0xFFFF)));
    assert!(net.contains(IpAddress::V6(base | (1 << 95))));
    assert!(!net.contains(IpAddress::V6(base + (1 << 96))));
    let all = Network::V6 { addr: base, prefix: 0 };
    assert!(all.contains(IpAddress::V6(0)));
    assert!(all.contains(IpAddress::V6(u128::MAX)));
    let one = Network::V6 { addr: 1, prefix: 128 };
    assert!(one.contains(IpAddress::V6(1)));
    assert!(!one.contains(IpAddress::V6(0)));
}

#[test]
fn families_do_not_mix() {
    let v4_all = Network::V4 { addr: 0, prefix: 0 };
    let v6_all = Network::V6 { addr: 0, prefix: 0 };
    assert!(!v4_all.contains(IpAddress::V6(0)));
    assert!(!v6_all.contains(IpAddress::V4(0)));
}

#[test]
fn ill_formed_networks_hold_nothing() {
    assert!(!Network::V4 { addr: 0, prefix: 33 }.contains(IpAddress::V4(0)));
    assert!(!Network::V6 { addr: 0, prefix: 129 }.contains(IpAddress::V6(0)));
    assert!(!Network::V4 { addr: 0, prefix: 255 }.contains(IpAddress::V4(0)));
}

#[test]
fn masks_agree_with_arithmetic() {
    for prefix in 0..=32u8 {
        let net = Network::V4 { addr: 0xC0A8_1234, prefix };
        for ip in [0u32, 0xC0A8_1234, 0xC0A8_0000, 0xC0A8_FFFF, 0xC000_0000, 0x40A8_1234, u32::MAX] {
            let shift = 32 - prefix as u32;
            let expected = shift == 32 || (ip >> shift) == (0xC0A8_1234u32 >> shift);
            assert_eq!(net.contains(IpAddress::V4(ip)), expected);
        }
    }
}
