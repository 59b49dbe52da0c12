use bip::dht::security::{generate_compliant_id, is_compliant_addr, is_compliant_ipv4_addr, mask_ipv4_be, generate_compliant_id_ipv4};

const IPV4_ONE: (u8, u8, u8, u8) = (124, 31, 75, 21);
const IPV4_ONE_RAND: u8 = 1;
const IPV4_ONE_BITS: (u8, u8, u8) = (0x5F, 0xBF, 0xB8);

const IPV4_TWO: (u8, u8, u8, u8) = (21, 75, 31, 124);
const IPV4_TWO_RAND: u8 = 86;
const IPV4_TWO_BITS: (u8, u8, u8) = (0x5A, 0x3C, 0xE8);

const IPV4_THREE: (u8, u8, u8, u8) = (65, 23, 51, 170);
const IPV4_THREE_RAND: u8 = 22;
const IPV4_THREE_BITS: (u8, u8, u8) = (0xA5, 0xD4, 0x30);

const IPV4_FOUR: (u8, u8, u8, u8) = (84, 124, 73, 14);
const IPV4_FOUR_RAND: u8 = 65;
const IPV4_FOUR_BITS: (u8, u8, u8) = (0x1B, 0x03, 0x20);

const IPV4_FIVE: (u8, u8, u8, u8) = (43, 213, 53, 83);
const IPV4_FIVE_RAND: u8 = 90;
const IPV4_FIVE_BITS: (u8, u8, u8) = (0xE5, 0x6F, 0x68);

fn check_generated(ip: (u8, u8, u8, u8), rand: u8, bits: (u8, u8, u8)) {
    let ipv4_addr = [ip.0, ip.1, ip.2, ip.3];
    let masked_ip_be = mask_ipv4_be(ipv4_addr) as u64;

    let node_id = generate_compliant_id(masked_ip_be, 4, rand);

    assert_eq!(node_id[0], bits.0);
    assert_eq!(node_id[1], bits.1);

    assert_eq!(node_id[2] & 0xF8, bits.2);

    assert_eq!(node_id[19], rand);
}

fn check_compliant(ip: (u8, u8, u8, u8), rand: u8, bits: (u8, u8, u8)) {
    let ip_addr = [ip.0, ip.1, ip.2, ip.3];
    let id = [bits.0, bits.1, bits.2, 0, 0, 0, 0, 0, 0, 0, 0, 0, 0, 0, 0, 0, 0, 0, 0, rand];

    let masked_ip_be = mask_ipv4_be(ip_addr) as u64;
    assert!(is_compliant_addr(masked_ip_be, 4, id));
}

#[test]
fn positive_generate_compliant_ipv4_test_one() {
    check_generated(IPV4_ONE, IPV4_ONE_RAND, IPV4_ONE_BITS);
}

#[test]
fn positive_generate_compliant_ipv4_test_two() {
    check_generated(IPV4_TWO, IPV4_TWO_RAND, IPV4_TWO_BITS);
}

#[test]
fn positive_generate_compliant_ipv4_test_three() {
    check_generated(IPV4_THREE, IPV4_THREE_RAND, IPV4_THREE_BITS);
}

#[test]
fn positive_generate_compliant_ipv4_test_four() {
    check_generated(IPV4_FOUR, IPV4_FOUR_RAND, IPV4_FOUR_BITS);
}

#[test]
fn positive_generate_compliant_ipv4_test_five() {
    check_generated(IPV4_FIVE, IPV4_FIVE_RAND, IPV4_FIVE_BITS);
}

#[test]
fn positive_is_compliant_ipv4_test_one() {
    check_compliant(IPV4_ONE, IPV4_ONE_RAND, IPV4_ONE_BITS);
}

#[test]
fn positive_is_compliant_ipv4_test_two() {
    check_compliant(IPV4_TWO, IPV4_TWO_RAND, IPV4_TWO_BITS);
}

#[test]
fn positive_is_compliant_ipv4_test_three() {
    check_compliant(IPV4_THREE, IPV4_THREE_RAND, IPV4_THREE_BITS);
}

#[test]
fn positive_is_compliant_ipv4_test_four() {
    check_compliant(IPV4_FOUR, IPV4_FOUR_RAND, IPV4_FOUR_BITS);
}

#[test]
fn positive_is_compliant_ipv4_test_five() {
    check_compliant(IPV4_FIVE, IPV4_FIVE_RAND, IPV4_FIVE_BITS);
}

#[test]
fn generated_ipv4_ids_are_compliant() {
    for ip in [[124u8, 31, 75, 21], [21, 75, 31, 124], [10, 0, 0, 1], [255, 255, 255, 255]] {
        for _ in 0..20 {
            let id = generate_compliant_id_ipv4(ip);
            assert!(is_compliant_ipv4_addr(ip, id));
        }
    }
}

#[test]
fn tampered_id_is_not_compliant() {
    let ip = [124u8, 31, 75, 21];
    let mut id = [IPV4_ONE_BITS.0, IPV4_ONE_BITS.1, IPV4_ONE_BITS.2, 0, 0, 0, 0, 0, 0, 0, 0, 0, 0, 0, 0, 0, 0, 0, 0, IPV4_ONE_RAND];
    assert!(is_compliant_ipv4_addr(ip, id));
    id[0] ^= 1;
    assert!(!is_compliant_ipv4_addr(ip, id));
}

#[test]
fn mask_keeps_only_the_masked_bits() {
    assert_eq!(mask_ipv4_be([255, 255, 255, 255]), 0x030F_3FFF);
    assert_eq!(mask_ipv4_be([124, 31, 75, 21]), 0x7C1F_4B15 & 0x030F_3FFF);
}
