use cidr_compress::address::{Ipv4Address, Ipv6Address};
use cidr_compress::bitstrings::{BigEndianBits, BitString, BitWordString, FixedBitString};
use cidr_compress::cidr::{IpCidr, Ipv4Cidr, Ipv6Cidr, NetworkParseError};
use std::cmp::Ordering;

fn chars(s: &str) -> Vec<char> {
    s.chars().collect()
}

fn text4(a: &Ipv4Address) -> String {
    a.to_chars().into_iter().collect()
}

fn text6(a: &Ipv6Address) -> String {
    a.to_chars().into_iter().collect()
}

fn read4(text: &str) -> Option<[u8; 4]> {
    Ipv4Address::from_chars(&chars(text)).map(|a| a.octets)
}

#[test]
fn ipv4_text_is_read() {
    assert_eq!(read4("0.0.0.0"), Some([0, 0, 0, 0]));
    assert_eq!(read4("255.255.255.255"), Some([255, 255, 255, 255]));
    assert_eq!(read4("1.2.3.4"), Some([1, 2, 3, 4]));
    assert_eq!(read4("192.168.100.7"), Some([192, 168, 100, 7]));
    assert_eq!(read4("10.0.0.1"), Some([10, 0, 0, 1]));
}

#[test]
fn ipv4_text_is_refused() {
    for text in [
        "01.2.3.4",
        "1.2.3.04",
        "1.2.3",
        "1.2.3.4.5",
        "1.2.3.256",
        "1.2.3.999",
        "1..3.4",
        ".1.2.3",
        "1.2.3.",
        "1.2.3.4 ",
        " 1.2.3.4",
        "",
        "a.b.c.d",
        "1.2.3.-4",
        "+1.2.3.4",
        "0001.2.3.4",
        "1.2.3.4/8",
        "00.0.0.0",
        "1.2.3.0x4",
        "1.2.3.\u{663}",
    ] {
        assert_eq!(read4(text), None, "{}", text);
    }
}

#[test]
fn ipv4_text_is_written() {
    assert_eq!(text4(&Ipv4Address { octets: [0, 0, 0, 0] }), "0.0.0.0");
    assert_eq!(text4(&Ipv4Address { octets: [255, 255, 255, 255] }), "255.255.255.255");
    assert_eq!(text4(&Ipv4Address { octets: [1, 20, 105, 9] }), "1.20.105.9");
    assert_eq!(text4(&Ipv4Address { octets: [10, 100, 99, 200] }), "10.100.99.200");
    assert_eq!(text4(&Ipv4Address { octets: [192, 168, 0, 1] }), "192.168.0.1");
    for octets in [[0, 0, 0, 0], [255, 255, 255, 255], [1, 20, 105, 9], [10, 100, 99, 200]] {
        let text = text4(&Ipv4Address { octets });
        assert_eq!(read4(&text), Some(octets));
    }
}

fn octets_of(groups: [u16; 8]) -> [u8; 16] {
    let mut octets = [0u8; 16];
    for (i, group) in groups.iter().enumerate() {
        octets[2 * i] = (group >> 8) as u8;
        octets[2 * i + 1] = (group & 0xff) as u8;
    }
    octets
}

fn read6(text: &str) -> Option<[u8; 16]> {
    Ipv6Address::from_chars(&chars(text)).map(|a| a.octets)
}

#[test]
fn ipv6_text_is_read() {
    let cases: [(&str, [u16; 8]); 20] = [
        ("::", [0, 0, 0, 0, 0, 0, 0, 0]),
        ("::1", [0, 0, 0, 0, 0, 0, 0, 1]),
        ("1::", [1, 0, 0, 0, 0, 0, 0, 0]),
        ("1:2:3:4:5:6:7:8", [1, 2, 3, 4, 5, 6, 7, 8]),
        ("1:2:3:4:5:6:7::", [1, 2, 3, 4, 5, 6, 7, 0]),
        ("::2:3:4:5:6:7:8", [0, 2, 3, 4, 5, 6, 7, 8]),
        ("1:2:3:4::6:7:8", [1, 2, 3, 4, 0, 6, 7, 8]),
        ("2001:db8::ff00:42:8329", [0x2001, 0xdb8, 0, 0, 0, 0xff00, 0x42, 0x8329]),
        (
            "2001:0db8:0000:0000:0000:ff00:0042:8329",
            [0x2001, 0xdb8, 0, 0, 0, 0xff00, 0x42, 0x8329],
        ),
        ("2001:DB8::FF00:42:8329", [0x2001, 0xdb8, 0, 0, 0, 0xff00, 0x42, 0x8329]),
        ("fe80::1", [0xfe80, 0, 0, 0, 0, 0, 0, 1]),
        ("::ffff:192.168.1.1", [0, 0, 0, 0, 0, 0xffff, 0xc0a8, 0x0101]),
        ("::192.168.1.1", [0, 0, 0, 0, 0, 0, 0xc0a8, 0x0101]),
        ("1:2:3:4:5:6:1.2.3.4", [1, 2, 3, 4, 5, 6, 0x0102, 0x0304]),
        ("1:2:3:4:5::1.2.3.4", [1, 2, 3, 4, 5, 0, 0x0102, 0x0304]),
        ("64:ff9b::10.0.0.1", [0x64, 0xff9b, 0, 0, 0, 0, 0x0a00, 0x0001]),
        ("0:0:0:0:0:0:0:0", [0, 0, 0, 0, 0, 0, 0, 0]),
        (
            "ffff:ffff:ffff:ffff:ffff:ffff:ffff:ffff",
            [0xffff, 0xffff, 0xffff, 0xffff, 0xffff, 0xffff, 0xffff, 0xffff],
        ),
        ("a:B:c:D::", [0xa, 0xb, 0xc, 0xd, 0, 0, 0, 0]),
        ("1:2:3:4:5:6::7", [1, 2, 3, 4, 5, 6, 0, 7]),
    ];
    for (text, groups) in cases {
        assert_eq!(read6(text), Some(octets_of(groups)), "{}", text);
    }
}

#[test]
fn ipv6_text_is_refused() {
    for text in [
        "1:2:3:4:5:6:7:1.2.3.4",
        "1:2:3:4:5:6::1.2.3.4",
        "1.2.3.4::",
        "1.2.3.4::1",
        "::1.2.3.4:5",
        "1:2:3:4:5:6:7",
        "1:2:3:4:5:6:7:8:9",
        "1:2:3:4:5:6:7:8::",
        "::1:2:3:4:5:6:7:8",
        ":::",
        "1:::2",
        "1::2::3",
        ":1::2",
        "1::2:",
        ":",
        "",
        "12345::",
        "::12345",
        "g::",
        "::g",
        "1:2:3:4:5:6:7:",
        ":1:2:3:4:5:6:7",
        "::01.2.3.4",
        "::1.2.3.256",
        "::1.2.3",
        "fe80::1%eth0",
        "1.2.3.4",
        " ::1",
        "::1 ",
    ] {
        assert_eq!(read6(text), None, "{}", text);
    }
}

#[test]
fn ipv6_text_is_written() {
    let cases: [([u16; 8], &str); 15] = [
        ([0, 0, 0, 0, 0, 0, 0, 0], "::"),
        ([0, 0, 0, 0, 0, 0, 0, 1], "::1"),
        ([1, 0, 0, 0, 0, 0, 0, 0], "1::"),
        ([1, 2, 3, 4, 5, 6, 7, 8], "1:2:3:4:5:6:7:8"),
        ([0x2001, 0xdb8, 0, 0, 0, 0xff00, 0x42, 0x8329], "2001:db8::ff00:42:8329"),
        ([1, 0, 0, 2, 0, 0, 0, 3], "1:0:0:2::3"),
        ([1, 0, 0, 0, 2, 0, 0, 0], "1::2:0:0:0"),
        ([1, 0, 2, 0, 3, 0, 4, 0], "1:0:2:0:3:0:4:0"),
        ([0, 1, 0, 0, 2, 0, 0, 3], "0:1::2:0:0:3"),
        ([0, 0, 0, 0, 0, 0xffff, 0xc0a8, 0x0101], "::ffff:192.168.1.1"),
        ([0, 0, 0, 0, 0, 0, 0xc0a8, 0x0101], "::c0a8:101"),
        ([0, 0, 0, 0, 0, 0xfffe, 0xc0a8, 0x0101], "::fffe:c0a8:101"),
        (
            [0xffff, 0xffff, 0xffff, 0xffff, 0xffff, 0xffff, 0xffff, 0xffff],
            "ffff:ffff:ffff:ffff:ffff:ffff:ffff:ffff",
        ),
        ([0xa, 0xb0, 0xc00, 0xd000, 0, 1, 0, 0], "a:b0:c00:d000:0:1::"),
        ([0x2001, 0xdb8, 0, 0, 1, 0, 0, 1], "2001:db8::1:0:0:1"),
    ];
    for (groups, text) in cases {
        let address = Ipv6Address { octets: octets_of(groups) };
        assert_eq!(text6(&address), text);
        assert_eq!(read6(text), Some(address.octets));
    }
}

#[test]
fn cidr_text_round_trip() {
    let cidr = Ipv4Cidr::from_str("10.1.0.0/16").unwrap();
    assert_eq!(cidr.address.octets, [10, 1, 0, 0]);
    assert_eq!(cidr.network_length, 16);
    assert_eq!(cidr.to_string(), "10.1.0.0/16");
    let cidr = Ipv6Cidr::from_str("2001:db8::/32").unwrap();
    assert_eq!(cidr.network_length, 32);
    assert_eq!(cidr.to_string(), "2001:db8::/32");
}

#[test]
fn cidr_bare_address_is_a_host_route() {
    let cidr = Ipv4Cidr::from_str("192.0.2.1").unwrap();
    assert_eq!(cidr.network_length, 32);
    assert_eq!(cidr.to_string(), "192.0.2.1/32");
    let cidr = Ipv6Cidr::from_str("::1").unwrap();
    assert_eq!(cidr.network_length, 128);
    assert_eq!(cidr.to_string(), "::1/128");
}

#[test]
fn cidr_length_is_read_like_a_byte() {
    assert_eq!(Ipv4Cidr::from_str("1.2.3.4/+8").unwrap().network_length, 8);
    assert_eq!(Ipv4Cidr::from_str("1.2.3.4/008").unwrap().network_length, 8);
    assert_eq!(Ipv4Cidr::from_str("1.2.3.4/32").unwrap().network_length, 32);
    assert_eq!(Ipv4Cidr::from_str("1.2.3.4/0").unwrap().network_length, 0);
    assert_eq!(Ipv6Cidr::from_str("::/128").unwrap().network_length, 128);
}

fn error4(text: &str) -> NetworkParseError {
    Ipv4Cidr::from_str(text).err().unwrap()
}

#[test]
fn cidr_parse_errors() {
    assert_eq!(error4("1.2.3/8"), NetworkParseError::AddrParseError);
    assert_eq!(error4("hello"), NetworkParseError::AddrParseError);
    assert_eq!(error4(""), NetworkParseError::AddrParseError);
    assert_eq!(error4("::1/8"), NetworkParseError::AddrParseError);
    assert_eq!(error4("1.2.3.4/"), NetworkParseError::NetworkLengthParseError);
    assert_eq!(error4("1.2.3.4/x"), NetworkParseError::NetworkLengthParseError);
    assert_eq!(error4("1.2.3.4/-1"), NetworkParseError::NetworkLengthParseError);
    assert_eq!(error4("1.2.3.4/256"), NetworkParseError::NetworkLengthParseError);
    assert_eq!(error4("1.2.3.4/8/"), NetworkParseError::NetworkLengthParseError);
    assert_eq!(error4("1.2.3.4/33"), NetworkParseError::NetworkLengthTooLongError);
    assert_eq!(error4("1.2.3.4/255"), NetworkParseError::NetworkLengthTooLongError);
    assert_eq!(error4("bad/33"), NetworkParseError::NetworkLengthTooLongError);
    assert_eq!(error4("bad/x"), NetworkParseError::NetworkLengthParseError);
    assert_eq!(error4("1.2.3.4/8/16"), NetworkParseError::AddrParseError);
    assert_eq!(
        Ipv6Cidr::from_str("::/129").err().unwrap(),
        NetworkParseError::NetworkLengthTooLongError
    );
    assert_eq!(Ipv6Cidr::from_str("1.2.3.4/8").err().unwrap(), NetworkParseError::AddrParseError);
}

#[test]
fn cidr_bit_operations() {
    let mut cidr = Ipv4Cidr::from_str("160.0.0.0/3").unwrap();
    assert_eq!(cidr.len(), 3);
    assert!(cidr.get(0));
    assert!(!cidr.get(1));
    assert!(cidr.get(2));
    cidr.flip(1);
    assert_eq!(cidr.to_string(), "224.0.0.0/3");
    cidr.set(0, false);
    assert_eq!(cidr.to_string(), "96.0.0.0/3");
    cidr.append(true);
    assert_eq!(cidr.to_string(), "112.0.0.0/4");
    cidr.append(false);
    assert_eq!(cidr.to_string(), "112.0.0.0/5");
    cidr.clip(2);
    assert_eq!(cidr.to_string(), "64.0.0.0/2");
    cidr.clip(7);
    assert_eq!(cidr.to_string(), "64.0.0.0/2");
    let null: Ipv4Cidr = BitString::null();
    assert_eq!(null.to_string(), "0.0.0.0/0");
    let null: Ipv6Cidr = BitString::null();
    assert_eq!(null.to_string(), "::/0");
}

#[test]
fn cidr_clip_clears_the_host_bits() {
    let mut cidr = Ipv4Cidr::from_str("10.255.255.255/32").unwrap();
    cidr.clip(12);
    assert_eq!(cidr.to_string(), "10.240.0.0/12");
    cidr.clip(8);
    assert_eq!(cidr.to_string(), "10.0.0.0/8");
    let mut cidr = Ipv6Cidr::from_str("ffff:ffff:ffff:ffff:ffff:ffff:ffff:ffff").unwrap();
    cidr.clip(33);
    assert_eq!(cidr.to_string(), "ffff:ffff:8000::/33");
    cidr.clip(0);
    assert_eq!(cidr.to_string(), "::/0");
}

#[test]
fn shared_prefix_of_prefixes() {
    let a = Ipv4Cidr::from_str("10.1.0.0/16").unwrap();
    let b = Ipv4Cidr::from_str("10.2.0.0/16").unwrap();
    let c = Ipv4Cidr::from_str("10.1.2.0/24").unwrap();
    assert_eq!(a.shared_prefix_len(&b), 14);
    assert_eq!(b.shared_prefix_len(&a), 14);
    assert_eq!(a.shared_prefix_len(&c), 16);
    assert_eq!(a.shared_prefix_len(&a), 16);
    assert_eq!(a.shared_prefix(&b).to_string(), "10.0.0.0/14");
    assert_eq!(c.shared_prefix(&a).to_string(), "10.1.0.0/16");
    let null: Ipv4Cidr = BitString::null();
    assert_eq!(a.shared_prefix_len(&null), 0);
}

#[test]
fn prefixes_are_ordered_by_prefix() {
    let a = Ipv4Cidr::from_str("10.1.0.0/16").unwrap();
    let b = Ipv4Cidr::from_str("10.2.0.0/16").unwrap();
    let c = Ipv4Cidr::from_str("10.1.2.0/24").unwrap();
    assert_eq!(a.bitstring_partial_cmp(&a), Some(Ordering::Equal));
    assert_eq!(a.bitstring_partial_cmp(&c), Some(Ordering::Less));
    assert_eq!(c.bitstring_partial_cmp(&a), Some(Ordering::Greater));
    assert_eq!(a.bitstring_partial_cmp(&b), None);
    assert_eq!(c.bitstring_partial_cmp(&b), None);
}

#[test]
fn big_endian_bits_on_bytes() {
    assert_eq!(BigEndianBits::<u8>::elembits(), 8);
    assert_eq!(BigEndianBits::<u8>::from_bit(true), 1);
    assert_eq!(BigEndianBits::<u8>::from_bit(false), 0);
    assert_eq!(BigEndianBits::<u8>::mask(0, true), 0x80);
    assert_eq!(BigEndianBits::<u8>::mask(7, true), 0x01);
    assert_eq!(BigEndianBits::<u8>::mask(10, true), 0x20);
    assert_eq!(BigEndianBits::<u8>::mask(10, false), 0);
    let mut bytes = [0b1010_0000u8, 0xff, 0x0f];
    assert!(BigEndianBits::<u8>::get(&bytes, 0));
    assert!(!BigEndianBits::<u8>::get(&bytes, 1));
    assert!(BigEndianBits::<u8>::get(&bytes, 2));
    assert!(BigEndianBits::<u8>::get(&bytes, 8));
    assert!(!BigEndianBits::<u8>::get(&bytes, 16));
    assert!(BigEndianBits::<u8>::get(&bytes, 23));
    BigEndianBits::<u8>::set(&mut bytes, 1, true);
    assert_eq!(bytes, [0b1110_0000, 0xff, 0x0f]);
    BigEndianBits::<u8>::set(&mut bytes, 8, false);
    assert_eq!(bytes, [0b1110_0000, 0x7f, 0x0f]);
    BigEndianBits::<u8>::flip(&mut bytes, 23);
    assert_eq!(bytes, [0b1110_0000, 0x7f, 0x0e]);
    BigEndianBits::<u8>::flip(&mut bytes, 16);
    assert_eq!(bytes, [0b1110_0000, 0x7f, 0x8e]);
}

#[test]
fn big_endian_bits_zerofrom() {
    let mut bytes = [0xffu8, 0xff, 0xff];
    BigEndianBits::<u8>::zerofrom(&mut bytes, 100);
    assert_eq!(bytes, [0xff, 0xff, 0xff]);
    BigEndianBits::<u8>::zerofrom(&mut bytes, 24);
    assert_eq!(bytes, [0xff, 0xff, 0xff]);
    BigEndianBits::<u8>::zerofrom(&mut bytes, 23);
    assert_eq!(bytes, [0xff, 0xff, 0xfe]);
    BigEndianBits::<u8>::zerofrom(&mut bytes, 17);
    assert_eq!(bytes, [0xff, 0xff, 0x80]);
    BigEndianBits::<u8>::zerofrom(&mut bytes, 16);
    assert_eq!(bytes, [0xff, 0xff, 0x00]);
    BigEndianBits::<u8>::zerofrom(&mut bytes, 3);
    assert_eq!(bytes, [0xe0, 0x00, 0x00]);
    BigEndianBits::<u8>::zerofrom(&mut bytes, 0);
    assert_eq!(bytes, [0x00, 0x00, 0x00]);
}

#[test]
fn fixed_bit_strings_of_addresses() {
    let mut a = Ipv4Address { octets: [0, 0, 0, 0] };
    a.set(31, true);
    a.set(0, true);
    assert_eq!(a.octets, [128, 0, 0, 1]);
    assert!(a.get(31));
    assert!(!a.get(30));
    a.flip(8);
    assert_eq!(a.octets, [128, 128, 0, 1]);
    a.zerofrom(9);
    assert_eq!(a.octets, [128, 128, 0, 0]);
    assert_eq!(<Ipv4Address as FixedBitString>::null().octets, [0; 4]);
    let mut b: Ipv6Address = FixedBitString::null();
    b.set(127, true);
    b.flip(0);
    assert_eq!(b.octets[0], 0x80);
    assert_eq!(b.octets[15], 0x01);
    b.zerofrom(1);
    assert_eq!(b.octets[15], 0);
    assert_eq!(b.octets[0], 0x80);
}

#[test]
fn bit_word_string_operations() {
    let mut s: BitWordString<Ipv4Address> = BitString::null();
    assert_eq!(s.len(), 0);
    s.append(true);
    s.append(false);
    s.append(true);
    assert_eq!(s.len(), 3);
    assert_eq!(s.bitwords.octets, [0b1010_0000, 0, 0, 0]);
    s.flip(1);
    s.set(2, false);
    assert_eq!(s.bitwords.octets, [0b1100_0000, 0, 0, 0]);
    assert!(s.get(1));
    s.clip(1);
    assert_eq!(s.len(), 1);
    assert_eq!(s.bitwords.octets, [0b1000_0000, 0, 0, 0]);
    let t = s.clone();
    assert_eq!(t.len, 1);
    assert_eq!(t.bitwords, s.bitwords);
}

#[test]
fn cidr_values_can_be_built_from_parts() {
    let cidr = IpCidr { address: Ipv4Address { octets: [10, 0, 0, 0] }, network_length: 8 };
    assert_eq!(cidr.to_string(), "10.0.0.0/8");
    assert_eq!(cidr.clone().to_string(), "10.0.0.0/8");
}

#[test]
fn cidr_is_parsed_through_the_standard_trait() {
    let cidr: Ipv4Cidr = "10.0.0.0/8".parse().unwrap();
    assert_eq!(cidr, Ipv4Cidr::from_str("10.0.0.0/8").unwrap());
    let error = "10.0.0.0/64".parse::<Ipv4Cidr>().err().unwrap();
    assert_eq!(error, NetworkParseError::NetworkLengthTooLongError);
    let cidr: Ipv6Cidr = "fe80::/10".parse().unwrap();
    assert_eq!(cidr.to_string(), "fe80::/10");
}

#[test]
fn cidr_clip_leaves_a_shorter_prefix_as_it_is() {
    let mut cidr = Ipv4Cidr::from_str("10.1.2.3/8").unwrap();
    cidr.clip(16);
    assert_eq!(cidr.to_string(), "10.1.2.3/8");
    cidr.clip(8);
    assert_eq!(cidr.to_string(), "10.1.2.3/8");
    cidr.clip(7);
    assert_eq!(cidr.to_string(), "10.0.0.0/7");
    let mut word: BitWordString<Ipv4Address> =
        BitWordString { bitwords: Ipv4Address { octets: [0xff, 0xff, 0, 0] }, len: 4 };
    word.clip(9);
    assert_eq!((word.bitwords.octets, word.len), ([0xff, 0xff, 0, 0], 4));
    word.clip(3);
    assert_eq!((word.bitwords.octets, word.len), ([0xe0, 0, 0, 0], 3));
}
