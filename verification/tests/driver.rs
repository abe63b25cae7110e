use cidr_compress::address::{Ipv4Address, Ipv6Address};
use cidr_compress::cidr::{Ipv4Cidr, NetworkParseError};
use cidr_compress::config::{Config, ConfigProtocol};
use cidr_compress::driver::{read_any_sets, read_line, read_set, show};
use cidr_compress::radixset::def::Definition;
use cidr_compress::radixset::RadixSet;
use cidr_compress::text::{chars_of, string_of, Textual};
use cidr_compress::write_lines::WriteLinesIter;

fn lines(text: &[&str]) -> Vec<String> {
    text.iter().map(|s| s.to_string()).collect()
}

fn config(invert: bool, complete: bool, aggregate: bool) -> Config {
    Config { invert, complete, aggregate, protocol: ConfigProtocol::IPv4 }
}

#[test]
fn comments_and_empty_lines_are_passed_over() {
    assert!(read_line::<Ipv4Address>("").is_none());
    assert!(read_line::<Ipv4Address>("# 10.0.0.0/8").is_none());
    assert!(read_line::<Ipv4Address>("#").is_none());
    let cidr = read_line::<Ipv4Address>("10.0.0.0/8").unwrap().ok().unwrap();
    assert_eq!(cidr.to_string(), "10.0.0.0/8");
    assert_eq!(
        read_line::<Ipv4Address>(" # comment").unwrap().err(),
        Some(NetworkParseError::AddrParseError)
    );
    assert_eq!(
        read_line::<Ipv4Address>(" ").unwrap().err(),
        Some(NetworkParseError::AddrParseError)
    );
}

#[test]
fn a_set_is_read_from_lines() {
    let input = lines(&["# office", "10.0.0.0/9", "", "10.128.0.0/9", "192.168.1.1"]);
    let set = read_set::<Ipv4Address>(&input).ok().unwrap();
    assert_eq!(
        show(&set, &config(false, false, false)),
        "include 10.0.0.0/8\ninclude 192.168.1.1/32\n"
    );
    assert_eq!(show(&set, &config(false, false, true)), "10.0.0.0/8\n192.168.1.1/32\n");
    let empty = read_set::<Ipv4Address>(&lines(&["", "#"])).ok().unwrap();
    assert_eq!(show(&empty, &config(false, false, false)), "");
    assert_eq!(show(&empty, &config(true, false, false)), "include 0.0.0.0/0\n");
    assert_eq!(show(&empty, &config(false, true, false)), "exclude 0.0.0.0/0\n");
    assert_eq!(show(&empty, &config(false, false, true)), "");
    assert_eq!(show(&empty, &config(true, false, true)), "0.0.0.0/0\n");
}

#[test]
fn the_first_bad_line_ends_the_reading() {
    let input = lines(&["10.0.0.0/8", "# fine", "10.0.0.0/33", "nonsense", "10.0.0.0/x"]);
    let bad = read_set::<Ipv4Address>(&input).err().unwrap();
    assert_eq!(bad.line, 2);
    assert_eq!(bad.error, NetworkParseError::NetworkLengthTooLongError);
    let bad = read_set::<Ipv4Address>(&input[3..].to_vec()).err().unwrap();
    assert_eq!(bad.line, 0);
    assert_eq!(bad.error, NetworkParseError::AddrParseError);
    let bad = read_set::<Ipv4Address>(&input[4..].to_vec()).err().unwrap();
    assert_eq!(bad.error, NetworkParseError::NetworkLengthParseError);
    let bad = read_set::<Ipv6Address>(&lines(&["::/0", "10.0.0.0/8"])).err().unwrap();
    assert_eq!(bad.line, 1);
    assert_eq!(bad.error, NetworkParseError::AddrParseError);
}

#[test]
fn both_families_are_read_side_by_side() {
    let input = lines(&["10.0.0.0/8", "2001:db8::/32", "# both", "::1", "10.1.2.3", "fe80::/10"]);
    let (v4, v6) = read_any_sets(&input).ok().unwrap();
    assert_eq!(show(&v4, &config(false, false, true)), "10.0.0.0/8\n");
    assert_eq!(show(&v6, &config(false, false, true)), "::1/128\n2001:db8::/32\nfe80::/10\n");
    let bad = read_any_sets(&lines(&["10.0.0.0/8", "::/129", "x"])).err().unwrap();
    assert_eq!(bad.line, 1);
    assert_eq!(bad.error, NetworkParseError::NetworkLengthTooLongError);
    let bad = read_any_sets(&lines(&["10.0.0.0/40"])).err().unwrap();
    assert_eq!(bad.error, NetworkParseError::AddrParseError);
}

#[test]
fn the_configuration_picks_the_rendering() {
    let set = read_set::<Ipv4Address>(&lines(&["0.0.0.0/1", "128.0.0.0/32"])).ok().unwrap();
    assert_eq!(
        show(&set, &config(false, false, false)),
        "include 0.0.0.0/1\ninclude 128.0.0.0/32\n"
    );
    assert_eq!(
        show(&set, &config(true, false, false)),
        "include 128.0.0.0/1\nexclude 128.0.0.0/32\n"
    );
    assert_eq!(show(&set, &config(false, false, true)), "0.0.0.0/1\n128.0.0.0/32\n");
    let complete = show(&set, &config(false, true, false));
    assert!(complete.starts_with("include 0.0.0.0/1\ninclude 128.0.0.0/32\nexclude 128.0.0.1/32\n"));
    assert!(complete.ends_with("exclude 160.0.0.0/3\nexclude 192.0.0.0/2\n"));
    assert_eq!(complete.lines().count(), 33);
    assert_eq!(show(&set, &config(false, true, true)), complete);
}

#[test]
fn ipv6_sets_are_rendered() {
    let set = read_set::<Ipv6Address>(&lines(&["::/1", "8000::/128"])).ok().unwrap();
    assert_eq!(show(&set, &config(false, false, false)), "include ::/1\ninclude 8000::/128\n");
    assert_eq!(show(&set, &config(true, false, false)), "include 8000::/1\nexclude 8000::/128\n");
    let set = read_set::<Ipv6Address>(&lines(&["2001:db8::/33", "2001:db8:8000::/33"])).ok().unwrap();
    assert_eq!(show(&set, &config(false, false, false)), "include 2001:db8::/32\n");
    assert_eq!(
        show(&set, &config(true, false, false)),
        "include ::/0\nexclude 2001:db8::/32\n"
    );
}

#[test]
fn host_bits_of_the_input_are_kept_until_a_prefix_is_clipped() {
    let set = read_set::<Ipv4Address>(&lines(&["10.1.2.3/8"])).ok().unwrap();
    assert_eq!(show(&set, &config(false, false, false)), "include 10.1.2.3/8\n");
    let set = read_set::<Ipv4Address>(&lines(&["10.1.2.3/9", "10.128.0.0/9"])).ok().unwrap();
    assert_eq!(show(&set, &config(false, false, false)), "include 10.0.0.0/8\n");
}

#[test]
fn lines_are_written_one_per_value() {
    let empty: Vec<Ipv4Cidr> = Vec::new();
    assert_eq!(WriteLinesIter::new(empty).to_string(), "");
    let prefixes = vec![
        Ipv4Cidr::from_str("10.0.0.0/8").unwrap(),
        Ipv4Cidr::from_str("192.168.0.0/16").unwrap(),
    ];
    assert_eq!(WriteLinesIter::new(prefixes).to_string(), "10.0.0.0/8\n192.168.0.0/16\n");
    let definitions = vec![
        Definition { prefix: Ipv4Cidr::from_str("10.0.0.0/8").unwrap(), included: true },
        Definition { prefix: Ipv4Cidr::from_str("10.1.0.0/16").unwrap(), included: false },
    ];
    assert_eq!(Definition::to_string(&definitions[1]), "exclude 10.1.0.0/16");
    assert_eq!(
        WriteLinesIter::new(definitions).to_string(),
        "include 10.0.0.0/8\nexclude 10.1.0.0/16\n"
    );
}

#[test]
fn strings_and_characters_convert_both_ways() {
    assert_eq!(chars_of("a/b"), vec!['a', '/', 'b']);
    assert_eq!(chars_of(""), Vec::<char>::new());
    assert_eq!(string_of(&vec!['1', '.', '2']), "1.2");
    assert_eq!(string_of(&chars_of("2001:db8::/32")), "2001:db8::/32");
}

#[test]
fn a_set_can_be_cloned() {
    let mut set: RadixSet<Ipv4Cidr> = Default::default();
    set.insert(&Ipv4Cidr::from_str("10.0.0.0/8").unwrap());
    set.insert(&Ipv4Cidr::from_str("192.168.0.0/16").unwrap());
    let copy = set.clone();
    set.insert(&Ipv4Cidr::from_str("0.0.0.0/0").unwrap());
    assert_eq!(show(&copy, &config(false, false, true)), "10.0.0.0/8\n192.168.0.0/16\n");
    assert_eq!(show(&set, &config(false, false, true)), "0.0.0.0/0\n");
    assert_eq!(copy.root().unwrap().key().to_string(), "0.0.0.0/0");
    assert_eq!(copy.root().unwrap().clone().key().to_string(), "0.0.0.0/0");
}

#[test]
fn sets_are_described_in_words() {
    let mut set: RadixSet<Ipv4Cidr> = Default::default();
    assert_eq!(set.to_string(), "RadixSet { }");
    set.insert(&Ipv4Cidr::from_str("10.0.0.0/8").unwrap());
    assert_eq!(set.to_string(), "RadixSet { Leaf { key: 10.0.0.0/8 } }");
    set.insert(&Ipv4Cidr::from_str("192.168.0.0/16").unwrap());
    assert_eq!(
        set.to_string(),
        "RadixSet { InnerNode { key: 0.0.0.0/0, left: Leaf { key: 10.0.0.0/8 }, \
         right: Leaf { key: 192.168.0.0/16 } } }"
    );
    assert_eq!(
        set.root().unwrap().to_string(),
        "InnerNode { key: 0.0.0.0/0, left: Leaf { key: 10.0.0.0/8 }, \
         right: Leaf { key: 192.168.0.0/16 } }"
    );
}

#[test]
fn a_list_becomes_lines_by_conversion() {
    let prefixes = vec![Ipv4Cidr::from_str("10.0.0.0/8").unwrap()];
    let lines: WriteLinesIter<Ipv4Cidr> = WriteLinesIter::from(prefixes);
    assert_eq!(lines.to_string(), "10.0.0.0/8\n");
}
