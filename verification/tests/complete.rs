use cidr_compress::cidr::Ipv4Cidr;
use cidr_compress::radixset::def::Definition;
use cidr_compress::radixset::RadixSet;
use cidr_compress::text::Textual;
use cidr_compress::write_lines::WriteLinesIter;

fn format_lines(f: Vec<Definition<Ipv4Cidr>>) -> String {
    WriteLinesIter::new(f).to_string()
}

#[test]
fn complete_ipv4_empty() {
    let rs : RadixSet<Ipv4Cidr> = Default::default();

    assert_eq!(
        format_lines(Definition::complete(&rs, false)),
        ["exclude 0.0.0.0/0\n"].concat()
    );

    assert_eq!(
        format_lines(Definition::complete(&rs, true)),
        ["include 0.0.0.0/0\n"].concat()
    );
}

#[test]
fn complete_ipv4_any() {
    let addr = Ipv4Cidr::from_str("0.0.0.0/0").unwrap();
    let mut rs : RadixSet<Ipv4Cidr> = Default::default();
    rs.insert(&addr);

    assert_eq!(
        format_lines(Definition::complete(&rs, false)),
        ["include 0.0.0.0/0\n"].concat()
    );

    assert_eq!(
        format_lines(Definition::complete(&rs, true)),
        ["exclude 0.0.0.0/0\n"].concat()
    );
}

#[test]
fn complete_ipv4_single_firstbit_zero() {
    let addr = Ipv4Cidr::from_str("0.0.0.0/1").unwrap();
    let mut rs : RadixSet<Ipv4Cidr> = Default::default();
    rs.insert(&addr);

    assert_eq!(
        format_lines(Definition::complete(&rs, false)),
        ["include 0.0.0.0/1\n", "exclude 128.0.0.0/1\n"].concat()
    );

    assert_eq!(
        format_lines(Definition::complete(&rs, true)),
        ["exclude 0.0.0.0/1\n", "include 128.0.0.0/1\n"].concat()
    );
}

#[test]
fn complete_ipv4_single_firstbit_one() {
    let addr = Ipv4Cidr::from_str("128.0.0.0/1").unwrap();
    let mut rs : RadixSet<Ipv4Cidr> = Default::default();
    rs.insert(&addr);

    assert_eq!(
        format_lines(Definition::complete(&rs, false)),
        ["exclude 0.0.0.0/1\n", "include 128.0.0.0/1\n"].concat()
    );

    assert_eq!(
        format_lines(Definition::complete(&rs, true)),
        ["include 0.0.0.0/1\n", "exclude 128.0.0.0/1\n"].concat()
    );
}

#[test]
fn complete_ipv4_single_lastbit_zero() {
    let addr = Ipv4Cidr::from_str("0.0.0.0/8").unwrap();
    let mut rs : RadixSet<Ipv4Cidr> = Default::default();
    rs.insert(&addr);

    assert_eq!(
        format_lines(Definition::complete(&rs, false)),
        ["include 0.0.0.0/8\n", "exclude 1.0.0.0/8\n", "exclude 2.0.0.0/7\n", "exclude 4.0.0.0/6\n", "exclude 8.0.0.0/5\n", "exclude 16.0.0.0/4\n", "exclude 32.0.0.0/3\n", "exclude 64.0.0.0/2\n", "exclude 128.0.0.0/1\n"].concat()
    );

    assert_eq!(
        format_lines(Definition::complete(&rs, true)),
        ["exclude 0.0.0.0/8\n", "include 1.0.0.0/8\n", "include 2.0.0.0/7\n", "include 4.0.0.0/6\n", "include 8.0.0.0/5\n", "include 16.0.0.0/4\n", "include 32.0.0.0/3\n", "include 64.0.0.0/2\n", "include 128.0.0.0/1\n"].concat()
    );
}

#[test]
fn complete_ipv4_single_lastbit_one() {
    let addr = Ipv4Cidr::from_str("1.0.0.0/8").unwrap();
    let mut rs : RadixSet<Ipv4Cidr> = Default::default();
    rs.insert(&addr);

    assert_eq!(
        format_lines(Definition::complete(&rs, false)),
        ["exclude 0.0.0.0/8\n", "include 1.0.0.0/8\n", "exclude 2.0.0.0/7\n", "exclude 4.0.0.0/6\n", "exclude 8.0.0.0/5\n", "exclude 16.0.0.0/4\n", "exclude 32.0.0.0/3\n", "exclude 64.0.0.0/2\n", "exclude 128.0.0.0/1\n"].concat()
    );

    assert_eq!(
        format_lines(Definition::complete(&rs, true)),
        ["include 0.0.0.0/8\n", "exclude 1.0.0.0/8\n", "include 2.0.0.0/7\n", "include 4.0.0.0/6\n", "include 8.0.0.0/5\n", "include 16.0.0.0/4\n", "include 32.0.0.0/3\n", "include 64.0.0.0/2\n", "include 128.0.0.0/1\n"].concat()
    );
}
