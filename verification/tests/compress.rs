use cidr_compress::cidr::Ipv4Cidr;
use cidr_compress::radixset::def::Definition;
use cidr_compress::radixset::RadixSet;
use cidr_compress::text::Textual;
use cidr_compress::write_lines::WriteLinesIter;

fn format_lines(f: Vec<Definition<Ipv4Cidr>>) -> String {
    WriteLinesIter::new(f).to_string()
}

#[test]
fn compress_ipv4_empty() {
    let rs : RadixSet<Ipv4Cidr> = Default::default();

    assert_eq!(
        format_lines(Definition::compress(&rs, false)),
        String::new()
    );

    assert_eq!(
        format_lines(Definition::compress(&rs, true)),
        ["include 0.0.0.0/0\n"].concat()
    );
}

#[test]
fn compress_ipv4_any() {
    let addr = Ipv4Cidr::from_str("0.0.0.0/0").unwrap();
    let mut rs : RadixSet<Ipv4Cidr> = Default::default();
    rs.insert(&addr);

    assert_eq!(
        format_lines(Definition::compress(&rs, false)),
        ["include 0.0.0.0/0\n"].concat()
    );

    assert_eq!(
        format_lines(Definition::compress(&rs, true)),
        String::new()
    );
}

#[test]
fn compress_ipv4_single_firstbit_zero() {
    let addr = Ipv4Cidr::from_str("0.0.0.0/1").unwrap();
    let mut rs : RadixSet<Ipv4Cidr> = Default::default();
    rs.insert(&addr);

    assert_eq!(
        format_lines(Definition::compress(&rs, false)),
        ["include 0.0.0.0/1\n"].concat()
    );

    assert_eq!(
        format_lines(Definition::compress(&rs, true)),
        ["include 128.0.0.0/1\n"].concat()
    );
}

#[test]
fn compress_ipv4_single_firstbit_one() {
    let addr = Ipv4Cidr::from_str("128.0.0.0/1").unwrap();
    let mut rs : RadixSet<Ipv4Cidr> = Default::default();
    rs.insert(&addr);

    assert_eq!(
        format_lines(Definition::compress(&rs, false)),
        ["include 128.0.0.0/1\n"].concat()
    );

    assert_eq!(
        format_lines(Definition::compress(&rs, true)),
        ["include 0.0.0.0/1\n"].concat()
    );
}

#[test]
fn compress_ipv4_single_lastbit_zero() {
    let addr = Ipv4Cidr::from_str("0.0.0.0/32").unwrap();
    let mut rs : RadixSet<Ipv4Cidr> = Default::default();
    rs.insert(&addr);

    assert_eq!(
        format_lines(Definition::compress(&rs, false)),
        ["include 0.0.0.0/32\n"].concat()
    );

    assert_eq!(
        format_lines(Definition::compress(&rs, true)),
        ["include 0.0.0.0/0\n", "exclude 0.0.0.0/32\n"].concat()
    );
}

#[test]
fn compress_ipv4_single_lastbit_one() {
    let addr = Ipv4Cidr::from_str("0.0.0.1/32").unwrap();
    let mut rs : RadixSet<Ipv4Cidr> = Default::default();
    rs.insert(&addr);

    assert_eq!(
        format_lines(Definition::compress(&rs, false)),
        ["include 0.0.0.1/32\n"].concat()
    );

    assert_eq!(
        format_lines(Definition::compress(&rs, true)),
        ["include 0.0.0.0/0\n", "exclude 0.0.0.1/32\n"].concat()
    );
}

#[test]
fn compress_ipv4_mixed_1a() {
    let addr1 = Ipv4Cidr::from_str("0.0.0.0/1").unwrap();
    let addr2 = Ipv4Cidr::from_str("128.0.0.0/32").unwrap();
    let mut rs : RadixSet<Ipv4Cidr> = Default::default();
    rs.insert(&addr1);
    rs.insert(&addr2);

    assert_eq!(
        format_lines(Definition::compress(&rs, false)),
        ["include 0.0.0.0/1\n", "include 128.0.0.0/32\n"].concat()
    );

    assert_eq!(
        format_lines(Definition::compress(&rs, true)),
        ["include 128.0.0.0/1\n", "exclude 128.0.0.0/32\n"].concat()
    );
}

#[test]
fn compress_ipv4_mixed_1b() {
    let addr1 = Ipv4Cidr::from_str("0.0.0.0/2").unwrap();
    let addr2 = Ipv4Cidr::from_str("64.0.0.0/32").unwrap();
    let mut rs : RadixSet<Ipv4Cidr> = Default::default();
    rs.insert(&addr1);
    rs.insert(&addr2);

    assert_eq!(
        format_lines(Definition::compress(&rs, false)),
        ["include 0.0.0.0/2\n", "include 64.0.0.0/32\n"].concat()
    );

    assert_eq!(
        format_lines(Definition::compress(&rs, true)),
        ["include 64.0.0.0/2\n", "exclude 64.0.0.0/32\n", "include 128.0.0.0/1\n"].concat()
    );
}

#[test]
fn compress_ipv4_mixed_1c() {
    let addr1 = Ipv4Cidr::from_str("0.0.0.0/3").unwrap();
    let addr2 = Ipv4Cidr::from_str("32.0.0.0/32").unwrap();
    let mut rs : RadixSet<Ipv4Cidr> = Default::default();
    rs.insert(&addr1);
    rs.insert(&addr2);

    assert_eq!(
        format_lines(Definition::compress(&rs, false)),
        ["include 0.0.0.0/3\n", "include 32.0.0.0/32\n"].concat()
    );

    assert_eq!(
        format_lines(Definition::compress(&rs, true)),
        ["include 0.0.0.0/0\n", "exclude 0.0.0.0/3\n", "exclude 32.0.0.0/32\n"].concat()
    );
}

#[test]
fn compress_ipv4_mixed_1d() {
    let addr1 = Ipv4Cidr::from_str("0.0.0.0/9").unwrap();
    let addr2 = Ipv4Cidr::from_str("0.128.0.0/32").unwrap();
    let mut rs : RadixSet<Ipv4Cidr> = Default::default();
    rs.insert(&addr1);
    rs.insert(&addr2);

    assert_eq!(
        format_lines(Definition::compress(&rs, false)),
        ["include 0.0.0.0/9\n", "include 0.128.0.0/32\n"].concat()
    );

    assert_eq!(
        format_lines(Definition::compress(&rs, true)),
        ["include 0.0.0.0/0\n", "exclude 0.0.0.0/9\n", "exclude 0.128.0.0/32\n"].concat()
    );
}

#[test]
fn compress_ipv4_mixed_1a_flipped() {
    let addr1 = Ipv4Cidr::from_str("0.0.0.0/32").unwrap();
    let addr2 = Ipv4Cidr::from_str("128.0.0.0/1").unwrap();
    let mut rs : RadixSet<Ipv4Cidr> = Default::default();
    rs.insert(&addr1);
    rs.insert(&addr2);

    assert_eq!(
        format_lines(Definition::compress(&rs, false)),
        ["include 0.0.0.0/32\n", "include 128.0.0.0/1\n"].concat()
    );

    assert_eq!(
        format_lines(Definition::compress(&rs, true)),
        ["include 0.0.0.0/1\n", "exclude 0.0.0.0/32\n"].concat()
    );
}

#[test]
fn compress_ipv4_mixed_1b_flipped_1() {
    let addr1 = Ipv4Cidr::from_str("128.0.0.0/2").unwrap();
    let addr2 = Ipv4Cidr::from_str("192.0.0.0/32").unwrap();
    let mut rs : RadixSet<Ipv4Cidr> = Default::default();
    rs.insert(&addr1);
    rs.insert(&addr2);

    assert_eq!(
        format_lines(Definition::compress(&rs, false)),
        ["include 128.0.0.0/2\n", "include 192.0.0.0/32\n"].concat()
    );

    assert_eq!(
        format_lines(Definition::compress(&rs, true)),
        ["include 0.0.0.0/1\n", "include 192.0.0.0/2\n", "exclude 192.0.0.0/32\n"].concat()
    );
}

#[test]
fn compress_ipv4_mixed_1b_flipped_2() {
    let addr1 = Ipv4Cidr::from_str("0.0.0.0/32").unwrap();
    let addr2 = Ipv4Cidr::from_str("64.0.0.0/2").unwrap();
    let mut rs : RadixSet<Ipv4Cidr> = Default::default();
    rs.insert(&addr1);
    rs.insert(&addr2);

    assert_eq!(
        format_lines(Definition::compress(&rs, false)),
        ["include 0.0.0.0/32\n", "include 64.0.0.0/2\n"].concat()
    );

    assert_eq!(
        format_lines(Definition::compress(&rs, true)),
        ["include 0.0.0.0/2\n", "exclude 0.0.0.0/32\n", "include 128.0.0.0/1\n"].concat()
    );
}

#[test]
fn compress_ipv4_mixed_1c_flipped_1() {
    let addr1 = Ipv4Cidr::from_str("128.0.0.0/3").unwrap();
    let addr2 = Ipv4Cidr::from_str("160.0.0.0/32").unwrap();
    let mut rs : RadixSet<Ipv4Cidr> = Default::default();
    rs.insert(&addr1);
    rs.insert(&addr2);

    assert_eq!(
        format_lines(Definition::compress(&rs, false)),
        ["include 128.0.0.0/3\n", "include 160.0.0.0/32\n"].concat()
    );

    assert_eq!(
        format_lines(Definition::compress(&rs, true)),
        ["include 0.0.0.0/0\n", "exclude 128.0.0.0/3\n", "exclude 160.0.0.0/32\n"].concat()
    );
}

#[test]
fn compress_ipv4_mixed_1c_flipped_2() {
    let addr1 = Ipv4Cidr::from_str("0.0.0.0/32").unwrap();
    let addr2 = Ipv4Cidr::from_str("32.0.0.0/3").unwrap();
    let mut rs : RadixSet<Ipv4Cidr> = Default::default();
    rs.insert(&addr1);
    rs.insert(&addr2);

    assert_eq!(
        format_lines(Definition::compress(&rs, false)),
        ["include 0.0.0.0/32\n", "include 32.0.0.0/3\n"].concat()
    );

    assert_eq!(
        format_lines(Definition::compress(&rs, true)),
        ["include 0.0.0.0/0\n", "exclude 0.0.0.0/32\n", "exclude 32.0.0.0/3\n"].concat()
    );
}

#[test]
fn compress_ipv4_mixed_1d_flipped_1() {
    let addr1 = Ipv4Cidr::from_str("128.0.0.0/9").unwrap();
    let addr2 = Ipv4Cidr::from_str("128.128.0.0/32").unwrap();
    let mut rs : RadixSet<Ipv4Cidr> = Default::default();
    rs.insert(&addr1);
    rs.insert(&addr2);

    assert_eq!(
        format_lines(Definition::compress(&rs, false)),
        ["include 128.0.0.0/9\n", "include 128.128.0.0/32\n"].concat()
    );

    assert_eq!(
        format_lines(Definition::compress(&rs, true)),
        ["include 0.0.0.0/0\n", "exclude 128.0.0.0/9\n", "exclude 128.128.0.0/32\n"].concat()
    );
}

#[test]
fn compress_ipv4_mixed_1d_flipped_2() {
    let addr1 = Ipv4Cidr::from_str("0.0.0.0/32").unwrap();
    let addr2 = Ipv4Cidr::from_str("0.128.0.0/9").unwrap();
    let mut rs : RadixSet<Ipv4Cidr> = Default::default();
    rs.insert(&addr1);
    rs.insert(&addr2);

    assert_eq!(
        format_lines(Definition::compress(&rs, false)),
        ["include 0.0.0.0/32\n", "include 0.128.0.0/9\n"].concat()
    );

    assert_eq!(
        format_lines(Definition::compress(&rs, true)),
        ["include 0.0.0.0/0\n", "exclude 0.0.0.0/32\n", "exclude 0.128.0.0/9\n"].concat()
    );
}

#[test]
fn compress_ipv4_mixed_2a() {
    let addr1 = Ipv4Cidr::from_str("0.0.0.0/1").unwrap();
    let addr2 = Ipv4Cidr::from_str("128.0.0.0/32").unwrap();
    let addr3 = Ipv4Cidr::from_str("128.0.1.0/32").unwrap();
    let mut rs : RadixSet<Ipv4Cidr> = Default::default();
    rs.insert(&addr1);
    rs.insert(&addr2);
    rs.insert(&addr3);

    assert_eq!(
        format_lines(Definition::compress(&rs, false)),
        ["include 0.0.0.0/1\n", "include 128.0.0.0/32\n", "include 128.0.1.0/32\n"].concat()
    );

    assert_eq!(
        format_lines(Definition::compress(&rs, true)),
        ["include 128.0.0.0/1\n", "exclude 128.0.0.0/32\n", "exclude 128.0.1.0/32\n"].concat()
    );
}

#[test]
fn compress_ipv4_mixed_2b() {
    let addr1 = Ipv4Cidr::from_str("0.0.0.0/2").unwrap();
    let addr2 = Ipv4Cidr::from_str("64.0.0.0/32").unwrap();
    let addr3 = Ipv4Cidr::from_str("64.0.1.0/32").unwrap();
    let mut rs : RadixSet<Ipv4Cidr> = Default::default();
    rs.insert(&addr1);
    rs.insert(&addr2);
    rs.insert(&addr3);

    assert_eq!(
        format_lines(Definition::compress(&rs, false)),
        ["include 0.0.0.0/2\n", "include 64.0.0.0/32\n", "include 64.0.1.0/32\n"].concat()
    );

    assert_eq!(
        format_lines(Definition::compress(&rs, true)),
        ["include 64.0.0.0/2\n", "exclude 64.0.0.0/32\n", "exclude 64.0.1.0/32\n", "include 128.0.0.0/1\n"].concat()
    );
}

#[test]
fn compress_ipv4_mixed_2c() {
    let addr1 = Ipv4Cidr::from_str("0.0.0.0/3").unwrap();
    let addr2 = Ipv4Cidr::from_str("32.0.0.0/32").unwrap();
    let addr3 = Ipv4Cidr::from_str("32.0.1.0/32").unwrap();
    let mut rs : RadixSet<Ipv4Cidr> = Default::default();
    rs.insert(&addr1);
    rs.insert(&addr2);
    rs.insert(&addr3);

    assert_eq!(
        format_lines(Definition::compress(&rs, false)),
        ["include 0.0.0.0/3\n", "include 32.0.0.0/32\n", "include 32.0.1.0/32\n"].concat()
    );

    assert_eq!(
        format_lines(Definition::compress(&rs, true)),
        ["include 0.0.0.0/0\n", "exclude 0.0.0.0/3\n", "exclude 32.0.0.0/32\n", "exclude 32.0.1.0/32\n"].concat()
    );
}

#[test]
fn compress_ipv4_mixed_2d() {
    let addr1 = Ipv4Cidr::from_str("0.0.0.0/9").unwrap();
    let addr2 = Ipv4Cidr::from_str("0.128.0.0/32").unwrap();
    let addr3 = Ipv4Cidr::from_str("0.128.1.0/32").unwrap();
    let mut rs : RadixSet<Ipv4Cidr> = Default::default();
    rs.insert(&addr1);
    rs.insert(&addr2);
    rs.insert(&addr3);

    assert_eq!(
        format_lines(Definition::compress(&rs, false)),
        ["include 0.0.0.0/9\n", "include 0.128.0.0/32\n", "include 0.128.1.0/32\n"].concat()
    );

    assert_eq!(
        format_lines(Definition::compress(&rs, true)),
        ["include 0.0.0.0/0\n", "exclude 0.0.0.0/9\n", "exclude 0.128.0.0/32\n", "exclude 0.128.1.0/32\n"].concat()
    );
}

#[test]
fn compress_ipv4_mixed_2a_flipped() {
    let addr1 = Ipv4Cidr::from_str("0.0.0.0/32").unwrap();
    let addr2 = Ipv4Cidr::from_str("0.0.1.0/32").unwrap();
    let addr3 = Ipv4Cidr::from_str("128.0.0.0/1").unwrap();
    let mut rs : RadixSet<Ipv4Cidr> = Default::default();
    rs.insert(&addr1);
    rs.insert(&addr2);
    rs.insert(&addr3);

    assert_eq!(
        format_lines(Definition::compress(&rs, false)),
        ["include 0.0.0.0/32\n", "include 0.0.1.0/32\n", "include 128.0.0.0/1\n"].concat()
    );

    assert_eq!(
        format_lines(Definition::compress(&rs, true)),
        ["include 0.0.0.0/1\n", "exclude 0.0.0.0/32\n", "exclude 0.0.1.0/32\n"].concat()
    );
}

#[test]
fn compress_ipv4_mixed_2b_flipped() {
    let addr1 = Ipv4Cidr::from_str("0.0.0.0/32").unwrap();
    let addr2 = Ipv4Cidr::from_str("0.0.1.0/32").unwrap();
    let addr3 = Ipv4Cidr::from_str("64.0.0.0/2").unwrap();
    let mut rs : RadixSet<Ipv4Cidr> = Default::default();
    rs.insert(&addr1);
    rs.insert(&addr2);
    rs.insert(&addr3);

    assert_eq!(
        format_lines(Definition::compress(&rs, false)),
        ["include 0.0.0.0/32\n", "include 0.0.1.0/32\n", "include 64.0.0.0/2\n"].concat()
    );

    assert_eq!(
        format_lines(Definition::compress(&rs, true)),
        ["include 0.0.0.0/2\n", "exclude 0.0.0.0/32\n", "exclude 0.0.1.0/32\n", "include 128.0.0.0/1\n"].concat()
    );
}

#[test]
fn compress_ipv4_mixed_2c_flipped() {
    let addr1 = Ipv4Cidr::from_str("0.0.0.0/32").unwrap();
    let addr2 = Ipv4Cidr::from_str("0.0.1.0/32").unwrap();
    let addr3 = Ipv4Cidr::from_str("32.0.0.0/3").unwrap();
    let mut rs : RadixSet<Ipv4Cidr> = Default::default();
    rs.insert(&addr1);
    rs.insert(&addr2);
    rs.insert(&addr3);

    assert_eq!(
        format_lines(Definition::compress(&rs, false)),
        ["include 0.0.0.0/32\n", "include 0.0.1.0/32\n", "include 32.0.0.0/3\n"].concat()
    );

    assert_eq!(
        format_lines(Definition::compress(&rs, true)),
        ["include 0.0.0.0/0\n", "exclude 0.0.0.0/32\n", "exclude 0.0.1.0/32\n", "exclude 32.0.0.0/3\n"].concat()
    );
}

#[test]
fn compress_ipv4_mixed_2d_flipped() {
    let addr1 = Ipv4Cidr::from_str("0.0.0.0/32").unwrap();
    let addr2 = Ipv4Cidr::from_str("0.0.1.0/32").unwrap();
    let addr3 = Ipv4Cidr::from_str("0.128.0.0/9").unwrap();
    let mut rs : RadixSet<Ipv4Cidr> = Default::default();
    rs.insert(&addr1);
    rs.insert(&addr2);
    rs.insert(&addr3);

    assert_eq!(
        format_lines(Definition::compress(&rs, false)),
        ["include 0.0.0.0/32\n", "include 0.0.1.0/32\n", "include 0.128.0.0/9\n"].concat()
    );

    assert_eq!(
        format_lines(Definition::compress(&rs, true)),
        ["include 0.0.0.0/0\n", "exclude 0.0.0.0/32\n", "exclude 0.0.1.0/32\n", "exclude 0.128.0.0/9\n"].concat()
    );
}

#[test]
fn compress_ipv4_mixed_3() {
    let addr1 = Ipv4Cidr::from_str("0.0.0.0/32").unwrap();
    let addr2 = Ipv4Cidr::from_str("128.0.0.0/32").unwrap();
    let mut rs : RadixSet<Ipv4Cidr> = Default::default();
    rs.insert(&addr1);
    rs.insert(&addr2);

    assert_eq!(
        format_lines(Definition::compress(&rs, false)),
        ["include 0.0.0.0/32\n", "include 128.0.0.0/32\n"].concat()
    );

    assert_eq!(
        format_lines(Definition::compress(&rs, true)),
        ["include 0.0.0.0/0\n", "exclude 0.0.0.0/32\n", "exclude 128.0.0.0/32\n"].concat()
    );
}

#[test]
fn compress_ipv4_mixed_4() {
    let addr1 = Ipv4Cidr::from_str("128.0.0.0/32").unwrap();
    let addr2 = Ipv4Cidr::from_str("128.1.0.0/32").unwrap();
    let mut rs : RadixSet<Ipv4Cidr> = Default::default();
    rs.insert(&addr1);
    rs.insert(&addr2);

    assert_eq!(
        format_lines(Definition::compress(&rs, false)),
        ["include 128.0.0.0/32\n", "include 128.1.0.0/32\n"].concat()
    );

    assert_eq!(
        format_lines(Definition::compress(&rs, true)),
        ["include 0.0.0.0/0\n", "exclude 128.0.0.0/32\n", "exclude 128.1.0.0/32\n"].concat()
    );
}
