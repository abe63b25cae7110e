use cidr_compress::address::Ipv4Address;
use cidr_compress::bitstrings::BitString;
use cidr_compress::cidr::{IpCidr, Ipv4Cidr};
use cidr_compress::radixset::def::Definition;
use cidr_compress::radixset::{Node, RadixSet};

const WIDTH: u8 = 6;

/// The prefix of `len` bits whose bits are the high bits of `bits`.
fn prefix(bits: u8, len: u8) -> Ipv4Cidr {
    let mut cidr = IpCidr { address: Ipv4Address { octets: [bits, 0, 0, 0] }, network_length: 32 };
    cidr.clip(len as usize);
    cidr
}

/// The addresses of the small address space: those below `WIDTH` bits.
fn addresses() -> Vec<Ipv4Cidr> {
    (0..(1u16 << WIDTH)).map(|n| prefix((n << (8 - WIDTH)) as u8, 32)).collect()
}

fn covers(p: &Ipv4Cidr, a: &Ipv4Cidr) -> bool {
    p.len() <= a.len() && p.shared_prefix_len(a) == p.len()
}

fn verdict(rules: &[Definition<Ipv4Cidr>], a: &Ipv4Cidr) -> bool {
    let mut verdict = false;
    for rule in rules {
        if covers(&rule.prefix, a) {
            verdict = rule.included;
        }
    }
    verdict
}

struct Random(u64);

impl Random {
    fn next(&mut self, bound: u64) -> u64 {
        self.0 = self.0.wrapping_mul(6364136223846793005).wrapping_add(1442695040888963407);
        (self.0 >> 33) % bound
    }

    fn prefixes(&mut self) -> Vec<Ipv4Cidr> {
        let count = self.next(7);
        (0..count)
            .map(|_| {
                let len = self.next(WIDTH as u64 + 1) as u8;
                let bits = self.next(256) as u8;
                prefix(bits, len)
            })
            .collect()
    }
}

fn set_of(keys: &[Ipv4Cidr]) -> RadixSet<Ipv4Cidr> {
    let mut set: RadixSet<Ipv4Cidr> = Default::default();
    for key in keys {
        set.insert(key);
    }
    set
}

fn shape_of(node: &Node<Ipv4Cidr>) -> String {
    match node {
        Node::Leaf(leaf) => format!("[{}]", leaf.key().to_string()),
        Node::InnerNode(inner) => format!(
            "({} {} {})",
            inner.key().to_string(),
            shape_of(inner.left()),
            shape_of(inner.right())
        ),
    }
}

fn shape(set: &RadixSet<Ipv4Cidr>) -> String {
    match set.root() {
        None => String::new(),
        Some(node) => shape_of(node),
    }
}

fn leaves_of(node: &Node<Ipv4Cidr>, out: &mut Vec<Ipv4Cidr>) {
    match node {
        Node::Leaf(leaf) => out.push(leaf.key().clone()),
        Node::InnerNode(inner) => {
            leaves_of(inner.left(), out);
            leaves_of(inner.right(), out);
        }
    }
}

fn leaves(set: &RadixSet<Ipv4Cidr>) -> Vec<Ipv4Cidr> {
    let mut out = Vec::new();
    if let Some(node) = set.root() {
        leaves_of(node, &mut out);
    }
    out
}

fn check_invariants(node: &Node<Ipv4Cidr>) {
    if let Node::InnerNode(inner) = node {
        let key = inner.key();
        for (child, right) in [(inner.left(), false), (inner.right(), true)] {
            assert!(key.len() < child.key().len());
            assert_eq!(key.shared_prefix_len(child.key()), key.len());
            assert_eq!(child.key().get(key.len()), right);
            check_invariants(child);
        }
        let folds = |child: &Node<Ipv4Cidr>| {
            matches!(child, Node::Leaf(_)) && child.key().len() == key.len() + 1
        };
        assert!(!(folds(inner.left()) && folds(inner.right())));
    }
}

#[test]
fn inserting_twice_changes_nothing() {
    let mut random = Random(1);
    for _ in 0..300 {
        let keys = random.prefixes();
        let mut set = set_of(&keys);
        for key in &keys {
            let before = shape(&set);
            set.insert(key);
            assert_eq!(shape(&set), before);
        }
    }
}

#[test]
fn inserting_below_a_member_changes_nothing() {
    let mut set = set_of(&[prefix(0b1010_0000, 3), prefix(0b0100_0000, 2)]);
    let before = shape(&set);
    assert_eq!(before, "(0.0.0.0/0 [64.0.0.0/2] [160.0.0.0/3])");
    set.insert(&prefix(0b1011_0000, 5));
    set.insert(&prefix(0b0111_1100, 6));
    set.insert(&prefix(0b1010_0000, 3));
    assert_eq!(shape(&set), before);
}

#[test]
fn inserting_above_members_removes_them() {
    let mut set = set_of(&[
        prefix(0b1010_0000, 6),
        prefix(0b1011_0000, 5),
        prefix(0b1000_0000, 4),
        prefix(0b0100_0000, 2),
    ]);
    assert_eq!(
        shape(&set),
        "(0.0.0.0/0 [64.0.0.0/2] (128.0.0.0/2 [128.0.0.0/4] (160.0.0.0/3 [160.0.0.0/6] [176.0.0.0/5])))"
    );
    set.insert(&prefix(0b1000_0000, 2));
    assert_eq!(shape(&set), "(0.0.0.0/0 [64.0.0.0/2] [128.0.0.0/2])");
    for leaf in leaves(&set) {
        let key = prefix(0b1000_0000, 2);
        assert!(!(covers(&key, &leaf) && leaf.len() > key.len()));
    }
    set.insert(&prefix(0, 0));
    assert_eq!(shape(&set), "[0.0.0.0/0]");
}

#[test]
fn sibling_leaves_are_folded() {
    let mut set = set_of(&[prefix(0b1010_0000, 4), prefix(0b1011_0000, 4)]);
    assert_eq!(shape(&set), "[160.0.0.0/3]");
    set.insert(&prefix(0b1000_0000, 3));
    assert_eq!(shape(&set), "[128.0.0.0/2]");
    set.insert(&prefix(0b1100_0000, 3));
    assert_eq!(shape(&set), "(128.0.0.0/1 [128.0.0.0/2] [192.0.0.0/3])");
    set.insert(&prefix(0b1110_0000, 3));
    assert_eq!(shape(&set), "[128.0.0.0/1]");
    set.insert(&prefix(0b0000_0000, 1));
    assert_eq!(shape(&set), "[0.0.0.0/0]");
}

#[test]
fn tree_invariants_hold_after_insertions() {
    let mut random = Random(2);
    for _ in 0..300 {
        let keys = random.prefixes();
        let mut set: RadixSet<Ipv4Cidr> = Default::default();
        for key in &keys {
            set.insert(key);
            if let Some(root) = set.root() {
                check_invariants(root);
            }
            let leaves = leaves(&set);
            for (i, p) in leaves.iter().enumerate() {
                for (j, q) in leaves.iter().enumerate() {
                    assert!(i == j || !covers(p, q));
                }
            }
        }
    }
}

#[test]
fn members_are_what_the_inputs_cover() {
    let mut random = Random(3);
    for _ in 0..300 {
        let keys = random.prefixes();
        let leaves = leaves(&set_of(&keys));
        for a in addresses() {
            let covered = keys.iter().any(|key| covers(key, &a));
            let member = leaves.iter().any(|leaf| covers(leaf, &a));
            assert_eq!(member, covered);
        }
    }
}

#[test]
fn shape_depends_on_the_members_only() {
    let mut random = Random(4);
    for _ in 0..300 {
        let keys = random.prefixes();
        let mut reversed = keys.clone();
        reversed.reverse();
        assert_eq!(shape(&set_of(&keys)), shape(&set_of(&reversed)));
        let mut split = Vec::new();
        for key in &keys {
            if key.len() < WIDTH as usize {
                let mut zero = key.clone();
                zero.append(false);
                let mut one = key.clone();
                one.append(true);
                split.push(one);
                split.push(zero);
            } else {
                split.push(key.clone());
            }
        }
        assert_eq!(shape(&set_of(&keys)), shape(&set_of(&split)));
    }
}

#[test]
fn renderings_include_what_the_inputs_cover() {
    let mut random = Random(5);
    for _ in 0..300 {
        let keys = random.prefixes();
        let set = set_of(&keys);
        for invert in [false, true] {
            let compress = Definition::compress(&set, invert);
            let complete = Definition::complete(&set, invert);
            let aggregate = Definition::aggregate(&set, invert);
            for a in addresses() {
                let covered = keys.iter().any(|key| covers(key, &a));
                assert_eq!(verdict(&compress, &a), covered != invert);
                assert_eq!(verdict(&complete, &a), covered != invert);
                assert_eq!(verdict(&aggregate, &a), covered != invert);
            }
        }
    }
}

#[test]
fn inverted_complete_is_complete_with_polarity_flipped() {
    let mut random = Random(6);
    for _ in 0..300 {
        let set = set_of(&random.prefixes());
        let plain = Definition::complete(&set, false);
        let inverted = Definition::complete(&set, true);
        assert_eq!(plain.len(), inverted.len());
        for (p, q) in plain.iter().zip(inverted.iter()) {
            assert_eq!(p.prefix.to_string(), q.prefix.to_string());
            assert_eq!(p.included, !q.included);
        }
    }
}

#[test]
fn complete_is_a_sorted_partition() {
    let mut random = Random(7);
    for _ in 0..300 {
        let set = set_of(&random.prefixes());
        for invert in [false, true] {
            let complete = Definition::complete(&set, invert);
            for pair in complete.windows(2) {
                let first = u32::from_be_bytes(pair[0].prefix.address.octets);
                let second = u32::from_be_bytes(pair[1].prefix.address.octets);
                assert!(first < second);
            }
            for a in addresses() {
                let covering = complete.iter().filter(|d| covers(&d.prefix, &a)).count();
                assert_eq!(covering, 1);
            }
        }
    }
}

#[test]
fn aggregate_is_the_included_part_of_complete() {
    let mut random = Random(8);
    for _ in 0..300 {
        let set = set_of(&random.prefixes());
        for invert in [false, true] {
            let complete = Definition::complete(&set, invert);
            let aggregate = Definition::aggregate(&set, invert);
            let expected: Vec<String> =
                complete.iter().filter(|d| d.included).map(|d| d.prefix.to_string()).collect();
            let found: Vec<String> = aggregate.iter().map(|d| d.prefix.to_string()).collect();
            assert_eq!(found, expected);
            assert!(aggregate.iter().all(|d| d.included));
            for (i, p) in aggregate.iter().enumerate() {
                for (j, q) in aggregate.iter().enumerate() {
                    assert!(i == j || !covers(&p.prefix, &q.prefix));
                }
            }
        }
    }
    let set = set_of(&[prefix(0b1010_0000, 4), prefix(0b1011_0000, 4), prefix(0b0000_0000, 6)]);
    let found: Vec<String> =
        Definition::aggregate(&set, false).iter().map(|d| d.prefix.to_string()).collect();
    assert_eq!(found, ["0.0.0.0/6", "160.0.0.0/3"]);
    let found: Vec<String> =
        Definition::aggregate(&set, true).iter().map(|d| d.prefix.to_string()).collect();
    assert_eq!(
        found,
        ["4.0.0.0/6", "8.0.0.0/5", "16.0.0.0/4", "32.0.0.0/3", "64.0.0.0/2", "128.0.0.0/3", "192.0.0.0/2"]
    );
}

#[test]
fn compress_is_short() {
    let mut random = Random(9);
    for _ in 0..300 {
        let set = set_of(&random.prefixes());
        let leaves = leaves(&set).len();
        assert!(Definition::compress(&set, false).len() <= leaves.max(1));
        assert!(Definition::compress(&set, true).len() <= leaves + 1);
    }
}

#[test]
fn compress_starts_with_an_include() {
    let mut random = Random(10);
    for _ in 0..300 {
        let set = set_of(&random.prefixes());
        for invert in [false, true] {
            let compress = Definition::compress(&set, invert);
            assert!(compress.is_empty() || compress[0].included);
        }
    }
}

fn all_prefixes() -> Vec<Ipv4Cidr> {
    let mut out = Vec::new();
    for len in 0..=WIDTH {
        for n in 0..(1u16 << len) {
            let bits = if len == 0 { 0 } else { (n << (8 - len)) as u8 };
            out.push(prefix(bits, len));
        }
    }
    out
}

#[test]
fn consecutive_compress_rules_cannot_be_merged() {
    let candidates = all_prefixes();
    let addresses = addresses();
    let mut random = Random(11);
    for _ in 0..60 {
        let set = set_of(&random.prefixes());
        for invert in [false, true] {
            let rules = Definition::compress(&set, invert);
            let verdicts: Vec<bool> = addresses.iter().map(|a| verdict(&rules, a)).collect();
            for i in 0..rules.len().saturating_sub(1) {
                for candidate in &candidates {
                    for included in [false, true] {
                        let mut merged: Vec<Definition<Ipv4Cidr>> = Vec::new();
                        merged.extend(rules[..i].iter().cloned());
                        merged.push(Definition { prefix: candidate.clone(), included });
                        merged.extend(rules[i + 2..].iter().cloned());
                        let same = addresses
                            .iter()
                            .zip(verdicts.iter())
                            .all(|(a, v)| verdict(&merged, a) == *v);
                        assert!(!same);
                    }
                }
            }
        }
    }
}
