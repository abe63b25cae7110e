//! IP addresses as fixed bit strings, and their text forms.
use vstd::prelude::*;
use crate::bitstrings::{
    bits_of, lemma_bytes_unique, lemma_zero_bits, BigEndianBits, FixedBitString,
};
use crate::text::{
    decimal, double_position, field_end, find_double, find_field_end, hex_group, hexadecimal,
    push_decimal, push_hexadecimal, read_hex_group, read_small_number, slice_of, small_number,
};

verus! {

/// An IPv4 address: 32 bits in four octets, the first octet first.
#[derive(Clone, Copy, Debug, PartialEq, Eq, Hash)]
pub struct Ipv4Address {
    pub octets: [u8; 4],
}

/// An IPv6 address: 128 bits in sixteen octets, the first octet first.
#[derive(Clone, Copy, Debug, PartialEq, Eq, Hash)]
pub struct Ipv6Address {
    pub octets: [u8; 16],
}

proof fn lemma_ipv4_cloned(a: Ipv4Address, b: Ipv4Address)
    requires
        cloned::<Ipv4Address>(a, b),
    ensures
        a == b,
{
}

proof fn lemma_ipv6_cloned(a: Ipv6Address, b: Ipv6Address)
    requires
        cloned::<Ipv6Address>(a, b),
    ensures
        a == b,
{
}

impl FixedBitString for Ipv4Address {
    open spec fn bits(&self) -> Seq<bool> {
        bits_of(self.octets@)
    }

    open spec fn width() -> nat {
        32
    }

    proof fn lemma_width(&self) {
    }

    proof fn lemma_cloned(a: &Self, b: &Self) {
        lemma_ipv4_cloned(*a, *b);
    }

    proof fn lemma_bits_unique(a: &Self, b: &Self) {
        lemma_bytes_unique(a.octets@, b.octets@);
        assert(a.octets =~= b.octets);
    }

    fn get(&self, ndx: usize) -> (bit: bool) {
        BigEndianBits::<u8>::get(&self.octets, ndx)
    }

    fn set(&mut self, ndx: usize, bit: bool) {
        let mut o = self.octets;
        BigEndianBits::<u8>::set(&mut o, ndx, bit);
        *self = Ipv4Address { octets: o };
    }

    fn flip(&mut self, ndx: usize) {
        let mut o = self.octets;
        BigEndianBits::<u8>::flip(&mut o, ndx);
        *self = Ipv4Address { octets: o };
    }

    fn zerofrom(&mut self, ndx: usize) {
        let mut o = self.octets;
        BigEndianBits::<u8>::zerofrom(&mut o, ndx);
        *self = Ipv4Address { octets: o };
    }

    fn null() -> (r: Self) {
        let r = Ipv4Address { octets: [0, 0, 0, 0] };
        proof {
            lemma_zero_bits(r.octets@);
        }
        r
    }
}

impl FixedBitString for Ipv6Address {
    open spec fn bits(&self) -> Seq<bool> {
        bits_of(self.octets@)
    }

    open spec fn width() -> nat {
        128
    }

    proof fn lemma_width(&self) {
    }

    proof fn lemma_cloned(a: &Self, b: &Self) {
        lemma_ipv6_cloned(*a, *b);
    }

    proof fn lemma_bits_unique(a: &Self, b: &Self) {
        lemma_bytes_unique(a.octets@, b.octets@);
        assert(a.octets =~= b.octets);
    }

    fn get(&self, ndx: usize) -> (bit: bool) {
        BigEndianBits::<u8>::get(&self.octets, ndx)
    }

    fn set(&mut self, ndx: usize, bit: bool) {
        let mut o = self.octets;
        BigEndianBits::<u8>::set(&mut o, ndx, bit);
        *self = Ipv6Address { octets: o };
    }

    fn flip(&mut self, ndx: usize) {
        let mut o = self.octets;
        BigEndianBits::<u8>::flip(&mut o, ndx);
        *self = Ipv6Address { octets: o };
    }

    fn zerofrom(&mut self, ndx: usize) {
        let mut o = self.octets;
        BigEndianBits::<u8>::zerofrom(&mut o, ndx);
        *self = Ipv6Address { octets: o };
    }

    fn null() -> (r: Self) {
        let r = Ipv6Address { octets: [0, 0, 0, 0, 0, 0, 0, 0, 0, 0, 0, 0, 0, 0, 0, 0] };
        proof {
            lemma_zero_bits(r.octets@);
        }
        r
    }
}

/// The octet that `s` spells as std reads it in a dotted quad: one to
/// three decimal digits without a leading zero, at most 255.
pub open spec fn octet_of(s: Seq<char>) -> Option<u8> {
    if s.len() <= 3 && (s.len() == 1 || s[0] != '0') {
        small_number(s)
    } else {
        None
    }
}

/// The four octets that the dotted quad `s` spells, if it is one.
pub open spec fn ipv4_octets_of(s: Seq<char>) -> Option<Seq<u8>> {
    let e0 = field_end(s, 0, '.');
    let e1 = field_end(s, e0 + 1, '.');
    let e2 = field_end(s, e1 + 1, '.');
    let e3 = field_end(s, e2 + 1, '.');
    if e2 < s.len() && e3 == s.len() {
        match (
            octet_of(s.subrange(0, e0)),
            octet_of(s.subrange(e0 + 1, e1)),
            octet_of(s.subrange(e1 + 1, e2)),
            octet_of(s.subrange(e2 + 1, e3)),
        ) {
            (Some(a), Some(b), Some(c), Some(d)) => Some(seq![a, b, c, d]),
            _ => None,
        }
    } else {
        None
    }
}

/// The dotted quad of four octets.
pub open spec fn ipv4_text(o: Seq<u8>) -> Seq<char> {
    decimal(o[0] as nat) + seq!['.'] + decimal(o[1] as nat) + seq!['.'] + decimal(o[2] as nat)
        + seq!['.'] + decimal(o[3] as nat)
}

fn read_octet(s: &Vec<char>, from: usize, to: usize) -> (r: Option<u8>)
    requires
        from <= to <= s@.len(),
    ensures
        r == octet_of(s@.subrange(from as int, to as int)),
{
    let part = slice_of(s, from, to);
    if part.len() > 3 || (part.len() != 1 && part.len() > 0 && part[0] == '0') {
        return None;
    }
    read_small_number(&part)
}

impl Ipv4Address {
    /// The address that the dotted quad `s` spells, if it is one.
    pub open spec fn parsed(s: Seq<char>) -> Option<Ipv4Address> {
        match ipv4_octets_of(s) {
            Some(o) => Some(Ipv4Address { octets: [o[0], o[1], o[2], o[3]] }),
            None => None,
        }
    }

    /// The address as a dotted quad.
    pub open spec fn text(&self) -> Seq<char> {
        ipv4_text(self.octets@)
    }

    /// Reads a dotted quad.
    pub fn from_chars(s: &Vec<char>) -> (r: Option<Ipv4Address>)
        ensures
            r == Self::parsed(s@),
    {
        let n = s.len();
        let e0 = find_field_end(s, 0, '.');
        if e0 >= n {
            return None;
        }
        let e1 = find_field_end(s, e0 + 1, '.');
        if e1 >= n {
            return None;
        }
        let e2 = find_field_end(s, e1 + 1, '.');
        if e2 >= n {
            return None;
        }
        let e3 = find_field_end(s, e2 + 1, '.');
        if e3 != n {
            return None;
        }
        let a = read_octet(s, 0, e0);
        let b = read_octet(s, e0 + 1, e1);
        let c = read_octet(s, e1 + 1, e2);
        let d = read_octet(s, e2 + 1, e3);
        match (a, b, c, d) {
            (Some(a), Some(b), Some(c), Some(d)) => Some(Ipv4Address { octets: [a, b, c, d] }),
            _ => None,
        }
    }

    /// Writes the address as a dotted quad.
    pub fn to_chars(&self) -> (r: Vec<char>)
        ensures
            r@ == self.text(),
    {
        let mut out: Vec<char> = Vec::new();
        push_decimal(&mut out, self.octets[0]);
        out.push('.');
        push_decimal(&mut out, self.octets[1]);
        out.push('.');
        push_decimal(&mut out, self.octets[2]);
        out.push('.');
        push_decimal(&mut out, self.octets[3]);
        assert(out@ =~= self.text());
        out
    }
}

/// The group of 16 bits made of two octets, the high octet first.
pub open spec fn group_of(high: u8, low: u8) -> u16 {
    (high * 256 + low) as u16
}

/// With `rest` the groups of the remaining text, the groups of the
/// whole: `front` followed by `rest`.
pub open spec fn groups_after(front: Seq<u16>, rest: Option<Seq<u16>>) -> Option<Seq<u16>> {
    match rest {
        Some(groups) => Some(front + groups),
        None => None,
    }
}

/// The groups that the last field `field` of an address stands for: one
/// group in hexadecimal digits or, where `allow_v4` is set, the two
/// groups of a dotted quad.
pub open spec fn last_groups(field: Seq<char>, allow_v4: bool) -> Option<Seq<u16>> {
    match hex_group(field) {
        Some(g) => Some(seq![g]),
        None => if allow_v4 {
            match ipv4_octets_of(field) {
                Some(o) => Some(seq![group_of(o[0], o[1]), group_of(o[2], o[3])]),
                None => None,
            }
        } else {
            None
        },
    }
}

/// The groups that the fields of `s` from position `start` on stand
/// for, the fields being separated by single colons.
pub open spec fn groups_from(s: Seq<char>, start: int, allow_v4: bool) -> Option<Seq<u16>>
    decreases s.len() - start,
{
    let end = field_end(s, start, ':');
    let field = s.subrange(start, end);
    if end >= s.len() {
        last_groups(field, allow_v4)
    } else if end < start {
        None
    } else {
        match hex_group(field) {
            Some(g) => groups_after(seq![g], groups_from(s, end + 1, allow_v4)),
            None => None,
        }
    }
}

/// The groups that the text `s` stands for: none where it is empty,
/// else one for each of its fields.
pub open spec fn groups_of(s: Seq<char>, allow_v4: bool) -> Option<Seq<u16>> {
    if s.len() == 0 {
        Some(Seq::empty())
    } else {
        groups_from(s, 0, allow_v4)
    }
}

/// The eight groups that the text `s` stands for.  Without a double
/// colon it holds all eight.  Otherwise the double colon stands for as
/// many zero groups as are missing, and for one at least; before it
/// stand groups in hexadecimal digits only.  The last field may be a
/// dotted quad, which stands for two groups.
pub open spec fn ipv6_groups_of(s: Seq<char>) -> Option<Seq<u16>> {
    match double_position(s, ':', 0) {
        None => match groups_of(s, true) {
            Some(g) => if g.len() == 8 {
                Some(g)
            } else {
                None
            },
            None => None,
        },
        Some(p) => match (
            groups_of(s.subrange(0, p), false),
            groups_of(s.subrange(p + 2, s.len() as int), true),
        ) {
            (Some(h), Some(t)) => if h.len() + t.len() <= 7 {
                Some(h + Seq::new((8 - h.len() - t.len()) as nat, |i: int| 0u16) + t)
            } else {
                None
            },
            _ => None,
        },
    }
}

/// The address made of eight groups.
pub open spec fn address_of_groups(g: Seq<u16>) -> Ipv6Address {
    Ipv6Address {
        octets: [
            (g[0] / 256) as u8,
            (g[0] % 256) as u8,
            (g[1] / 256) as u8,
            (g[1] % 256) as u8,
            (g[2] / 256) as u8,
            (g[2] % 256) as u8,
            (g[3] / 256) as u8,
            (g[3] % 256) as u8,
            (g[4] / 256) as u8,
            (g[4] % 256) as u8,
            (g[5] / 256) as u8,
            (g[5] % 256) as u8,
            (g[6] / 256) as u8,
            (g[6] % 256) as u8,
            (g[7] / 256) as u8,
            (g[7] % 256) as u8,
        ],
    }
}

fn read_groups(s: &Vec<char>, allow_v4: bool) -> (r: Option<Vec<u16>>)
    ensures
        r matches Some(groups) ==> groups_of(s@, allow_v4) == Some(groups@),
        r is None ==> groups_of(s@, allow_v4) is None,
{
    let n = s.len();
    let mut acc: Vec<u16> = Vec::new();
    if n == 0 {
        return Some(acc);
    }
    let mut start: usize = 0;
    proof {
        let all = groups_from(s@, 0, allow_v4);
        if all is Some {
            assert(Seq::<u16>::empty() + all.unwrap() =~= all.unwrap());
        }
    }
    loop
        invariant
            n == s@.len(),
            n > 0,
            start <= n,
            groups_from(s@, 0, allow_v4) == groups_after(
                acc@,
                groups_from(s@, start as int, allow_v4),
            ),
        decreases n - start,
    {
        let end = find_field_end(s, start, ':');
        let field = slice_of(s, start, end);
        let ghost rest = groups_from(s@, start as int, allow_v4);
        match read_hex_group(&field) {
            Some(g) => {
                let ghost before = acc@;
                acc.push(g);
                if end >= n {
                    assert(before + seq![g] =~= acc@);
                    return Some(acc);
                }
                proof {
                    let after = groups_from(s@, end + 1, allow_v4);
                    if after is Some {
                        assert(before + (seq![g] + after.unwrap()) =~= acc@ + after.unwrap());
                    }
                }
                start = end + 1;
            },
            None => {
                if end >= n && allow_v4 {
                    match Ipv4Address::from_chars(&field) {
                        Some(a) => {
                            let ghost before = acc@;
                            let ghost o = ipv4_octets_of(field@).unwrap();
                            let high = (a.octets[0] as u16) * 256 + (a.octets[1] as u16);
                            let low = (a.octets[2] as u16) * 256 + (a.octets[3] as u16);
                            acc.push(high);
                            acc.push(low);
                            assert(before + seq![group_of(o[0], o[1]), group_of(o[2], o[3])]
                                =~= acc@);
                            return Some(acc);
                        },
                        None => {
                            return None;
                        },
                    }
                }
                return None;
            },
        }
    }
}

/// The eight groups of sixteen octets.
pub open spec fn groups_of_octets(o: Seq<u8>) -> Seq<u16> {
    Seq::new(8, |i: int| group_of(o[2 * i], o[2 * i + 1]))
}

/// The number of zero groups in a row from position `i` on.
pub open spec fn zero_run(g: Seq<u16>, i: int) -> nat
    decreases g.len() - i,
{
    if 0 <= i < g.len() && g[i] == 0 {
        1 + zero_run(g, i + 1)
    } else {
        0
    }
}

/// Start and length of the longest row of zero groups that starts
/// before position `upto`, the first one among rows of equal length.
pub open spec fn longest_zero_run(g: Seq<u16>, upto: int) -> (int, nat)
    decreases upto,
{
    if upto <= 0 {
        (0int, 0nat)
    } else {
        let before = longest_zero_run(g, upto - 1);
        let here = zero_run(g, upto - 1);
        if here > before.1 {
            (upto - 1, here)
        } else {
            before
        }
    }
}

/// The groups in hexadecimal digits, with colons between them.
pub open spec fn joined_hex(g: Seq<u16>) -> Seq<char>
    decreases g.len(),
{
    if g.len() == 0 {
        Seq::empty()
    } else if g.len() == 1 {
        hexadecimal(g[0] as nat)
    } else {
        joined_hex(g.drop_last()) + seq![':'] + hexadecimal(g.last() as nat)
    }
}

/// The groups are those of an IPv4 address mapped into IPv6: five zero
/// groups and a group of ones come first.
pub open spec fn is_v4_mapped(g: Seq<u16>) -> bool {
    g[0] == 0 && g[1] == 0 && g[2] == 0 && g[3] == 0 && g[4] == 0 && g[5] == 0xffff
}

/// The text form of sixteen octets as an IPv6 address: groups in lower
/// case hexadecimal digits without leading zeros, the longest row of
/// two or more zero groups replaced by a double colon.  A mapped IPv4
/// address ends in its dotted quad.
pub open spec fn ipv6_text(o: Seq<u8>) -> Seq<char> {
    let g = groups_of_octets(o);
    if is_v4_mapped(g) {
        seq![':', ':', 'f', 'f', 'f', 'f', ':'] + ipv4_text(o.subrange(12, 16))
    } else {
        let (start, len) = longest_zero_run(g, 8);
        if len > 1 {
            joined_hex(g.take(start)) + seq![':', ':'] + joined_hex(g.skip(start + len))
        } else {
            joined_hex(g)
        }
    }
}

fn count_zero_run(g: &Vec<u16>, i: usize) -> (r: usize)
    requires
        i <= g@.len(),
    ensures
        r == zero_run(g@, i as int),
        i + r <= g@.len(),
{
    let n = g.len();
    let mut j = i;
    while j < n && g[j] == 0
        invariant
            i <= j <= n,
            n == g@.len(),
            zero_run(g@, i as int) == (j - i) + zero_run(g@, j as int),
        decreases n - j,
    {
        j += 1;
    }
    j - i
}

fn push_joined_hex(out: &mut Vec<char>, g: &Vec<u16>, from: usize, to: usize)
    requires
        from <= to <= g@.len(),
    ensures
        final(out)@ == old(out)@ + joined_hex(g@.subrange(from as int, to as int)),
{
    let mut i = from;
    assert(out@ =~= old(out)@ + joined_hex(g@.subrange(from as int, from as int)));
    while i < to
        invariant
            from <= i <= to,
            to <= g@.len(),
            out@ == old(out)@ + joined_hex(g@.subrange(from as int, i as int)),
        decreases to - i,
    {
        let ghost before = out@;
        if i > from {
            out.push(':');
        }
        push_hexadecimal(out, g[i]);
        proof {
            let part = g@.subrange(from as int, i + 1);
            assert(part.drop_last() =~= g@.subrange(from as int, i as int));
            assert(part.last() == g@[i as int]);
            if i > from {
                assert(out@ =~= old(out)@ + (joined_hex(part.drop_last()) + seq![':']
                    + hexadecimal(g@[i as int] as nat)));
            } else {
                assert(part.len() == 1);
                assert(joined_hex(part.drop_last()) =~= Seq::<char>::empty());
                assert(out@ =~= old(out)@ + hexadecimal(g@[i as int] as nat));
            }
        }
        i += 1;
    }
}

impl Ipv6Address {
    /// The address in its text form.
    pub open spec fn text(&self) -> Seq<char> {
        ipv6_text(self.octets@)
    }

    /// Writes the address in its text form.
    pub fn to_chars(&self) -> (r: Vec<char>)
        ensures
            r@ == self.text(),
    {
        let mut g: Vec<u16> = Vec::new();
        let mut i: usize = 0;
        while i < 8
            invariant
                i <= 8,
                g@.len() == i,
                forall|j: int| 0 <= j < i ==> g@[j] == groups_of_octets(self.octets@)[j],
            decreases 8 - i,
        {
            g.push((self.octets[2 * i] as u16) * 256 + (self.octets[2 * i + 1] as u16));
            i += 1;
        }
        assert(g@ =~= groups_of_octets(self.octets@));
        let mut out: Vec<char> = Vec::new();
        if g[0] == 0 && g[1] == 0 && g[2] == 0 && g[3] == 0 && g[4] == 0 && g[5] == 0xffff {
            out.push(':');
            out.push(':');
            out.push('f');
            out.push('f');
            out.push('f');
            out.push('f');
            out.push(':');
            push_decimal(&mut out, self.octets[12]);
            out.push('.');
            push_decimal(&mut out, self.octets[13]);
            out.push('.');
            push_decimal(&mut out, self.octets[14]);
            out.push('.');
            push_decimal(&mut out, self.octets[15]);
            assert(out@ =~= self.text());
            return out;
        }
        let mut start: usize = 0;
        let mut len: usize = 0;
        let mut k: usize = 0;
        while k < 8
            invariant
                k <= 8,
                g@.len() == 8,
                longest_zero_run(g@, k as int) == (start as int, len as nat),
                start + len <= 8,
            decreases 8 - k,
        {
            let here = count_zero_run(&g, k);
            if here > len {
                start = k;
                len = here;
            }
            k += 1;
        }
        if len > 1 {
            push_joined_hex(&mut out, &g, 0, start);
            out.push(':');
            out.push(':');
            push_joined_hex(&mut out, &g, start + len, 8);
            assert(g@.subrange(0, start as int) =~= g@.take(start as int));
            assert(g@.subrange(start + len, 8) =~= g@.skip(start + len));
            assert(out@ =~= self.text());
        } else {
            push_joined_hex(&mut out, &g, 0, 8);
            assert(g@.subrange(0, 8) =~= g@);
        }
        out
    }

    /// The address that the text `s` stands for, if it stands for one.
    pub open spec fn parsed(s: Seq<char>) -> Option<Ipv6Address> {
        match ipv6_groups_of(s) {
            Some(g) => Some(address_of_groups(g)),
            None => None,
        }
    }

    fn from_groups(g: &Vec<u16>) -> (r: Ipv6Address)
        requires
            g@.len() == 8,
        ensures
            r == address_of_groups(g@),
    {
        Ipv6Address {
            octets: [
                (g[0] / 256) as u8,
                (g[0] % 256) as u8,
                (g[1] / 256) as u8,
                (g[1] % 256) as u8,
                (g[2] / 256) as u8,
                (g[2] % 256) as u8,
                (g[3] / 256) as u8,
                (g[3] % 256) as u8,
                (g[4] / 256) as u8,
                (g[4] % 256) as u8,
                (g[5] / 256) as u8,
                (g[5] % 256) as u8,
                (g[6] / 256) as u8,
                (g[6] % 256) as u8,
                (g[7] / 256) as u8,
                (g[7] % 256) as u8,
            ],
        }
    }

    /// Reads an address in groups of hexadecimal digits between colons.
    pub fn from_chars(s: &Vec<char>) -> (r: Option<Ipv6Address>)
        ensures
            r == Self::parsed(s@),
    {
        match find_double(s, ':') {
            None => match read_groups(s, true) {
                Some(g) => if g.len() == 8 {
                    Some(Self::from_groups(&g))
                } else {
                    None
                },
                None => None,
            },
            Some(p) => {
                let end = s.len();
                let head = read_groups(&slice_of(s, 0, p), false);
                let tail = read_groups(&slice_of(s, p + 2, end), true);
                match (head, tail) {
                    (Some(h), Some(t)) => {
                        if h.len() > 7 || t.len() > 7 || h.len() + t.len() > 7 {
                            return None;
                        }
                        let mut g = h;
                        let missing = 8 - g.len() - t.len();
                        let mut i: usize = 0;
                        while i < missing
                            invariant
                                i <= missing,
                                g@ == h@ + Seq::new(i as nat, |j: int| 0u16),
                            decreases missing - i,
                        {
                            g.push(0);
                            assert(g@ =~= h@ + Seq::new((i + 1) as nat, |j: int| 0u16));
                            i += 1;
                        }
                        let mut t = t;
                        let ghost tail_groups = t@;
                        g.append(&mut t);
                        Some(Self::from_groups(&g))
                    },
                    _ => None,
                }
            },
        }
    }
}

} // verus!
