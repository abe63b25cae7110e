//! CIDR prefixes: an IP address together with the number of leading
//! bits that count.
use vstd::prelude::*;
use crate::address::{Ipv4Address, Ipv6Address};
use crate::bitstrings::{
    lemma_zeroed_append, lemma_zeroed_twice, lemma_zeroed_unique, lemma_zeroed_update,
    zeroed_from, BitString, FixedBitString,
};
use crate::text::{
    chars_of, decimal, find_last, last_position, push_decimal, read_small_number, slice_of,
    small_number, string_of, Textual,
};

verus! {

/// An IP address: a fixed bit string of at most 255 bits that has a
/// text form.
pub trait IpAddress: FixedBitString {
    /// The text form of the address.
    spec fn text(&self) -> Seq<char>;

    /// The address that the text `s` stands for, if it stands for one.
    spec fn parsed(s: Seq<char>) -> Option<Self>;

    /// The number of bits of an address fits into a byte.
    proof fn lemma_width_fits()
        ensures
            Self::width() <= u8::MAX,
    ;

    /// The number of bits of an address.
    fn bit_len() -> (n: u8)
        ensures
            n == Self::width(),
    ;

    /// Reads an address from its text form.
    fn from_chars(s: &Vec<char>) -> (r: Option<Self>)
        ensures
            r == Self::parsed(s@),
    ;

    /// Writes the text form of the address.
    fn to_chars(&self) -> (r: Vec<char>)
        ensures
            r@ == self.text(),
    ;
}

impl IpAddress for Ipv4Address {
    open spec fn text(&self) -> Seq<char> {
        Ipv4Address::text(self)
    }

    open spec fn parsed(s: Seq<char>) -> Option<Self> {
        Ipv4Address::parsed(s)
    }

    proof fn lemma_width_fits() {
    }

    fn bit_len() -> (n: u8) {
        32
    }

    fn from_chars(s: &Vec<char>) -> (r: Option<Self>) {
        Ipv4Address::from_chars(s)
    }

    fn to_chars(&self) -> (r: Vec<char>) {
        Ipv4Address::to_chars(self)
    }
}

impl IpAddress for Ipv6Address {
    open spec fn text(&self) -> Seq<char> {
        Ipv6Address::text(self)
    }

    open spec fn parsed(s: Seq<char>) -> Option<Self> {
        Ipv6Address::parsed(s)
    }

    proof fn lemma_width_fits() {
    }

    fn bit_len() -> (n: u8) {
        128
    }

    fn from_chars(s: &Vec<char>) -> (r: Option<Self>) {
        Ipv6Address::from_chars(s)
    }

    fn to_chars(&self) -> (r: Vec<char>) {
        Ipv6Address::to_chars(self)
    }
}

pub type Ipv6Cidr = IpCidr<Ipv6Address>;

pub type Ipv4Cidr = IpCidr<Ipv4Address>;

/// Why a text is not a CIDR prefix.
#[derive(PartialEq, Eq, Structural, Clone, Copy, Debug)]
pub enum NetworkParseError {
    /// The address part is not an address.
    AddrParseError,
    /// The length part is not a number below 256.
    NetworkLengthParseError,
    /// The length is greater than the number of bits of an address.
    NetworkLengthTooLongError,
}

/// A CIDR prefix: the first `network_length` bits of `address`.
#[derive(Debug, PartialEq, Eq, Hash)]
pub struct IpCidr<A: IpAddress> {
    pub address: A,
    pub network_length: u8,
}

impl<A: IpAddress> Clone for IpCidr<A> {
    fn clone(&self) -> (r: Self)
        ensures
            cloned::<A>(self.address, r.address),
            r.network_length == self.network_length,
    {
        IpCidr { address: self.address.clone(), network_length: self.network_length }
    }
}

proof fn lemma_cidr_cloned<A: IpAddress>(a: IpCidr<A>, b: IpCidr<A>)
    requires
        cloned::<IpCidr<A>>(a, b),
    ensures
        cloned::<A>(a.address, b.address),
        a.network_length == b.network_length,
{
}

impl<A: IpAddress> View for IpCidr<A> {
    type V = Seq<bool>;

    /// The bits of the network part.
    open spec fn view(&self) -> Seq<bool> {
        self.address.bits().take(self.network_length as int)
    }
}

impl<A: IpAddress> BitString for IpCidr<A> {
    open spec fn wf(&self) -> bool {
        self.network_length <= A::width()
    }

    open spec fn max_len() -> nat {
        A::width()
    }

    /// Every bit of the address from the network length on is 0.
    open spec fn canonical(&self) -> bool {
        self.address.bits() == zeroed_from(self.address.bits(), self.network_length as int)
    }

    proof fn lemma_canonical_unique(a: &Self, b: &Self) {
        a.address.lemma_width();
        b.address.lemma_width();
        lemma_zeroed_unique(
            a.address.bits(),
            b.address.bits(),
            a.network_length as int,
            b.network_length as int,
        );
        A::lemma_bits_unique(&a.address, &b.address);
    }

    proof fn lemma_len_bounded(&self) {
        self.address.lemma_width();
    }

    proof fn lemma_cloned(a: &Self, b: &Self) {
        lemma_cidr_cloned(*a, *b);
        A::lemma_cloned(&a.address, &b.address);
    }

    fn get(&self, ndx: usize) -> (bit: bool)
        ensures
            bit == self.address.bits()[ndx as int],
    {
        proof {
            self.address.lemma_width();
        }
        self.address.get(ndx)
    }

    fn set(&mut self, ndx: usize, bit: bool)
        ensures
            final(self).network_length == old(self).network_length,
            final(self).address.bits() == old(self).address.bits().update(ndx as int, bit),
    {
        proof {
            self.address.lemma_width();
        }
        self.address.set(ndx, bit);
        proof {
            self.address.lemma_width();
            assert(self@ =~= old(self)@.update(ndx as int, bit));
            if old(self).canonical() {
                lemma_zeroed_update(
                    old(self).address.bits(),
                    self.network_length as int,
                    ndx as int,
                    bit,
                );
            }
        }
    }

    fn flip(&mut self, ndx: usize)
        ensures
            final(self).network_length == old(self).network_length,
            final(self).address.bits() == old(self).address.bits().update(
                ndx as int,
                !old(self).address.bits()[ndx as int],
            ),
    {
        proof {
            self.address.lemma_width();
        }
        self.address.flip(ndx);
        proof {
            self.address.lemma_width();
            assert(self@ =~= old(self)@.update(ndx as int, !old(self)@[ndx as int]));
            if old(self).canonical() {
                lemma_zeroed_update(
                    old(self).address.bits(),
                    self.network_length as int,
                    ndx as int,
                    !old(self).address.bits()[ndx as int],
                );
            }
        }
    }

    fn len(&self) -> (n: usize)
        ensures
            n == self.network_length,
    {
        proof {
            self.address.lemma_width();
        }
        self.network_length as usize
    }

    fn clip(&mut self, len: usize)
        ensures
            len >= old(self).network_length ==> *final(self) == *old(self),
            len < old(self).network_length ==> final(self).network_length == len,
            len < old(self).network_length ==> final(self).address.bits() == zeroed_from(
                old(self).address.bits(),
                len as int,
            ),
    {
        proof {
            self.address.lemma_width();
        }
        if len < self.network_length as usize {
            self.address.zerofrom(len);
            self.network_length = len as u8;
            proof {
                self.address.lemma_width();
                assert(self@ =~= old(self)@.take(len as int));
                lemma_zeroed_twice(
                    old(self).address.bits(),
                    old(self).network_length as int,
                    len as int,
                );
            }
        } else {
            assert(self@ =~= old(self)@.take(old(self)@.len() as int));
        }
    }

    fn append(&mut self, bit: bool)
        ensures
            final(self).network_length == old(self).network_length + 1,
            final(self).address.bits() == old(self).address.bits().update(
                old(self).network_length as int,
                bit,
            ),
    {
        proof {
            self.address.lemma_width();
            A::lemma_width_fits();
        }
        self.address.set(self.network_length as usize, bit);
        self.network_length += 1;
        proof {
            self.address.lemma_width();
            assert(self@ =~= old(self)@.push(bit));
            if old(self).canonical() {
                lemma_zeroed_append(
                    old(self).address.bits(),
                    old(self).network_length as int,
                    bit,
                );
            }
        }
    }

    fn null() -> (r: Self)
        ensures
            r.network_length == 0,
            r.address.bits() == Seq::new(A::width(), |i: int| false),
    {
        let r = IpCidr { address: A::null(), network_length: 0 };
        proof {
            r.address.lemma_width();
            assert(r@ =~= Seq::<bool>::empty());
            assert(r.address.bits() =~= zeroed_from(r.address.bits(), 0));
        }
        r
    }
}

/// The length that `s` spells as std reads a `u8`: decimal digits, with
/// or without a plus sign in front, that stand for a number below 256.
pub open spec fn length_of(s: Seq<char>) -> Option<u8> {
    if s.len() > 0 && s[0] == '+' {
        small_number(s.subrange(1, s.len() as int))
    } else {
        small_number(s)
    }
}

fn read_length(s: &Vec<char>) -> (r: Option<u8>)
    ensures
        r == length_of(s@),
{
    if s.len() > 0 && s[0] == '+' {
        let digits = slice_of(s, 1, s.len());
        read_small_number(&digits)
    } else {
        read_small_number(s)
    }
}

impl<A: IpAddress> IpCidr<A> {
    /// What the text `s` stands for.  Without a slash it is an address,
    /// and all its bits count.  Otherwise the part after the last slash
    /// is the length and the part before it the address; the length is
    /// looked at first.
    #[verifier::opaque]
    pub open spec fn parsed(s: Seq<char>) -> Result<IpCidr<A>, NetworkParseError> {
        match last_position(s, '/') {
            None => match A::parsed(s) {
                Some(address) => Ok(IpCidr { address, network_length: A::width() as u8 }),
                None => Err(NetworkParseError::AddrParseError),
            },
            Some(pos) => match length_of(s.subrange(pos + 1, s.len() as int)) {
                None => Err(NetworkParseError::NetworkLengthParseError),
                Some(len) => if len > A::width() {
                    Err(NetworkParseError::NetworkLengthTooLongError)
                } else {
                    match A::parsed(s.subrange(0, pos)) {
                        Some(address) => Ok(IpCidr { address, network_length: len }),
                        None => Err(NetworkParseError::AddrParseError),
                    }
                },
            },
        }
    }

    /// The text form: the address, a slash and the length.
    pub open spec fn text(&self) -> Seq<char> {
        self.address.text() + seq!['/'] + decimal(self.network_length as nat)
    }

    /// Reads a prefix from its characters.
    pub fn from_chars(s: &Vec<char>) -> (r: Result<IpCidr<A>, NetworkParseError>)
        ensures
            r == Self::parsed(s@),
            r matches Ok(cidr) ==> cidr.wf(),
    {
        reveal(IpCidr::parsed);
        match find_last(s, '/') {
            None => match A::from_chars(s) {
                Some(addr) => Ok(IpCidr { address: addr, network_length: A::bit_len() }),
                None => Err(NetworkParseError::AddrParseError),
            },
            Some(pos) => {
                let end = s.len();
                let len = match read_length(&slice_of(s, pos + 1, end)) {
                    Some(len) => {
                        if len <= A::bit_len() {
                            len
                        } else {
                            return Err(NetworkParseError::NetworkLengthTooLongError);
                        }
                    },
                    None => return Err(NetworkParseError::NetworkLengthParseError),
                };
                match A::from_chars(&slice_of(s, 0, pos)) {
                    Some(addr) => Ok(IpCidr { address: addr, network_length: len }),
                    None => Err(NetworkParseError::AddrParseError),
                }
            },
        }
    }

    /// Reads a prefix from text: `address/length`, or an address alone
    /// for a prefix of full length.
    pub fn from_str(s: &str) -> (r: Result<IpCidr<A>, NetworkParseError>)
        ensures
            r == Self::parsed(s@),
            r matches Ok(cidr) ==> cidr.wf(),
    {
        Self::from_chars(&chars_of(s))
    }

    /// Writes the prefix as `address/length`.
    pub fn to_string(&self) -> (r: String)
        ensures
            r@ == self.text(),
    {
        let mut out = self.address.to_chars();
        out.push('/');
        push_decimal(&mut out, self.network_length);
        string_of(&out)
    }
}

impl<A: IpAddress> std::str::FromStr for IpCidr<A> {
    type Err = NetworkParseError;

    /// Reads a prefix from text, as the function `from_str` of the type
    /// does.
    fn from_str(s: &str) -> (r: Result<IpCidr<A>, NetworkParseError>)
        ensures
            r == IpCidr::<A>::parsed(s@),
            r matches Ok(cidr) ==> cidr.wf(),
    {
        Self::from_chars(&chars_of(s))
    }
}

impl<A: IpAddress> Textual for IpCidr<A> {
    open spec fn text(&self) -> Seq<char> {
        IpCidr::text(self)
    }

    fn to_string(&self) -> (r: String) {
        IpCidr::to_string(self)
    }
}

} // verus!
