//! Bit strings: finite sequences of bits, most significant bit first.
use vstd::prelude::*;
use std::cmp::Ordering;
use std::marker::PhantomData;

verus! {

/// `p` is a prefix of `a`: `a` starts with the bits of `p`.
pub open spec fn is_prefix(p: Seq<bool>, a: Seq<bool>) -> bool {
    &&& p.len() <= a.len()
    &&& forall|i: int| 0 <= i < p.len() ==> #[trigger] p[i] == a[i]
}

/// The first position at or after `i` where `a` and `b` differ or one of
/// them ends.
pub open spec fn shared_from(a: Seq<bool>, b: Seq<bool>, i: nat) -> nat
    decreases a.len() - i,
{
    if i < a.len() && i < b.len() && a[i as int] == b[i as int] {
        shared_from(a, b, i + 1)
    } else {
        i
    }
}

/// Length of the longest common prefix of `a` and `b`.
pub open spec fn shared_len(a: Seq<bool>, b: Seq<bool>) -> nat {
    shared_from(a, b, 0)
}

/// `n` is the length of the longest common prefix of `a` and `b`.
pub open spec fn is_shared_len(a: Seq<bool>, b: Seq<bool>, n: nat) -> bool {
    &&& n <= a.len()
    &&& n <= b.len()
    &&& forall|i: int| 0 <= i < n ==> #[trigger] a[i] == b[i]
    &&& n < a.len() && n < b.len() ==> a[n as int] != b[n as int]
}

proof fn lemma_shared_from(a: Seq<bool>, b: Seq<bool>, i: nat)
    requires
        i <= a.len(),
        i <= b.len(),
        forall|j: int| 0 <= j < i ==> #[trigger] a[j] == b[j],
    ensures
        is_shared_len(a, b, shared_from(a, b, i)),
        shared_from(a, b, i) >= i,
    decreases a.len() - i,
{
    if i < a.len() && i < b.len() && a[i as int] == b[i as int] {
        lemma_shared_from(a, b, i + 1);
    }
}

/// `shared_len` is the one number that satisfies `is_shared_len`.
pub proof fn lemma_shared_len(a: Seq<bool>, b: Seq<bool>)
    ensures
        is_shared_len(a, b, shared_len(a, b)),
        forall|n: nat| is_shared_len(a, b, n) ==> n == shared_len(a, b),
{
    lemma_shared_from(a, b, 0);
    let m = shared_len(a, b);
    assert forall|n: nat| is_shared_len(a, b, n) implies n == m by {
        if n < m {
            assert(a[n as int] == b[n as int]);
        } else if m < n {
            assert(a[m as int] == b[m as int]);
        }
    }
}

/// The common prefix length does not depend on the order of the arguments.
pub proof fn lemma_shared_len_symmetric(a: Seq<bool>, b: Seq<bool>)
    ensures
        shared_len(a, b) == shared_len(b, a),
{
    lemma_shared_len(a, b);
    lemma_shared_len(b, a);
    let n = shared_len(b, a);
    assert(is_shared_len(a, b, n)) by {
        assert forall|i: int| 0 <= i < n implies #[trigger] a[i] == b[i] by {
            assert(b[i] == a[i]);
        }
    }
}

/// `a` is a prefix of `b` exactly when their common prefix is all of `a`.
pub proof fn lemma_prefix_by_shared_len(a: Seq<bool>, b: Seq<bool>)
    ensures
        is_prefix(a, b) <==> shared_len(a, b) == a.len(),
{
    lemma_shared_len(a, b);
    let n = shared_len(a, b);
    if is_prefix(a, b) && n < a.len() {
        assert(a[n as int] == b[n as int]);
    }
}

/// The order of bit strings by prefix: `a` is below `b` when `a` is a
/// proper prefix of `b`; strings that diverge are not comparable.
pub open spec fn prefix_order(a: Seq<bool>, b: Seq<bool>) -> Option<Ordering> {
    if a == b {
        Some(Ordering::Equal)
    } else if is_prefix(a, b) {
        Some(Ordering::Less)
    } else if is_prefix(b, a) {
        Some(Ordering::Greater)
    } else {
        None
    }
}

/// The byte that has a 1 at position `k`, counted from the most
/// significant bit, and 0 elsewhere.
pub open spec fn bit_mask(k: int) -> u8 {
    1u8 << ((7 - k) as u8)
}

/// The bit of `byte` at position `k`, counted from the most significant
/// bit.
pub open spec fn byte_bit(byte: u8, k: int) -> bool {
    byte & bit_mask(k) != 0
}

/// The bits of a sequence of bytes, the most significant bit of the
/// first byte first.
pub open spec fn bits_of(bytes: Seq<u8>) -> Seq<bool> {
    Seq::new(8 * bytes.len(), |i: int| byte_bit(bytes[i / 8], i % 8))
}

/// The bits `bits` with every position from `ndx` on set to 0.
pub open spec fn zeroed_from(bits: Seq<bool>, ndx: int) -> Seq<bool> {
    Seq::new(bits.len(), |i: int| i < ndx && bits[i])
}

/// Bits that are 0 from `n` on stay so when a bit before `n` changes.
pub proof fn lemma_zeroed_update(bits: Seq<bool>, n: int, ndx: int, bit: bool)
    requires
        0 <= ndx < n <= bits.len(),
        bits == zeroed_from(bits, n),
    ensures
        bits.update(ndx, bit) == zeroed_from(bits.update(ndx, bit), n),
{
    let changed = bits.update(ndx, bit);
    assert forall|i: int| 0 <= i < bits.len() implies changed[i] == zeroed_from(changed, n)[i] by {
        assert(bits[i] == zeroed_from(bits, n)[i]);
    }
    assert(changed =~= zeroed_from(changed, n));
}

/// Bits that are set to 0 from `len` on are 0 from `len` on, and from
/// `n` on as well if they were so before.
pub proof fn lemma_zeroed_twice(bits: Seq<bool>, n: int, len: int)
    requires
        0 <= n,
        0 <= len,
        len <= n || bits == zeroed_from(bits, n),
    ensures
        zeroed_from(bits, len) == zeroed_from(
            zeroed_from(bits, len),
            if n < len {
                n
            } else {
                len
            },
        ),
{
    let cut = zeroed_from(bits, len);
    let m = if n < len { n } else { len };
    assert forall|i: int| 0 <= i < bits.len() implies cut[i] == zeroed_from(cut, m)[i] by {
        if len > n {
            assert(bits[i] == zeroed_from(bits, n)[i]);
        }
    }
    assert(cut =~= zeroed_from(cut, m));
}

/// Bits that are 0 from `n` on are 0 from `n + 1` on, whatever bit `n`
/// becomes.
pub proof fn lemma_zeroed_append(bits: Seq<bool>, n: int, bit: bool)
    requires
        0 <= n < bits.len(),
        bits == zeroed_from(bits, n),
    ensures
        bits.update(n, bit) == zeroed_from(bits.update(n, bit), n + 1),
{
    let changed = bits.update(n, bit);
    assert forall|i: int| 0 <= i < bits.len() implies changed[i] == zeroed_from(changed, n + 1)[i] by {
        assert(bits[i] == zeroed_from(bits, n)[i]);
    }
    assert(changed =~= zeroed_from(changed, n + 1));
}

/// Bit strings of the same length that are 0 beyond their first `n` and
/// `m` bits are equal if those first bits are the same.
pub proof fn lemma_zeroed_unique(x: Seq<bool>, y: Seq<bool>, n: int, m: int)
    requires
        x.len() == y.len(),
        0 <= n <= x.len(),
        0 <= m <= y.len(),
        x == zeroed_from(x, n),
        y == zeroed_from(y, m),
        x.take(n) == y.take(m),
    ensures
        n == m,
        x == y,
{
    assert(x.take(n).len() == n);
    assert(y.take(m).len() == m);
    assert(n == m);
    let zx = zeroed_from(x, n);
    let zy = zeroed_from(y, m);
    assert forall|i: int| 0 <= i < x.len() implies x[i] == y[i] by {
        if i < n {
            assert(x.take(n)[i] == x[i]);
            assert(y.take(m)[i] == y[i]);
        } else {
            assert(zx[i] == false);
            assert(zy[i] == false);
        }
    }
    assert(x =~= y);
}

proof fn lemma_byte_set(byte: u8, k: u8, j: u8, bit: bool)
    by (bit_vector)
    requires
        k < 8,
        j < 8,
    ensures
        (((byte & !(1u8 << ((7 - k) as u8))) | (if bit {
            1u8 << ((7 - k) as u8)
        } else {
            0u8
        })) & (1u8 << ((7 - j) as u8)) != 0) == (if j == k {
            bit
        } else {
            byte & (1u8 << ((7 - j) as u8)) != 0
        }),
{
}

proof fn lemma_byte_flip(byte: u8, k: u8, j: u8)
    by (bit_vector)
    requires
        k < 8,
        j < 8,
    ensures
        ((byte ^ (1u8 << ((7 - k) as u8))) & (1u8 << ((7 - j) as u8)) != 0) == (if j == k {
            !(byte & (1u8 << ((7 - j) as u8)) != 0)
        } else {
            byte & (1u8 << ((7 - j) as u8)) != 0
        }),
{
}

proof fn lemma_byte_clear(byte: u8, k: u8, j: u8)
    by (bit_vector)
    requires
        1 <= k < 8,
        j < 8,
    ensures
        (1u8 << ((8 - k) as u8)) >= 1,
        ((byte & !(((1u8 << ((8 - k) as u8)) - 1) as u8)) & (1u8 << ((7 - j) as u8)) != 0) == (j < k && byte & (1u8 << ((7 - j) as u8)) != 0),
{
}

proof fn lemma_byte_zero(j: u8)
    by (bit_vector)
    requires
        j < 8,
    ensures
        0u8 & (1u8 << ((7 - j) as u8)) == 0,
{
}

proof fn lemma_byte_unique(x: u8, y: u8)
    by (bit_vector)
    requires
        (x & 0x80 != 0) == (y & 0x80 != 0),
        (x & 0x40 != 0) == (y & 0x40 != 0),
        (x & 0x20 != 0) == (y & 0x20 != 0),
        (x & 0x10 != 0) == (y & 0x10 != 0),
        (x & 0x08 != 0) == (y & 0x08 != 0),
        (x & 0x04 != 0) == (y & 0x04 != 0),
        (x & 0x02 != 0) == (y & 0x02 != 0),
        (x & 0x01 != 0) == (y & 0x01 != 0),
    ensures
        x == y,
{
}

proof fn lemma_masks()
    by (bit_vector)
    ensures
        1u8 << ((7 - 0) as u8) == 0x80,
        1u8 << ((7 - 1) as u8) == 0x40,
        1u8 << ((7 - 2) as u8) == 0x20,
        1u8 << ((7 - 3) as u8) == 0x10,
        1u8 << ((7 - 4) as u8) == 0x08,
        1u8 << ((7 - 5) as u8) == 0x04,
        1u8 << ((7 - 6) as u8) == 0x02,
        1u8 << ((7 - 7) as u8) == 0x01,
{
}

/// Bytes with the same bits are the same bytes.
pub proof fn lemma_bytes_unique(a: Seq<u8>, b: Seq<u8>)
    requires
        a.len() == b.len(),
        bits_of(a) == bits_of(b),
    ensures
        a == b,
{
    assert forall|i: int| 0 <= i < a.len() implies a[i] == b[i] by {
        lemma_masks();
        assert forall|j: int| 0 <= j < 8 implies byte_bit(a[i], j) == byte_bit(b[i], j) by {
            assert((8 * i + j) / 8 == i && (8 * i + j) % 8 == j);
            assert(bits_of(a)[8 * i + j] == byte_bit(a[i], j));
            assert(bits_of(b)[8 * i + j] == byte_bit(b[i], j));
        }
        assert(byte_bit(a[i], 0) == byte_bit(b[i], 0));
        assert(byte_bit(a[i], 1) == byte_bit(b[i], 1));
        assert(byte_bit(a[i], 2) == byte_bit(b[i], 2));
        assert(byte_bit(a[i], 3) == byte_bit(b[i], 3));
        assert(byte_bit(a[i], 4) == byte_bit(b[i], 4));
        assert(byte_bit(a[i], 5) == byte_bit(b[i], 5));
        assert(byte_bit(a[i], 6) == byte_bit(b[i], 6));
        assert(byte_bit(a[i], 7) == byte_bit(b[i], 7));
        lemma_byte_unique(a[i], b[i]);
    }
    assert(a =~= b);
}

/// The bits of zero bytes are all 0.
pub proof fn lemma_zero_bits(bytes: Seq<u8>)
    requires
        forall|i: int| 0 <= i < bytes.len() ==> bytes[i] == 0,
    ensures
        bits_of(bytes) == Seq::new(8 * bytes.len(), |i: int| false),
{
    assert forall|i: int| 0 <= i < 8 * bytes.len() implies bits_of(bytes)[i] == false by {
        lemma_byte_zero((i % 8) as u8);
    }
    assert(bits_of(bytes) =~= Seq::new(8 * bytes.len(), |i: int| false));
}

/// Bit operations on a slice of words, bit 0 being the most significant
/// bit of the first word.
pub struct BigEndianBits<E> {
    phantom: PhantomData<E>,
}

/// The number 1 as a byte, as `num_traits::One::one` gives it for `u8`.
#[verifier::external_body]
fn one_u8() -> (r: u8)
    ensures
        r == 1,
{
    num_traits::One::one()
}

/// The number 0 as a byte, as `num_traits::Zero::zero` gives it for `u8`.
#[verifier::external_body]
fn zero_u8() -> (r: u8)
    ensures
        r == 0,
{
    num_traits::Zero::zero()
}

impl BigEndianBits<u8> {
    /// The number of bits in a word.
    pub fn elembits() -> (r: usize)
        ensures
            r == 8,
    {
        8 * std::mem::size_of::<u8>()
    }

    /// The word that stands for a single bit in the lowest position.
    pub fn from_bit(bit: bool) -> (r: u8)
        ensures
            r == (if bit {
                1u8
            } else {
                0u8
            }),
    {
        if bit {
            one_u8()
        } else {
            zero_u8()
        }
    }

    /// The word that holds `bit` at the position of bit `ndx` within its
    /// word, and 0 elsewhere.
    pub fn mask(ndx: usize, bit: bool) -> (r: u8)
        ensures
            r == (if bit {
                bit_mask((ndx % 8) as int)
            } else {
                0u8
            }),
    {
        let bits = Self::elembits();
        let bit_ndx = bits - 1 - (ndx % bits);
        assert(0u8 << bit_ndx == 0u8) by (bit_vector);
        Self::from_bit(bit) << bit_ndx
    }

    /// The bit at position `ndx`.
    pub fn get(slice: &[u8], ndx: usize) -> (bit: bool)
        requires
            ndx < 8 * slice@.len(),
        ensures
            bit == bits_of(slice@)[ndx as int],
    {
        let mask = Self::mask(ndx, true);
        let slice_ndx = ndx / Self::elembits();
        zero_u8() != (slice[slice_ndx] & mask)
    }

    /// Overwrites the bit at position `ndx`.
    pub fn set(slice: &mut [u8], ndx: usize, bit: bool)
        requires
            ndx < 8 * old(slice)@.len(),
        ensures
            final(slice)@.len() == old(slice)@.len(),
            bits_of(final(slice)@) == bits_of(old(slice)@).update(ndx as int, bit),
    {
        let mask = Self::mask(ndx, true);
        let value = Self::mask(ndx, bit);
        let slice_ndx = ndx / Self::elembits();
        let word = slice[slice_ndx];
        slice[slice_ndx] = (word & !mask) | value;
        proof {
            assert forall|i: int| 0 <= i < 8 * slice@.len() implies bits_of(slice@)[i] == bits_of(
                old(slice)@,
            ).update(ndx as int, bit)[i] by {
                if i / 8 == ndx / 8 {
                    lemma_byte_set(word, (ndx % 8) as u8, (i % 8) as u8, bit);
                }
            }
            assert(bits_of(slice@) =~= bits_of(old(slice)@).update(ndx as int, bit));
        }
    }

    /// Inverts the bit at position `ndx`.
    pub fn flip(slice: &mut [u8], ndx: usize)
        requires
            ndx < 8 * old(slice)@.len(),
        ensures
            final(slice)@.len() == old(slice)@.len(),
            bits_of(final(slice)@) == bits_of(old(slice)@).update(
                ndx as int,
                !bits_of(old(slice)@)[ndx as int],
            ),
    {
        let mask = Self::mask(ndx, true);
        let slice_ndx = ndx / Self::elembits();
        let word = slice[slice_ndx];
        slice[slice_ndx] = word ^ mask;
        proof {
            assert forall|i: int| 0 <= i < 8 * slice@.len() implies bits_of(slice@)[i] == bits_of(
                old(slice)@,
            ).update(ndx as int, !bits_of(old(slice)@)[ndx as int])[i] by {
                if i / 8 == ndx / 8 {
                    lemma_byte_flip(word, (ndx % 8) as u8, (i % 8) as u8);
                }
            }
            assert(bits_of(slice@) =~= bits_of(old(slice)@).update(
                ndx as int,
                !bits_of(old(slice)@)[ndx as int],
            ));
        }
    }

    /// Sets every bit from position `ndx` on to 0.
    pub fn zerofrom(slice: &mut [u8], ndx: usize)
        ensures
            final(slice)@.len() == old(slice)@.len(),
            bits_of(final(slice)@) == zeroed_from(bits_of(old(slice)@), ndx as int),
    {
        let slice_ndx = ndx / Self::elembits();
        let len = slice.len();
        if 0 == ndx % Self::elembits() {
            let mut i = slice_ndx;
            while i < len
                invariant
                    len == slice@.len(),
                    slice@.len() == old(slice)@.len(),
                    slice_ndx <= i,
                    forall|j: int| 0 <= j < slice_ndx && j < len ==> slice@[j] == old(slice)@[j],
                    forall|j: int| slice_ndx <= j < i && j < len ==> slice@[j] == 0,
                    forall|j: int| i <= j < len ==> slice@[j] == old(slice)@[j],
                decreases len - i,
            {
                slice[i] = zero_u8();
                i += 1;
            }
        } else if slice_ndx < len {
            assert(bit_mask(((ndx - 1) % 8) as int) >= 1) by {
                lemma_byte_clear(0, (ndx % 8) as u8, 0);
            }
            let mask = Self::mask(ndx - 1, true) - one_u8();
            let word = slice[slice_ndx];
            slice[slice_ndx] = word & !mask;
            let mut i = slice_ndx + 1;
            while i < len
                invariant
                    len == slice@.len(),
                    slice@.len() == old(slice)@.len(),
                    slice_ndx < i,
                    slice_ndx < len,
                    forall|j: int| 0 <= j < slice_ndx ==> slice@[j] == old(slice)@[j],
                    slice@[slice_ndx as int] == word & !mask,
                    forall|j: int| slice_ndx < j < i && j < len ==> slice@[j] == 0,
                decreases len - i,
            {
                slice[i] = zero_u8();
                i += 1;
            }
        }
        proof {
            assert forall|i: int| 0 <= i < 8 * slice@.len() implies bits_of(slice@)[i]
                == zeroed_from(bits_of(old(slice)@), ndx as int)[i] by {
                lemma_byte_zero((i % 8) as u8);
                if ndx % 8 != 0 && i / 8 == ndx / 8 {
                    lemma_byte_clear(old(slice)@[i / 8], (ndx % 8) as u8, (i % 8) as u8);
                }
            }
            assert(bits_of(slice@) =~= zeroed_from(bits_of(old(slice)@), ndx as int));
        }
    }
}

/// A bit string of a fixed length.
pub trait FixedBitString: Sized + Clone {
    /// The bits, bit 0 first.
    spec fn bits(&self) -> Seq<bool>;

    /// The number of bits of every value of the type.
    spec fn width() -> nat;

    /// Every value has `width` bits.
    proof fn lemma_width(&self)
        ensures
            self.bits().len() == Self::width(),
            Self::width() <= usize::MAX,
    ;

    /// A clone has the same bits.
    proof fn lemma_cloned(a: &Self, b: &Self)
        requires
            cloned::<Self>(*a, *b),
        ensures
            b.bits() == a.bits(),
    ;

    /// Values with the same bits are equal.
    proof fn lemma_bits_unique(a: &Self, b: &Self)
        requires
            a.bits() == b.bits(),
        ensures
            *a == *b,
    ;

    /// The bit at position `ndx`.
    fn get(&self, ndx: usize) -> (bit: bool)
        requires
            ndx < Self::width(),
        ensures
            bit == self.bits()[ndx as int],
    ;

    /// Overwrites the bit at position `ndx`.
    fn set(&mut self, ndx: usize, bit: bool)
        requires
            ndx < Self::width(),
        ensures
            final(self).bits() == old(self).bits().update(ndx as int, bit),
    ;

    /// Inverts the bit at position `ndx`.
    fn flip(&mut self, ndx: usize)
        requires
            ndx < Self::width(),
        ensures
            final(self).bits() == old(self).bits().update(ndx as int, !old(self).bits()[ndx as int]),
    ;

    /// Sets every bit from position `ndx` on to 0.
    fn zerofrom(&mut self, ndx: usize)
        ensures
            final(self).bits() == zeroed_from(old(self).bits(), ndx as int),
    ;

    /// The value whose bits are all 0.
    fn null() -> (r: Self)
        ensures
            r.bits() == Seq::new(Self::width(), |i: int| false),
    ;
}

/// A bit string of variable length up to a fixed capacity.
///
/// The view of a value is the sequence of its bits, bit 0 first.
pub trait BitString: Sized + Clone + View<V = Seq<bool>> {
    /// The stored representation is valid.
    spec fn wf(&self) -> bool;

    /// The greatest length a value of this type can have.
    spec fn max_len() -> nat;

    /// The value stores nothing but its bits: it is the one value that
    /// its bits determine.
    spec fn canonical(&self) -> bool;

    /// Valid canonical values with the same bits are equal.
    proof fn lemma_canonical_unique(a: &Self, b: &Self)
        requires
            a.wf(),
            b.wf(),
            a.canonical(),
            b.canonical(),
            a@ == b@,
        ensures
            *a == *b,
    ;

    /// A valid value is no longer than the capacity.
    proof fn lemma_len_bounded(&self)
        requires
            self.wf(),
        ensures
            self@.len() <= Self::max_len(),
            Self::max_len() <= usize::MAX,
    ;

    /// A clone of a valid value is valid and has the same bits; a clone
    /// of a canonical value is canonical.
    proof fn lemma_cloned(a: &Self, b: &Self)
        requires
            a.wf(),
            cloned::<Self>(*a, *b),
        ensures
            b.wf(),
            b@ == a@,
            a.canonical() ==> b.canonical(),
    ;

    /// The bit at position `ndx`.
    fn get(&self, ndx: usize) -> (bit: bool)
        requires
            self.wf(),
            ndx < self@.len(),
        ensures
            bit == self@[ndx as int],
    ;

    /// Overwrites the bit at position `ndx`.
    fn set(&mut self, ndx: usize, bit: bool)
        requires
            old(self).wf(),
            ndx < old(self)@.len(),
        ensures
            final(self).wf(),
            final(self)@ == old(self)@.update(ndx as int, bit),
            old(self).canonical() ==> final(self).canonical(),
    ;

    /// Inverts the bit at position `ndx`.
    fn flip(&mut self, ndx: usize)
        requires
            old(self).wf(),
            ndx < old(self)@.len(),
        ensures
            final(self).wf(),
            final(self)@ == old(self)@.update(ndx as int, !old(self)@[ndx as int]),
            old(self).canonical() ==> final(self).canonical(),
    ;

    /// The number of bits.
    fn len(&self) -> (n: usize)
        requires
            self.wf(),
        ensures
            n == self@.len(),
    ;

    /// Truncates to at most `len` bits; a string that is no longer is
    /// left as it is.
    fn clip(&mut self, len: usize)
        requires
            old(self).wf(),
        ensures
            final(self).wf(),
            final(self)@ == old(self)@.take(
                if len <= old(self)@.len() {
                    len as int
                } else {
                    old(self)@.len() as int
                },
            ),
            old(self).canonical() ==> final(self).canonical(),
    ;

    /// Adds one bit at the end.
    fn append(&mut self, bit: bool)
        requires
            old(self).wf(),
            old(self)@.len() < Self::max_len(),
        ensures
            final(self).wf(),
            final(self)@ == old(self)@.push(bit),
            old(self).canonical() ==> final(self).canonical(),
    ;

    /// The empty bit string.
    fn null() -> (r: Self)
        ensures
            r.wf(),
            r.canonical(),
            r@ == Seq::<bool>::empty(),
    ;

    /// The length of the longest common prefix of `self` and `other`.
    fn shared_prefix_len(&self, other: &Self) -> (n: usize)
        requires
            self.wf(),
            other.wf(),
        ensures
            n == shared_len(self@, other@),
    {
        let a = self.len();
        let b = other.len();
        let max_len = if a < b { a } else { b };
        let mut i: usize = 0;
        while i < max_len
            invariant
                self.wf(),
                other.wf(),
                i <= max_len,
                max_len <= self@.len(),
                max_len <= other@.len(),
                max_len == self@.len() || max_len == other@.len(),
                shared_from(self@, other@, i as nat) == shared_len(self@, other@),
            decreases max_len - i,
        {
            if self.get(i) != other.get(i) {
                return i;
            }
            i += 1;
        }
        max_len
    }

    /// The longest common prefix of `self` and `other`.
    fn shared_prefix(&self, other: &Self) -> (r: Self)
        requires
            self.wf(),
            other.wf(),
        ensures
            r.wf(),
            r@ == self@.take(shared_len(self@, other@) as int),
            self.canonical() ==> r.canonical(),
    {
        let mut a = self.clone();
        proof {
            Self::lemma_cloned(self, &a);
            lemma_shared_len(self@, other@);
        }
        a.clip(self.shared_prefix_len(other));
        a
    }

    /// Compares by prefix: less when `self` is a proper prefix of `other`.
    fn bitstring_partial_cmp(&self, other: &Self) -> (r: Option<Ordering>)
        requires
            self.wf(),
            other.wf(),
        ensures
            r == prefix_order(self@, other@),
    {
        let spl = self.shared_prefix_len(other);
        proof {
            lemma_shared_len(self@, other@);
            lemma_prefix_by_shared_len(self@, other@);
            lemma_shared_len_symmetric(self@, other@);
            lemma_prefix_by_shared_len(other@, self@);
        }
        if spl == self.len() {
            if spl == other.len() {
                assert(self@ =~= other@);
                Some(Ordering::Equal)
            } else {
                Some(Ordering::Less)
            }
        } else if spl == other.len() {
            Some(Ordering::Greater)
        } else {
            None
        }
    }
}

/// A bit string made of the first `len` bits of a fixed bit string.
pub struct BitWordString<W: FixedBitString> {
    pub bitwords: W,
    pub len: usize,
}

impl<W: FixedBitString> Clone for BitWordString<W> {
    fn clone(&self) -> (r: Self)
        ensures
            cloned::<W>(self.bitwords, r.bitwords),
            r.len == self.len,
    {
        BitWordString { bitwords: self.bitwords.clone(), len: self.len }
    }
}

/// A clone of a word string has a clone of the words and the same
/// length.
proof fn lemma_word_string_cloned<W: FixedBitString>(a: BitWordString<W>, b: BitWordString<W>)
    requires
        cloned::<BitWordString<W>>(a, b),
    ensures
        cloned::<W>(a.bitwords, b.bitwords),
        a.len == b.len,
{
}

impl<W: FixedBitString> View for BitWordString<W> {
    type V = Seq<bool>;

    open spec fn view(&self) -> Seq<bool> {
        self.bitwords.bits().take(self.len as int)
    }
}

impl<W: FixedBitString> BitString for BitWordString<W> {
    open spec fn wf(&self) -> bool {
        self.len <= W::width()
    }

    open spec fn max_len() -> nat {
        W::width()
    }

    /// Every bit of the words from the length on is 0.
    open spec fn canonical(&self) -> bool {
        self.bitwords.bits() == zeroed_from(self.bitwords.bits(), self.len as int)
    }

    proof fn lemma_canonical_unique(a: &Self, b: &Self) {
        a.bitwords.lemma_width();
        b.bitwords.lemma_width();
        lemma_zeroed_unique(a.bitwords.bits(), b.bitwords.bits(), a.len as int, b.len as int);
        W::lemma_bits_unique(&a.bitwords, &b.bitwords);
    }

    proof fn lemma_len_bounded(&self) {
        self.bitwords.lemma_width();
    }

    proof fn lemma_cloned(a: &Self, b: &Self) {
        lemma_word_string_cloned(*a, *b);
        W::lemma_cloned(&a.bitwords, &b.bitwords);
    }

    fn get(&self, ndx: usize) -> (bit: bool)
        ensures
            bit == self.bitwords.bits()[ndx as int],
    {
        proof {
            self.bitwords.lemma_width();
        }
        self.bitwords.get(ndx)
    }

    fn set(&mut self, ndx: usize, bit: bool)
        ensures
            final(self).len == old(self).len,
            final(self).bitwords.bits() == old(self).bitwords.bits().update(ndx as int, bit),
    {
        proof {
            self.bitwords.lemma_width();
        }
        self.bitwords.set(ndx, bit);
        proof {
            self.bitwords.lemma_width();
            assert(self@ =~= old(self)@.update(ndx as int, bit));
            if old(self).canonical() {
                lemma_zeroed_update(old(self).bitwords.bits(), self.len as int, ndx as int, bit);
            }
        }
    }

    fn flip(&mut self, ndx: usize)
        ensures
            final(self).len == old(self).len,
            final(self).bitwords.bits() == old(self).bitwords.bits().update(
                ndx as int,
                !old(self).bitwords.bits()[ndx as int],
            ),
    {
        proof {
            self.bitwords.lemma_width();
        }
        self.bitwords.flip(ndx);
        proof {
            self.bitwords.lemma_width();
            assert(self@ =~= old(self)@.update(ndx as int, !old(self)@[ndx as int]));
            if old(self).canonical() {
                lemma_zeroed_update(
                    old(self).bitwords.bits(),
                    self.len as int,
                    ndx as int,
                    !old(self).bitwords.bits()[ndx as int],
                );
            }
        }
    }

    fn len(&self) -> (n: usize)
        ensures
            n == self.len,
    {
        proof {
            self.bitwords.lemma_width();
        }
        self.len
    }

    fn clip(&mut self, len: usize)
        ensures
            len >= old(self).len ==> *final(self) == *old(self),
            len < old(self).len ==> final(self).len == len,
            len < old(self).len ==> final(self).bitwords.bits() == zeroed_from(
                old(self).bitwords.bits(),
                len as int,
            ),
    {
        proof {
            self.bitwords.lemma_width();
        }
        if len < self.len {
            self.bitwords.zerofrom(len);
            self.len = len;
            proof {
                self.bitwords.lemma_width();
                assert(self@ =~= old(self)@.take(len as int));
                lemma_zeroed_twice(old(self).bitwords.bits(), old(self).len as int, len as int);
            }
        } else {
            assert(self@ =~= old(self)@.take(old(self)@.len() as int));
        }
    }

    fn append(&mut self, bit: bool)
        ensures
            final(self).len == old(self).len + 1,
            final(self).bitwords.bits() == old(self).bitwords.bits().update(
                old(self).len as int,
                bit,
            ),
    {
        proof {
            self.bitwords.lemma_width();
        }
        self.bitwords.set(self.len, bit);
        self.len += 1;
        proof {
            self.bitwords.lemma_width();
            assert(self@ =~= old(self)@.push(bit));
            if old(self).canonical() {
                lemma_zeroed_append(old(self).bitwords.bits(), old(self).len as int, bit);
            }
        }
    }

    fn null() -> (r: Self)
        ensures
            r.len == 0,
            r.bitwords.bits() == Seq::new(W::width(), |i: int| false),
    {
        let r = BitWordString { bitwords: W::null(), len: 0 };
        proof {
            r.bitwords.lemma_width();
            assert(r@ =~= Seq::<bool>::empty());
            assert(r.bitwords.bits() =~= zeroed_from(r.bitwords.bits(), 0));
        }
        r
    }
}

} // verus!
