//! Values of a fixed width, held as big-endian bytes.

use vstd::arithmetic::div_mod::{
    lemma_add_mod_noop, lemma_fundamental_div_mod_converse_mod, lemma_mul_mod_noop_left,
    lemma_small_mod,
};
use vstd::prelude::*;

verus! {

/// `width` zero bytes.
pub open spec fn zeros(width: nat) -> Seq<u8> {
    Seq::new(width, |i: int| 0u8)
}

/// The integer that big-endian bytes stand for.
pub open spec fn be_value(bytes: Seq<u8>) -> nat
    decreases bytes.len(),
{
    if bytes.len() == 0 {
        0
    } else {
        be_value(bytes.drop_last()) * 256 + bytes.last() as nat
    }
}

/// The number of values of the given width: 256 to the power of the width.
pub open spec fn capacity(width: nat) -> nat
    decreases width,
{
    if width == 0 {
        1
    } else {
        256 * capacity((width - 1) as nat)
    }
}

/// No bytes stand for 0, and there is one value of width 0.
pub proof fn lemma_be_value_empty(bytes: Seq<u8>)
    requires
        bytes.len() == 0,
    ensures
        be_value(bytes) == 0,
        capacity(0) == 1,
{
}

/// The bytes stand for an integer below the capacity of their width.
pub proof fn lemma_be_value_bound(bytes: Seq<u8>)
    ensures
        be_value(bytes) < capacity(bytes.len()),
    decreases bytes.len(),
{
    if bytes.len() > 0 {
        lemma_be_value_bound(bytes.drop_last());
    }
}

/// The value of the bytes is the value of the first of them, moved up past
/// the others, and the value of the others.
pub proof fn lemma_be_value_split(bytes: Seq<u8>, k: int)
    requires
        0 <= k <= bytes.len(),
    ensures
        be_value(bytes) == be_value(bytes.subrange(0, k)) * capacity((bytes.len() - k) as nat)
            + be_value(bytes.subrange(k, bytes.len() as int)),
    decreases bytes.len(),
{
    let n = bytes.len() as int;
    let tail = bytes.subrange(k, n);
    let head = be_value(bytes.subrange(0, k));
    if k == n {
        assert(bytes.subrange(0, k) == bytes);
        assert(tail.len() == 0);
        assert(be_value(tail) == 0);
        assert(capacity(0) == 1);
        assert(head * 1 == head) by (nonlinear_arith);
    } else {
        let front = bytes.drop_last();
        lemma_be_value_split(front, k);
        assert(front.subrange(0, k) == bytes.subrange(0, k));
        assert(front.subrange(k, n - 1) == tail.drop_last());
        assert(tail.last() == bytes.last());
        let rest = capacity((n - 1 - k) as nat);
        assert(capacity((n - k) as nat) == 256 * rest);
        assert(be_value(bytes) == be_value(front) * 256 + bytes.last() as nat);
        assert(be_value(tail) == be_value(tail.drop_last()) * 256 + tail.last() as nat);
        assert((head * rest + be_value(tail.drop_last())) * 256 == head * (256 * rest) + be_value(
            tail.drop_last(),
        ) * 256) by (nonlinear_arith);
    }
}

/// The value of the bytes from `i` on is the byte at `i`, moved up past the
/// others, and the value of the bytes from `i + 1` on.
pub proof fn lemma_be_value_step(bytes: Seq<u8>, i: int)
    requires
        0 <= i < bytes.len(),
    ensures
        be_value(bytes.subrange(i, bytes.len() as int)) == bytes[i] as nat * capacity(
            (bytes.len() - i - 1) as nat,
        ) + be_value(bytes.subrange(i + 1, bytes.len() as int)),
{
    let n = bytes.len() as int;
    let tail = bytes.subrange(i, n);
    lemma_be_value_split(tail, 1);
    assert(tail.subrange(1, n - i) == bytes.subrange(i + 1, n));
    let first = tail.subrange(0, 1);
    assert(first.drop_last().len() == 0);
    assert(be_value(first.drop_last()) == 0);
    assert(first.last() == bytes[i]);
    assert(be_value(first) == bytes[i] as nat);
}

/// A value of a fixed width. Its view is its bytes, most significant first.
#[derive(Debug, PartialEq, Eq)]
pub struct Word {
    bytes: Vec<u8>,
}

impl View for Word {
    type V = Seq<u8>;

    closed spec fn view(&self) -> Seq<u8> {
        self.bytes@
    }
}

impl Clone for Word {
    fn clone(&self) -> (copy: Self)
        ensures
            copy@ == self@,
    {
        Word::from_bytes(&self.bytes)
    }
}

impl Word {
    /// The value 0 of the given width.
    pub fn zero(width: usize) -> (w: Word)
        ensures
            w@ == zeros(width as nat),
    {
        let mut bytes: Vec<u8> = Vec::new();
        let mut i: usize = 0;
        while i < width
            invariant
                i <= width,
                bytes@ == zeros(i as nat),
            decreases width - i,
        {
            bytes.push(0u8);
            assert(bytes@ == zeros((i + 1) as nat));
            i = i + 1;
        }
        Word { bytes }
    }

    /// The value with the given bytes, most significant first.
    pub fn from_bytes(buf: &Vec<u8>) -> (w: Word)
        ensures
            w@ == buf@,
    {
        let mut bytes: Vec<u8> = Vec::new();
        let mut i: usize = 0;
        while i < buf.len()
            invariant
                i <= buf.len(),
                bytes@ == buf@.subrange(0, i as int),
            decreases buf.len() - i,
        {
            bytes.push(buf[i]);
            i = i + 1;
        }
        assert(bytes@ == buf@);
        Word { bytes }
    }

    /// The bytes of the value, most significant first.
    pub fn to_bytes(&self) -> (buf: Vec<u8>)
        ensures
            buf@ == self@,
    {
        let copy = self.clone();
        copy.bytes
    }

    /// The number of bytes of the value.
    pub fn width(&self) -> (n: usize)
        ensures
            n == self@.len(),
    {
        self.bytes.len()
    }

    /// The byte at the given place, the most significant being at 0.
    pub fn byte(&self, i: usize) -> (b: u8)
        requires
            i < self@.len(),
        ensures
            b == self@[i as int],
    {
        self.bytes[i]
    }

    /// Whether the value is 0.
    pub fn is_zero(&self) -> (r: bool)
        ensures
            r == (self@ == zeros(self@.len())),
    {
        let mut i: usize = 0;
        while i < self.bytes.len()
            invariant
                i <= self.bytes.len(),
                forall|k: int| 0 <= k < i ==> self.bytes[k] == 0,
            decreases self.bytes.len() - i,
        {
            if self.bytes[i] != 0 {
                assert(zeros(self@.len())[i as int] == 0);
                return false;
            }
            i = i + 1;
        }
        assert(self@ =~= zeros(self@.len()));
        true
    }

    /// The value of the given width that stands for `x`, or for what is left
    /// of `x` where the width is too small for it.
    pub fn from_u64(width: usize, x: u64) -> (w: Word)
        ensures
            w@.len() == width,
            be_value(w@) == x as nat % capacity(width as nat),
    {
        let mut w = Word::zero(width);
        let mut rest: u64 = x;
        let mut i: usize = width;
        proof {
            lemma_be_value_empty(w.bytes@.subrange(width as int, width as int));
            assert(rest as nat * capacity((width - i) as nat) == rest) by (nonlinear_arith)
                requires
                    capacity((width - i) as nat) == 1,
            ;
        }
        while i > 0
            invariant
                i <= width,
                w.bytes.len() == width,
                be_value(w.bytes@.subrange(i as int, width as int)) + rest as nat * capacity(
                    (width - i) as nat,
                ) == x,
            decreases i,
        {
            let ghost before = w.bytes@;
            i = i - 1;
            w.bytes.set(i, (rest % 256) as u8);
            proof {
                lemma_be_value_step(w.bytes@, i as int);
                assert(w.bytes@.subrange(i + 1, width as int) == before.subrange(
                    i + 1,
                    width as int,
                ));
                let unit = capacity((width - i - 1) as nat);
                assert((rest % 256) * unit + (rest / 256) * (256 * unit) == rest * unit)
                    by (nonlinear_arith);
            }
            rest = rest / 256;
        }
        proof {
            assert(w.bytes@.subrange(0, width as int) == w.bytes@);
            lemma_be_value_bound(w.bytes@);
            lemma_fundamental_div_mod_converse_mod(
                x as int,
                capacity(width as nat) as int,
                rest as int,
                be_value(w.bytes@) as int,
            );
        }
        w
    }

    /// The sum of the two values, which wraps at the width.
    pub fn wrapping_add(&self, other: &Word) -> (sum: Word)
        requires
            self@.len() == other@.len(),
        ensures
            sum@.len() == self@.len(),
            be_value(sum@) == (be_value(self@) + be_value(other@)) % capacity(self@.len()),
    {
        let width = self.bytes.len();
        let mut sum = Word::zero(width);
        let mut carry: u16 = 0;
        let mut i: usize = width;
        proof {
            lemma_be_value_empty(sum.bytes@.subrange(width as int, width as int));
            lemma_be_value_empty(self.bytes@.subrange(width as int, width as int));
            lemma_be_value_empty(other.bytes@.subrange(width as int, width as int));
        }
        while i > 0
            invariant
                i <= width,
                width == self.bytes.len(),
                width == other.bytes.len(),
                sum.bytes.len() == width,
                carry <= 1,
                be_value(sum.bytes@.subrange(i as int, width as int)) + carry as nat * capacity(
                    (width - i) as nat,
                ) == be_value(self.bytes@.subrange(i as int, width as int)) + be_value(
                    other.bytes@.subrange(i as int, width as int),
                ),
            decreases i,
        {
            let ghost before = sum.bytes@;
            i = i - 1;
            let digit: u16 = self.bytes[i] as u16 + other.bytes[i] as u16 + carry;
            sum.bytes.set(i, (digit % 256) as u8);
            proof {
                lemma_be_value_step(sum.bytes@, i as int);
                lemma_be_value_step(self.bytes@, i as int);
                lemma_be_value_step(other.bytes@, i as int);
                assert(sum.bytes@.subrange(i + 1, width as int) == before.subrange(
                    i + 1,
                    width as int,
                ));
                let unit = capacity((width - i - 1) as nat);
                assert((digit % 256) * unit + (digit / 256) * (256 * unit) == digit * unit)
                    by (nonlinear_arith);
                assert(digit * unit == self.bytes[i as int] * unit + other.bytes[i as int] * unit
                    + carry * unit) by (nonlinear_arith)
                    requires
                        digit == self.bytes[i as int] + other.bytes[i as int] + carry,
                ;
            }
            carry = digit / 256;
        }
        proof {
            assert(sum.bytes@.subrange(0, width as int) == sum.bytes@);
            assert(self.bytes@.subrange(0, width as int) == self.bytes@);
            assert(other.bytes@.subrange(0, width as int) == other.bytes@);
            lemma_be_value_bound(sum.bytes@);
            let total = be_value(self@) + be_value(other@);
            assert(total == carry * capacity(width as nat) + be_value(sum@)) by (nonlinear_arith)
                requires
                    be_value(sum@) + carry * capacity(width as nat) == total,
            ;
            lemma_fundamental_div_mod_converse_mod(
                total as int,
                capacity(width as nat) as int,
                carry as int,
                be_value(sum@) as int,
            );
        }
        sum
    }

    /// The difference of the two values, which wraps at the width.
    pub fn wrapping_sub(&self, other: &Word) -> (difference: Word)
        requires
            self@.len() == other@.len(),
        ensures
            difference@.len() == self@.len(),
            be_value(difference@) == (be_value(self@) - be_value(other@)) % (capacity(
                self@.len(),
            ) as int),
    {
        let width = self.bytes.len();
        let mut difference = Word::zero(width);
        let mut borrow: u16 = 0;
        let mut i: usize = width;
        proof {
            lemma_be_value_empty(difference.bytes@.subrange(width as int, width as int));
            lemma_be_value_empty(self.bytes@.subrange(width as int, width as int));
            lemma_be_value_empty(other.bytes@.subrange(width as int, width as int));
        }
        while i > 0
            invariant
                i <= width,
                width == self.bytes.len(),
                width == other.bytes.len(),
                difference.bytes.len() == width,
                borrow <= 1,
                be_value(difference.bytes@.subrange(i as int, width as int)) - borrow * capacity(
                    (width - i) as nat,
                ) == be_value(self.bytes@.subrange(i as int, width as int)) - be_value(
                    other.bytes@.subrange(i as int, width as int),
                ),
            decreases i,
        {
            let ghost before = difference.bytes@;
            i = i - 1;
            let digit: u16 = 256 + self.bytes[i] as u16 - other.bytes[i] as u16 - borrow;
            difference.bytes.set(i, (digit % 256) as u8);
            proof {
                lemma_be_value_step(difference.bytes@, i as int);
                lemma_be_value_step(self.bytes@, i as int);
                lemma_be_value_step(other.bytes@, i as int);
                assert(difference.bytes@.subrange(i + 1, width as int) == before.subrange(
                    i + 1,
                    width as int,
                ));
                let unit = capacity((width - i - 1) as nat);
                assert((digit % 256) * unit + (digit / 256) * (256 * unit) == digit * unit)
                    by (nonlinear_arith);
                assert(digit * unit == 256 * unit + self.bytes[i as int] * unit
                    - other.bytes[i as int] * unit - borrow * unit) by (nonlinear_arith)
                    requires
                        digit == 256 + self.bytes[i as int] - other.bytes[i as int] - borrow,
                ;
                assert((1 - digit / 256) * (256 * unit) == 256 * unit - (digit / 256) * (256
                    * unit)) by (nonlinear_arith);
            }
            borrow = 1 - digit / 256;
        }
        proof {
            assert(difference.bytes@.subrange(0, width as int) == difference.bytes@);
            assert(self.bytes@.subrange(0, width as int) == self.bytes@);
            assert(other.bytes@.subrange(0, width as int) == other.bytes@);
            lemma_be_value_bound(difference.bytes@);
            let gap = be_value(self@) - be_value(other@);
            assert(gap == (-(borrow as int)) * capacity(width as nat) + be_value(difference@))
                by (nonlinear_arith)
                requires
                    be_value(difference@) - borrow * capacity(width as nat) == gap,
            ;
            lemma_fundamental_div_mod_converse_mod(
                gap,
                capacity(width as nat) as int,
                -(borrow as int),
                be_value(difference@) as int,
            );
        }
        difference
    }

    /// What is left of the value when it is divided by `modulus`.
    pub fn rem(&self, modulus: u64) -> (r: u64)
        requires
            modulus > 0,
        ensures
            r == be_value(self@) % modulus as nat,
    {
        let mut r: u64 = 0;
        let mut i: usize = 0;
        proof {
            lemma_be_value_empty(self.bytes@.subrange(0, 0));
            lemma_small_mod(0, modulus as nat);
        }
        while i < self.bytes.len()
            invariant
                i <= self.bytes.len(),
                modulus > 0,
                r < modulus,
                r == be_value(self.bytes@.subrange(0, i as int)) % modulus as nat,
            decreases self.bytes.len() - i,
        {
            let ghost front = be_value(self.bytes@.subrange(0, i as int));
            let wide: u128 = r as u128 * 256 + self.bytes[i] as u128;
            proof {
                assert(self.bytes@.subrange(0, i + 1).drop_last() == self.bytes@.subrange(
                    0,
                    i as int,
                ));
                lemma_mul_mod_noop_left(front as int, 256, modulus as int);
                lemma_add_mod_noop((front * 256) as int, self.bytes[i as int] as int, modulus as int);
                lemma_add_mod_noop((r * 256) as int, self.bytes[i as int] as int, modulus as int);
            }
            r = (wide % modulus as u128) as u64;
            i = i + 1;
        }
        assert(self.bytes@.subrange(0, i as int) == self.bytes@);
        r
    }

    /// Whether the two values have the same bytes.
    pub fn equals(&self, other: &Word) -> (r: bool)
        ensures
            r == (self@ == other@),
    {
        if self.bytes.len() != other.bytes.len() {
            return false;
        }
        let mut i: usize = 0;
        while i < self.bytes.len()
            invariant
                i <= self.bytes.len(),
                self.bytes.len() == other.bytes.len(),
                forall|k: int| 0 <= k < i ==> self.bytes[k] == other.bytes[k],
            decreases self.bytes.len() - i,
        {
            if self.bytes[i] != other.bytes[i] {
                return false;
            }
            i = i + 1;
        }
        assert(self@ =~= other@);
        true
    }
}

} // verus!
