//! A pointer-sized word that packs an aligned address together with a small tag
//! kept in the address's unused low bits.

use core::marker::PhantomData;
use vstd::arithmetic::power2::*;
use vstd::prelude::*;

verus! {

/// An address aligned to `2^TAG_BITS` with a tag below `2^TAG_BITS` stored in
/// its low bits. `T` names what the address refers to and is never inspected.
#[derive(Debug, PartialEq, Eq, PartialOrd, Ord, Hash)]
pub struct TaggedPtr<const TAG_BITS: usize, T> {
    ptr: usize,
    _marker: PhantomData<T>,
}

impl<const TAG_BITS: usize, T> Clone for TaggedPtr<TAG_BITS, T> {
    fn clone(&self) -> (r: Self)
        ensures
            r == *self,
    {
        *self
    }
}

impl<const TAG_BITS: usize, T> Copy for TaggedPtr<TAG_BITS, T> {

}

/// The number of values a tag of `bits` bits can take, `2^bits`.
pub open spec fn tag_span(bits: usize) -> int {
    pow2(bits as nat) as int
}

/// `2^bits` fits a word whenever `bits` is less than the word's width, and the
/// largest multiple of it that fits leaves room for every tag above it.
pub proof fn lemma_tag_span(bits: usize, ptr: usize, tag: usize)
    requires
        bits < usize::BITS,
        ptr as int % tag_span(bits) == 0,
        tag < tag_span(bits),
    ensures
        0 < tag_span(bits) <= usize::MAX,
        ptr + tag <= usize::MAX,
        (ptr + tag) % tag_span(bits) == tag as int,
{
    let m = tag_span(bits);
    vstd::bits::lemma_usize_pow2_no_overflow(bits as nat);
    // The word range is itself a multiple of the span.
    let rest = (usize::BITS - bits) as nat;
    lemma_pow2_adds(bits as nat, rest);
    lemma_pow2_pos(rest);
    lemma2_to64();
    lemma2_to64_rest();
    let top: int = usize::MAX + 1;
    assert(top == pow2(usize::BITS as nat));
    assert(top == m * pow2(rest));
    let q = ptr as int / m;
    assert(ptr as int == m * q) by {
        vstd::arithmetic::div_mod::lemma_fundamental_div_mod(ptr as int, m);
    }
    assert(q < pow2(rest)) by (nonlinear_arith)
        requires
            m * q < m * pow2(rest),
            m > 0,
    ;
    assert(m * q + m <= m * pow2(rest)) by (nonlinear_arith)
        requires
            q + 1 <= pow2(rest),
            m > 0,
    ;
    vstd::arithmetic::div_mod::lemma_fundamental_div_mod_converse(ptr + tag, m, q, tag as int);
}

impl<const TAG_BITS: usize, T> TaggedPtr<TAG_BITS, T> {
    /// The word as stored: address and tag together.
    pub closed spec fn raw(&self) -> usize {
        self.ptr
    }

    /// The address part: the word with its low `TAG_BITS` bits cleared.
    pub open spec fn ptr_spec(&self) -> int {
        self.raw() - self.raw() as int % tag_span(TAG_BITS)
    }

    /// The tag part: the low `TAG_BITS` bits of the word.
    pub open spec fn tag_spec(&self) -> int {
        self.raw() as int % tag_span(TAG_BITS)
    }

    fn span() -> (m: usize)
        requires
            TAG_BITS < usize::BITS,
        ensures
            m == tag_span(TAG_BITS),
            m > 0,
    {
        proof {
            vstd::bits::lemma_usize_pow2_no_overflow(TAG_BITS as nat);
            vstd::bits::lemma_usize_shl_is_mul(1usize, TAG_BITS);
        }
        1usize << TAG_BITS
    }

    /// Packs `ptr` and `tag` into one word.
    pub fn new(ptr: usize, tag: usize) -> (r: Self)
        requires
            TAG_BITS < usize::BITS,
            tag < tag_span(TAG_BITS),
            ptr as int % tag_span(TAG_BITS) == 0,
        ensures
            r.ptr_spec() == ptr,
            r.tag_spec() == tag,
            r.raw() == ptr + tag,
    {
        proof {
            lemma_tag_span(TAG_BITS, ptr, tag);
        }
        Self { ptr: ptr + tag, _marker: PhantomData }
    }

    /// The address, with the tag bits cleared.
    pub fn ptr(&self) -> (p: usize)
        requires
            TAG_BITS < usize::BITS,
        ensures
            p == self.ptr_spec(),
    {
        let m = Self::span();
        proof {
            vstd::arithmetic::div_mod::lemma_mod_decreases(self.ptr as nat, m as nat);
        }
        self.ptr - self.ptr % m
    }

    /// The tag.
    pub fn tag(&self) -> (t: usize)
        requires
            TAG_BITS < usize::BITS,
        ensures
            t == self.tag_spec(),
    {
        let m = Self::span();
        self.ptr % m
    }

    /// Replaces the tag and leaves the address as it was.
    pub fn set_tag(&mut self, tag: usize)
        requires
            TAG_BITS < usize::BITS,
            tag < tag_span(TAG_BITS),
        ensures
            final(self).ptr_spec() == old(self).ptr_spec(),
            final(self).tag_spec() == tag,
    {
        let p = self.ptr();
        proof {
            let m = tag_span(TAG_BITS);
            vstd::bits::lemma_usize_pow2_no_overflow(TAG_BITS as nat);
            vstd::arithmetic::div_mod::lemma_fundamental_div_mod(self.ptr as int, m);
            vstd::arithmetic::div_mod::lemma_mod_multiples_basic(self.ptr as int / m, m);
            vstd::arithmetic::mul::lemma_mul_is_commutative(self.ptr as int / m, m);
            lemma_tag_span(TAG_BITS, p, tag);
        }
        self.ptr = p + tag;
    }

    /// Replaces the address and leaves the tag as it was.
    pub fn set_ptr(&mut self, ptr: usize)
        requires
            TAG_BITS < usize::BITS,
            ptr as int % tag_span(TAG_BITS) == 0,
        ensures
            final(self).ptr_spec() == ptr,
            final(self).tag_spec() == old(self).tag_spec(),
    {
        let t = self.tag();
        proof {
            vstd::bits::lemma_usize_pow2_no_overflow(TAG_BITS as nat);
            lemma_tag_span(TAG_BITS, ptr, t);
        }
        self.ptr = ptr + t;
    }
}

} // verus!
