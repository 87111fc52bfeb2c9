//! The heap's backing store: an anonymous memory mapping read and written as
//! bytes, with the little-endian words that headers and managed pointers use.

use memmap2::MmapMut;
use vstd::prelude::*;

verus! {

#[verifier::external_type_specification]
#[verifier::external_body]
pub struct ExMmapMut(MmapMut);

#[verifier::external_type_specification]
#[verifier::external_body]
pub struct ExIoError(std::io::Error);

/// The bytes that a mapping holds, first to last.
pub uninterp spec fn mmap_bytes(m: MmapMut) -> Seq<u8>;

/// `memmap2::MmapMut::map_anon`: asks the system for a private anonymous
/// mapping. A length above `isize::MAX` is refused before the system is
/// asked; whether any other is granted is the system's decision. A mapping
/// that is granted is exactly `len` bytes long. Nothing is claimed of its
/// contents.
#[verifier::external_body]
pub(crate) fn map_anon(len: usize) -> (r: Result<MmapMut, std::io::Error>)
    ensures
        r matches Ok(m) ==> mmap_bytes(m).len() == len,
        len > isize::MAX ==> r is Err,
{
    MmapMut::map_anon(len)
}

/// Indexing through `memmap2::MmapMut`'s `Deref` to `[u8]`: the byte at `i`.
#[verifier::external_body]
pub(crate) fn mmap_get(m: &MmapMut, i: usize) -> (b: u8)
    requires
        i < mmap_bytes(*m).len(),
    ensures
        b == mmap_bytes(*m)[i as int],
{
    m[i]
}

/// Indexing through `memmap2::MmapMut`'s `DerefMut` to `[u8]`: the byte at
/// `i` becomes `b` and every other byte stays.
#[verifier::external_body]
pub(crate) fn mmap_set(m: &mut MmapMut, i: usize, b: u8)
    requires
        i < mmap_bytes(*old(m)).len(),
    ensures
        mmap_bytes(*final(m)) == mmap_bytes(*old(m)).update(i as int, b),
{
    m[i] = b;
}

/// One more than the largest word.
pub open spec fn word_limit() -> int {
    0x1_0000_0000_0000_0000
}

/// The eight bytes from `a` on, read as a little-endian number.
#[verifier::opaque]
pub open spec fn word_at(mem: Seq<u8>, a: int) -> int {
    mem[a] as int + 0x100 * (mem[a + 1] as int) + 0x1_0000 * (mem[a + 2] as int) + 0x100_0000 * (
    mem[a + 3] as int) + 0x1_0000_0000 * (mem[a + 4] as int) + 0x100_0000_0000 * (mem[a
        + 5] as int) + 0x1_0000_0000_0000 * (mem[a + 6] as int) + 0x100_0000_0000_0000 * (mem[a
        + 7] as int)
}

/// Byte `k` of the little-endian form of `w`.
#[verifier::opaque]
pub open spec fn word_byte(w: int, k: int) -> u8 {
    let q1 = w / 0x100;
    let q2 = q1 / 0x100;
    let q3 = q2 / 0x100;
    let q4 = q3 / 0x100;
    let q5 = q4 / 0x100;
    let q6 = q5 / 0x100;
    let q7 = q6 / 0x100;
    let q = if k == 0 {
        w
    } else if k == 1 {
        q1
    } else if k == 2 {
        q2
    } else if k == 3 {
        q3
    } else if k == 4 {
        q4
    } else if k == 5 {
        q5
    } else if k == 6 {
        q6
    } else {
        q7
    };
    (q % 0x100) as u8
}

/// `mem` with the eight bytes from `a` on replaced by the little-endian form
/// of `w`.
#[verifier::opaque]
pub open spec fn store_word(mem: Seq<u8>, a: int, w: int) -> Seq<u8> {
    Seq::new(
        mem.len(),
        |i: int|
            if a <= i < a + 8 {
                word_byte(w, i - a)
            } else {
                mem[i]
            },
    )
}

/// `mem` with the `n` bytes from `dst` on replaced by the `n` bytes from `src`
/// on.
pub open spec fn copy_bytes(mem: Seq<u8>, src: int, dst: int, n: int) -> Seq<u8> {
    Seq::new(
        mem.len(),
        |i: int|
            if dst <= i < dst + n {
                mem[src + (i - dst)]
            } else {
                mem[i]
            },
    )
}

/// `mem` with the bytes from `a` on replaced by `data`.
pub open spec fn with_bytes(mem: Seq<u8>, a: int, data: Seq<u8>) -> Seq<u8> {
    Seq::new(
        mem.len(),
        |i: int|
            if a <= i < a + data.len() {
                data[i - a]
            } else {
                mem[i]
            },
    )
}

/// Every word is a number below `word_limit()`.
pub broadcast proof fn lemma_word_range(mem: Seq<u8>, a: int)
    ensures
        0 <= #[trigger] word_at(mem, a) < word_limit(),
{
    reveal(word_at);
}

/// Storing a word keeps the length and every byte outside the word.
pub broadcast proof fn lemma_store_bytes(mem: Seq<u8>, a: int, w: int)
    ensures
        (#[trigger] store_word(mem, a, w)).len() == mem.len(),
        forall|i: int|
            0 <= i < mem.len() && !(a <= i < a + 8) ==> store_word(mem, a, w)[i] == mem[i],
{
    reveal(store_word);
}

/// A word that was stored is the word read back.
pub broadcast proof fn lemma_store_then_read(mem: Seq<u8>, a: int, w: int)
    requires
        0 <= a,
        a + 8 <= mem.len(),
        0 <= w < word_limit(),
    ensures
        word_at(#[trigger] store_word(mem, a, w), a) == w,
{
    reveal(word_at);
    reveal(word_byte);
    reveal(store_word);
    let s = store_word(mem, a, w);
    let q1 = w / 0x100;
    let q2 = q1 / 0x100;
    let q3 = q2 / 0x100;
    let q4 = q3 / 0x100;
    let q5 = q4 / 0x100;
    let q6 = q5 / 0x100;
    let q7 = q6 / 0x100;
    assert(w == w % 0x100 + 0x100 * q1);
    assert(q1 == q1 % 0x100 + 0x100 * q2);
    assert(q2 == q2 % 0x100 + 0x100 * q3);
    assert(q3 == q3 % 0x100 + 0x100 * q4);
    assert(q4 == q4 % 0x100 + 0x100 * q5);
    assert(q5 == q5 % 0x100 + 0x100 * q6);
    assert(q6 == q6 % 0x100 + 0x100 * q7);
    assert(q7 == q7 % 0x100);
    assert(s[a] == word_byte(w, 0));
    assert(s[a + 1] == word_byte(w, 1));
    assert(s[a + 2] == word_byte(w, 2));
    assert(s[a + 3] == word_byte(w, 3));
    assert(s[a + 4] == word_byte(w, 4));
    assert(s[a + 5] == word_byte(w, 5));
    assert(s[a + 6] == word_byte(w, 6));
    assert(s[a + 7] == word_byte(w, 7));
}

/// Two memories that agree on the eight bytes from `a` on hold the same word
/// there.
pub proof fn lemma_word_agree(m1: Seq<u8>, m2: Seq<u8>, a: int)
    requires
        forall|i: int| a <= i < a + 8 ==> m1[i] == m2[i],
    ensures
        word_at(m1, a) == word_at(m2, a),
{
    reveal(word_at);
    assert(m1[a] == m2[a]);
    assert(m1[a + 1] == m2[a + 1]);
    assert(m1[a + 2] == m2[a + 2]);
    assert(m1[a + 3] == m2[a + 3]);
    assert(m1[a + 4] == m2[a + 4]);
    assert(m1[a + 5] == m2[a + 5]);
    assert(m1[a + 6] == m2[a + 6]);
    assert(m1[a + 7] == m2[a + 7]);
}

/// Eight bytes that are the same at two places are the same word.
pub proof fn lemma_word_moved(m1: Seq<u8>, a1: int, m2: Seq<u8>, a2: int)
    requires
        forall|i: int| a1 <= i < a1 + 8 ==> #[trigger] m1[i] == m2[i - a1 + a2],
    ensures
        word_at(m1, a1) == word_at(m2, a2),
{
    reveal(word_at);
    assert(m1[a1] == m2[a1 - a1 + a2]);
    assert(m1[a1 + 1] == m2[a1 + 1 - a1 + a2]);
    assert(m1[a1 + 2] == m2[a1 + 2 - a1 + a2]);
    assert(m1[a1 + 3] == m2[a1 + 3 - a1 + a2]);
    assert(m1[a1 + 4] == m2[a1 + 4 - a1 + a2]);
    assert(m1[a1 + 5] == m2[a1 + 5 - a1 + a2]);
    assert(m1[a1 + 6] == m2[a1 + 6 - a1 + a2]);
    assert(m1[a1 + 7] == m2[a1 + 7 - a1 + a2]);
}

/// Storing a word leaves every word that does not overlap it as it was.
pub broadcast proof fn lemma_store_frame(mem: Seq<u8>, a: int, w: int, b: int)
    requires
        0 <= b,
        b + 8 <= mem.len(),
        b + 8 <= a || a + 8 <= b,
    ensures
        #[trigger] word_at(store_word(mem, a, w), b) == word_at(mem, b),
{
    lemma_store_bytes(mem, a, w);
    lemma_word_agree(store_word(mem, a, w), mem, b);
}

pub broadcast group group_words {
    lemma_word_range,
    lemma_store_bytes,
    lemma_store_then_read,
    lemma_store_frame,
}

/// Reads the word at `a`.
pub(crate) fn load(m: &MmapMut, a: usize) -> (w: u64)
    requires
        a + 8 <= mmap_bytes(*m).len() <= usize::MAX,
    ensures
        w == word_at(mmap_bytes(*m), a as int),
{
    proof {
        reveal(word_at);
    }
    let b0 = mmap_get(m, a) as u64;
    let b1 = mmap_get(m, a + 1) as u64;
    let b2 = mmap_get(m, a + 2) as u64;
    let b3 = mmap_get(m, a + 3) as u64;
    let b4 = mmap_get(m, a + 4) as u64;
    let b5 = mmap_get(m, a + 5) as u64;
    let b6 = mmap_get(m, a + 6) as u64;
    let b7 = mmap_get(m, a + 7) as u64;
    b0 + 0x100 * b1 + 0x1_0000 * b2 + 0x100_0000 * b3 + 0x1_0000_0000 * b4 + 0x100_0000_0000 * b5
        + 0x1_0000_0000_0000 * b6 + 0x100_0000_0000_0000 * b7
}

/// Writes the word `w` at `a`.
pub(crate) fn store(m: &mut MmapMut, a: usize, w: u64)
    requires
        a + 8 <= mmap_bytes(*old(m)).len() <= usize::MAX,
    ensures
        mmap_bytes(*final(m)) == store_word(mmap_bytes(*old(m)), a as int, w as int),
{
    proof {
        reveal(word_byte);
        reveal(store_word);
    }
    let q1 = w / 0x100;
    let q2 = q1 / 0x100;
    let q3 = q2 / 0x100;
    let q4 = q3 / 0x100;
    let q5 = q4 / 0x100;
    let q6 = q5 / 0x100;
    let q7 = q6 / 0x100;
    mmap_set(m, a, (w % 0x100) as u8);
    mmap_set(m, a + 1, (q1 % 0x100) as u8);
    mmap_set(m, a + 2, (q2 % 0x100) as u8);
    mmap_set(m, a + 3, (q3 % 0x100) as u8);
    mmap_set(m, a + 4, (q4 % 0x100) as u8);
    mmap_set(m, a + 5, (q5 % 0x100) as u8);
    mmap_set(m, a + 6, (q6 % 0x100) as u8);
    mmap_set(m, a + 7, (q7 % 0x100) as u8);
    assert(mmap_bytes(*m) =~= store_word(mmap_bytes(*old(m)), a as int, w as int));
}

/// Copies the `n` bytes from `src` on over the `n` bytes from `dst` on. The two
/// ranges lie apart.
pub(crate) fn copy(m: &mut MmapMut, src: usize, dst: usize, n: usize)
    requires
        mmap_bytes(*old(m)).len() <= usize::MAX,
        src + n <= mmap_bytes(*old(m)).len(),
        dst + n <= mmap_bytes(*old(m)).len(),
        src + n <= dst || dst + n <= src,
    ensures
        mmap_bytes(*final(m)) == copy_bytes(mmap_bytes(*old(m)), src as int, dst as int, n as int),
{
    let mut k: usize = 0;
    while k < n
        invariant
            k <= n,
            mmap_bytes(*old(m)).len() <= usize::MAX,
            src + n <= mmap_bytes(*old(m)).len(),
            dst + n <= mmap_bytes(*old(m)).len(),
            src + n <= dst || dst + n <= src,
            mmap_bytes(*m) == copy_bytes(mmap_bytes(*old(m)), src as int, dst as int, k as int),
        decreases n - k,
    {
        let b = mmap_get(m, src + k);
        mmap_set(m, dst + k, b);
        k += 1;
        assert(mmap_bytes(*m) =~= copy_bytes(
            mmap_bytes(*old(m)),
            src as int,
            dst as int,
            k as int,
        ));
    }
}

/// Writes `data` over the bytes from `a` on.
pub(crate) fn write_all(m: &mut MmapMut, a: usize, data: &[u8])
    requires
        a + data@.len() <= mmap_bytes(*old(m)).len() <= usize::MAX,
    ensures
        mmap_bytes(*final(m)) == with_bytes(mmap_bytes(*old(m)), a as int, data@),
{
    let n = data.len();
    let mut k: usize = 0;
    assert(mmap_bytes(*m) =~= with_bytes(mmap_bytes(*old(m)), a as int, data@.take(0)));
    while k < n
        invariant
            k <= n,
            n == data@.len(),
            a + n <= mmap_bytes(*old(m)).len() <= usize::MAX,
            mmap_bytes(*m) == with_bytes(mmap_bytes(*old(m)), a as int, data@.take(k as int)),
        decreases n - k,
    {
        let b = data[k];
        mmap_set(m, a + k, b);
        k += 1;
        assert(mmap_bytes(*m) =~= with_bytes(
            mmap_bytes(*old(m)),
            a as int,
            data@.take(k as int),
        ));
    }
    assert(data@.take(n as int) =~= data@);
}

} // verus!
