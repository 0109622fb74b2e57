use vstd::prelude::*;

use vstd::arithmetic::div_mod::{
    lemma_add_mod_noop, lemma_add_mod_noop_right, lemma_mod_bound, lemma_small_mod,
    lemma_sub_mod_noop,
};

verus! {

// Change detection hashes a file's raw bytes with Adler-32: a running byte
// sum and a running sum of sums, each mod 65521, packed into one 32-bit
// word.  It is a fast checksum, not an integrity guarantee; all the store
// asks of it is that rewriting one byte of a file changes the word, which
// `lemma_adler32_one_byte_change` proves.

/// Adler-32 byte-sum accumulator over `s` (the low half), mod 65521.
pub open spec fn adler_s1(s: Seq<u8>) -> int
    decreases s.len(),
{
    if s.len() == 0 {
        1
    } else {
        (adler_s1(s.drop_last()) + s.last()) % 65521
    }
}

/// Adler-32 sum-of-sums accumulator over `s` (the high half), mod 65521.
pub open spec fn adler_s2(s: Seq<u8>) -> int
    decreases s.len(),
{
    if s.len() == 0 {
        0
    } else {
        (adler_s2(s.drop_last()) + adler_s1(s)) % 65521
    }
}

/// The Adler-32 word of `s`.
pub open spec fn spec_adler32(s: Seq<u8>) -> int {
    adler_s2(s) * 65536 + adler_s1(s)
}

/// The checksum this library takes of a file's text: Adler-32 over its
/// UTF-8 bytes.
pub open spec fn checksum_of(s: Seq<char>) -> int {
    spec_adler32(vstd::utf8::encode_utf8(s))
}

pub proof fn lemma_adler_s1_bound(s: Seq<u8>)
    ensures
        0 <= adler_s1(s) < 65521,
        0 <= adler_s2(s) < 65521,
    decreases s.len(),
{
    if s.len() > 0 {
        lemma_adler_s1_bound(s.drop_last());
        lemma_mod_bound(adler_s1(s.drop_last()) + s.last(), 65521);
        lemma_mod_bound(adler_s2(s.drop_last()) + adler_s1(s), 65521);
    }
}

/// Adler-32 of a byte slice.
pub fn adler32(data: &[u8]) -> (r: u32)
    ensures
        r == spec_adler32(data@),
{
    let mut a: u32 = 1;
    let mut b: u32 = 0;
    let mut i: usize = 0;
    while i < data.len()
        invariant
            0 <= i <= data@.len(),
            a == adler_s1(data@.take(i as int)),
            b == adler_s2(data@.take(i as int)),
            a < 65521,
            b < 65521,
        decreases data@.len() - i,
    {
        let byte: u8 = data[i];
        a = (a + byte as u32) % 65521;
        b = (b + a) % 65521;
        proof {
            assert(data@.take(i + 1).drop_last() =~= data@.take(i as int));
            assert(data@.take(i + 1).last() == data@[i as int]);
        }
        i = i + 1;
    }
    proof {
        assert(data@.take(data@.len() as int) =~= data@);
    }
    b * 65536 + a
}

/// The checksum of a file's text, as `checksum_of` gives it.
pub fn checksum_str(s: &str) -> (r: u32)
    ensures
        r == checksum_of(s@),
{
    adler32(s.as_bytes())
}

/// Plain byte sum of `s`.
pub open spec fn byte_sum(s: Seq<u8>) -> int
    decreases s.len(),
{
    if s.len() == 0 {
        0
    } else {
        byte_sum(s.drop_last()) + s.last()
    }
}

pub proof fn lemma_adler_s1_is_sum(s: Seq<u8>)
    ensures
        adler_s1(s) == (1 + byte_sum(s)) % 65521,
    decreases s.len(),
{
    if s.len() == 0 {
        lemma_small_mod(1, 65521);
    } else {
        lemma_adler_s1_is_sum(s.drop_last());
        lemma_add_mod_noop_right(s.last() as int, 1 + byte_sum(s.drop_last()), 65521);
        assert((s.last() + (1 + byte_sum(s.drop_last())) % 65521) % 65521 == (s.last() + (1
            + byte_sum(s.drop_last()))) % 65521);
    }
}

pub proof fn lemma_byte_sum_one_change(s1: Seq<u8>, s2: Seq<u8>, p: int)
    requires
        s1.len() == s2.len(),
        0 <= p < s1.len(),
        forall|i: int| 0 <= i < s1.len() && i != p ==> s1[i] == s2[i],
    ensures
        byte_sum(s1) - byte_sum(s2) == s1[p] - s2[p],
    decreases s1.len(),
{
    if p == s1.len() - 1 {
        assert(s1.drop_last() =~= s2.drop_last());
    } else {
        lemma_byte_sum_one_change(s1.drop_last(), s2.drop_last(), p);
    }
}

/// Replacing exactly one byte of a text by a different byte changes its
/// Adler-32 word: the byte sums then differ by less than the modulus, so the
/// low halves differ.
pub proof fn lemma_adler32_one_byte_change(s1: Seq<u8>, s2: Seq<u8>, p: int)
    requires
        s1.len() == s2.len(),
        0 <= p < s1.len(),
        s1[p] != s2[p],
        forall|i: int| 0 <= i < s1.len() && i != p ==> s1[i] == s2[i],
    ensures
        spec_adler32(s1) != spec_adler32(s2),
{
    lemma_byte_sum_one_change(s1, s2, p);
    lemma_adler_s1_is_sum(s1);
    lemma_adler_s1_is_sum(s2);
    lemma_adler_s1_bound(s1);
    lemma_adler_s1_bound(s2);
    let a = 1 + byte_sum(s1);
    let b = 1 + byte_sum(s2);
    if adler_s1(s1) == adler_s1(s2) {
        lemma_sub_mod_noop(a, b, 65521);
        assert((a - b) % 65521 == 0);
        assert(-65521 < a - b < 65521);
        lemma_small_mod((if a >= b {
            a - b
        } else {
            b - a
        }) as nat, 65521);
        assert(false);
    }
    assert(adler_s2(s1) * 65536 + adler_s1(s1) != adler_s2(s2) * 65536 + adler_s1(s2)) by {
        assert(0 <= adler_s1(s1) < 65536 && 0 <= adler_s1(s2) < 65536);
    }
}

/// Texts whose UTF-8 encodings differ in exactly one byte have different
/// checksums.
pub proof fn lemma_one_byte_changes_checksum(c1: Seq<char>, c2: Seq<char>, p: int)
    requires
        vstd::utf8::encode_utf8(c1).len() == vstd::utf8::encode_utf8(c2).len(),
        0 <= p < vstd::utf8::encode_utf8(c1).len(),
        vstd::utf8::encode_utf8(c1)[p] != vstd::utf8::encode_utf8(c2)[p],
        forall|i: int|
            0 <= i < vstd::utf8::encode_utf8(c1).len() && i != p ==> vstd::utf8::encode_utf8(c1)[i]
                == vstd::utf8::encode_utf8(c2)[i],
    ensures
        checksum_of(c1) != checksum_of(c2),
{
    lemma_adler32_one_byte_change(vstd::utf8::encode_utf8(c1), vstd::utf8::encode_utf8(c2), p);
}

} // verus!
