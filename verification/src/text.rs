//! Small text utilities: character/byte bookkeeping for error offsets and
//! conversions between `&str`, `Vec<char>`, and `String`.

use vstd::prelude::*;
use vstd::std_specs::iter::IteratorSpec;
use vstd::utf8::char_is_scalar;
use vstd::utf8::encode_scalar;
use vstd::utf8::encode_utf8;

verus! {

broadcast use {vstd::string::group_string_axioms, vstd::utf8::char_is_scalar};

/// The width in bytes of the UTF-8 encoding of one character.
pub open spec fn char_bytes(c: char) -> int {
    encode_scalar(c as u32).len() as int
}

/// The byte offset of character position `i` of `s` in the UTF-8 encoding
/// of `s`: error indices reported by this crate are such offsets.
pub open spec fn byte_off(s: Seq<char>, i: int) -> int {
    encode_utf8(s.take(i)).len() as int
}

/// `encode_utf8` distributes over concatenation.
pub proof fn lemma_encode_utf8_concat(a: Seq<char>, b: Seq<char>)
    ensures
        encode_utf8(a + b) == encode_utf8(a) + encode_utf8(b),
    decreases a.len(),
{
    if a.len() == 0 {
        assert(a + b =~= b);
        assert(encode_utf8(a) + encode_utf8(b) =~= encode_utf8(b));
    } else {
        assert((a + b).len() > 0);
        assert((a + b)[0] == a[0]);
        assert((a + b).drop_first() =~= a.drop_first() + b);
        lemma_encode_utf8_concat(a.drop_first(), b);
        assert(encode_scalar(a[0] as u32) + (encode_utf8(a.drop_first()) + encode_utf8(b))
            =~= (encode_scalar(a[0] as u32) + encode_utf8(a.drop_first())) + encode_utf8(b));
    }
}

/// Stepping one character forward advances the byte offset by that
/// character's encoded width.
pub proof fn lemma_byte_off_step(s: Seq<char>, i: int)
    requires
        0 <= i < s.len(),
    ensures
        byte_off(s, i + 1) == byte_off(s, i) + char_bytes(s[i]),
{
    assert(s.take(i + 1) =~= s.take(i) + seq![s[i]]);
    lemma_encode_utf8_concat(s.take(i), seq![s[i]]);
    assert(seq![s[i]].drop_first() =~= Seq::<char>::empty());
    assert(encode_utf8(Seq::<char>::empty()) =~= Seq::<u8>::empty());
    assert(encode_utf8(seq![s[i]]) =~= encode_scalar(s[i] as u32) + Seq::<u8>::empty());
    assert(encode_scalar(s[i] as u32) + Seq::<u8>::empty() =~= encode_scalar(s[i] as u32));
}

/// Byte offsets grow with the character position.
pub proof fn lemma_byte_off_le(s: Seq<char>, i: int, j: int)
    requires
        0 <= i <= j <= s.len(),
    ensures
        byte_off(s, i) <= byte_off(s, j),
    decreases j - i,
{
    if i < j {
        lemma_byte_off_step(s, j - 1);
        lemma_byte_off_le(s, i, j - 1);
        char_is_scalar(s[j - 1]);
    }
}

/// The byte offset of the end of `s` is the length of its UTF-8 encoding.
pub proof fn lemma_byte_off_end(s: Seq<char>)
    ensures
        byte_off(s, s.len() as int) == encode_utf8(s).len(),
{
    assert(s.take(s.len() as int) =~= s);
}

/// The width in bytes of the UTF-8 encoding of `c`.
pub fn char_utf8_len(c: char) -> (n: usize)
    ensures
        n == char_bytes(c),
        1 <= n <= 4,
{
    let u = c as u32;
    if u < 0x80 {
        1
    } else if u < 0x800 {
        2
    } else if u < 0x10000 {
        3
    } else {
        proof {
            char_is_scalar(c);
        }
        4
    }
}

/// The characters of `s`, in order, as a vector.
pub fn str_to_chars(s: &str) -> (v: Vec<char>)
    ensures
        v@ == s@,
{
    let mut it = s.chars();
    let mut v: Vec<char> = Vec::new();
    loop
        invariant
            v@ + it.remaining() == s@,
            it.decrease() is Some,
        ensures
            v@ == s@,
        decreases it.decrease()->0,
    {
        match it.next() {
            Some(c) => {
                v.push(c);
                assert(v@ + it.remaining() =~= s@);
            },
            None => {
                assert(v@ =~= s@);
                break ;
            },
        }
    }
    v
}

/// Relies on `String`'s `FromIterator` impl: collecting characters yields
/// the string of exactly those characters, in order.
#[verifier::external_body]
pub fn chars_to_string(v: &Vec<char>) -> (s: String)
    ensures
        s@ == v@,
{
    v.iter().collect()
}

/// A character sequence never has more characters than its UTF-8 encoding
/// has bytes.
pub proof fn lemma_len_le_bytes(s: Seq<char>)
    ensures
        s.len() <= encode_utf8(s).len(),
    decreases s.len(),
{
    if s.len() > 0 {
        lemma_len_le_bytes(s.drop_first());
        char_is_scalar(s[0]);
    }
}

/// The byte offset of the start of a sequence is zero.
pub proof fn lemma_byte_off_zero(s: Seq<char>)
    ensures
        byte_off(s, 0) == 0,
{
    assert(s.take(0) =~= Seq::<char>::empty());
}

/// The characters of `v` from position `from` (inclusive) to `to`
/// (exclusive), as a fresh vector.
pub fn vec_slice_chars(v: &Vec<char>, from: usize, to: usize) -> (r: Vec<char>)
    requires
        from <= to <= v@.len(),
    ensures
        r@ == v@.subrange(from as int, to as int),
{
    let mut r: Vec<char> = Vec::new();
    let mut i: usize = from;
    while i < to
        invariant
            from <= i <= to <= v@.len(),
            r@ == v@.subrange(from as int, i as int),
        decreases to - i,
    {
        r.push(v[i]);
        proof {
            assert(r@ =~= v@.subrange(from as int, i + 1));
        }
        i = i + 1;
    }
    r
}

/// The number of bytes that the characters of `v` between positions `from`
/// and `to` occupy in the UTF-8 encoding of `v`.
pub fn byte_distance(v: &Vec<char>, from: usize, to: usize) -> (n: usize)
    requires
        from <= to <= v@.len(),
        encode_utf8(v@).len() <= usize::MAX,
    ensures
        n == byte_off(v@, to as int) - byte_off(v@, from as int),
{
    proof {
        lemma_byte_off_le(v@, 0, from as int);
        lemma_byte_off_zero(v@);
    }
    let mut n: usize = 0;
    let mut i: usize = from;
    while i < to
        invariant
            from <= i <= to <= v@.len(),
            encode_utf8(v@).len() <= usize::MAX,
            byte_off(v@, from as int) >= 0,
            n == byte_off(v@, i as int) - byte_off(v@, from as int),
        decreases to - i,
    {
        let w = char_utf8_len(v[i]);
        proof {
            lemma_byte_off_step(v@, i as int);
            lemma_byte_off_le(v@, i + 1, v@.len() as int);
            lemma_byte_off_end(v@);
        }
        n = n + w;
        i = i + 1;
    }
    n
}

} // verus!
