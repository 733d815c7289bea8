//! Lines as strings: what a `String` holds as bytes, and the cuts and joins
//! of strings at byte offsets.

use vstd::prelude::*;
use vstd::string::{StringExecFns, StringSliceAdditionalSpecFns};
use vstd::utf8::{encode_utf8, is_char_boundary};

verus! {

/// The bytes of the characters `a` followed by the bytes of the characters
/// `b` are the bytes of `a` followed by `b`.
pub proof fn lemma_encode_add(a: Seq<char>, b: Seq<char>)
    ensures
        encode_utf8(a + b) == encode_utf8(a) + encode_utf8(b),
    decreases a.len(),
{
    if a.len() == 0 {
        assert(a + b =~= b);
        assert(encode_utf8(a) + encode_utf8(b) =~= encode_utf8(b));
    } else {
        lemma_encode_add(a.drop_first(), b);
        assert((a + b).drop_first() =~= a.drop_first() + b);
        assert(encode_utf8(a + b) =~= encode_utf8(a) + encode_utf8(b));
    }
}

/// Characters with the same bytes are the same characters.
pub proof fn lemma_encode_injective(a: Seq<char>, b: Seq<char>)
    requires
        encode_utf8(a) == encode_utf8(b),
    ensures
        a == b,
{
    vstd::utf8::encode_utf8_decode_utf8(a);
    vstd::utf8::encode_utf8_decode_utf8(b);
}

/// The number of bytes in `s`.
pub fn byte_len(s: &str) -> (n: usize)
    ensures
        n == s.spec_bytes().len(),
{
    s.as_bytes().len()
}

/// The part of `s` before the byte offset `at`, and the part from it on.
pub fn cut(s: &str, at: usize) -> (parts: (&str, &str))
    requires
        is_char_boundary(s.spec_bytes(), at as int),
    ensures
        parts.0.spec_bytes() == s.spec_bytes().subrange(0, at as int),
        parts.1.spec_bytes() == s.spec_bytes().subrange(at as int, s.spec_bytes().len() as int),
{
    s.split_at(at)
}

/// The part of `s` between the byte offsets `from` and `to`.
pub fn part(s: &str, from: usize, to: usize) -> (part: &str)
    requires
        from <= to,
        is_char_boundary(s.spec_bytes(), from as int),
        is_char_boundary(s.spec_bytes(), to as int),
    ensures
        part.spec_bytes() == s.spec_bytes().subrange(from as int, to as int),
{
    let (head, _) = cut(s, to);
    proof {
        vstd::utf8::encode_utf8_valid_utf8(s@);
        vstd::utf8::encode_utf8_valid_utf8(head@);
        crate::lines::lemma_boundary(s.spec_bytes(), from as int);
        crate::lines::lemma_boundary(s.spec_bytes(), to as int);
        crate::lines::lemma_boundary(head.spec_bytes(), from as int);
    }
    let (_, part) = cut(head, from);
    assert(part.spec_bytes() =~= s.spec_bytes().subrange(from as int, to as int));
    part
}

/// A new string that holds `a` followed by `b`.
pub fn join(a: &str, b: &str) -> (joined: String)
    ensures
        encode_utf8(joined@) == a.spec_bytes() + b.spec_bytes(),
        encode_utf8(joined@).len() <= usize::MAX,
{
    let mut joined = String::from_str(a);
    joined.append(b);
    proof {
        lemma_encode_add(a@, b@);
    }
    let _ = byte_len(joined.as_str());
    joined
}

/// A new string that holds `a`, `b` and `c`, in this order.
pub fn join3(a: &str, b: &str, c: &str) -> (joined: String)
    ensures
        encode_utf8(joined@) == a.spec_bytes() + b.spec_bytes() + c.spec_bytes(),
        encode_utf8(joined@).len() <= usize::MAX,
{
    let mut joined = String::from_str(a);
    joined.append(b);
    joined.append(c);
    proof {
        lemma_encode_add(a@, b@);
        lemma_encode_add(a@ + b@, c@);
    }
    let _ = byte_len(joined.as_str());
    joined
}

} // verus!
