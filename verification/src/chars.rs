//! Character-level helpers shared by the grammar parsers: turning borrowed
//! string slices into character vectors, building strings back up from
//! characters, and measuring UTF-8 byte widths for error offsets.

use vstd::prelude::*;
use vstd::string::StrSliceExecFns;

verus! {

/// The views of a sequence of strings: each string as its character
/// sequence.
pub open spec fn str_views(s: Seq<String>) -> Seq<Seq<char>> {
    Seq::new(s.len(), |i: int| s[i]@)
}

/// Collects the characters of a string slice into a vector, in order.
pub fn chars_of(s: &str) -> (r: Vec<char>)
    ensures
        r@ == s@,
{
    let n = s.unicode_len();
    let mut r: Vec<char> = Vec::new();
    let mut i: usize = 0;
    while i < n
        invariant
            n == s@.len(),
            i <= n,
            r@ == s@.take(i as int),
        decreases n - i,
    {
        r.push(s.get_char(i));
        i = i + 1;
        proof {
            assert(r@ =~= s@.take(i as int));
        }
    }
    proof {
        assert(r@ =~= s@);
    }
    r
}

/// Relies on String::push: appends the given character to the string.
#[verifier::external_body]
pub fn push_char(s: &mut String, c: char)
    ensures
        final(s)@ == old(s)@.push(c),
{
    s.push(c);
}

/// Builds an owned string out of a sequence of characters.
pub fn string_from_chars(v: &Vec<char>) -> (r: String)
    ensures
        r@ == v@,
{
    let mut r = String::new();
    let mut i: usize = 0;
    while i < v.len()
        invariant
            i <= v@.len(),
            r@ == v@.take(i as int),
        decreases v@.len() - i,
    {
        push_char(&mut r, v[i]);
        i = i + 1;
        proof {
            assert(r@ =~= v@.take(i as int));
        }
    }
    proof {
        assert(r@ =~= v@);
    }
    r
}

/// The width in bytes of the UTF-8 encoding of a character.
pub open spec fn char_width(c: char) -> int {
    let u = c as u32;
    if u <= 0x7F {
        1
    } else if u <= 0x7FF {
        2
    } else if u <= 0xFFFF {
        3
    } else {
        4
    }
}

/// The byte offset of character position `p` in a character sequence: the
/// total UTF-8 width of the characters before it.
pub open spec fn byte_pos(s: Seq<char>, p: int) -> int
    decreases p,
{
    if p <= 0 {
        0
    } else {
        byte_pos(s, p - 1) + char_width(s[p - 1])
    }
}

/// Byte offsets grow with the character position.
pub proof fn lemma_byte_pos_le(s: Seq<char>, p: int, q: int)
    requires
        0 <= p <= q,
    ensures
        byte_pos(s, p) <= byte_pos(s, q),
    decreases q,
{
    if p < q {
        lemma_byte_pos_le(s, p, q - 1);
    }
}

/// The UTF-8 encoding of a character has exactly [`char_width`] bytes.
pub proof fn lemma_encode_scalar_width(c: char)
    ensures
        vstd::utf8::encode_scalar(c as u32).len() == char_width(c),
{
}

/// Appending a character appends its encoding.
pub proof fn lemma_encode_utf8_push(s: Seq<char>, c: char)
    ensures
        vstd::utf8::encode_utf8(s.push(c)) == vstd::utf8::encode_utf8(s)
            + vstd::utf8::encode_scalar(c as u32),
    decreases s.len(),
{
    if s.len() == 0 {
        assert(s.push(c).drop_first() =~= Seq::<char>::empty());
        assert(s.push(c)[0] == c);
        assert(s.push(c).len() == 1);
        assert(vstd::utf8::encode_utf8(Seq::<char>::empty()) =~= Seq::<u8>::empty());
        assert(vstd::utf8::encode_utf8(s.push(c)) == vstd::utf8::encode_scalar(
            s.push(c)[0] as u32,
        ) + vstd::utf8::encode_utf8(s.push(c).drop_first()));
        assert(vstd::utf8::encode_utf8(s.push(c)) =~= vstd::utf8::encode_scalar(c as u32));
        assert(vstd::utf8::encode_utf8(s) + vstd::utf8::encode_scalar(c as u32)
            =~= vstd::utf8::encode_scalar(c as u32));
    } else {
        lemma_encode_utf8_push(s.drop_first(), c);
        assert(s.push(c).drop_first() =~= s.drop_first().push(c));
        assert(s.push(c)[0] == s[0]);
        assert(vstd::utf8::encode_utf8(s.push(c)) =~= vstd::utf8::encode_utf8(s)
            + vstd::utf8::encode_scalar(c as u32));
    }
}

/// The byte offset of position `p` is the length of the UTF-8 encoding of
/// the first `p` characters.
pub proof fn lemma_byte_pos_encode(s: Seq<char>, p: int)
    requires
        0 <= p <= s.len(),
    ensures
        byte_pos(s, p) == vstd::utf8::encode_utf8(s.take(p)).len(),
    decreases p,
{
    if p == 0 {
        assert(s.take(0) =~= Seq::<char>::empty());
    } else {
        lemma_byte_pos_encode(s, p - 1);
        assert(s.take(p) =~= s.take(p - 1).push(s[p - 1]));
        lemma_encode_utf8_push(s.take(p - 1), s[p - 1]);
        lemma_encode_scalar_width(s[p - 1]);
    }
}

/// Executable UTF-8 width of a character.
pub fn char_width_of(c: char) -> (r: usize)
    ensures
        r as int == char_width(c),
{
    let u = c as u32;
    if u <= 0x7F {
        1
    } else if u <= 0x7FF {
        2
    } else if u <= 0xFFFF {
        3
    } else {
        4
    }
}

/// The byte offset of character position `p` in the given characters,
/// provided the total width fits the machine.
pub fn byte_offset(v: &Vec<char>, p: usize) -> (r: usize)
    requires
        p <= v@.len(),
        byte_pos(v@, v@.len() as int) <= usize::MAX,
    ensures
        r as int == byte_pos(v@, p as int),
{
    let mut acc: usize = 0;
    let mut i: usize = 0;
    while i < p
        invariant
            i <= p <= v@.len(),
            byte_pos(v@, v@.len() as int) <= usize::MAX,
            acc as int == byte_pos(v@, i as int),
        decreases p - i,
    {
        proof {
            lemma_byte_pos_le(v@, i + 1, v@.len() as int);
        }
        let w = char_width_of(v[i]);
        acc = acc + w;
        i = i + 1;
    }
    acc
}

/// Character-by-character equality of two string slices.
pub fn str_eq(a: &str, b: &str) -> (r: bool)
    ensures
        r == (a@ == b@),
{
    let na = a.unicode_len();
    let nb = b.unicode_len();
    if na != nb {
        proof {
            assert(a@ != b@);
        }
        return false;
    }
    let mut i: usize = 0;
    while i < na
        invariant
            na == a@.len(),
            na == b@.len(),
            i <= na,
            forall|j: int| 0 <= j < i ==> a@[j] == b@[j],
        decreases na - i,
    {
        if a.get_char(i) != b.get_char(i) {
            proof {
                assert(a@[i as int] != b@[i as int]);
            }
            return false;
        }
        i = i + 1;
    }
    proof {
        assert(a@ =~= b@);
    }
    true
}

} // verus!
