//! Padding of text to a width counted in bytes of UTF-8 (`str::len`).
use vstd::prelude::*;
use vstd::utf8::encode_utf8;

verus! {

/// The number of bytes of the UTF-8 encoding of `s`.
pub open spec fn byte_len(s: Seq<char>) -> int {
    encode_utf8(s).len() as int
}

/// `s` with spaces in front, up to a width of `len` bytes.
pub open spec fn padded_left(s: Seq<char>, len: int) -> Seq<char> {
    if byte_len(s) < len { spaces(len - byte_len(s)) + s } else { s }
}

/// `s` with spaces behind, up to a width of `len` bytes.
pub open spec fn padded_right(s: Seq<char>, len: int) -> Seq<char> {
    if byte_len(s) < len { s + spaces(len - byte_len(s)) } else { s }
}

/// `n` spaces.
pub open spec fn spaces(n: int) -> Seq<char> {
    Seq::new(n as nat, |i: int| ' ')
}

fn push_spaces(result: &mut String, n: usize)
    ensures
        final(result)@ == old(result)@ + spaces(n as int),
{
    let mut i: usize = 0;
    let ghost start = result@;
    proof {
        reveal_strlit(" ");
    }
    while i < n
        invariant
            i <= n,
            result@ == start + spaces(i as int),
            " "@ == seq![' '],
            start == old(result)@,
        decreases n - i,
    {
        result.append(" ");
        i = i + 1;
        assert(result@ =~= start + spaces(i as int));
    }
}

/// `s` with spaces in front, up to a width of `len` bytes.
pub fn pad_left(s: &str, len: usize) -> (r: String)
    ensures
        r@ == if s.len() < len { spaces(len - s.len()) + s@ } else { s@ },
        byte_len(s@) <= usize::MAX ==> r@ == padded_left(s@, len as int),
{
    let n = s.len();
    let mut result = String::new();
    if n < len {
        push_spaces(&mut result, len - n);
    }
    result.append(s);
    assert(result@ =~= if s.len() < len { spaces(len - s.len()) + s@ } else { s@ });
    result
}

/// `s` with spaces behind, up to a width of `len` bytes.
pub fn pad_right(s: &str, len: usize) -> (r: String)
    ensures
        r@ == if s.len() < len { s@ + spaces(len - s.len()) } else { s@ },
        byte_len(s@) <= usize::MAX ==> r@ == padded_right(s@, len as int),
{
    let n = s.len();
    let mut result = String::from_str(s);
    if n < len {
        push_spaces(&mut result, len - n);
    }
    result
}

/// The encoding of a concatenation is the concatenation of the encodings.
proof fn lemma_encode_concat(a: Seq<char>, b: Seq<char>)
    ensures
        encode_utf8(a + b) == encode_utf8(a) + encode_utf8(b),
    decreases a.len(),
{
    if a.len() == 0 {
        assert(a + b =~= b);
        assert(encode_utf8(a) =~= Seq::<u8>::empty());
        assert(encode_utf8(a) + encode_utf8(b) =~= encode_utf8(b));
    } else {
        assert((a + b).drop_first() =~= a.drop_first() + b);
        assert((a + b)[0] == a[0]);
        lemma_encode_concat(a.drop_first(), b);
        assert(encode_utf8(a + b) =~= encode_utf8(a) + encode_utf8(b));
    }
}

/// A space is one byte.
proof fn lemma_spaces_bytes(n: int)
    requires
        n >= 0,
    ensures
        byte_len(spaces(n)) == n,
    decreases n,
{
    if n > 0 {
        assert(spaces(n).drop_first() =~= spaces(n - 1));
        assert(spaces(n)[0] == ' ');
        assert(vstd::utf8::encode_scalar(' ' as u32).len() == 1);
        lemma_spaces_bytes(n - 1);
    } else {
        assert(spaces(n) =~= Seq::<char>::empty());
    }
}

/// Padding to `len` bytes gives a text of `len` bytes, or the text itself
/// when it is already that wide; the text ends (for the left padding) or
/// starts (for the right one) with the given text; and padding again changes
/// nothing.
pub proof fn law_padding(s: Seq<char>, len: int)
    requires
        len >= 0,
    ensures
        byte_len(padded_left(s, len)) == if byte_len(s) < len { len } else { byte_len(s) },
        byte_len(padded_right(s, len)) == if byte_len(s) < len { len } else { byte_len(s) },
        padded_left(s, len) == spaces(padded_left(s, len).len() - s.len()) + s,
        padded_right(s, len) == s + spaces(padded_right(s, len).len() - s.len()),
        padded_left(padded_left(s, len), len) == padded_left(s, len),
        padded_right(padded_right(s, len), len) == padded_right(s, len),
{
    if byte_len(s) < len {
        let sp = spaces(len - byte_len(s));
        lemma_spaces_bytes(len - byte_len(s));
        lemma_encode_concat(sp, s);
        lemma_encode_concat(s, sp);
        assert(padded_left(s, len).len() - s.len() == len - byte_len(s));
        assert(padded_right(s, len).len() - s.len() == len - byte_len(s));
    } else {
        assert(spaces(0) =~= Seq::<char>::empty());
        assert(spaces(0) + s =~= s);
        assert(s + spaces(0) =~= s);
    }
}

} // verus!
