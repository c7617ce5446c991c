//! Slicing a `str` by character positions in constant time, given the byte
//! offsets of those positions.
use vstd::prelude::*;
use vstd::string::*;
use vstd::utf8::*;

verus! {

broadcast use {encode_utf8_valid_utf8, encode_utf8_decode_utf8};

/// The number of bytes that the UTF-8 encoding of `s` takes.
pub open spec fn byte_len(s: Seq<char>) -> nat {
    encode_utf8(s).len()
}

/// The encoding of a concatenation is the concatenation of the encodings, and
/// the end of the first part falls on a character boundary.
pub proof fn lemma_encode_concat(a: Seq<char>, b: Seq<char>)
    ensures
        encode_utf8(a + b) == encode_utf8(a) + encode_utf8(b),
        is_char_boundary(encode_utf8(a + b), encode_utf8(a).len() as int),
    decreases a.len(),
{
    if a.len() == 0 {
        assert(a + b =~= b);
        assert(encode_utf8(a) =~= Seq::<u8>::empty());
        assert(encode_utf8(a) + encode_utf8(b) =~= encode_utf8(b));
    } else {
        let x = a + b;
        let a1 = a.drop_first();
        assert(x.drop_first() =~= a1 + b);
        assert(x[0] == a[0]);
        lemma_encode_concat(a1, b);
        let bytes = encode_utf8(x);
        let head = encode_scalar(a[0] as u32);
        assert(bytes == head + encode_utf8(a1 + b));
        assert(bytes =~= encode_utf8(a) + encode_utf8(b));
        encode_utf8_first_scalar(x);
        assert(head.len() > 0);
        assert(pop_first_scalar(bytes) =~= encode_utf8(a1 + b));
    }
}

/// The encoding of `s` with one more character appended.
pub proof fn lemma_byte_len_push(s: Seq<char>, c: char)
    ensures
        byte_len(s.push(c)) == byte_len(s) + encode_scalar(c as u32).len(),
{
    lemma_encode_concat(s, seq![c]);
    assert(s.push(c) =~= s + seq![c]);
    assert(seq![c].drop_first() =~= Seq::<char>::empty());
    assert(encode_utf8(seq![c]) =~= encode_scalar(c as u32) + encode_utf8(Seq::<char>::empty()));
}

/// The number of bytes that the UTF-8 encoding of `c` takes.
pub fn utf8_width(c: char) -> (w: usize)
    ensures
        w == encode_scalar(c as u32).len(),
        1 <= w <= 4,
{
    proof {
        char_is_scalar(c);
    }
    let u = c as u32;
    if u <= 0x7F {
        1
    } else if u <= 0x7FF {
        2
    } else if u <= 0xFFFF {
        3
    } else {
        4
    }
}

/// The characters of `s` from position `from` up to `to`, taken as a slice of
/// `s`; `from_byte` and `to_byte` are the byte offsets of those positions.
pub fn cut<'a>(s: &'a str, from: Ghost<int>, to: Ghost<int>, from_byte: usize, to_byte: usize) -> (r: &'a str)
    requires
        0 <= from@ <= to@ <= s@.len(),
        from_byte == byte_len(s@.subrange(0, from@)),
        to_byte == byte_len(s@.subrange(0, to@)),
    ensures
        r@ == s@.subrange(from@, to@),
{
    let ghost head_chars = s@.subrange(0, to@);
    proof {
        lemma_encode_concat(head_chars, s@.subrange(to@, s@.len() as int));
        assert(head_chars + s@.subrange(to@, s@.len() as int) =~= s@);
    }
    let (head, _) = s.split_at(to_byte);
    proof {
        assert(encode_utf8(head@) =~= encode_utf8(head_chars));
        assert(decode_utf8(encode_utf8(head@)) == head@);
        assert(head@ == head_chars);
        lemma_encode_concat(s@.subrange(0, from@), s@.subrange(from@, to@));
        assert(s@.subrange(0, from@) + s@.subrange(from@, to@) =~= head_chars);
    }
    let (_, piece) = head.split_at(from_byte);
    proof {
        assert(encode_utf8(piece@) =~= encode_utf8(s@.subrange(from@, to@)));
        assert(decode_utf8(encode_utf8(piece@)) == piece@);
    }
    piece
}

/// A prefix takes no more bytes than the whole.
pub proof fn lemma_byte_len_prefix(s: Seq<char>, i: int)
    requires
        0 <= i <= s.len(),
    ensures
        byte_len(s.subrange(0, i)) <= byte_len(s),
{
    lemma_encode_concat(s.subrange(0, i), s.subrange(i, s.len() as int));
    assert(s.subrange(0, i) + s.subrange(i, s.len() as int) =~= s);
}

/// The number of bytes in `s`, which is `byte_len(s@)`.
pub fn byte_count(s: &str) -> (n: usize)
    ensures
        n == byte_len(s@),
{
    s.as_bytes().len()
}

/// Advances the byte offset of position `i` of `s` past the character there.
pub fn next_offset(s: &str, i: Ghost<int>, b: usize, c: char) -> (r: usize)
    requires
        0 <= i@ < s@.len(),
        s@[i@] == c,
        b == byte_len(s@.subrange(0, i@)),
    ensures
        r == byte_len(s@.subrange(0, i@ + 1)),
        r > b,
        r <= byte_len(s@),
{
    proof {
        lemma_byte_len_push(s@.subrange(0, i@), c);
        assert(s@.subrange(0, i@).push(c) =~= s@.subrange(0, i@ + 1));
        lemma_byte_len_prefix(s@, i@ + 1);
    }
    // The byte count of `s` fits in a `usize`, and so does the new offset.
    let _total = byte_count(s);
    b + utf8_width(c)
}

} // verus!
