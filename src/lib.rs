//! String helpers: palindrome detection, character counting, reversal,
//! and (in `splits`) several delimiter-based splitting variants.
use vstd::prelude::*;

mod slicing;
pub mod splits;

verus! {

/// Number of occurrences of `c` in `s`.
pub open spec fn occurrences(s: Seq<char>, c: char) -> nat
    decreases s.len(),
{
    if s.len() == 0 {
        0
    } else {
        occurrences(s.drop_last(), c) + if s.last() == c { 1nat } else { 0nat }
    }
}

/// Counts the occurrences of a specific character in a string.
pub fn count_chars(c: char, s: &str) -> (r: usize)
    ensures
        r == occurrences(s@, c),
{
    let len: usize = s.unicode_len();
    let mut n: usize = 0;
    for x in it: s.chars()
        invariant
            it.seq() == s@,
            len == s@.len(),
            n <= it.index(),
            n == occurrences(s@.subrange(0, it.index() as int), c),
    {
        proof {
            let i = it.index() as int;
            assert(s@.subrange(0, i + 1).drop_last() =~= s@.subrange(0, i));
        }
        if x == c {
            n = n + 1;
        }
    }
    proof {
        assert(s@.subrange(0, s@.len() as int) =~= s@);
    }
    n
}

/// Whether `c` is alphanumeric in Unicode's sense (alphabetic or numeric).
pub uninterp spec fn is_alnum(c: char) -> bool;

/// Relies on `char::is_alphanumeric`, whose answer depends on `c` alone.
#[verifier::external_body]
fn alphanumeric(c: char) -> (r: bool)
    ensures
        r == is_alnum(c),
{
    c.is_alphanumeric()
}

/// Relies on `String::push`: appends `c` at the end of `s`.
#[verifier::external_body]
fn push_char(s: &mut String, c: char)
    ensures
        final(s)@ == old(s)@.push(c),
{
    s.push(c);
}

/// The code of `c` with ASCII upper-case letters taken to lower case; every
/// other character keeps its code.
pub open spec fn ascii_fold(c: char) -> u32 {
    if 65 <= c as u32 && c as u32 <= 90 {
        (c as u32 + 32) as u32
    } else {
        c as u32
    }
}

fn fold_ascii(c: char) -> (r: u32)
    ensures
        r == ascii_fold(c),
{
    let u = c as u32;
    if 65 <= u && u <= 90 {
        u + 32
    } else {
        u
    }
}

/// The alphanumeric characters of `s`, in order.
pub open spec fn alnum_only(s: Seq<char>) -> Seq<char> {
    s.filter(|c: char| is_alnum(c))
}

/// Whether the alphanumeric characters of `s` read the same backwards,
/// ignoring ASCII case.
pub open spec fn is_palindrome(s: Seq<char>) -> bool {
    let t = alnum_only(s);
    forall|i: int| 0 <= i < t.len() ==> ascii_fold(#[trigger] t[i]) == ascii_fold(t[t.len() - 1 - i])
}

/// Checks whether `s` is a palindrome, ignoring case and every character that
/// is not alphanumeric.
pub fn check_for_palindrome(s: &str) -> (r: bool)
    ensures
        r == is_palindrome(s@),
{
    let mut cleaned: Vec<char> = Vec::new();
    for c in it: s.chars()
        invariant
            it.seq() == s@,
            cleaned@ == alnum_only(s@.subrange(0, it.index() as int)),
    {
        proof {
            reveal(Seq::filter);
            let i = it.index() as int;
            assert(s@.subrange(0, i + 1).drop_last() =~= s@.subrange(0, i));
        }
        if alphanumeric(c) {
            cleaned.push(c);
        }
    }
    proof {
        assert(s@.subrange(0, s@.len() as int) =~= s@);
    }
    let n = cleaned.len();
    let mut k: usize = 0;
    while k < n
        invariant
            n == cleaned@.len(),
            cleaned@ == alnum_only(s@),
            k <= n,
            forall|j: int| 0 <= j < k ==> ascii_fold(#[trigger] cleaned@[j]) == ascii_fold(cleaned@[n - 1 - j]),
        decreases n - k,
    {
        if fold_ascii(cleaned[k]) != fold_ascii(cleaned[n - 1 - k]) {
            return false;
        }
        k = k + 1;
    }
    true
}

/// Returns `s` with the order of its characters reversed.
pub fn string_reverse(s: &str) -> (r: String)
    ensures
        r@ == s@.reverse(),
{
    let mut chars: Vec<char> = Vec::new();
    for c in it: s.chars()
        invariant
            it.seq() == s@,
            chars@ == s@.subrange(0, it.index() as int),
    {
        chars.push(c);
        assert(chars@ =~= s@.subrange(0, it.index() + 1));
    }
    proof {
        assert(chars@ =~= s@);
    }
    let mut out = String::new();
    let mut k: usize = chars.len();
    while k > 0
        invariant
            chars@ == s@,
            k <= s@.len(),
            out@ =~= s@.subrange(k as int, s@.len() as int).reverse(),
        decreases k,
    {
        k = k - 1;
        push_char(&mut out, chars[k]);
        assert(out@ =~= s@.subrange(k as int, s@.len() as int).reverse());
    }
    proof {
        assert(s@.subrange(0, s@.len() as int) =~= s@);
    }
    out
}

/// Reversing a string twice gives back the string.
pub proof fn lemma_reverse_twice(s: Seq<char>)
    ensures
        s.reverse().reverse() == s,
{
    assert(s.reverse().reverse() =~= s);
}

} // verus!
