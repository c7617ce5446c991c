//! Variations on splitting a string at delimiter characters.
//!
//! Each operation comes in a borrowing form, whose segments are slices of the
//! input, and an owned form, whose segments are fresh `String`s. The two forms
//! return the same text.
use vstd::prelude::*;

use crate::occurrences;
use crate::slicing::{byte_len, cut, next_offset};

verus! {

/// The text of each borrowed segment.
pub open spec fn slice_views(v: Seq<&str>) -> Seq<Seq<char>> {
    v.map_values(|p: &str| p@)
}

/// The text of each owned segment.
pub open spec fn string_views(v: Seq<String>) -> Seq<Seq<char>> {
    v.map_values(|p: String| p@)
}

/// One step of an ordinary split: a delimiter closes the current segment and
/// opens an empty one; any other character extends the current segment.
pub open spec fn split_step(ps: Seq<Seq<char>>, c: char, delims: Seq<char>) -> Seq<Seq<char>> {
    if delims.contains(c) {
        ps.push(Seq::empty())
    } else {
        ps.drop_last().push(ps.last().push(c))
    }
}

/// The segments of an ordinary split of `s` at every character of `delims`,
/// empty segments included: always one more segment than delimiter
/// occurrences.
pub open spec fn segments(s: Seq<char>, delims: Seq<char>) -> Seq<Seq<char>>
    decreases s.len(),
{
    if s.len() == 0 {
        seq![Seq::empty()]
    } else {
        split_step(segments(s.drop_last(), delims), s.last(), delims)
    }
}

/// The segments that hold at least one character, in order.
pub open spec fn drop_empty(ps: Seq<Seq<char>>) -> Seq<Seq<char>> {
    ps.filter(|p: Seq<char>| p.len() > 0)
}

proof fn lemma_drop_empty_push(ps: Seq<Seq<char>>, p: Seq<char>)
    ensures
        drop_empty(ps.push(p)) == if p.len() > 0 { drop_empty(ps).push(p) } else { drop_empty(ps) },
{
    reveal(Seq::filter);
    assert(ps.push(p).drop_last() =~= ps);
}

proof fn lemma_prefix_push(s: Seq<char>, i: int)
    requires
        0 <= i < s.len(),
    ensures
        s.subrange(0, i + 1).drop_last() == s.subrange(0, i),
        s.subrange(0, i + 1).last() == s[i],
{
    assert(s.subrange(0, i + 1).drop_last() =~= s.subrange(0, i));
}

/// Whether `c` is one of `delimiters`.
fn is_delimiter(c: char, delimiters: &[char]) -> (r: bool)
    ensures
        r == delimiters@.contains(c),
{
    let mut k: usize = 0;
    while k < delimiters.len()
        invariant
            k <= delimiters@.len(),
            forall|j: int| 0 <= j < k ==> delimiters@[j] != c,
        decreases delimiters@.len() - k,
    {
        if delimiters[k] == c {
            return true;
        }
        k = k + 1;
    }
    false
}

/// Splits `input_string` at every character listed in `delimiters`, dropping
/// the delimiters and every empty segment.
pub fn split_on_delimiters<'a>(input_string: &'a str, delimiters: &[char]) -> (r: Vec<&'a str>)
    ensures
        slice_views(r@) == drop_empty(segments(input_string@, delimiters@)),
{
    let s = input_string;
    let ghost d = delimiters@;
    let mut out: Vec<&'a str> = Vec::new();
    let mut start: usize = 0;
    let mut start_b: usize = 0;
    let mut i: usize = 0;
    let mut b: usize = 0;
    for c in it: s.chars()
        invariant
            it.seq() == s@,
            d == delimiters@,
            i == it.index(),
            start <= i,
            i <= b,
            b == byte_len(s@.subrange(0, i as int)),
            start_b == byte_len(s@.subrange(0, start as int)),
            slice_views(out@) == drop_empty(segments(s@.subrange(0, i as int), d).drop_last()),
            segments(s@.subrange(0, i as int), d).last() == s@.subrange(start as int, i as int),
    {
        proof {
            lemma_prefix_push(s@, i as int);
        }
        let next_b = next_offset(s, Ghost(i as int), b, c);
        let ghost old_segs = segments(s@.subrange(0, i as int), d);
        if is_delimiter(c, delimiters) {
            let ghost old_out = out@;
            if start < i {
                let piece = cut(s, Ghost(start as int), Ghost(i as int), start_b, b);
                out.push(piece);
                assert(slice_views(out@) =~= slice_views(old_out).push(piece@));
            }
            proof {
                assert(old_segs.len() >= 1);
                assert(old_segs =~= old_segs.drop_last().push(old_segs.last()));
                lemma_drop_empty_push(old_segs.drop_last(), old_segs.last());
                assert(segments(s@.subrange(0, i + 1), d).drop_last() =~= old_segs);
                assert(slice_views(out@) =~= drop_empty(old_segs));
            }
            start = i + 1;
            start_b = next_b;
        } else {
            proof {
                assert(segments(s@.subrange(0, i + 1), d).drop_last() =~= old_segs.drop_last());
                assert(s@.subrange(start as int, i + 1) =~= s@.subrange(start as int, i as int).push(c));
            }
        }
        i = i + 1;
        b = next_b;
        proof {
            assert(s@.subrange(start as int, i as int) =~= segments(s@.subrange(0, i as int), d).last());
        }
    }
    let ghost segs = segments(s@, d);
    proof {
        assert(s@.subrange(0, i as int) =~= s@);
        assert(segs =~= segs.drop_last().push(segs.last()));
        lemma_drop_empty_push(segs.drop_last(), segs.last());
    }
    let ghost old_out = out@;
    if start < i {
        let piece = cut(s, Ghost(start as int), Ghost(i as int), start_b, b);
        out.push(piece);
        assert(slice_views(out@) =~= slice_views(old_out).push(piece@));
    }
    proof {
        assert(slice_views(out@) =~= drop_empty(segs));
    }
    out
}

/// Copies each borrowed segment into a `String` of its own.
fn to_owned_all(v: &Vec<&str>) -> (r: Vec<String>)
    ensures
        string_views(r@) == slice_views(v@),
{
    let mut out: Vec<String> = Vec::new();
    let mut k: usize = 0;
    while k < v.len()
        invariant
            k <= v@.len(),
            string_views(out@) == slice_views(v@.subrange(0, k as int)),
        decreases v@.len() - k,
    {
        let owned = v[k].to_owned();
        let ghost before = out@;
        out.push(owned);
        assert(string_views(out@) =~= string_views(before).push(v@[k as int]@));
        assert(slice_views(v@.subrange(0, k + 1)) =~= slice_views(v@.subrange(0, k as int)).push(
            v@[k as int]@,
        ));
        k = k + 1;
    }
    assert(v@.subrange(0, v@.len() as int) =~= v@);
    out
}

/// Splits `s` at every character listed in `delimiters`, dropping the
/// delimiters and every empty segment; the segments are owned strings.
pub fn split_on_delimiters_returns_owned(s: &str, delimiters: &[char]) -> (r: Vec<String>)
    ensures
        string_views(r@) == drop_empty(segments(s@, delimiters@)),
{
    let pieces = split_on_delimiters(s, delimiters);
    to_owned_all(&pieces)
}

/// The segments of `s` that end in `d`, each with its `d` kept; whatever
/// follows the last `d` is left out.
pub open spec fn delimited_segments(s: Seq<char>, d: char) -> Seq<Seq<char>> {
    segments(s, seq![d]).drop_last().map_values(|p: Seq<char>| p.push(d))
}

proof fn lemma_single_contains(d: char, c: char)
    ensures
        seq![d].contains(c) <==> c == d,
{
    if c == d {
        assert(seq![d][0] == c);
    }
}

/// Splits `s` after every occurrence of `delimiter`, keeping the delimiter at
/// the end of each segment. Text after the last delimiter is not returned,
/// so a string without the delimiter gives no segment at all.
pub fn split_keeping_delimiter<'a>(s: &'a str, delimiter: char) -> (r: Vec<&'a str>)
    ensures
        slice_views(r@) == delimited_segments(s@, delimiter),
{
    let ghost d = seq![delimiter];
    let mut out: Vec<&'a str> = Vec::new();
    let mut start: usize = 0;
    let mut start_b: usize = 0;
    let mut i: usize = 0;
    let mut b: usize = 0;
    for c in it: s.chars()
        invariant
            it.seq() == s@,
            d == seq![delimiter],
            i == it.index(),
            start <= i,
            i <= b,
            b == byte_len(s@.subrange(0, i as int)),
            start_b == byte_len(s@.subrange(0, start as int)),
            slice_views(out@) == segments(s@.subrange(0, i as int), d).drop_last().map_values(
                |p: Seq<char>| p.push(delimiter),
            ),
            segments(s@.subrange(0, i as int), d).last() == s@.subrange(start as int, i as int),
    {
        proof {
            lemma_prefix_push(s@, i as int);
            lemma_single_contains(delimiter, c);
        }
        let next_b = next_offset(s, Ghost(i as int), b, c);
        let ghost old_segs = segments(s@.subrange(0, i as int), d);
        if c == delimiter {
            let ghost old_out = out@;
            let piece = cut(s, Ghost(start as int), Ghost(i + 1), start_b, next_b);
            out.push(piece);
            proof {
                assert(old_segs.len() >= 1);
                assert(segments(s@.subrange(0, i + 1), d).drop_last() =~= old_segs);
                assert(old_segs =~= old_segs.drop_last().push(old_segs.last()));
                assert(s@.subrange(start as int, i + 1) =~= old_segs.last().push(delimiter));
                assert(slice_views(out@) =~= slice_views(old_out).push(piece@));
                assert(old_segs.map_values(|p: Seq<char>| p.push(delimiter)) =~= old_segs.drop_last().map_values(
                    |p: Seq<char>| p.push(delimiter),
                ).push(old_segs.last().push(delimiter)));
            }
            start = i + 1;
            start_b = next_b;
        } else {
            proof {
                assert(segments(s@.subrange(0, i + 1), d).drop_last() =~= old_segs.drop_last());
                assert(s@.subrange(start as int, i + 1) =~= s@.subrange(start as int, i as int).push(c));
            }
        }
        i = i + 1;
        b = next_b;
        proof {
            assert(s@.subrange(start as int, i as int) =~= segments(s@.subrange(0, i as int), d).last());
        }
    }
    proof {
        assert(s@.subrange(0, i as int) =~= s@);
    }
    out
}

/// Splits `input_string` after every occurrence of `delimiter`, keeping the
/// delimiter; the segments are owned strings.
pub fn split_keeping_delimiter_returns_owned(input_string: &str, delimiter: char) -> (r: Vec<String>)
    ensures
        string_views(r@) == delimited_segments(input_string@, delimiter),
{
    let pieces = split_keeping_delimiter(input_string, delimiter);
    to_owned_all(&pieces)
}

/// The number of segments that an ordinary split of `s` at `d` gives: one
/// more than the occurrences of `d`.
pub open spec fn expected_segments(s: Seq<char>, d: char) -> nat {
    occurrences(s, d) + 1
}

/// The segments put back together, with `d` between each two of them.
pub open spec fn join(ps: Seq<Seq<char>>, d: char) -> Seq<char>
    decreases ps.len(),
{
    if ps.len() == 0 {
        Seq::empty()
    } else if ps.len() == 1 {
        ps[0]
    } else {
        join(ps.drop_last(), d).push(d) + ps.last()
    }
}

/// Exactly `n` segments of `s` split at `d`: the ordinary split when it has
/// `n` segments, padded with empty segments when it has fewer, and otherwise
/// the first `n - 1` segments followed by the rest of the text, further
/// delimiters included.
pub open spec fn n_parts(s: Seq<char>, d: char, n: nat) -> Seq<Seq<char>> {
    let ps = segments(s, seq![d]);
    let k = expected_segments(s, d);
    if k == n {
        ps
    } else if k < n {
        ps + Seq::new((n - k) as nat, |j: int| Seq::<char>::empty())
    } else if n == 0 {
        Seq::empty()
    } else {
        ps.take(n - 1).push(join(ps.skip(n - 1), d))
    }
}

proof fn lemma_segments_count(s: Seq<char>, d: char)
    ensures
        segments(s, seq![d]).len() == expected_segments(s, d),
    decreases s.len(),
{
    if s.len() > 0 {
        lemma_segments_count(s.drop_last(), d);
        lemma_single_contains(d, s.last());
    }
}

proof fn lemma_join_segments(s: Seq<char>, d: char)
    ensures
        join(segments(s, seq![d]), d) == s,
    decreases s.len(),
{
    if s.len() > 0 {
        let r0 = s.drop_last();
        let c = s.last();
        let s0 = segments(r0, seq![d]);
        let ps = segments(s, seq![d]);
        lemma_join_segments(r0, d);
        lemma_single_contains(d, c);
        assert(s0.len() >= 1);
        if c == d {
            assert(ps.drop_last() =~= s0);
            assert(s =~= r0.push(d) + Seq::<char>::empty());
        } else {
            if s0.len() == 1 {
                assert(s =~= s0[0].push(c));
            } else {
                assert(ps.drop_last() =~= s0.drop_last());
                assert(join(s0.drop_last(), d).push(d) + s0.last().push(c) =~= (join(s0.drop_last(), d).push(
                    d,
                ) + s0.last()).push(c));
                assert(s =~= r0.push(c));
            }
        }
    }
}

proof fn lemma_split_step_append(v: Seq<Seq<char>>, ps: Seq<Seq<char>>, c: char, delims: Seq<char>)
    requires
        ps.len() >= 1,
    ensures
        split_step(v + ps, c, delims) == v + split_step(ps, c, delims),
{
    assert(split_step(v + ps, c, delims) =~= v + split_step(ps, c, delims));
}

/// Splits `input_string` at `delimiter` into exactly `n` segments; see
/// `n_parts` for how a split with fewer or more segments is brought to `n`.
pub fn split_into_n_parts<'a>(input_string: &'a str, delimiter: char, n: usize) -> (r: Vec<&'a str>)
    ensures
        r@.len() == n,
        slice_views(r@) == n_parts(input_string@, delimiter, n as nat),
{
    let s = input_string;
    let ghost d = seq![delimiter];
    proof {
        lemma_segments_count(s@, delimiter);
    }
    let mut out: Vec<&'a str> = Vec::new();
    if n == 0 {
        proof {
            assert(slice_views(out@) =~= Seq::<Seq<char>>::empty());
        }
        return out;
    }
    let mut start: usize = 0;
    let mut start_b: usize = 0;
    let mut i: usize = 0;
    let mut b: usize = 0;
    proof {
        assert(s@.subrange(0, 0) =~= Seq::<char>::empty());
        assert(slice_views(out@) =~= Seq::<Seq<char>>::empty());
    }
    for c in it: s.chars()
        invariant
            it.seq() == s@,
            d == seq![delimiter],
            i == it.index(),
            start <= i,
            i <= b,
            b == byte_len(s@.subrange(0, i as int)),
            start_b == byte_len(s@.subrange(0, start as int)),
            out@.len() < n,
            segments(s@.subrange(0, i as int), d) == slice_views(out@) + segments(
                s@.subrange(start as int, i as int),
                d,
            ),
            out@.len() + 1 < n ==> segments(s@.subrange(start as int, i as int), d) == seq![
                s@.subrange(start as int, i as int),
            ],
    {
        let ghost rest = s@.subrange(start as int, i as int);
        let ghost old_views = slice_views(out@);
        proof {
            lemma_prefix_push(s@, i as int);
            lemma_single_contains(delimiter, c);
            assert(segments(rest, d).len() >= 1);
        }
        let next_b = next_offset(s, Ghost(i as int), b, c);
        if c == delimiter && out.len() + 1 < n {
            let piece = cut(s, Ghost(start as int), Ghost(i as int), start_b, b);
            out.push(piece);
            proof {
                assert(slice_views(out@) =~= old_views.push(rest));
                assert(segments(s@.subrange(i + 1, i + 1), d) == seq![Seq::<char>::empty()]) by {
                    assert(s@.subrange(i + 1, i + 1) =~= Seq::<char>::empty());
                }
                assert(segments(s@.subrange(0, i + 1), d) =~= slice_views(out@) + segments(
                    s@.subrange(i + 1, i + 1),
                    d,
                ));
            }
            start = i + 1;
            start_b = next_b;
        } else {
            proof {
                let rest1 = s@.subrange(start as int, i + 1);
                assert(rest1.drop_last() =~= rest);
                assert(rest1.last() == c);
                lemma_split_step_append(old_views, segments(rest, d), c, d);
                if out@.len() + 1 < n {
                    assert(!d.contains(c));
                    assert(rest.push(c) =~= rest1);
                    assert(seq![rest].drop_last().push(rest.push(c)) =~= seq![rest1]);
                    assert(segments(rest1, d) =~= seq![rest1]);
                }
            }
        }
        i = i + 1;
        b = next_b;
    }
    let ghost rest = s@.subrange(start as int, i as int);
    let ghost segs = segments(s@, d);
    let ghost views = slice_views(out@);
    proof {
        assert(s@.subrange(0, i as int) =~= s@);
        lemma_join_segments(rest, delimiter);
        assert(segments(rest, d).len() >= 1);
    }
    let piece = cut(s, Ghost(start as int), Ghost(i as int), start_b, b);
    out.push(piece);
    proof {
        assert(slice_views(out@) =~= views.push(rest));
        if segments(rest, d).len() == 1 {
            assert(segments(rest, d) =~= seq![rest]);
        }
        if segs.len() > n {
            assert(segs.take(n - 1) =~= views);
            assert(segs.skip(n - 1) =~= segments(rest, d));
        }
        assert(segs.len() >= out@.len());
    }
    let ghost unpadded = slice_views(out@);
    while out.len() < n
        invariant
            out@.len() <= n,
            unpadded.len() <= out@.len(),
            unpadded.len() == n || unpadded.len() == segs.len(),
            slice_views(out@) == unpadded + Seq::new(
                (out@.len() - unpadded.len()) as nat,
                |j: int| Seq::<char>::empty(),
            ),
        decreases n - out@.len(),
    {
        let empty: &'a str = "";
        proof {
            reveal_strlit("");
            assert(empty@ =~= Seq::<char>::empty());
        }
        let ghost before = slice_views(out@);
        out.push(empty);
        assert(slice_views(out@) =~= unpadded + Seq::new(
            (out@.len() - unpadded.len()) as nat,
            |j: int| Seq::<char>::empty(),
        )) by {
            assert(slice_views(out@) =~= before.push(Seq::<char>::empty()));
        }
    }
    proof {
        if unpadded.len() == n {
            assert(slice_views(out@) =~= unpadded);
        }
        assert(slice_views(out@) =~= n_parts(s@, delimiter, n as nat));
    }
    out
}

/// Splits `input_string` at `delimiter` into exactly `n` owned segments, as
/// `split_into_n_parts` does.
pub fn split_into_n_parts_returns_owned(input_string: &str, delimiter: char, n: usize) -> (r: Vec<
    String,
>)
    ensures
        r@.len() == n,
        string_views(r@) == n_parts(input_string@, delimiter, n as nat),
{
    let pieces = split_into_n_parts(input_string, delimiter, n);
    let r = to_owned_all(&pieces);
    assert(r@.len() == string_views(r@).len());
    r
}

/// The characters of `s` that are not in `delims`, in order.
pub open spec fn without(s: Seq<char>, delims: Seq<char>) -> Seq<char> {
    s.filter(|c: char| !delims.contains(c))
}

proof fn lemma_without_push(s: Seq<char>, c: char, delims: Seq<char>)
    ensures
        without(s.push(c), delims) == if delims.contains(c) {
            without(s, delims)
        } else {
            without(s, delims).push(c)
        },
{
    reveal(Seq::filter);
    assert(s.push(c).drop_last() =~= s);
}

proof fn lemma_without_join_push(ps: Seq<Seq<char>>, p: Seq<char>, d: char, delims: Seq<char>)
    requires
        delims.contains(d),
    ensures
        without(join(ps.push(p), d), delims) == without(join(ps, d), delims) + without(p, delims),
{
    let pred = |c: char| !delims.contains(c);
    if ps.len() == 0 {
        assert(ps.push(p) =~= seq![p]);
        assert(without(join(ps, d), delims) =~= Seq::<char>::empty()) by {
            reveal(Seq::filter);
        }
        assert(without(join(ps.push(p), d), delims) =~= without(join(ps, d), delims) + without(
            p,
            delims,
        ));
    } else {
        assert(ps.push(p).drop_last() =~= ps);
        Seq::filter_distributes_over_add(join(ps, d).push(d), p, pred);
        lemma_without_push(join(ps, d), d, delims);
    }
}

proof fn lemma_segments_without(s: Seq<char>, d: char, delims: Seq<char>)
    requires
        delims.contains(d),
    ensures
        without(join(segments(s, delims), d), delims) == without(s, delims),
        forall|i: int, j: int|
            0 <= i < segments(s, delims).len() && 0 <= j < segments(s, delims)[i].len()
                ==> !delims.contains(#[trigger] segments(s, delims)[i][j]),
    decreases s.len(),
{
    let ps = segments(s, delims);
    if s.len() == 0 {
        assert(without(s, delims) =~= Seq::<char>::empty()) by {
            reveal(Seq::filter);
        }
        assert(join(ps, d) =~= Seq::<char>::empty());
    } else {
        let s0 = s.drop_last();
        let c = s.last();
        let ps0 = segments(s0, delims);
        lemma_segments_without(s0, d, delims);
        assert(s =~= s0.push(c));
        lemma_without_push(s0, c, delims);
        assert(ps0.len() >= 1);
        if delims.contains(c) {
            lemma_without_join_push(ps0, Seq::empty(), d, delims);
            assert(without(Seq::<char>::empty(), delims) =~= Seq::<char>::empty()) by {
                reveal(Seq::filter);
            }
            assert(without(join(ps, d), delims) =~= without(s, delims));
            assert forall|i: int, j: int| 0 <= i < ps.len() && 0 <= j < ps[i].len() implies !delims.contains(
                #[trigger] ps[i][j],
            ) by {
                assert(i < ps0.len());
            }
        } else {
            let l = ps0.last();
            assert(ps0 =~= ps0.drop_last().push(l));
            lemma_without_join_push(ps0.drop_last(), l, d, delims);
            lemma_without_join_push(ps0.drop_last(), l.push(c), d, delims);
            lemma_without_push(l, c, delims);
            assert(without(join(ps, d), delims) =~= without(s, delims));
            assert forall|i: int, j: int| 0 <= i < ps.len() && 0 <= j < ps[i].len() implies !delims.contains(
                #[trigger] ps[i][j],
            ) by {
                if i == ps.len() - 1 && j < l.len() {
                    assert(ps[i][j] == ps0[i][j]);
                }
            }
        }
    }
}

proof fn lemma_drop_empty_without(ps: Seq<Seq<char>>, d: char, delims: Seq<char>)
    requires
        delims.contains(d),
    ensures
        without(join(drop_empty(ps), d), delims) == without(join(ps, d), delims),
    decreases ps.len(),
{
    if ps.len() > 0 {
        let q = ps.drop_last();
        let p = ps.last();
        assert(ps =~= q.push(p));
        lemma_drop_empty_without(q, d, delims);
        lemma_drop_empty_push(q, p);
        lemma_without_join_push(q, p, d, delims);
        if p.len() > 0 {
            lemma_without_join_push(drop_empty(q), p, d, delims);
        } else {
            assert(p =~= Seq::<char>::empty());
            assert(without(p, delims) =~= Seq::<char>::empty()) by {
                reveal(Seq::filter);
            }
        }
    }
}

/// What splitting at any of `delims` returns keeps exactly the text that is
/// not a delimiter: each segment is non-empty and holds no delimiter, and the
/// segments joined with any one delimiter, with the delimiters then removed,
/// equal the input with its delimiters removed.
pub proof fn lemma_split_on_delimiters_reassembles(s: Seq<char>, delims: Seq<char>, d: char)
    requires
        delims.contains(d),
    ensures
        forall|i: int|
            0 <= i < drop_empty(segments(s, delims)).len() ==> (#[trigger] drop_empty(
                segments(s, delims),
            )[i]).len() > 0,
        forall|i: int, j: int|
            0 <= i < drop_empty(segments(s, delims)).len() && 0 <= j < drop_empty(
                segments(s, delims),
            )[i].len() ==> !delims.contains(#[trigger] drop_empty(segments(s, delims))[i][j]),
        without(join(drop_empty(segments(s, delims)), d), delims) == without(s, delims),
{
    let ps = segments(s, delims);
    let r = drop_empty(ps);
    let pred = |p: Seq<char>| p.len() > 0;
    lemma_segments_without(s, d, delims);
    lemma_drop_empty_without(ps, d, delims);
    assert forall|i: int| 0 <= i < r.len() implies (#[trigger] r[i]).len() > 0 by {
        ps.lemma_filter_pred(pred, i);
    }
    assert forall|i: int, j: int| 0 <= i < r.len() && 0 <= j < r[i].len() implies !delims.contains(
        #[trigger] r[i][j],
    ) by {
        assert(r.contains(r[i]));
        ps.lemma_filter_contains_rev(pred, r[i]);
        let k = choose|k: int| 0 <= k < ps.len() && ps[k] == r[i];
        assert(ps[k][j] == r[i][j]);
    }
}

/// Splitting into `n` parts always gives exactly `n` segments.
pub proof fn lemma_n_parts_len(s: Seq<char>, d: char, n: nat)
    ensures
        n_parts(s, d, n).len() == n,
{
    lemma_segments_count(s, d);
}

/// Splitting into as many parts as an ordinary split has segments gives the
/// ordinary split, with no padding and no merging.
pub proof fn lemma_n_parts_at_expected_count(s: Seq<char>, d: char)
    ensures
        n_parts(s, d, expected_segments(s, d)) == segments(s, seq![d]),
{
}

proof fn lemma_no_occurrences(s: Seq<char>, d: char)
    requires
        !s.contains(d),
    ensures
        occurrences(s, d) == 0,
    decreases s.len(),
{
    if s.len() > 0 {
        assert forall|k: int| 0 <= k < s.drop_last().len() implies s.drop_last()[k] != d by {
            assert(s[k] == s.drop_last()[k]);
        }
        assert(s.last() == s[s.len() - 1]);
        lemma_no_occurrences(s.drop_last(), d);
    }
}

/// Splitting while keeping the delimiter gives no segment at all when the
/// delimiter does not occur, whatever the length of the text.
pub proof fn lemma_keeping_delimiter_absent(s: Seq<char>, d: char)
    requires
        !s.contains(d),
    ensures
        delimited_segments(s, d) == Seq::<Seq<char>>::empty(),
{
    lemma_no_occurrences(s, d);
    lemma_segments_count(s, d);
    assert(delimited_segments(s, d) =~= Seq::<Seq<char>>::empty());
}

} // verus!
