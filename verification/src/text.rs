//! Character-level helpers shared by the HTTP parsers: whitespace trimming
//! and unsigned decimal parsing.
use vstd::prelude::*;

verus! {

broadcast use vstd::string::group_string_axioms;

/// Copies the characters of `s` into a vector.
pub fn chars_of(s: &str) -> (v: Vec<char>)
    ensures
        v@ == s@,
{
    let mut v: Vec<char> = Vec::new();
    for c in it: s.chars()
        invariant
            v@ == it.seq().take(it.index() as int),
            it.seq() == s@,
    {
        v.push(c);
    }
    v
}

/// The bytes of a string made of ASCII characters.
pub open spec fn ascii(s: Seq<char>) -> Seq<u8> {
    s.map_values(|c: char| c as u8)
}

/// Unicode `White_Space`, the set that `char::is_whitespace` tests.
pub open spec fn is_ws(c: char) -> bool {
    let u = c as u32;
    ||| u == 0x20
    ||| 0x09 <= u <= 0x0d
    ||| u == 0x85
    ||| u == 0xa0
    ||| u == 0x1680
    ||| 0x2000 <= u <= 0x200a
    ||| u == 0x2028
    ||| u == 0x2029
    ||| u == 0x202f
    ||| u == 0x205f
    ||| u == 0x3000
}

/// `s` without its leading whitespace.
pub open spec fn trim_start(s: Seq<char>) -> Seq<char>
    decreases s.len(),
{
    if s.len() > 0 && is_ws(s[0]) {
        trim_start(s.drop_first())
    } else {
        s
    }
}

/// `s` without its trailing whitespace.
pub open spec fn trim_end(s: Seq<char>) -> Seq<char>
    decreases s.len(),
{
    if s.len() > 0 && is_ws(s.last()) {
        trim_end(s.drop_last())
    } else {
        s
    }
}

/// `s` without leading and trailing whitespace (`str::trim`).
pub open spec fn trim(s: Seq<char>) -> Seq<char> {
    trim_end(trim_start(s))
}

pub open spec fn is_digit(c: char) -> bool {
    0x30 <= (c as u32) <= 0x39
}

pub open spec fn digit_value(c: char) -> nat {
    ((c as u32) - 0x30) as nat
}

/// The number that a string of decimal digits denotes.
pub open spec fn decimal_value(s: Seq<char>) -> nat
    decreases s.len(),
{
    if s.len() == 0 {
        0
    } else {
        decimal_value(s.drop_last()) * 10 + digit_value(s.last())
    }
}

/// The digits of an unsigned number: one leading `+` is allowed.
pub open spec fn unsigned_digits(s: Seq<char>) -> Seq<char> {
    if s.len() > 0 && s[0] == '+' {
        s.drop_first()
    } else {
        s
    }
}

/// What `s.parse::<usize>()` gives: an optional `+`, then at least one
/// decimal digit and nothing else, denoting a value that fits in `usize`.
pub open spec fn parse_usize_spec(s: Seq<char>) -> Option<usize> {
    let d = unsigned_digits(s);
    if d.len() > 0 && (forall|i: int| 0 <= i < d.len() ==> is_digit(#[trigger] d[i]))
        && decimal_value(d) <= usize::MAX {
        Some(decimal_value(d) as usize)
    } else {
        None
    }
}

/// Every character of `s` is whitespace.
pub open spec fn all_ws(s: Seq<char>) -> bool {
    forall|i: int| 0 <= i < s.len() ==> is_ws(#[trigger] s[i])
}

proof fn lemma_trim_start_ws_prefix(w: Seq<char>, x: Seq<char>)
    requires
        all_ws(w),
    ensures
        trim_start(w + x) == trim_start(x),
    decreases w.len(),
{
    if w.len() == 0 {
        assert(w + x =~= x);
    } else {
        assert((w + x)[0] == w[0]);
        assert((w + x).drop_first() =~= w.drop_first() + x);
        assert(all_ws(w.drop_first())) by {
            assert forall|i: int| 0 <= i < w.drop_first().len() implies is_ws(
                #[trigger] w.drop_first()[i],
            ) by {
                assert(w.drop_first()[i] == w[i + 1]);
            }
        }
        lemma_trim_start_ws_prefix(w.drop_first(), x);
    }
}

proof fn lemma_trim_end_ws_suffix(x: Seq<char>, w: Seq<char>)
    requires
        all_ws(w),
    ensures
        trim_end(x + w) == trim_end(x),
    decreases w.len(),
{
    if w.len() == 0 {
        assert(x + w =~= x);
    } else {
        assert((x + w).last() == w.last());
        assert((x + w).drop_last() =~= x + w.drop_last());
        assert(all_ws(w.drop_last())) by {
            assert forall|i: int| 0 <= i < w.drop_last().len() implies is_ws(
                #[trigger] w.drop_last()[i],
            ) by {
                assert(w.drop_last()[i] == w[i]);
            }
        }
        lemma_trim_end_ws_suffix(x, w.drop_last());
    }
}

proof fn lemma_trim_start_append(a: Seq<char>, b: Seq<char>)
    requires
        trim_start(a).len() > 0,
    ensures
        trim_start(a + b) == trim_start(a) + b,
    decreases a.len(),
{
    assert(a.len() > 0);
    assert((a + b)[0] == a[0]);
    if is_ws(a[0]) {
        assert((a + b).drop_first() =~= a.drop_first() + b);
        lemma_trim_start_append(a.drop_first(), b);
    }
}

proof fn lemma_trim_start_empty(a: Seq<char>)
    requires
        trim_start(a).len() == 0,
    ensures
        all_ws(a),
    decreases a.len(),
{
    if a.len() > 0 {
        lemma_trim_start_empty(a.drop_first());
        assert forall|i: int| 0 <= i < a.len() implies is_ws(#[trigger] a[i]) by {
            if i > 0 {
                assert(a[i] == a.drop_first()[i - 1]);
            }
        }
    }
}

/// Whitespace around a string does not change what `trim` leaves of it.
pub proof fn lemma_trim_surrounding(pre: Seq<char>, v: Seq<char>, post: Seq<char>)
    requires
        all_ws(pre),
        all_ws(post),
    ensures
        trim(pre + v + post) == trim(v),
{
    assert(pre + v + post =~= pre + (v + post));
    lemma_trim_start_ws_prefix(pre, v + post);
    if trim_start(v).len() > 0 {
        lemma_trim_start_append(v, post);
        lemma_trim_end_ws_suffix(trim_start(v), post);
    } else {
        lemma_trim_start_empty(v);
        assert(all_ws(v + post)) by {
            assert forall|i: int| 0 <= i < (v + post).len() implies is_ws(#[trigger] (v + post)[i]) by {
                if i < v.len() {
                    assert((v + post)[i] == v[i]);
                } else {
                    assert((v + post)[i] == post[i - v.len()]);
                }
            }
        }
        lemma_trim_start_ws_prefix(v + post, Seq::<char>::empty());
        assert(v + post + Seq::<char>::empty() =~= v + post);
    }
}

/// A string that neither starts nor ends with whitespace is its own trim.
pub proof fn lemma_trim_unpadded(s: Seq<char>)
    requires
        s.len() > 0,
        !is_ws(s[0]),
        !is_ws(s.last()),
    ensures
        trim(s) == s,
{
}

/// `char::is_whitespace`.
pub fn is_whitespace(c: char) -> (b: bool)
    ensures
        b == is_ws(c),
{
    let u = c as u32;
    u == 0x20 || (0x09 <= u && u <= 0x0d) || u == 0x85 || u == 0xa0 || u == 0x1680 || (0x2000
        <= u && u <= 0x200a) || u == 0x2028 || u == 0x2029 || u == 0x202f || u == 0x205f || u
        == 0x3000
}

proof fn lemma_trim_start_step(v: Seq<char>, i: int, hi: int)
    requires
        0 <= i < hi <= v.len(),
        is_ws(v[i]),
    ensures
        trim_start(v.subrange(i, hi)) == trim_start(v.subrange(i + 1, hi)),
{
    assert(v.subrange(i, hi).drop_first() =~= v.subrange(i + 1, hi));
}

proof fn lemma_trim_end_step(v: Seq<char>, lo: int, j: int)
    requires
        0 <= lo < j <= v.len(),
        is_ws(v[j - 1]),
    ensures
        trim_end(v.subrange(lo, j)) == trim_end(v.subrange(lo, j - 1)),
{
    assert(v.subrange(lo, j).drop_last() =~= v.subrange(lo, j - 1));
}

/// The bounds of `v[lo..hi]` trimmed of whitespace on both sides.
pub fn trim_bounds(v: &Vec<char>, lo: usize, hi: usize) -> (r: (usize, usize))
    requires
        lo <= hi <= v@.len(),
    ensures
        lo <= r.0 <= r.1 <= hi,
        v@.subrange(r.0 as int, r.1 as int) == trim(v@.subrange(lo as int, hi as int)),
{
    let mut i = lo;
    while i < hi && is_whitespace(v[i])
        invariant
            lo <= i <= hi <= v@.len(),
            trim_start(v@.subrange(lo as int, hi as int)) == trim_start(
                v@.subrange(i as int, hi as int),
            ),
        decreases hi - i,
    {
        proof {
            lemma_trim_start_step(v@, i as int, hi as int);
        }
        i = i + 1;
    }
    assert(trim_start(v@.subrange(i as int, hi as int)) == v@.subrange(i as int, hi as int));
    let mut j = hi;
    while j > i && is_whitespace(v[j - 1])
        invariant
            i <= j <= hi <= v@.len(),
            trim_end(v@.subrange(i as int, hi as int)) == trim_end(
                v@.subrange(i as int, j as int),
            ),
        decreases j - i,
    {
        proof {
            lemma_trim_end_step(v@, i as int, j as int);
        }
        j = j - 1;
    }
    assert(trim_end(v@.subrange(i as int, j as int)) == v@.subrange(i as int, j as int));
    (i, j)
}

proof fn lemma_decimal_push(s: Seq<char>, c: char)
    ensures
        decimal_value(s.push(c)) == decimal_value(s) * 10 + digit_value(c),
{
    assert(s.push(c).drop_last() =~= s);
}

/// Parses `v[lo..hi]` as `str::parse::<usize>` does.
pub fn parse_usize(v: &Vec<char>, lo: usize, hi: usize) -> (r: Option<usize>)
    requires
        lo <= hi <= v@.len(),
    ensures
        r == parse_usize_spec(v@.subrange(lo as int, hi as int)),
{
    let ghost s = v@.subrange(lo as int, hi as int);
    let mut start = lo;
    if lo < hi && v[lo] == '+' {
        start = lo + 1;
    }
    assert(unsigned_digits(s) =~= v@.subrange(start as int, hi as int));
    if start == hi {
        return None;
    }
    let mut acc: usize = 0;
    let mut overflow = false;
    let mut i = start;
    while i < hi
        invariant
            start <= i <= hi <= v@.len(),
            start < hi,
            lo <= start,
            s == v@.subrange(lo as int, hi as int),
            unsigned_digits(s) == v@.subrange(start as int, hi as int),
            forall|k: int| start <= k < i ==> is_digit(#[trigger] v@[k]),
            !overflow ==> acc == decimal_value(v@.subrange(start as int, i as int)),
            overflow ==> decimal_value(v@.subrange(start as int, i as int)) > usize::MAX,
        decreases hi - i,
    {
        let c = v[i];
        let u = c as u32;
        if u < 0x30 || u > 0x39 {
            assert(!is_digit(unsigned_digits(s)[i - start]));
            return None;
        }
        let d = (u - 0x30) as usize;
        proof {
            lemma_decimal_push(v@.subrange(start as int, i as int), c);
            assert(v@.subrange(start as int, i as int).push(c) =~= v@.subrange(
                start as int,
                i + 1,
            ));
        }
        if !overflow {
            if acc > (usize::MAX - d) / 10 {
                assert(acc * 10 + d > usize::MAX) by (nonlinear_arith)
                    requires
                        acc > (usize::MAX - d) / 10,
                        d <= 9,
                ;
                overflow = true;
            } else {
                assert(acc * 10 + d <= usize::MAX) by (nonlinear_arith)
                    requires
                        acc <= (usize::MAX - d) / 10,
                        d <= 9,
                ;
                acc = acc * 10 + d;
            }
        }
        i = i + 1;
    }
    if overflow {
        None
    } else {
        Some(acc)
    }
}

} // verus!
