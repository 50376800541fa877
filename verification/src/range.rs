//! The `Range` request header: which bytes of a file a client asks for.
use vstd::prelude::*;

use crate::text::{
    all_ws, chars_of, is_digit, is_ws, lemma_trim_surrounding, lemma_trim_unpadded, parse_usize,
    parse_usize_spec, trim, trim_bounds,
};

verus! {

/// The outcome of reading a `Range` header against a file of known size.
#[derive(PartialEq, Eq, Structural, Clone, Copy, Debug)]
pub enum ByteRange {
    /// Serve `length` bytes starting at `offset`.
    Partial { offset: usize, length: usize },
    /// The header is malformed, names several ranges, or lies outside the file.
    Unsatisfiable,
}

/// The unit prefix that a supported range starts with.
pub open spec fn bytes_unit() -> Seq<char> {
    seq!['b', 'y', 't', 'e', 's', '=']
}

/// The index of the first `c` in `s`, or `s.len()` when there is none.
pub open spec fn first_index_of(s: Seq<char>, c: char) -> int
    decreases s.len(),
{
    if s.len() == 0 {
        0
    } else if s[0] == c {
        0
    } else {
        1 + first_index_of(s.drop_first(), c)
    }
}

/// The first byte and the inclusive last byte that a header names, before
/// they are held against the file; `None` when the header does not name one
/// range in the supported syntax (`bytes=A-B`, `bytes=A-`, `bytes=-N`).
pub open spec fn requested_bounds(value: Seq<char>, file_size: usize) -> Option<(int, int)> {
    let t = trim(value);
    if !(t.len() >= 6 && t.subrange(0, 6) == bytes_unit()) {
        None
    } else {
        let r = t.skip(6);
        if r.contains(',') || !r.contains('-') {
            None
        } else {
            let d = first_index_of(r, '-');
            let start = r.subrange(0, d);
            let end = trim(r.skip(d + 1));
            if start.len() == 0 {
                // suffix form: the last N bytes
                match parse_usize_spec(end) {
                    Some(n) => if n == 0 {
                        None
                    } else if n <= file_size {
                        Some((file_size - n, file_size - 1))
                    } else {
                        Some((0, file_size - 1))
                    },
                    None => None,
                }
            } else {
                match parse_usize_spec(trim(start)) {
                    Some(s) => if end.len() == 0 {
                        Some((s as int, file_size - 1))
                    } else {
                        match parse_usize_spec(end) {
                            Some(e) => Some((s as int, e as int)),
                            None => None,
                        }
                    },
                    None => None,
                }
            }
        }
    }
}

/// The range that a `Range` header value selects in a file of `file_size` bytes.
pub open spec fn byte_range_spec(value: Seq<char>, file_size: usize) -> ByteRange {
    match requested_bounds(value, file_size) {
        None => ByteRange::Unsatisfiable,
        Some((offset, end)) => {
            let last = if end < file_size - 1 {
                end
            } else {
                file_size - 1
            };
            if offset >= file_size || offset > last {
                ByteRange::Unsatisfiable
            } else {
                ByteRange::Partial { offset: offset as usize, length: (last - offset + 1) as usize }
            }
        },
    }
}

proof fn lemma_first_index_of(s: Seq<char>, c: char, k: int)
    requires
        0 <= k <= s.len(),
        k < s.len() ==> s[k] == c,
        forall|i: int| 0 <= i < k ==> s[i] != c,
    ensures
        first_index_of(s, c) == k,
    decreases s.len(),
{
    if s.len() > 0 && k > 0 {
        lemma_first_index_of(s.drop_first(), c, k - 1);
    }
}

/// Reads a `Range` header value against a file of `file_size` bytes.
///
/// A non-empty file yields `Partial` exactly when the header names one range
/// that starts inside the file; the range is then clipped to the file's end.
/// An empty file has no satisfiable range.
#[verifier::loop_isolation(false)]
#[verifier::rlimit(40)]
pub fn parse_range_header(value: &str, file_size: usize) -> (r: ByteRange)
    ensures
        r == byte_range_spec(value@, file_size),
        r matches ByteRange::Partial { offset, length } ==> 1 <= length && offset + length
            <= file_size,
{
    if file_size == 0 {
        return ByteRange::Unsatisfiable;
    }
    let v = chars_of(value);
    let (lo, hi) = trim_bounds(&v, 0, v.len());
    let ghost t = trim(value@);
    assert(v@.subrange(0, v@.len() as int) =~= value@);
    if hi - lo < 6 || v[lo] != 'b' || v[lo + 1] != 'y' || v[lo + 2] != 't' || v[lo + 3] != 'e'
        || v[lo + 4] != 's' || v[lo + 5] != '=' {
        proof {
            if t.len() >= 6 {
                assert(t.subrange(0, 6) != bytes_unit()) by {
                    assert(t.subrange(0, 6)[0] == v@[lo as int]);
                    assert(t.subrange(0, 6)[1] == v@[lo + 1]);
                    assert(t.subrange(0, 6)[2] == v@[lo + 2]);
                    assert(t.subrange(0, 6)[3] == v@[lo + 3]);
                    assert(t.subrange(0, 6)[4] == v@[lo + 4]);
                    assert(t.subrange(0, 6)[5] == v@[lo + 5]);
                }
            }
        }
        return ByteRange::Unsatisfiable;
    }
    assert(t.subrange(0, 6) =~= bytes_unit());
    let p = lo + 6;
    let ghost r = t.skip(6);
    assert(r =~= v@.subrange(p as int, hi as int));
    let mut i = p;
    let mut dash = hi;
    while i < hi
        invariant
            p <= i <= hi <= v@.len(),
            r == v@.subrange(p as int, hi as int),
            dash <= hi,
            forall|k: int| p <= k < i ==> v@[k] != ',',
            dash == hi ==> forall|k: int| p <= k < i ==> v@[k] != '-',
            dash < hi ==> p <= dash < i && v@[dash as int] == '-' && forall|k: int|
                p <= k < dash ==> v@[k] != '-',
        decreases hi - i,
    {
        if v[i] == ',' {
            assert(r[i - p] == ',');
            assert(r.contains(','));
            return ByteRange::Unsatisfiable;
        }
        if v[i] == '-' && dash == hi {
            dash = i;
        }
        i = i + 1;
    }
    assert(!r.contains(',')) by {
        if r.contains(',') {
            let k = choose|k: int| 0 <= k < r.len() && r[k] == ',';
            assert(v@[p + k] == ',');
        }
    }
    if dash == hi {
        assert(!r.contains('-')) by {
            if r.contains('-') {
                let k = choose|k: int| 0 <= k < r.len() && r[k] == '-';
                assert(v@[p + k] == '-');
            }
        }
        return ByteRange::Unsatisfiable;
    }
    assert(r[dash - p] == '-');
    proof {
        lemma_first_index_of(r, '-', dash - p);
    }
    let ghost d = dash - p;
    assert(r.subrange(0, d) =~= v@.subrange(p as int, dash as int));
    assert(r.skip(d + 1) =~= v@.subrange(dash + 1, hi as int));
    let (es, ee) = trim_bounds(&v, dash + 1, hi);
    let offset: usize;
    let end_inclusive: usize;
    if dash == p {
        match parse_usize(&v, es, ee) {
            None => {
                return ByteRange::Unsatisfiable;
            },
            Some(n) => {
                if n == 0 {
                    return ByteRange::Unsatisfiable;
                }
                offset = file_size.saturating_sub(n);
                end_inclusive = file_size - 1;
            },
        }
    } else {
        let (ss, se) = trim_bounds(&v, p, dash);
        match parse_usize(&v, ss, se) {
            None => {
                return ByteRange::Unsatisfiable;
            },
            Some(s) => {
                offset = s;
                if ee == es {
                    end_inclusive = file_size - 1;
                } else {
                    match parse_usize(&v, es, ee) {
                        None => {
                            return ByteRange::Unsatisfiable;
                        },
                        Some(e) => {
                            end_inclusive = e;
                        },
                    }
                }
            },
        }
    }
    if offset >= file_size {
        return ByteRange::Unsatisfiable;
    }
    let last = if end_inclusive < file_size - 1 {
        end_inclusive
    } else {
        file_size - 1
    };
    if offset > last {
        return ByteRange::Unsatisfiable;
    }
    ByteRange::Partial { offset, length: last - offset + 1 }
}

/// Whitespace around a `Range` header value does not change the range it selects.
pub proof fn lemma_range_ignores_surrounding_whitespace(
    pre: Seq<char>,
    value: Seq<char>,
    post: Seq<char>,
    file_size: usize,
)
    requires
        all_ws(pre),
        all_ws(post),
    ensures
        byte_range_spec(pre + value + post, file_size) == byte_range_spec(value, file_size),
{
    lemma_trim_surrounding(pre, value, post);
}

/// A string of decimal digits.
pub open spec fn all_digits(s: Seq<char>) -> bool {
    s.len() > 0 && forall|i: int| 0 <= i < s.len() ==> is_digit(#[trigger] s[i])
}

/// In a non-empty file, a range with its end left out runs to the last byte:
/// `bytes=S-` selects what `bytes=S-E` selects for any end `E` at or past
/// the last byte.
pub proof fn lemma_omitted_end_is_last_byte(start: Seq<char>, end: Seq<char>, file_size: usize)
    requires
        file_size > 0,
        all_digits(start),
        all_digits(end),
        parse_usize_spec(end) matches Some(e) && e >= file_size - 1,
    ensures
        byte_range_spec(bytes_unit() + start + seq!['-'], file_size) == byte_range_spec(
            bytes_unit() + start + seq!['-'] + end,
            file_size,
        ),
{
    let open_ended = bytes_unit() + start + seq!['-'];
    let closed = open_ended + end;
    assert(!is_ws(start[0]) && !is_ws(start.last()));
    assert(!is_ws(end[0]) && !is_ws(end.last()));
    assert(open_ended[0] == 'b' && closed[0] == 'b');
    assert(open_ended.last() == '-');
    assert(closed.last() == end.last());
    lemma_trim_unpadded(open_ended);
    lemma_trim_unpadded(closed);
    lemma_trim_unpadded(start);
    lemma_trim_unpadded(end);
    assert(open_ended.subrange(0, 6) =~= bytes_unit());
    assert(closed.subrange(0, 6) =~= bytes_unit());
    let r1 = open_ended.skip(6);
    let r2 = closed.skip(6);
    assert(r1 =~= start + seq!['-']);
    assert(r2 =~= start + seq!['-'] + end);
    let d = start.len() as int;
    assert(r1[d] == '-' && r2[d] == '-');
    assert forall|i: int| 0 <= i < d implies r1[i] != '-' && r2[i] != '-' && r1[i] != ','
        && r2[i] != ',' by {
        assert(r1[i] == start[i] && r2[i] == start[i]);
        assert(is_digit(start[i]));
    }
    lemma_first_index_of(r1, '-', d);
    lemma_first_index_of(r2, '-', d);
    assert(!r1.contains(',')) by {
        if r1.contains(',') {
            let k = choose|k: int| 0 <= k < r1.len() && r1[k] == ',';
            assert(k < d || k == d);
        }
    }
    assert(!r2.contains(',')) by {
        if r2.contains(',') {
            let k = choose|k: int| 0 <= k < r2.len() && r2[k] == ',';
            if k > d {
                assert(r2[k] == end[k - d - 1]);
                assert(is_digit(end[k - d - 1]));
            }
        }
    }
    assert(r1.contains('-') && r2.contains('-'));
    assert(r1.subrange(0, d) =~= start);
    assert(r2.subrange(0, d) =~= start);
    assert(r1.skip(d + 1) =~= Seq::<char>::empty());
    assert(r2.skip(d + 1) =~= end);
    assert(trim(Seq::<char>::empty()) =~= Seq::<char>::empty());
}

} // verus!
