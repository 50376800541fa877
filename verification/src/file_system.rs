//! Mapping request paths onto files under the served directory.
use vstd::prelude::*;

use crate::http::RequestPathError;
use crate::path_buffer::{
    lemma_utf8_len_push, path_buffer_from, path_buffer_push, path_text, utf8_len,
    PathBuffer, LINUX_PATH_MAX_LENGTH,
};
use crate::text::chars_of;

verus! {

/// An open file: its descriptor and its size in bytes.
#[derive(Clone, Copy, Debug, PartialEq, Eq, Structural)]
pub struct FileResult {
    pub fd: i32,
    pub size: usize,
}

/// Why a file could not be opened.
#[derive(Clone, Copy, Debug, PartialEq, Eq, Structural)]
pub enum OpenError {
    NotFound,
    IsADirectory,
    Other,
}

/// Why a directory cannot be served.
#[derive(Clone, Copy, Debug, PartialEq, Eq, Structural)]
pub enum ServeDirError {
    /// The path does not name a directory.
    NotADirectory,
    /// The path is longer than a Linux path may be.
    TooLong,
}

/// Resolves request paths against the directory being served.
pub struct FileSystemHandler {
    base_path: PathBuffer,
}

/// One path component added to the path built so far: empty and `.`
/// components change nothing, `..` is refused, and any other component is
/// appended after a `/` when the result still fits in a Linux path.
pub open spec fn segment_step(acc: Seq<char>, seg: Seq<char>) -> Result<
    Seq<char>,
    RequestPathError,
> {
    if seg.len() == 0 || seg == seq!['.'] {
        Ok(acc)
    } else if seg == seq!['.', '.'] {
        Err(RequestPathError::Traversal)
    } else if utf8_len(acc) + 1 + utf8_len(seg) > LINUX_PATH_MAX_LENGTH {
        Err(RequestPathError::TooLong)
    } else {
        Ok(acc.push('/') + seg)
    }
}

/// Walks `rest` one character at a time; `seg` is the component being read.
pub open spec fn resolve_segments(acc: Seq<char>, seg: Seq<char>, rest: Seq<char>) -> Result<
    Seq<char>,
    RequestPathError,
>
    decreases rest.len(),
{
    if rest.len() == 0 {
        segment_step(acc, seg)
    } else if rest[0] == '/' {
        match segment_step(acc, seg) {
            Ok(a) => resolve_segments(a, Seq::empty(), rest.drop_first()),
            Err(e) => Err(e),
        }
    } else {
        resolve_segments(acc, seg.push(rest[0]), rest.drop_first())
    }
}

/// The file path that a decoded request path names under `base`: components
/// are taken in order, a leading `/` or any `..` component is refused, and
/// the whole must fit in a Linux path.
pub open spec fn resolve_request_path(base: Seq<char>, path: Seq<char>) -> Result<
    Seq<char>,
    RequestPathError,
> {
    if path.len() > 0 && path[0] == '/' {
        Err(RequestPathError::Traversal)
    } else {
        resolve_segments(base, Seq::empty(), path)
    }
}

impl FileSystemHandler {
    /// The directory being served.
    pub closed spec fn base(&self) -> Seq<char> {
        path_text(self.base_path)
    }

    /// A handler for `serve_dir`, given whether that path names a directory.
    pub fn new(serve_dir: &str, is_dir: bool) -> (r: Result<Self, ServeDirError>)
        ensures
            !is_dir ==> r == Err::<Self, ServeDirError>(ServeDirError::NotADirectory),
            is_dir && utf8_len(serve_dir@) > LINUX_PATH_MAX_LENGTH ==> r == Err::<
                Self,
                ServeDirError,
            >(ServeDirError::TooLong),
            r matches Ok(h) ==> is_dir && h.base() == serve_dir@,
            is_dir && utf8_len(serve_dir@) <= LINUX_PATH_MAX_LENGTH ==> r is Ok,
    {
        if !is_dir {
            return Err(ServeDirError::NotADirectory);
        }
        match path_buffer_from(serve_dir) {
            Some(base_path) => Ok(FileSystemHandler { base_path }),
            None => Err(ServeDirError::TooLong),
        }
    }

    /// Resolves a decoded request path to a file path under the served directory.
    pub fn construct_and_validate_decoded_path(&self, path: &str) -> (r: Result<
        PathBuffer,
        RequestPathError,
    >)
        ensures
            match resolve_request_path(self.base(), path@) {
                Ok(p) => r matches Ok(b) && path_text(b) == p,
                Err(e) => r == Err::<PathBuffer, RequestPathError>(e),
            },
    {
        let v = chars_of(path);
        if v.len() > 0 && v[0] == '/' {
            return Err(RequestPathError::Traversal);
        }
        let mut buf = self.base_path;
        let mut start: usize = 0;
        let mut i: usize = 0;
        assert(v@.skip(0) =~= v@);
        assert(v@.subrange(0, 0) =~= Seq::<char>::empty());
        while i < v.len()
            invariant
                start <= i <= v@.len(),
                v@ == path@,
                !(path@.len() > 0 && path@[0] == '/'),
                resolve_request_path(self.base(), path@) == resolve_segments(
                    path_text(buf),
                    v@.subrange(start as int, i as int),
                    v@.skip(i as int),
                ),
            decreases v@.len() - i,
        {
            let ghost acc = path_text(buf);
            let ghost seg = v@.subrange(start as int, i as int);
            assert(v@.skip(i as int)[0] == v@[i as int]);
            assert(v@.skip(i as int).drop_first() =~= v@.skip(i + 1));
            if v[i] == '/' {
                match push_segment(&mut buf, &v, start, i) {
                    Ok(()) => {},
                    Err(e) => {
                        return Err(e);
                    },
                }
                start = i + 1;
                assert(v@.subrange(start as int, start as int) =~= Seq::<char>::empty());
            } else {
                assert(seg.push(v@[i as int]) =~= v@.subrange(start as int, i + 1));
            }
            i = i + 1;
        }
        match push_segment(&mut buf, &v, start, i) {
            Ok(()) => Ok(buf),
            Err(e) => Err(e),
        }
    }
}

/// Applies `segment_step` to the component `v[start..end]`.
fn push_segment(buf: &mut PathBuffer, v: &Vec<char>, start: usize, end: usize) -> (r: Result<
    (),
    RequestPathError,
>)
    requires
        start <= end <= v@.len(),
    ensures
        match segment_step(path_text(*old(buf)), v@.subrange(start as int, end as int)) {
            Ok(a) => r is Ok && path_text(*final(buf)) == a,
            Err(e) => r == Err::<(), RequestPathError>(e),
        },
{
    let ghost acc = path_text(*buf);
    let ghost seg = v@.subrange(start as int, end as int);
    if end == start {
        return Ok(());
    }
    if end - start == 1 && v[start] == '.' {
        assert(seg =~= seq!['.']);
        return Ok(());
    }
    if end - start == 2 && v[start] == '.' && v[start + 1] == '.' {
        assert(seg =~= seq!['.', '.']);
        return Err(RequestPathError::Traversal);
    }
    assert(seg != seq!['.']) by {
        if seg.len() == 1 {
            assert(seg[0] == v@[start as int]);
        }
    }
    assert(seg != seq!['.', '.']) by {
        if seg.len() == 2 {
            assert(seg[0] == v@[start as int]);
            assert(seg[1] == v@[start + 1]);
        }
    }
    if !path_buffer_push(buf, '/') {
        return Err(RequestPathError::TooLong);
    }
    let mut j = start;
    proof {
        lemma_utf8_len_push(acc, '/');
        assert(acc.push('/') + v@.subrange(start as int, start as int) =~= acc.push('/'));
        assert(utf8_len(v@.subrange(start as int, start as int)) == 0);
    }
    while j < end
        invariant
            start <= j <= end <= v@.len(),
            seg == v@.subrange(start as int, end as int),
            seg.len() > 0 && seg != seq!['.'] && seg != seq!['.', '.'],
            acc == path_text(*old(buf)),
            path_text(*buf) == acc.push('/') + v@.subrange(start as int, j as int),
            utf8_len(path_text(*buf)) == utf8_len(acc) + 1 + utf8_len(
                v@.subrange(start as int, j as int),
            ),
            utf8_len(acc) + 1 + utf8_len(v@.subrange(start as int, j as int)) <= LINUX_PATH_MAX_LENGTH,
        decreases end - j,
    {
        let ghost before = path_text(*buf);
        proof {
            assert(v@.subrange(start as int, j as int).push(v@[j as int]) =~= v@.subrange(
                start as int,
                j + 1,
            ));
            lemma_utf8_len_push(v@.subrange(start as int, j as int), v@[j as int]);
        }
        if !path_buffer_push(buf, v[j]) {
            proof {
                lemma_utf8_len_prefix(seg, j - start + 1);
                assert(seg.subrange(0, j - start + 1) =~= v@.subrange(start as int, j + 1));
            }
            return Err(RequestPathError::TooLong);
        }
        proof {
            lemma_utf8_len_push(before, v@[j as int]);
            assert(before.push(v@[j as int]) =~= acc.push('/') + v@.subrange(start as int, j + 1));
        }
        j = j + 1;
    }
    assert(v@.subrange(start as int, end as int) == seg);
    Ok(())
}

proof fn lemma_utf8_len_prefix(s: Seq<char>, k: int)
    requires
        0 <= k <= s.len(),
    ensures
        utf8_len(s.subrange(0, k)) <= utf8_len(s),
    decreases s.len() - k,
{
    if k < s.len() {
        lemma_utf8_len_prefix(s, k + 1);
        assert(s.subrange(0, k + 1).drop_last() =~= s.subrange(0, k));
    } else {
        assert(s.subrange(0, k) =~= s);
    }
}

/// A path component that names an entry of a directory: not empty, without
/// `/`, and neither `.` nor `..`.
pub open spec fn is_normal_component(c: Seq<char>) -> bool {
    c.len() > 0 && !c.contains('/') && c != seq!['.'] && c != seq!['.', '.']
}

/// The components joined, each after a `/`.
pub open spec fn joined(components: Seq<Seq<char>>) -> Seq<char>
    decreases components.len(),
{
    if components.len() == 0 {
        Seq::empty()
    } else {
        joined(components.drop_last()).push('/') + components.last()
    }
}

proof fn lemma_resolve_segments_normal(
    base: Seq<char>,
    components: Seq<Seq<char>>,
    seg: Seq<char>,
    rest: Seq<char>,
) -> (out: Seq<Seq<char>>)
    requires
        forall|i: int| 0 <= i < components.len() ==> is_normal_component(#[trigger] components[i]),
        !seg.contains('/'),
    ensures
        resolve_segments(base + joined(components), seg, rest) matches Ok(r) ==> {
            &&& forall|i: int| 0 <= i < out.len() ==> is_normal_component(#[trigger] out[i])
            &&& r == base + joined(out)
        },
    decreases rest.len(),
{
    let acc = base + joined(components);
    let stepped = if seg.len() == 0 || seg == seq!['.'] {
        components
    } else {
        components.push(seg)
    };
    assert(segment_step(acc, seg) matches Ok(a) ==> {
        &&& forall|i: int| 0 <= i < stepped.len() ==> is_normal_component(#[trigger] stepped[i])
        &&& a == base + joined(stepped)
    }) by {
        if segment_step(acc, seg) is Ok && !(seg.len() == 0 || seg == seq!['.']) {
            assert(stepped.drop_last() =~= components);
            assert forall|i: int| 0 <= i < stepped.len() implies is_normal_component(
                #[trigger] stepped[i],
            ) by {
                if i < components.len() {
                    assert(stepped[i] == components[i]);
                }
            }
            assert(acc.push('/') + seg =~= base + (joined(components).push('/') + seg));
        }
    }
    if rest.len() == 0 {
        stepped
    } else if rest[0] == '/' {
        match segment_step(acc, seg) {
            Ok(a) => {
                assert(!Seq::<char>::empty().contains('/'));
                lemma_resolve_segments_normal(base, stepped, Seq::empty(), rest.drop_first())
            },
            Err(_) => components,
        }
    } else {
        assert(!seg.push(rest[0]).contains('/')) by {
            if seg.push(rest[0]).contains('/') {
                let k = choose|k: int| 0 <= k < seg.push(rest[0]).len() && seg.push(rest[0])[k] == '/';
                if k < seg.len() {
                    assert(seg[k] == '/');
                }
            }
        }
        lemma_resolve_segments_normal(base, components, seg.push(rest[0]), rest.drop_first())
    }
}

/// A request path that resolves names a file under the served directory:
/// the result is the directory followed by components that are each an
/// ordinary name, never `.` or `..`.
pub proof fn lemma_resolved_path_stays_under_base(base: Seq<char>, path: Seq<char>)
    ensures
        resolve_request_path(base, path) matches Ok(r) ==> exists|components: Seq<Seq<char>>|
            {
                &&& forall|i: int|
                    0 <= i < components.len() ==> is_normal_component(#[trigger] components[i])
                &&& r == base + joined(components)
            },
{
    if !(path.len() > 0 && path[0] == '/') {
        let empty = Seq::<Seq<char>>::empty();
        assert(base + joined(empty) =~= base);
        assert(!Seq::<char>::empty().contains('/'));
        let out = lemma_resolve_segments_normal(base, empty, Seq::empty(), path);
        if resolve_request_path(base, path) is Ok {
            assert(forall|i: int| 0 <= i < out.len() ==> is_normal_component(#[trigger] out[i]));
        }
    }
}

proof fn lemma_utf8_len_concat(a: Seq<char>, b: Seq<char>)
    ensures
        utf8_len(a + b) == utf8_len(a) + utf8_len(b),
    decreases b.len(),
{
    if b.len() == 0 {
        assert(a + b =~= a);
    } else {
        assert((a + b).drop_last() =~= a + b.drop_last());
        lemma_utf8_len_concat(a, b.drop_last());
    }
}

/// Joining after a first component: `/c` followed by the rest joined.
proof fn lemma_joined_first(c: Seq<char>, rest: Seq<Seq<char>>)
    ensures
        joined(seq![c] + rest) == seq!['/'] + c + joined(rest),
    decreases rest.len(),
{
    if rest.len() == 0 {
        assert(seq![c] + rest =~= seq![c]);
        assert(seq![c].drop_last() =~= Seq::<Seq<char>>::empty());
        assert(rest =~= Seq::<Seq<char>>::empty());
        assert(joined(Seq::<Seq<char>>::empty()) =~= Seq::<char>::empty());
        assert(seq![c].last() == c);
        assert(joined(seq![c]) == joined(seq![c].drop_last()).push('/') + c);
        assert(joined(seq![c]) =~= seq!['/'] + c + joined(rest));
    } else {
        assert((seq![c] + rest).drop_last() =~= seq![c] + rest.drop_last());
        lemma_joined_first(c, rest.drop_last());
        assert(joined(seq![c] + rest) =~= seq!['/'] + c + joined(rest));
    }
}

/// Reading characters without `/` only extends the component being read.
proof fn lemma_resolve_extends_segment(acc: Seq<char>, seg: Seq<char>, c: Seq<char>, rest: Seq<char>)
    requires
        !c.contains('/'),
    ensures
        resolve_segments(acc, seg, c + rest) == resolve_segments(acc, seg + c, rest),
    decreases c.len(),
{
    if c.len() == 0 {
        assert(c + rest =~= rest);
        assert(seg + c =~= seg);
    } else {
        assert((c + rest)[0] == c[0]);
        assert(c[0] != '/');
        assert((c + rest).drop_first() =~= c.drop_first() + rest);
        assert(!c.drop_first().contains('/')) by {
            if c.drop_first().contains('/') {
                let k = choose|k: int| 0 <= k < c.drop_first().len() && c.drop_first()[k] == '/';
                assert(c[k + 1] == '/');
            }
        }
        lemma_resolve_extends_segment(acc, seg.push(c[0]), c.drop_first(), rest);
        assert(seg.push(c[0]) + c.drop_first() =~= seg + c);
    }
}

proof fn lemma_resolve_components(acc: Seq<char>, cs: Seq<Seq<char>>)
    requires
        cs.len() > 0,
        forall|i: int| 0 <= i < cs.len() ==> is_normal_component(#[trigger] cs[i]),
        utf8_len(acc + joined(cs)) <= LINUX_PATH_MAX_LENGTH,
    ensures
        resolve_segments(acc, Seq::empty(), joined(cs).drop_first()) == Ok::<
            Seq<char>,
            RequestPathError,
        >(acc + joined(cs)),
    decreases cs.len(),
{
    let c = cs[0];
    let rest = cs.drop_first();
    assert(cs =~= seq![c] + rest);
    lemma_joined_first(c, rest);
    assert(is_normal_component(c));
    assert(joined(cs).drop_first() =~= c + joined(rest));
    lemma_utf8_len_concat(acc, joined(cs));
    lemma_utf8_len_concat(seq!['/'] + c, joined(rest));
    lemma_utf8_len_concat(seq!['/'], c);
    assert(utf8_len(seq!['/']) == 1) by {
        assert(seq!['/'].drop_last() =~= Seq::<char>::empty());
        assert(seq!['/'].last() == '/');
        assert(('/' as u32) == 0x2f);
        assert(utf8_len(Seq::<char>::empty()) == 0);
    }
    lemma_resolve_extends_segment(acc, Seq::empty(), c, joined(rest));
    assert(Seq::<char>::empty() + c =~= c);
    assert(segment_step(acc, c) == Ok::<Seq<char>, RequestPathError>(acc.push('/') + c));
    if rest.len() == 0 {
        assert(joined(rest) =~= Seq::<char>::empty());
        assert(acc.push('/') + c =~= acc + joined(cs));
    } else {
        let r = joined(rest);
        assert(r =~= seq!['/'] + rest[0] + joined(rest.drop_first())) by {
            assert(rest =~= seq![rest[0]] + rest.drop_first());
            lemma_joined_first(rest[0], rest.drop_first());
        }
        assert(r[0] == '/');
        assert(r.drop_first() == r.subrange(1, r.len() as int));
        assert(r =~= seq!['/'] + r.drop_first());
        assert(resolve_segments(acc, c, r) == resolve_segments(
            acc.push('/') + c,
            Seq::empty(),
            r.drop_first(),
        ));
        let acc2 = acc.push('/') + c;
        assert(acc2 + joined(rest) =~= acc + joined(cs));
        assert forall|i: int| 0 <= i < rest.len() implies is_normal_component(#[trigger] rest[i]) by {
            assert(rest[i] == cs[i + 1]);
        }
        lemma_resolve_components(acc2, rest);
    }
}

/// A request path made of ordinary components resolves to the served
/// directory followed by those same components, unchanged, when the whole
/// fits in a Linux path.
pub proof fn lemma_components_are_kept(base: Seq<char>, components: Seq<Seq<char>>)
    requires
        components.len() > 0,
        forall|i: int|
            0 <= i < components.len() ==> is_normal_component(#[trigger] components[i]),
        utf8_len(base + joined(components)) <= LINUX_PATH_MAX_LENGTH,
    ensures
        resolve_request_path(base, joined(components).drop_first()) == Ok::<
            Seq<char>,
            RequestPathError,
        >(base + joined(components)),
{
    let c = components[0];
    assert(components =~= seq![c] + components.drop_first());
    lemma_joined_first(c, components.drop_first());
    assert(is_normal_component(c));
    assert(joined(components).drop_first()[0] == c[0]);
    lemma_resolve_components(base, components);
}

} // verus!
