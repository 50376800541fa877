//! The decisions of the io_uring event loop: per connection, a token records
//! what the connection is doing; each completion event moves it on and yields
//! the submissions to queue next. The ring itself, and every system call, are
//! the caller's; where a decision needs the outcome of one, the event handler
//! returns a `Followup` that names it, and the caller reports the outcome.
use vstd::prelude::*;

use slab::Slab;

use crate::buffer_pool::{BufferPool, BUFFER_POOL_ITEM_SIZE, fresh_buffer};
use crate::file_system::{
    is_normal_component, joined, lemma_resolved_path_stays_under_base, resolve_request_path,
    FileResult, FileSystemHandler, OpenError,
};
use crate::header_buffer::{header_slice, lemma_header_fits_pool_buffer, new_header_buffer};
use crate::http::{
    bad_request_response, content_too_large_response, decode_http_request_path,
    decoded_request_path, httparse_request, internal_server_error_response, is_get_method,
    is_get_request, lemma_static_response_lengths, not_found_response, ok_response_header,
    parse_request, try_write_dynamic_ok_response, write_dynamic_ok_response, write_static_bad_request_error,
    write_static_content_not_found_error, write_static_content_too_large_error,
    write_static_internal_server_error, RequestParse, RequestParseView, MAX_REQUEST_HEADERS,
};
use crate::path_buffer::path_text;
use vstd::utf8::{decode_utf8, encode_utf8, valid_utf8};

verus! {

/// How the body of a response is sent.
#[derive(Clone, Copy, Debug, PartialEq, Eq, Structural)]
pub enum WriteStrategy {
    /// Blocking `sendfile(2)` calls, made as soon as the headers are out.
    SendFile,
    /// `sendfile(2)` inside the event loop, started by a no-op submission.
    SendFileInAsyncEventLoop,
    /// `splice(2)` from the file into a pipe and from the pipe into the socket.
    PipeAndSplice,
}

/// What a connection (or the listener) is waiting for.
#[derive(Clone, Copy, Debug, PartialEq, Eq, Structural)]
pub enum Token {
    /// The multishot accept on the listener.
    Accept,
    /// A poll on a freshly accepted socket.
    Poll { fd: i32 },
    /// A receive into `buf_index`, which holds `filled` bytes of the request so far.
    Read { fd: i32, buf_index: usize, filled: usize },
    /// A send of the `len`-byte header in `buf_index`, of which the first
    /// `offset` bytes are out; `body` is the file to send afterwards.
    WriteHeaders { fd: i32, buf_index: usize, offset: usize, len: usize, body: Option<FileResult> },
    /// Event-loop `sendfile(2)` of the `len`-byte file `body_fd`, of which
    /// the first `offset` bytes are sent.
    WriteBodySendFile { fd: i32, body_fd: i32, offset: i64, len: usize },
    /// A splice from the file into the pipe.
    WriteBodySpliceFileToPipe {
        fd: i32,
        body_fd: i32,
        pipe_read: i32,
        pipe_write: i32,
        file_offset: i64,
        remaining: usize,
    },
    /// A splice from the pipe into the socket; `in_pipe` bytes are in the pipe.
    WriteBodySplicePipeToSock {
        fd: i32,
        body_fd: i32,
        pipe_read: i32,
        pipe_write: i32,
        file_offset: i64,
        remaining: usize,
        in_pipe: usize,
    },
}

/// An io_uring submission to queue, tagged with the token index it reports to.
#[derive(Clone, Copy, Debug, PartialEq, Eq, Structural)]
pub enum Submission {
    /// Send `len` bytes of pool buffer `buf_index`, starting at `offset`.
    Send { fd: i32, buf_index: usize, offset: usize, len: usize, user_data: u64 },
    /// Receive at most `len` bytes into pool buffer `buf_index` at `offset`.
    Recv { fd: i32, buf_index: usize, offset: usize, len: usize, user_data: u64 },
    /// Wait until `fd` is readable.
    PollAdd { fd: i32, user_data: u64 },
    /// Accept connections on `fd` until the kernel ends the multishot.
    MultishotAccept { fd: i32, user_data: u64 },
    /// Close `fd`; its completion reports to `NO_USER_DATA`.
    Close { fd: i32 },
    /// A no-op whose completion reports to `user_data`.
    Nop { user_data: u64 },
    /// Splice `len` bytes; `more` asks for `SPLICE_F_MORE` besides `SPLICE_F_MOVE`.
    Splice {
        fd_in: i32,
        off_in: i64,
        fd_out: i32,
        off_out: i64,
        len: u32,
        more: bool,
        user_data: u64,
    },
}

/// A system call that an event needs before its handling can go on.
#[derive(Clone, Copy, Debug)]
pub enum Followup {
    /// Nothing: the event is handled.
    Done,
    /// Open the file at `path`, then call `respond_with_file`.
    OpenFile { token_index: usize, path: crate::path_buffer::PathBuffer },
    /// Send the body with blocking `sendfile(2)` calls, in chunks of at most
    /// `chunk_size` bytes, then call `finish_blocking_send_file`.
    SendFileBlocking { token_index: usize, fd: i32, body: FileResult, chunk_size: usize },
    /// Create a pipe, then call `begin_splice`.
    CreatePipe { token_index: usize },
    /// Send `chunk_size` bytes of `body_fd` from `offset` with `sendfile(2)`,
    /// then call `complete_send_file_chunk`.
    SendFileChunk { token_index: usize, fd: i32, body_fd: i32, offset: i64, chunk_size: usize },
}

/// The `user_data` of submissions whose completion is not reported.
pub const NO_USER_DATA: u64 = 0xffff_ffff_ffff_ffffu64;

/// Tokens stored by index.
pub type TokenSlab = Slab<Token>;

/// The tokens a slab holds, by index.
pub uninterp spec fn token_slab_items(s: TokenSlab) -> Map<usize, Token>;

/// The index that a slab's next insertion takes.
pub uninterp spec fn token_slab_next_key(s: TokenSlab) -> usize;

/// `Slab::with_capacity`: an empty slab, whose first insertion takes index 0.
#[verifier::external_body]
fn token_slab_with_capacity(capacity: usize) -> (store: TokenSlab)
    ensures
        token_slab_items(store).is_empty(),
        token_slab_next_key(store) == 0,
{
    Slab::with_capacity(capacity)
}

/// `Slab::insert`: stores `t` under the slab's next index, which was vacant,
/// and returns the index.
#[verifier::external_body]
fn token_slab_insert(s: &mut TokenSlab, t: Token) -> (key: usize)
    ensures
        key == token_slab_next_key(*old(s)),
        !token_slab_items(*old(s)).dom().contains(key),
        token_slab_items(*final(s)) == token_slab_items(*old(s)).insert(key, t),
{
    s.insert(t)
}

/// `Slab::remove`: removes the token under `key`; that index is the next to be taken.
#[verifier::external_body]
fn token_slab_remove(s: &mut TokenSlab, key: usize)
    requires
        token_slab_items(*old(s)).dom().contains(key),
    ensures
        token_slab_items(*final(s)) == token_slab_items(*old(s)).remove(key),
        token_slab_next_key(*final(s)) == key,
{
    s.remove(key);
}

/// `Slab::get`: the token under `key`, if any.
#[verifier::external_body]
fn token_slab_get(s: &TokenSlab, key: usize) -> (r: Option<Token>)
    ensures
        r == (if token_slab_items(*s).dom().contains(key) {
            Some(token_slab_items(*s)[key])
        } else {
            None
        }),
{
    s.get(key).copied()
}

/// `Slab`'s `IndexMut`: replaces the token under `key`.
#[verifier::external_body]
fn token_slab_set(s: &mut TokenSlab, key: usize, t: Token)
    requires
        token_slab_items(*old(s)).dom().contains(key),
    ensures
        token_slab_items(*final(s)) == token_slab_items(*old(s)).insert(key, t),
        token_slab_next_key(*final(s)) == token_slab_next_key(*old(s)),
{
    s[key] = t;
}

/// `io_uring::cqueue::more`: whether a completion's flags carry
/// `IORING_CQE_F_MORE`, that is, whether the operation will complete again.
#[verifier::external_body]
fn cqe_more(flags: u32) -> (r: bool)
    ensures
        r == (flags & 2 != 0),
{
    io_uring::cqueue::more(flags)
}

/// The pool buffer that a token holds, if any.
pub open spec fn token_buffer(t: Token) -> Option<usize> {
    match t {
        Token::Read { buf_index, .. } => Some(buf_index),
        Token::WriteHeaders { buf_index, .. } => Some(buf_index),
        _ => None,
    }
}

/// The bounds a token keeps within its buffer.
pub open spec fn token_in_bounds(t: Token) -> bool {
    match t {
        Token::Read { filled, .. } => filled < BUFFER_POOL_ITEM_SIZE,
        Token::WriteHeaders { offset, len, .. } => offset <= len && len <= BUFFER_POOL_ITEM_SIZE,
        _ => true,
    }
}

/// The completion result `ret` is one that the token's operation can report:
/// a receive fills at most the space it was given, a splice moves at most
/// the bytes it was asked for, and an event-loop `sendfile` stands within its file.
pub open spec fn event_in_range(t: Token, ret: i32) -> bool {
    match t {
        Token::Read { filled, .. } => filled + ret <= BUFFER_POOL_ITEM_SIZE,
        Token::WriteBodySendFile { offset, len, .. } => 0 <= offset && offset <= len,
        Token::WriteBodySpliceFileToPipe { file_offset, remaining, .. } => ret <= remaining
            && file_offset + ret <= i64::MAX,
        Token::WriteBodySplicePipeToSock { in_pipe, .. } => ret <= in_pipe,
        _ => true,
    }
}

/// Free buffers are allocated, appear once, and every buffer has the pool's size.
pub open spec fn pool_ok(free: Seq<usize>, bufs: Map<usize, Seq<u8>>) -> bool {
    &&& forall|i: int| 0 <= i < free.len() ==> bufs.dom().contains(#[trigger] free[i])
    &&& forall|k: usize| #[trigger] bufs.dom().contains(k) ==> bufs[k].len() == BUFFER_POOL_ITEM_SIZE
    &&& forall|i: int, j: int| 0 <= i < j < free.len() ==> free[i] != free[j]
}

/// A buffer is held by no token.
pub open spec fn unheld(tokens: Map<usize, Token>, b: usize) -> bool {
    forall|k: usize| #[trigger] tokens.dom().contains(k) ==> token_buffer(tokens[k]) != Some(b)
}

/// Tokens stay within their buffers, and every buffer a token holds is
/// allocated, not free, and held by no other token.
pub open spec fn tokens_ok(tokens: Map<usize, Token>, free: Seq<usize>, bufs: Map<usize, Seq<u8>>) -> bool {
    &&& forall|k: usize| #[trigger] tokens.dom().contains(k) ==> token_in_bounds(tokens[k])
    &&& forall|k: usize|
        #![trigger tokens.dom().contains(k)]
        tokens.dom().contains(k) && token_buffer(tokens[k]) is Some ==> {
            &&& bufs.dom().contains(token_buffer(tokens[k])->0)
            &&& !free.contains(token_buffer(tokens[k])->0)
        }
    &&& forall|k1: usize, k2: usize|
        #![trigger tokens.dom().contains(k1), tokens.dom().contains(k2)]
        tokens.dom().contains(k1) && tokens.dom().contains(k2) && k1 != k2 && token_buffer(
            tokens[k1],
        ) is Some ==> token_buffer(tokens[k1]) != token_buffer(tokens[k2])
}

/// The event loop's invariant over its tokens, free list and buffers.
pub open spec fn core_inv(tokens: Map<usize, Token>, free: Seq<usize>, bufs: Map<usize, Seq<u8>>) -> bool {
    pool_ok(free, bufs) && tokens_ok(tokens, free, bufs)
}

proof fn lemma_inv_remove(tokens: Map<usize, Token>, free: Seq<usize>, bufs: Map<usize, Seq<u8>>, k: usize)
    requires
        core_inv(tokens, free, bufs),
    ensures
        core_inv(tokens.remove(k), free, bufs),
{
    let t2 = tokens.remove(k);
    assert forall|k1: usize, k2: usize|
        t2.dom().contains(k1) && t2.dom().contains(k2) && k1 != k2 && token_buffer(t2[k1]) is Some
            implies token_buffer(t2[k1]) != token_buffer(t2[k2]) by {
        assert(tokens.dom().contains(k1) && tokens.dom().contains(k2));
    }
}

proof fn lemma_inv_insert_unbuffered(
    tokens: Map<usize, Token>,
    free: Seq<usize>,
    bufs: Map<usize, Seq<u8>>,
    k: usize,
    t: Token,
)
    requires
        core_inv(tokens.remove(k), free, bufs),
        token_buffer(t) is None,
    ensures
        core_inv(tokens.insert(k, t), free, bufs),
{
    let t1 = tokens.remove(k);
    let t2 = tokens.insert(k, t);
    assert(t2 =~= t1.insert(k, t));
    assert forall|k1: usize| #[trigger] t2.dom().contains(k1) implies token_in_bounds(t2[k1]) by {
        if k1 != k {
            assert(t1.dom().contains(k1));
        }
    }
    assert forall|k1: usize|
        #![trigger t2.dom().contains(k1)]
        t2.dom().contains(k1) && token_buffer(t2[k1]) is Some implies {
            &&& bufs.dom().contains(token_buffer(t2[k1])->0)
            &&& !free.contains(token_buffer(t2[k1])->0)
        } by {
        assert(t1.dom().contains(k1));
    }
    assert forall|k1: usize, k2: usize|
        t2.dom().contains(k1) && t2.dom().contains(k2) && k1 != k2 && token_buffer(t2[k1]) is Some
            implies token_buffer(t2[k1]) != token_buffer(t2[k2]) by {
        assert(t1.dom().contains(k1));
        if k2 != k {
            assert(t1.dom().contains(k2));
        }
    }
}

proof fn lemma_inv_insert_buffered(
    tokens: Map<usize, Token>,
    free: Seq<usize>,
    bufs: Map<usize, Seq<u8>>,
    k: usize,
    t: Token,
    b: usize,
)
    requires
        core_inv(tokens.remove(k), free, bufs),
        token_buffer(t) == Some(b),
        token_in_bounds(t),
        bufs.dom().contains(b),
        !free.contains(b),
        unheld(tokens.remove(k), b),
    ensures
        core_inv(tokens.insert(k, t), free, bufs),
{
    let t1 = tokens.remove(k);
    let t2 = tokens.insert(k, t);
    assert(t2 =~= t1.insert(k, t));
    assert forall|k1: usize| #[trigger] t2.dom().contains(k1) implies token_in_bounds(t2[k1]) by {
        if k1 != k {
            assert(t1.dom().contains(k1));
        }
    }
    assert forall|k1: usize|
        #![trigger t2.dom().contains(k1)]
        t2.dom().contains(k1) && token_buffer(t2[k1]) is Some implies {
            &&& bufs.dom().contains(token_buffer(t2[k1])->0)
            &&& !free.contains(token_buffer(t2[k1])->0)
        } by {
        if k1 != k {
            assert(t1.dom().contains(k1));
        }
    }
    assert forall|k1: usize, k2: usize|
        t2.dom().contains(k1) && t2.dom().contains(k2) && k1 != k2 && token_buffer(t2[k1]) is Some
            implies token_buffer(t2[k1]) != token_buffer(t2[k2]) by {
        if k1 != k && k2 != k {
            assert(t1.dom().contains(k1));
            assert(t1.dom().contains(k2));
        } else if k1 == k {
            assert(t1.dom().contains(k2));
        } else {
            assert(t1.dom().contains(k1));
        }
    }
}

/// Returning the buffer of token `k` to the pool while dropping the token.
proof fn lemma_inv_return(
    tokens: Map<usize, Token>,
    free: Seq<usize>,
    bufs: Map<usize, Seq<u8>>,
    k: usize,
    b: usize,
)
    requires
        core_inv(tokens, free, bufs),
        tokens.dom().contains(k),
        token_buffer(tokens[k]) == Some(b),
    ensures
        core_inv(tokens.remove(k), free.push(b), bufs),
        unheld(tokens.remove(k), b),
{
    let t1 = tokens.remove(k);
    let f2 = free.push(b);
    assert forall|i: int| 0 <= i < f2.len() implies bufs.dom().contains(#[trigger] f2[i]) by {
        if i < free.len() {
            assert(f2[i] == free[i]);
        }
    }
    assert forall|i: int, j: int| 0 <= i < j < f2.len() implies f2[i] != f2[j] by {
        if j == free.len() {
            assert(f2[i] == free[i]);
            assert(free.contains(free[i]));
        } else {
            assert(f2[i] == free[i]);
            assert(f2[j] == free[j]);
        }
    }
    assert forall|k1: usize|
        #![trigger t1.dom().contains(k1)]
        t1.dom().contains(k1) && token_buffer(t1[k1]) is Some implies {
            &&& bufs.dom().contains(token_buffer(t1[k1])->0)
            &&& !f2.contains(token_buffer(t1[k1])->0)
        } by {
        assert(tokens.dom().contains(k1));
        assert(tokens.dom().contains(k));
        let bb = token_buffer(t1[k1])->0;
        if f2.contains(bb) {
            let i = choose|i: int| 0 <= i < f2.len() && f2[i] == bb;
            if i < free.len() {
                assert(free[i] == bb);
                assert(free.contains(bb));
            }
        }
    }
    assert forall|k1: usize, k2: usize|
        t1.dom().contains(k1) && t1.dom().contains(k2) && k1 != k2 && token_buffer(t1[k1]) is Some
            implies token_buffer(t1[k1]) != token_buffer(t1[k2]) by {
        assert(tokens.dom().contains(k1));
        assert(tokens.dom().contains(k2));
    }
    assert forall|k1: usize| #[trigger] t1.dom().contains(k1) implies token_buffer(t1[k1]) != Some(b) by {
        assert(tokens.dom().contains(k1));
        assert(tokens.dom().contains(k));
    }
}

/// Taking the last free buffer, which no token holds.
proof fn lemma_inv_take_free(tokens: Map<usize, Token>, free: Seq<usize>, bufs: Map<usize, Seq<u8>>)
    requires
        core_inv(tokens, free, bufs),
        free.len() > 0,
    ensures
        core_inv(tokens, free.drop_last(), bufs),
        bufs.dom().contains(free.last()),
        !free.drop_last().contains(free.last()),
        unheld(tokens, free.last()),
{
    let f2 = free.drop_last();
    let b = free.last();
    assert(bufs.dom().contains(free[free.len() - 1]));
    assert forall|i: int| 0 <= i < f2.len() implies bufs.dom().contains(#[trigger] f2[i]) by {
        assert(f2[i] == free[i]);
    }
    assert forall|i: int, j: int| 0 <= i < j < f2.len() implies f2[i] != f2[j] by {
        assert(f2[i] == free[i]);
        assert(f2[j] == free[j]);
    }
    if f2.contains(b) {
        let i = choose|i: int| 0 <= i < f2.len() && f2[i] == b;
        assert(free[i] == free[free.len() - 1]);
    }
    assert forall|k1: usize|
        #![trigger tokens.dom().contains(k1)]
        tokens.dom().contains(k1) && token_buffer(tokens[k1]) is Some implies {
            &&& bufs.dom().contains(token_buffer(tokens[k1])->0)
            &&& !f2.contains(token_buffer(tokens[k1])->0)
        } by {
        let bb = token_buffer(tokens[k1])->0;
        if f2.contains(bb) {
            let i = choose|i: int| 0 <= i < f2.len() && f2[i] == bb;
            assert(free[i] == bb);
            assert(free.contains(bb));
        }
    }
    assert forall|k1: usize| #[trigger] tokens.dom().contains(k1) implies token_buffer(tokens[k1]) != Some(b) by {
        assert(free[free.len() - 1] == b);
        assert(free.contains(b));
    }
}

/// Allocating a buffer under a key that was vacant.
proof fn lemma_inv_allocate(
    tokens: Map<usize, Token>,
    free: Seq<usize>,
    bufs: Map<usize, Seq<u8>>,
    b: usize,
    contents: Seq<u8>,
)
    requires
        core_inv(tokens, free, bufs),
        !bufs.dom().contains(b),
        contents.len() == BUFFER_POOL_ITEM_SIZE,
    ensures
        core_inv(tokens, free, bufs.insert(b, contents)),
        !free.contains(b),
        unheld(tokens, b),
{
    let bufs2 = bufs.insert(b, contents);
    assert forall|i: int| 0 <= i < free.len() implies bufs2.dom().contains(#[trigger] free[i]) by {
        assert(bufs.dom().contains(free[i]));
    }
    assert forall|k: usize| #[trigger] bufs2.dom().contains(k) implies bufs2[k].len()
        == BUFFER_POOL_ITEM_SIZE by {
        if k != b {
            assert(bufs.dom().contains(k));
        }
    }
    if free.contains(b) {
        let i = choose|i: int| 0 <= i < free.len() && free[i] == b;
        assert(bufs.dom().contains(free[i]));
    }
    assert forall|k1: usize|
        #![trigger tokens.dom().contains(k1)]
        tokens.dom().contains(k1) && token_buffer(tokens[k1]) is Some implies {
            &&& bufs2.dom().contains(token_buffer(tokens[k1])->0)
            &&& !free.contains(token_buffer(tokens[k1])->0)
        } by {
    }
    assert forall|k1: usize| #[trigger] tokens.dom().contains(k1) implies token_buffer(tokens[k1]) != Some(b) by {
    }
}

/// Overwriting the contents of an allocated buffer, keeping its size.
proof fn lemma_inv_write(
    tokens: Map<usize, Token>,
    free: Seq<usize>,
    bufs: Map<usize, Seq<u8>>,
    b: usize,
    contents: Seq<u8>,
)
    requires
        core_inv(tokens, free, bufs),
        bufs.dom().contains(b),
        contents.len() == BUFFER_POOL_ITEM_SIZE,
    ensures
        core_inv(tokens, free, bufs.insert(b, contents)),
{
    let bufs2 = bufs.insert(b, contents);
    assert(bufs2.dom() =~= bufs.dom());
    assert forall|k: usize| #[trigger] bufs2.dom().contains(k) implies bufs2[k].len()
        == BUFFER_POOL_ITEM_SIZE by {
        if k != b {
            assert(bufs.dom().contains(k));
        }
    }
}

/// The buffer of token `k` is allocated, not free, and held by no other token.
proof fn lemma_inv_owned(tokens: Map<usize, Token>, free: Seq<usize>, bufs: Map<usize, Seq<u8>>, k: usize)
    requires
        core_inv(tokens, free, bufs),
        tokens.dom().contains(k),
        token_buffer(tokens[k]) is Some,
    ensures
        bufs.dom().contains(token_buffer(tokens[k])->0),
        !free.contains(token_buffer(tokens[k])->0),
        unheld(tokens.remove(k), token_buffer(tokens[k])->0),
        core_inv(tokens.remove(k), free, bufs),
{
    lemma_inv_remove(tokens, free, bufs, k);
    let t1 = tokens.remove(k);
    assert forall|k1: usize| #[trigger] t1.dom().contains(k1) implies token_buffer(t1[k1])
        != token_buffer(tokens[k]) by {
        assert(tokens.dom().contains(k1));
    }
}

/// Which buffer the pool hands out, and what it keeps: the last free one when
/// there is one, and otherwise a new zero-filled one under a vacant index.
pub open spec fn handed_out(
    free0: Seq<usize>,
    bufs0: Map<usize, Seq<u8>>,
    next0: usize,
    free1: Seq<usize>,
    bufs1: Map<usize, Seq<u8>>,
    b: usize,
) -> bool {
    if free0.len() > 0 {
        b == free0.last() && free1 == free0.drop_last() && bufs1 == bufs0
    } else {
        b == next0 && !bufs0.dom().contains(b) && bufs1 == bufs0.insert(b, fresh_buffer())
            && free1 == free0
    }
}

/// A send or receive names an allocated buffer and lies within it.
pub open spec fn submission_fits(bufs: Map<usize, Seq<u8>>, s: Submission) -> bool {
    match s {
        Submission::Send { buf_index, offset, len, .. } => bufs.dom().contains(buf_index) && offset
            + len <= bufs[buf_index].len(),
        Submission::Recv { buf_index, offset, len, .. } => bufs.dom().contains(buf_index) && offset
            + len <= bufs[buf_index].len(),
        _ => true,
    }
}

/// Every submission queued after the first `out0.len()` fits in `bufs`.
pub open spec fn queued_fit(bufs: Map<usize, Seq<u8>>, out0: Seq<Submission>, out1: Seq<Submission>) -> bool {
    forall|i: int| out0.len() <= i < out1.len() ==> submission_fits(bufs, #[trigger] out1[i])
}

/// The byte accounting of a body sent by splicing a file of `size` bytes,
/// after `moved_in` bytes went from the file into the pipe and `moved_out`
/// from the pipe into the socket: the file offset is what went in, it and
/// what remains add up to the file's size, and the pipe holds what went in
/// and has not come out.
pub open spec fn splice_accounts(t: Token, size: int, moved_in: int, moved_out: int) -> bool {
    match t {
        Token::WriteBodySpliceFileToPipe { file_offset, remaining, .. } => {
            &&& file_offset == moved_in
            &&& file_offset + remaining == size
            &&& moved_out == moved_in
        },
        Token::WriteBodySplicePipeToSock { file_offset, remaining, in_pipe, .. } => {
            &&& file_offset == moved_in
            &&& file_offset + remaining == size
            &&& in_pipe == moved_in - moved_out
        },
        _ => false,
    }
}

/// Among the submissions queued after the first `out0.len()`, one closes `fd`.
pub open spec fn queues_close(out0: Seq<Submission>, out1: Seq<Submission>, fd: i32) -> bool {
    exists|i: int| out0.len() <= i < out1.len() && out1[i] == (Submission::Close { fd })
}

/// `src` written over the start of `dst`.
fn copy_prefix(dst: &mut [u8], src: &[u8])
    requires
        src@.len() <= old(dst)@.len(),
    ensures
        final(dst)@ == src@ + old(dst)@.skip(src@.len() as int),
{
    let mut i: usize = 0;
    while i < src.len()
        invariant
            i <= src@.len() <= dst@.len(),
            dst@.len() == old(dst)@.len(),
            forall|j: int| 0 <= j < i ==> dst@[j] == src@[j],
            forall|j: int| i <= j < dst@.len() ==> dst@[j] == old(dst)@[j],
        decreases src@.len() - i,
    {
        dst[i] = src[i];
        i = i + 1;
    }
    assert(dst@ =~= src@ + old(dst)@.skip(src@.len() as int));
}

/// The decisions of one event loop, and the state they keep.
pub struct UringCore {
    listener: i32,
    write_strategy: WriteStrategy,
    file_system_handler: FileSystemHandler,
    buffer_pool: BufferPool,
    token_alloc: TokenSlab,
    body_write_chunk_size: usize,
}

impl UringCore {
    pub closed spec fn tokens(&self) -> Map<usize, Token> {
        token_slab_items(self.token_alloc)
    }

    pub closed spec fn free(&self) -> Seq<usize> {
        self.buffer_pool.free()
    }

    /// The index the next registered token gets.
    pub closed spec fn next_token_index(&self) -> usize {
        token_slab_next_key(self.token_alloc)
    }

    /// The index the next newly allocated buffer gets.
    pub closed spec fn next_buffer_index(&self) -> usize {
        self.buffer_pool.next_index()
    }

    /// Neither the next token index nor the next buffer index changed.
    pub open spec fn same_next(&self, other: &Self) -> bool {
        self.next_token_index() == other.next_token_index() && self.next_buffer_index()
            == other.next_buffer_index()
    }

    pub closed spec fn buffers(&self) -> Map<usize, Seq<u8>> {
        self.buffer_pool.buffers()
    }

    pub closed spec fn listener(&self) -> i32 {
        self.listener
    }

    pub closed spec fn write_strategy(&self) -> WriteStrategy {
        self.write_strategy
    }

    pub closed spec fn chunk_size(&self) -> usize {
        self.body_write_chunk_size
    }

    pub closed spec fn base(&self) -> Seq<char> {
        self.file_system_handler.base()
    }

    /// The parts that no event changes.
    pub open spec fn same_config(&self, other: &Self) -> bool {
        &&& self.listener() == other.listener()
        &&& self.write_strategy() == other.write_strategy()
        &&& self.chunk_size() == other.chunk_size()
        &&& self.base() == other.base()
    }

    /// Every buffer in use belongs to exactly one token and is not free;
    /// free buffers appear once; tokens stay within their buffers.
    pub open spec fn wf(&self) -> bool {
        core_inv(self.tokens(), self.free(), self.buffers())
    }

    /// A core with no connections yet.
    pub fn new(
        listener: i32,
        write_strategy: WriteStrategy,
        file_system_handler: FileSystemHandler,
        buffer_pool: BufferPool,
        token_capacity: usize,
        body_write_chunk_size: usize,
    ) -> (core: Self)
        requires
            buffer_pool.wf(),
            forall|i: int, j: int|
                0 <= i < j < buffer_pool.free().len() ==> buffer_pool.free()[i]
                    != buffer_pool.free()[j],
        ensures
            core.wf(),
            core.tokens().is_empty(),
            core.free() == buffer_pool.free(),
            core.buffers() == buffer_pool.buffers(),
            core.next_token_index() == 0,
            core.next_buffer_index() == buffer_pool.next_index(),
            core.listener() == listener,
            core.write_strategy() == write_strategy,
            core.chunk_size() == body_write_chunk_size,
            core.base() == file_system_handler.base(),
    {
        UringCore {
            listener,
            write_strategy,
            file_system_handler,
            buffer_pool,
            token_alloc: token_slab_with_capacity(token_capacity),
            body_write_chunk_size,
        }
    }

    /// Registers the listener's accept token and queues its multishot accept.
    pub fn prep_initial_accept(&mut self, out: &mut Vec<Submission>)
        requires
            old(self).wf(),
        ensures
            final(self).wf(),
            final(self).same_config(old(self)),
            final(self).free() == old(self).free(),
            final(self).buffers() == old(self).buffers(),
            final(self).next_buffer_index() == old(self).next_buffer_index(),
            exists|k: usize|
                {
                    &&& k == old(self).next_token_index()
                    &&& !old(self).tokens().dom().contains(k)
                    &&& final(self).tokens() == old(self).tokens().insert(k, Token::Accept)
                    &&& final(out)@ == old(out)@.push(
                        Submission::MultishotAccept { fd: old(self).listener(), user_data: k as u64 },
                    )
                },
            queued_fit(final(self).buffers(), old(out)@, final(out)@),
    {
        let key = token_slab_insert(&mut self.token_alloc, Token::Accept);
        out.push(Submission::MultishotAccept { fd: self.listener, user_data: key as u64 });
        assert(self.tokens().dom().contains(key));
    }
}

impl UringCore {
    /// The header in `header` was written over the start of buffer `b`, and
    /// token `ti` now sends it to `fd`, with `body` to follow.
    pub open spec fn wrote_header(
        &self,
        new: &Self,
        out0: Seq<Submission>,
        out1: Seq<Submission>,
        ti: usize,
        fd: i32,
        b: usize,
        header: Seq<u8>,
        body: Option<FileResult>,
    ) -> bool {
        &&& new.buffers() == self.buffers().insert(
            b,
            header + self.buffers()[b].skip(header.len() as int),
        )
        &&& new.free() == self.free()
        &&& new.same_next(self)
        &&& new.tokens() == self.tokens().insert(
            ti,
            Token::WriteHeaders { fd, buf_index: b, offset: 0, len: header.len() as usize, body },
        )
        &&& out1 == out0.push(
            Submission::Send {
                fd,
                buf_index: b,
                offset: 0,
                len: header.len() as usize,
                user_data: ti as u64,
            },
        )
    }

    /// Token `ti` now receives a request from `fd` into a buffer handed out
    /// from the pool whose free list was `free0`.
    pub open spec fn polled(
        &self,
        new: &Self,
        free0: Seq<usize>,
        out0: Seq<Submission>,
        out1: Seq<Submission>,
        ti: usize,
        fd: i32,
    ) -> bool {
        &&& new.next_token_index() == self.next_token_index()
        &&& free0.len() > 0 ==> new.next_buffer_index() == self.next_buffer_index()
        &&& exists|b: usize|
            {
                &&& handed_out(free0, self.buffers(), self.next_buffer_index(), new.free(), new.buffers(), b)
                &&& new.tokens() == self.tokens().insert(
                    ti,
                    Token::Read { fd, buf_index: b, filled: 0 },
                )
                &&& out1 == out0.push(
                    Submission::Recv {
                        fd,
                        buf_index: b,
                        offset: 0,
                        len: BUFFER_POOL_ITEM_SIZE,
                        user_data: ti as u64,
                    },
                )
            }
    }

    /// The send that `wrote_header` queues lies within the token's buffer.
    proof fn lemma_wrote_header_fits(
        &self,
        new: &Self,
        out0: Seq<Submission>,
        out1: Seq<Submission>,
        ti: usize,
        fd: i32,
        b: usize,
        header: Seq<u8>,
        body: Option<FileResult>,
    )
        requires
            self.wrote_header(new, out0, out1, ti, fd, b, header, body),
            new.wf(),
        ensures
            queued_fit(new.buffers(), out0, out1),
    {
        assert(new.tokens().dom().contains(ti));
        assert(token_in_bounds(new.tokens()[ti]));
        assert(new.buffers().dom().contains(b));
        assert forall|i: int| out0.len() <= i < out1.len() implies submission_fits(
            new.buffers(),
            #[trigger] out1[i],
        ) by {
            assert(i == out0.len());
        }
    }

    /// The receive that `polled` queues lies within the token's buffer.
    proof fn lemma_polled_fits(
        &self,
        new: &Self,
        free0: Seq<usize>,
        out0: Seq<Submission>,
        out1: Seq<Submission>,
        ti: usize,
        fd: i32,
    )
        requires
            self.polled(new, free0, out0, out1, ti, fd),
            new.wf(),
        ensures
            queued_fit(new.buffers(), out0, out1),
            out1.len() == out0.len() + 1,
            out1.drop_last() == out0,
    {
        let b = choose|b: usize|
            {
                &&& handed_out(free0, self.buffers(), self.next_buffer_index(), new.free(), new.buffers(), b)
                &&& new.tokens() == self.tokens().insert(ti, Token::Read { fd, buf_index: b, filled: 0 })
                &&& out1 == out0.push(
                    Submission::Recv {
                        fd,
                        buf_index: b,
                        offset: 0,
                        len: BUFFER_POOL_ITEM_SIZE,
                        user_data: ti as u64,
                    },
                )
            };
        assert(new.tokens().dom().contains(ti));
        assert(new.buffers().dom().contains(b));
        assert forall|i: int| out0.len() <= i < out1.len() implies submission_fits(
            new.buffers(),
            #[trigger] out1[i],
        ) by {
            assert(i == out0.len());
        }
        assert(out1.drop_last() =~= out0);
    }

    /// Writes `header` into the buffer of the read token `ti` and queues its send.
    fn respond(
        &mut self,
        token_index: usize,
        fd: i32,
        buf_index: usize,
        header: &[u8],
        body: Option<FileResult>,
        out: &mut Vec<Submission>,
    )
        requires
            old(self).wf(),
            old(self).tokens().dom().contains(token_index),
            token_buffer(old(self).tokens()[token_index]) == Some(buf_index),
            header@.len() <= crate::header_buffer::RESPONSE_HEADER_BUFFER_SIZE,
        ensures
            final(self).wf(),
            final(self).same_config(old(self)),
            old(self).wrote_header(
                final(self),
                old(out)@,
                final(out)@,
                token_index,
                fd,
                buf_index,
                header@,
                body,
            ),
    {
        let ghost t0 = self.tokens();
        let ghost f0 = self.buffer_pool.free();
        let ghost b0 = self.buffer_pool.buffers();
        proof {
            lemma_inv_owned(t0, f0, b0, token_index);
            lemma_header_fits_pool_buffer();
        }
        let buf = self.buffer_pool.get_mut(buf_index);
        copy_prefix(buf, header);
        proof {
            lemma_inv_write(t0, f0, b0, buf_index, self.buffer_pool.buffers()[buf_index]);
            lemma_inv_owned(t0, f0, self.buffer_pool.buffers(), token_index);
        }
        let t = Token::WriteHeaders {
            fd,
            buf_index,
            offset: 0,
            len: header.len(),
            body,
        };
        token_slab_set(&mut self.token_alloc, token_index, t);
        proof {
            lemma_inv_insert_buffered(t0, f0, self.buffer_pool.buffers(), token_index, t, buf_index);
        }
        out.push(
            Submission::Send { fd, buf_index, offset: 0, len: header.len(), user_data: token_index as u64 },
        );
    }

    /// Gives token `ti` a buffer from the pool and queues a receive into it.
    fn handle_poll_token(&mut self, fd: i32, token_index: usize, out: &mut Vec<Submission>)
        requires
            core_inv(
                old(self).tokens().remove(token_index),
                old(self).free(),
                old(self).buffers(),
            ),
            old(self).tokens().dom().contains(token_index),
        ensures
            final(self).wf(),
            final(self).same_config(old(self)),
            old(self).polled(final(self), old(self).free(), old(out)@, final(out)@, token_index, fd),
    {
        let ghost t1 = self.tokens().remove(token_index);
        let ghost f0 = self.buffer_pool.free();
        let ghost b0 = self.buffer_pool.buffers();
        let buf_index = self.buffer_pool.reuse_or_allocate();
        proof {
            if f0.len() > 0 {
                lemma_inv_take_free(t1, f0, b0);
            } else {
                lemma_inv_allocate(t1, f0, b0, buf_index, fresh_buffer());
            }
        }
        let t = Token::Read { fd, buf_index, filled: 0 };
        token_slab_set(&mut self.token_alloc, token_index, t);
        proof {
            assert(self.tokens().remove(token_index) =~= t1);
            lemma_inv_insert_buffered(
                old(self).tokens(),
                self.buffer_pool.free(),
                self.buffer_pool.buffers(),
                token_index,
                t,
                buf_index,
            );
        }
        out.push(
            Submission::Recv {
                fd,
                buf_index,
                offset: 0,
                len: BUFFER_POOL_ITEM_SIZE,
                user_data: token_index as u64,
            },
        );
        assert(handed_out(f0, b0, old(self).next_buffer_index(), self.free(), self.buffers(), buf_index));
    }
}

impl UringCore {
    /// What a failed operation does to its token: a failed accept is
    /// re-armed; a body in flight has its descriptors closed; in every other
    /// case but an unknown token, the token is dropped.
    pub open spec fn error_effect(
        &self,
        new: &Self,
        out0: Seq<Submission>,
        out1: Seq<Submission>,
        ti: usize,
    ) -> bool {
        if !self.tokens().dom().contains(ti) {
            new.tokens() == self.tokens() && new.same_next(self) && out1 == out0
        } else if self.tokens()[ti] is Accept {
            new.tokens() == self.tokens() && new.same_next(self) && out1 == out0.push(
                Submission::MultishotAccept { fd: self.listener(), user_data: ti as u64 },
            )
        } else {
            &&& new.next_token_index() == ti
            &&& new.next_buffer_index() == self.next_buffer_index()
            &&& match self.tokens()[ti] {
                Token::Accept => new.tokens() == self.tokens() && out1 == out0.push(
                    Submission::MultishotAccept { fd: self.listener(), user_data: ti as u64 },
                ),
                Token::WriteBodySendFile { fd, body_fd, .. } => new.tokens() == self.tokens().remove(
                    ti,
                ) && out1 == out0 + seq![
                    Submission::Close { fd: body_fd },
                    Submission::Close { fd },
                ],
                Token::WriteBodySpliceFileToPipe { fd, body_fd, pipe_read, pipe_write, .. } =>
                    new.tokens() == self.tokens().remove(ti) && out1 == out0 + seq![
                    Submission::Close { fd },
                    Submission::Close { fd: pipe_read },
                    Submission::Close { fd: pipe_write },
                    Submission::Close { fd: body_fd },
                ],
                Token::WriteBodySplicePipeToSock { fd, body_fd, pipe_read, pipe_write, .. } =>
                    new.tokens() == self.tokens().remove(ti) && out1 == out0 + seq![
                    Submission::Close { fd },
                    Submission::Close { fd: pipe_read },
                    Submission::Close { fd: pipe_write },
                    Submission::Close { fd: body_fd },
                ],
                _ => new.tokens() == self.tokens().remove(ti) && out1 == out0,
            }
        }
    }

    /// When an operation fails for a token that sends a body, the token is
    /// dropped and every descriptor it holds is closed: the socket, the file
    /// and, for a splice, both ends of the pipe; nothing but closes is queued.
    pub proof fn lemma_error_closes_held_descriptors(
        &self,
        new: &Self,
        out0: Seq<Submission>,
        out1: Seq<Submission>,
        ti: usize,
    )
        requires
            self.error_effect(new, out0, out1, ti),
            self.tokens().dom().contains(ti),
            self.tokens()[ti] is WriteBodySendFile || self.tokens()[ti] is WriteBodySpliceFileToPipe
                || self.tokens()[ti] is WriteBodySplicePipeToSock,
        ensures
            new.tokens() == self.tokens().remove(ti),
            out0.len() <= out1.len(),
            out1.subrange(0, out0.len() as int) == out0,
            forall|i: int| out0.len() <= i < out1.len() ==> (#[trigger] out1[i]) is Close,
            match self.tokens()[ti] {
                Token::WriteBodySendFile { fd, body_fd, .. } => queues_close(out0, out1, fd)
                    && queues_close(out0, out1, body_fd),
                Token::WriteBodySpliceFileToPipe { fd, body_fd, pipe_read, pipe_write, .. } =>
                    queues_close(out0, out1, fd) && queues_close(out0, out1, body_fd) && queues_close(
                    out0,
                    out1,
                    pipe_read,
                ) && queues_close(out0, out1, pipe_write),
                Token::WriteBodySplicePipeToSock { fd, body_fd, pipe_read, pipe_write, .. } =>
                    queues_close(out0, out1, fd) && queues_close(out0, out1, body_fd) && queues_close(
                    out0,
                    out1,
                    pipe_read,
                ) && queues_close(out0, out1, pipe_write),
                _ => false,
            },
    {
        let n = out0.len() as int;
        match self.tokens()[ti] {
            Token::WriteBodySendFile { fd, body_fd, .. } => {
                assert(out1[n] == Submission::Close { fd: body_fd });
                assert(out1[n + 1] == Submission::Close { fd });
            },
            Token::WriteBodySpliceFileToPipe { fd, body_fd, pipe_read, pipe_write, .. } => {
                assert(out1[n] == Submission::Close { fd });
                assert(out1[n + 1] == Submission::Close { fd: pipe_read });
                assert(out1[n + 2] == Submission::Close { fd: pipe_write });
                assert(out1[n + 3] == Submission::Close { fd: body_fd });
            },
            Token::WriteBodySplicePipeToSock { fd, body_fd, pipe_read, pipe_write, .. } => {
                assert(out1[n] == Submission::Close { fd });
                assert(out1[n + 1] == Submission::Close { fd: pipe_read });
                assert(out1[n + 2] == Submission::Close { fd: pipe_write });
                assert(out1[n + 3] == Submission::Close { fd: body_fd });
            },
            _ => {},
        }
        assert(out1.subrange(0, n) =~= out0);
    }

    /// Handles a completion that reports an error (`ret < 0`) for token `token_index`.
    pub fn handle_error_event(&mut self, ret: i32, token_index: usize, out: &mut Vec<Submission>)
        requires
            old(self).wf(),
        ensures
            final(self).wf(),
            final(self).same_config(old(self)),
            final(self).free() == old(self).free(),
            final(self).buffers() == old(self).buffers(),
            old(self).error_effect(final(self), old(out)@, final(out)@, token_index),
            queued_fit(final(self).buffers(), old(out)@, final(out)@),
    {
        let ghost t0 = self.tokens();
        proof {
            lemma_inv_remove(t0, self.buffer_pool.free(), self.buffer_pool.buffers(), token_index);
        }
        match token_slab_get(&self.token_alloc, token_index) {
            None => {
                return;
            },
            Some(Token::Accept) => {
                out.push(
                    Submission::MultishotAccept { fd: self.listener, user_data: token_index as u64 },
                );
                return;
            },
            Some(Token::WriteBodySendFile { fd, body_fd, .. }) => {
                out.push(Submission::Close { fd: body_fd });
                out.push(Submission::Close { fd });
                assert(out@ =~= old(out)@ + seq![Submission::Close { fd: body_fd }, Submission::Close { fd }]);
            },
            Some(Token::WriteBodySpliceFileToPipe { fd, body_fd, pipe_read, pipe_write, .. }) => {
                out.push(Submission::Close { fd });
                out.push(Submission::Close { fd: pipe_read });
                out.push(Submission::Close { fd: pipe_write });
                out.push(Submission::Close { fd: body_fd });
                assert(out@ =~= old(out)@ + seq![
                    Submission::Close { fd },
                    Submission::Close { fd: pipe_read },
                    Submission::Close { fd: pipe_write },
                    Submission::Close { fd: body_fd },
                ]);
            },
            Some(
                Token::WriteBodySplicePipeToSock { fd, body_fd, pipe_read, pipe_write, .. },
            ) => {
                out.push(Submission::Close { fd });
                out.push(Submission::Close { fd: pipe_read });
                out.push(Submission::Close { fd: pipe_write });
                out.push(Submission::Close { fd: body_fd });
                assert(out@ =~= old(out)@ + seq![
                    Submission::Close { fd },
                    Submission::Close { fd: pipe_read },
                    Submission::Close { fd: pipe_write },
                    Submission::Close { fd: body_fd },
                ]);
            },
            _ => {},
        }
        token_slab_remove(&mut self.token_alloc, token_index);
    }

    /// A poll token is registered for the accepted socket `ret` under an index
    /// that was vacant, and a poll on it is queued; when the kernel ended the
    /// multishot accept (no `IORING_CQE_F_MORE`), it is re-armed.
    pub open spec fn accepted(
        &self,
        new: &Self,
        out0: Seq<Submission>,
        out1: Seq<Submission>,
        ret: i32,
        ti: usize,
        flags: u32,
    ) -> bool {
        &&& new.free() == self.free()
        &&& new.buffers() == self.buffers()
        &&& new.next_buffer_index() == self.next_buffer_index()
        &&& exists|p: usize|
            {
                &&& p == self.next_token_index()
                &&& !self.tokens().dom().contains(p)
                &&& new.tokens() == self.tokens().insert(p, Token::Poll { fd: ret })
                &&& out1 == out0.push(Submission::PollAdd { fd: ret, user_data: p as u64 }) + (
                if flags & 2 == 0 {
                    seq![Submission::MultishotAccept { fd: self.listener(), user_data: ti as u64 }]
                } else {
                    Seq::<Submission>::empty()
                })
            }
    }

    /// Registers a poll token for the connection `ret` just accepted and
    /// queues the poll; re-arms the accept when the kernel ended it.
    fn handle_accept_token(&mut self, ret: i32, token_index: usize, flags: u32, out: &mut Vec<Submission>)
        requires
            old(self).wf(),
        ensures
            final(self).wf(),
            final(self).same_config(old(self)),
            old(self).accepted(final(self), old(out)@, final(out)@, ret, token_index, flags),
    {
        let fd = ret;
        let poll_token = token_slab_insert(&mut self.token_alloc, Token::Poll { fd });
        out.push(Submission::PollAdd { fd, user_data: poll_token as u64 });
        let ghost mid = out@;
        if !cqe_more(flags) {
            out.push(Submission::MultishotAccept { fd: self.listener, user_data: token_index as u64 });
        }
        assert(self.tokens().dom().contains(poll_token));
        assert(out@ =~= mid + (if flags & 2 == 0 {
            seq![Submission::MultishotAccept { fd: old(self).listener(), user_data: token_index as u64 }]
        } else {
            Seq::<Submission>::empty()
        }));
    }
}

/// The file that a request path names under `base`, when it names one.
pub open spec fn request_target(base: Seq<char>, raw: Seq<char>) -> Option<Seq<char>> {
    let d = decoded_request_path(raw);
    if !valid_utf8(d) {
        None
    } else {
        match resolve_request_path(base, decode_utf8(d)) {
            Ok(p) => Some(p),
            Err(_) => None,
        }
    }
}

/// A request that the server answers with a file never names one outside the
/// served directory: the file is the directory followed by ordinary names.
pub proof fn lemma_request_target_stays_under_base(base: Seq<char>, raw: Seq<char>)
    ensures
        request_target(base, raw) matches Some(p) ==> exists|components: Seq<Seq<char>>|
            {
                &&& forall|i: int|
                    0 <= i < components.len() ==> is_normal_component(#[trigger] components[i])
                &&& p == base + joined(components)
            },
{
    let d = decoded_request_path(raw);
    if valid_utf8(d) {
        lemma_resolved_path_stays_under_base(base, decode_utf8(d));
    }
}

impl UringCore {
    /// Nothing changes but what `f` asks for.
    pub open spec fn unchanged(&self, new: &Self, out0: Seq<Submission>, out1: Seq<Submission>) -> bool {
        new.tokens() == self.tokens() && new.free() == self.free() && new.buffers() == self.buffers()
            && new.same_next(self) && out1 == out0
    }

    /// What a receive of `ret` bytes does for the read token `ti`: an empty
    /// receive closes the connection and frees its buffer; otherwise the
    /// `filled + ret` bytes received so far are parsed (see `request_effect`).
    pub open spec fn read_effect(
        &self,
        new: &Self,
        out0: Seq<Submission>,
        out1: Seq<Submission>,
        f: Followup,
        ti: usize,
        fd: i32,
        b: usize,
        filled: usize,
        ret: i32,
    ) -> bool {
        if ret == 0 {
            &&& new.free() == self.free().push(b)
            &&& new.buffers() == self.buffers()
            &&& new.tokens() == self.tokens().remove(ti)
            &&& new.next_token_index() == ti
            &&& new.next_buffer_index() == self.next_buffer_index()
            &&& out1 == out0.push(Submission::Close { fd })
            &&& f is Done
        } else {
            let filled2 = (filled + ret) as usize;
            self.request_effect(
                new,
                out0,
                out1,
                f,
                ti,
                fd,
                b,
                filled2,
                httparse_request(
                    self.buffers()[b].subrange(0, filled2 as int),
                    MAX_REQUEST_HEADERS as nat,
                ),
            )
        }
    }

    /// What the read token `ti`, whose buffer holds `filled2` bytes of a
    /// request, does with how they parsed: an invalid request gets `500`, a
    /// request that is not `GET` or whose path names no file under the served
    /// directory gets `400`, a request still incomplete when the buffer is
    /// full gets `413`; an incomplete request in a buffer with room left is
    /// received further; a `GET` of a valid path asks for the file to be opened.
    pub open spec fn request_effect(
        &self,
        new: &Self,
        out0: Seq<Submission>,
        out1: Seq<Submission>,
        f: Followup,
        ti: usize,
        fd: i32,
        b: usize,
        filled2: usize,
        parsed: RequestParseView,
    ) -> bool {
        match parsed {
            RequestParseView::Complete { method, path } => {
                if !(method matches Some(m) && is_get_method(encode_utf8(m))) {
                    self.wrote_header(new, out0, out1, ti, fd, b, bad_request_response(), None)
                        && f is Done
                } else {
                    let raw = match path {
                        Some(p) => p,
                        None => Seq::<char>::empty(),
                    };
                    match request_target(self.base(), raw) {
                        None => self.wrote_header(
                            new,
                            out0,
                            out1,
                            ti,
                            fd,
                            b,
                            bad_request_response(),
                            None,
                        ) && f is Done,
                        Some(p) => self.unchanged(new, out0, out1) && (f matches Followup::OpenFile {
                            token_index,
                            path,
                        } && token_index == ti && path_text(path) == p),
                    }
                }
            },
            RequestParseView::Partial => {
                if filled2 >= BUFFER_POOL_ITEM_SIZE {
                    self.wrote_header(
                        new,
                        out0,
                        out1,
                        ti,
                        fd,
                        b,
                        content_too_large_response(),
                        None,
                    ) && f is Done
                } else {
                    &&& new.free() == self.free()
                    &&& new.buffers() == self.buffers()
                    &&& new.same_next(self)
                    &&& new.tokens() == self.tokens().insert(
                        ti,
                        Token::Read { fd, buf_index: b, filled: filled2 },
                    )
                    &&& out1 == out0.push(
                        Submission::Recv {
                            fd,
                            buf_index: b,
                            offset: filled2,
                            len: (BUFFER_POOL_ITEM_SIZE - filled2) as usize,
                            user_data: ti as u64,
                        },
                    )
                    &&& f is Done
                }
            },
            RequestParseView::Invalid => self.wrote_header(
                new,
                out0,
                out1,
                ti,
                fd,
                b,
                internal_server_error_response(),
                None,
            ) && f is Done,
        }
    }

    fn handle_read_token(
        &mut self,
        fd: i32,
        buf_index: usize,
        filled: usize,
        ret: i32,
        token_index: usize,
        out: &mut Vec<Submission>,
    ) -> (f: Followup)
        requires
            old(self).wf(),
            old(self).tokens().dom().contains(token_index),
            old(self).tokens()[token_index] == (Token::Read { fd, buf_index, filled }),
            ret >= 0,
            filled + ret <= BUFFER_POOL_ITEM_SIZE,
        ensures
            final(self).wf(),
            final(self).same_config(old(self)),
            old(self).read_effect(
                final(self),
                old(out)@,
                final(out)@,
                f,
                token_index,
                fd,
                buf_index,
                filled,
                ret,
            ),
    {
        let ghost t0 = self.tokens();
        let ghost f0 = self.buffer_pool.free();
        let ghost b0 = self.buffer_pool.buffers();
        proof {
            lemma_inv_owned(t0, f0, b0, token_index);
            lemma_static_response_lengths();
        }
        if ret == 0 {
            self.buffer_pool.return_to_pool(buf_index);
            token_slab_remove(&mut self.token_alloc, token_index);
            proof {
                lemma_inv_return(t0, f0, b0, token_index, buf_index);
            }
            out.push(Submission::Close { fd });
            return Followup::Done;
        }
        let filled = filled + ret as usize;
        let request = parse_request::<MAX_REQUEST_HEADERS>(
            vstd::slice::slice_subrange(self.buffer_pool.get(buf_index), 0, filled),
        );
        self.handle_request_parse(token_index, filled, request, out)
    }

    /// Answers the read token `token_index` once the `filled` bytes its
    /// buffer holds have been parsed as `request`.
    pub fn handle_request_parse(
        &mut self,
        token_index: usize,
        filled: usize,
        request: RequestParse,
        out: &mut Vec<Submission>,
    ) -> (f: Followup)
        requires
            old(self).wf(),
            old(self).tokens().dom().contains(token_index),
            old(self).tokens()[token_index] is Read,
            filled <= BUFFER_POOL_ITEM_SIZE,
        ensures
            final(self).wf(),
            final(self).same_config(old(self)),
            queued_fit(final(self).buffers(), old(out)@, final(out)@),
            match old(self).tokens()[token_index] {
                Token::Read { fd, buf_index, .. } => old(self).request_effect(
                    final(self),
                    old(out)@,
                    final(out)@,
                    f,
                    token_index,
                    fd,
                    buf_index,
                    filled,
                    request@,
                ),
                _ => false,
            },
    {
        let ghost t0 = self.tokens();
        let ghost f0 = self.buffer_pool.free();
        let ghost b0 = self.buffer_pool.buffers();
        let (fd, buf_index) = match token_slab_get(&self.token_alloc, token_index) {
            Some(Token::Read { fd, buf_index, .. }) => (fd, buf_index),
            _ => {
                assert(false);
                (0, 0)
            },
        };
        proof {
            lemma_inv_owned(t0, f0, b0, token_index);
            lemma_static_response_lengths();
        }
        let ghost parsed = request@;
        let mut header = new_header_buffer();
        match request {
            RequestParse::Complete(request) => {
                if !is_get_request(&request) {
                    write_static_bad_request_error(&mut header);
                } else {
                    proof {
                        reveal_strlit("");
                    }
                    let raw_path: &str = match &request.path {
                        Some(p) => p.as_str(),
                        None => "",
                    };
                    match decode_http_request_path(raw_path) {
                        Ok(decoded) => {
                            match self.file_system_handler.construct_and_validate_decoded_path(
                                decoded.as_str(),
                            ) {
                                Ok(path) => {
                                    return Followup::OpenFile { token_index, path };
                                },
                                Err(_) => {
                                    write_static_bad_request_error(&mut header);
                                },
                            }
                        },
                        Err(_) => {
                            write_static_bad_request_error(&mut header);
                        },
                    }
                }
            },
            RequestParse::Partial => {
                if filled >= BUFFER_POOL_ITEM_SIZE {
                    write_static_content_too_large_error(&mut header);
                } else {
                    let t = Token::Read { fd, buf_index, filled };
                    token_slab_set(&mut self.token_alloc, token_index, t);
                    proof {
                        lemma_inv_insert_buffered(t0, f0, b0, token_index, t, buf_index);
                    }
                    out.push(
                        Submission::Recv {
                            fd,
                            buf_index,
                            offset: filled,
                            len: BUFFER_POOL_ITEM_SIZE - filled,
                            user_data: token_index as u64,
                        },
                    );
                    proof {
                        old(self).lemma_request_fits(
                            self,
                            old(out)@,
                            out@,
                            Followup::Done,
                            token_index,
                            fd,
                            buf_index,
                            filled,
                            parsed,
                        );
                    }
                    return Followup::Done;
                }
            },
            RequestParse::Invalid => {
                write_static_internal_server_error(&mut header);
            },
        }
        self.respond(token_index, fd, buf_index, header_slice(&header), None, out);
        proof {
            old(self).lemma_request_fits(
                self,
                old(out)@,
                out@,
                Followup::Done,
                token_index,
                fd,
                buf_index,
                filled,
                parsed,
            );
        }
        Followup::Done
    }
}

/// The header that answers a request for a file, given how opening it went:
/// `200` with the file's type and size, `404` for a missing file or a
/// directory, `500` otherwise.
pub open spec fn file_response_header(path: Seq<char>, opened: Result<FileResult, OpenError>) -> Seq<u8> {
    match opened {
        Ok(f) => ok_response_header(path, f.size),
        Err(OpenError::Other) => internal_server_error_response(),
        Err(_) => not_found_response(),
    }
}

/// The body that follows: the file, when it opened.
pub open spec fn file_response_body(opened: Result<FileResult, OpenError>) -> Option<FileResult> {
    match opened {
        Ok(f) => Some(f),
        Err(_) => None,
    }
}

impl UringCore {
    /// The token under `token_index`, if any.
    pub fn token(&self, token_index: usize) -> (r: Option<Token>)
        ensures
            r == (if self.tokens().dom().contains(token_index) {
                Some(self.tokens()[token_index])
            } else {
                None
            }),
    {
        token_slab_get(&self.token_alloc, token_index)
    }

    /// Answers the read token `token_index`, whose request named the file at
    /// `path`, once opening that file went as `opened`.
    pub fn respond_with_file(
        &mut self,
        token_index: usize,
        path: &str,
        opened: Result<FileResult, OpenError>,
        out: &mut Vec<Submission>,
    )
        requires
            old(self).wf(),
            old(self).tokens().dom().contains(token_index),
            old(self).tokens()[token_index] is Read,
            file_response_header(path@, opened).len()
                <= crate::header_buffer::RESPONSE_HEADER_BUFFER_SIZE,
        ensures
            final(self).wf(),
            final(self).same_config(old(self)),
            match old(self).tokens()[token_index] {
                Token::Read { fd, buf_index, .. } => old(self).wrote_header(
                    final(self),
                    old(out)@,
                    final(out)@,
                    token_index,
                    fd,
                    buf_index,
                    file_response_header(path@, opened),
                    file_response_body(opened),
                ),
                _ => false,
            },
            queued_fit(final(self).buffers(), old(out)@, final(out)@),
    {
        proof {
            lemma_static_response_lengths();
        }
        let (fd, buf_index) = match token_slab_get(&self.token_alloc, token_index) {
            Some(Token::Read { fd, buf_index, .. }) => (fd, buf_index),
            _ => {
                assert(false);
                (0, 0)
            },
        };
        let mut header = new_header_buffer();
        let body = match opened {
            Ok(file) => {
                write_dynamic_ok_response(&mut header, path, file.size);
                Some(file)
            },
            Err(OpenError::Other) => {
                write_static_internal_server_error(&mut header);
                None
            },
            Err(_) => {
                write_static_content_not_found_error(&mut header);
                None
            },
        };
        self.respond(token_index, fd, buf_index, header_slice(&header), body, out);
    }

    /// As `respond_with_file`, when the response header fits in a header
    /// buffer; otherwise changes nothing and returns `false`.
    pub fn try_respond_with_file(
        &mut self,
        token_index: usize,
        path: &str,
        opened: Result<FileResult, OpenError>,
        out: &mut Vec<Submission>,
    ) -> (answered: bool)
        requires
            old(self).wf(),
            old(self).tokens().dom().contains(token_index),
            old(self).tokens()[token_index] is Read,
        ensures
            final(self).wf(),
            final(self).same_config(old(self)),
            answered == (file_response_header(path@, opened).len()
                <= crate::header_buffer::RESPONSE_HEADER_BUFFER_SIZE),
            !answered ==> old(self).unchanged(final(self), old(out)@, final(out)@),
            answered ==> match old(self).tokens()[token_index] {
                Token::Read { fd, buf_index, .. } => old(self).wrote_header(
                    final(self),
                    old(out)@,
                    final(out)@,
                    token_index,
                    fd,
                    buf_index,
                    file_response_header(path@, opened),
                    file_response_body(opened),
                ),
                _ => false,
            },
            queued_fit(final(self).buffers(), old(out)@, final(out)@),
    {
        proof {
            lemma_static_response_lengths();
        }
        if let Ok(file) = opened {
            let mut probe = new_header_buffer();
            if !try_write_dynamic_ok_response(&mut probe, path, file.size) {
                return false;
            }
        }
        self.respond_with_file(token_index, path, opened, out);
        true
    }
}

pub open spec fn min_usize(a: usize, b: usize) -> usize {
    if a < b {
        a
    } else {
        b
    }
}

impl UringCore {
    /// The body's file and the socket are closed and token `ti` waits for the
    /// socket's next request: the body descriptor is closed, then a receive
    /// is queued into a pool buffer (see `polled`).
    pub open spec fn closed_body(
        &self,
        new: &Self,
        out0: Seq<Submission>,
        out1: Seq<Submission>,
        ti: usize,
        fd: i32,
        body_fd: i32,
    ) -> bool {
        self.polled(new, self.free(), out0.push(Submission::Close { fd: body_fd }), out1, ti, fd)
    }

    /// What a completed send of `ret` header bytes does: once the header is
    /// out, a response without body closes the connection and frees the
    /// buffer, and a response with a body starts it by the write strategy;
    /// before that, the rest of the header is sent.
    pub open spec fn write_headers_effect(
        &self,
        new: &Self,
        out0: Seq<Submission>,
        out1: Seq<Submission>,
        f: Followup,
        ti: usize,
        fd: i32,
        b: usize,
        offset: usize,
        len: usize,
        body: Option<FileResult>,
        ret: i32,
    ) -> bool {
        if offset + ret >= len {
            match body {
                None => {
                    &&& new.free() == self.free().push(b)
                    &&& new.buffers() == self.buffers()
                    &&& new.tokens() == self.tokens().remove(ti)
                    &&& new.next_token_index() == ti
                    &&& new.next_buffer_index() == self.next_buffer_index()
                    &&& out1 == out0.push(Submission::Close { fd })
                    &&& f is Done
                },
                Some(file) => match self.write_strategy() {
                    WriteStrategy::SendFile => self.unchanged(new, out0, out1) && (
                    f matches Followup::SendFileBlocking { token_index, fd: fd2, body, chunk_size }
                        && token_index == ti && fd2 == fd && body == file && chunk_size
                        == self.chunk_size()),
                    WriteStrategy::SendFileInAsyncEventLoop => {
                        &&& new.free() == self.free().push(b)
                        &&& new.buffers() == self.buffers()
                        &&& new.same_next(self)
                        &&& new.tokens() == self.tokens().insert(
                            ti,
                            Token::WriteBodySendFile {
                                fd,
                                body_fd: file.fd,
                                offset: 0,
                                len: file.size,
                            },
                        )
                        &&& out1 == out0.push(Submission::Nop { user_data: ti as u64 })
                        &&& f is Done
                    },
                    WriteStrategy::PipeAndSplice => self.unchanged(new, out0, out1) && (
                    f matches Followup::CreatePipe { token_index } && token_index == ti),
                },
            }
        } else {
            let sent = (offset + ret) as usize;
            &&& new.free() == self.free()
            &&& new.buffers() == self.buffers()
            &&& new.same_next(self)
            &&& new.tokens() == self.tokens().insert(
                ti,
                Token::WriteHeaders { fd, buf_index: b, offset: sent, len, body },
            )
            &&& out1 == out0.push(
                Submission::Send {
                    fd,
                    buf_index: b,
                    offset: sent,
                    len: (len - sent) as usize,
                    user_data: ti as u64,
                },
            )
            &&& f is Done
        }
    }

    fn handle_write_headers_token(
        &mut self,
        fd: i32,
        buf_index: usize,
        offset: usize,
        len: usize,
        body: Option<FileResult>,
        ret: i32,
        token_index: usize,
        out: &mut Vec<Submission>,
    ) -> (f: Followup)
        requires
            old(self).wf(),
            old(self).tokens().dom().contains(token_index),
            old(self).tokens()[token_index] == (Token::WriteHeaders {
                fd,
                buf_index,
                offset,
                len,
                body,
            }),
            ret >= 0,
        ensures
            final(self).wf(),
            final(self).same_config(old(self)),
            old(self).write_headers_effect(
                final(self),
                old(out)@,
                final(out)@,
                f,
                token_index,
                fd,
                buf_index,
                offset,
                len,
                body,
                ret,
            ),
    {
        let ghost t0 = self.tokens();
        let ghost f0 = self.buffer_pool.free();
        let ghost b0 = self.buffer_pool.buffers();
        proof {
            lemma_inv_owned(t0, f0, b0, token_index);
        }
        let write_len = ret as usize;
        if offset + write_len >= len {
            match body {
                None => {
                    self.buffer_pool.return_to_pool(buf_index);
                    token_slab_remove(&mut self.token_alloc, token_index);
                    proof {
                        lemma_inv_return(t0, f0, b0, token_index, buf_index);
                    }
                    out.push(Submission::Close { fd });
                    Followup::Done
                },
                Some(file) => match self.write_strategy {
                    WriteStrategy::SendFile => Followup::SendFileBlocking {
                        token_index,
                        fd,
                        body: file,
                        chunk_size: self.body_write_chunk_size,
                    },
                    WriteStrategy::SendFileInAsyncEventLoop => {
                        self.buffer_pool.return_to_pool(buf_index);
                        let t = Token::WriteBodySendFile {
                            fd,
                            body_fd: file.fd,
                            offset: 0,
                            len: file.size,
                        };
                        token_slab_set(&mut self.token_alloc, token_index, t);
                        proof {
                            lemma_inv_return(t0, f0, b0, token_index, buf_index);
                            lemma_inv_insert_unbuffered(
                                t0,
                                f0.push(buf_index),
                                b0,
                                token_index,
                                t,
                            );
                        }
                        out.push(Submission::Nop { user_data: token_index as u64 });
                        Followup::Done
                    },
                    WriteStrategy::PipeAndSplice => Followup::CreatePipe { token_index },
                },
            }
        } else {
            let sent = offset + write_len;
            let t = Token::WriteHeaders { fd, buf_index, offset: sent, len, body };
            token_slab_set(&mut self.token_alloc, token_index, t);
            proof {
                lemma_inv_insert_buffered(t0, f0, b0, token_index, t, buf_index);
            }
            out.push(
                Submission::Send {
                    fd,
                    buf_index,
                    offset: sent,
                    len: len - sent,
                    user_data: token_index as u64,
                },
            );
            Followup::Done
        }
    }

    /// Completes a `SendFileBlocking` follow-up once the blocking sends are
    /// done: frees the header buffer, closes the file, and waits for the
    /// connection's next request.
    pub fn finish_blocking_send_file(&mut self, token_index: usize, out: &mut Vec<Submission>)
        requires
            old(self).wf(),
            old(self).tokens().dom().contains(token_index),
            old(self).tokens()[token_index] matches Token::WriteHeaders { body, .. } && body is Some,
        ensures
            final(self).wf(),
            final(self).same_config(old(self)),
            match old(self).tokens()[token_index] {
                Token::WriteHeaders { fd, buf_index, body, .. } => old(self).polled(
                    final(self),
                    old(self).free().push(buf_index),
                    old(out)@.push(Submission::Close { fd: body->0.fd }),
                    final(out)@,
                    token_index,
                    fd,
                ),
                _ => false,
            },
            queued_fit(final(self).buffers(), old(out)@, final(out)@),
    {
        let ghost t0 = self.tokens();
        let ghost f0 = self.buffer_pool.free();
        let ghost b0 = self.buffer_pool.buffers();
        let (fd, buf_index, file) = match token_slab_get(&self.token_alloc, token_index) {
            Some(Token::WriteHeaders { fd, buf_index, body: Some(file), .. }) => (fd, buf_index, file),
            _ => {
                assert(false);
                (0, 0, FileResult { fd: 0, size: 0 })
            },
        };
        proof {
            lemma_inv_owned(t0, f0, b0, token_index);
            lemma_inv_return(t0, f0, b0, token_index, buf_index);
        }
        self.buffer_pool.return_to_pool(buf_index);
        out.push(Submission::Close { fd: file.fd });
        proof {
            assert(self.tokens().remove(token_index) =~= t0.remove(token_index));
        }
        let ghost mid = *self;
        let ghost mid_out = out@;
        self.handle_poll_token(fd, token_index, out);
        proof {
            assert(mid.polled(self, mid.free(), mid_out, out@, token_index, fd));
            let b = choose|b: usize|
                {
                    &&& handed_out(mid.free(), mid.buffers(), mid.next_buffer_index(), self.free(), self.buffers(), b)
                    &&& self.tokens() == mid.tokens().insert(
                        token_index,
                        Token::Read { fd, buf_index: b, filled: 0 },
                    )
                    &&& out@ == mid_out.push(
                        Submission::Recv {
                            fd,
                            buf_index: b,
                            offset: 0,
                            len: BUFFER_POOL_ITEM_SIZE,
                            user_data: token_index as u64,
                        },
                    )
                };
            assert(handed_out(old(self).free().push(buf_index), old(self).buffers(), old(self).next_buffer_index(), self.free(), self.buffers(), b));
        }
    }

    /// Completes a `CreatePipe` follow-up with the pipe's two ends: frees the
    /// header buffer and starts splicing the file into the pipe.
    pub fn begin_splice(
        &mut self,
        token_index: usize,
        pipe_read: i32,
        pipe_write: i32,
        out: &mut Vec<Submission>,
    )
        requires
            old(self).wf(),
            old(self).tokens().dom().contains(token_index),
            old(self).tokens()[token_index] matches Token::WriteHeaders { body, .. } && body is Some,
        ensures
            final(self).wf(),
            final(self).same_config(old(self)),
            match old(self).tokens()[token_index] {
                Token::WriteHeaders { fd, buf_index, body, .. } => {
                    let file = body->0;
                    &&& final(self).free() == old(self).free().push(buf_index)
                    &&& final(self).buffers() == old(self).buffers()
                    &&& final(self).same_next(old(self))
                    &&& final(self).tokens() == old(self).tokens().insert(
                        token_index,
                        Token::WriteBodySpliceFileToPipe {
                            fd,
                            body_fd: file.fd,
                            pipe_read,
                            pipe_write,
                            file_offset: 0,
                            remaining: file.size,
                        },
                    )
                    &&& final(out)@ == old(out)@.push(
                        Submission::Splice {
                            fd_in: file.fd,
                            off_in: 0,
                            fd_out: pipe_write,
                            off_out: -1i64,
                            len: min_usize(file.size, old(self).chunk_size()) as u32,
                            more: true,
                            user_data: token_index as u64,
                        },
                    )
                },
                _ => false,
            },
            old(self).tokens()[token_index] matches Token::WriteHeaders { body: Some(file), .. }
                ==> splice_accounts(final(self).tokens()[token_index], file.size as int, 0, 0),
            queued_fit(final(self).buffers(), old(out)@, final(out)@),
    {
        let ghost t0 = self.tokens();
        let ghost f0 = self.buffer_pool.free();
        let ghost b0 = self.buffer_pool.buffers();
        let (fd, buf_index, file) = match token_slab_get(&self.token_alloc, token_index) {
            Some(Token::WriteHeaders { fd, buf_index, body: Some(file), .. }) => (fd, buf_index, file),
            _ => {
                assert(false);
                (0, 0, FileResult { fd: 0, size: 0 })
            },
        };
        proof {
            lemma_inv_owned(t0, f0, b0, token_index);
            lemma_inv_return(t0, f0, b0, token_index, buf_index);
        }
        self.buffer_pool.return_to_pool(buf_index);
        let chunk = if file.size < self.body_write_chunk_size {
            file.size
        } else {
            self.body_write_chunk_size
        };
        let t = Token::WriteBodySpliceFileToPipe {
            fd,
            body_fd: file.fd,
            pipe_read,
            pipe_write,
            file_offset: 0,
            remaining: file.size,
        };
        token_slab_set(&mut self.token_alloc, token_index, t);
        proof {
            lemma_inv_insert_unbuffered(t0, f0.push(buf_index), b0, token_index, t);
        }
        out.push(
            Submission::Splice {
                fd_in: file.fd,
                off_in: 0,
                fd_out: pipe_write,
                off_out: -1,
                len: chunk as u32,
                more: true,
                user_data: token_index as u64,
            },
        );
    }

    /// Closes the body's file and waits for the connection's next request.
    fn close_body_and_connection(
        &mut self,
        fd: i32,
        body_fd: i32,
        token_index: usize,
        out: &mut Vec<Submission>,
    )
        requires
            core_inv(
                old(self).tokens().remove(token_index),
                old(self).free(),
                old(self).buffers(),
            ),
            old(self).tokens().dom().contains(token_index),
        ensures
            final(self).wf(),
            final(self).same_config(old(self)),
            old(self).closed_body(final(self), old(out)@, final(out)@, token_index, fd, body_fd),
    {
        out.push(Submission::Close { fd: body_fd });
        self.handle_poll_token(fd, token_index, out);
    }
}

impl UringCore {
    /// What the no-op that starts an event-loop `sendfile` does: when no byte
    /// is left to send, the file and connection are done with; otherwise one
    /// chunk is to be sent.
    pub open spec fn write_body_effect(
        &self,
        new: &Self,
        out0: Seq<Submission>,
        out1: Seq<Submission>,
        f: Followup,
        ti: usize,
        fd: i32,
        body_fd: i32,
        offset: i64,
        len: usize,
    ) -> bool {
        let chunk = min_usize((len - offset) as usize, self.chunk_size());
        if chunk == 0 {
            self.closed_body(new, out0, out1, ti, fd, body_fd) && f is Done
        } else {
            self.unchanged(new, out0, out1) && (f matches Followup::SendFileChunk {
                token_index,
                fd: fd2,
                body_fd: body_fd2,
                offset: offset2,
                chunk_size,
            } && token_index == ti && fd2 == fd && body_fd2 == body_fd && offset2 == offset
                && chunk_size == chunk)
        }
    }

    fn handle_write_body_token(
        &mut self,
        fd: i32,
        body_fd: i32,
        offset: i64,
        len: usize,
        token_index: usize,
        out: &mut Vec<Submission>,
    ) -> (f: Followup)
        requires
            old(self).wf(),
            old(self).tokens().dom().contains(token_index),
            old(self).tokens()[token_index] == (Token::WriteBodySendFile {
                fd,
                body_fd,
                offset,
                len,
            }),
            0 <= offset <= len,
        ensures
            final(self).wf(),
            final(self).same_config(old(self)),
            old(self).write_body_effect(
                final(self),
                old(out)@,
                final(out)@,
                f,
                token_index,
                fd,
                body_fd,
                offset,
                len,
            ),
    {
        let rest = len - offset as usize;
        let chunk_size = if rest < self.body_write_chunk_size {
            rest
        } else {
            self.body_write_chunk_size
        };
        if chunk_size == 0 {
            proof {
                lemma_inv_remove(
                    self.tokens(),
                    self.buffer_pool.free(),
                    self.buffer_pool.buffers(),
                    token_index,
                );
            }
            self.close_body_and_connection(fd, body_fd, token_index, out);
            return Followup::Done;
        }
        Followup::SendFileChunk { token_index, fd, body_fd, offset, chunk_size }
    }

    /// Completes a `SendFileChunk` follow-up with the count `sendfile(2)`
    /// returned: when it sent nothing or failed, or when the file is now sent
    /// to its end, the file is closed and the connection waits for its next
    /// request; otherwise the token's offset moves past the bytes sent and a
    /// no-op is queued to send the next chunk.
    pub fn complete_send_file_chunk(&mut self, token_index: usize, sent: isize, out: &mut Vec<Submission>)
        requires
            old(self).wf(),
            old(self).tokens().dom().contains(token_index),
            old(self).tokens()[token_index] matches Token::WriteBodySendFile { offset, len, .. } && 0
                <= offset <= len <= i64::MAX && sent <= len - offset,
        ensures
            final(self).wf(),
            final(self).same_config(old(self)),
            match old(self).tokens()[token_index] {
                Token::WriteBodySendFile { fd, body_fd, offset, len } => {
                    if sent <= 0 || offset + sent == len {
                        old(self).closed_body(
                            final(self),
                            old(out)@,
                            final(out)@,
                            token_index,
                            fd,
                            body_fd,
                        )
                    } else {
                        &&& final(self).free() == old(self).free()
                        &&& final(self).buffers() == old(self).buffers()
                        &&& final(self).same_next(old(self))
                        &&& final(self).tokens() == old(self).tokens().insert(
                            token_index,
                            Token::WriteBodySendFile {
                                fd,
                                body_fd,
                                offset: (offset + sent) as i64,
                                len,
                            },
                        )
                        &&& final(out)@ == old(out)@.push(
                            Submission::Nop { user_data: token_index as u64 },
                        )
                    }
                },
                _ => false,
            },
            queued_fit(final(self).buffers(), old(out)@, final(out)@),
    {
        let (fd, body_fd, offset, len) = match token_slab_get(&self.token_alloc, token_index) {
            Some(Token::WriteBodySendFile { fd, body_fd, offset, len }) => (fd, body_fd, offset, len),
            _ => {
                assert(false);
                (0, 0, 0, 0)
            },
        };
        proof {
            lemma_inv_remove(
                self.tokens(),
                self.buffer_pool.free(),
                self.buffer_pool.buffers(),
                token_index,
            );
        }
        if sent <= 0 || sent as usize == len - offset as usize {
            self.close_body_and_connection(fd, body_fd, token_index, out);
            return;
        }
        let t = Token::WriteBodySendFile { fd, body_fd, offset: offset + sent as i64, len };
        token_slab_set(&mut self.token_alloc, token_index, t);
        proof {
            lemma_inv_insert_unbuffered(
                old(self).tokens(),
                self.buffer_pool.free(),
                self.buffer_pool.buffers(),
                token_index,
                t,
            );
        }
        out.push(Submission::Nop { user_data: token_index as u64 });
    }

    /// What a splice of `ret` bytes from the file into the pipe does: those
    /// bytes are spliced on from the pipe into the socket.
    pub open spec fn file_to_pipe_effect(
        &self,
        new: &Self,
        out0: Seq<Submission>,
        out1: Seq<Submission>,
        ti: usize,
        fd: i32,
        body_fd: i32,
        pipe_read: i32,
        pipe_write: i32,
        file_offset: i64,
        remaining: usize,
        ret: i32,
    ) -> bool {
        let new_remaining = (remaining - ret) as usize;
        &&& new.free() == self.free()
        &&& new.buffers() == self.buffers()
        &&& new.same_next(self)
        &&& new.tokens() == self.tokens().insert(
            ti,
            Token::WriteBodySplicePipeToSock {
                fd,
                body_fd,
                pipe_read,
                pipe_write,
                file_offset: (file_offset + ret) as i64,
                remaining: new_remaining,
                in_pipe: ret as usize,
            },
        )
        &&& out1 == out0.push(
            Submission::Splice {
                fd_in: pipe_read,
                off_in: -1i64,
                fd_out: fd,
                off_out: -1i64,
                len: ret as u32,
                more: new_remaining > 0,
                user_data: ti as u64,
            },
        )
    }

    fn handle_splice_file_to_pipe_token(
        &mut self,
        fd: i32,
        body_fd: i32,
        pipe_read: i32,
        pipe_write: i32,
        file_offset: i64,
        remaining: usize,
        ret: i32,
        token_index: usize,
        out: &mut Vec<Submission>,
    )
        requires
            old(self).wf(),
            old(self).tokens().dom().contains(token_index),
            old(self).tokens()[token_index] == (Token::WriteBodySpliceFileToPipe {
                fd,
                body_fd,
                pipe_read,
                pipe_write,
                file_offset,
                remaining,
            }),
            0 <= ret <= remaining,
            file_offset + ret <= i64::MAX,
        ensures
            final(self).wf(),
            final(self).same_config(old(self)),
            old(self).file_to_pipe_effect(
                final(self),
                old(out)@,
                final(out)@,
                token_index,
                fd,
                body_fd,
                pipe_read,
                pipe_write,
                file_offset,
                remaining,
                ret,
            ),
    {
        let spliced = ret as usize;
        let new_file_offset = file_offset + ret as i64;
        let new_remaining = remaining - spliced;
        let t = Token::WriteBodySplicePipeToSock {
            fd,
            body_fd,
            pipe_read,
            pipe_write,
            file_offset: new_file_offset,
            remaining: new_remaining,
            in_pipe: spliced,
        };
        proof {
            lemma_inv_remove(
                self.tokens(),
                self.buffer_pool.free(),
                self.buffer_pool.buffers(),
                token_index,
            );
        }
        token_slab_set(&mut self.token_alloc, token_index, t);
        proof {
            lemma_inv_insert_unbuffered(
                old(self).tokens(),
                self.buffer_pool.free(),
                self.buffer_pool.buffers(),
                token_index,
                t,
            );
        }
        out.push(
            Submission::Splice {
                fd_in: pipe_read,
                off_in: -1,
                fd_out: fd,
                off_out: -1,
                len: spliced as u32,
                more: new_remaining > 0,
                user_data: token_index as u64,
            },
        );
    }

    /// What a splice of `ret` bytes from the pipe into the socket does: bytes
    /// still in the pipe are spliced on; once the pipe is empty, the next
    /// chunk of the file is spliced into it; once the file is sent too, the
    /// pipe and file are closed and the connection waits for its next request.
    pub open spec fn pipe_to_sock_effect(
        &self,
        new: &Self,
        out0: Seq<Submission>,
        out1: Seq<Submission>,
        ti: usize,
        fd: i32,
        body_fd: i32,
        pipe_read: i32,
        pipe_write: i32,
        file_offset: i64,
        remaining: usize,
        in_pipe: usize,
        ret: i32,
    ) -> bool {
        let still_in_pipe = (in_pipe - ret) as usize;
        if still_in_pipe > 0 {
            &&& new.free() == self.free()
            &&& new.buffers() == self.buffers()
            &&& new.same_next(self)
            &&& new.tokens() == self.tokens().insert(
                ti,
                Token::WriteBodySplicePipeToSock {
                    fd,
                    body_fd,
                    pipe_read,
                    pipe_write,
                    file_offset,
                    remaining,
                    in_pipe: still_in_pipe,
                },
            )
            &&& out1 == out0.push(
                Submission::Splice {
                    fd_in: pipe_read,
                    off_in: -1i64,
                    fd_out: fd,
                    off_out: -1i64,
                    len: still_in_pipe as u32,
                    more: remaining > 0,
                    user_data: ti as u64,
                },
            )
        } else if remaining > 0 {
            &&& new.free() == self.free()
            &&& new.buffers() == self.buffers()
            &&& new.same_next(self)
            &&& new.tokens() == self.tokens().insert(
                ti,
                Token::WriteBodySpliceFileToPipe {
                    fd,
                    body_fd,
                    pipe_read,
                    pipe_write,
                    file_offset,
                    remaining,
                },
            )
            &&& out1 == out0.push(
                Submission::Splice {
                    fd_in: body_fd,
                    off_in: file_offset,
                    fd_out: pipe_write,
                    off_out: -1i64,
                    len: min_usize(remaining, self.chunk_size()) as u32,
                    more: true,
                    user_data: ti as u64,
                },
            )
        } else {
            self.polled(
                new,
                self.free(),
                out0 + seq![
                    Submission::Close { fd: pipe_read },
                    Submission::Close { fd: pipe_write },
                    Submission::Close { fd: body_fd },
                ],
                out1,
                ti,
                fd,
            )
        }
    }

    fn handle_splice_pipe_to_sock_token(
        &mut self,
        fd: i32,
        body_fd: i32,
        pipe_read: i32,
        pipe_write: i32,
        file_offset: i64,
        remaining: usize,
        in_pipe: usize,
        ret: i32,
        token_index: usize,
        out: &mut Vec<Submission>,
    )
        requires
            old(self).wf(),
            old(self).tokens().dom().contains(token_index),
            old(self).tokens()[token_index] == (Token::WriteBodySplicePipeToSock {
                fd,
                body_fd,
                pipe_read,
                pipe_write,
                file_offset,
                remaining,
                in_pipe,
            }),
            0 <= ret <= in_pipe,
        ensures
            final(self).wf(),
            final(self).same_config(old(self)),
            old(self).pipe_to_sock_effect(
                final(self),
                old(out)@,
                final(out)@,
                token_index,
                fd,
                body_fd,
                pipe_read,
                pipe_write,
                file_offset,
                remaining,
                in_pipe,
                ret,
            ),
    {
        proof {
            lemma_inv_remove(
                self.tokens(),
                self.buffer_pool.free(),
                self.buffer_pool.buffers(),
                token_index,
            );
        }
        let sent = ret as usize;
        let still_in_pipe = in_pipe - sent;
        if still_in_pipe > 0 {
            let t = Token::WriteBodySplicePipeToSock {
                fd,
                body_fd,
                pipe_read,
                pipe_write,
                file_offset,
                remaining,
                in_pipe: still_in_pipe,
            };
            token_slab_set(&mut self.token_alloc, token_index, t);
            proof {
                lemma_inv_insert_unbuffered(
                    old(self).tokens(),
                    self.buffer_pool.free(),
                    self.buffer_pool.buffers(),
                    token_index,
                    t,
                );
            }
            out.push(
                Submission::Splice {
                    fd_in: pipe_read,
                    off_in: -1,
                    fd_out: fd,
                    off_out: -1,
                    len: still_in_pipe as u32,
                    more: remaining > 0,
                    user_data: token_index as u64,
                },
            );
        } else if remaining > 0 {
            let chunk = if remaining < self.body_write_chunk_size {
                remaining
            } else {
                self.body_write_chunk_size
            };
            let t = Token::WriteBodySpliceFileToPipe {
                fd,
                body_fd,
                pipe_read,
                pipe_write,
                file_offset,
                remaining,
            };
            token_slab_set(&mut self.token_alloc, token_index, t);
            proof {
                lemma_inv_insert_unbuffered(
                    old(self).tokens(),
                    self.buffer_pool.free(),
                    self.buffer_pool.buffers(),
                    token_index,
                    t,
                );
            }
            out.push(
                Submission::Splice {
                    fd_in: body_fd,
                    off_in: file_offset,
                    fd_out: pipe_write,
                    off_out: -1,
                    len: chunk as u32,
                    more: true,
                    user_data: token_index as u64,
                },
            );
        } else {
            out.push(Submission::Close { fd: pipe_read });
            out.push(Submission::Close { fd: pipe_write });
            out.push(Submission::Close { fd: body_fd });
            assert(out@ =~= old(out)@ + seq![
                Submission::Close { fd: pipe_read },
                Submission::Close { fd: pipe_write },
                Submission::Close { fd: body_fd },
            ]);
            self.handle_poll_token(fd, token_index, out);
        }
    }
}

impl UringCore {
    /// What a successful completion of `ret` does to token `ti`, by the
    /// token's kind.
    pub open spec fn event_effect(
        &self,
        new: &Self,
        out0: Seq<Submission>,
        out1: Seq<Submission>,
        f: Followup,
        ret: i32,
        ti: usize,
        flags: u32,
    ) -> bool {
        match self.tokens()[ti] {
            Token::Accept => self.accepted(new, out0, out1, ret, ti, flags) && f is Done,
            Token::Poll { fd } => self.polled(new, self.free(), out0, out1, ti, fd) && f is Done,
            Token::Read { fd, buf_index, filled } => self.read_effect(
                new,
                out0,
                out1,
                f,
                ti,
                fd,
                buf_index,
                filled,
                ret,
            ),
            Token::WriteHeaders { fd, buf_index, offset, len, body } => self.write_headers_effect(
                new,
                out0,
                out1,
                f,
                ti,
                fd,
                buf_index,
                offset,
                len,
                body,
                ret,
            ),
            Token::WriteBodySendFile { fd, body_fd, offset, len } => self.write_body_effect(
                new,
                out0,
                out1,
                f,
                ti,
                fd,
                body_fd,
                offset,
                len,
            ),
            Token::WriteBodySpliceFileToPipe {
                fd,
                body_fd,
                pipe_read,
                pipe_write,
                file_offset,
                remaining,
            } => self.file_to_pipe_effect(
                new,
                out0,
                out1,
                ti,
                fd,
                body_fd,
                pipe_read,
                pipe_write,
                file_offset,
                remaining,
                ret,
            ) && f is Done,
            Token::WriteBodySplicePipeToSock {
                fd,
                body_fd,
                pipe_read,
                pipe_write,
                file_offset,
                remaining,
                in_pipe,
            } => self.pipe_to_sock_effect(
                new,
                out0,
                out1,
                ti,
                fd,
                body_fd,
                pipe_read,
                pipe_write,
                file_offset,
                remaining,
                in_pipe,
                ret,
            ) && f is Done,
        }
    }

    /// Every send and receive that an event queues lies within an allocated
    /// buffer: the buffer of the token that the event moved on.
    pub proof fn lemma_event_submissions_fit(
        &self,
        new: &Self,
        out0: Seq<Submission>,
        out1: Seq<Submission>,
        f: Followup,
        ret: i32,
        ti: usize,
        flags: u32,
    )
        requires
            self.wf(),
            self.event_ok(ret, ti),
            self.event_effect(new, out0, out1, f, ret, ti, flags),
            new.wf(),
        ensures
            queued_fit(new.buffers(), out0, out1),
    {
        match self.tokens()[ti] {
            Token::Accept => {
                let p = choose|p: usize|
                    {
                        &&& p == self.next_token_index()
                        &&& !self.tokens().dom().contains(p)
                        &&& new.tokens() == self.tokens().insert(p, Token::Poll { fd: ret })
                        &&& out1 == out0.push(Submission::PollAdd { fd: ret, user_data: p as u64 }) + (
                        if flags & 2 == 0 {
                            seq![Submission::MultishotAccept { fd: self.listener(), user_data: ti as u64 }]
                        } else {
                            Seq::<Submission>::empty()
                        })
                    };
                assert forall|i: int| out0.len() <= i < out1.len() implies submission_fits(
                    new.buffers(),
                    #[trigger] out1[i],
                ) by {
                    if i > out0.len() {
                        assert(out1[i] == Submission::MultishotAccept {
                            fd: self.listener(),
                            user_data: ti as u64,
                        });
                    }
                }
            },
            Token::Poll { fd } => {
                self.lemma_polled_fits(new, self.free(), out0, out1, ti, fd);
            },
            Token::Read { fd, buf_index, filled } => {
                self.lemma_read_fits(new, out0, out1, f, ti, fd, buf_index, filled, ret);
            },
            Token::WriteHeaders { fd, buf_index, offset, len, body } => {
                if offset + ret < len {
                    let sent = (offset + ret) as usize;
                    assert(new.tokens().dom().contains(ti));
                    assert(new.tokens()[ti] == Token::WriteHeaders {
                        fd,
                        buf_index,
                        offset: sent,
                        len,
                        body,
                    });
                    assert(token_in_bounds(new.tokens()[ti]));
                    assert(new.buffers().dom().contains(buf_index));
                }
                assert forall|i: int| out0.len() <= i < out1.len() implies submission_fits(
                    new.buffers(),
                    #[trigger] out1[i],
                ) by {
                    assert(i == out0.len());
                }
            },
            Token::WriteBodySendFile { fd, body_fd, offset, len } => {
                if min_usize((len - offset) as usize, self.chunk_size()) == 0 {
                    let mid = out0.push(Submission::Close { fd: body_fd });
                    self.lemma_polled_fits(new, self.free(), mid, out1, ti, fd);
                    assert forall|i: int| out0.len() <= i < out1.len() implies submission_fits(
                        new.buffers(),
                        #[trigger] out1[i],
                    ) by {
                        if i == out0.len() {
                            assert(out1[i] == mid[i]);
                        }
                    }
                }
            },
            Token::WriteBodySpliceFileToPipe { .. } => {
                assert forall|i: int| out0.len() <= i < out1.len() implies submission_fits(
                    new.buffers(),
                    #[trigger] out1[i],
                ) by {
                    assert(i == out0.len());
                }
            },
            Token::WriteBodySplicePipeToSock {
                fd,
                body_fd,
                pipe_read,
                pipe_write,
                file_offset,
                remaining,
                in_pipe,
            } => {
                if (in_pipe - ret) as usize == 0 && remaining == 0 {
                    let mid = out0 + seq![
                        Submission::Close { fd: pipe_read },
                        Submission::Close { fd: pipe_write },
                        Submission::Close { fd: body_fd },
                    ];
                    self.lemma_polled_fits(new, self.free(), mid, out1, ti, fd);
                    assert forall|i: int| out0.len() <= i < out1.len() implies submission_fits(
                        new.buffers(),
                        #[trigger] out1[i],
                    ) by {
                        if i < mid.len() {
                            assert(out1[i] == mid[i]);
                        }
                    }
                } else {
                    assert forall|i: int| out0.len() <= i < out1.len() implies submission_fits(
                        new.buffers(),
                        #[trigger] out1[i],
                    ) by {
                        assert(i == out0.len());
                    }
                }
            },
        }
    }

    /// The sends and receives that a receive completion queues lie within
    /// the token's buffer.
    proof fn lemma_read_fits(
        &self,
        new: &Self,
        out0: Seq<Submission>,
        out1: Seq<Submission>,
        f: Followup,
        ti: usize,
        fd: i32,
        b: usize,
        filled: usize,
        ret: i32,
    )
        requires
            self.read_effect(new, out0, out1, f, ti, fd, b, filled, ret),
            new.wf(),
        ensures
            queued_fit(new.buffers(), out0, out1),
    {
        if ret == 0 {
            assert forall|i: int| out0.len() <= i < out1.len() implies submission_fits(
                new.buffers(),
                #[trigger] out1[i],
            ) by {
                assert(i == out0.len());
            }
        } else {
            let filled2 = (filled + ret) as usize;
            self.lemma_request_fits(
                new,
                out0,
                out1,
                f,
                ti,
                fd,
                b,
                filled2,
                httparse_request(
                    self.buffers()[b].subrange(0, filled2 as int),
                    MAX_REQUEST_HEADERS as nat,
                ),
            );
        }
    }

    /// The sends and receives queued in answer to a parsed request lie within
    /// the token's buffer.
    proof fn lemma_request_fits(
        &self,
        new: &Self,
        out0: Seq<Submission>,
        out1: Seq<Submission>,
        f: Followup,
        ti: usize,
        fd: i32,
        b: usize,
        filled2: usize,
        parsed: RequestParseView,
    )
        requires
            self.request_effect(new, out0, out1, f, ti, fd, b, filled2, parsed),
            new.wf(),
        ensures
            queued_fit(new.buffers(), out0, out1),
    {
        match parsed {
            RequestParseView::Complete { method, path } => {
                if !(method matches Some(m) && is_get_method(encode_utf8(m))) {
                    self.lemma_wrote_header_fits(new, out0, out1, ti, fd, b, bad_request_response(), None);
                } else {
                    let raw = match path {
                        Some(p) => p,
                        None => Seq::<char>::empty(),
                    };
                    if request_target(self.base(), raw) is None {
                        self.lemma_wrote_header_fits(
                            new,
                            out0,
                            out1,
                            ti,
                            fd,
                            b,
                            bad_request_response(),
                            None,
                        );
                    }
                }
            },
            RequestParseView::Partial => {
                if filled2 >= BUFFER_POOL_ITEM_SIZE {
                    self.lemma_wrote_header_fits(
                        new,
                        out0,
                        out1,
                        ti,
                        fd,
                        b,
                        content_too_large_response(),
                        None,
                    );
                } else {
                    assert(new.tokens().dom().contains(ti));
                    assert(new.buffers().dom().contains(b));
                    assert forall|i: int| out0.len() <= i < out1.len() implies submission_fits(
                        new.buffers(),
                        #[trigger] out1[i],
                    ) by {
                        assert(i == out0.len());
                    }
                }
            },
            RequestParseView::Invalid => {
                self.lemma_wrote_header_fits(
                    new,
                    out0,
                    out1,
                    ti,
                    fd,
                    b,
                    internal_server_error_response(),
                    None,
                );
            },
        }
    }

    /// A splice completion of `ret` bytes keeps the body's byte accounting:
    /// from the file into the pipe, `ret` more bytes went in; from the pipe
    /// into the socket, `ret` more came out, and once the token stops
    /// splicing the whole file has come out of the pipe.
    pub proof fn lemma_splice_accounting(
        &self,
        new: &Self,
        out0: Seq<Submission>,
        out1: Seq<Submission>,
        f: Followup,
        ret: i32,
        ti: usize,
        flags: u32,
        size: int,
        moved_in: int,
        moved_out: int,
    )
        requires
            self.wf(),
            self.event_ok(ret, ti),
            self.event_effect(new, out0, out1, f, ret, ti, flags),
            splice_accounts(self.tokens()[ti], size, moved_in, moved_out),
        ensures
            self.tokens()[ti] is WriteBodySpliceFileToPipe ==> splice_accounts(
                new.tokens()[ti],
                size,
                moved_in + ret,
                moved_out,
            ),
            self.tokens()[ti] is WriteBodySplicePipeToSock ==> if new.tokens()[ti] is Read {
                moved_out + ret == size
            } else {
                splice_accounts(new.tokens()[ti], size, moved_in, moved_out + ret)
            },
    {
        match self.tokens()[ti] {
            Token::WriteBodySplicePipeToSock {
                fd,
                body_fd,
                pipe_read,
                pipe_write,
                file_offset,
                remaining,
                in_pipe,
            } => {
                if (in_pipe - ret) as usize == 0 && remaining == 0 {
                    let mid = out0 + seq![
                        Submission::Close { fd: pipe_read },
                        Submission::Close { fd: pipe_write },
                        Submission::Close { fd: body_fd },
                    ];
                    let b = choose|b: usize|
                        {
                            &&& handed_out(self.free(), self.buffers(), self.next_buffer_index(), new.free(), new.buffers(), b)
                            &&& new.tokens() == self.tokens().insert(
                                ti,
                                Token::Read { fd, buf_index: b, filled: 0 },
                            )
                            &&& out1 == mid.push(
                                Submission::Recv {
                                    fd,
                                    buf_index: b,
                                    offset: 0,
                                    len: BUFFER_POOL_ITEM_SIZE,
                                    user_data: ti as u64,
                                },
                            )
                        };
                    assert(new.tokens()[ti] is Read);
                }
            },
            _ => {},
        }
    }

    /// Whether `handle_event` accepts a successful completion of `ret` for
    /// `token_index`: the token exists and the result is one its operation
    /// can report.
    pub open spec fn event_ok(&self, ret: i32, token_index: usize) -> bool {
        &&& ret >= 0
        &&& self.tokens().dom().contains(token_index)
        &&& event_in_range(self.tokens()[token_index], ret)
    }

    /// Tests the condition under which `handle_event` may be called.
    pub fn accepts_event(&self, ret: i32, token_index: usize) -> (b: bool)
        ensures
            b == self.event_ok(ret, token_index),
    {
        if ret < 0 {
            return false;
        }
        match token_slab_get(&self.token_alloc, token_index) {
            None => false,
            Some(Token::Read { filled, .. }) => filled <= BUFFER_POOL_ITEM_SIZE && (ret as usize)
                <= BUFFER_POOL_ITEM_SIZE - filled,
            Some(Token::WriteBodySendFile { offset, len, .. }) => 0 <= offset && (offset as u64)
                <= (len as u64),
            Some(Token::WriteBodySpliceFileToPipe { file_offset, remaining, .. }) => (ret as usize)
                <= remaining && file_offset <= i64::MAX - (ret as i64),
            Some(Token::WriteBodySplicePipeToSock { in_pipe, .. }) => (ret as usize) <= in_pipe,
            Some(_) => true,
        }
    }

    /// Handles a successful completion (`ret >= 0`) reported to `token_index`.
    pub fn handle_event(
        &mut self,
        ret: i32,
        token_index: usize,
        flags: u32,
        out: &mut Vec<Submission>,
    ) -> (f: Followup)
        requires
            old(self).wf(),
            old(self).event_ok(ret, token_index),
        ensures
            final(self).wf(),
            final(self).same_config(old(self)),
            old(self).event_effect(final(self), old(out)@, final(out)@, f, ret, token_index, flags),
            queued_fit(final(self).buffers(), old(out)@, final(out)@),
    {
        let f = match token_slab_get(&self.token_alloc, token_index) {
            Some(Token::Accept) => {
                self.handle_accept_token(ret, token_index, flags, out);
                Followup::Done
            },
            Some(Token::Poll { fd }) => {
                proof {
                    lemma_inv_remove(
                        self.tokens(),
                        self.buffer_pool.free(),
                        self.buffer_pool.buffers(),
                        token_index,
                    );
                }
                self.handle_poll_token(fd, token_index, out);
                Followup::Done
            },
            Some(Token::Read { fd, buf_index, filled }) => self.handle_read_token(
                fd,
                buf_index,
                filled,
                ret,
                token_index,
                out,
            ),
            Some(Token::WriteHeaders { fd, buf_index, offset, len, body }) => self.handle_write_headers_token(
                fd,
                buf_index,
                offset,
                len,
                body,
                ret,
                token_index,
                out,
            ),
            Some(Token::WriteBodySendFile { fd, body_fd, offset, len }) => self.handle_write_body_token(
                fd,
                body_fd,
                offset,
                len,
                token_index,
                out,
            ),
            Some(
                Token::WriteBodySpliceFileToPipe {
                    fd,
                    body_fd,
                    pipe_read,
                    pipe_write,
                    file_offset,
                    remaining,
                },
            ) => {
                self.handle_splice_file_to_pipe_token(
                    fd,
                    body_fd,
                    pipe_read,
                    pipe_write,
                    file_offset,
                    remaining,
                    ret,
                    token_index,
                    out,
                );
                Followup::Done
            },
            Some(
                Token::WriteBodySplicePipeToSock {
                    fd,
                    body_fd,
                    pipe_read,
                    pipe_write,
                    file_offset,
                    remaining,
                    in_pipe,
                },
            ) => {
                self.handle_splice_pipe_to_sock_token(
                    fd,
                    body_fd,
                    pipe_read,
                    pipe_write,
                    file_offset,
                    remaining,
                    in_pipe,
                    ret,
                    token_index,
                    out,
                );
                Followup::Done
            },
            None => {
                assert(false);
                Followup::Done
            },
        };
        proof {
            old(self).lemma_event_submissions_fit(self, old(out)@, out@, f, ret, token_index, flags);
        }
        f
    }

    /// Handles one completion: one reported to `NO_USER_DATA` (a close) is
    /// ignored, a failure (`ret < 0`) goes to `handle_error_event`, and a
    /// success to `handle_event`.
    pub fn handle_completion(
        &mut self,
        ret: i32,
        user_data: u64,
        flags: u32,
        out: &mut Vec<Submission>,
    ) -> (f: Followup)
        requires
            old(self).wf(),
            user_data != NO_USER_DATA && ret >= 0 ==> old(self).event_ok(ret, user_data as usize),
        ensures
            final(self).wf(),
            final(self).same_config(old(self)),
            queued_fit(final(self).buffers(), old(out)@, final(out)@),
            user_data == NO_USER_DATA ==> old(self).unchanged(final(self), old(out)@, final(out)@)
                && f is Done,
            user_data != NO_USER_DATA && ret < 0 ==> {
                &&& final(self).free() == old(self).free()
                &&& final(self).buffers() == old(self).buffers()
                &&& old(self).error_effect(final(self), old(out)@, final(out)@, user_data as usize)
                &&& f is Done
            },
            user_data != NO_USER_DATA && ret >= 0 ==> old(self).event_effect(
                final(self),
                old(out)@,
                final(out)@,
                f,
                ret,
                user_data as usize,
                flags,
            ),
    {
        if user_data == NO_USER_DATA {
            Followup::Done
        } else if ret < 0 {
            self.handle_error_event(ret, user_data as usize, out);
            Followup::Done
        } else {
            self.handle_event(ret, user_data as usize, flags, out)
        }
    }

    /// The pool buffer at `index`, to hand to the kernel for a send.
    pub fn buffer(&self, index: usize) -> (b: &[u8])
        requires
            self.buffers().dom().contains(index),
        ensures
            b@ == self.buffers()[index],
    {
        self.buffer_pool.get(index)
    }

    /// The pool buffer at `index`, to hand to the kernel for a receive.
    pub fn buffer_mut(&mut self, index: usize) -> (b: &mut [u8])
        requires
            old(self).buffers().dom().contains(index),
        ensures
            b@ == old(self).buffers()[index],
            final(b)@.len() == b@.len(),
            final(self).buffers() == old(self).buffers().insert(index, final(b)@),
            final(self).free() == old(self).free(),
            final(self).tokens() == old(self).tokens(),
            final(self).same_config(old(self)),
            final(self).same_next(old(self)),
            old(self).wf() ==> final(self).wf(),
    {
        let ghost t0 = self.tokens();
        let ghost f0 = self.buffer_pool.free();
        let ghost b0 = self.buffer_pool.buffers();
        let b = self.buffer_pool.get_mut(index);
        proof {
            if core_inv(t0, f0, b0) {
                lemma_inv_write(t0, f0, b0, index, final(b)@);
            }
        }
        b
    }
}

/// The size of the next blocking `sendfile(2)` call: what remains of the
/// file, at most `chunk_size` bytes.
pub fn sendfile_chunk(remaining: usize, chunk_size: usize) -> (n: usize)
    ensures
        n == min_usize(remaining, chunk_size),
{
    if remaining < chunk_size {
        remaining
    } else {
        chunk_size
    }
}

/// What remains to send after a blocking `sendfile(2)` call returned `sent`:
/// nothing more is tried once a call sends nothing or fails.
pub fn after_sendfile(remaining: usize, sent: isize) -> (r: Option<usize>)
    requires
        sent <= remaining,
    ensures
        sent <= 0 ==> r is None,
        sent > 0 ==> r == Some((remaining - sent) as usize),
{
    if sent <= 0 {
        None
    } else {
        Some(remaining - sent as usize)
    }
}

} // verus!
