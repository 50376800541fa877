use iobeam::buffer_pool::BufferPool;
use iobeam::file_system::{FileResult, FileSystemHandler, OpenError};
use iobeam::server::{after_sendfile, sendfile_chunk, Followup, Submission, Token, UringCore, WriteStrategy, NO_USER_DATA};

const LISTENER: i32 = 3;
const CLIENT: i32 = 7;

fn new_core(strategy: WriteStrategy) -> UringCore {
    let fsh = match FileSystemHandler::new("/srv", true) {
        Ok(h) => h,
        Err(_) => panic!("handler"),
    };
    UringCore::new(LISTENER, strategy, fsh, BufferPool::new(4), 16, 262144)
}

/// Accepts one connection and polls it; returns the read token index and its buffer.
fn connected(server: &mut UringCore) -> (usize, usize) {
    let mut out = Vec::new();
    server.prep_initial_accept(&mut out);
    let accept = match out[0] {
        Submission::MultishotAccept { fd, user_data } => {
            assert_eq!(fd, LISTENER);
            user_data as usize
        }
        _ => panic!("expected accept"),
    };
    out.clear();
    assert!(server.accepts_event(CLIENT, accept));
    assert!(matches!(server.handle_event(CLIENT, accept, 2, &mut out), Followup::Done));
    let poll = match out.as_slice() {
        [Submission::PollAdd { fd, user_data }] => {
            assert_eq!(*fd, CLIENT);
            *user_data as usize
        }
        _ => panic!("expected a poll only"),
    };
    out.clear();
    server.handle_event(1, poll, 0, &mut out);
    match out.as_slice() {
        [Submission::Recv { fd, buf_index, offset: 0, len: 2048, user_data }] => {
            assert_eq!(*fd, CLIENT);
            assert_eq!(*user_data as usize, poll);
            (poll, *buf_index)
        }
        _ => panic!("expected a receive"),
    }
}

fn receive(server: &mut UringCore, token: usize, buf: usize, at: usize, bytes: &[u8], out: &mut Vec<Submission>) -> Followup {
    server.buffer_mut(buf)[at..at + bytes.len()].copy_from_slice(bytes);
    assert!(server.accepts_event(bytes.len() as i32, token));
    server.handle_event(bytes.len() as i32, token, 0, out)
}

fn sent_header(server: &UringCore, out: &[Submission]) -> String {
    match out {
        [Submission::Send { fd, buf_index, offset: 0, len, .. }] => {
            assert_eq!(*fd, CLIENT);
            String::from_utf8(server.buffer(*buf_index)[..*len].to_vec()).unwrap()
        }
        _ => panic!("expected one send"),
    }
}

#[test]
fn accept_rearms_only_when_the_multishot_ended() {
    let mut c = new_core(WriteStrategy::SendFile);
    let mut out = Vec::new();
    c.prep_initial_accept(&mut out);
    let accept = match out[0] { Submission::MultishotAccept { user_data, .. } => user_data as usize, _ => panic!() };
    out.clear();
    c.handle_event(9, accept, 0, &mut out);
    assert_eq!(out.len(), 2);
    assert!(matches!(out[0], Submission::PollAdd { fd: 9, .. }));
    assert_eq!(out[1], Submission::MultishotAccept { fd: LISTENER, user_data: accept as u64 });
}

#[test]
fn get_of_a_file_is_answered_with_its_header_and_body() {
    let mut c = new_core(WriteStrategy::SendFileInAsyncEventLoop);
    let (token, buf) = connected(&mut c);
    let mut out = Vec::new();
    let f = receive(&mut c, token, buf, 0, b"GET /docs/index.html HTTP/1.1\r\nHost: x\r\n\r\n", &mut out);
    let path = match f {
        Followup::OpenFile { token_index, path } => {
            assert_eq!(token_index, token);
            path
        }
        _ => panic!("expected the file to be opened"),
    };
    assert_eq!(path.as_str(), "/srv/docs/index.html");
    assert!(out.is_empty());
    let file = FileResult { fd: 11, size: 10 };
    assert!(c.try_respond_with_file(token, path.as_str(), Ok(file), &mut out));
    let header = sent_header(&c, &out);
    assert_eq!(header, "HTTP/1.1 200 OK\r\nContent-Type: text/html\r\nContent-Length: 10\r\n\r\n");
    let len = header.len() as i32;
    out.clear();
    c.handle_event(len, token, 0, &mut out);
    assert_eq!(out, vec![Submission::Nop { user_data: token as u64 }]);
    assert_eq!(c.token(token), Some(Token::WriteBodySendFile { fd: CLIENT, body_fd: 11, offset: 0, len: 10 }));
    out.clear();
    let f = c.handle_event(0, token, 0, &mut out);
    assert!(matches!(f, Followup::SendFileChunk { fd: CLIENT, body_fd: 11, offset: 0, chunk_size: 10, .. }));
    c.complete_send_file_chunk(token, 10, &mut out);
    assert_eq!(out[0], Submission::Close { fd: 11 });
    assert!(matches!(out[1], Submission::Recv { fd: CLIENT, buf_index, offset: 0, len: 2048, .. } if buf_index == buf));
}

#[test]
fn partial_header_send_sends_the_rest() {
    let mut c = new_core(WriteStrategy::SendFile);
    let (token, buf) = connected(&mut c);
    let mut out = Vec::new();
    receive(&mut c, token, buf, 0, b"POST / HTTP/1.1\r\n\r\n", &mut out);
    let header = sent_header(&c, &out);
    assert_eq!(header, "HTTP/1.1 400 Bad Request\r\nContent-Length: 0\r\n\r\n");
    out.clear();
    c.handle_event(10, token, 0, &mut out);
    assert_eq!(out, vec![Submission::Send { fd: CLIENT, buf_index: buf, offset: 10, len: 37, user_data: token as u64 }]);
    out.clear();
    c.handle_event(37, token, 0, &mut out);
    assert_eq!(out, vec![Submission::Close { fd: CLIENT }]);
    assert_eq!(c.token(token), None);
}

#[test]
fn traversal_and_bad_encoding_get_bad_request() {
    for request in [&b"GET /../etc/passwd HTTP/1.1\r\n\r\n"[..], b"GET /%2e%2e/x HTTP/1.1\r\n\r\n", b"GET /%FF HTTP/1.1\r\n\r\n"] {
        let mut c = new_core(WriteStrategy::SendFile);
        let (token, buf) = connected(&mut c);
        let mut out = Vec::new();
        assert!(matches!(receive(&mut c, token, buf, 0, request, &mut out), Followup::Done));
        assert_eq!(sent_header(&c, &out), "HTTP/1.1 400 Bad Request\r\nContent-Length: 0\r\n\r\n");
    }
}

#[test]
fn invalid_request_gets_internal_server_error() {
    let mut c = new_core(WriteStrategy::SendFile);
    let (token, buf) = connected(&mut c);
    let mut out = Vec::new();
    receive(&mut c, token, buf, 0, b"GET / HTTP/1.1\r\nBad Header\r\n\r\n", &mut out);
    assert_eq!(sent_header(&c, &out), "HTTP/1.1 500 Internal Server Error\r\nContent-Length: 0\r\n\r\n");
}

#[test]
fn incomplete_request_is_received_further() {
    let mut c = new_core(WriteStrategy::SendFile);
    let (token, buf) = connected(&mut c);
    let mut out = Vec::new();
    receive(&mut c, token, buf, 0, b"GET /a.txt HT", &mut out);
    assert_eq!(out, vec![Submission::Recv { fd: CLIENT, buf_index: buf, offset: 13, len: 2048 - 13, user_data: token as u64 }]);
    out.clear();
    let f = receive(&mut c, token, buf, 13, b"TP/1.1\r\n\r\n", &mut out);
    assert!(matches!(f, Followup::OpenFile { .. }));
}

#[test]
fn full_buffer_without_complete_request_is_too_large() {
    let mut c = new_core(WriteStrategy::SendFile);
    let (token, buf) = connected(&mut c);
    let mut out = Vec::new();
    let mut request = b"GET /".to_vec();
    request.resize(2048, b'a');
    receive(&mut c, token, buf, 0, &request, &mut out);
    assert_eq!(sent_header(&c, &out), "HTTP/1.1 413 Content Too Large\r\nContent-Length: 0\r\n\r\n");
}

#[test]
fn empty_receive_closes_and_frees_the_buffer() {
    let mut c = new_core(WriteStrategy::SendFile);
    let (token, buf) = connected(&mut c);
    let mut out = Vec::new();
    c.handle_event(0, token, 0, &mut out);
    assert_eq!(out, vec![Submission::Close { fd: CLIENT }]);
    assert_eq!(c.token(token), None);
    // the next connection gets the same buffer back
    let (_, buf2) = connected(&mut c);
    assert_eq!(buf2, buf);
}

#[test]
fn missing_file_and_open_failure() {
    for (opened, expected) in [
        (OpenError::NotFound, "HTTP/1.1 404 Not Found\r\nContent-Length: 0\r\n\r\n"),
        (OpenError::IsADirectory, "HTTP/1.1 404 Not Found\r\nContent-Length: 0\r\n\r\n"),
        (OpenError::Other, "HTTP/1.1 500 Internal Server Error\r\nContent-Length: 0\r\n\r\n"),
    ] {
        let mut c = new_core(WriteStrategy::SendFile);
        let (token, buf) = connected(&mut c);
        let mut out = Vec::new();
        let f = receive(&mut c, token, buf, 0, b"get /x HTTP/1.0\r\n\r\n", &mut out);
        assert!(matches!(f, Followup::OpenFile { .. }));
        c.respond_with_file(token, "/srv/x", Err(opened), &mut out);
        assert_eq!(sent_header(&c, &out), expected);
    }
}

#[test]
fn blocking_sendfile_strategy() {
    let mut c = new_core(WriteStrategy::SendFile);
    let (token, buf) = connected(&mut c);
    let mut out = Vec::new();
    receive(&mut c, token, buf, 0, b"GET /f HTTP/1.1\r\n\r\n", &mut out);
    c.respond_with_file(token, "/srv/f", Ok(FileResult { fd: 12, size: 5 }), &mut out);
    let len = sent_header(&c, &out).len() as i32;
    out.clear();
    let f = c.handle_event(len, token, 0, &mut out);
    assert!(matches!(f, Followup::SendFileBlocking { fd: CLIENT, body: FileResult { fd: 12, size: 5 }, chunk_size: 262144, .. }));
    assert!(out.is_empty());
    c.finish_blocking_send_file(token, &mut out);
    assert_eq!(out[0], Submission::Close { fd: 12 });
    assert!(matches!(out[1], Submission::Recv { fd: CLIENT, buf_index, .. } if buf_index == buf));
}

#[test]
fn pipe_and_splice_strategy() {
    let mut c = new_core(WriteStrategy::PipeAndSplice);
    let (token, buf) = connected(&mut c);
    let mut out = Vec::new();
    receive(&mut c, token, buf, 0, b"GET /f HTTP/1.1\r\n\r\n", &mut out);
    c.respond_with_file(token, "/srv/f", Ok(FileResult { fd: 12, size: 300000 }), &mut out);
    let len = sent_header(&c, &out).len() as i32;
    out.clear();
    assert!(matches!(c.handle_event(len, token, 0, &mut out), Followup::CreatePipe { .. }));
    c.begin_splice(token, 20, 21, &mut out);
    assert_eq!(out, vec![Submission::Splice { fd_in: 12, off_in: 0, fd_out: 21, off_out: -1, len: 262144, more: true, user_data: token as u64 }]);
    out.clear();
    // the file fills the pipe with 262144 bytes
    c.handle_event(262144, token, 0, &mut out);
    assert_eq!(out, vec![Submission::Splice { fd_in: 20, off_in: -1, fd_out: CLIENT, off_out: -1, len: 262144, more: true, user_data: token as u64 }]);
    out.clear();
    // the socket takes only part of it
    c.handle_event(100000, token, 0, &mut out);
    assert_eq!(out, vec![Submission::Splice { fd_in: 20, off_in: -1, fd_out: CLIENT, off_out: -1, len: 162144, more: true, user_data: token as u64 }]);
    out.clear();
    c.handle_event(162144, token, 0, &mut out);
    assert_eq!(out, vec![Submission::Splice { fd_in: 12, off_in: 262144, fd_out: 21, off_out: -1, len: 37856, more: true, user_data: token as u64 }]);
    out.clear();
    c.handle_event(37856, token, 0, &mut out);
    assert_eq!(out, vec![Submission::Splice { fd_in: 20, off_in: -1, fd_out: CLIENT, off_out: -1, len: 37856, more: false, user_data: token as u64 }]);
    out.clear();
    c.handle_event(37856, token, 0, &mut out);
    assert_eq!(&out[..3], &[Submission::Close { fd: 20 }, Submission::Close { fd: 21 }, Submission::Close { fd: 12 }]);
    assert!(matches!(out[3], Submission::Recv { fd: CLIENT, .. }));
}

#[test]
fn errors_close_bodies_and_rearm_accept() {
    let mut c = new_core(WriteStrategy::PipeAndSplice);
    let mut out = Vec::new();
    c.prep_initial_accept(&mut out);
    let accept = match out[0] { Submission::MultishotAccept { user_data, .. } => user_data as usize, _ => panic!() };
    out.clear();
    c.handle_error_event(-22, accept, &mut out);
    assert_eq!(out, vec![Submission::MultishotAccept { fd: LISTENER, user_data: accept as u64 }]);
    assert_eq!(c.token(accept), Some(Token::Accept));
    out.clear();
    c.handle_error_event(-9, 999, &mut out);
    assert!(out.is_empty());

    let (token, buf) = connected(&mut c);
    receive(&mut c, token, buf, 0, b"GET /f HTTP/1.1\r\n\r\n", &mut out);
    c.respond_with_file(token, "/srv/f", Ok(FileResult { fd: 12, size: 10 }), &mut out);
    let len = sent_header(&c, &out).len() as i32;
    out.clear();
    c.handle_event(len, token, 0, &mut out);
    c.begin_splice(token, 20, 21, &mut out);
    out.clear();
    c.handle_error_event(-32, token, &mut out);
    assert_eq!(out, vec![Submission::Close { fd: CLIENT }, Submission::Close { fd: 20 }, Submission::Close { fd: 21 }, Submission::Close { fd: 12 }]);
    assert_eq!(c.token(token), None);
}

#[test]
fn events_out_of_range_are_refused() {
    let mut c = new_core(WriteStrategy::SendFile);
    let (token, _) = connected(&mut c);
    assert!(!c.accepts_event(2049, token));
    assert!(!c.accepts_event(-1, token));
    assert!(!c.accepts_event(0, 12345));
    assert!(c.accepts_event(2048, token));
}

#[test]
fn blocking_sendfile_steps() {
    assert_eq!(sendfile_chunk(10, 4), 4);
    assert_eq!(sendfile_chunk(3, 4), 3);
    assert_eq!(after_sendfile(10, 4), Some(6));
    assert_eq!(after_sendfile(10, 0), None);
    assert_eq!(after_sendfile(10, -1), None);
}

fn fits(server: &UringCore, s: &Submission) -> bool {
    match *s {
        Submission::Send { buf_index, offset, len, .. } | Submission::Recv { buf_index, offset, len, .. } => {
            offset + len <= server.buffer(buf_index).len()
        }
        _ => true,
    }
}

#[test]
fn queued_sends_and_receives_lie_within_their_buffers() {
    let mut c = new_core(WriteStrategy::SendFile);
    let (token, buf) = connected(&mut c);
    let mut out = Vec::new();
    receive(&mut c, token, buf, 0, b"GET /a", &mut out);
    assert_eq!(out, vec![Submission::Recv { fd: CLIENT, buf_index: buf, offset: 6, len: 2042, user_data: token as u64 }]);
    assert!(out.iter().all(|s| fits(&c, s)));
    out.clear();
    let f = receive(&mut c, token, buf, 6, b" HTTP/1.1\r\n\r\n", &mut out);
    assert!(out.is_empty());
    let path = match f {
        Followup::OpenFile { path, .. } => path,
        _ => panic!("expected the file to be opened"),
    };
    assert!(c.try_respond_with_file(token, path.as_str(), Err(OpenError::NotFound), &mut out));
    assert_eq!(out, vec![Submission::Send { fd: CLIENT, buf_index: buf, offset: 0, len: 45, user_data: token as u64 }]);
    assert!(out.iter().all(|s| fits(&c, s)));
    out.clear();
    c.handle_event(5, token, 0, &mut out);
    assert_eq!(out, vec![Submission::Send { fd: CLIENT, buf_index: buf, offset: 5, len: 40, user_data: token as u64 }]);
    assert!(out.iter().all(|s| fits(&c, s)));
}

#[test]
fn completions_are_dispatched_by_user_data_and_result() {
    let mut c = new_core(WriteStrategy::SendFile);
    let mut out = Vec::new();
    c.prep_initial_accept(&mut out);
    let accept = match out[0] { Submission::MultishotAccept { user_data, .. } => user_data, _ => panic!() };
    out.clear();
    assert!(matches!(c.handle_completion(0, NO_USER_DATA, 0, &mut out), Followup::Done));
    assert!(out.is_empty());
    assert_eq!(c.token(accept as usize), Some(Token::Accept));
    c.handle_completion(-22, accept, 0, &mut out);
    assert_eq!(out, vec![Submission::MultishotAccept { fd: LISTENER, user_data: accept }]);
    out.clear();
    c.handle_completion(CLIENT, accept, 2, &mut out);
    assert!(matches!(out.as_slice(), [Submission::PollAdd { fd: CLIENT, .. }]));
}

#[test]
fn header_sent_in_pieces_goes_out_whole() {
    let mut c = new_core(WriteStrategy::SendFile);
    let (token, buf) = connected(&mut c);
    let mut out = Vec::new();
    receive(&mut c, token, buf, 0, b"POST / HTTP/1.1\r\n\r\n", &mut out);
    assert_eq!(sent_header(&c, &out).len(), 47);
    out.clear();
    c.handle_event(20, token, 0, &mut out);
    assert_eq!(out, vec![Submission::Send { fd: CLIENT, buf_index: buf, offset: 20, len: 27, user_data: token as u64 }]);
    out.clear();
    c.handle_event(10, token, 0, &mut out);
    assert_eq!(out, vec![Submission::Send { fd: CLIENT, buf_index: buf, offset: 30, len: 17, user_data: token as u64 }]);
    assert!(matches!(c.token(token), Some(Token::WriteHeaders { offset: 30, len: 47, .. })));
    out.clear();
    c.handle_event(17, token, 0, &mut out);
    assert_eq!(out, vec![Submission::Close { fd: CLIENT }]);
    assert_eq!(c.token(token), None);
}

#[test]
fn event_loop_sendfile_sends_every_chunk() {
    let fsh = match FileSystemHandler::new("/srv", true) {
        Ok(h) => h,
        Err(_) => panic!("handler"),
    };
    let mut c = UringCore::new(LISTENER, WriteStrategy::SendFileInAsyncEventLoop, fsh, BufferPool::new(4), 16, 4);
    let (token, buf) = connected(&mut c);
    let mut out = Vec::new();
    let f = receive(&mut c, token, buf, 0, b"GET /f HTTP/1.1\r\n\r\n", &mut out);
    let path = match f { Followup::OpenFile { path, .. } => path, _ => panic!() };
    c.respond_with_file(token, path.as_str(), Ok(FileResult { fd: 11, size: 10 }), &mut out);
    let len = sent_header(&c, &out).len() as i32;
    out.clear();
    c.handle_event(len, token, 0, &mut out);
    assert_eq!(out, vec![Submission::Nop { user_data: token as u64 }]);
    let mut offsets = Vec::new();
    loop {
        out.clear();
        match c.handle_event(0, token, 0, &mut out) {
            Followup::SendFileChunk { offset, chunk_size, .. } => {
                offsets.push((offset, chunk_size));
                c.complete_send_file_chunk(token, chunk_size as isize, &mut out);
                if offset + chunk_size as i64 == 10 {
                    assert_eq!(out[0], Submission::Close { fd: 11 });
                    assert!(matches!(out[1], Submission::Recv { fd: CLIENT, offset: 0, len: 2048, .. }));
                    break;
                }
                assert_eq!(out, vec![Submission::Nop { user_data: token as u64 }]);
            }
            _ => panic!("expected a chunk"),
        }
    }
    assert_eq!(offsets, vec![(0, 4), (4, 4), (8, 2)]);
}

#[test]
fn event_loop_sendfile_stops_when_nothing_is_sent() {
    let mut c = new_core(WriteStrategy::SendFileInAsyncEventLoop);
    let (token, buf) = connected(&mut c);
    let mut out = Vec::new();
    receive(&mut c, token, buf, 0, b"GET /f HTTP/1.1\r\n\r\n", &mut out);
    c.respond_with_file(token, "/srv/f", Ok(FileResult { fd: 11, size: 10 }), &mut out);
    let len = sent_header(&c, &out).len() as i32;
    out.clear();
    c.handle_event(len, token, 0, &mut out);
    out.clear();
    c.handle_event(0, token, 0, &mut out);
    c.complete_send_file_chunk(token, -1, &mut out);
    assert_eq!(out[0], Submission::Close { fd: 11 });
    assert!(matches!(c.token(token), Some(Token::Read { fd: CLIENT, filled: 0, .. })));
}

#[test]
fn splice_keeps_its_byte_accounting() {
    let mut c = new_core(WriteStrategy::PipeAndSplice);
    let (token, buf) = connected(&mut c);
    let mut out = Vec::new();
    receive(&mut c, token, buf, 0, b"GET /f HTTP/1.1\r\n\r\n", &mut out);
    c.respond_with_file(token, "/srv/f", Ok(FileResult { fd: 12, size: 1000 }), &mut out);
    let len = sent_header(&c, &out).len() as i32;
    out.clear();
    c.handle_event(len, token, 0, &mut out);
    c.begin_splice(token, 20, 21, &mut out);
    let (mut moved_in, mut moved_out) = (0i64, 0i64);
    for (ret, into_pipe) in [(600, true), (250, false), (350, false), (400, true), (400, false)] {
        c.handle_event(ret, token, 0, &mut out);
        if into_pipe { moved_in += ret as i64 } else { moved_out += ret as i64 }
        match c.token(token) {
            Some(Token::WriteBodySpliceFileToPipe { file_offset, remaining, .. }) => {
                assert_eq!((file_offset, file_offset + remaining as i64), (moved_in, 1000));
                assert_eq!(moved_in, moved_out);
            }
            Some(Token::WriteBodySplicePipeToSock { file_offset, remaining, in_pipe, .. }) => {
                assert_eq!((file_offset, file_offset + remaining as i64), (moved_in, 1000));
                assert_eq!(in_pipe as i64, moved_in - moved_out);
            }
            Some(Token::Read { .. }) => assert_eq!(moved_out, 1000),
            other => panic!("unexpected token {:?}", other),
        }
    }
    assert!(matches!(c.token(token), Some(Token::Read { .. })));
}
