# iobeam

An HTTP/1.1 file server built on Linux's `io_uring`, with one event loop per
worker thread and no shared state. Its logic is written in Verus and proved
against its contracts.

## Layout

- `src/` — the verified library.
  - `range.rs`: the `Range` request header.
  - `http.rs`: response headers, request-line helpers, request-path decoding.
  - `file_system.rs`: mapping request paths onto files under the served
    directory, and the proof that a resolved path never leaves it.
  - `buffer_pool.rs`: the pool of fixed-size request/response buffers.
  - `server.rs`: the event loop's decisions. A token per connection records
    what the connection waits for; each completion moves it on and yields the
    io_uring submissions to queue next, or names a system call whose outcome
    the next step needs.
  - `test_data.rs`: the plan of the benchmark data set (directories, names
    and sizes from one random draw per file).
  - `text.rs`, `codec.rs`, `header_buffer.rs`, `path_buffer.rs`: text helpers
    and the contracts of the outside crates the library calls (`arrayvec`,
    `itoa`, `mime_guess`, `percent-encoding`, `httparse`, `slab`, `io-uring`).
- `app/` — the program: command line, sockets, the ring itself, files and
  system calls, driving the library's decisions; and the writer of the
  benchmark data set (`app/test_data.rs`).
- `tests/` — tests of the library on concrete values.

## Usage

```sh
iobeam [DIR] [--bind 127.0.0.1] [-p 3456] [--threads 4]
       [--write-strategy send-file-in-async-event-loop|pipe-and-splice|send-file]
       [--uring-entries 256] [--body-write-chunk-size 262144] [--backlog 1024]
```

Requires Linux 5.19 or later (multishot accept).
