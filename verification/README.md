# cache-server

A minimal, multithreaded key/value cache that speaks the Redis protocol, with its
logic verified in [Verus](https://github.com/verus-lang/verus).

Commands: `SET`, `GET`, `DEL`, `KEYS`, `FLUSHDB`, `PING`, `QUIT`. Requests may be
sent as arrays of bulk strings or typed as lines, and they may be pipelined.

## Layout

`src/` is the verified library:

- `bytes`, `text`: byte strings, decimal numbers, UTF-8, lines that are safe to
  send back.
- `inline`, `multibulk`, `request`: requests, taken from the front of the input.
- `store`: the map from keys to values.
- `pattern`: shell patterns, through the `glob` crate.
- `reply`, `command`: replies, and what each command does.
- `session`: input handled, and answered, request by request.
- `connection`, `server`: when to read, write, wait and close; how connections
  are shared out among threads.
- `stream`, `wire`: laws. What a client writes is what the server reads, and what a
  client library sends may be cut into reads anywhere.

`app/` holds the sockets, the threads and the command line. `tests/` holds tests.

## Input that cannot be read

Some input has no reading at all: a backslash that ends the input inside a quoted
word, and a bulk length that reaches past the end of the address space. The
functions whose names start with `try_` return `None` for it; those without ask
for input that can be read. The server gives up the thread.

## Running

`cache-server [--port <port>] [--threads <threads>]` listens on port 6380 with one
thread for each processor unless told otherwise.
