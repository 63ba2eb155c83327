# tcp_board

A small message board spoken over TCP. A client sends each line it reads as a
JSON request inside a length-prefixed packet; the server keeps the latest
posts and answers with the whole board, one `address:content` line per post.

- `src/` is the library, verified with Verus:
  - `packet`: the wire format (a big-endian `u32` length field, then the
    payload), with the laws that reading what was written gives it back and
    that a buffer that reads is exactly the bytes of what it reads as.
  - `text`: splitting on a separator, joining, and reading decimal numerals.
  - `command_args`: the client's `-h HOST -p PORT` arguments and the endpoint
    they name; `tcp`: the client's settings.
  - `request`, `response`: the messages; `models`, `repositories`,
    `commands`, `cqrs`: posts, their history and the command that adds one;
    `app`: what each request does to the history and what is answered.
- `app/` holds the programs around it (sockets, threads, standard input, JSON
  through serde, logging). One binary runs the server when `--server` is among
  its arguments and the client otherwise.
- `tests/` runs the library on concrete values.
