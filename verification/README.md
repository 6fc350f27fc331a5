# radar

A small watcher of Docker containers. The library (`src/`, verified with
Verus) holds the logic:

- `bytes`: searching and splitting byte sequences.
- `number`: reading unsigned integers in base 10 or 16, writing them in decimal.
- `text`: UTF-8 decoding and trimming of white space.
- `http`: parsing HTTP/1.1 responses (status line, header lines, chunked
  transfer encoding, body), against the model `response_outcome`.
- `docker`: the text of the requests sent to the Docker engine, and the
  decision when to stop reading a reply.
- `json`: JSON text, as a spec recognizer and a checker (`is_json`).
- `ffi`: the script that turns a container's inspection record into a
  `docker run` command line, run in QuickJS (`quick-js`).
- `laws`: what parsing gives back of a well-formed response or chunked body.

`app/main.rs` holds the Unix socket to the engine and the printing.
