# net_test3

A small asynchronous HTTP server that serves files and directory listings.

`src/` is the verified library:

- `http`: requests (the parser of a request message, header access, the URL a
  request names) and responses (status, header fields, body, the head as it
  is sent).
- `headers`: the table of header fields, each name at most once.
- `text`: splitting, line splitting and trimming of text, with the std
  conversions the parser relies on.
- `url_text`: the calls into the `url` crate.
- `router`: what the static router answers for a missing path, a directory
  and a file.
- `reactor`: registrations, readiness bits, whom an event wakes, and the
  steps of a poll (attempt, park or complete).
- `runner`: the live tasks under fresh keys, one round of polling, and the
  state a waker holds.
- `fs`: results of the file-system worker kept under their tokens, and the
  length of one read.

`app/` is the program around it: sockets and the event queue (`mio`), the
futures and wakers, the file-system worker thread, and `main`.
