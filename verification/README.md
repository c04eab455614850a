# torrent_streaming

Decides which pieces of a torrent are downloaded while its files are being watched, and
resolves tracker names through one DNS server that is reached over one network interface.
The logic is verified with Verus.

- `src/` is the verified library.
  - `lengths`, `stream_state`: pieces, and the state of one stream with its lookahead and its
    rolling priority window.
  - `interleave`, `streams`: the streams and anchors of a torrent, and the order in which the
    pieces that they need are asked for.
  - `file_stream`, `torrent`: readers of files, and what a torrent answers in each of its states.
  - `addr`, `dns`, `resolver`: DNS messages, and the steps of resolving a name.
  - `laws`: what holds across several calls.
  - `outside`: everything that is taken from other crates without proof, with its contracts.
- `app/` performs what the library decides: it reads storage and sockets, and wakes tasks.
- `tests/` runs the library.
