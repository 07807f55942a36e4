# rusty_torrent

A BitTorrent client whose protocol logic is a library verified with Verus.

- `src/` — the verified library: bencode decoding (`bencode`), `.torrent`
  metainfo and magnet links (`torrent`), the peer wire protocol: messages,
  handshakes, bitfields and per-peer state (`peer`), tracker requests and
  answers over HTTP and UDP (`tracker`), planning which trackers to ask and
  merging their answers (`session`), and small helpers for numbers, text and
  big-endian integers (`num`, `text`, `wire`). Calls into `sha1`, `rand`,
  `url` and std that Verus cannot read stand behind small trusted wrappers,
  each with a doc comment saying what is taken on trust.
- `app/` — the command-line program around it: argument parsing, the TOML
  configuration file, sockets, timeouts and terminal output.
- `tests/` — tests of the library on concrete values.
