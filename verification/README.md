# fissure_client

A BitTorrent client whose protocol logic is a library verified with Verus.

- `src/` — the verified library: torrent metainfo and piece geometry
  (`models`), the peer wire messages and their framing, the tracker
  protocols (HTTP query strings, UDP packets, compact peer lists), the
  handshake and the per-connection state machine (`protocols`), piece
  selection, block requests and disk layout (`managers`), and the download
  plan and tracker refresh decisions (`orchestration`). Calls into
  `bitvec`, `sha1`, `url`, `urlencoding`, `rand` and `dashmap` sit behind
  small wrappers whose contracts are trusted.
- `app/` — the program around it: settings, torrent-file decoding, sockets,
  timers and the tasks that run each part.
- `tests/` — tests of the library's public functions.
