# risuko_bt

The decisions of a BitTorrent engine as a verified library: wire formats and handshakes, torrent
files, piece selection, trackers, web seeds, the DHT, the session's registry of torrents and the
engine's options. Every function in `src/` carries a contract that Verus proves; what relates
several functions is stated as public proof functions beside them.

The library performs no I/O. It hands out what is to be sent, waited for, stored or deleted, and
takes in what came back.

- `src/` the library. `bencode`, `text`, `be`, `order`, `sums`, `ranked` and `assoc` are its
  foundations; `buf` wraps the buffers of the `bytes` crate; `net` has addresses.
- `tests/` runs the library on concrete values.
- `app/` sockets, files and JSON around it. Proxies, the datagram transport and the services of the
  local network are handed in behind the traits of `app/outside.rs`.

Functions of other crates stand behind small wrappers marked `external_body`. Each says in its doc
comment what is believed of the function it calls.
