# bitrufus_core

The engine core of BitRufus, a BitTorrent client built on librqbit, as a Verus-verified
library.

- `src/` is the verified library: tracker announce URLs and compact peer lists
  (`announce`, `peers`, `bencode`), the local announce proxy's request handling
  (`proxy`), the table of managed torrents with its engine ids (`registry`), per-torrent
  decisions (`torrent`), the magnet links and `.torrent` files on which librqbit's parsers
  are known to panic or exhaust the stack, refused before those parsers are called
  (`guard`), where a torrent's files lie and which stubs may be removed
  (`layout`), and the records shown to the host (`types`). Laws that span several
  functions are public proof functions named `law_*`.
- `tests/` exercises the library on concrete values.
- `app/` is the unverified shell: the librqbit session, sockets, HTTP requests, the
  storage backend and file removal, calling the library for every decision.
