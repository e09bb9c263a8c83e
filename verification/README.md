# file_proxy

A caching proxy for remote file access and the file server behind it.

Clients send framed, space-separated requests (`OPEN`, `READ`, `WRITE`,
`CLOSE`, ...) to the proxy. The proxy answers reads and takes writes from
a fixed-size cache of file entries kept in recency order (the least
recently used entry is evicted first, and its writes are sent back to
the server), and forwards
everything else to the file server, which carries requests out with
system calls.

Layout:

- `src/` is the library, verified with Verus: request parsing and
  rendering (`command`, `proxy::request`, `remote::request`), framing
  (`proxy::framing`), the cache and its entries (`proxy::cache`), the
  per-client file table and the path table (`proxy::user`), reply
  handling on both sides (`proxy::client`, `remote::reply`) and directory
  listings (`remote::dirtree`). `text` holds the shared character-level
  pieces.
- `app/` is the program: sockets, tasks and threads, system calls and the
  file system. Run it with `server` as its argument for the file server,
  without for the proxy (which reaches the server at `$SERVER_ADDRESS`).
- `tests/` runs the library on concrete values.
