# hyper-fast-path

The user space half of an eBPF fast path for HTTP servers. The fast path parses
HTTP/1.1 and HTTP/2 in the kernel and serves requests for static assets there;
everything else is passed on to an ordinary server.

- `src/` is the library, written in Verus. It renders the responses and lays
  them out for the kernel, keeps the books of the pool of sockets the fast path
  runs on, takes the fast path's own frames out of a client's byte stream, and
  decides what the connection loop has to do next. Every function states what it
  does, and every statement is proved. `laws.rs` and `render_laws.rs` hold what
  is true of a connection and of a response as a whole.
- `app/` is the file server around it: sockets, files, the HTTP codecs and the
  loading of the eBPF program. It needs `h2` with `prime_dynamic_table` and
  `consume_send_capacity` added to its server connection.
- `tests/` runs the library on concrete connections, assets and pools.

What is taken on trust: that `httlib_huffman::encode` succeeds on every input and
appends the same code for the same bytes, and that `u32::to_ne_bytes` lays a
number out in one of the two byte orders.
