# airkan

Device side of the airkan remote-control protocol: a phone authenticates
over HTTP (port 6095) and then sends key events over a long-lived TCP
connection (port 6091).

- `src/` is the verified library: frame encoding and parsing (`proto`),
  the key-code table (`keymap`), key debouncing and the per-connection
  state machine (`server`), the HTTP authentication replies
  (`server::http`) and the mapping of keys onto player operations
  (`adapter`). Every function carries a proved contract, and the
  protocol's laws are stated as proof functions: framing of single frames
  (`proto`), steps of a connection independent of how its bytes are split
  into reads, the version request answered once per connection, keys
  handled alike before and after the handshake (`server::connection`),
  PlayPause debouncing and heartbeat spacing (`server`), and the shape of
  the HTTP replies (`server::http`).
- `app/` runs the service: sockets, threads and the clock, feeding bytes and
  timestamps to the library and carrying out the steps it returns.
- `tests/` exercises the library on concrete frames and requests.
