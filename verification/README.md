# tun2proxy

The decision core of a bridge between a network device and a proxy, written in Verus and
proved against its contracts.

- `src/` is the verified library:
  - `dns_mapping`, `cache_laws`, `reverse_laws`: the DNS cache, with times to live and aliases;
  - `bypass`: patterns for the domains that are reached without the proxy;
  - `dns`, `dns_laws`: building and reading DNS messages;
  - `dns_over_tcp`: DNS queries that share one TCP connection;
  - `http`, `http_auth`, `http_response`: the HTTP CONNECT handshake and its authentication;
  - `proxy_handler`: handshakes, TCP sessions, and SOCKS5 UDP framing;
  - `session`: how accepted sessions are counted and routed;
  - `net`, `text`, `table`, `directions`, `session_info`, `error`: what these share.
- `app/` is the asynchronous code around it. It opens connections, reads and writes, performs
  the actions that the library gives it and comes back with the events.
- `tests/` runs the library on concrete values.

Everything that waits is left to `app/`: the library is made of functions and state machines
over plain values. Where it calls an outside crate, the call stands in a small wrapper whose
contract says what is relied on.
