# GhostRPC

An HTTP/2 tunnel with SNI routing. A client listens on local addresses, looks at the server name
of each connection, and carries the connection through a pool of HTTP/2 connections to a server,
which passes it on to its target. Whoever does not know the hidden path and the shared secret gets
to see an ordinary web site.

## Layout

- `src/` is the library, verified with Verus: what client and server decide, as functions with
  contracts, and the laws that hold between them.
- `app/` is the program around it: sockets, TLS, HTTP/2, timers, files, the race between the
  addresses that a server is dialled at, and the little that is computed in floating point.
- `tests/` runs the library.

| module | what it decides |
| --- | --- |
| `sni` | the server name in a ClientHello, and how long to look for it |
| `routing`, `ip`, `config` | port mappings, and where a connection goes |
| `frame` | the framing of payloads in HTTP/2 streams |
| `client` | the pool, which connection a tunnel goes through, retries, addresses, requests |
| `server` | which requests open a tunnel, and how the others are answered |
| `sessions`, `udp_proxy` | sessions of peers, authorized addresses, where datagrams go |
| `acme` | zones, challenge records and the course of an order |
| `crypto` | padded and sealed payloads |
| `fragment` | how the first bytes of a connection are cut up and delayed |
| `buf_pool`, `buffers`, `random`, `net_utils`, `startup`, `string_map`, `text` | the rest |

## What is believed

Calls into other crates stand behind small functions marked `#[verifier::external_body]`, each with
a contract and a comment that names the call: byte buffers (`buffers`), bounded queues
(`buf_pool`), random numbers (`random`), SHA-256 and AES-256-GCM (`crypto`), base64 (`acme`), UTF-8
(`text`) and the clock (`net_utils`). Everything else in `src/` is proved.
