# oxicache

An in-memory cache server with S3-FIFO eviction, the binary protocol it speaks,
and the client side of a cluster of such servers. Everything that decides
something is a verified Verus library; sockets, files, clocks and threads are
ordinary Rust around it.

## The library (`src/`)

| module | what it settles |
| --- | --- |
| `wire` | frames, SET bodies and batches: what is written is what is read |
| `io` | frames out of a byte stream and into one, whatever the cuts |
| `cache` | keys, the cuckoo index, the S3-FIFO shards, the sharded cache, size classes |
| `cache::policy`, `cache::laws` | what a shard does, as a state machine, and what holds of it |
| `tcp`, `http` | what a connection and a request are answered |
| `metrics` | the numbers that are served, and their text |
| `config`, `cli` | what the environment and the command line mean |
| `tls` | what PEM files hold: a chain and its key, what to trust |
| `client::pipe`, `client::link` | matching responses to callers, reconnecting, giving up |
| `client::batch` | typed slots of a batch, and their answers |
| `client::laws` | what a caller gets back through a server |
| `client::ring`, `client::cluster` | which server holds a key, failover, splitting a batch |
| `buf`, `text` | byte buffers and messages |

Contracts speak of mathematical models: byte strings, maps from keys to values,
queues of entries. A public proof function states what relates several
functions; its doc comment says it in words.

What is believed rather than proved stands in few places: the buffers of the
`bytes` crate (`buf`), the hash of `rapidhash` (`cache`), `String::push`
(`text`), lossy decoding and the kinds of I/O errors (`client::error`),
quoting (`config`), the PEM parser of `rustls-pki-types` (`tls`), and the clock
(`metrics`). Each has a doc comment that names the function and what is claimed
of it.

## The program (`app/`)

`oxicache serve` serves as the environment says:

| variable | default | meaning |
| --- | --- | --- |
| `OXICACHE_TCP_ADDR` | `0.0.0.0:4433` | address the TCP front end listens on |
| `OXICACHE_HTTP_ADDR` | unset (HTTP off) | also serve the HTTP API on this address |
| `OXICACHE_CAPACITY` | `1G` | memory budget for cached entries; `K`/`M`/`G` suffixes |
| `OXICACHE_TOKEN` | required | the shared secret; must not be empty |
| `OXICACHE_IDLE_TIMEOUT` | `300` | close a connection that sends nothing for this many seconds |
| `OXICACHE_MAX_CONNS` | `10000` | at most this many open connections, TCP and HTTP together |
| `OXICACHE_TLS_CERT` | unset (plain) | PEM file with the certificate chain and private key |

`oxicache get|set|del|bench` is a client for it; `--token` or `OXICACHE_TOKEN`
gives the token, `--addr` or `OXICACHE_ADDR` the server.
