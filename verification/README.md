# auth-kademlia-rs

A node of an authenticated Kademlia network: peers exchange signed records over UDP,
every record lives on the `k` nodes closest to its key, and updates stand only if a
majority of a small group of replicas acknowledged them.

The library under `src/` holds what the node decides, written in Verus and proved
against the contracts that stand on its functions:

- `fragmentation`, `reassembly`: messages cut into datagrams and put together again
- `long_id`, `node`: ids, the XOR metric, the bounded set of the closest nodes
- `storage`: records with a byte budget and expiry
- `protocol`, `peers`, `crawling`: messages, expectations, request handlers,
  replication, strikes against peers
- `network`: lookups, publications, updates, replica selection, quorums
- `crypto`: the registry of signature algorithms and the interfaces of back ends
- `py_bindings`: what language bindings show
- `clock`, `endpoint`, `text`, `utils`: time, addresses, text and ids as plain values

What a contract takes for granted of other crates stands in the doc comments of the
functions marked `external_body`.

Public functions named `law_..` state what holds of the library as a whole.

`app/` is the node around it: sockets, tasks, serialisation, Python bindings. It asks
the routing table, the crawler and the signature back end (traits in `app/backends.rs`)
what a decision needs, and does what was decided. `tests/` runs the library on concrete
values.
