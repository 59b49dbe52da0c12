# bip

A BitTorrent mainline DHT library and the bencode codec it speaks, written in Verus:
the code is ordinary Rust, and its behaviour is stated in `requires`/`ensures`
contracts that Verus proves.

## Layout

- `src/bencode/`: the bencode codec.
  - `spec.rs` models values (`BValue`), decoded nodes with their source bytes
    (`RefView`), the encoder (`encode_value`) and the decoder (`dec`, `decode_full`).
  - `decode.rs`, `encode.rs`, `reference.rs`, `refapi.rs`, `value.rs`, `mutable.rs`:
    the executable decoder and encoder, proved against the model.
  - `dict.rs`: a dictionary that keeps its keys strictly increasing.
  - `convert.rs`: typed lookups with conversion errors.
  - `laws.rs`: decoding what was encoded gives the value back.
- `src/dht/`: the DHT.
  - `transaction.rs`: action and message ids, handed out without repeats; `lemma_mid_run`
    and `lemma_aid_run` state this over any number of successive calls.
  - `routing/`: nodes and their status, buckets, and the routing table.
  - `message/`: the KRPC messages that are read and written; `round_trip.rs` states
    that reading an encoded message back gives it again.
  - `security.rs`, `token.rs`, `storage.rs`: node id checks, announce tokens, and the
    store of announced peers.
  - `worker/`: the decisions of the table refresh, the table bootstrap and the lookup
    of an info hash, as steps that say what to send and what to schedule; and, in
    `handler.rs`, the answers to the requests of other nodes and the routing of each
    incoming message to the action (lookup, refresh or bootstrap) it belongs to.
  - `router.rs`: the well-known bootstrap routers.
- `app/`: what talks to the outside world: socket addresses, name resolution, the
  outgoing channel and timers.
- `tests/`: tests of the library on concrete values.

Outside crates are called through small trusted wrappers whose contracts say what
their documentation promises: `crc` (CRC-32C), `sha1` (SHA-1), `rand` (random
numbers) and `chrono` (the clock).
