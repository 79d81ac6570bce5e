# mb_node

The node of a guild of five peers that keep each other's backups. The library
under `src/` decides; everything it decides is stated in `requires` and
`ensures` contracts and proved by Verus. The code under `app/` owns the
sockets, the files, the clocks and the libp2p swarm: it does what the library
says and tells it what came of that.

## The library

- Values: `ids`, `address`, `ordered`, `table`, `decimal`, `base32`, `hashing`,
  `framing`, `wire`, `catalog`.
- Which addresses may be used and told to others: `tor`, `policy`, `endpoints`,
  `port_mapping`, `book`.
- The event loop over the swarm, as a state with operations and a list of
  actions for the transport: `loop_state`, `links`, `metrics`, `transport`,
  `requests`, `sessions`, `discovery`, `peer_events`, `events`, `commands`,
  `listeners`, `status`, `config`; `laws` holds what stays true whatever
  happens.
- Records in the DHT, and their exchange among peers: `dht`, `queries`,
  `publication`, `publishing`, `exchange`.
- Backups: `commit`, `coding`, `backup_job`, `network_commit`; what describes
  them is sent and fetched in pages: `paging`.
- Recovery: `recovery`, `head_check`, `search`, `dht_recovery`, `direct`,
  `network_recovery`, `shards`, `local_shards`, `snapshot`.
- Services: `directory`, `control`, `automation`, `settings`, `arti_config`,
  `paths`, `tor_files`.

Long operations that wait for others are machines: `next` says what is needed,
and `take` is told what came of it.

What comes from other crates (hashes, the texts of addresses, TOML, keys) is
called through small wrappers whose contracts name the result.
