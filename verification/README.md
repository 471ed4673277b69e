# p2p-distribute

The rules of a download that fetches the pieces of a file from many peers,
written in Verus. The functions of the library are verified: they meet their
contracts, do not panic and do not overflow. The few that call code from outside
are believed instead, as listed under Trust.

## Layout

- `src/` is the library. It does no input or output, reads no clock and takes no
  locks: callers hand it bytes and points in time and act on what it answers.
- `app/` is ordinary Rust around the library: errors with `Display`, a clock,
  locks, readers, and what is computed in floating point (scores and speeds).
- `tests/` holds one file of tests for each module of the library.

## Modules

| Module | What it holds |
| --- | --- |
| `message`, `fast_extension` | peer wire messages and their byte format |
| `metadata_exchange` | torrent metadata in blocks, checked against its hash |
| `local_discovery` | announces on the local network |
| `handshake`, `pex`, `obfuscation` | capabilities, peer gossip, stream masking |
| `peer_id`, `network_id` | identities and their texts |
| `group`, `manifest` | members and roles, signed content lists and their differences |
| `torrent_info`, `piece_map`, `piece_validator`, `merkle` | pieces, their states, validation and retries |
| `piece_data_cache` | piece bytes in memory, with adaptive replacement |
| `peer`, `peer_pool`, `peer_stats`, `peer_affinity` | peers: connections, backoff, trust, affinity |
| `phi_detector`, `mirror_health` | heartbeats and the health of mirrors |
| `gateway`, `gateway_adapter` | HTTP range requests |

`codec`, `text`, `time`, `rank`, `list`, `digest` and `entropy` are what these
are built from. `digest` and `entropy` hold the calls into `sha1`, `sha2` and
`getrandom`.

## Contracts

A type is seen through its view, a plain mathematical value, and its invariant is
called `wf`. Functions say over these what they return and change. Facts that
span several functions are public proof functions whose names begin with `law_`.

## Trust

These contracts are believed, not proved. Each stands above a call and what
converts its result.

| Where | Call | What is believed |
| --- | --- | --- |
| `digest` | `sha2`, `sha1` | a digest depends on the bytes alone |
| `entropy` | `getrandom` | the buffer keeps its length, an empty one never fails, a failure has a code other than 0 |
| `local_discovery` | `std::str::from_utf8` | text exactly for valid UTF-8, with the same bytes |
| `piece_data_cache` | `Arc::<[u8]>::from` | the same bytes |
| `text` | `String::push` | one character more |
| `peer_id` | `Hash` of an array | nothing |
