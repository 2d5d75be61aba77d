# AleDB

A document store. Documents are JSON objects, found by id, by the values of their fields, by
collection and by tenant. A leader takes changes and logs them; followers ask it for what is new.

The library, under `src/`, is verified with Verus. The server around it, under `app/`, does the
input and output.

| Part | Modules |
| --- | --- |
| Values | `value`, `number`, `text`, `decimal`, `ordmap`, and `json` with `serde_json`, `rmp_serde` and `zstd` |
| Queries | `query`, `eval`, `sort`, `search` |
| The store | `store`, `index`, `recency`, `ids`, `clock`, `dump` |
| The node | `engine`, `config`, `shard`, `wal`, `record`, `snapshot`, `named`, `files`, `replica`, `service`, `reply` |
| A store with lists | `lists`, `indexed`, `list_service` |
| Stores without an index | `basic`, `basic_service`, `bulk` |
| What holds of them | `answers`, `consistency`, `history`, `list_consistency`, `recovery`, `repetition`, `replication`, `soundness`, `tenancy`, `written` |

Snapshots are written as Zstd-compressed MessagePack, named `snap_<ms>.msgpack`, and logs as
`wal_<ms>.msgpack`: records of a length in 32 bits, lowest byte first, and a MessagePack payload.
