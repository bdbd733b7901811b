# state_sync

Syncs the state of a block from other nodes, in a state machine that Verus verifies.

A sync works in one of two ways. With proofs, each response is a compact trie proof. The sync walks
the tries of the target's state as far as the proof goes, and what it passes goes to the client's
database: a node only after all that it refers to. What the client has already is left out, so that
an interrupted sync goes on where it ended. Without proofs, entries arrive trie by trie and are
gathered until the state is complete.

The library does not reach the client's database. An import that needs it pauses with a step:

- `Lookup`: the client says whether it has a node or value, and `resume` goes on.
- `Write`: the client writes a batch, and `written` goes on.
- `Done`: the import is over.
- `Malformed`: the proof holds something else where a node should be, and the sync is of no more use.

Nodes are hashed with Blake2-256.

## Modules

| Module | Contents |
| --- | --- |
| `state_sync` | the sync and its results |
| `sync_view` | what a sync holds and how it changes, as the contracts state it |
| `walk`, `level` | the walk through all tries, and through a single one |
| `storage` | entries that have arrived without a proof |
| `schema` | requests and responses |
| `soundness` | a complete sync has written the whole state and nothing else, nodes after what they refer to |
| `order` | the walk never goes back |
| `resumption` | the walk goes on exactly where a proof ended |
| `laws` | what else holds over several calls |
| `hash`, `keys`, `nibbles`, `node`, `proof_db`, `inline` | what the sync takes from other crates, with the contracts that it relies on |

`app/` binds the library to a Substrate client.
