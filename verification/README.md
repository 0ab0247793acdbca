# dms_node

A storage node of a distributed memory store, written in Verus. The node holds immutable blocks in
memory, lays values and files out over them, hands reads out to clients, pulls what it lacks from
other nodes, and gives memory back once nobody needs it. A metadata service, which is not part of
this crate, decides which version of a value is the current one.

## Layout

- `src/` is the library. All of it is verified; what it believes of other crates stands in
  `digest.rs`, `payload.rs`, `identity.rs` and `peer_pull.rs`.
- `tests/` runs it. `tests/cluster.rs` drives several nodes and a metadata service step by step.
- `app/` is the task around the state: the mailbox, the calls over the network, the clock.

## How the library is put together

| modules | what they are about |
| --- | --- |
| `bytes`, `table`, `digest`, `identity`, `limits`, `payload`, `error` | the ground: byte strings, maps, names, limits, errors |
| `version_layout` | the extents of a value: overlay, truncation, holes, compaction |
| `arena`, `staging` | memory: blocks, what clients stage, what is set aside |
| `session` | clients, their leases, and the barriers that a write waits for |
| `current_cache` | what the node remembers of current versions |
| `protocol`, `read_plan`, `node_read`, `cached_read`, `data_core_read`, `read_flow` | reads |
| `value_write`, `layout_write`, `batch_write` | writes: proposed, published, settled |
| `peer_import`, `peer_pull`, `pull_plan`, `prefetch`, `node_import` | pulls from other nodes |
| `replica_transfer`, `replica_reporter`, `retirement` | replicas, and the end of blocks |
| `inode_reference`, `namespace`, `node_space` | what files and directories need |
| `node`, `node_session`, `command`, `dispatch` | the state as a whole, and what each request does to it |

The state is one value with one owner. Nothing in it waits: where the metadata service, another node
or a client has to answer first, a function returns what is to be asked, and another one takes the
answer. Time is an argument, in nanoseconds; whoever waits is a number.

Each type has a view, a plain mathematical value, and the contracts say what a function makes of it.
Proof functions with a sentence for a name state what holds across functions: that a value which was
written reads back, that a write waits for exactly the clients that may have cached the key, that no
memory is given back while somebody reads it.
