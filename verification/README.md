# Kamino

A distributed in-memory cache. Keys live in named maps; a consistent hash ring
with bounded loads places their partitions on the members of a cluster, a gossip
protocol keeps track of who is alive, and nodes and clients speak RESP.

The library holds the logic of the cache and states, as contracts that Verus
proves, what each part of it does.

## Layout

- `src/protocol`: RESP frames, their codec, and the commands that frames spell.
  Decoding inverts encoding, and a frame that is cut short is waited for.
- `src/cluster`: membership, gossip, the failure detector, publish/subscribe, the
  balancer, pools of connections, and the node that ties them together.
- `src/cluster/routing`: the hash ring, the routing table, where it is kept, and
  the coordinator that builds and spreads it.
- `src/client`: maps on a node, locks, partitions on the move, pipelines, and the
  client's side of the wire.
- `src/config`: the configuration, its validation, and environment variables over
  it.
- `src/text.rs`, `src/binary.rs`, `src/net.rs`, `src/member.rs`, `src/ids.rs`,
  `src/hasher.rs`, `src/clock.rs`, `src/buffer.rs`, `src/chance.rs`: what the rest
  is built from.
- Files named `*_laws.rs` hold what relates several operations, such as that views
  converge whatever the order of the news, or that a moved partition arrives.
- `tests`: the library from outside.
- `app`: what touches the world: sockets, files, the environment, tasks, floating
  point, and the command line.

## Time, chance and I/O

The library does no I/O and waits for nothing. Operations take the time as an
argument; what alternates with I/O is a state with steps, each of which says what
to send or wait for next. What random numbers decide is stated for every outcome.
