# oxide-federation

Cross-cluster GPU federation with gossip health, work stealing, quorum
decisions and graceful degradation, verified with Verus.

Each node is **Healthy** (+1, accepts work), **Recovering** (0, warming up) or
**Offline** (-1, down). Gossip propagates these states, a quorum is a strict
majority of healthy nodes among those that are not offline, work stealing
respects the overload threshold, and degradation hands the work of nodes that
go down to healthy ones.

## Layout

- `src/binary64.rs`: binary64 numbers as bit patterns: the rounded ratio of two
  32-bit integers, and the order of the numbers.
- `src/health.rs`, `src/node.rs`: health states; a node and its allocation.
- `src/manager.rs`: the manager, its model and its registry of nodes.
- `src/gossip.rs`, `src/quorum.rs`: gossip rounds; quorum votes.
- `src/stealing.rs`, `src/degradation.rs`, `src/routing.rs`: where work goes.
- `src/transfer.rs`, `src/ranking.rs`, `src/lists.rs`, `src/sums.rs`: what these
  build on.
- `app/`: constructors and readings in floating point.

## What is proved

Every operation of the manager is proved to compute a function on the manager's
model. On top of that, the public proof functions named `law_*` state, among
others:

- work is never created by moving it; what a move loses is exactly what found no
  room;
- no operation takes a node over its capacity;
- nodes that are not healthy never receive work;
- a round of gossip has one message for every ordered pair of nodes;
- a vote passes exactly when healthy nodes outnumber recovering ones;
- after graceful degradation no offline node holds work;
- rounding never turns the order of two utilizations around.

Nodes are walked in the order of registration; where two nodes rank equally,
that order decides. A caller who rewrites a node's id through `get_node_mut`
leaves the node filed under its former id; the laws that need every node to be
filed under its own id say so.
