# postflop_solver (verified core)

Verified pieces of a postflop poker solver's game-tree bookkeeping, written in Verus.

- `src/action_tree.rs`: board streets (`BoardState`), cards and tree actions.
- `src/solution.rs`: save/load options of a solved game and the storage-mode check of a save.
- `src/icm.rs`: normalization of a tournament payout structure, with its laws.
- `src/game/base.rs`: chip accounting along a line of actions, terminal stack changes for
  tournament ICM (including re-rooted trees), board and seat validation, chance-node cards,
  per-street node counts, memory estimates.
- `src/game/tree.rs`: the walk of a game-tree arena that finds the chip contributions of every
  reachable terminal node (skipping children a truncated save dropped), and its well-formedness
  check.
- `src/game/placement.rs`: placing a decision node's actions in the arena while the tree is
  built.
- `src/game/removal.rs`: removing a line from a built game tree (the node keeps its other
  actions in order, the removed subtree's storage is released), with the completeness check of
  an arena.
- `src/game/state.rs`: the lifecycle of a game (configured, tree built, memory allocated,
  solved) and the checks that gate line removal, tournament ICM and memory allocation.
- `src/game/storage.rs`: the storage offsets of the nodes of an arena.
- `src/game/bunching.rs`: the memory estimate of the bunching-effect tables.
- `app/lib.rs`: the floating-point ICM computations (Malmuth-Harville values and terminal
  utilities), and the removal of several lines in turn, built on the verified functions above.
- `tests/`: tests of the library.
