# avl_tree

A self-balancing AVL tree of `i32` keys, used as a set, and a singly linked
list of `i32` values, both written in Verus with their behaviour stated in
contracts and proved.

- `src/avl/node.rs` — tree nodes and the model of a subtree: its values,
  in-order reading, height, search order, cached heights, balance.
- `src/avl/shape.rs` — the exact trees the operations build, node by node.
- `src/avl/balance.rs` — rotations and `rebalance`.
- `src/avl/ops.rs` — recursive insertion, removal of the minimum, deletion,
  in-order collection, textual rendering and the invariant checker.
- `src/avl/lemmas.rs` — value counts, sortedness of the in-order reading and
  the Fibonacci lower bound on the size of an AVL tree of a given height.
- `src/avl/tree.rs` — the public `AvlTree` (viewed as a `Set<i32>`) and its
  laws.
- `src/linked_list.rs` — the public `LinkedList` (viewed as a `Seq<i32>`).
- `src/text.rs` — the `[a, b, c]` rendering shared by both.
- `app/main.rs` — demonstrations and timing benchmarks.
