# tree_net

A small feed-forward network kept as an arena of nodes (`Tree`), each node
holding a value, the indices of the nodes it feeds and one weight per edge.
It is built layer by layer from a `TreeBuilder`, walked depth first or layer
by layer with `PreorderIter`, run forward (`run_through_bf`,
`run_through_df`), perturbed for evolution (`perturb_weights`), and a
population of networks is ranked by score (`sort_by_score`).

The library is written in Verus and proved against its contracts. Node
values and weights are of a type chosen by the caller, who also hands in the
arithmetic (the weighted sum of an edge and the squashing function), so the
proofs are about which node feeds which, in what order, and what each run
leaves in the arena.

Layout:

- `src/node.rs`: `TreeNode`.
- `src/shape.rs`: facts about arenas (presence, value updates, same shape).
- `src/tree.rs`: `TreeBuilder`, `Tree`, the layered layout, forward runs.
- `src/iter.rs`: `PreorderIter`, the depth-first walk and the layer step.
- `src/evolve.rs`: weight perturbation along the walk.
- `src/rank.rs`: stable ranking of a population by score, and the rules that
  end a generation or an episode of training.
- `src/control.rs`: one frame of the keyboard cool-down in the window.
- `src/paths.rs`: counting paths; the walk over a graph without cycles ends
  and meets each node once per path from a root.
- `src/laws.rs`: properties across functions (reading back writes, built
  networks can run and give one activation per output, runs keep the shape,
  read only the roots' inputs and leave the inputs of a built network in place).
- `app/`: the cart-and-pole simulation, training loop and window, with the
  floating-point arithmetic, random numbers and drawing.
