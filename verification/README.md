# rust_sugiyama

The integer core of a layered (Sugiyama-style) graph layout, written in Verus
and proved against its contracts.

- `src/` is the verified library. Every function there carries a
  `requires`/`ensures` contract that Verus checks; nothing in it is taken on
  trust:
  - `component_graph`, `layering`: the edges of one component between
    local nodes with their cluster penalties, their orientation, and the
    layered graph with its dummy chains and label nodes.
  - `component_rank`, `component_order`: one component taken through those
    phases in turn, from its input edges to ranks (`rank_component`) and
    on to the layered graph in its first order with the constraints of its
    flat edges (`order_component`). Without self-loops the ranks satisfy
    every edge, and the layered graph joins only adjacent ranks.
  - `acyclic`: depth-first reversal of back edges so that the edges form no
    cycle, with the search itself written as a spec (`dfs_visit`, `dfs_scan`).
  - `topo`, `ranking`, `simplex`, `assign`, `list_agree`: topological order,
    forward relaxation, the refinement passes and the rank assignment for
    every ranking type that needs no blending, each stated exactly by a spec
    function; `list_agree` shows that the passes read their adjacency lists
    only through the lists' contents.
  - `refine_range`: how far the refinement passes move ranks. The passes
    compute in `i32` with `i32::MIN / 4` and `i32::MAX / 4` standing for a
    missing bound, so their contracts ask that the ranks stay within that
    range. `law_refine_stays_within` and `law_compact_stays_within` prove
    that they do whenever the lengths are not negative, the order lists no
    edge backwards, and the largest starting rank plus twice the node count
    times the longest length fits in that range (or, from a feasible start,
    the largest rank and the node count times the longest length each do).
    `refine_checked`, `compact_checked` and `try_assign_ranks` check the
    range as they go and answer whether they stayed in it, for callers that
    cannot know it beforehand.
  - `crossings`, `layer_order`, `transpose`: Fenwick trees, weighted
    crossing counts, orders within ranks and the transposition sweep (stated
    exactly by `transpose_spec`), with a crossing potential that every swap
    lowers by exactly what it gained.
  - `components`, `connectivity`, `membership`, `cluster_paths`, `clusters`, `cluster_tree`,
    `cluster_order`, `cluster_closure`, `rank_blocks`: connected components,
    cluster memberships, lineages, depths, sibling groups, the nodes each
    cluster gathers from the clusters nested in it, the cluster ordering
    rules and the base ranks of the blocks ranked inside a container.
  - `config`, `edges`, `routing`: option names, edge records and small helpers.
  - `finite_sums`: finite sums used by the crossing proofs.
- `app/` holds what stays outside the proofs: reading options from the
  environment, the floating-point blending of the hybrid ranking, cycle
  removal through petgraph, and the floating-point placement around the
  verified cluster constraints.
- `tests/` exercises the library on concrete graphs.

Two lookups are kept in vectors rather than hash maps. `DirectChildLookup`
answers "which cluster of a node lies directly inside a parent" from each
node's chain of clusters instead of a map keyed by `(parent, node)` pairs:
vstd models hash maps with integer and `bool` keys, not keys that hold an
`Option`, so such a map could not carry the contract. The source, sink and
pinned sets of the ranking passes are vectors as well, read with the same
membership answers a set would give.
