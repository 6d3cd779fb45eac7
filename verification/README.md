# amd

Approximate minimum degree ordering of a sparse symmetric pattern, with the
postordering of the assembly tree that it produces, in Verus.  What is
proved: the postordering of the assembly tree (`post_tree`, `postorder`) and
the numbering built from it, path compression and the flag reset, in full;
of the ordering `amd_2`, that it never panics, that a successful run returns
a permutation and a well-formed assembly tree, and its whole result when no
row needs a pivot step.  That `amd_2` succeeds on every valid pattern, and
which pivots it picks, are not proved.

Layout:

- `src/amd.rs`: the `EMPTY` marker, the `flip` encoding, `Info` and `Status`.
- `src/amd_2.rs`: the ordering `amd_2` and its steps: the flag reset
  `clear_flag`, path compression (`compress_paths`) and
  the numbering of the variables from the postorder (`permutation_from_order`).
- `src/forest.rs`: the model of a forest given by children lists and of its
  postorder, with the lemmas about it.
- `src/post_tree.rs`: postorder of one tree, given by child and sibling links.
- `src/postorder.rs`: postorder of the whole assembly forest, with the biggest
  child of each element last, and the laws of that postorder.
- `app/`: the control parameters, whose dense ratio is a float, the dense
  threshold `dense * sqrt(n)` computed from them, and the ordering driven by
  them.
- `tests/`: tests of the library on concrete inputs.
