# tenet_matrixalgebra

Matrix algebra on block-sparse tensors whose blocks are labelled by pairs of
fusion trees: QR, LQ, SVD, polar and eigenvalue decompositions, null spaces,
inverses, pseudo-inverses, solves and matrix exponentials, one coupled sector at
a time.

- `src/` is the library, verified with Verus. It gathers tensors into sector
  matrices, plans which region of the output each sector fills, drives the dense
  work sector by sector, completes bases, and publishes factors back into block
  layouts. Scalars are an opaque `Copy` type; dense kernels, scalar arithmetic and
  the layouts of outputs come in as functions, and the contracts say what they are
  handed, in which order, and what becomes of every answer.
- `app/` holds what works on floating-point numbers or on a symmetry provider:
  norms, tolerances, the phase of a number, truncation decisions, and the entry
  points that connect a dense backend with the library.
- `tests/` runs the library on concrete tensors.

Sectors, and trees through a number computed from their labels, are found in an
`FxHashMap` of `rustc-hash`; its four trusted declarations stand in
`src/sector_map.rs`. The only other trusted declaration, in `src/probe.rs`, reads
where a buffer starts and claims nothing of it.
