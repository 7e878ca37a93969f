# gemma4_kernels

Kernels of a transformer decoder layer for a tensor processor with two clusters of 256 slices:
the query, key and value projections, the output projection, and the feed-forward block with
4-bit weights. What each kernel computes, and where every value lies while it does, is stated in
`requires` and `ensures` clauses and proved by Verus.

A kernel never computes with floating-point values. It moves bit patterns between layouts and
asks an arithmetic unit, a closure, for each sum, product or rounding. Contracts speak of the
function that the unit computes; what the unit computes is up to the caller. Laws of arithmetic
that a result rests on are hypotheses on that function.

- `src/layout.rs`: axes, mixed-radix layouts, cells and points.
- `src/engine.rs`: the requests to the arithmetic unit.
- `src/tensor.rs`: tensors and the steps that kernels are made of.
- `src/places.rs`: where the kernels put their tensors.
- `src/quantize.rs`: values as a high and a low 8-bit float with a scale per group.
- `src/operands.rs`: the split values of the feed-forward block, and how they reach the slices.
- `src/blocks.rs`: rows of 4-bit weights in scaled blocks.
- `src/activation.rs`, `src/mlp.rs`: the feed-forward block.
- `src/projection.rs`, `src/output.rs`: the attention projections.
- `src/diagnostics.rs`: a plain copy.
- `src/footprint.rs`: which slices, runs and bytes the placements take up.
- `src/signs.rs`, `src/powers.rs`: what signs and powers of two do to the results.
- `src/zeros.rs`: zeros stay zeros.
- `src/accuracy.rs`: how near the parts come to their values, and the projections to the exact
  products.
- `src/calm.rs`: which requests have to be harmless for these laws.

`app/` answers the requests with the processor's functional model and runs the kernels on host
buffers.
