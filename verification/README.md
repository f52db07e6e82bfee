# inkvec_trace

The integer core of a colour-image vectoriser, written in Verus and verified.

A vectoriser turns a raster into regions and the curves between them. Most of that work is
about *which pixel belongs to what*: a label map says which ink each pixel was drawn in, the
4-connected components of equal labels are the faces, and the boundaries between faces are
curves that each pair of neighbouring faces shares. This crate holds that logic, with
contracts that say exactly what each function computes, and proofs that it does.

## Layout

- `src/` — the verified library.
  - `grid`, `components`, `regions`: 4-connectivity on a label map, component numbering in
    scan order, speckle removal.
  - `planar`: the planar map — boundary segments on the dual grid, corners split where one
    diagonal is one face, segments walked into curves stored once and shared by both faces;
    `planar::rings` orders each face's curves into rings.
  - `fast`: row runs and the faces they form, contact lengths, union-find.
  - `gradient`: seam tables between components, which pixels may testify about a fill,
    residual features carved into regions of their own.
  - `intake`, `regroup`, `saddle`, `slivers`, `occlusion`, `ink_ideas`: the label-map
    decisions of the tracer's later stages.
  - `lib.rs`: what the container of an input file says about it (lossy or not), and
    decoding through the `image` crate.
- `tests/` — tests on concrete values.
- `app/` — the floating-point passes and the file loading around the library.

Each public proof function (`lemma_*`) states a law of the library in its doc comment.
