# ftpl

Formal tensor layouts, verified with Verus.

A *space* is a list of named dimensions with sizes; a *layout* is an
algebraic expression that maps points of one space to points of another
(linearize, delinearize, permute, reshape, split, join, broadcast, swizzle,
binary shadows over GF(2), compositions, products, ...). The library gives
each layout its meaning on points, lowers it to integer index arithmetic,
inverts it where it can, simplifies and fuses it, and judges structural
properties such as injectivity, aliasing, strides and vector widths.

Layout of `src/`:

- `space.rs` – dimensions, spaces, valuations, row-major (de)linearization;
  `extent_law.rs` – what simplifying an extent keeps.
- `layout/` – scalar index expressions, layout expressions, their meaning
  (`apply.rs`), lowering (`lower.rs`), GF(2) matrices (`gf2.rs`), inverses
  (`inverse.rs`), the `Layout` builders (`builder.rs`) and the laws that tie
  these together (`*_law.rs`).
- `analysis.rs` – judgments, simplification, normal forms, strides and
  vectorization.
- `fusion.rs`, `undefined_law.rs`, `normal_form_law.rs`, `judgment_laws.rs`,
  `surjectivity_law.rs`, `stride_law.rs`, `image_law.rs`, `volume_law.rs` –
  laws on fusion and equivalence (including where simplification keeps
  undefined points undefined), on normal forms of single layers and of
  ordered pairs of layers, on the injectivity, aliasing and surjectivity
  judgments, on strides, on images lying in the target, and on the
  generators that keep the volume.
- `viz.rs` – CUDA index text and the cell grid of an SVG picture.

`app/` holds what needs floating point: the SVG rendering itself.
