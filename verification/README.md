# osm-soa-bake

OpenStreetMap extracts baked into a Morton-sorted slab of 512-byte rows. What
decides or computes on integers, texts and bytes is verified by Verus. What does so
in floating point (projections, distances, headings, fits) is not: it stands in
`app/`.

- `src/` is the library. A feature is read (`read`), keyed on a z=32 grid (`tms`),
  split, sorted and given an ordinal (`row`, `bake`), and laid out as a row
  (`node`, `identity`, `cluster`, `street`). A bake travels as a slab (`slab`), a
  sidecar of codebooks (`codebook`), a chains file (`chains`), an index of
  fragments (`fragment`) or an Arrow table (`lance_abi`). `parity` reads a bake
  back from its bytes and states that nothing is lost. The other modules hold the
  rules behind the measurements: corridors, junctions, roads, buildings,
  boundaries, addresses and house numbers.
- `app/` is the command line around it: files, the extract reader, the dataset,
  and floating-point geometry.
- `tests/` runs the library on concrete values.

Properties that hold of all inputs are public proof functions whose names begin
with `law_`.
