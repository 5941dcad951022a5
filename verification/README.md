# mangameeya_reborn

The verified core of a keyboard-driven manga reader, written in Verus.

- `src/natural.rs` — natural ordering of names (digit runs of any length
  compare by value), with its laws: reflexive, antisymmetric, transitive,
  numbers by value, lexicographic order without digits.
- `src/archive.rs` — which archive entries are pages (`is_image`), the
  comparator `natord_cmp`, and `ZipPageSource`, the stable natural sort of an
  archive's image entries.
- `src/decode.rs` — fit-to-box geometry (`fit_within`), RGB/RGBA bitmaps,
  decoding through `image` and Lanczos3 scaling through `fast_image_resize`.
- `src/reader.rs` — the viewer's decisions: right-to-left page navigation and
  centring a page in the window's frame buffer.
- `src/fixture.rs` — synthetic benchmark pages (XorShift noise, JPEG through
  `image`) and the plan of a fixture archive, with the proof that a generated
  fixture opens in plan order.
- `src/metrics.rs` — the benchmark record that holds no measurements.

`app/` holds what Verus does not see: reading archives from disk, the JSON
benchmark report and its floating-point statistics, the float colour
gradient of synthetic pages, the CPU benchmark, the fixture generator and the
winit/softbuffer and iced viewers.

`app/spike_iced.rs`, the iced viewer, needs the `iced` crate (0.13, with
its `image` and `tiny-skia` features), which `Cargo.toml` deliberately does
not list, to keep the dependency tree small; add it to build that viewer.
The winit/softbuffer viewer runs the same verified decisions.
