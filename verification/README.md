# cuicui

Data structures and algorithms behind a rich-text and styling system, with
their contracts proved by [Verus](https://github.com/verus-lang/verus).

- `src/bits.rs`, `src/bitset.rs`, `src/bitmatrix.rs`, `src/jagged_bitset.rs`:
  bitsets, bit matrices and jagged bit arrays, with their text renderings.
- `src/enum_bitmatrix.rs`: a bit matrix with one row per variant of an enum.
- `src/jagged_vec.rs`, `src/jagged_const_row_array.rs`: jagged arrays.
- `src/sorted.rs`, `src/bitmultimap.rs`, `src/index_map.rs`,
  `src/index_multimap.rs`: sorted collections and maps of small integers.
- `src/binding.rs`: values bound to ids, layered in views, with an entry API;
  `src/binding/world.rs`: names interned by `string-interner`, global and
  local bindings by name.
- `src/resolve.rs` and `src/resolve/`: the dependency analysis of modifiers
  (masks, static modifiers, field and modifier dependencies) and the
  decisions of an update; `src/resolve/minimal.rs`: a resolver that only
  keeps the single section each binding modifies.
- `src/reflect_path.rs` and `src/reflect_path/`: parsing of field paths and
  lists of non-overlapping paths.
- `src/modifiers.rs`: the `modify` attributes of a modify function and the
  checks that the function matches them; `src/modifiers/path.rs`: reading
  the field paths of those attributes from their tokens;
  `src/modifiers/block.rs`: the checks on the items of an `impl_modify`
  block.
- `src/tree.rs`: the sections of a parsed format string.
- `src/post_process.rs`: splitting and unescaping of section text;
  `src/post_process/styleable.rs`: styling parsed sections (splitting them
  into pieces, chopping, aliasing modifiers), with the law that splitting
  keeps the text; `src/post_process/finish.rs`: making the modifiers of a
  resolver, and the hooks of tracked values, from the styled sections.
- `app/`: formatting, error types, iterator adapters, and the application of
  user modifiers, outside of the verified library.
