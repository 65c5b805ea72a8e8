# fig2json

Cleans the JSON document decoded from a Figma `.fig` file so that it is
easy to turn into HTML/CSS: the flat node list is rebuilt into a tree, and
a series of passes strips or rewrites the fields that rendering does not
need.

The library in `src/` is verified with Verus:

- `json.rs`: the document model (`Json`), its mathematical view and the
  map operations on objects. A well-formed document holds each object's
  keys once, in sorted order, as a JSON map does.
- `schema/tree.rs`: building the tree (`build_tree`,
  `build_tree_with_components`); `schema/sibling_order.rs` and
  `schema/hierarchy.rs` hold its laws (siblings in position order, the
  depth bound only matters for looping hierarchies, well-formed output).
- `schema/transformations/`: the passes. Most delete fields through the
  shared walk of `prune.rs`, whose laws are in `prune_laws.rs`; the other
  passes state theirs beside them.
- `error.rs`: `FigError::ZipError` with the text of a failure, and
  `TreeError`, the reasons the tree builder fails.
- `text.rs`: the string comparisons and formatting the passes use.

`app/` offers the same operations on `serde_json::Value` documents. The
C entry points of the converter (`fig2json_convert_file`,
`fig2json_free`) are not offered: they drive the `.fig` decoder and the ZIP
extraction, which are not part of this crate.
