# everdiff

A semantic diff for YAML documents: it compares the structure of two sets of
documents rather than their text, pairs documents by an identifier (by
position, by Kubernetes group/version/kind and name, ...), and renders each
difference as a side-by-side snippet of the two sources.

The library under `src/` is verified with Verus:

- `yaml`, `source`: the document tree (read with `saphyr`) and the documents
  of a file with their line numbers.
- `path`, `node`: paths into a document, ignore patterns and lookups.
- `diff`: differences between two documents (mappings by key, sequences by
  index or by similarity, with moves).
- `multidoc`: pairing the documents of two files and the differences between
  the pairs, sorted.
- `inline_diff`, `layout`, `wrapping`, `snippet`, `report`: the rendering, from
  character-level highlights to the full report.
- `prepatch`: patches applied to documents before they are compared.

`app/` holds the command line program: argument parsing, reading files,
watching them for changes and printing the report.
