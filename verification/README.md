# colophon

A *self-describing plaintext workspace*: a set of documents whose structure lives in the
documents' own embedded metadata (frontmatter), not in the file system layout or an
app-private sidecar folder. Follow the links in the metadata and the whole structure
unfolds, from a distinguished root that describes the whole.

The library is verified with Verus. It does no I/O of its own: each operation says what to
read, computes every edit, and hands out the storage operations to carry out.

## Layout

- `src/path.rs`, `src/link.rs`: lexical paths, link texts, relative targets.
- `src/identity.rs`: stable IDs with a check character, and when documents earn them.
- `src/index.rs`: registries of IDs, with tombstones in the persistent one.
- `src/meta.rs`, `src/embed.rs`, `src/document.rs`, `src/edit.rs`: metadata, the block it is
  embedded in, documents, edits by dotted path. Reading, writing and editing the text forms
  is the business of the `fig` crate.
- `src/relation.rs`, `src/workspace.rs`: the vocabulary of links and where links lead.
- `src/mutate.rs`, `src/operation.rs`: creating, moving and deleting documents with link
  maintenance, and the steps that takes.
- `src/validate.rs`: integrity findings over the graph.
- `src/fs.rs`: what storages share, and the atomic-write protocol.
- `src/tree.rs`, `src/report.rs`: the texts that the command line prints.
- `app/`: the command line, and the backend over the process file system.
