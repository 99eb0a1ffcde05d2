# beancount_lsp

The logic of a language server for beancount ledgers, verified with Verus.

- `src/text.rs`, `src/strings.rs`: texts counted in characters, bytes, UTF-16 code
  units and lines.
- `src/ropes.rs`, `src/syntax.rs`, `src/requests.rs`, `src/uris.rs`,
  `src/file_path.rs`: the contracts of the calls into ropey, tree-sitter, lsp-server,
  url and the paths of the standard library. What these files claim of those calls is
  believed, not proved.
- `src/treesitter_utils.rs`: positions, edits, line lookups, parses with a budget.
- `src/paths.rs`: maps and sets keyed by file path.
- `src/document.rs`, `src/document_store.rs`: open documents, syntax trees and what is
  extracted from them.
- `src/routes.rs`, `src/progress.rs`, `src/server.rs`: how the server reacts to
  messages and to finished background work.
- `src/providers/`: go to definition, and the lines that take part in alignment.
- `app/`: the running server around the library.
- `tests/`: scenarios on concrete values.
